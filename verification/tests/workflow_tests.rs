use meal_planner::catalog::{Component, Ingredient, Measurement, Recipe, Section, Tag, Unit};
use meal_planner::quantity::Quantity;
use meal_planner::workflow::{Mode, ModeValueError, PlannerState, Rating};

fn cup_of_flour(id: i64) -> Component {
    Component {
        ingredient: Ingredient { id: 42, display_singular: String::from("flour") },
        measurements: vec![Measurement {
            id,
            quantity: Quantity { num: 1, den: 1 },
            unit: Unit { name: String::from("cup"), abbreviation: String::from("cup") },
        }],
    }
}

fn recipe(id: i64, tag_ids: &[i64]) -> Recipe {
    Recipe {
        name: format!("recipe {id}"),
        id,
        slug: format!("recipe-{id}"),
        sections: vec![Section { components: vec![cup_of_flour(id)] }],
        tags: tag_ids.iter().map(|t| Tag { id: *t }).collect(),
    }
}

#[test]
fn mode_values_round_trip_and_corrupt_values_fail_loudly() {
    assert_eq!(Mode::Prepare.value(), 0);
    assert_eq!(Mode::Review.value(), 1);
    assert_eq!(Mode::from_value(0), Ok(Mode::Prepare));
    assert_eq!(Mode::from_value(1), Ok(Mode::Review));
    assert_eq!(Mode::from_value(7), Err(ModeValueError { value: 7 }));
}

#[test]
fn rating_values_and_labels_match_the_four_levels() {
    assert_eq!(Rating::Dislike.value(), -1);
    assert_eq!(Rating::Neutral.value(), 0);
    assert_eq!(Rating::Like.value(), 1);
    assert_eq!(Rating::Love.value(), 2);
    assert_eq!(Rating::Dislike.label(), "dislike");
    assert_eq!(Rating::Neutral.label(), "none");
    assert_eq!(Rating::Like.label(), "like");
    assert_eq!(Rating::Love.label(), "love");
}

#[test]
fn rating_words_parse_ignoring_case() {
    assert_eq!(Rating::parse("dislike"), Ok(Rating::Dislike));
    assert_eq!(Rating::parse("NONE"), Ok(Rating::Neutral));
    assert_eq!(Rating::parse("Like"), Ok(Rating::Like));
    assert_eq!(Rating::parse("LoVe"), Ok(Rating::Love));
    assert_eq!(
        Rating::parse("meh"),
        Err("Please enter dislike, none, like, or love.")
    );
    let through_fromstr: Rating = "love".parse().unwrap();
    assert_eq!(through_fromstr, Rating::Love);
}

#[test]
fn one_gather_phase_advances_offset_fills_the_batch_and_moves_to_review() {
    let mut state = PlannerState::initial();
    assert_eq!(state.get_mode(), Mode::Prepare);
    assert_eq!(state.get_offset(), 0);

    let page = vec![recipe(1, &[10]), recipe(2, &[20]), recipe(3, &[10, 20])];
    let outcome = state.run_gather(page, 3).unwrap();

    assert_eq!(state.get_offset(), 3);
    assert_eq!(state.get_mode(), Mode::Review);
    assert_eq!(state.previous_recipes.len(), 3);
    assert_eq!(outcome.selected.len(), 3);
    // Three one-cup flour components consolidate into a single line.
    assert_eq!(outcome.shopping_list, "flour: 3 cup");
}

#[test]
fn one_review_phase_updates_tag_scores_and_returns_to_gathering() {
    let mut state = PlannerState::initial();
    let page = vec![recipe(1, &[10]), recipe(2, &[20]), recipe(3, &[10, 20])];
    state.run_gather(page, 3).unwrap();

    let pending = state.get_previous_recipes();
    assert_eq!(pending.len(), 3);

    // Recipe 1 (tag 10): love; recipe 2 (tag 20): dislike; recipe 3: like.
    let order: Vec<i64> = pending.iter().map(|p| p.id).collect();
    let ratings: Vec<Rating> = order
        .iter()
        .map(|id| match id {
            1 => Rating::Love,
            2 => Rating::Dislike,
            _ => Rating::Like,
        })
        .collect();
    state.run_review(&ratings);

    assert_eq!(state.get_mode(), Mode::Prepare);
    assert_eq!(state.previous_recipes.len(), 0);
    // Tag 10: +2 (love) +1 (like) = 3; tag 20: -1 (dislike) +1 (like) = 0.
    let tag10 = state.tags.iter().find(|t| t.id == 10).unwrap();
    let tag20 = state.tags.iter().find(|t| t.id == 20).unwrap();
    assert_eq!(tag10.likes, 3);
    assert_eq!(tag20.likes, 0);
}

#[test]
fn a_recipe_once_served_is_never_served_again() {
    let mut state = PlannerState::initial();
    let page = vec![recipe(1, &[10]), recipe(2, &[20])];
    state.run_gather(page, 2).unwrap();
    state.run_review(&vec![Rating::Neutral, Rating::Neutral]);

    // The same catalog page again: everything is already history.
    let page_again = vec![recipe(1, &[10]), recipe(2, &[20]), recipe(9, &[10])];
    let outcome = state.run_gather(page_again, 2).unwrap();
    let ids: Vec<i64> = outcome.selected.iter().map(|r| r.id).collect();
    assert_eq!(ids, vec![9]);
    assert_eq!(state.get_offset(), 4);
}

#[test]
fn recipe_tags_join_relations_with_the_tag_table() {
    let mut state = PlannerState::initial();
    let page = vec![recipe(1, &[10, 20])];
    state.run_gather(page, 1).unwrap();
    let tags = state.get_recipe_tags(1);
    let ids: Vec<i64> = tags.iter().map(|t| t.id).collect();
    assert_eq!(ids, vec![10, 20]);
    assert!(tags.iter().all(|t| t.likes == 0));
    assert_eq!(state.get_recipe_tags(77).len(), 0);
}
