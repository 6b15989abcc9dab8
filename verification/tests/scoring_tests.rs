use meal_planner::catalog::{Recipe, Tag};
use meal_planner::scoring::get_matching_recipes;
use meal_planner::store::Tag as StoredTag;

fn recipe(id: i64, tag_ids: &[i64]) -> Recipe {
    Recipe {
        name: format!("recipe {id}"),
        id,
        slug: format!("recipe-{id}"),
        sections: Vec::new(),
        tags: tag_ids.iter().map(|t| Tag { id: *t }).collect(),
    }
}

fn table(rows: &[(i64, i64)]) -> Vec<StoredTag> {
    rows.iter().map(|(id, likes)| StoredTag { id: *id, likes: *likes }).collect()
}

#[test]
fn the_two_highest_scoring_recipes_are_picked_in_descending_order() {
    // Tag-likes of the three candidates sum to 5, 2 and 8.
    let candidates = vec![recipe(1, &[10]), recipe(2, &[20]), recipe(3, &[30])];
    let tags = table(&[(10, 5), (20, 2), (30, 8)]);
    let picked = get_matching_recipes(candidates, 2, &tags);
    let ids: Vec<i64> = picked.iter().map(|r| r.id).collect();
    assert_eq!(ids, vec![3, 1]);
}

#[test]
fn asking_for_more_than_exist_returns_them_all() {
    let candidates = vec![recipe(1, &[10]), recipe(2, &[20]), recipe(3, &[30])];
    let tags = table(&[(10, 5), (20, 2), (30, 8)]);
    let picked = get_matching_recipes(candidates, 9, &tags);
    assert_eq!(picked.len(), 3);
    let mut ids: Vec<i64> = picked.iter().map(|r| r.id).collect();
    let descending = ids.clone();
    assert_eq!(descending, vec![3, 1, 2]);
    ids.sort();
    assert_eq!(ids, vec![1, 2, 3]);
}

#[test]
fn a_recipe_score_sums_all_its_tags() {
    let candidates = vec![recipe(1, &[10, 20]), recipe(2, &[30])];
    let tags = table(&[(10, 2), (20, 2), (30, 3)]);
    let picked = get_matching_recipes(candidates, 1, &tags);
    assert_eq!(picked[0].id, 1);
}

#[test]
fn an_unseen_tag_counts_as_zero() {
    let candidates = vec![recipe(1, &[99]), recipe(2, &[30])];
    let tags = table(&[(30, 1)]);
    let picked = get_matching_recipes(candidates, 1, &tags);
    assert_eq!(picked[0].id, 2);
}

#[test]
fn ties_fall_to_the_later_candidate_after_the_reversal() {
    let candidates = vec![recipe(1, &[10]), recipe(2, &[10])];
    let tags = table(&[(10, 4)]);
    let picked = get_matching_recipes(candidates, 2, &tags);
    let ids: Vec<i64> = picked.iter().map(|r| r.id).collect();
    assert_eq!(ids, vec![2, 1]);
}

#[test]
fn negative_scores_rank_below_zero_scores() {
    let candidates = vec![recipe(1, &[10]), recipe(2, &[])];
    let tags = table(&[(10, -3)]);
    let picked = get_matching_recipes(candidates, 1, &tags);
    assert_eq!(picked[0].id, 2);
}
