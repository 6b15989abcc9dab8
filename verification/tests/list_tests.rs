use meal_planner::catalog::{
    Component, ComponentAddError, IncompatibleComponentError, Ingredient, Measurement, Recipe,
    Section, Tag, Unit, get_components,
};
use meal_planner::list::{artifact_section, make_shopping_list, recipe_url, recipe_urls_text};
use meal_planner::quantity::Quantity;

fn unit(name: &str, abbreviation: &str) -> Unit {
    Unit { name: String::from(name), abbreviation: String::from(abbreviation) }
}

fn measurement(id: i64, num: u64, den: u64, unit_name: &str, abbr: &str) -> Measurement {
    Measurement { id, quantity: Quantity { num, den }, unit: unit(unit_name, abbr) }
}

fn component(ingredient_id: i64, name: &str, ms: Vec<Measurement>) -> Component {
    Component {
        ingredient: Ingredient { id: ingredient_id, display_singular: String::from(name) },
        measurements: ms,
    }
}

#[test]
fn merging_a_common_unit_sums_the_quantities() {
    let a = component(42, "flour", vec![measurement(1, 1, 1, "cup", "cup")]);
    let b = component(42, "flour", vec![measurement(2, 1, 1, "cup", "cup")]);
    let merged = a.add(&b).unwrap();
    assert_eq!(merged.ingredient.id, 42);
    assert_eq!(merged.measurements.len(), 1);
    assert_eq!(merged.measurements[0].quantity, Quantity { num: 2, den: 1 });
    assert_eq!(merged.measurements[0].id, 1);
    assert_eq!(merged.measurements[0].unit.abbreviation, "cup");
}

#[test]
fn merging_different_ingredients_always_fails() {
    let a = component(1, "flour", vec![measurement(1, 1, 1, "cup", "cup")]);
    let b = component(2, "sugar", vec![measurement(2, 1, 1, "cup", "cup")]);
    assert_eq!(
        a.add(&b),
        Err(ComponentAddError::Incompatible(IncompatibleComponentError))
    );
    let c = component(1, "flour", Vec::new());
    let d = component(3, "salt", Vec::new());
    assert_eq!(
        c.add(&d),
        Err(ComponentAddError::Incompatible(IncompatibleComponentError))
    );
}

#[test]
fn merging_drops_pairs_of_differing_units() {
    let a = component(7, "milk", vec![measurement(1, 1, 1, "cup", "cup")]);
    let b = component(7, "milk", vec![measurement(2, 240, 1, "milliliter", "mL")]);
    let merged = a.add(&b).unwrap();
    assert_eq!(merged.measurements.len(), 0);
}

#[test]
fn an_unrepresentable_sum_reports_overflow() {
    let a = component(1, "flour", vec![measurement(1, u64::MAX, 1, "cup", "cup")]);
    let b = component(1, "flour", vec![measurement(2, u64::MAX, 1, "cup", "cup")]);
    assert_eq!(a.add(&b), Err(ComponentAddError::Overflow));
    let cs = vec![
        component(1, "flour", vec![measurement(1, u64::MAX, 1, "cup", "cup")]),
        component(1, "flour", vec![measurement(2, u64::MAX, 1, "cup", "cup")]),
    ];
    assert_eq!(make_shopping_list(cs), Err(ComponentAddError::Overflow));
}

#[test]
fn shopping_list_keeps_first_seen_order() {
    let cs = vec![
        component(1, "flour", vec![measurement(1, 1, 1, "cup", "cup")]),
        component(2, "sugar", vec![measurement(2, 1, 2, "cup", "cup")]),
        component(1, "flour", vec![measurement(3, 2, 1, "cup", "cup")]),
        component(3, "salt", Vec::new()),
    ];
    let text = make_shopping_list(cs).unwrap();
    assert_eq!(text, "flour: 3 cup\nsugar: 0.50 cup\nsalt");
}

#[test]
fn formatter_renders_integers_two_decimals_and_bare_names() {
    let whole = vec![component(1, "flour", vec![measurement(1, 2, 1, "cup", "cup")])];
    assert_eq!(make_shopping_list(whole).unwrap(), "flour: 2 cup");

    let frac = vec![component(1, "flour", vec![measurement(1, 3, 2, "cup", "cup")])];
    assert_eq!(make_shopping_list(frac).unwrap(), "flour: 1.50 cup");

    let zero = vec![component(1, "flour", vec![measurement(1, 0, 1, "cup", "cup")])];
    assert_eq!(make_shopping_list(zero).unwrap(), "flour");

    let none = vec![component(1, "flour", Vec::new())];
    assert_eq!(make_shopping_list(none).unwrap(), "flour");
}

#[test]
fn formatter_shows_only_the_first_surviving_measurement() {
    let cs = vec![component(
        1,
        "milk",
        vec![
            measurement(1, 1, 1, "cup", "cup"),
            measurement(2, 240, 1, "milliliter", "mL"),
        ],
    )];
    assert_eq!(make_shopping_list(cs).unwrap(), "milk: 1 cup");
}

fn one_ingredient_recipe(recipe_id: i64, ms: Vec<Measurement>) -> Recipe {
    Recipe {
        name: format!("recipe {recipe_id}"),
        id: recipe_id,
        slug: format!("recipe-{recipe_id}"),
        sections: vec![Section { components: vec![component(42, "flour", ms)] }],
        tags: vec![Tag { id: 9 }],
    }
}

#[test]
fn two_recipes_with_a_cup_each_consolidate_to_two_cups() {
    let recipes = vec![
        one_ingredient_recipe(1, vec![measurement(1, 1, 1, "cup", "cup")]),
        one_ingredient_recipe(2, vec![measurement(2, 1, 1, "cup", "cup")]),
    ];
    let components = get_components(&recipes);
    assert_eq!(components.len(), 2);
    assert_eq!(make_shopping_list(components).unwrap(), "flour: 2 cup");
}

#[test]
fn a_half_glyph_quantity_formats_with_two_decimals() {
    let q = meal_planner::quantity::parse_quantity("½").unwrap();
    let cs = vec![component(
        42,
        "butter",
        vec![Measurement { id: 1, quantity: q, unit: unit("stick", "stick") }],
    )];
    assert_eq!(make_shopping_list(cs).unwrap(), "butter: 0.50 stick");
}

#[test]
fn recipe_urls_come_from_slugs() {
    let r = one_ingredient_recipe(5, Vec::new());
    assert_eq!(recipe_url(&r), "https://tasty.co/recipe/recipe-5");
    let rs = vec![
        one_ingredient_recipe(5, Vec::new()),
        one_ingredient_recipe(6, Vec::new()),
    ];
    assert_eq!(
        recipe_urls_text(&rs),
        "https://tasty.co/recipe/recipe-5\nhttps://tasty.co/recipe/recipe-6"
    );
}

#[test]
fn artifact_sections_frame_the_body_with_a_dash_line() {
    let s = artifact_section("09:15 am", "flour: 2 cup");
    assert_eq!(s, "09:15 am\n--------\nflour: 2 cup\n\n");
    let t = artifact_section("", "");
    assert_eq!(t, "\n\n\n\n");
}
