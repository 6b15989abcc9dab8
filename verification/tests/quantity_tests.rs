use meal_planner::quantity::{numeric, parse_quantity, ParseError, Quantity};

fn q(num: u64, den: u64) -> Quantity {
    Quantity { num, den }
}

#[test]
fn every_glyph_parses_to_its_tabulated_value() {
    let table: [(char, u64, u64); 20] = [
        ('¼', 1, 4),
        ('½', 1, 2),
        ('¾', 3, 4),
        ('⅐', 1, 7),
        ('⅑', 1, 9),
        ('⅒', 1, 10),
        ('⅓', 1, 3),
        ('⅔', 2, 3),
        ('⅕', 1, 5),
        ('⅖', 2, 5),
        ('⅗', 3, 5),
        ('⅘', 4, 5),
        ('⅙', 1, 6),
        ('⅚', 5, 6),
        ('⅛', 1, 8),
        ('⅜', 3, 8),
        ('⅝', 5, 8),
        ('⅞', 7, 8),
        ('⅟', 1, 1),
        ('↉', 0, 1),
    ];
    for (c, num, den) in table {
        assert_eq!(numeric(&c), Some(q(num, den)), "glyph {c}");
        assert_eq!(parse_quantity(&c.to_string()), Ok(q(num, den)), "glyph {c}");
    }
}

#[test]
fn unknown_glyph_is_not_a_fraction() {
    assert_eq!(numeric(&'x'), None);
    assert_eq!(parse_quantity("x"), Err(ParseError::NotAFraction));
    assert_eq!(parse_quantity("."), Err(ParseError::NotAFraction));
}

#[test]
fn plain_number_parses_as_is() {
    assert_eq!(parse_quantity("3"), Ok(q(3, 1)));
    assert_eq!(parse_quantity("2.0"), Ok(q(2, 1)));
    assert_eq!(parse_quantity("1.5"), Ok(q(3, 2)));
    assert_eq!(parse_quantity("0.50"), Ok(q(1, 2)));
    assert_eq!(parse_quantity("0"), Ok(q(0, 1)));
    assert_eq!(parse_quantity("10.25"), Ok(q(41, 4)));
}

#[test]
fn mixed_number_adds_whole_and_fraction() {
    assert_eq!(parse_quantity("1 ½"), Ok(q(3, 2)));
    assert_eq!(parse_quantity("2 ¾"), Ok(q(11, 4)));
    assert_eq!(parse_quantity("0.5 ½"), Ok(q(1, 1)));
}

#[test]
fn three_tokens_are_rejected_verbatim() {
    assert_eq!(
        parse_quantity("1 2 3"),
        Err(ParseError::Malformed(String::from("1 2 3")))
    );
}

#[test]
fn empty_and_junk_inputs_are_malformed() {
    assert_eq!(parse_quantity(""), Err(ParseError::Malformed(String::from(""))));
    assert_eq!(
        parse_quantity("abc"),
        Err(ParseError::Malformed(String::from("abc")))
    );
    assert_eq!(
        parse_quantity("1 x"),
        Err(ParseError::Malformed(String::from("1 x")))
    );
    assert_eq!(
        parse_quantity("x ½"),
        Err(ParseError::Malformed(String::from("x ½")))
    );
}

#[test]
fn unrepresentable_value_overflows() {
    // More than nineteen fraction digits cannot be held exactly.
    assert_eq!(
        parse_quantity("0.33333333333333333333333"),
        Err(ParseError::Overflow)
    );
    // Twenty-one integer digits exceed the 64-bit numerator.
    assert_eq!(parse_quantity("123456789012345678901"), Err(ParseError::Overflow));
}

#[test]
fn reducible_long_decimal_still_fits() {
    // Nineteen fraction digits, but the value reduces to one half.
    assert_eq!(parse_quantity("0.5000000000000000000"), Ok(q(1, 2)));
}

#[test]
fn plus_adds_exactly_in_lowest_terms() {
    assert_eq!(q(1, 2).plus(q(1, 3)), Some(q(5, 6)));
    assert_eq!(q(1, 1).plus(q(1, 1)), Some(q(2, 1)));
    assert_eq!(q(1, 2).plus(q(1, 2)), Some(q(1, 1)));
    assert_eq!(q(0, 1).plus(q(3, 4)), Some(q(3, 4)));
}

#[test]
fn plus_rejects_an_unrepresentable_sum() {
    assert_eq!(q(u64::MAX, 1).plus(q(u64::MAX, 1)), None);
}
