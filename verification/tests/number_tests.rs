use card_parser::number::split_card_number;

#[test]
fn splits_set_prefix_and_number() {
    assert_eq!(split_card_number("ST01-001"), ("ST01-".to_string(), 1));
    assert_eq!(split_card_number("OP01-010"), ("OP01-".to_string(), 10));
    assert_eq!(split_card_number("ST01-2"), ("ST01-".to_string(), 2));
}

#[test]
fn splits_number_without_hyphen() {
    assert_eq!(split_card_number("P001"), ("P".to_string(), 1));
    assert_eq!(split_card_number("123"), ("".to_string(), 123));
}

#[test]
fn hyphen_before_the_first_digit_belongs_to_the_prefix() {
    assert_eq!(split_card_number("P-001"), ("P-".to_string(), 1));
    assert_eq!(split_card_number("-5"), ("-".to_string(), 5));
}

#[test]
fn last_hyphen_ends_the_prefix() {
    assert_eq!(split_card_number("OP01-001-002"), ("OP01-001-".to_string(), 2));
    assert_eq!(split_card_number("ST01-"), ("ST01-".to_string(), 0));
}

#[test]
fn number_without_digits() {
    assert_eq!(split_card_number(""), ("".to_string(), 0));
    assert_eq!(split_card_number("ABC"), ("".to_string(), 0));
    assert_eq!(split_card_number("A-B"), ("A-".to_string(), 0));
    assert_eq!(split_card_number("-AB"), ("".to_string(), 0));
}

#[test]
fn only_digits_count_in_the_suffix() {
    assert_eq!(split_card_number("ST01-0a1b"), ("ST01-".to_string(), 1));
    assert_eq!(split_card_number("OP1x2"), ("OP".to_string(), 12));
}

#[test]
fn suffix_that_does_not_fit_is_zero() {
    assert_eq!(split_card_number("X2147483647"), ("X".to_string(), 2147483647));
    assert_eq!(split_card_number("X2147483648"), ("X".to_string(), 0));
    assert_eq!(split_card_number("X99999999999999999999999999"), ("X".to_string(), 0));
    assert_eq!(split_card_number("X0000000000000000000000007"), ("X".to_string(), 7));
}

#[test]
fn prefix_is_counted_in_characters() {
    assert_eq!(split_card_number("\u{e9}1-2"), ("\u{e9}1-".to_string(), 2));
    assert_eq!(split_card_number("\u{e9}\u{e9}12"), ("\u{e9}\u{e9}".to_string(), 12));
}
