use std::str::FromStr;
use taskboard::db::{ItemId, ParseItemIdError};

#[test]
fn item_id_parses_its_text_form() {
    assert_eq!(ItemId::from_str("i-0"), Ok(ItemId(0)));
    assert_eq!(ItemId::from_str("i-42"), Ok(ItemId(42)));
    assert_eq!(ItemId::parse("i-+7"), Ok(ItemId(7)));
    assert_eq!(ItemId::parse("i-18446744073709551615"), Ok(ItemId(u64::MAX)));
}

#[test]
fn item_id_without_prefix_is_refused() {
    assert_eq!(ItemId::parse("42"), Err(ParseItemIdError::MissingPrefix));
    assert_eq!(ItemId::parse("i"), Err(ParseItemIdError::MissingPrefix));
    assert_eq!(ItemId::parse("x-1"), Err(ParseItemIdError::MissingPrefix));
    assert_eq!(ParseItemIdError::MissingPrefix.message(), "does not start with 'i-'");
}

#[test]
fn item_id_with_bad_number_is_refused() {
    assert_eq!(ItemId::parse("i-"), Err(ParseItemIdError::InvalidNumber));
    assert_eq!(ItemId::parse("i-+"), Err(ParseItemIdError::InvalidNumber));
    assert_eq!(ItemId::parse("i--1"), Err(ParseItemIdError::InvalidNumber));
    assert_eq!(ItemId::parse("i-12a"), Err(ParseItemIdError::InvalidNumber));
    assert_eq!(ItemId::parse("i-18446744073709551616"), Err(ParseItemIdError::InvalidNumber));
    assert_eq!(ParseItemIdError::InvalidNumber.message(), "invalid number");
}

#[test]
fn item_id_increments() {
    assert_eq!(ItemId(41).increment(), ItemId(42));
    assert_eq!(ItemId::from(5u64), ItemId(5));
}
