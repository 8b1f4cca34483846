//! Tests of the typed value parsers and formatters: quantities,
//! ingredients, yields, durations, links and sources.

use sweet_potator::ingredient::{Decimal, Fraction, Ingredient, Integer, Quantity, QuantityValue};
use sweet_potator::metadata::{Duration, Link, Source};
use sweet_potator::recipe::ParseFromStr;

#[test]
fn test_display_quantity() {
    let mut quantity = Quantity {
        value: QuantityValue::Decimal(Decimal { whole: 0, frac: 5 }),
        unit: None,
        note: None,
    };
    assert_eq!(quantity.format(), "0.5");
    quantity.value = QuantityValue::Fraction(Fraction { numer: 1, denom: 2 });
    assert_eq!(quantity.format(), "1/2");
    quantity.value = QuantityValue::Integer(Integer(1));
    assert_eq!(quantity.format(), "1");
    quantity.unit = Some("unit".into());
    assert_eq!(quantity.format(), "1 unit");
    quantity.note = Some("note".into());
    assert_eq!(quantity.format(), "1 unit (note)");
    quantity.unit = None;
    assert_eq!(quantity.format(), "1 (note)");
}

#[test]
fn test_parse_quantity() {
    let quantity = Quantity::parse_from_str("1").unwrap();
    assert!(matches!(quantity.value, QuantityValue::Integer(Integer(1))));
    assert_eq!(quantity.unit, None);
    assert_eq!(quantity.note, None);
    let quantity = Quantity::parse_from_str("0.5").unwrap();
    assert!(matches!(
        quantity.value,
        QuantityValue::Decimal(Decimal { whole: 0, frac: 5 })
    ));
    let quantity = Quantity::parse_from_str("1/2").unwrap();
    assert!(matches!(
        quantity.value,
        QuantityValue::Fraction(Fraction { numer: 1, denom: 2 })
    ));
    let quantity = Quantity::parse_from_str("1  a unit").unwrap();
    assert!(matches!(quantity.value, QuantityValue::Integer(Integer(1))));
    assert_eq!(quantity.unit, Some("a unit".into()));
    assert_eq!(quantity.note, None);
    let quantity = Quantity::parse_from_str("1  ( a note )").unwrap();
    assert!(matches!(quantity.value, QuantityValue::Integer(Integer(1))));
    assert_eq!(quantity.unit, None);
    assert_eq!(quantity.note, Some("a note".into()));
    let quantity = Quantity::parse_from_str("10 1 unit  ( a note )").unwrap();
    assert!(matches!(
        quantity.value,
        QuantityValue::Integer(Integer(10))
    ));
    assert_eq!(quantity.unit, Some("1 unit".into()));
    assert_eq!(quantity.note, Some("a note".into()));
}

#[test]
fn test_display_ingredient() {
    let quantity = Quantity {
        value: QuantityValue::Integer(Integer(1)),
        unit: None,
        note: None,
    };
    let mut ingredient = Ingredient {
        name: "name".into(),
        kind: None,
        quantity: None,
    };
    assert_eq!(ingredient.format(), "name");
    ingredient.kind = Some("kind".into());
    assert_eq!(ingredient.format(), "name, kind");
    ingredient.quantity = Some(quantity);
    assert_eq!(ingredient.format(), "name, kind: 1");
    ingredient.kind = None;
    assert_eq!(ingredient.format(), "name: 1");
}

#[test]
fn test_parse_ingredient() {
    let ingredient = Ingredient::parse_from_str("a name").unwrap();
    assert_eq!(ingredient.name, "a name");
    assert_eq!(ingredient.kind, None);
    assert!(ingredient.quantity.is_none());
    let ingredient = Ingredient::parse_from_str("a name ,  a kind").unwrap();
    assert_eq!(ingredient.name, "a name");
    assert_eq!(ingredient.kind, Some("a kind".into()));
    assert!(ingredient.quantity.is_none());
    let ingredient = Ingredient::parse_from_str("a name :  1 unit (note)").unwrap();
    assert_eq!(ingredient.name, "a name");
    assert_eq!(ingredient.kind, None);
    assert_eq!(ingredient.quantity.unwrap().format(), "1 unit (note)");
    let ingredient = Ingredient::parse_from_str("a name ,  a kind :  1 unit (note)").unwrap();
    assert_eq!(ingredient.name, "a name");
    assert_eq!(ingredient.kind, Some("a kind".into()));
    let quantity = ingredient.quantity.unwrap();
    assert_eq!(quantity.value.format(), "1");
    assert_eq!(quantity.unit.unwrap(), "unit");
    assert_eq!(quantity.note.unwrap(), "note");
    let ingredient = Ingredient::parse_from_str("name: 0.5 bla (note)").unwrap();
    assert_eq!(ingredient.name, "name");
    assert_eq!(ingredient.kind, None);
    let quantity = ingredient.quantity.unwrap();
    assert_eq!(quantity.value.format(), "0.5");
    assert_eq!(quantity.unit.unwrap(), "bla");
    assert_eq!(quantity.note.unwrap(), "note");
    let ingredient = Ingredient::parse_from_str("name: 1/2").unwrap();
    assert_eq!(ingredient.name, "name");
    assert_eq!(ingredient.kind, None);
    assert_eq!(ingredient.quantity.unwrap().format(), "1/2");
    let ingredient = Ingredient::parse_from_str("name: 1 1/2").unwrap();
    assert_eq!(ingredient.name, "name");
    assert_eq!(ingredient.kind, None);
    assert_eq!(ingredient.quantity.unwrap().value.format(), "3/2");
}

#[test]
fn quantity_value_overflow_is_an_error() {
    // A value too wide for its type is a hard error, not a silent
    // truncation and not a fall-through to another shape.
    assert!(Quantity::parse_from_str("99999999999").is_err());
    assert!(Quantity::parse_from_str("99999.9").is_err());
    assert!(Quantity::parse_from_str("999/2").is_err());
    assert!(Quantity::parse_from_str("300 1/2").is_err());
    // The mixed-number combination must fit `u8`: 100 1/2 is 201/2,
    // which still fits, while 200 1/2 would be 401/2.
    let combined = Quantity::parse_from_str("100 1/2").unwrap();
    assert_eq!(combined.value.format(), "201/2");
    assert!(Quantity::parse_from_str("200 1/2").is_err());
    assert!(Quantity::parse_from_str("bogus").is_err());
}

#[test]
fn note_without_unit_does_not_survive_reparsing() {
    // The formatter writes `1 (note)`, but the value grammar takes the
    // first space as the value boundary, so the reparse reads the
    // parenthesized text as a unit. Quantities with a note and no unit
    // therefore fall outside the round-trip guarantee.
    let quantity = Quantity {
        value: QuantityValue::Integer(Integer(1)),
        unit: None,
        note: Some("note".into()),
    };
    let text = quantity.format();
    assert_eq!(text, "1 (note)");
    let reparsed = Quantity::parse_from_str(&text).unwrap();
    assert_eq!(reparsed.unit, Some("(note)".to_string()));
    assert_eq!(reparsed.note, None);
}

#[test]
fn quantity_note_needs_closing_parenthesis() {
    assert!(Quantity::parse_from_str("1 unit (note").is_err());
}

#[test]
fn ingredient_name_must_be_non_empty() {
    assert!(Ingredient::parse_from_str(", kind: 1").is_err());
}

#[test]
fn test_display_duration() {
    let mut duration = Duration {
        hours: 1,
        minutes: 0,
    };
    assert_eq!(duration.format(), "1h");
    duration.minutes = 30;
    assert_eq!(duration.format(), "1h 30m");
    duration.hours = 0;
    assert_eq!(duration.format(), "30m");
}

#[test]
fn test_parse_duration() {
    let duration = Duration::parse_from_str("1h").unwrap();
    assert_eq!(duration.hours, 1);
    assert_eq!(duration.minutes, 0);
    let duration = Duration::parse_from_str("1m").unwrap();
    assert_eq!(duration.hours, 0);
    assert_eq!(duration.minutes, 1);
    let duration = Duration::parse_from_str("2h  30m").unwrap();
    assert_eq!(duration.hours, 2);
    assert_eq!(duration.minutes, 30);
    let duration = Duration::parse_from_str("0h  60m").unwrap();
    assert_eq!(duration.hours, 1);
    assert_eq!(duration.minutes, 0);
}

#[test]
fn zero_duration_is_an_error() {
    assert!(Duration::parse_from_str("0h 0m").is_err());
    assert!(Duration::parse_from_str("0m").is_err());
    assert!(Duration::parse_from_str("30").is_err());
}

#[test]
fn test_display_link() {
    let link = Link {
        name: "name".into(),
        url: "url".into(),
    };
    assert_eq!(link.format(), "name > url");
}

#[test]
fn test_parse_link() {
    let link = Link::parse_from_str("name > url").unwrap();
    assert_eq!(link.name, "name");
    assert_eq!(link.url, "url");
    let link = Link::parse_from_str("name with space  >  url with space").unwrap();
    assert_eq!(link.name, "name with space");
    assert_eq!(link.url, "url with space");
}

#[test]
fn link_needs_separator_and_both_sides() {
    assert!(Link::parse_from_str("name url").is_err());
    assert!(Link::parse_from_str(" > url").is_err());
    assert!(Link::parse_from_str("name > ").is_err());
}

#[test]
fn test_display_source() {
    let link = Link {
        name: "name".into(),
        url: "url".into(),
    };
    let source = Source::Link(link);
    assert_eq!(source.format(), "Link: name > url");
    let source = Source::Author("name".into());
    assert_eq!(source.format(), "Author: name");
    let source = Source::Book("name".into());
    assert_eq!(source.format(), "Book: name");
}
