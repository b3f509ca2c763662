use nuke::parse;
use nuke::value::{same_value, Value};

fn parsed(source: &str) -> Value {
    parse(source).unwrap_or_else(|error| panic!("{source} should parse, but: {error:?}"))
}

#[test]
fn every_value_equals_itself() {
    for source in [
        "{name = \"nuke\" tags = [Total Simple] limits = {1 => 2.5 \"deep\" => [{x = -3}]}}",
        "[]",
        "{}",
        "1.25e3",
        "Null",
    ] {
        let value = parsed(source);
        assert!(same_value(&value, &value), "{source} should equal itself");
    }
}

#[test]
fn a_maps_entry_order_is_not_part_of_its_value() {
    let one = parsed("{1 => \"a\" \"b\" => [2] C => {d = 4}}");
    let other = parsed("{C => {d = 4} 1 => \"a\" \"b\" => [2]}");
    assert!(same_value(&one, &other));
}

#[test]
fn a_tuples_field_order_is_part_of_its_value() {
    let one = parsed("{a = 1 b = 2}");
    let other = parsed("{b = 2 a = 1}");
    assert!(!same_value(&one, &other));
}

#[test]
fn a_copy_equals_what_it_copies() {
    let value = parsed("{a = [1 2 {3 => Four}] b = \"five\"}");
    let copy = value.clone();
    assert!(same_value(&copy, &value));
}
