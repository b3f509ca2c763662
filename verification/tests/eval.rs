use nuke::eval::{eval, Error, ErrorKind};
use nuke::builtin::Builtin;
use nuke::surface;
use nuke::value::Value;

fn reduced(source: &str) -> Value {
    eval(source).unwrap_or_else(|error| panic!("{source} should reduce, but: {error:?}"))
}

fn refused(source: &str) -> Error {
    eval(source).expect_err("the document should be refused")
}

#[test]
fn a_binding_contributes_nothing_and_a_block_of_bindings_is_empty() {
    assert_eq!(reduced("{n := 1}"), reduced("{}"));
    assert_eq!(reduced("{n := 1 a = n}"), reduced("{a = 1}"));
    assert_eq!(reduced("n := 1 [n n]"), reduced("[1 1]"));
    assert_eq!(
        reduced("{port := 8080 port = port}"),
        reduced("{port = 8080}")
    );
}

#[test]
fn an_inner_block_shadows_a_name_and_a_binding_reads_the_one_above() {
    assert_eq!(
        reduced("n := 1 {a = n b = {n := 2 c = n} d = n}"),
        reduced("{a = 1 b = {c = 2} d = 1}")
    );
    assert_eq!(
        reduced("n := 1 {a = {n := n b = n}}"),
        reduced("{a = {b = 1}}")
    );
}

#[test]
fn a_reference_cycle_cannot_be_written() {
    for source in ["n := n [n]", "a := b b := a [a]", "{n := n a = n}"] {
        assert!(
            matches!(refused(source).kind(), ErrorKind::Unbound(_)),
            "for {source}"
        );
    }
}

#[test]
fn a_fault_in_a_binding_nothing_reads_is_still_a_fault() {
    assert!(matches!(
        refused("unused := missing [1]").kind(),
        ErrorKind::Unbound(_)
    ));
}

#[test]
fn a_repeated_key_is_found_only_after_reduction() {
    let source = "{n := 1 n => \"a\" 1 => \"b\"}";
    surface::parse(source).expect("no parser can see this collision");
    assert_eq!(refused(source).kind(), &ErrorKind::DuplicateKey);
}

#[test]
fn a_document_that_doubles_a_value_each_line_stops_at_the_budget() {
    let mut source = String::from("a0 := [1 1]\n");
    for level in 1..30 {
        source.push_str(&format!("a{level} := [a{} a{}]\n", level - 1, level - 1));
    }
    source.push_str("[a29]");
    assert_eq!(refused(&source).kind(), &ErrorKind::TooLarge);
}

#[test]
fn a_binding_used_where_it_would_nest_past_the_parsers_own_limit_is_refused() {
    let source = format!(
        "n := {}{}\n{}n{}",
        "[".repeat(100),
        "]".repeat(100),
        "[".repeat(50),
        "]".repeat(50)
    );
    assert_eq!(refused(&source).kind(), &ErrorKind::TooDeep);
}

#[test]
fn every_fault_carries_the_span_of_what_raised_it() {
    let source = "{\n  a = 1\n  b = missing\n}";
    let error = refused(source);
    let at = error.location(source);
    assert_eq!((at.line, at.column), (3, 7));

    let error = refused("{x: 1}");
    assert!(matches!(error.kind(), ErrorKind::Syntax(_)));
    assert_eq!(error.span(), nuke::span::Span::new(2, 3));
}

#[test]
fn entry_order_survives_reduction_and_value_equality_does_not_see_it() {
    let one = reduced("{1 => 2 3 => 4}");
    let other = reduced("{3 => 4 1 => 2}");
    assert_eq!(
        one, other,
        "map equality is order-independent, because a map can itself be a key"
    );
    let keys = |value: &Value| -> Vec<Value> {
        match value {
            Value::Mapping(map) => map.iter().map(|(key, _)| key.clone()).collect(),
            _ => panic!("a map"),
        }
    };
    assert_ne!(keys(&one), keys(&other), "the spec preserves entry order");
}

#[test]
fn every_fixture_the_reduction_refuses_is_refused_by_the_fault_that_names_it() {
    for (source, expected) in [
        ("x := 1\nx.a", ErrorKind::NotATuple),
        ("m := {\"a\" => 1}\nm.a", ErrorKind::NotATuple),
        ("{a = 1 b = a}", ErrorKind::Unbound("a".to_owned())),
        ("here := later\nlater := 1\n[here]", ErrorKind::Unbound("later".to_owned())),
        ("p := {a = 1}\np.b", ErrorKind::NoSuchField("b".to_owned())),
        ("{a = {n := 1} b = n}", ErrorKind::Unbound("n".to_owned())),
        ("n := n\n[n]", ErrorKind::Unbound("n".to_owned())),
        ("[missing]", ErrorKind::Unbound("missing".to_owned())),
    ] {
        let error = eval(source).err().unwrap_or_else(|| panic!("{source} should have been refused"));
        assert_eq!(error.kind(), &expected, "for {source}");
    }
}

#[test]
fn a_builtin_is_named_and_joins_or_imports() {
    assert_eq!(reduced("@concat [\"a\" \"b\" \"c\"]"), reduced("\"abc\""));
    assert_eq!(refused("@concat \"a\"").kind(), &ErrorKind::NotAList);
    assert_eq!(refused("@concat [\"a\" 1]").kind(), &ErrorKind::NotAString);
    assert_eq!(refused("@upper \"a\"").kind(), &ErrorKind::NoSuchBuiltin("upper".to_owned()));
    assert_eq!(refused("@import \"./p.nuke\"").kind(), &ErrorKind::NoOrigin);
    assert_eq!(refused("p := \"./p.nuke\"\n@import p").kind(), &ErrorKind::ExpectedImportPath);
}

#[test]
fn a_key_reads_a_map_by_value_and_a_list_by_position() {
    assert_eq!(reduced("m := {\"a\" => 1}\nm.(\"a\")"), reduced("1"));
    assert_eq!(reduced("[10 20 30].(1)"), reduced("20"));
    assert_eq!(refused("[10 20].(2)").kind(), &ErrorKind::NoSuchKey);
    assert_eq!(refused("m := {\"a\" => 1}\nm.(\"b\")").kind(), &ErrorKind::NoSuchKey);
    assert_eq!(refused("p := {a = 1}\np.(\"a\")").kind(), &ErrorKind::NotKeyed);
}

#[test]
fn a_hole_hands_over_text() {
    assert_eq!(reduced("a := 1\n$\"n{a}\""), reduced("\"n1\""));
    assert_eq!(reduced("accent := 0xFE8019\n$\"#{accent:06X}\""), reduced("\"#FE8019\""));
    assert_eq!(reduced("accent := 0xFE8019\n$\"{accent:#x}\""), reduced("\"0xfe8019\""));
    assert_eq!(reduced("s := \"ab\"\n$\"[{s:>4}]\""), reduced("\"[  ab]\""));
    assert_eq!(reduced("s := \"ab\"\n$\"[{s:*^6}]\""), reduced("\"[**ab**]\""));
    assert_eq!(reduced("n := 5\n$\"{n:+}\""), reduced("\"+5\""));
    assert_eq!(reduced("n := -5\n$\"{n:05}\""), reduced("\"-0005\""));
    assert_eq!(reduced("f := 2.5\n$\"{f:.2}\""), reduced("\"2.50\""));
    assert_eq!(reduced("f := 1234.5\n$\"{f:.2e}\""), reduced("\"1.23e3\""));
    assert_eq!(refused("f := 2.5\n$\"{f}\"").kind(), &ErrorKind::NeedsPrecision);
    assert_eq!(refused("a := True\n$\"{a}\"").kind(), &ErrorKind::NoText);
    assert_eq!(refused("n := -5\n$\"{n:x}\"").kind(), &ErrorKind::UnfitSpec);
    assert_eq!(refused("s := \"a\"\n$\"{s:.2}\"").kind(), &ErrorKind::UnfitSpec);
}

#[test]
fn a_builtin_is_spelled_as_a_call_names_it() {
    assert_eq!(Builtin::Concat.to_string(), "@concat");
    assert_eq!(Builtin::Import.to_string(), "@import");
}
