use nuke::eval::eval;
use nuke::lint::lint;
use nuke::{parse, printer, surface};

// The fixture tree these tests walk in their original form is not part of this source
// tree, so each corpus below is written out here: documents from the README and from the
// other tests, one per shape the fixtures name.

fn valid() -> Vec<&'static str> {
    vec![
        "{accent = \"#fe8019\" muted = \"#928374\"}",
        "{\n  editor = {\n    theme = \"gruvbox-dark\"\n    cursor = \"#fe8019\"\n    line_numbers = Relative\n  }\n\n  shell = {\n    prompt_color = \"#fe8019\"\n    comment_color = \"#928374\"\n    aliases = {\n      \"ll\" => \"eza -l\"\n      \"gs\" => \"git status\"\n    }\n  }\n}\n",
        "[1 2.5 -3 1e5 True \"text\" Null]",
        "{{1 => 2} => [] \"k\" => {}}",
        "# a comment before the value\n[\"a\\n\\u{1F600}\"]\n",
    ]
}

fn surface_sources() -> Vec<&'static str> {
    vec![
        "palette := {accent = \"#fe8019\" muted = \"#928374\"}\n\n{\n  editor = {\n    theme = \"gruvbox-dark\"\n    cursor = palette.accent\n    line_numbers = Relative\n  }\n\n  shell = {\n    prompt_color = palette.accent\n    comment_color = palette.muted\n    aliases = {\n      \"ll\" => \"eza -l\"\n      \"gs\" => \"git status\"\n    }\n  }\n}\n",
        "n := 1\n{a = n b = {n := 2 c = n} d = n}",
        "accent := 0xFE8019\n\n[$\"#{accent:06X}\" $\"{accent:#x}\"]\n",
        "theme = \"dark\"\nsize = 12\n",
        "m := {\"a\" => 1}\nwhich := \"a\"\n[m.(which) @concat [\"x\" \"y\"]]",
    ]
}

fn surface_refused() -> Vec<&'static str> {
    vec![
        "[missing]",
        "n := n\n[n]",
        "{n := 1 n => \"a\" 1 => \"b\"}",
        "p := {a = 1}\np.b",
        "x := 1\nx.a",
        "@import \"./palette.nuke\"",
    ]
}

fn surface_invalid() -> Vec<&'static str> {
    vec![
        "a := 1",
        "{a = ,}",
        "@1",
        "[@]",
        "[$\"{}\"]",
        "[0b2]",
        "[0x1.8]",
        "[\"unterminated]",
        "[1 2",
        "{a = 1 a = 2}",
        "p.",
        "{\"a\" => 1 b = 2}",
    ]
}

#[test]
fn valid_fixtures_parse() {
    for source in valid() {
        if let Err(error) = parse(source) {
            panic!("{source} should parse, but: {error:?}");
        }
    }
}

#[test]
fn every_surface_fixture_parses() {
    for source in surface_sources() {
        if let Err(error) = surface::parse(source) {
            panic!("{source} should parse, but: {error:?}");
        }
    }
}

#[test]
fn every_fixture_the_reduction_refuses_is_one_the_parser_reads() {
    for source in surface_refused() {
        if let Err(error) = surface::parse(source) {
            panic!("{source} is refused by the parser, so it belongs in surface/invalid: {error:?}");
        }
        assert!(eval(source).is_err(), "{source} should be refused by the reduction");
    }
}

#[test]
fn a_document_that_does_not_parse_has_no_lints() {
    for source in surface_invalid() {
        assert!(lint(source).is_err(), "{source} parses, so it is not an invalid fixture");
    }
}

#[test]
fn every_surface_fixture_is_a_document_the_canonical_form_cannot_spell() {
    for source in surface_sources() {
        assert!(
            parse(source).is_err(),
            "{source} is canonical already, so it tests nothing the identity does not"
        );
    }
}

#[test]
fn a_canonical_document_survives_formatting() {
    for source in valid() {
        let formatted = printer::format(source).unwrap_or_else(|error| panic!("{source}: {error:?}"));
        assert_eq!(
            parse(source).expect("canonical"),
            parse(&formatted).unwrap_or_else(|error| panic!("{source} left the canonical form: {error:?}\n{formatted}")),
            "{source} reduces differently once formatted"
        );
    }
}

#[test]
fn evaluating_a_canonical_document_is_the_identity() {
    for source in valid() {
        let parsed = parse(source).unwrap_or_else(|error| panic!("{source} should parse: {error:?}"));
        let reduced = eval(source).unwrap_or_else(|error| panic!("{source} should reduce: {error:?}"));
        assert_eq!(reduced, parsed, "evaluating {source} changed it");
    }
}

#[test]
fn formatting_is_idempotent() {
    for source in valid().into_iter().chain(surface_sources()) {
        let once = printer::format(source).expect("formats");
        let twice = printer::format(&once).expect("formats again");
        assert_eq!(once, twice, "{source} is not stable");
    }
}

#[test]
fn formatted_output_parses() {
    for source in valid().into_iter().chain(surface_sources()) {
        let formatted = printer::format(source).expect("formats");
        surface::parse(&formatted).unwrap_or_else(|error| panic!("{source} does not parse after formatting: {error:?}\n{formatted}"));
    }
}

#[test]
fn formatting_a_document_does_not_change_what_it_means() {
    for source in surface_sources() {
        let before = eval(source).unwrap_or_else(|error| panic!("{source}: {error:?}"));
        let formatted = printer::format(source).expect("formats");
        let after = eval(&formatted).unwrap_or_else(|error| panic!("{formatted}: {error:?}"));
        assert_eq!(before, after, "{source} reduces differently once formatted");
    }
}
