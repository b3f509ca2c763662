use nuke::printer;

fn formatted(source: &str) -> String {
    match printer::format(source) {
        Ok(text) => text,
        Err(error) => panic!("{source} should format, but: {:?}", error.kind),
    }
}

#[test]
fn a_block_written_on_one_line_stays_on_one_line() {
    assert_eq!(formatted("{a = 1 b = 2}"), "{a = 1 b = 2}\n");
    assert_eq!(formatted("[1 2 3]"), "[1 2 3]\n");
    assert_eq!(formatted("{}"), "{}\n");
}

#[test]
fn a_block_the_author_broke_stays_broken_and_indents_by_two() {
    assert_eq!(formatted("{a = 1\nb = 2}"), "{\n  a = 1\n  b = 2\n}\n");
    assert_eq!(
        formatted("{a = {b = 1\nc = 2}}"),
        "{\n  a = {\n    b = 1\n    c = 2\n  }\n}\n"
    );
}

#[test]
fn a_block_too_wide_for_one_line_takes_one_item_per_line() {
    let wide = format!("{{a = \"{}\" b = \"{}\"}}", "x".repeat(60), "y".repeat(60));
    let formatted = formatted(&wide);
    assert_eq!(formatted.lines().count(), 4, "{formatted}");
    assert!(
        formatted.lines().all(|line| line.len() <= 70),
        "{formatted}"
    );
}

#[test]
fn items_the_author_grouped_on_a_line_stay_grouped() {
    assert_eq!(
        formatted("[\n  True False\n\n  1 2\n]"),
        "[\n  True False\n\n  1 2\n]\n"
    );
}

#[test]
fn a_run_of_blank_lines_becomes_one() {
    assert_eq!(
        formatted("{a = 1\n\n\n\nb = 2}"),
        "{\n  a = 1\n\n  b = 2\n}\n"
    );
}

#[test]
fn a_literal_keeps_the_spelling_it_was_written_in() {
    for literal in [
        "0xFE8019", "0b1010", "0q3201", "0o755", "1e-5", "-2.5e-3", "0.0",
    ] {
        assert_eq!(formatted(&format!("[{literal}]")), format!("[{literal}]\n"));
    }
}

#[test]
fn an_interpolation_and_its_specifier_are_left_alone() {
    let source = "accent := 0xFE8019\n\n[$\"#{accent:06X}\" $\"{accent:#x}\"]\n";
    assert_eq!(formatted(source), source);
}

#[test]
fn a_comment_after_the_document_survives() {
    assert_eq!(formatted("{a = 1}\n# trailing"), "{a = 1}\n# trailing\n");
}

#[test]
fn whitespace_around_a_dot_is_closed_up() {
    assert_eq!(
        formatted("p := {a = {b = 1}}\n[p . a . b]"),
        "p := {a = {b = 1}}\n[p.a.b]\n"
    );
}

#[test]
fn a_projection_chain_prints_with_its_dots_closed_up() {
    assert_eq!(formatted("p . a . b"), "p.a.b\n");
    assert_eq!(formatted("1 . a"), "1 .a\n");
    assert_eq!(formatted("xs . (0)"), "xs.(0)\n");
}

#[test]
fn a_call_prints_its_name_a_space_and_its_operand() {
    assert_eq!(formatted("@import   \"x.nuke\""), "@import \"x.nuke\"\n");
}

#[test]
fn an_empty_block_prints_as_its_brackets() {
    assert_eq!(formatted("{ }"), "{}\n");
    assert_eq!(formatted("[\n]"), "[]\n");
}

#[test]
fn a_nested_block_written_on_one_line_stays_inline() {
    assert_eq!(
        formatted("{a:=1 b:=\"x\" c=[a a]}"),
        "{a := 1 b := \"x\" c = [a a]}\n"
    );
    assert_eq!(formatted("{a = {b = 1}}.a"), "{a = {b = 1}}.a\n");
}
