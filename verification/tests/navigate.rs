use nuke::document::{dependent, Open};
use nuke::eval::{deepest_import, Error, ErrorKind};
use nuke::navigate::{definition, highlights, references, symbols, Highlight, HighlightKind, SymbolKind};
use nuke::span::{Location, Span};

const TEXT: &str = "{a := 1 b = a}";

#[test]
fn a_read_is_followed_to_its_binding() {
    let open = Open::new(TEXT.to_owned());
    assert_eq!(definition(&open, 12), Some(Span::new(1, 2)));
    assert_eq!(definition(&open, 1), Some(Span::new(1, 2)));
    assert_eq!(definition(&open, 0), None);
    assert_eq!(definition(&open, 8), None, "a field is no binding");
}

#[test]
fn references_list_the_binding_only_where_asked() {
    let open = Open::new(TEXT.to_owned());
    assert_eq!(references(&open, 12, true), [Span::new(1, 2), Span::new(12, 13)]);
    assert_eq!(references(&open, 1, false), [Span::new(12, 13)]);
    assert!(references(&open, 6, true).is_empty());
}

#[test]
fn a_binding_is_written_and_its_reads_are_read() {
    let open = Open::new(TEXT.to_owned());
    assert_eq!(
        highlights(&open, 12),
        [
            Highlight { span: Span::new(1, 2), kind: HighlightKind::Write },
            Highlight { span: Span::new(12, 13), kind: HighlightKind::Read },
        ]
    );
}

#[test]
fn an_outline_names_the_bindings_then_the_fields() {
    let open = Open::new("{a := 1 b = a c = {d = [1]}}".to_owned());
    let found = symbols(&open);
    let names: Vec<&str> = found.iter().map(|symbol| symbol.name.as_str()).collect();
    assert_eq!(names, ["a", "b", "c"]);
    assert_eq!(found[0].kind, SymbolKind::Variable);
    assert_eq!(found[0].range, Span::new(1, 7));
    assert_eq!(found[1].kind, SymbolKind::Variable);
    assert_eq!(found[1].selection, Span::new(8, 9));
    assert_eq!(found[2].kind, SymbolKind::Object);
    assert_eq!(found[2].children.len(), 1);
    assert_eq!(found[2].children[0].kind, SymbolKind::Array);
}

#[test]
fn nothing_is_followed_in_a_text_that_does_not_parse() {
    let open = Open::new("{a := ".to_owned());
    assert_eq!(definition(&open, 1), None);
    assert!(symbols(&open).is_empty());
}

#[test]
fn the_deepest_failed_import_is_found() {
    let inner = Error::new(ErrorKind::NotATuple, Span::new(0, 1));
    let middle = Error::new(
        ErrorKind::Import { path: "b.nuke".to_owned(), at: Location { line: 2, column: 3 }, cause: Box::new(inner) },
        Span::new(0, 1),
    );
    let outer = Error::new(
        ErrorKind::Import { path: "a.nuke".to_owned(), at: Location { line: 1, column: 1 }, cause: Box::new(middle) },
        Span::new(0, 1),
    );
    let (path, at, message) = deepest_import(&outer).expect("an import");
    assert_eq!(path, "b.nuke");
    assert_eq!(at, Location { line: 2, column: 3 });
    assert_eq!(message, ErrorKind::NotATuple.message());
    assert!(deepest_import(&Error::new(ErrorKind::NotATuple, Span::new(0, 1))).is_none());
}

#[test]
fn a_text_that_read_the_saved_file_is_diagnosed_again() {
    let mut open = Open::new(TEXT.to_owned());
    assert!(dependent("a", &open, "b", None), "not yet reduced");
    open.record(vec!["/x/b.nuke".to_owned()], true);
    assert!(dependent("a", &open, "a", None), "the saved text itself");
    assert!(dependent("a", &open, "b", Some("/x/b.nuke")));
    assert!(!dependent("a", &open, "b", Some("/x/c.nuke")));
    assert!(!dependent("a", &open, "b", None));
}
