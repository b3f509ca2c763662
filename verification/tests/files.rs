use nuke::eval::{eval_at, ErrorKind, Files, Resolved, Source};
use nuke::value::Value;

const ENTRY_DIR: &str = "/home/nuke/surface/valid";
const MODULES: &str = "/home/nuke/surface/modules";

const PALETTE: &str = "{accent = \"#fe8019\" muted = \"#928374\"}";
const THEME: &str = "palette := @import \"./palette.nuke\"\n{accent = palette.accent}\n";

fn resolved(origin: &str, literal: &str, path: &str) -> Resolved {
    Resolved { origin: origin.to_string(), literal: literal.to_string(), path: Ok(path.to_string()) }
}

fn source(path: &str, parent: &str, text: &str) -> Source {
    Source { path: path.to_string(), parent: Some(parent.to_string()), text: Ok(text.to_string()) }
}

fn modules() -> Files {
    Files {
        resolved: vec![
            resolved(ENTRY_DIR, "../modules/palette.nuke", "/home/nuke/surface/modules/palette.nuke"),
            resolved(ENTRY_DIR, "../modules/theme.nuke", "/home/nuke/surface/modules/theme.nuke"),
            resolved(MODULES, "./palette.nuke", "/home/nuke/surface/modules/palette.nuke"),
        ],
        sources: vec![
            source("/home/nuke/surface/modules/palette.nuke", MODULES, PALETTE),
            source("/home/nuke/surface/modules/theme.nuke", MODULES, THEME),
        ],
    }
}

fn files_of(name: &str, text: &str, files: &Files) -> Vec<String> {
    let path = format!("{ENTRY_DIR}/{name}");
    eval_at(text, &path, Some(ENTRY_DIR.to_string()), files)
        .unwrap_or_else(|error| panic!("{name} should reduce: {error:?}"))
        .files
}

fn text(value: &Value) -> &str {
    match value {
        Value::String(text) => text,
        other => panic!("not a string: {other:?}"),
    }
}

#[test]
fn a_document_that_imports_nothing_names_only_itself() {
    let files = files_of("dotfile.nuke", "{shell = \"zsh\"}", &modules());
    assert_eq!(files, vec![format!("{ENTRY_DIR}/dotfile.nuke")]);
}

#[test]
fn the_entry_file_stands_first() {
    let files = files_of("imports-a-module.nuke", "palette := @import \"../modules/palette.nuke\"\n{c = palette.accent}", &modules());
    assert_eq!(
        files,
        vec![format!("{ENTRY_DIR}/imports-a-module.nuke"), format!("{MODULES}/palette.nuke")]
    );
}

#[test]
fn a_diamond_names_the_file_it_shares_once() {
    let document = "theme := @import \"../modules/theme.nuke\"\npalette := @import \"../modules/palette.nuke\"\n{a = theme.accent b = palette.muted}";
    let files = files_of("a-diamond-of-imports.nuke", document, &modules());
    assert_eq!(
        files,
        vec![
            format!("{ENTRY_DIR}/a-diamond-of-imports.nuke"),
            format!("{MODULES}/palette.nuke"),
            format!("{MODULES}/theme.nuke"),
        ]
    );
}

#[test]
fn an_import_reads_the_value_of_the_file_it_names() {
    let path = format!("{ENTRY_DIR}/imports-a-module.nuke");
    let document = "palette := @import \"../modules/palette.nuke\"\n{c = palette.accent}";
    let reduced = eval_at(document, &path, Some(ENTRY_DIR.to_string()), &modules()).expect("the module should be found");
    match &reduced.value {
        Value::Tuple(tuple) => assert_eq!(text(tuple.get("c").expect("c is a field")), "#fe8019"),
        other => panic!("not a tuple: {other:?}"),
    }
}

#[test]
fn a_reduction_that_faults_reports_no_files() {
    let cycle = Files {
        resolved: vec![
            resolved(ENTRY_DIR, "./b.nuke", "/home/nuke/surface/valid/b.nuke"),
            resolved(ENTRY_DIR, "./a.nuke", "/home/nuke/surface/valid/a.nuke"),
            resolved(ENTRY_DIR, "./self.nuke", "/home/nuke/surface/valid/self.nuke"),
        ],
        sources: vec![
            source("/home/nuke/surface/valid/b.nuke", ENTRY_DIR, "@import \"./a.nuke\""),
            source("/home/nuke/surface/valid/a.nuke", ENTRY_DIR, "@import \"./b.nuke\""),
        ],
    };
    let a = format!("{ENTRY_DIR}/a.nuke");
    let refused = eval_at("@import \"./b.nuke\"", &a, Some(ENTRY_DIR.to_string()), &cycle).expect_err("a cycle is refused");
    match refused.kind() {
        ErrorKind::Import { cause, .. } => assert!(matches!(cause.kind(), ErrorKind::ImportCycle(path) if path == &a)),
        other => panic!("not a fault inside the import: {other:?}"),
    }
    let itself = format!("{ENTRY_DIR}/self.nuke");
    let refused = eval_at("@import \"./self.nuke\"", &itself, Some(ENTRY_DIR.to_string()), &cycle).expect_err("a file that imports itself is refused");
    assert!(matches!(refused.kind(), ErrorKind::ImportCycle(path) if path == &itself));
    let refused = eval_at("@import \"./not-there.nuke\"", &a, Some(ENTRY_DIR.to_string()), &cycle).expect_err("a missing file is refused");
    assert!(matches!(refused.kind(), ErrorKind::Unreadable { path, .. } if path == "./not-there.nuke"));
}

#[test]
fn a_file_the_host_could_not_read_is_refused_with_its_reason() {
    let files = Files {
        resolved: vec![resolved(ENTRY_DIR, "./locked.nuke", "/home/nuke/surface/valid/locked.nuke")],
        sources: vec![Source {
            path: "/home/nuke/surface/valid/locked.nuke".to_string(),
            parent: Some(ENTRY_DIR.to_string()),
            text: Err("permission denied".to_string()),
        }],
    };
    let path = format!("{ENTRY_DIR}/entry.nuke");
    let refused = eval_at("@import \"./locked.nuke\"", &path, Some(ENTRY_DIR.to_string()), &files).expect_err("refused");
    assert!(matches!(refused.kind(), ErrorKind::Unreadable { path, cause } if path == "./locked.nuke" && cause == "permission denied"));
}

#[test]
fn a_document_with_no_file_of_its_own_cannot_import() {
    let refused = nuke::eval::eval("@import \"./palette.nuke\"").expect_err("nothing to import against");
    assert!(matches!(refused.kind(), ErrorKind::NoOrigin));
}

#[test]
fn an_import_names_a_string_literal() {
    let path = format!("{ENTRY_DIR}/entry.nuke");
    let refused = eval_at("p := \"./palette.nuke\"\n@import p", &path, Some(ENTRY_DIR.to_string()), &modules()).expect_err("refused");
    assert!(matches!(refused.kind(), ErrorKind::ExpectedImportPath));
}

#[test]
fn a_fault_inside_an_imported_file_names_the_file_and_where_it_stands() {
    let files = Files {
        resolved: vec![resolved(ENTRY_DIR, "./broken.nuke", "/home/nuke/surface/valid/broken.nuke")],
        sources: vec![source("/home/nuke/surface/valid/broken.nuke", ENTRY_DIR, "{a = 1}\n{b = missing}")],
    };
    let path = format!("{ENTRY_DIR}/entry.nuke");
    let refused = eval_at("@import \"./broken.nuke\"", &path, Some(ENTRY_DIR.to_string()), &files).expect_err("refused");
    match refused.kind() {
        ErrorKind::Import { path, .. } => assert_eq!(path, "/home/nuke/surface/valid/broken.nuke"),
        other => panic!("not a fault inside the import: {other:?}"),
    }
}
