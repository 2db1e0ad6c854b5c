use rust_relations_explorer::errors::{KnowledgeGraphError, ParseError};
use rust_relations_explorer::model::{ItemType, Visibility};
use rust_relations_explorer::parser::{
    file_node_from_matches, line_number_for, parse_visibility, RegexPatterns, RustParser,
};

#[test]
fn test_extract_fn_struct_enum_and_visibility() {
    let src = r#"
        pub fn top() {}
        fn hidden() {}
        pub(crate) struct S;
        pub(super) enum E { A, B }
        "#;
    let parser = RustParser::new().expect("patterns");
    let node = parser.parse_file(src, "/tmp/test.rs").expect("parse");
    assert_eq!(node.items.len(), 4);
    let mut names: Vec<(String, Visibility)> =
        node.items.iter().map(|i| (i.name.to_string(), i.visibility.clone())).collect();
    names.sort_by(|a, b| a.0.cmp(&b.0));
    assert!(names.iter().any(|(n, v)| n == "top" && matches!(v, Visibility::Public)));
    assert!(names.iter().any(|(n, v)| n == "hidden" && matches!(v, Visibility::Private)));
    assert!(names.iter().any(|(n, v)| n == "S" && matches!(v, Visibility::PubCrate)));
    assert!(names.iter().any(|(n, v)| n == "E" && matches!(v, Visibility::PubSuper)));
}

#[test]
fn test_extract_imports_with_alias() {
    let src = r#"
        use std::collections::HashMap;
        pub use crate::module::Thing as Alias;
        "#;
    let parser = RustParser::new().expect("patterns");
    let node = parser.parse_file(src, "/x.rs").unwrap();
    assert_eq!(node.imports.len(), 2);
    assert!(node
        .imports
        .iter()
        .any(|im| im.path.contains("std::collections::HashMap") && im.alias.is_none()));
    assert!(node
        .imports
        .iter()
        .any(|im| im.path.contains("crate::module::Thing")
            && im.alias.as_deref() == Some("Alias")));
}

#[test]
fn test_async_const_functions_and_tuple_struct() {
    let src = r#"
        pub async fn af() {}
        pub const fn cf() -> i32 { 0 }
        pub struct TS(u32, u32);
        pub(self) fn scoped() {}
        "#;
    let parser = RustParser::new().expect("patterns");
    let node = parser.parse_file(src, "/y.rs").unwrap();
    let names: Vec<&str> = node.items.iter().map(|i| i.name.as_str()).collect();
    assert!(names.contains(&"af"));
    assert!(names.contains(&"cf"));
    assert!(names.contains(&"TS"));
    let scoped = node.items.iter().find(|i| i.name == "scoped").expect("scoped present");
    match scoped.visibility {
        Visibility::PubIn(ref s) => assert_eq!(s, "self"),
        _ => panic!("expected Visibility::PubIn('self') for scoped"),
    }
    assert_eq!(node.items.len(), 4);
}

#[test]
fn items_carry_kind_line_and_identifier() {
    let src = "fn a() {}\n\npub async fn b() {}\npub const fn c() {}\nstruct S;\n  enum E {}\n";
    let parser = RustParser::new().unwrap();
    let node = parser.parse_file(src, "src/m.rs").unwrap();
    let ids: Vec<&str> = node.items.iter().map(|i| i.id.0.as_str()).collect();
    // a blank line belongs to the match that follows it, so `b` is found on line 2
    assert_eq!(ids, vec!["fn:a:1", "fn:b:2", "fn:c:4", "struct:S:5", "enum:E:6"]);
    assert_eq!(node.items[1].item_type, ItemType::Function { is_async: true, is_const: false });
    assert_eq!(node.items[2].item_type, ItemType::Function { is_async: false, is_const: true });
    assert_eq!(node.items[3].item_type, ItemType::Struct { is_tuple: false });
    assert_eq!(node.items[4].item_type, ItemType::Enum { variant_count: 0 });
    assert_eq!(node.items[0].location.file, "src/m.rs");
    assert_eq!(node.items[3].location.line_start, 5);
    assert_eq!(node.items[3].location.line_end, 5);
    assert_eq!(node.path, "src/m.rs");
    assert_eq!(node.metrics.item_count, 5);
    assert_eq!(node.metrics.import_count, 0);
}

#[test]
fn parser_handles_text_that_is_not_ascii() {
    let src = "// héllo wörld ✓\nfn after() {}\nuse crate::ä as b;\n";
    let parser = RustParser::new().unwrap();
    let node = parser.parse_file(src, "/u.rs").unwrap();
    assert_eq!(node.items.len(), 1);
    assert_eq!(node.items[0].id.0, "fn:after:2");
    assert_eq!(node.imports.len(), 1);
    assert_eq!(node.imports[0].path, "crate::ä");
    assert_eq!(node.imports[0].alias.as_deref(), Some("b"));
}

#[test]
fn parser_never_panics_and_counts_stay_below_the_length() {
    let parser = RustParser::new().unwrap();
    let inputs = [
        "",
        "\n",
        "fn",
        "fn (",
        "fn f(",
        "use ;",
        "use a;",
        "pub(",
        "\u{0}\u{1}\u{2}",
        "fn a(fn b(fn c(",
        "struct struct struct",
        "enum\nenum E\nenum",
        "use a;use b;\nuse c;",
        "fn f(\nfn f(\nfn f(\n",
    ];
    for s in inputs {
        let node = parser.parse_file(s, "/x").unwrap();
        assert!(node.items.len() <= s.len() + 1);
        assert!(node.imports.len() <= s.len() + 1);
    }
    assert_eq!(parser.parse_file("fn f(\nfn f(\nfn f(\n", "/x").unwrap().items.len(), 3);
}

#[test]
fn matches_that_overlap_or_leave_the_text_are_passed_over() {
    let content = "fn one() fn two()";
    let ok = vec![Some((0usize, 7usize)), None, Some((3usize, 6usize))];
    let overlapping = vec![Some((5usize, 16usize)), None, Some((12usize, 15usize))];
    let outside = vec![Some((9usize, 99usize)), None, Some((12usize, 15usize))];
    let short = vec![Some((9usize, 11usize)), None, Some((9usize, 11usize))];
    let later = vec![Some((9usize, 16usize)), None, Some((12usize, 15usize))];
    let rows = vec![ok, overlapping, outside, short, later];
    let none: Vec<Vec<Option<(usize, usize)>>> = vec![];
    let node = file_node_from_matches(content, "/p.rs", &rows, &none, &none, &none);
    let names: Vec<&str> = node.items.iter().map(|i| i.name.as_str()).collect();
    assert_eq!(names, vec!["one", "two"]);
}

#[test]
fn visibility_is_decoded_from_the_text_before_a_declaration() {
    assert_eq!(parse_visibility(""), Visibility::Private);
    assert_eq!(parse_visibility("   "), Visibility::Private);
    assert_eq!(parse_visibility("pub"), Visibility::Public);
    assert_eq!(parse_visibility("pub "), Visibility::Public);
    assert_eq!(parse_visibility("pub(crate)"), Visibility::PubCrate);
    assert_eq!(parse_visibility("pub(super) "), Visibility::PubSuper);
    assert_eq!(parse_visibility("pub(in crate::a)"), Visibility::PubIn("in crate::a".to_string()));
    assert_eq!(parse_visibility("pub(self)"), Visibility::PubIn("self".to_string()));
    assert_eq!(parse_visibility("pub()"), Visibility::Private);
    assert_eq!(parse_visibility("pub(a)b)"), Visibility::Private);
    assert_eq!(parse_visibility("public"), Visibility::Private);
}

#[test]
fn line_numbers_count_line_feeds_before_the_byte() {
    assert_eq!(line_number_for("a\nb\nc", 0), 1);
    assert_eq!(line_number_for("a\nb\nc", 2), 2);
    assert_eq!(line_number_for("a\nb\nc", 5), 3);
    assert_eq!(line_number_for("\n\n\n", 3), 4);
}

#[test]
fn the_standard_patterns_compile() {
    assert!(RegexPatterns::compile().is_ok());
    assert!(RustParser::new().is_ok());
}

#[test]
fn errors_read_as_one_line() {
    assert_eq!(ParseError::Regex("bad".into()).message(), "Regex match failed: bad");
    assert_eq!(ParseError::Io("gone".into()).message(), "IO error: gone");
    assert_eq!(
        ParseError::InvalidUtf8 { file: "a.rs".into() }.message(),
        "Invalid UTF-8 in file a.rs"
    );
    assert_eq!(
        KnowledgeGraphError::ParseError { file: "a.rs".into(), source: ParseError::Io("x".into()) }
            .message(),
        "Parse error in file a.rs: IO error: x"
    );
    assert_eq!(KnowledgeGraphError::Io("x".into()).message(), "IO error: x");
    assert_eq!(KnowledgeGraphError::Query("q".into()).message(), "Invalid query: q");
    assert_eq!(
        KnowledgeGraphError::Visualization("v".into()).message(),
        "Visualization error: v"
    );
}
