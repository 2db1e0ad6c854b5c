use rust_relations_explorer::inspect::{ItemInfoRelationEntry, ItemInfoResult};
use rust_relations_explorer::lookup::Candidate;
use rust_relations_explorer::model::ItemId;
use rust_relations_explorer::report::{
    ambiguity_lines, connected_files_text, cycle_lines, function_usage_lines, hubs_text,
    item_info_lines, join_texts, module_centrality_text, shortest_path_text, trait_impls_text,
    trim_info, unreferenced_text,
};

fn strings(v: &[&str]) -> Vec<String> {
    v.iter().map(|s| s.to_string()).collect()
}

fn entry(id: &str, name: &str, context: &str) -> ItemInfoRelationEntry {
    ItemInfoRelationEntry {
        id: id.to_string(),
        name: name.to_string(),
        path: "src/a.rs".to_string(),
        relation: "Calls".to_string(),
        context: context.to_string(),
    }
}

fn info(inbound: Vec<ItemInfoRelationEntry>, outbound: Vec<ItemInfoRelationEntry>) -> ItemInfoResult {
    ItemInfoResult {
        id: "fn:run:3".to_string(),
        name: "run".to_string(),
        kind: "Function".to_string(),
        visibility: "pub".to_string(),
        path: "src/b.rs".to_string(),
        line_start: 3,
        line_end: 12,
        code: Some("fn run() {}".to_string()),
        inbound,
        outbound,
    }
}

#[test]
fn join_texts_puts_the_separator_between() {
    assert_eq!(join_texts(&strings(&[]), ", "), "");
    assert_eq!(join_texts(&strings(&["a"]), ", "), "a");
    assert_eq!(join_texts(&strings(&["a", "b", "c"]), " -> "), "a -> b -> c");
    assert_eq!(join_texts(&strings(&["", ""]), "-"), "-");
}

#[test]
fn connected_files_are_numbered_from_the_offset() {
    let paths = strings(&["src/a.rs", "src/b.rs", "src/c.rs"]);
    let all = connected_files_text(&paths, 0, None);
    assert_eq!(
        all,
        "+---+----------+\n\
         | # | Path     |\n\
         +---+----------+\n\
         | 1 | src/a.rs |\n\
         | 2 | src/b.rs |\n\
         | 3 | src/c.rs |\n\
         +---+----------+"
    );
    let page = connected_files_text(&paths, 1, Some(1));
    assert_eq!(
        page,
        "+---+----------+\n\
         | # | Path     |\n\
         +---+----------+\n\
         | 2 | src/b.rs |\n\
         +---+----------+"
    );
    let beyond = connected_files_text(&paths, 7, Some(usize::MAX));
    assert_eq!(beyond, "+---+------+\n| # | Path |\n+---+------+\n+---+------+");
}

#[test]
fn shortest_path_text_says_when_there_is_no_path() {
    assert_eq!(shortest_path_text(&strings(&[]), 0, None), "<no path>");
    assert_eq!(
        shortest_path_text(&strings(&["a.rs", "b.rs"]), 0, Some(5)),
        "+------+------+\n\
         | Step | Path |\n\
         +------+------+\n\
         | 1    | a.rs |\n\
         | 2    | b.rs |\n\
         +------+------+"
    );
}

#[test]
fn function_usage_lines_are_the_page() {
    let paths = strings(&["a", "b", "c", "d"]);
    assert_eq!(function_usage_lines(&paths, 0, None), paths);
    assert_eq!(function_usage_lines(&paths, 1, Some(2)), strings(&["b", "c"]));
    assert_eq!(function_usage_lines(&paths, 3, Some(9)), strings(&["d"]));
    assert!(function_usage_lines(&paths, 4, None).is_empty());
    assert!(function_usage_lines(&paths, 2, Some(0)).is_empty());
}

#[test]
fn cycle_lines_join_the_files_with_arrows() {
    let cycles = vec![strings(&["a", "b"]), strings(&["c"]), strings(&["d", "e", "f"])];
    assert_eq!(cycle_lines(&cycles, 0, None), strings(&["a -> b", "c", "d -> e -> f"]));
    assert_eq!(cycle_lines(&cycles, 2, Some(1)), strings(&["d -> e -> f"]));
}

#[test]
fn degree_tables_show_the_sum_and_on_demand_each_degree() {
    let rows = vec![("src/a.rs".to_string(), 2, 10), ("src/b.rs".to_string(), 0, 0)];
    assert_eq!(
        hubs_text(&rows, 0, None, false),
        "+----------+-------+\n\
         | Path     | Total |\n\
         +----------+-------+\n\
         | src/a.rs | 12    |\n\
         | src/b.rs | 0     |\n\
         +----------+-------+"
    );
    assert_eq!(
        module_centrality_text(&rows, 0, Some(1), true),
        "+----------+----+-----+-------+\n\
         | Module   | In | Out | Total |\n\
         +----------+----+-----+-------+\n\
         | src/a.rs | 2  | 10  | 12    |\n\
         +----------+----+-----+-------+"
    );
    let wide = vec![("m".to_string(), usize::MAX, usize::MAX)];
    let text = hubs_text(&wide, 0, None, false);
    assert!(text.contains(&(2 * (usize::MAX as u128)).to_string()));
}

#[test]
fn trait_impls_text_shows_the_type_on_demand() {
    let rows = vec![("src/a.rs".to_string(), "Foo".to_string())];
    assert_eq!(trait_impls_text(&Vec::new(), 0, None, true), "<no implementations found>");
    assert_eq!(
        trait_impls_text(&rows, 0, None, false),
        "+----------+\n| Path     |\n+----------+\n| src/a.rs |\n+----------+"
    );
    assert_eq!(
        trait_impls_text(&rows, 0, None, true),
        "+----------+------+\n\
         | Path     | Type |\n\
         +----------+------+\n\
         | src/a.rs | Foo  |\n\
         +----------+------+"
    );
    assert_eq!(trait_impls_text(&rows, 1, None, false), "+------+\n| Path |\n+------+\n+------+");
}

#[test]
fn unreferenced_text_shows_path_and_name_or_all() {
    let rows = vec![(
        "src/a.rs".to_string(),
        "fn:f:2".to_string(),
        "f".to_string(),
        "Function".to_string(),
        "private".to_string(),
    )];
    assert_eq!(unreferenced_text(&Vec::new(), 0, None, false), "<no unreferenced items>");
    assert_eq!(
        unreferenced_text(&rows, 0, None, false),
        "+----------+------+\n\
         | Path     | Name |\n\
         +----------+------+\n\
         | src/a.rs | f    |\n\
         +----------+------+"
    );
    assert_eq!(
        unreferenced_text(&rows, 0, None, true),
        "+----------+--------+------+----------+---------+\n\
         | Path     | ItemId | Name | Kind     | Vis     |\n\
         +----------+--------+------+----------+---------+\n\
         | src/a.rs | fn:f:2 | f    | Function | private |\n\
         +----------+--------+------+----------+---------+"
    );
}

#[test]
fn item_info_lines_in_short() {
    assert_eq!(item_info_lines(&None, false, false), strings(&["<item not found>"]));
    let shown = item_info_lines(
        &Some(info(vec![entry("fn:a:1", "a", "x"), entry("fn:b:2", "b", "y")], vec![])),
        false,
        true,
    );
    assert_eq!(
        shown,
        strings(&[
            "Item: run",
            "Id: fn:run:3",
            "Kind: Function",
            "Vis: pub",
            "Location: src/b.rs:3-12",
            "\nCallers: fn:a:1, fn:b:2",
            "Callees: <none>",
        ])
    );
}

#[test]
fn item_info_lines_at_length() {
    let subject = Some(info(vec![], vec![entry("fn:c:9", "c", "fn c() in src/a.rs")]));
    let shown = item_info_lines(&subject, true, true);
    assert_eq!(
        shown,
        strings(&[
            "Item: run",
            "Id: fn:run:3",
            "Kind: Function",
            "Vis: pub",
            "Location: src/b.rs:3-12",
            "\n--- code ---\nfn run() {}\n--- end code ---",
            "\nCallers: <none>",
            "\nCallees:",
            "- [Calls] c (fn:c:9) @ src/a.rs :: fn c() in src/a.rs",
        ])
    );
    let without_code = item_info_lines(&subject, true, false);
    assert_eq!(without_code.len(), 8);
    assert_eq!(without_code[5], "\nCallers: <none>");
}

#[test]
fn trim_info_drops_the_source_and_the_contexts() {
    let full = info(vec![entry("fn:a:1", "a", "x")], vec![entry("fn:c:9", "c", "y")]);
    let short = trim_info(full.clone());
    assert_eq!(short.code, None);
    assert_eq!(short.inbound, vec![entry("fn:a:1", "a", "")]);
    assert_eq!(short.outbound, vec![entry("fn:c:9", "c", "")]);
    assert_eq!(short.id, full.id);
    assert_eq!(short.name, full.name);
    assert_eq!(short.kind, full.kind);
    assert_eq!(short.visibility, full.visibility);
    assert_eq!(short.path, full.path);
    assert_eq!((short.line_start, short.line_end), (3, 12));
}

#[test]
fn ambiguity_lines_show_ten_candidates_at_most() {
    let ranked: Vec<Candidate> = (0..12)
        .map(|i| Candidate {
            id: ItemId(format!("fn:f:{i}")),
            kind: "function".to_string(),
            path: format!("src/m{i}.rs"),
        })
        .collect();
    let lines = ambiguity_lines("f", &ranked);
    assert_eq!(lines.len(), 12);
    assert_eq!(lines[0], "Ambiguous name 'f'. Top matches:");
    assert_eq!(lines[1], "- id=fn:f:0  kind=function  path=src/m0.rs");
    assert_eq!(lines[10], "- id=fn:f:9  kind=function  path=src/m9.rs");
    assert_eq!(lines[11], "Disambiguate by providing --item-id or add --kind.");
    let two = ambiguity_lines("g", &ranked[..2].to_vec());
    assert_eq!(two.len(), 4);
}
