use rust_relations_explorer::analysis::CallPatterns;
use rust_relations_explorer::builder::build_graph;
use rust_relations_explorer::cache::{Cache, CacheEntryMeta, CacheMode, SourceFile};
use rust_relations_explorer::centrality::CentralityMetric;
use rust_relations_explorer::cli::{
    backfill_format, backfill_rankdir, backfill_splines, backfill_switch, backfill_theme,
    direction_of, kind_matches, merged_file, metric_of, on_off, page_bounds, parse_format,
    parse_rankdir, parse_splines, parse_theme, CentralityMetricArg, Direction, DotRankDirArg,
    DotSplinesArg, DotThemeArg, ItemKindArg, OnOffArg, OutputFormat, QueryCommands,
};
use rust_relations_explorer::config::{
    ancestors_of, cache_path, default_config_path, detect, effective_path_opt,
    effective_path_str, load_config_near, no_ignore_from_env, Config, DotConfig, QueryConfig,
    SvgConfig,
};
use rust_relations_explorer::graph::KnowledgeGraph;
use rust_relations_explorer::inspect::{
    snippet_of, unreferenced_items, ItemInfoQuery, UnreferencedItemsQuery,
};
use rust_relations_explorer::model::{ItemId, ItemType, Relationship, RelationshipType};
use rust_relations_explorer::parser::RustParser;
use rust_relations_explorer::paths::{
    base_src_dir_of, file_name_of, file_stem_of, is_module_root_path, is_source_path, join_path,
    module_segments_of, parent_of,
};
use rust_relations_explorer::query::{Query, UsageDirection};
use rust_relations_explorer::text::{decimal_string, text_less};
use rust_relations_explorer::visualization::{
    DotGenerator, DotOptions, DotTheme, EdgeStyle, RankDir,
};

fn source(path: &str, content: &str) -> SourceFile {
    SourceFile {
        path: path.to_string(),
        meta: CacheEntryMeta { mtime: 1, len: content.len() as u64 },
        content: Ok(content.to_string()),
    }
}

fn small_graph() -> KnowledgeGraph {
    let sources = vec![
        source(
            "proj/src/lib.rs",
            "mod m;\npub struct S;\npub enum E { A }\npub trait T { fn f(&self); }\n",
        ),
        source("proj/src/m.rs", "// m\n    pub fn foo() {}\nfn quiet() { foo(); }\n"),
    ];
    let parser = RustParser::new().unwrap();
    let calls = CallPatterns::compile().unwrap();
    build_graph(&parser, &calls, &sources, CacheMode::Ignore, Cache::new(), 1).unwrap().graph
}

#[test]
fn dot_generator_clusters_and_flat_themes() {
    let g = small_graph();
    let dark = DotOptions {
        clusters: true,
        legend: true,
        theme: DotTheme::Dark,
        rankdir: RankDir::TB,
        splines: EdgeStyle::Polyline,
        rounded: false,
    };
    let dot_dark_str = DotGenerator::new().generate_dot_with_options(&g, dark).unwrap();
    assert!(dot_dark_str.contains("digraph KnowledgeRS"));
    assert!(dot_dark_str.contains("rankdir=TB"));
    assert!(dot_dark_str.contains("splines=polyline"));
    assert!(dot_dark_str.contains("subgraph \"cluster_"));
    assert!(dot_dark_str.contains("label=\"Legend\""));

    let light = DotOptions { clusters: false, legend: false, ..DotOptions::default() };
    let dot_light_str = DotGenerator::new().generate_dot_with_options(&g, light).unwrap();
    assert!(dot_light_str.contains("rankdir=LR"));
    assert!(!dot_light_str.contains("cluster_"));
}

#[test]
fn the_drawing_of_a_small_graph_is_exact() {
    let parser = RustParser::new().unwrap();
    let calls = CallPatterns::compile().unwrap();
    let built = build_graph(
        &parser,
        &calls,
        &vec![source("src/lib.rs", "fn \"\"() {}\nfn f() {}\n")],
        CacheMode::Ignore,
        Cache::new(),
        1,
    )
    .unwrap();
    let g = built.graph;
    let opts = DotOptions { clusters: false, legend: false, rounded: false, ..DotOptions::default() };
    let text = DotGenerator::new().generate_dot_with_options(&g, opts).unwrap();
    let expected = [
        "digraph KnowledgeRS\n{\n",
        "  rankdir=LR;\n  graph [fontname=Helvetica, splines=curved] ;\n",
        "  node [shape=box, fontsize=10, style=filled] ;\n",
        "  edge [fontname=Helvetica, fontsize=9];\n",
        "  \"file_src_lib_rs\" [label=\"lib\", fillcolor=\"#e0f3ff\", shape=\"component\", URL=\"item://file_src_lib_rs\", tooltip=\"lib\"];\n",
        "  \"fn_f_2\" [label=\"f\", fillcolor=\"#e8ffe0\", shape=\"oval\", URL=\"item://fn_f_2\", tooltip=\"f\"];\n",
        "  \"file_src_lib_rs\" -> \"fn_f_2\" [label=\"contains:file_contains\", color=\"#7f7f7f\", style=\"solid\", penwidth=1];\n",
        "}\n",
    ]
    .join("");
    assert_eq!(text, expected);
    let clustered = DotGenerator::new().generate_dot(&g).unwrap();
    assert!(clustered.contains("  subgraph \"cluster_src_lib_rs\" {\n    label=\"lib.rs\";\n    color=lightgrey;\n    \"file_src_lib_rs\""));
    assert!(clustered.contains("    \"legend_Trait\" [label=\"Trait\", fillcolor=\"#f0e0ff\", shape=\"parallelogram\"]; \n  }\n}\n"));
}

#[test]
fn edges_are_drawn_with_a_pen_of_at_least_eight_tenths() {
    let mut g = KnowledgeGraph::new();
    for (s, t) in [(50u8, "a"), (80, "b"), (85, "c"), (100, "d"), (205, "e")] {
        g.add_relationship(Relationship {
            from_item: ItemId("x".into()),
            to_item: ItemId(t.into()),
            relationship_type: RelationshipType::Calls { call_type: "path".into() },
            strength: s,
            context: String::new(),
        });
    }
    let opts = DotOptions { clusters: false, legend: false, ..DotOptions::default() };
    let text = DotGenerator::new().generate_dot_with_options(&g, opts).unwrap();
    assert!(text.contains("\"x\" -> \"a\" [label=\"calls:path\", color=\"#d62728\", style=\"solid\", penwidth=0.8];"));
    assert!(text.contains("\"x\" -> \"b\" [label=\"calls:path\", color=\"#d62728\", style=\"solid\", penwidth=0.8];"));
    assert!(text.contains("\"x\" -> \"c\" [label=\"calls:path\", color=\"#d62728\", style=\"solid\", penwidth=0.85];"));
    assert!(text.contains("\"x\" -> \"d\" [label=\"calls:path\", color=\"#d62728\", style=\"solid\", penwidth=1];"));
    assert!(text.contains("\"x\" -> \"e\" [label=\"calls:path\", color=\"#d62728\", style=\"solid\", penwidth=2.05];"));
}

#[test]
fn load_config_near_looks_for_default_name() {
    // only the file under the earlier name exists
    let found = load_config_near("/tmp/proj", false, true).expect("found default config");
    assert_eq!(found, "/tmp/proj/knowledge-rs.toml");
    assert_eq!(
        load_config_near("/tmp/proj", true, true),
        Some("/tmp/proj/rust-relations-explorer.toml".to_string())
    );
    assert_eq!(load_config_near("/tmp/proj", false, false), None);
    assert_eq!(default_config_path("p"), "p/rust-relations-explorer.toml");
    assert_eq!(cache_path("/r"), "/r/.knowledge_cache.json");
}

#[test]
fn the_root_of_a_project_is_the_first_marked_ancestor() {
    let dirs = ancestors_of("/home/u/proj/src/deep");
    assert_eq!(dirs, vec!["/home/u/proj/src/deep", "/home/u/proj/src", "/home/u/proj", "/home/u", "/home", "/"]);
    assert_eq!(ancestors_of("a/b"), vec!["a/b", "a", ""]);
    assert_eq!(detect(&dirs, &vec![false, false, true, true], "."), "/home/u/proj");
    assert_eq!(detect(&dirs, &vec![false; 6], "cwd"), "cwd");
    assert_eq!(detect(&dirs, &vec![], "cwd"), "cwd");
    assert_eq!(effective_path_str(".", "/root"), "/root");
    assert_eq!(effective_path_str("x", "/root"), "x");
    assert_eq!(effective_path_opt(None, "/root"), "/root");
    assert_eq!(effective_path_opt(Some("."), "/root"), "/root");
    assert_eq!(effective_path_opt(Some("./x"), "/root"), "./x");
    assert!(no_ignore_from_env(Some("1")));
    assert!(no_ignore_from_env(Some("TrUe")));
    assert!(!no_ignore_from_env(Some("yes")));
    assert!(!no_ignore_from_env(None));
    assert_eq!(Config::default().root, None);
    assert_eq!(DotConfig::default().theme, None);
    assert_eq!(SvgConfig::default().interactive, None);
    assert_eq!(QueryConfig::default().default_format, None);
}

#[test]
fn paths_are_taken_apart_by_their_separators() {
    assert_eq!(parent_of("src/a/foo.rs"), Some("src/a".to_string()));
    assert_eq!(parent_of("foo.rs"), Some(String::new()));
    assert_eq!(parent_of("/foo.rs"), Some("/".to_string()));
    assert_eq!(parent_of("/"), None);
    assert_eq!(parent_of(""), None);
    assert_eq!(file_name_of("src/a/foo.rs"), Some("foo.rs".to_string()));
    assert_eq!(file_name_of("src/a/"), None);
    assert_eq!(file_name_of("src/.."), None);
    assert_eq!(file_name_of("."), None);
    assert_eq!(file_stem_of("src/a/foo.rs"), Some("foo".to_string()));
    assert_eq!(file_stem_of("a/.hidden"), Some(".hidden".to_string()));
    assert_eq!(file_stem_of("a/x.tar.gz"), Some("x.tar".to_string()));
    assert_eq!(file_stem_of("a/noext"), Some("noext".to_string()));
    assert_eq!(join_path("src/a", "mod.rs"), "src/a/mod.rs");
    assert_eq!(join_path("src/a/", "mod.rs"), "src/a/mod.rs");
    assert_eq!(join_path("", "mod.rs"), "mod.rs");
    assert_eq!(join_path("src", "/abs"), "/abs");
    assert!(is_module_root_path("src/a/mod.rs"));
    assert!(is_module_root_path("lib.rs"));
    assert!(!is_module_root_path("src/a/module.rs"));
    assert_eq!(base_src_dir_of("/home/p/src/a/b.rs"), Some("/home/p/src".to_string()));
    assert_eq!(base_src_dir_of("a/src/b/src/x.rs"), Some("a/src".to_string()));
    assert_eq!(base_src_dir_of("a/srcs/x.rs"), None);
}

#[test]
fn module_segments_follow_the_first_src_directory() {
    let none: Vec<String> = vec![];
    assert_eq!(module_segments_of("src/lib.rs"), none);
    assert_eq!(module_segments_of("src/a/mod.rs"), vec!["a"]);
    assert_eq!(module_segments_of("src/a/foo.rs"), vec!["a", "foo"]);
    assert_eq!(module_segments_of("/x/src/m1/m2/baz.rs"), vec!["m1", "m2", "baz"]);
    assert_eq!(module_segments_of("a/src/b/src/x.rs"), vec!["b", "src", "x"]);
    assert_eq!(module_segments_of("lib/a/foo.rs"), none);
    assert_eq!(module_segments_of("src/./a/../foo.rs"), vec!["a", "foo"]);
}

#[test]
fn texts_are_ordered_and_numbers_written_in_decimal() {
    assert!(text_less("a", "b", false));
    assert!(text_less("a", "ab", false));
    assert!(!text_less("ab", "ab", false));
    assert!(text_less("src/a.rs", "src/a/b.rs", false));
    assert!(text_less("src/a/b.rs", "src/a.rs", true));
    assert_eq!(decimal_string(0), "0");
    assert_eq!(decimal_string(7), "7");
    assert_eq!(decimal_string(1234567890), "1234567890");
    assert_eq!(decimal_string(u64::MAX as u128), "18446744073709551615");
    assert_eq!(decimal_string(u128::MAX), "340282366920938463463374607431768211455");
}

#[test]
fn choices_of_the_command_line_are_read_in_any_case() {
    assert_eq!(on_off(true), OnOffArg::On);
    assert_eq!(on_off(false), OnOffArg::Off);
    assert_eq!(parse_theme("DARK"), Some(DotThemeArg::Dark));
    assert_eq!(parse_theme("light"), Some(DotThemeArg::Light));
    assert_eq!(parse_theme("grey"), None);
    assert_eq!(parse_rankdir("tb"), Some(DotRankDirArg::TB));
    assert_eq!(parse_rankdir("LR"), Some(DotRankDirArg::LR));
    assert_eq!(parse_rankdir("RL"), None);
    assert_eq!(parse_splines("Ortho"), Some(DotSplinesArg::Ortho));
    assert_eq!(parse_splines("polyline"), Some(DotSplinesArg::Polyline));
    assert_eq!(parse_splines("curved"), Some(DotSplinesArg::Curved));
    assert_eq!(parse_splines("line"), None);
    assert_eq!(parse_format("JSON"), Some(OutputFormat::Json));
    assert_eq!(parse_format("text"), Some(OutputFormat::Text));
    assert_eq!(parse_format("xml"), None);
}

#[test]
fn the_configuration_fills_in_only_what_stands_at_its_default() {
    assert_eq!(backfill_switch(OnOffArg::On, Some(false)), OnOffArg::Off);
    assert_eq!(backfill_switch(OnOffArg::Off, Some(true)), OnOffArg::Off);
    assert_eq!(backfill_switch(OnOffArg::On, None), OnOffArg::On);
    assert_eq!(backfill_format(OutputFormat::Text, Some("json")), OutputFormat::Json);
    assert_eq!(backfill_format(OutputFormat::Json, Some("text")), OutputFormat::Json);
    assert_eq!(backfill_format(OutputFormat::Text, Some("nope")), OutputFormat::Text);
    assert_eq!(backfill_theme(DotThemeArg::Light, Some("dark")), DotThemeArg::Dark);
    assert_eq!(backfill_theme(DotThemeArg::Dark, Some("light")), DotThemeArg::Dark);
    assert_eq!(backfill_rankdir(DotRankDirArg::LR, Some("tb")), DotRankDirArg::TB);
    assert_eq!(backfill_rankdir(DotRankDirArg::TB, Some("lr")), DotRankDirArg::TB);
    assert_eq!(backfill_splines(DotSplinesArg::Curved, Some("ortho")), DotSplinesArg::Ortho);
    assert_eq!(backfill_splines(DotSplinesArg::Polyline, Some("ortho")), DotSplinesArg::Polyline);
    assert_eq!(merged_file(None, Some("p".into())), Some("p".to_string()));
    assert_eq!(merged_file(Some("f".into()), Some("p".into())), Some("f".to_string()));
    assert_eq!(merged_file(None, None), None);
    assert_eq!(page_bounds(10, 3, Some(4)), (3, 7));
    assert_eq!(page_bounds(10, 8, Some(4)), (8, 10));
    assert_eq!(page_bounds(10, 20, None), (10, 10));
    assert_eq!(page_bounds(10, 0, Some(usize::MAX)), (0, 10));
    assert_eq!(metric_of(CentralityMetricArg::In), CentralityMetric::In);
    assert_eq!(metric_of(CentralityMetricArg::Total), CentralityMetric::Total);
    assert_eq!(direction_of(Direction::Callees), UsageDirection::Callees);
    assert!(kind_matches(ItemKindArg::Function, &ItemType::Function { is_async: true, is_const: false }));
    assert!(!kind_matches(ItemKindArg::Struct, &ItemType::Enum { variant_count: 0 }));
    let q = QueryCommands::Cycles {
        path: None,
        config: None,
        no_ignore: false,
        graph: None,
        format: OutputFormat::Text,
        offset: 0,
        limit: None,
    };
    assert!(matches!(q, QueryCommands::Cycles { offset: 0, .. }));
}

#[test]
fn unreferenced_items_are_those_without_import_or_call() {
    let g = small_graph();
    let all = UnreferencedItemsQuery::new(true, None).run(&g);
    let names: Vec<&str> = all.iter().map(|r| r.2.as_str()).collect();
    // foo is called by quiet; the first item of each file is never listed
    assert_eq!(names, vec!["S", "E", "quiet"]);
    assert_eq!(
        all[0],
        (
            "proj/src/lib.rs".to_string(),
            "struct:S:2".to_string(),
            "S".to_string(),
            "Struct".to_string(),
            "public".to_string()
        )
    );
    let private = UnreferencedItemsQuery::new(false, None).run(&g);
    assert_eq!(private.iter().map(|r| r.2.as_str()).collect::<Vec<_>>(), vec!["quiet"]);
    assert_eq!(private[0].4, "private");
    let without_lib = unreferenced_items(&g, true, &vec![true, false]);
    assert_eq!(without_lib.iter().map(|r| r.2.as_str()).collect::<Vec<_>>(), vec!["quiet"]);
}

#[test]
fn files_that_the_pattern_matches_are_passed_over() {
    let g = small_graph();
    let only_lib = UnreferencedItemsQuery::new(true, Some(regex::Regex::new(r"/m\.rs$").unwrap()));
    assert_eq!(only_lib.run(&g).iter().map(|r| r.2.as_str()).collect::<Vec<_>>(), vec!["S", "E"]);
    let nothing = UnreferencedItemsQuery::new(true, Some(regex::Regex::new("src").unwrap()));
    assert!(nothing.run(&g).is_empty());
    let all = UnreferencedItemsQuery::new(true, Some(regex::Regex::new("^nowhere$").unwrap()));
    assert_eq!(all.run(&g).len(), 3);
}

#[test]
fn item_info_gives_the_definition_and_the_relationships() {
    let g = small_graph();
    let q = ItemInfoQuery::new(ItemId("fn:foo:2".into()), true);
    let info = q
        .run_with_source(&g, Some("// m\n    pub fn foo() {}\nfn quiet() { foo(); }\n"))
        .expect("item present");
    assert_eq!(info.name, "foo");
    assert_eq!(info.kind, "Function");
    assert_eq!(info.visibility, "public");
    assert_eq!(info.path, "proj/src/m.rs");
    assert_eq!((info.line_start, info.line_end), (2, 2));
    assert_eq!(info.code.as_deref(), Some("    pub fn foo() {}"));
    let inbound: Vec<(&str, &str)> =
        info.inbound.iter().map(|e| (e.id.as_str(), e.relation.as_str())).collect();
    assert_eq!(
        inbound,
        vec![("file:proj/src/m.rs", "Contains:file_contains"), ("file:proj/src/m.rs", "Calls:heuristic")]
    );
    assert_eq!(info.inbound[1].context, "foo");
    assert_eq!(info.inbound[1].name, "m");
    assert_eq!(info.inbound[1].path, "proj/src/m.rs");
    assert!(info.outbound.is_empty());
    assert_eq!(q.run(&g).unwrap().code, None);
    assert!(ItemInfoQuery::new(ItemId("fn:none:1".into()), false).run(&g).is_none());
}

#[test]
fn snippets_are_cut_by_lines() {
    assert_eq!(snippet_of("a\r\nb\nc", 1, 2), Some("a\nb".to_string()));
    assert_eq!(snippet_of("a\nb\nc\n", 3, 9), Some("c".to_string()));
    assert_eq!(snippet_of("a\nb", 0, 1), Some("a".to_string()));
    assert_eq!(snippet_of("a\nb", 3, 3), None);
    assert_eq!(snippet_of("", 1, 1), None);
    assert_eq!(snippet_of("x\r", 1, 1), Some("x\r".to_string()));
}

#[test]
fn a_source_file_has_the_extension_rs() {
    assert!(is_source_path("src/a.rs"));
    assert!(is_source_path("a.b.rs"));
    assert!(is_source_path("/abs/dir.d/x.rs"));
    assert!(!is_source_path("src/a.rs.bak"));
    assert!(!is_source_path(".rs"));
    assert!(!is_source_path("src/.rs"));
    assert!(!is_source_path("src/a.RS"));
    assert!(!is_source_path("src/rs"));
    assert!(!is_source_path("src/a."));
    assert!(!is_source_path("dir.rs/file"));
    assert!(!is_source_path(""));
    assert!(is_source_path("src/..rs"));
}

#[test]
fn clusters_nest_as_deep_as_the_modules() {
    let parser = RustParser::new().unwrap();
    let calls = CallPatterns::compile().unwrap();
    let sources = vec![
        source("src/lib.rs", "pub mod a;\n"),
        source("src/a/mod.rs", "pub mod b;\n"),
        source("src/a/b/mod.rs", "pub mod c;\n"),
        source("src/a/b/c/mod.rs", "pub mod d;\n"),
        source("src/a/b/c/d.rs", "pub fn leaf() {}\n"),
    ];
    let g = build_graph(&parser, &calls, &sources, CacheMode::Ignore, Cache::new(), 1).unwrap().graph;
    assert_eq!(g.module_parents().len(), 4);
    let text = DotGenerator::new().generate_dot(&g).unwrap();
    assert_eq!(text.matches("  subgraph \"cluster_").count(), 5);
    let lib = text.find("cluster_src_lib_rs").unwrap();
    let leaf = text.find("cluster_src_a_b_c_d_rs").unwrap();
    assert!(lib < leaf);
    // the innermost cluster closes first: five closing braces follow its node
    let tail = &text[leaf..];
    let node = tail.find("tooltip=\"leaf\"];\n").unwrap();
    assert!(tail[node..].starts_with("tooltip=\"leaf\"];\n  }\n  }\n  }\n  }\n  }\n"));
}
