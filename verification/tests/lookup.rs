use rust_relations_explorer::cache::CacheMode;
use rust_relations_explorer::cli::{
    cache_mode, dot_options_from_config, dot_options_from_flags, override_format,
    svg_interactive, DotRankDirArg, DotSplinesArg, DotThemeArg, ItemKindArg, OnOffArg,
    OutputFormat,
};
use rust_relations_explorer::config::{DotConfig, SvgConfig};
use rust_relations_explorer::graph::KnowledgeGraph;
use rust_relations_explorer::lookup::{
    candidates_for, lookup_by_name, rank_candidates, Candidate, NameLookup,
};
use rust_relations_explorer::model::{
    FileMetrics, FileNode, Item, ItemId, ItemType, Location, Visibility,
};
use rust_relations_explorer::visualization::{DotOptions, DotTheme, EdgeStyle, RankDir};

fn item(path: &str, id: &str, name: &str, kind: ItemType) -> Item {
    Item {
        id: ItemId(id.to_string()),
        item_type: kind,
        name: name.to_string(),
        visibility: Visibility::Public,
        location: Location { file: path.to_string(), line_start: 1, line_end: 1 },
        attributes: vec![],
    }
}

fn graph_with_names() -> KnowledgeGraph {
    let mut g = KnowledgeGraph::new();
    let f = |is_fn: bool| {
        if is_fn {
            ItemType::Function { is_async: false, is_const: false }
        } else {
            ItemType::Struct { is_tuple: false }
        }
    };
    for (path, id, name, is_fn) in [
        ("proj/src/a.rs", "fn:onlyone:1", "onlyone", true),
        ("proj/src/a.rs", "fn:dup:2", "dup", true),
        ("proj/src/b.rs", "fn:dup:9", "dup", true),
        ("proj/src/deep/c.rs", "fn:near:1", "near", true),
        ("other/src/c.rs", "fn:near:5", "near", true),
        ("proj/src/t.rs", "struct:Thing:1", "Thing", false),
        ("proj/src/t.rs", "fn:Thing:1", "Thing", true),
    ] {
        let mut node = g.get_file(path).cloned().unwrap_or(FileNode {
            path: path.to_string(),
            items: vec![],
            imports: vec![],
            metrics: FileMetrics { item_count: 0, import_count: 0 },
        });
        node.items.push(item(path, id, name, f(is_fn)));
        g.insert_file(node);
    }
    g
}

#[test]
fn a_name_that_one_item_carries_is_found() {
    let g = graph_with_names();
    assert_eq!(
        lookup_by_name(&g, "onlyone", None, Some("proj/src")),
        NameLookup::Found(ItemId("fn:onlyone:1".into()))
    );
    assert_eq!(lookup_by_name(&g, "missing", None, Some("proj/src")), NameLookup::NoMatch);
    assert_eq!(
        lookup_by_name(&g, "onlyone", Some(ItemKindArg::Struct), None),
        NameLookup::NoMatch
    );
}

#[test]
fn candidates_of_one_rank_make_a_name_ambiguous() {
    let g = graph_with_names();
    match lookup_by_name(&g, "dup", None, Some("proj/src")) {
        NameLookup::Ambiguous(c) => {
            let ids: Vec<&str> = c.iter().map(|x| x.id.0.as_str()).collect();
            assert_eq!(ids, vec!["fn:dup:2", "fn:dup:9"]);
            assert_eq!(c[0].kind, "function");
            assert_eq!(c[0].path, "proj/src/a.rs");
        }
        other => panic!("expected an ambiguous name, got {:?}", other),
    }
    // the kind tells the struct from the function of the same name
    assert_eq!(
        lookup_by_name(&g, "Thing", Some(ItemKindArg::Struct), Some("proj/src")),
        NameLookup::Found(ItemId("struct:Thing:1".into()))
    );
    assert!(matches!(lookup_by_name(&g, "Thing", None, Some("proj/src")), NameLookup::Ambiguous(_)));
}

#[test]
fn the_preferred_directory_and_the_depth_decide_the_rank() {
    let g = graph_with_names();
    // one candidate lies in the preferred directory, the other lies less deep
    assert_eq!(
        lookup_by_name(&g, "near", None, Some("proj/src")),
        NameLookup::Found(ItemId("fn:near:1".into()))
    );
    assert_eq!(
        lookup_by_name(&g, "near", None, Some("other/src")),
        NameLookup::Found(ItemId("fn:near:5".into()))
    );
    assert_eq!(
        lookup_by_name(&g, "near", None, Some("elsewhere/src")),
        NameLookup::Found(ItemId("fn:near:5".into()))
    );
    let found = candidates_for(&g, "near", None);
    assert_eq!(found.len(), 2);
    let ranked = rank_candidates(found, None);
    let paths: Vec<&str> = ranked.iter().map(|c| c.path.as_str()).collect();
    assert_eq!(paths, vec!["other/src/c.rs", "proj/src/deep/c.rs"]);
    let c = |p: &str| Candidate { id: ItemId("x".into()), kind: "function".into(), path: p.into() };
    let order = rank_candidates(
        vec![c("r/src/a/b/x.rs"), c("q/src/x.rs"), c("r/src/z.rs"), c("r/src/a/x.rs"), c("r/src/b.rs")],
        Some("r/src"),
    );
    let paths: Vec<&str> = order.iter().map(|c| c.path.as_str()).collect();
    assert_eq!(
        paths,
        vec!["r/src/b.rs", "r/src/z.rs", "r/src/a/x.rs", "r/src/a/b/x.rs", "q/src/x.rs"]
    );
}

#[test]
fn the_configuration_goes_before_the_flags_of_a_build() {
    assert_eq!(cache_mode(true, true), CacheMode::Rebuild);
    assert_eq!(cache_mode(false, true), CacheMode::Ignore);
    assert_eq!(cache_mode(false, false), CacheMode::Use);
    assert_eq!(override_format(OutputFormat::Text, Some("json")), OutputFormat::Json);
    assert_eq!(override_format(OutputFormat::Json, Some("text")), OutputFormat::Text);
    assert_eq!(override_format(OutputFormat::Json, Some("JSON")), OutputFormat::Json);
    assert_eq!(override_format(OutputFormat::Text, Some("JSON")), OutputFormat::Text);
    assert_eq!(override_format(OutputFormat::Text, None), OutputFormat::Text);
    let base = dot_options_from_flags(
        OnOffArg::On,
        OnOffArg::Off,
        DotThemeArg::Dark,
        DotRankDirArg::LR,
        DotSplinesArg::Polyline,
        OnOffArg::Off,
    );
    assert_eq!(
        base,
        DotOptions {
            clusters: true,
            legend: false,
            theme: DotTheme::Dark,
            rankdir: RankDir::LR,
            splines: EdgeStyle::Polyline,
            rounded: false,
        }
    );
    let cfg = DotConfig {
        clusters: Some(false),
        legend: None,
        theme: Some("light".into()),
        rankdir: Some("TB".into()),
        splines: Some("weird".into()),
        rounded: Some(true),
    };
    assert_eq!(
        dot_options_from_config(base, &cfg),
        DotOptions {
            clusters: false,
            legend: false,
            theme: DotTheme::Light,
            rankdir: RankDir::TB,
            splines: EdgeStyle::Curved,
            rounded: true,
        }
    );
    assert_eq!(dot_options_from_config(base, &DotConfig::default()), base);
    assert!(svg_interactive(OnOffArg::On, None));
    assert!(!svg_interactive(OnOffArg::On, Some(&SvgConfig { interactive: Some(false) })));
    assert!(!svg_interactive(OnOffArg::Off, Some(&SvgConfig { interactive: None })));
}
