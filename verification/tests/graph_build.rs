use rust_relations_explorer::analysis::{
    analyze_calls_heuristic, analyze_import_uses, analyze_module_hierarchy, CallPatterns,
};
use rust_relations_explorer::builder::build_graph;
use rust_relations_explorer::cache::{Cache, CacheEntry, CacheEntryMeta, CacheMode, SourceFile};
use rust_relations_explorer::errors::{KnowledgeGraphError, ParseError};
use rust_relations_explorer::graph::KnowledgeGraph;
use rust_relations_explorer::model::{
    FileMetrics, FileNode, GraphMetadata, Import, Item, ItemId, ItemType, Location, Relationship,
    RelationshipType, Visibility,
};
use rust_relations_explorer::parser::RustParser;
use rust_relations_explorer::query::{ConnectedFilesQuery, Query};
use rust_relations_explorer::resolver::Resolver;
use rust_relations_explorer::saved::{restore, save, SavedGraph};

fn make_file_item(p: &str) -> Item {
    let name = p.rsplit('/').next().unwrap_or("");
    let stem = match name.rfind('.') {
        Some(i) if i > 0 => &name[..i],
        _ => name,
    };
    Item {
        id: ItemId(format!("file:{}", p)),
        item_type: ItemType::Module { is_inline: false },
        name: if stem.is_empty() { "(file)".to_string() } else { stem.to_string() },
        visibility: Visibility::PubCrate,
        location: Location { file: p.to_string(), line_start: 1, line_end: 1 },
        attributes: vec![],
    }
}

fn mk_fn_item(p: &str, name: &str, tail: &str) -> Item {
    Item {
        id: ItemId(format!("fn:{}:{}", name, tail)),
        item_type: ItemType::Function { is_async: false, is_const: false },
        name: name.to_string(),
        visibility: Visibility::Public,
        location: Location { file: p.to_string(), line_start: 1, line_end: 1 },
        attributes: vec![],
    }
}

fn file(p: &str, items: Vec<Item>, imports: Vec<Import>) -> FileNode {
    FileNode {
        path: p.to_string(),
        items,
        imports,
        metrics: FileMetrics { item_count: 0, import_count: 0 },
    }
}

fn source(path: &str, content: &str, mtime: u64) -> SourceFile {
    SourceFile {
        path: path.to_string(),
        meta: CacheEntryMeta { mtime, len: content.len() as u64 },
        content: Ok(content.to_string()),
    }
}

fn is_contains(r: &Relationship, kind: &str) -> bool {
    matches!(&r.relationship_type, RelationshipType::Contains { containment_type } if containment_type == kind)
}

#[test]
fn module_hierarchy_basic() {
    let mut g = KnowledgeGraph::new();
    let lib = "src/lib.rs";
    let a_mod = "src/a/mod.rs";
    let a_foo = "src/a/foo.rs";
    g.insert_file(file(lib, vec![make_file_item(lib)], vec![]));
    g.insert_file(file(a_mod, vec![make_file_item(a_mod)], vec![]));
    g.insert_file(file(a_foo, vec![make_file_item(a_foo)], vec![]));

    analyze_module_hierarchy(&mut g);

    assert_eq!(g.get_module_parent(a_mod), Some(&lib.to_string()));
    assert_eq!(g.get_module_parent(a_foo), Some(&a_mod.to_string()));
    assert!(g.get_module_parent(lib).is_none());

    let lib_children = g.get_module_children(lib);
    assert!(lib_children.contains(&a_mod.to_string()));
    let a_mod_children = g.get_module_children(a_mod);
    assert!(a_mod_children.contains(&a_foo.to_string()));
}

#[test]
fn module_hierarchy_adds_one_edge_for_each_pair() {
    let mut g = KnowledgeGraph::new();
    for p in ["src/lib.rs", "src/a/mod.rs", "src/a/foo.rs"] {
        g.insert_file(file(p, vec![make_file_item(p)], vec![]));
    }
    analyze_module_hierarchy(&mut g);
    let edges: Vec<(String, String)> = g
        .relationships()
        .iter()
        .filter(|r| is_contains(r, "module_contains"))
        .map(|r| (r.from_item.0.clone(), r.to_item.0.clone()))
        .collect();
    assert_eq!(
        edges,
        vec![
            ("file:src/a/mod.rs".to_string(), "file:src/a/foo.rs".to_string()),
            ("file:src/lib.rs".to_string(), "file:src/a/mod.rs".to_string()),
        ]
    );
    assert!(g.relationships().iter().all(|r| r.strength == 100 && r.context == "fs"));
    assert_eq!(g.module_parents().len(), 2);
}

#[test]
fn import_uses_edges_item_vs_module() {
    let f1 = "/tmp/t/a.rs";
    let f2 = "/tmp/t/modx.rs";
    let f3 = "/tmp/t/b.rs";
    let mut g = KnowledgeGraph::new();
    g.insert_file(file(
        f1,
        vec![make_file_item(f1)],
        vec![
            Import { path: "foo".into(), alias: None },
            Import { path: "modx".into(), alias: None },
        ],
    ));
    g.insert_file(file(f2, vec![make_file_item(f2)], vec![]));
    g.insert_file(file(f3, vec![make_file_item(f3), mk_fn_item(f3, "foo", "1")], vec![]));

    analyze_import_uses(&mut g);

    let a_file_id = ItemId(format!("file:{}", f1));
    let mut saw_item = false;
    let mut saw_module = false;
    for r in g.relationships() {
        if r.from_item == a_file_id {
            if let RelationshipType::Uses { import_type } = &r.relationship_type {
                if import_type == "import-item" {
                    saw_item = true;
                    assert_eq!(r.to_item.0, "fn:foo:1");
                    assert_eq!(r.strength, 100);
                    assert_eq!(r.context, "foo");
                }
                if import_type == "import-module" {
                    saw_module = true;
                    assert_eq!(r.to_item.0, format!("file:{}", f2));
                    assert_eq!(r.strength, 80);
                    assert_eq!(r.context, "modx");
                }
            }
        }
    }
    assert!(saw_item, "expected import-item edge");
    assert!(saw_module, "expected import-module edge");
    assert_eq!(g.relationships().len(), 2);
}

#[test]
fn calls_heuristic_and_path_and_macro_exclusion() {
    let caller = "/tmp/c/caller.rs";
    let callee_foo = "/tmp/c/callee.rs";
    let baz = "/tmp/c/a/b/baz.rs";
    let sources = vec![
        source(caller, "fn main(){ foo(); a::b::baz(); my_macro!(x); }\n", 1),
        source(callee_foo, "pub fn foo(){}\n", 1),
        source(baz, "pub fn baz(){}\n", 1),
    ];
    let mut g = KnowledgeGraph::new();
    g.insert_file(file(caller, vec![make_file_item(caller)], vec![]));
    g.insert_file(file(
        callee_foo,
        vec![make_file_item(callee_foo), mk_fn_item(callee_foo, "foo", "X")],
        vec![],
    ));
    g.insert_file(file(baz, vec![make_file_item(baz), mk_fn_item(baz, "baz", "X")], vec![]));
    // a function that only a macro names
    g.insert_file(file(
        "/tmp/c/mac.rs",
        vec![make_file_item("/tmp/c/mac.rs"), mk_fn_item("/tmp/c/mac.rs", "my_macro", "X")],
        vec![],
    ));

    let patterns = CallPatterns::compile().expect("patterns");
    analyze_calls_heuristic(&mut g, &patterns, &sources);

    let caller_file_id = ItemId(format!("file:{}", caller));
    let mut saw_foo = false;
    let mut saw_baz = false;
    let mut saw_macro = false;
    for r in g.relationships() {
        if r.from_item != caller_file_id {
            continue;
        }
        if let RelationshipType::Calls { call_type } = &r.relationship_type {
            if r.to_item.0.starts_with("fn:foo:") {
                saw_foo = true;
                assert_eq!(call_type, "heuristic");
                assert_eq!(r.strength, 50);
                assert_eq!(r.context, "foo");
            }
            if r.to_item.0.starts_with("fn:baz:") {
                saw_baz = true;
                assert_eq!(call_type, "path");
                assert_eq!(r.strength, 70);
                assert_eq!(r.context, "a::b::baz");
            }
            if r.to_item.0.starts_with("fn:my_macro:") {
                saw_macro = true;
            }
        }
    }
    assert!(saw_foo, "expected call edge to foo()");
    assert!(saw_baz, "expected call edge to a::b::baz()");
    assert!(!saw_macro, "macro invocations must not create call edges");
}

#[test]
fn definitions_are_not_taken_for_calls() {
    let a = "src/a.rs";
    let sources = vec![source(a, "fn foo() { }\nstruct foo (u8);\nfn bar() { foo  (); foo(); }\n", 1)];
    let mut g = KnowledgeGraph::new();
    g.insert_file(file(a, vec![make_file_item(a), mk_fn_item(a, "foo", "1"), mk_fn_item(a, "bar", "3")], vec![]));
    let patterns = CallPatterns::compile().unwrap();
    analyze_calls_heuristic(&mut g, &patterns, &sources);
    // one edge to foo from the calls in bar, none to bar, and no second edge to foo
    let targets: Vec<&str> = g.relationships().iter().map(|r| r.to_item.0.as_str()).collect();
    assert_eq!(targets, vec!["fn:foo:1"]);
}

#[test]
fn anchors_resolve_along_the_files() {
    let mut g = KnowledgeGraph::new();
    let from = "src/m1/m2/baz.rs";
    let target = "src/m3/qux.rs";
    g.insert_file(file(from, vec![make_file_item(from)], vec![]));
    g.insert_file(file("src/m3/mod.rs", vec![make_file_item("src/m3/mod.rs")], vec![]));
    g.insert_file(file(target, vec![make_file_item(target), mk_fn_item(target, "qux", "7")], vec![]));
    let r = Resolver::new(&g);
    let by_crate = r.resolve_import(from, "crate::m3::qux");
    let by_super = r.resolve_import(from, "super::super::m3::qux");
    let ids = |v: &Vec<ItemId>| v.iter().map(|i| i.0.clone()).collect::<Vec<_>>();
    assert!(ids(&by_crate).contains(&"fn:qux:7".to_string()));
    assert!(ids(&by_super).contains(&"fn:qux:7".to_string()));
    assert_eq!(by_crate, by_super);
    assert!(r.is_item_function(&ItemId("fn:qux:7".into())));
    assert!(!r.is_item_function(&ItemId(format!("file:{}", target))));
    assert!(r.is_file_level_module(&ItemId(format!("file:{}", target))));
    assert!(!r.is_file_level_module(&ItemId("fn:qux:7".into())));
    assert!(!r.is_file_level_module(&ItemId("nothing".into())));
}

#[test]
fn underscore_alias_binds_nothing() {
    let mut g = KnowledgeGraph::new();
    let from = "src/lib.rs";
    g.insert_file(file(
        from,
        vec![make_file_item(from)],
        vec![Import { path: "crate::m1".into(), alias: Some("_".into()) }],
    ));
    g.insert_file(file("src/m1.rs", vec![make_file_item("src/m1.rs")], vec![]));
    let r = Resolver::new(&g);
    assert!(r.resolve_import(from, "_").is_empty());
}

#[test]
fn aliases_and_plain_imports_stand_for_their_paths() {
    let mut g = KnowledgeGraph::new();
    let lib = "src/lib.rs";
    let deep = "src/m1/deep.rs";
    g.insert_file(file(
        lib,
        vec![make_file_item(lib)],
        vec![
            Import { path: "crate::m1::deep".into(), alias: Some("short".into()) },
            Import { path: "crate::m1::deep::thing".into(), alias: None },
        ],
    ));
    g.insert_file(file("src/m1/mod.rs", vec![make_file_item("src/m1/mod.rs")], vec![]));
    g.insert_file(file(deep, vec![make_file_item(deep), mk_fn_item(deep, "thing", "3")], vec![]));
    let r = Resolver::new(&g);
    let ids = |v: Vec<ItemId>| v.into_iter().map(|i| i.0).collect::<Vec<_>>();
    assert_eq!(ids(r.resolve_import(lib, "short::thing")), vec!["fn:thing:3".to_string()]);
    assert_eq!(ids(r.resolve_import(lib, "thing")), vec!["fn:thing:3".to_string()]);
    assert_eq!(ids(r.resolve_import(lib, "crate::m1::deep")), vec![format!("file:{}", deep)]);
    assert_eq!(ids(r.resolve_import(lib, "crate::m1::deep as other")), vec![format!("file:{}", deep)]);
    assert!(r.resolve_import(lib, "").is_empty());
    assert!(r.resolve_import(lib, "crate").is_empty());
    assert!(r.resolve_import(lib, "no::such::name").is_empty());
}

#[test]
fn integration_connected_files() {
    let sources = vec![
        source("proj/src/lib.rs", "", 1),
        source("proj/src/a.rs", "\n            pub fn foo() {}\n        ", 1),
        source("proj/src/b.rs", "\n            pub fn bar() { crate::a::foo(); }\n        ", 1),
    ];
    let parser = RustParser::new().unwrap();
    let calls = CallPatterns::compile().unwrap();
    let built =
        build_graph(&parser, &calls, &sources, CacheMode::Use, Cache::new(), 7).expect("build graph");
    let res = ConnectedFilesQuery::new("proj/src/b.rs").run(&built.graph);
    assert!(res.iter().any(|p| p.ends_with("src/a.rs")));
}

fn three_sources() -> Vec<SourceFile> {
    vec![
        source("src/lib.rs", "pub mod a;\nuse crate::a::foo;\npub fn top() { foo(); }\n", 10),
        source("src/a/mod.rs", "pub fn foo() {}\nstruct Hidden;\n", 11),
        source("src/a/foo.rs", "pub fn deep() { crate::top(); }\n", 12),
    ]
}

#[test]
fn a_built_graph_keeps_its_invariants() {
    let parser = RustParser::new().unwrap();
    let calls = CallPatterns::compile().unwrap();
    let built = build_graph(&parser, &calls, &three_sources(), CacheMode::Ignore, Cache::new(), 1234)
        .unwrap();
    let g = &built.graph;
    assert_eq!(g.metadata().generated_at, "1234");
    assert_eq!(g.files().len(), 3);
    for f in g.files() {
        // the first item stands for the file
        assert_eq!(f.items[0].id.0, format!("file:{}", f.path));
        assert_eq!(f.items[0].item_type, ItemType::Module { is_inline: false });
        assert_eq!(f.items[0].visibility, Visibility::PubCrate);
        assert_eq!(f.metrics.item_count, f.items.len());
        // exactly one containment edge to each other item
        for it in f.items.iter().skip(1) {
            let n = g
                .relationships()
                .iter()
                .filter(|r| {
                    is_contains(r, "file_contains") && r.from_item == f.items[0].id && r.to_item == it.id
                })
                .count();
            assert_eq!(n, 1);
        }
    }
    // every pair of the hierarchy has its edge, and the child is among the children
    assert_eq!(g.module_parents().len(), 2);
    for (child, parent) in g.module_parents() {
        assert!(g.relationships().iter().any(|r| {
            is_contains(r, "module_contains")
                && r.from_item.0 == format!("file:{}", parent)
                && r.to_item.0 == format!("file:{}", child)
        }));
        assert!(g.get_module_children(parent).contains(child));
    }
    assert_eq!(g.get_module_parent("src/a/mod.rs"), Some(&"src/lib.rs".to_string()));
    assert_eq!(g.get_module_parent("src/a/foo.rs"), Some(&"src/a/mod.rs".to_string()));
    // module paths
    assert_eq!(g.module_segments_for("src/lib.rs"), Vec::<String>::new());
    assert_eq!(g.module_segments_for("src/a/mod.rs"), vec!["a".to_string()]);
    assert_eq!(g.module_segments_for("src/a/foo.rs"), vec!["a".to_string(), "foo".to_string()]);
    // imports: an item edge never goes to a file, a module edge always does
    let r = Resolver::new(g);
    let mut uses = 0;
    for rel in g.relationships() {
        if let RelationshipType::Uses { import_type } = &rel.relationship_type {
            uses += 1;
            assert_eq!(import_type == "import-module", r.is_file_level_module(&rel.to_item));
            assert!(rel.strength == 100 || rel.strength == 80);
        }
        assert!(rel.strength >= 50 && rel.strength <= 100);
    }
    assert!(uses >= 1);
    // calls found in the text
    assert!(g.relationships().iter().any(|rel| {
        matches!(&rel.relationship_type, RelationshipType::Calls { .. })
            && rel.from_item.0 == "file:src/lib.rs"
            && rel.to_item.0 == "fn:foo:1"
    }));
    assert!(g.relationships().iter().any(|rel| {
        matches!(&rel.relationship_type, RelationshipType::Calls { call_type } if call_type == "path")
            && rel.from_item.0 == "file:src/a/foo.rs"
            && rel.to_item.0 == "fn:top:3"
    }));
}

#[test]
fn a_second_build_from_the_cache_gives_the_same_relationships() {
    let parser = RustParser::new().unwrap();
    let calls = CallPatterns::compile().unwrap();
    let first = build_graph(&parser, &calls, &three_sources(), CacheMode::Use, Cache::new(), 1).unwrap();
    assert_eq!(first.cache.entries().len(), 3);
    // the second time no file needs to be read for extraction
    let unread: Vec<SourceFile> = three_sources()
        .into_iter()
        .map(|s| SourceFile { content: s.content, ..s })
        .collect();
    let second = build_graph(&parser, &calls, &unread, CacheMode::Use, first.cache, 2).unwrap();
    assert_eq!(second.graph.relationships(), first.graph.relationships());
    assert_eq!(second.graph.files(), first.graph.files());
    assert_eq!(second.cache.entries().len(), 3);
}

#[test]
fn cache_mode_use_detects_changes_and_prunes_removed() {
    let parser = RustParser::new().unwrap();
    let calls = CallPatterns::compile().unwrap();
    let v1 = vec![
        source("src/lib.rs", "pub fn a() {}\npub mod m;\n", 100),
        source("src/m.rs", "pub fn b() {}\n", 100),
    ];
    let b1 = build_graph(&parser, &calls, &v1, CacheMode::Use, Cache::new(), 1).unwrap();
    assert!(b1.graph.files().len() >= 2);
    assert_eq!(b1.cache.entries().len(), 2);
    let m1 = b1.cache.get("src/m.rs").map(|e| (e.meta.mtime, e.meta.len)).unwrap();

    let v2 = vec![
        source("src/lib.rs", "pub fn a() {}\npub mod m;\n", 100),
        source("src/m.rs", "pub fn b() {}\npub fn c() {}\n", 1100),
    ];
    let b2 = build_graph(&parser, &calls, &v2, CacheMode::Use, b1.cache, 2).unwrap();
    let m2 = b2.cache.get("src/m.rs").map(|e| (e.meta.mtime, e.meta.len)).unwrap();
    assert_ne!(m1, m2, "cache entry for modified file should update");
    assert_eq!(b2.cache.entries().len(), 2);
    assert_eq!(b2.graph.get_file("src/m.rs").unwrap().items.len(), 3);

    let v3 = vec![source("src/lib.rs", "pub fn a() {}\npub mod m;\n", 100)];
    let b3 = build_graph(&parser, &calls, &v3, CacheMode::Use, b2.cache, 3).unwrap();
    assert_eq!(b3.cache.entries().len(), 1);
    assert!(b3.cache.get("src/m.rs").is_none());
    assert_eq!(b3.graph.files().len(), 1);
}

#[test]
fn cache_mode_ignore_rebuilds_without_reuse() {
    let parser = RustParser::new().unwrap();
    let calls = CallPatterns::compile().unwrap();
    let v1 = vec![
        source("src/lib.rs", "pub fn a() {}\npub mod m;\n", 100),
        source("src/m.rs", "pub fn b() {}\n", 100),
    ];
    let b1 = build_graph(&parser, &calls, &v1, CacheMode::Use, Cache::new(), 1).unwrap();
    // the text changes but the metadata do not: only a build that ignores the cache sees it
    let v2 = vec![
        source("src/lib.rs", "pub fn a() {}\npub mod m;\n", 100),
        SourceFile {
            path: "src/m.rs".into(),
            meta: CacheEntryMeta { mtime: 100, len: 14 },
            content: Ok("pub fn z() {}\n".into()),
        },
    ];
    let cached = Cache::new();
    let mut kept = cached;
    for e in b1.cache.entries() {
        assert!(kept.insert(CacheEntry { meta: e.meta, node: e.node.clone() }));
    }
    let used = build_graph(&parser, &calls, &v2, CacheMode::Use, kept, 2).unwrap();
    assert_eq!(used.graph.get_file("src/m.rs").unwrap().items[1].name, "b");
    let ignored = build_graph(&parser, &calls, &v2, CacheMode::Ignore, b1.cache, 3).unwrap();
    assert_eq!(ignored.graph.get_file("src/m.rs").unwrap().items[1].name, "z");
    assert_eq!(ignored.cache.entries().len(), 2);
    let rebuilt = build_graph(&parser, &calls, &v2, CacheMode::Rebuild, Cache::new(), 4).unwrap();
    assert_eq!(rebuilt.graph.files(), ignored.graph.files());
}

#[test]
fn a_file_that_cannot_be_read_fails_the_build() {
    let parser = RustParser::new().unwrap();
    let calls = CallPatterns::compile().unwrap();
    let sources = vec![
        source("src/lib.rs", "fn a() {}\n", 1),
        SourceFile {
            path: "src/gone.rs".into(),
            meta: CacheEntryMeta { mtime: 0, len: 0 },
            content: Err("permission denied".into()),
        },
        SourceFile {
            path: "src/also.rs".into(),
            meta: CacheEntryMeta { mtime: 0, len: 0 },
            content: Err("later".into()),
        },
    ];
    match build_graph(&parser, &calls, &sources, CacheMode::Use, Cache::new(), 1) {
        Err(KnowledgeGraphError::ParseError { file, source: ParseError::Io(cause) }) => {
            assert_eq!(file, "src/gone.rs");
            assert_eq!(cause, "permission denied");
        }
        _ => panic!("expected the build to fail on the first unreadable file"),
    }
}

#[test]
fn a_path_found_twice_counts_once() {
    let parser = RustParser::new().unwrap();
    let calls = CallPatterns::compile().unwrap();
    let sources = vec![
        source("src/lib.rs", "fn first() {}\n", 1),
        source("src/lib.rs", "fn second() {}\nfn third() {}\n", 2),
    ];
    let built = build_graph(&parser, &calls, &sources, CacheMode::Use, Cache::new(), 1).unwrap();
    assert_eq!(built.graph.files().len(), 1);
    assert_eq!(built.graph.files()[0].items[1].name, "first");
    assert_eq!(built.graph.relationships().iter().filter(|r| is_contains(r, "file_contains")).count(), 1);
}

#[test]
fn the_cache_refuses_nodes_that_are_not_of_a_built_graph() {
    let mut cache = Cache::new();
    let bad = file("src/x.rs", vec![mk_fn_item("src/x.rs", "f", "1")], vec![]);
    assert!(!cache.insert(CacheEntry { meta: CacheEntryMeta { mtime: 1, len: 1 }, node: bad }));
    let empty = file("src/x.rs", vec![], vec![]);
    assert!(!cache.insert(CacheEntry { meta: CacheEntryMeta { mtime: 1, len: 1 }, node: empty }));
    assert!(cache.entries().is_empty());
    let good = file("src/x.rs", vec![make_file_item("src/x.rs")], vec![]);
    assert!(cache.insert(CacheEntry { meta: CacheEntryMeta { mtime: 1, len: 1 }, node: good.clone() }));
    assert!(cache.insert(CacheEntry { meta: CacheEntryMeta { mtime: 2, len: 1 }, node: good }));
    assert_eq!(cache.entries().len(), 1);
    assert_eq!(cache.get("src/x.rs").unwrap().meta.mtime, 2);
    cache.retain_paths(&vec!["src/y.rs".to_string()]);
    assert!(cache.entries().is_empty());
}

#[test]
fn files_stay_in_order_of_path_and_a_path_names_one_file() {
    let mut g = KnowledgeGraph::new();
    for p in ["src/b.rs", "src/a.rs", "src/a/b.rs", "src/a.rs", "src/a-b.rs"] {
        g.insert_file(file(p, vec![make_file_item(p)], vec![]));
    }
    let paths: Vec<&str> = g.files().iter().map(|f| f.path.as_str()).collect();
    // component by component: the directory `a` comes before the files `a-b.rs` and `a.rs`
    assert_eq!(paths, vec!["src/a/b.rs", "src/a-b.rs", "src/a.rs", "src/b.rs"]);
    assert!(g.get_file("src/a.rs").is_some());
    assert!(g.get_file("src/c.rs").is_none());
}

#[test]
fn a_graph_written_down_and_read_back_is_the_same() {
    let parser = RustParser::new().unwrap();
    let calls = CallPatterns::compile().unwrap();
    let sources = vec![
        source("src/lib.rs", "pub mod a;\npub fn root() { a::foo::leaf(); }\n", 1),
        source("src/a/mod.rs", "pub mod foo;\nuse crate::a::foo::leaf;\n", 1),
        source("src/a/foo.rs", "pub fn leaf() {}\n", 1),
        source("src/a/bar.rs", "pub struct Bar;\n", 1),
    ];
    let built = build_graph(&parser, &calls, &sources, CacheMode::Ignore, Cache::new(), 17).unwrap();
    let g = built.graph;
    let written = save(&g);
    assert_eq!(written.files.len(), 4);
    assert_eq!(written.metadata.generated_at, "17");
    assert_eq!(
        written.module_children,
        vec![
            (
                "src/a/mod.rs".to_string(),
                vec!["src/a/bar.rs".to_string(), "src/a/foo.rs".to_string()]
            ),
            ("src/lib.rs".to_string(), vec!["src/a/mod.rs".to_string()]),
        ]
    );
    let back = restore(written);
    assert_eq!(back.files(), g.files());
    assert_eq!(back.relationships(), g.relationships());
    assert_eq!(back.module_segments(), g.module_segments());
    assert_eq!(back.metadata().generated_at, "17");
    for f in g.files() {
        assert_eq!(back.get_module_parent(&f.path), g.get_module_parent(&f.path));
        assert_eq!(back.get_module_children(&f.path), g.get_module_children(&f.path));
    }
}

#[test]
fn reading_back_follows_the_lists_of_children() {
    let node = |p: &str| FileNode {
        path: p.to_string(),
        items: vec![],
        imports: vec![],
        metrics: FileMetrics { item_count: 0, import_count: 0 },
    };
    let pair = |c: &str, p: &str| (c.to_string(), p.to_string());
    let written = SavedGraph {
        files: vec![node("src/z.rs"), node("src/lib.rs"), node("src/a.rs"), node("src/z.rs")],
        relationships: vec![],
        metadata: GraphMetadata { generated_at: String::new() },
        module_parent: vec![
            pair("src/a.rs", "src/lib.rs"),
            pair("src/q.rs", "src/gone.rs"),
            pair("src/z.rs", "src/lib.rs"),
            pair("src/x.rs", "src/a.rs"),
        ],
        module_children: vec![(
            "src/lib.rs".to_string(),
            vec!["src/z.rs".to_string(), "src/x.rs".to_string(), "src/a.rs".to_string()],
        )],
        module_segments: vec![("src/a.rs".to_string(), vec!["a".to_string()])],
    };
    let g = restore(written);
    let paths: Vec<&str> = g.files().iter().map(|f| f.path.as_str()).collect();
    assert_eq!(paths, vec!["src/a.rs", "src/lib.rs", "src/z.rs"]);
    assert_eq!(
        g.module_parents(),
        &vec![
            pair("src/z.rs", "src/lib.rs"),
            pair("src/a.rs", "src/lib.rs"),
            pair("src/q.rs", "src/gone.rs"),
            pair("src/x.rs", "src/a.rs"),
        ]
    );
    assert_eq!(g.get_module_children("src/lib.rs"), vec!["src/z.rs", "src/a.rs"]);
    assert_eq!(g.get_module_parent("src/x.rs"), Some(&"src/a.rs".to_string()));
    assert_eq!(g.module_segments_for("src/a.rs"), vec!["a"]);
}

#[test]
fn cache_mode_rebuild_clears_cache_file() {
    let parser = RustParser::new().unwrap();
    let calls = CallPatterns::compile().unwrap();
    let files = vec![
        source("src/lib.rs", "pub fn a() {}\npub mod m;\n", 100),
        source("src/m.rs", "pub fn b() {}\n", 100),
    ];
    let first = build_graph(&parser, &calls, &files, CacheMode::Use, Cache::new(), 1).unwrap();
    assert_eq!(first.cache.entries().len(), 2);

    // a rebuild starts from a cleared cache and fills it again
    let cleared = Cache::new();
    assert_eq!(cleared.entries().len(), 0);
    let again = build_graph(&parser, &calls, &files, CacheMode::Rebuild, cleared, 2).unwrap();
    assert_eq!(again.cache.entries().len(), 2);

    // and it takes nothing from a cache that it is given
    let stale = build_graph(&parser, &calls, &files, CacheMode::Rebuild, first.cache, 3).unwrap();
    assert_eq!(stale.cache.entries().len(), 2);
    assert_eq!(stale.graph.files(), again.graph.files());
}
