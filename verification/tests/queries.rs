use rust_relations_explorer::centrality::{CentralityMetric, HubsQuery, ModuleCentralityQuery};
use rust_relations_explorer::graph::KnowledgeGraph;
use rust_relations_explorer::model::{
    FileMetrics, FileNode, Item, ItemId, ItemType, Location, Relationship, RelationshipType,
    Visibility,
};
use rust_relations_explorer::query::{
    ConnectedFilesQuery, FunctionUsageQuery, Query, TraitImplsQuery,
};
use rust_relations_explorer::cycles::CycleDetectionQuery;
use rust_relations_explorer::shortest_path::ShortestPathQuery;

fn make_fn(path: &str, id_prefix: &str, name: &str) -> Item {
    Item {
        id: ItemId(format!("fn:{}:{}", name, id_prefix)),
        item_type: ItemType::Function { is_async: false, is_const: false },
        name: name.to_string(),
        visibility: Visibility::Public,
        location: Location { file: path.to_string(), line_start: 1, line_end: 1 },
        attributes: vec![],
    }
}

fn node(path: &str, items: Vec<Item>) -> FileNode {
    FileNode {
        path: path.to_string(),
        items,
        imports: vec![],
        metrics: FileMetrics { item_count: 0, import_count: 0 },
    }
}

fn calls(from: &Item, to: &Item) -> Relationship {
    Relationship {
        from_item: from.id.clone(),
        to_item: to.id.clone(),
        relationship_type: RelationshipType::Calls { call_type: "test".to_string() },
        strength: 100,
        context: String::new(),
    }
}

// src/a.rs (A) -> calls -> src/b.rs (B) -> calls -> src/c.rs (C); optional cycle c -> a
fn graph_fixture(with_cycle: bool) -> KnowledgeGraph {
    let mut g = KnowledgeGraph::new();
    let a_item = make_fn("src/a.rs", "1", "fa");
    let b_item = make_fn("src/b.rs", "2", "fb");
    let c_item = make_fn("src/c.rs", "3", "fc");
    g.insert_file(node("src/a.rs", vec![a_item.clone()]));
    g.insert_file(node("src/b.rs", vec![b_item.clone()]));
    g.insert_file(node("src/c.rs", vec![c_item.clone()]));
    g.add_relationship(calls(&a_item, &b_item));
    g.add_relationship(calls(&b_item, &c_item));
    if with_cycle {
        g.add_relationship(calls(&c_item, &a_item));
    }
    g
}

fn make_path_fn(path: &str, name: &str) -> Item {
    Item {
        id: ItemId(format!("fn:{}:{}", name, path)),
        item_type: ItemType::Function { is_async: false, is_const: false },
        name: name.to_string(),
        visibility: Visibility::Public,
        location: Location { file: path.to_string(), line_start: 1, line_end: 1 },
        attributes: vec![],
    }
}

// a -> b, b -> c, d isolated in another module directory
fn graph_chain() -> KnowledgeGraph {
    let mut g = KnowledgeGraph::new();
    let ia = make_path_fn("src/a.rs", "fa");
    let ib = make_path_fn("src/b.rs", "fb");
    let ic = make_path_fn("src/m1/c.rs", "fc");
    let id = make_path_fn("src/m2/d.rs", "fd");
    g.insert_file(node("src/a.rs", vec![ia.clone()]));
    g.insert_file(node("src/b.rs", vec![ib.clone()]));
    g.insert_file(node("src/m1/c.rs", vec![ic.clone()]));
    g.insert_file(node("src/m2/d.rs", vec![id.clone()]));
    g.add_relationship(calls(&ia, &ib));
    g.add_relationship(calls(&ib, &ic));
    g
}

#[test]
fn connected_files_query_basic() {
    let g = graph_fixture(false);
    let q = ConnectedFilesQuery::new("src/a.rs");
    let res = q.run(&g);
    assert!(res.contains(&"src/b.rs".to_string()));
    assert!(!res.contains(&"src/c.rs".to_string()));
}

#[test]
fn connected_files_are_sorted_and_exclude_the_file_itself() {
    let g = graph_fixture(true);
    let res = ConnectedFilesQuery::new("src/b.rs").run(&g);
    assert_eq!(res, vec!["src/a.rs".to_string(), "src/c.rs".to_string()]);
    assert!(ConnectedFilesQuery::new("src/missing.rs").run(&g).is_empty());
}

#[test]
fn function_usage_callers_and_callees() {
    let g = graph_fixture(false);
    let callees = FunctionUsageQuery::callees("fa").run(&g);
    assert!(callees.contains(&"src/b.rs".to_string()));
    let callers = FunctionUsageQuery::callers("fb").run(&g);
    assert!(callers.contains(&"src/a.rs".to_string()));
}

#[test]
fn function_usage_of_unknown_name_is_empty() {
    let g = graph_fixture(false);
    assert!(FunctionUsageQuery::callers("nope").run(&g).is_empty());
    assert_eq!(FunctionUsageQuery::callers("fc").run(&g), vec!["src/b.rs".to_string()]);
}

#[test]
fn cycle_detection_detects_simple_cycle() {
    let g = graph_fixture(true);
    let cycles = CycleDetectionQuery::new().run(&g);
    assert!(cycles.iter().any(|cyc| {
        cyc.contains(&"src/a.rs".to_string())
            && cyc.contains(&"src/b.rs".to_string())
            && cyc.contains(&"src/c.rs".to_string())
    }));
}

#[test]
fn cycle_detection_reports_exactly_the_three_files() {
    let g = graph_fixture(true);
    let cycles = CycleDetectionQuery::new().run(&g);
    assert_eq!(
        cycles,
        vec![vec!["src/a.rs".to_string(), "src/b.rs".to_string(), "src/c.rs".to_string()]]
    );
    assert!(CycleDetectionQuery::new().run(&graph_fixture(false)).is_empty());
}

#[test]
fn cycle_detection_reports_cycles_in_the_order_found() {
    let mut g = KnowledgeGraph::new();
    let names = ["src/a.rs", "src/b.rs", "src/c.rs", "src/d.rs"];
    let items: Vec<Item> = names.iter().map(|p| make_path_fn(p, "f")).collect();
    for (p, it) in names.iter().zip(items.iter()) {
        g.insert_file(node(p, vec![it.clone()]));
    }
    // a <-> b, b <-> c, c -> d, and d calls nothing
    g.add_relationship(calls(&items[2], &items[3]));
    g.add_relationship(calls(&items[2], &items[1]));
    g.add_relationship(calls(&items[1], &items[2]));
    g.add_relationship(calls(&items[1], &items[0]));
    g.add_relationship(calls(&items[0], &items[1]));
    g.add_relationship(calls(&items[0], &items[1]));
    let cycles = CycleDetectionQuery::new().run(&g);
    assert_eq!(
        cycles,
        vec![
            vec!["src/a.rs".to_string(), "src/b.rs".to_string()],
            vec!["src/b.rs".to_string(), "src/c.rs".to_string()],
        ]
    );
}

#[test]
fn trait_impls_basic() {
    let mut g = KnowledgeGraph::new();
    let p = "src/x.rs";
    let impl_item = Item {
        id: ItemId("impl:X:Display".to_string()),
        item_type: ItemType::Impl {
            trait_name: Some("Display".to_string()),
            for_type: "X".to_string(),
        },
        name: "impl Display for X".to_string(),
        visibility: Visibility::PubCrate,
        location: Location { file: p.to_string(), line_start: 1, line_end: 1 },
        attributes: vec![],
    };
    g.insert_file(node(p, vec![impl_item]));
    let rows = TraitImplsQuery::new("Display").run(&g);
    assert_eq!(rows.len(), 1);
    assert_eq!(rows[0].0, p);
    assert_eq!(rows[0].1, "X");
}

#[test]
fn trait_impls_are_sorted_by_file_then_type() {
    let mut g = KnowledgeGraph::new();
    let mk = |path: &str, ty: &str, tr: &str| Item {
        id: ItemId(format!("impl:{}:{}", ty, tr)),
        item_type: ItemType::Impl { trait_name: Some(tr.to_string()), for_type: ty.to_string() },
        name: format!("impl {} for {}", tr, ty),
        visibility: Visibility::Private,
        location: Location { file: path.to_string(), line_start: 1, line_end: 1 },
        attributes: vec![],
    };
    g.insert_file(node("src/z.rs", vec![mk("src/z.rs", "B", "T"), mk("src/z.rs", "A", "T")]));
    g.insert_file(node("src/a.rs", vec![mk("src/a.rs", "Q", "T"), mk("src/a.rs", "P", "U")]));
    let rows = TraitImplsQuery::new("T").run(&g);
    assert_eq!(
        rows,
        vec![
            ("src/a.rs".to_string(), "Q".to_string()),
            ("src/z.rs".to_string(), "A".to_string()),
            ("src/z.rs".to_string(), "B".to_string()),
        ]
    );
}

#[test]
fn shortest_path_found_and_absent() {
    let g = graph_chain();
    let p = ShortestPathQuery::new("src/a.rs", "src/m1/c.rs").run(&g);
    assert_eq!(p.first().unwrap().to_string(), "src/a.rs");
    assert_eq!(p.last().unwrap().to_string(), "src/m1/c.rs");
    let none = ShortestPathQuery::new("src/m1/c.rs", "src/a.rs").run(&g);
    assert!(none.is_empty());
}

#[test]
fn shortest_path_lengths_obey_the_triangle_inequality() {
    let g = graph_chain();
    let ab = ShortestPathQuery::new("src/a.rs", "src/b.rs").run(&g);
    let bc = ShortestPathQuery::new("src/b.rs", "src/m1/c.rs").run(&g);
    let ac = ShortestPathQuery::new("src/a.rs", "src/m1/c.rs").run(&g);
    assert_eq!(ab, vec!["src/a.rs".to_string(), "src/b.rs".to_string()]);
    assert_eq!(
        ac,
        vec!["src/a.rs".to_string(), "src/b.rs".to_string(), "src/m1/c.rs".to_string()]
    );
    assert!(ac.len() <= ab.len() + bc.len());
    assert_eq!(ShortestPathQuery::new("src/a.rs", "src/a.rs").run(&g), vec!["src/a.rs".to_string()]);
    assert!(ShortestPathQuery::new("src/a.rs", "src/none.rs").run(&g).is_empty());
}

#[test]
fn shortest_path_takes_the_first_of_equally_short_walks() {
    let mut g = KnowledgeGraph::new();
    let names = ["src/a.rs", "src/b.rs", "src/c.rs", "src/d.rs", "src/e.rs", "src/f.rs"];
    let items: Vec<Item> = names.iter().map(|p| make_path_fn(p, "f")).collect();
    for (p, it) in names.iter().zip(items.iter()).rev() {
        g.insert_file(node(p, vec![it.clone()]));
    }
    // a -> c -> d -> f and a -> b -> e -> f, the later files first
    g.add_relationship(calls(&items[0], &items[2]));
    g.add_relationship(calls(&items[2], &items[3]));
    g.add_relationship(calls(&items[3], &items[5]));
    g.add_relationship(calls(&items[0], &items[1]));
    g.add_relationship(calls(&items[1], &items[4]));
    g.add_relationship(calls(&items[4], &items[5]));
    let p = ShortestPathQuery::new("src/a.rs", "src/f.rs").run(&g);
    assert_eq!(
        p,
        vec![
            "src/a.rs".to_string(),
            "src/b.rs".to_string(),
            "src/e.rs".to_string(),
            "src/f.rs".to_string()
        ]
    );
    let q = ShortestPathQuery::new("src/a.rs", "src/d.rs").run(&g);
    assert_eq!(q, vec!["src/a.rs".to_string(), "src/c.rs".to_string(), "src/d.rs".to_string()]);
}

#[test]
fn hubs_query_metrics_and_sorting() {
    let g = graph_chain();
    let total = HubsQuery::new(CentralityMetric::Total, 10).run(&g);
    assert!(total.iter().any(|(p, i, o)| p.ends_with("src/b.rs") && *i == 1 && *o == 1));
    let ins = HubsQuery::new(CentralityMetric::In, 10).run(&g);
    assert!(ins.iter().any(|(p, i, _)| p.ends_with("src/m1/c.rs") && *i == 1));
    let outs = HubsQuery::new(CentralityMetric::Out, 10).run(&g);
    assert!(outs.iter().any(|(p, _, o)| p.ends_with("src/a.rs") && *o == 1));
}

#[test]
fn hubs_rows_are_ranked_and_cut_at_top() {
    let g = graph_chain();
    let total = HubsQuery::new(CentralityMetric::Total, 10).run(&g);
    assert_eq!(
        total,
        vec![
            ("src/b.rs".to_string(), 1, 1),
            ("src/a.rs".to_string(), 0, 1),
            ("src/m1/c.rs".to_string(), 1, 0),
            ("src/m2/d.rs".to_string(), 0, 0),
        ]
    );
    let two = HubsQuery::new(CentralityMetric::Total, 2).run(&g);
    assert_eq!(two.len(), 2);
    assert_eq!(two[0].0, "src/b.rs");
    assert!(HubsQuery::new(CentralityMetric::In, 0).run(&g).is_empty());
}

#[test]
fn module_centrality_inter_module_edges() {
    let g = graph_chain();
    let rows = ModuleCentralityQuery::new(CentralityMetric::Total, 10).run(&g);
    assert!(rows.len() >= 2);
    let mods: Vec<String> = rows.iter().map(|(p, _, _)| p.to_string()).collect();
    assert!(mods.iter().any(|m| m == "src" || m.ends_with("/src")));
}

#[test]
fn module_centrality_counts_only_edges_between_modules() {
    let g = graph_chain();
    let rows = ModuleCentralityQuery::new(CentralityMetric::Total, 10).run(&g);
    assert_eq!(
        rows,
        vec![
            ("src".to_string(), 0, 1),
            ("src/m1".to_string(), 1, 0),
            ("src/m2".to_string(), 0, 0),
        ]
    );
}
