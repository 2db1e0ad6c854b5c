use rust_relations_explorer::model::ItemType;
use rust_relations_explorer::table::render;
use rust_relations_explorer::visualization::{
    enhance_svg, escape_label, sanitize_id, style_for_item_with_theme, DotGenerator, DotOptions,
    DotTheme, EdgeStyle, RankDir, SvgGenerator, SvgOptions,
};

#[test]
fn test_sanitize_id_basic() {
    let s = "file:/path/to:thing.rs#1";
    let got = sanitize_id(s);
    assert_eq!(got, "file__path_to_thing_rs_1");
    assert_eq!(sanitize_id("abc_DEF012"), "abc_DEF012");
}

#[test]
fn test_escape_label_quotes() {
    let s = "a\"b\"c";
    let got = escape_label(s);
    assert_eq!(got, "a\\\"b\\\"c");
}

#[test]
fn test_style_for_item_with_theme_all_variants() {
    let cases_light: Vec<(ItemType, (&str, &str))> = vec![
        (ItemType::Module { is_inline: false }, ("#e0f3ff", "component")),
        (ItemType::Function { is_async: false, is_const: false }, ("#e8ffe0", "oval")),
        (ItemType::Struct { is_tuple: false }, ("#fff4e0", "box")),
        (ItemType::Enum { variant_count: 0 }, ("#ffe0f0", "hexagon")),
        (ItemType::Trait { is_object_safe: false }, ("#f0e0ff", "parallelogram")),
        (ItemType::Impl { trait_name: None, for_type: "T".into() }, ("#f0fff0", "box3d")),
        (ItemType::Const, ("#ffffe0", "note")),
        (ItemType::Static { is_mut: false }, ("#ffffe0", "folder")),
        (ItemType::Type, ("#f0ffff", "box")),
        (ItemType::Macro, ("#e0ffe8", "cds")),
    ];
    for (t, expected) in cases_light {
        assert_eq!(style_for_item_with_theme(&t, DotTheme::Light), expected);
    }
    let cases_dark: Vec<(ItemType, (&str, &str))> = vec![
        (ItemType::Module { is_inline: false }, ("#124559", "component")),
        (ItemType::Function { is_async: false, is_const: false }, ("#0b6e4f", "oval")),
        (ItemType::Struct { is_tuple: false }, ("#7a4c00", "box")),
        (ItemType::Enum { variant_count: 0 }, ("#6a1e44", "hexagon")),
        (ItemType::Trait { is_object_safe: false }, ("#3c2a5a", "parallelogram")),
        (ItemType::Impl { trait_name: None, for_type: "T".into() }, ("#1a5e1a", "box3d")),
        (ItemType::Const, ("#6b6b00", "note")),
        (ItemType::Static { is_mut: false }, ("#6b6b00", "folder")),
        (ItemType::Type, ("#004f4f", "box")),
        (ItemType::Macro, ("#0f5e3a", "cds")),
    ];
    for (t, expected) in cases_dark {
        assert_eq!(style_for_item_with_theme(&t, DotTheme::Dark), expected);
    }
}

#[test]
fn test_enhance_svg_injection() {
    let minimal = "<svg></svg>";
    let out = enhance_svg(minimal);
    assert!(out.contains("<style>"));
    assert!(out.ends_with("</svg>"));
    let no_close = "<svg>";
    let out2 = enhance_svg(no_close);
    assert!(out2.contains("<style>"));
}

#[test]
fn enhance_svg_puts_the_injection_before_the_last_closing_tag() {
    let out = enhance_svg("<svg>a</svg>b</svg>");
    assert!(out.starts_with("<svg>a</svg>b\n<style>"));
    assert!(out.ends_with("]]></script>\n</svg>"));
    let bare = enhance_svg("x");
    assert!(bare.starts_with("x\n<style>"));
    assert!(bare.ends_with("</script>\n"));
}

#[test]
fn table_renderer_produces_expected_grid() {
    let headers = ["A", "B"];
    let rows: Vec<Vec<String>> =
        vec![vec!["x".into(), "y".into()], vec!["long".into(), "z".into()]];
    let out = render(&headers, &rows);
    assert!(out.starts_with("+"));
    assert!(out.contains("| A"));
    assert!(out.contains("long"));
}

#[test]
fn table_pads_cells_and_fills_short_rows() {
    let headers = ["A", "B"];
    let rows: Vec<Vec<String>> = vec![vec!["long".into()], vec!["x".into(), "yy".into(), "z".into()]];
    let out = render(&headers, &rows);
    let expected = "+------+----+\n| A    | B  |\n+------+----+\n| long |    |\n| x    | yy |\n+------+----+";
    assert_eq!(out, expected);
    let empty: Vec<Vec<String>> = vec![];
    assert_eq!(render(&[], &empty), "+\n|\n+\n+");
}

#[test]
fn default_options_are_the_documented_ones() {
    let d = DotOptions::default();
    assert!(d.clusters && d.legend && d.rounded);
    assert_eq!(d.theme, DotTheme::Light);
    assert_eq!(d.rankdir, RankDir::LR);
    assert_eq!(d.splines, EdgeStyle::Curved);
    let s = SvgOptions::default();
    assert!(s.interactive);
    assert_eq!(s.dot, d);
    assert_eq!(SvgGenerator::new(), SvgGenerator);
    assert_eq!(DotGenerator::new(), DotGenerator);
}
