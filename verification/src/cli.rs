//! What the command line can say: the choices it offers and the commands
//! that ask something of a graph, with the rules by which a configuration
//! file fills in what the command line left at its default.

use crate::cache::CacheMode;
use crate::centrality::CentralityMetric;
use crate::config::{DotConfig, SvgConfig};
use crate::text::same_text;
use crate::visualization::{DotOptions, DotTheme, EdgeStyle, RankDir};
use crate::model::ItemType;
use crate::query::UsageDirection;
use crate::text::{chars_of, same_chars};
use vstd::prelude::*;

verus! {

/// How an answer is printed.
#[derive(Debug, Clone, Copy, PartialEq, Eq, Structural)]
pub enum OutputFormat {
    Text,
    Json,
}

/// Which side of a call is asked for.
#[derive(Debug, Clone, Copy, PartialEq, Eq, Structural)]
pub enum Direction {
    Callers,
    Callees,
}

/// By which degree a ranking goes.
#[derive(Debug, Clone, Copy, PartialEq, Eq, Structural)]
pub enum CentralityMetricArg {
    In,
    Out,
    Total,
}

/// A switch.
#[derive(Debug, Clone, Copy, PartialEq, Eq, Structural)]
pub enum OnOffArg {
    On,
    Off,
}

/// The colours of a drawing.
#[derive(Debug, Clone, Copy, PartialEq, Eq, Structural)]
pub enum DotThemeArg {
    Light,
    Dark,
}

/// The direction in which a drawing is laid out: left to right, or top to
/// bottom.
#[derive(Debug, Clone, Copy, PartialEq, Eq, Structural)]
pub enum DotRankDirArg {
    LR,
    TB,
}

/// How the edges of a drawing are drawn.
#[derive(Debug, Clone, Copy, PartialEq, Eq, Structural)]
pub enum DotSplinesArg {
    Curved,
    Ortho,
    Polyline,
}

/// A kind of item, to narrow a search by name.
#[derive(Debug, Clone, Copy, PartialEq, Eq, Structural)]
pub enum ItemKindArg {
    Module,
    Function,
    Struct,
    Enum,
    Trait,
    Impl,
    Const,
    Static,
    Type,
    Macro,
}

/// The commands that ask something of a graph. Each names the root of the
/// project, a configuration file, whether ignore rules are passed over, a
/// graph saved earlier to ask instead of building one, and the format of
/// the answer; those with a list for an answer name the part of the list
/// to show.
#[derive(Debug, Clone, PartialEq, Eq)]
pub enum QueryCommands {
    ConnectedFiles {
        path: Option<String>,
        config: Option<String>,
        no_ignore: bool,
        file_pos: Option<String>,
        file: Option<String>,
        graph: Option<String>,
        format: OutputFormat,
        offset: usize,
        limit: Option<usize>,
    },
    ItemInfo {
        path: Option<String>,
        config: Option<String>,
        no_ignore: bool,
        item_id: Option<String>,
        name: Option<String>,
        kind: Option<ItemKindArg>,
        graph: Option<String>,
        show_code: bool,
        format: OutputFormat,
    },
    FunctionUsage {
        path: Option<String>,
        config: Option<String>,
        no_ignore: bool,
        function: String,
        direction: Direction,
        graph: Option<String>,
        format: OutputFormat,
        offset: usize,
        limit: Option<usize>,
    },
    Cycles {
        path: Option<String>,
        config: Option<String>,
        no_ignore: bool,
        graph: Option<String>,
        format: OutputFormat,
        offset: usize,
        limit: Option<usize>,
    },
    Path {
        path: Option<String>,
        config: Option<String>,
        no_ignore: bool,
        from: String,
        to: String,
        graph: Option<String>,
        format: OutputFormat,
        offset: usize,
        limit: Option<usize>,
    },
    Hubs {
        path: Option<String>,
        config: Option<String>,
        no_ignore: bool,
        graph: Option<String>,
        metric: CentralityMetricArg,
        top: usize,
        format: OutputFormat,
        offset: usize,
        limit: Option<usize>,
    },
    ModuleCentrality {
        path: Option<String>,
        config: Option<String>,
        no_ignore: bool,
        graph: Option<String>,
        metric: CentralityMetricArg,
        top: usize,
        format: OutputFormat,
        offset: usize,
        limit: Option<usize>,
    },
    TraitImpls {
        path: Option<String>,
        config: Option<String>,
        no_ignore: bool,
        trait_name: String,
        graph: Option<String>,
        format: OutputFormat,
        offset: usize,
        limit: Option<usize>,
    },
    UnreferencedItems {
        path: Option<String>,
        config: Option<String>,
        no_ignore: bool,
        include_public: bool,
        exclude: Option<String>,
        graph: Option<String>,
        format: OutputFormat,
        offset: usize,
        limit: Option<usize>,
    },
}

/// The switch for a truth value.
pub fn on_off(b: bool) -> (r: OnOffArg)
    ensures
        r == if b {
            OnOffArg::On
        } else {
            OnOffArg::Off
        },
{
    if b {
        OnOffArg::On
    } else {
        OnOffArg::Off
    }
}

/// A character with an upper case letter of ASCII made lower case.
pub open spec fn lower(c: char) -> char {
    if 'A' <= c <= 'Z' {
        ((c as u8) + 32) as char
    } else {
        c
    }
}

/// A character with a lower case letter of ASCII made upper case.
pub open spec fn upper(c: char) -> char {
    if 'a' <= c <= 'z' {
        ((c as u8) - 32) as char
    } else {
        c
    }
}

/// A text in lower case, as far as ASCII goes.
pub open spec fn lower_text(s: Seq<char>) -> Seq<char> {
    s.map_values(|c: char| lower(c))
}

/// A text in upper case, as far as ASCII goes.
pub open spec fn upper_text(s: Seq<char>) -> Seq<char> {
    s.map_values(|c: char| upper(c))
}

/// The theme that a text names, whatever its case.
pub open spec fn theme_named(s: Seq<char>) -> Option<DotThemeArg> {
    if lower_text(s) == "light"@ {
        Some(DotThemeArg::Light)
    } else if lower_text(s) == "dark"@ {
        Some(DotThemeArg::Dark)
    } else {
        None
    }
}

/// The direction that a text names, whatever its case.
pub open spec fn rankdir_named(s: Seq<char>) -> Option<DotRankDirArg> {
    if upper_text(s) == "LR"@ {
        Some(DotRankDirArg::LR)
    } else if upper_text(s) == "TB"@ {
        Some(DotRankDirArg::TB)
    } else {
        None
    }
}

/// The style of edges that a text names, whatever its case.
pub open spec fn splines_named(s: Seq<char>) -> Option<DotSplinesArg> {
    if lower_text(s) == "curved"@ {
        Some(DotSplinesArg::Curved)
    } else if lower_text(s) == "ortho"@ {
        Some(DotSplinesArg::Ortho)
    } else if lower_text(s) == "polyline"@ {
        Some(DotSplinesArg::Polyline)
    } else {
        None
    }
}

/// The format that a text names, whatever its case.
pub open spec fn format_named(s: Seq<char>) -> Option<OutputFormat> {
    if lower_text(s) == "text"@ {
        Some(OutputFormat::Text)
    } else if lower_text(s) == "json"@ {
        Some(OutputFormat::Json)
    } else {
        None
    }
}

fn folded(s: &str, to_upper: bool) -> (r: Vec<char>)
    ensures
        r@ == if to_upper {
            upper_text(s@)
        } else {
            lower_text(s@)
        },
{
    let chars = chars_of(s);
    let mut out: Vec<char> = Vec::new();
    let mut i: usize = 0;
    while i < chars.len()
        invariant
            i <= chars.len(),
            chars@ == s@,
            out@ == if to_upper {
                upper_text(s@).take(i as int)
            } else {
                lower_text(s@).take(i as int)
            },
        decreases chars.len() - i,
    {
        let c = chars[i];
        let code: u32 = c as u32;
        let d: char = if to_upper {
            if 'a' as u32 <= code && code <= 'z' as u32 {
                ((code as u8) - 32) as char
            } else {
                c
            }
        } else {
            if 'A' as u32 <= code && code <= 'Z' as u32 {
                ((code as u8) + 32) as char
            } else {
                c
            }
        };
        out.push(d);
        proof {
            if to_upper {
                assert(d == upper(c));
                assert(upper_text(s@).take(i + 1) =~= upper_text(s@).take(i as int).push(upper(c)));
            } else {
                assert(d == lower(c));
                assert(lower_text(s@).take(i + 1) =~= lower_text(s@).take(i as int).push(lower(c)));
            }
        }
        i += 1;
    }
    proof {
        if to_upper {
            assert(upper_text(s@).take(i as int) =~= upper_text(s@));
        } else {
            assert(lower_text(s@).take(i as int) =~= lower_text(s@));
        }
    }
    out
}

/// A text in lower case, as far as ASCII goes.
pub fn lowered(s: &str) -> (r: Vec<char>)
    ensures
        r@ == lower_text(s@),
{
    folded(s, false)
}

fn reads(folded: &Vec<char>, word: &str) -> (r: bool)
    ensures
        r == (folded@ == word@),
{
    let w = chars_of(word);
    same_chars(folded.as_slice(), w.as_slice())
}

/// The theme that `s` names, whatever its case.
pub fn parse_theme(s: &str) -> (r: Option<DotThemeArg>)
    ensures
        r == theme_named(s@),
{
    let t = folded(s, false);
    if reads(&t, "light") {
        Some(DotThemeArg::Light)
    } else if reads(&t, "dark") {
        Some(DotThemeArg::Dark)
    } else {
        None
    }
}

/// The direction that `s` names, whatever its case.
pub fn parse_rankdir(s: &str) -> (r: Option<DotRankDirArg>)
    ensures
        r == rankdir_named(s@),
{
    let t = folded(s, true);
    if reads(&t, "LR") {
        Some(DotRankDirArg::LR)
    } else if reads(&t, "TB") {
        Some(DotRankDirArg::TB)
    } else {
        None
    }
}

/// The style of edges that `s` names, whatever its case.
pub fn parse_splines(s: &str) -> (r: Option<DotSplinesArg>)
    ensures
        r == splines_named(s@),
{
    let t = folded(s, false);
    if reads(&t, "curved") {
        Some(DotSplinesArg::Curved)
    } else if reads(&t, "ortho") {
        Some(DotSplinesArg::Ortho)
    } else if reads(&t, "polyline") {
        Some(DotSplinesArg::Polyline)
    } else {
        None
    }
}

/// The format that `s` names, whatever its case.
pub fn parse_format(s: &str) -> (r: Option<OutputFormat>)
    ensures
        r == format_named(s@),
{
    let t = folded(s, false);
    if reads(&t, "text") {
        Some(OutputFormat::Text)
    } else if reads(&t, "json") {
        Some(OutputFormat::Json)
    } else {
        None
    }
}

/// A switch after the configuration file: what the file says, where the
/// switch stands at its default, on, and the file says something.
pub fn backfill_switch(current: OnOffArg, configured: Option<bool>) -> (r: OnOffArg)
    ensures
        r == match configured {
            Some(b) => if current == OnOffArg::On {
                if b {
                    OnOffArg::On
                } else {
                    OnOffArg::Off
                }
            } else {
                current
            },
            None => current,
        },
{
    match configured {
        Some(b) => {
            if current == OnOffArg::On {
                on_off(b)
            } else {
                current
            }
        },
        None => current,
    }
}

/// The format after the configuration file: the one the file names, where
/// the format stands at its default, text, and the file names one.
pub fn backfill_format(current: OutputFormat, configured: Option<&str>) -> (r: OutputFormat)
    ensures
        r == match configured {
            Some(s) => match format_named(s@) {
                Some(f) => if current == OutputFormat::Text {
                    f
                } else {
                    current
                },
                None => current,
            },
            None => current,
        },
{
    match configured {
        Some(s) => match parse_format(s) {
            Some(f) => {
                if current == OutputFormat::Text {
                    f
                } else {
                    current
                }
            },
            None => current,
        },
        None => current,
    }
}

/// The theme after the configuration file: the one the file names, where
/// the theme stands at its default, light, and the file names one.
pub fn backfill_theme(current: DotThemeArg, configured: Option<&str>) -> (r: DotThemeArg)
    ensures
        r == match configured {
            Some(s) => match theme_named(s@) {
                Some(t) => if current == DotThemeArg::Light {
                    t
                } else {
                    current
                },
                None => current,
            },
            None => current,
        },
{
    match configured {
        Some(s) => match parse_theme(s) {
            Some(t) => {
                if current == DotThemeArg::Light {
                    t
                } else {
                    current
                }
            },
            None => current,
        },
        None => current,
    }
}

/// The direction after the configuration file: the one the file names,
/// where the direction stands at its default, left to right, and the file
/// names one.
pub fn backfill_rankdir(current: DotRankDirArg, configured: Option<&str>) -> (r: DotRankDirArg)
    ensures
        r == match configured {
            Some(s) => match rankdir_named(s@) {
                Some(t) => if current == DotRankDirArg::LR {
                    t
                } else {
                    current
                },
                None => current,
            },
            None => current,
        },
{
    match configured {
        Some(s) => match parse_rankdir(s) {
            Some(t) => {
                if current == DotRankDirArg::LR {
                    t
                } else {
                    current
                }
            },
            None => current,
        },
        None => current,
    }
}

/// The style of edges after the configuration file: the one the file
/// names, where the style stands at its default, curved, and the file names
/// one.
pub fn backfill_splines(current: DotSplinesArg, configured: Option<&str>) -> (r: DotSplinesArg)
    ensures
        r == match configured {
            Some(s) => match splines_named(s@) {
                Some(t) => if current == DotSplinesArg::Curved {
                    t
                } else {
                    current
                },
                None => current,
            },
            None => current,
        },
{
    match configured {
        Some(s) => match parse_splines(s) {
            Some(t) => {
                if current == DotSplinesArg::Curved {
                    t
                } else {
                    current
                }
            },
            None => current,
        },
        None => current,
    }
}

/// The file to ask about: the one given by name, or else the one given by
/// position.
pub fn merged_file(file: Option<String>, file_pos: Option<String>) -> (r: Option<String>)
    ensures
        r == if file is Some {
            file
        } else {
            file_pos
        },
{
    match file {
        Some(f) => Some(f),
        None => file_pos,
    }
}

/// The part of a list of `len` entries to show: from `offset`, and `limit`
/// entries where there is a limit, as far as the list goes.
pub fn page_bounds(len: usize, offset: usize, limit: Option<usize>) -> (r: (usize, usize))
    ensures
        r.0 == if offset < len {
            offset
        } else {
            len
        },
        r.1 == match limit {
            Some(l) => if r.0 + l < len {
                (r.0 + l) as usize
            } else {
                len
            },
            None => len,
        },
        r.0 <= r.1 <= len,
{
    let start = if offset < len {
        offset
    } else {
        len
    };
    let end = match limit {
        Some(l) => {
            if l < len - start {
                start + l
            } else {
                len
            }
        },
        None => len,
    };
    (start, end)
}

/// The metric that a choice of the command line stands for.
pub fn metric_of(arg: CentralityMetricArg) -> (r: CentralityMetric)
    ensures
        r == match arg {
            CentralityMetricArg::In => CentralityMetric::In,
            CentralityMetricArg::Out => CentralityMetric::Out,
            CentralityMetricArg::Total => CentralityMetric::Total,
        },
{
    match arg {
        CentralityMetricArg::In => CentralityMetric::In,
        CentralityMetricArg::Out => CentralityMetric::Out,
        CentralityMetricArg::Total => CentralityMetric::Total,
    }
}

/// The direction that a choice of the command line stands for.
pub fn direction_of(arg: Direction) -> (r: UsageDirection)
    ensures
        r == match arg {
            Direction::Callers => UsageDirection::Callers,
            Direction::Callees => UsageDirection::Callees,
        },
{
    match arg {
        Direction::Callers => UsageDirection::Callers,
        Direction::Callees => UsageDirection::Callees,
    }
}

/// Whether an item of kind `kind` is of the kind that the command line
/// names.
pub fn kind_matches(arg: ItemKindArg, kind: &ItemType) -> (r: bool)
    ensures
        r == match arg {
            ItemKindArg::Module => kind@ is Module,
            ItemKindArg::Function => kind@ is Function,
            ItemKindArg::Struct => kind@ is Struct,
            ItemKindArg::Enum => kind@ is Enum,
            ItemKindArg::Trait => kind@ is Trait,
            ItemKindArg::Impl => kind@ is Impl,
            ItemKindArg::Const => kind@ is Const,
            ItemKindArg::Static => kind@ is Static,
            ItemKindArg::Type => kind@ is Type,
            ItemKindArg::Macro => kind@ is Macro,
        },
{
    match (arg, kind) {
        (ItemKindArg::Module, ItemType::Module { .. }) => true,
        (ItemKindArg::Function, ItemType::Function { .. }) => true,
        (ItemKindArg::Struct, ItemType::Struct { .. }) => true,
        (ItemKindArg::Enum, ItemType::Enum { .. }) => true,
        (ItemKindArg::Trait, ItemType::Trait { .. }) => true,
        (ItemKindArg::Impl, ItemType::Impl { .. }) => true,
        (ItemKindArg::Const, ItemType::Const) => true,
        (ItemKindArg::Static, ItemType::Static { .. }) => true,
        (ItemKindArg::Type, ItemType::Type) => true,
        (ItemKindArg::Macro, ItemType::Macro) => true,
        _ => false,
    }
}


/// The format of an answer: the one that the configuration names, `json`
/// or `text` to the letter, or else the one given.
pub fn override_format(current: OutputFormat, configured: Option<&str>) -> (r: OutputFormat)
    ensures
        r == match configured {
            Some(s) => if s@ == "json"@ {
                OutputFormat::Json
            } else if s@ == "text"@ {
                OutputFormat::Text
            } else {
                current
            },
            None => current,
        },
{
    match configured {
        Some(s) => {
            if same_text(s, "json") {
                OutputFormat::Json
            } else if same_text(s, "text") {
                OutputFormat::Text
            } else {
                current
            }
        },
        None => current,
    }
}

/// How a build treats the cache: to rebuild goes before not to use the
/// cache, and that before using it.
pub fn cache_mode(rebuild: bool, no_cache: bool) -> (r: CacheMode)
    ensures
        r == if rebuild {
            CacheMode::Rebuild
        } else if no_cache {
            CacheMode::Ignore
        } else {
            CacheMode::Use
        },
{
    if rebuild {
        CacheMode::Rebuild
    } else if no_cache {
        CacheMode::Ignore
    } else {
        CacheMode::Use
    }
}

/// The options of a drawing that the flags give.
pub open spec fn flag_options(
    clusters: OnOffArg,
    legend: OnOffArg,
    theme: DotThemeArg,
    rankdir: DotRankDirArg,
    splines: DotSplinesArg,
    rounded: OnOffArg,
) -> DotOptions {
    DotOptions {
        clusters: clusters == OnOffArg::On,
        legend: legend == OnOffArg::On,
        theme: match theme {
            DotThemeArg::Dark => DotTheme::Dark,
            DotThemeArg::Light => DotTheme::Light,
        },
        rankdir: match rankdir {
            DotRankDirArg::TB => RankDir::TB,
            DotRankDirArg::LR => RankDir::LR,
        },
        splines: match splines {
            DotSplinesArg::Ortho => EdgeStyle::Ortho,
            DotSplinesArg::Polyline => EdgeStyle::Polyline,
            DotSplinesArg::Curved => EdgeStyle::Curved,
        },
        rounded: rounded == OnOffArg::On,
    }
}

/// The options of a drawing after the configuration: whatever the
/// configuration says goes before the flags. A theme other than `dark` is
/// light, a direction other than `TB` is left to right, and edges other
/// than `ortho` and `polyline` are curved.
pub open spec fn configured_options(base: DotOptions, cfg: DotConfig) -> DotOptions {
    DotOptions {
        clusters: match cfg.clusters {
            Some(v) => v,
            None => base.clusters,
        },
        legend: match cfg.legend {
            Some(v) => v,
            None => base.legend,
        },
        theme: match cfg.theme {
            Some(v) => if v@ == "dark"@ {
                DotTheme::Dark
            } else {
                DotTheme::Light
            },
            None => base.theme,
        },
        rankdir: match cfg.rankdir {
            Some(v) => if v@ == "TB"@ {
                RankDir::TB
            } else {
                RankDir::LR
            },
            None => base.rankdir,
        },
        splines: match cfg.splines {
            Some(v) => if v@ == "ortho"@ {
                EdgeStyle::Ortho
            } else if v@ == "polyline"@ {
                EdgeStyle::Polyline
            } else {
                EdgeStyle::Curved
            },
            None => base.splines,
        },
        rounded: match cfg.rounded {
            Some(v) => v,
            None => base.rounded,
        },
    }
}

/// The options of a drawing that the flags give.
pub fn dot_options_from_flags(
    clusters: OnOffArg,
    legend: OnOffArg,
    theme: DotThemeArg,
    rankdir: DotRankDirArg,
    splines: DotSplinesArg,
    rounded: OnOffArg,
) -> (r: DotOptions)
    ensures
        r == flag_options(clusters, legend, theme, rankdir, splines, rounded),
{
    DotOptions {
        clusters: clusters == OnOffArg::On,
        legend: legend == OnOffArg::On,
        theme: match theme {
            DotThemeArg::Dark => DotTheme::Dark,
            DotThemeArg::Light => DotTheme::Light,
        },
        rankdir: match rankdir {
            DotRankDirArg::TB => RankDir::TB,
            DotRankDirArg::LR => RankDir::LR,
        },
        splines: match splines {
            DotSplinesArg::Ortho => EdgeStyle::Ortho,
            DotSplinesArg::Polyline => EdgeStyle::Polyline,
            DotSplinesArg::Curved => EdgeStyle::Curved,
        },
        rounded: rounded == OnOffArg::On,
    }
}

/// The options of a drawing after the configuration.
pub fn dot_options_from_config(base: DotOptions, cfg: &DotConfig) -> (r: DotOptions)
    ensures
        r == configured_options(base, *cfg),
{
    DotOptions {
        clusters: match cfg.clusters {
            Some(v) => v,
            None => base.clusters,
        },
        legend: match cfg.legend {
            Some(v) => v,
            None => base.legend,
        },
        theme: match &cfg.theme {
            Some(v) => {
                if same_text(v.as_str(), "dark") {
                    DotTheme::Dark
                } else {
                    DotTheme::Light
                }
            },
            None => base.theme,
        },
        rankdir: match &cfg.rankdir {
            Some(v) => {
                if same_text(v.as_str(), "TB") {
                    RankDir::TB
                } else {
                    RankDir::LR
                }
            },
            None => base.rankdir,
        },
        splines: match &cfg.splines {
            Some(v) => {
                if same_text(v.as_str(), "ortho") {
                    EdgeStyle::Ortho
                } else if same_text(v.as_str(), "polyline") {
                    EdgeStyle::Polyline
                } else {
                    EdgeStyle::Curved
                }
            },
            None => base.splines,
        },
        rounded: match cfg.rounded {
            Some(v) => v,
            None => base.rounded,
        },
    }
}

/// Whether a drawing in SVG is made to answer to the pointer: as the
/// configuration says, or else as the flag says.
pub fn svg_interactive(flag: OnOffArg, cfg: Option<&SvgConfig>) -> (r: bool)
    ensures
        r == match cfg {
            Some(c) => match c.interactive {
                Some(v) => v,
                None => flag == OnOffArg::On,
            },
            None => flag == OnOffArg::On,
        },
{
    match cfg {
        Some(c) => match c.interactive {
            Some(v) => v,
            None => flag == OnOffArg::On,
        },
        None => flag == OnOffArg::On,
    }
}

} // verus!
