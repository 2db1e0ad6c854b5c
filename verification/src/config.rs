//! Where the files of a project are looked for: the root of the project,
//! its configuration file and its cache; and what a configuration file may
//! say.

use crate::cli::lower_text;
use crate::model::{opt_text, texts};
use crate::paths::{join, join_path, parent, parent_of};
use crate::text::{chars_of, same_chars, same_text};
use vstd::prelude::*;

verus! {

/// What a configuration file says of drawings.
#[derive(Debug, Clone, PartialEq, Eq)]
pub struct DotConfig {
    pub clusters: Option<bool>,
    pub legend: Option<bool>,
    pub theme: Option<String>,
    pub rankdir: Option<String>,
    pub splines: Option<String>,
    pub rounded: Option<bool>,
}

/// What a configuration file says of drawings as SVG.
#[derive(Debug, Clone, PartialEq, Eq)]
pub struct SvgConfig {
    pub interactive: Option<bool>,
}

/// What a configuration file says of queries.
#[derive(Debug, Clone, PartialEq, Eq)]
pub struct QueryConfig {
    pub default_format: Option<String>,
}

/// What a configuration file says.
#[derive(Debug, Clone, PartialEq, Eq)]
pub struct Config {
    pub root: Option<String>,
    pub dot: Option<DotConfig>,
    pub svg: Option<SvgConfig>,
    pub query: Option<QueryConfig>,
}

impl Default for DotConfig {
    fn default() -> (r: DotConfig)
        ensures
            r.clusters is None,
            r.legend is None,
            r.theme is None,
            r.rankdir is None,
            r.splines is None,
            r.rounded is None,
    {
        DotConfig {
            clusters: None,
            legend: None,
            theme: None,
            rankdir: None,
            splines: None,
            rounded: None,
        }
    }
}

impl Default for SvgConfig {
    fn default() -> (r: SvgConfig)
        ensures
            r.interactive is None,
    {
        SvgConfig { interactive: None }
    }
}

impl Default for QueryConfig {
    fn default() -> (r: QueryConfig)
        ensures
            r.default_format is None,
    {
        QueryConfig { default_format: None }
    }
}

impl Default for Config {
    fn default() -> (r: Config)
        ensures
            r.root is None,
            r.dot is None,
            r.svg is None,
            r.query is None,
    {
        Config { root: None, dot: None, svg: None, query: None }
    }
}

/// The configuration file of the project at `root`.
pub fn default_config_path(root: &str) -> (r: String)
    ensures
        r@ == join(root@, "rust-relations-explorer.toml"@),
{
    join_path(root, "rust-relations-explorer.toml")
}

/// The configuration file of the project at `root` under its earlier name.
pub fn legacy_config_path(root: &str) -> (r: String)
    ensures
        r@ == join(root@, "knowledge-rs.toml"@),
{
    join_path(root, "knowledge-rs.toml")
}

/// The configuration file to read for the project at `root`, given which
/// of the two candidates exist: the one under the present name, or else
/// the one under the earlier name; none where neither exists.
pub fn load_config_near(root: &str, present_exists: bool, legacy_exists: bool) -> (r: Option<
    String,
>)
    ensures
        opt_text(r) == if present_exists {
            Some(join(root@, "rust-relations-explorer.toml"@))
        } else if legacy_exists {
            Some(join(root@, "knowledge-rs.toml"@))
        } else {
            None
        },
{
    if present_exists {
        Some(default_config_path(root))
    } else if legacy_exists {
        Some(legacy_config_path(root))
    } else {
        None
    }
}

/// The cache file of the project at `root`.
pub fn cache_path(root: &str) -> (r: String)
    ensures
        r@ == join(root@, ".knowledge_cache.json"@),
{
    join_path(root, ".knowledge_cache.json")
}

/// The root to work on: `p`, unless that is `.`, which stands for the root
/// that was detected.
pub fn effective_path_str(p: &str, detected: &str) -> (r: String)
    ensures
        r@ == if p@ == "."@ {
            detected@
        } else {
            p@
        },
{
    if same_text(p, ".") {
        detected.to_owned()
    } else {
        p.to_owned()
    }
}

/// The root to work on: `p`, unless there is none or it is `.`, which
/// stand for the root that was detected.
pub fn effective_path_opt(p: Option<&str>, detected: &str) -> (r: String)
    ensures
        r@ == match p {
            Some(path) => if path@ == "."@ {
                detected@
            } else {
                path@
            },
            None => detected@,
        },
{
    match p {
        Some(path) => effective_path_str(path, detected),
        None => detected.to_owned(),
    }
}

/// A path is longer than its parent.
pub proof fn lemma_parent_shorter(p: Seq<char>)
    ensures
        parent(p) matches Some(d) ==> d.len() < p.len(),
{
    crate::paths::lemma_last_index_bounds(p, '/');
}

/// A directory and the directories above it, from the nearest on.
pub open spec fn ancestors(p: Seq<char>) -> Seq<Seq<char>>
    decreases p.len(),
{
    match parent(p) {
        Some(d) => {
            proof {
                lemma_parent_shorter(p);
            }
            seq![p] + ancestors(d)
        },
        None => seq![p],
    }
}

/// A directory and the directories above it.
pub fn ancestors_of(start: &str) -> (r: Vec<String>)
    ensures
        texts(r@) == ancestors(start@),
{
    let mut out: Vec<String> = Vec::new();
    let mut cur = start.to_owned();
    assert(texts(out@) =~= Seq::<Seq<char>>::empty());
    assert(Seq::<Seq<char>>::empty() + ancestors(cur@) =~= ancestors(cur@));
    loop
        invariant_except_break
            ancestors(start@) == texts(out@) + ancestors(cur@),
        ensures
            texts(out@) == ancestors(start@),
        decreases cur@.len(),
    {
        let ghost before = texts(out@);
        let ghost here = cur@;
        let next = parent_of(cur.as_str());
        proof {
            lemma_parent_shorter(here);
        }
        out.push(cur);
        assert(texts(out@) =~= before.push(here));
        match next {
            Some(d) => {
                assert(before + (seq![here] + ancestors(d@)) =~= texts(out@) + ancestors(d@));
                cur = d;
            },
            None => {
                assert(before + seq![here] =~= texts(out@));
                break;
            },
        }
    }
    out
}

/// The root of the project: the first of the directories that is marked as
/// one; `fallback` where none is. A directory is marked by the flag at its
/// index; one without a flag is not marked.
pub open spec fn detected(dirs: Seq<Seq<char>>, marks: Seq<bool>, fallback: Seq<char>) -> Seq<char>
    decreases dirs.len(),
{
    if dirs.len() == 0 {
        fallback
    } else if marks.len() > 0 && marks[0] {
        dirs[0]
    } else {
        detected(
            dirs.drop_first(),
            if marks.len() > 0 {
                marks.drop_first()
            } else {
                marks
            },
            fallback,
        )
    }
}

/// The root of the project among `dirs`, of which `marks` says which hold
/// a manifest and a directory of sources.
pub fn detect(dirs: &Vec<String>, marks: &Vec<bool>, fallback: &str) -> (r: String)
    ensures
        r@ == detected(texts(dirs@), marks@, fallback@),
{
    let ghost all = texts(dirs@);
    let mut i: usize = 0;
    assert(all.skip(0) =~= all);
    assert(marks@.skip(0) =~= marks@);
    while i < dirs.len()
        invariant
            i <= dirs.len(),
            all == texts(dirs@),
            detected(all, marks@, fallback@) == detected(
                all.skip(i as int),
                if i <= marks.len() {
                    marks@.skip(i as int)
                } else {
                    Seq::empty()
                },
                fallback@,
            ),
        decreases dirs.len() - i,
    {
        let ghost rest = all.skip(i as int);
        let ghost flags = if i <= marks.len() {
            marks@.skip(i as int)
        } else {
            Seq::empty()
        };
        assert(rest[0] == dirs@[i as int]@);
        assert(rest.drop_first() =~= all.skip(i + 1));
        if i < marks.len() {
            assert(flags[0] == marks@[i as int]);
            assert(flags.drop_first() =~= marks@.skip(i + 1));
            if marks[i] {
                return dirs[i].clone();
            }
        } else {
            assert(flags.len() == 0);
            if i == marks.len() {
                assert(marks@.skip(i as int) =~= Seq::<bool>::empty());
            }
        }
        i += 1;
    }
    fallback.to_owned()
}

/// Whether the environment asks to pass over ignore rules: the variable is
/// set to `1`, or to `true` in whatever case.
pub fn no_ignore_from_env(value: Option<&str>) -> (r: bool)
    ensures
        r == match value {
            Some(v) => v@ == "1"@ || lower_text(v@) == "true"@,
            None => false,
        },
{
    match value {
        Some(v) => {
            if same_text(v, "1") {
                true
            } else {
                let folded = crate::cli::lowered(v);
                let word = chars_of("true");
                same_chars(folded.as_slice(), word.as_slice())
            }
        },
        None => false,
    }
}

} // verus!
