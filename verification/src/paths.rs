//! File paths as text. A path is a string whose components are separated by
//! `/`; a component is a maximal run of other characters. Nothing here
//! touches a file system.

use crate::model::opt_text;
use crate::model::texts;
use crate::text::{
    char_rows, chars_of, find_chars, find_from, lemma_find_from, same_chars, segments,
    slice_chars, split_segments, string_of,
};
use vstd::string::StringExecFns;
use vstd::prelude::*;

verus! {

/// The index of the last `c` in `s`, or -1.
pub open spec fn last_index_of(s: Seq<char>, c: char) -> int
    decreases s.len(),
{
    if s.len() == 0 {
        -1
    } else if s.last() == c {
        s.len() - 1
    } else {
        last_index_of(s.drop_last(), c)
    }
}

proof fn lemma_last_index_of(s: Seq<char>, c: char, k: int)
    requires
        0 <= k <= s.len(),
        forall|j: int| k <= j < s.len() ==> #[trigger] s[j] != c,
    ensures
        last_index_of(s, c) == last_index_of(s.take(k), c),
        -1 <= last_index_of(s, c) < s.len(),
        last_index_of(s, c) >= 0 ==> s[last_index_of(s, c)] == c,
    decreases s.len(),
{
    if s.len() == 0 {
        assert(s.take(k) =~= s);
    } else if s.last() == c {
        assert(k == s.len());
        assert(s.take(k) =~= s);
    } else {
        if k == s.len() {
            assert(s.take(k) =~= s);
            lemma_last_index_of(s.drop_last(), c, k - 1);
            assert(s.drop_last().take(k - 1) =~= s.drop_last());
        } else {
            lemma_last_index_of(s.drop_last(), c, k);
            assert(s.drop_last().take(k) =~= s.take(k));
        }
    }
}

/// The index of the last `c` lies inside `s`, or is -1.
pub proof fn lemma_last_index_bounds(s: Seq<char>, c: char)
    ensures
        -1 <= last_index_of(s, c) < s.len(),
{
    lemma_last_index_of(s, c, s.len() as int);
}

/// The index of the last `c` in `s`.
pub fn last_index(s: &[char], c: char) -> (r: Option<usize>)
    ensures
        match r {
            Some(i) => i == last_index_of(s@, c) && i < s.len() && s@[i as int] == c,
            None => last_index_of(s@, c) == -1,
        },
{
    let mut i: usize = s.len();
    while i > 0
        invariant
            i <= s.len(),
            forall|j: int| i <= j < s.len() ==> #[trigger] s@[j] != c,
        decreases i,
    {
        if s[i - 1] == c {
            proof {
                lemma_last_index_of(s@, c, i as int);
                assert(s@.take(i as int).last() == c);
            }
            return Some(i - 1);
        }
        i -= 1;
    }
    proof {
        lemma_last_index_of(s@, c, 0);
    }
    None
}

/// The last component of `p`: the text after the last separator. A path
/// that ends in a separator, in `.` or in `..` has none.
pub open spec fn file_name(p: Seq<char>) -> Option<Seq<char>> {
    let name = p.skip(last_index_of(p, '/') + 1);
    if name.len() == 0 || name == seq!['.'] || name == seq!['.', '.'] {
        None
    } else {
        Some(name)
    }
}

/// The path without its last component and the separator before it. The
/// empty path and the root `/` have no parent; the parent of a single
/// component is the empty path.
pub open spec fn parent(p: Seq<char>) -> Option<Seq<char>> {
    let k = last_index_of(p, '/');
    if p.len() == 0 || (p.len() == 1 && k == 0) {
        None
    } else if k < 0 {
        Some(Seq::empty())
    } else if k == 0 {
        Some(seq!['/'])
    } else {
        Some(p.take(k))
    }
}

/// `name` below `dir`: `name` itself where it starts at the root or `dir`
/// is empty, else `dir`, one separator, `name`.
pub open spec fn join(dir: Seq<char>, name: Seq<char>) -> Seq<char> {
    if (name.len() > 0 && name[0] == '/') || dir.len() == 0 {
        name
    } else if dir.last() == '/' {
        dir + name
    } else {
        dir + seq!['/'] + name
    }
}

/// A file name without its extension: the text before the last `.`, or the
/// whole name where it has no `.` but a leading one.
pub open spec fn stem_of_name(name: Seq<char>) -> Seq<char> {
    let d = last_index_of(name, '.');
    if d <= 0 {
        name
    } else {
        name.take(d)
    }
}

/// The file name of `p` without its extension.
pub open spec fn file_stem(p: Seq<char>) -> Option<Seq<char>> {
    match file_name(p) {
        Some(n) => Some(stem_of_name(n)),
        None => None,
    }
}

fn name_chars(chars: &Vec<char>) -> (r: Option<Vec<char>>)
    ensures
        match r {
            Some(n) => file_name(chars@) == Some(n@),
            None => file_name(chars@) is None,
        },
{
    let start: usize = match last_index(chars.as_slice(), '/') {
        Some(i) => i + 1,
        None => 0,
    };
    let name = slice_chars(chars.as_slice(), start, chars.len());
    assert(name@ =~= chars@.skip(start as int));
    if name.len() == 0 {
        return None;
    }
    if name.len() == 1 && name[0] == '.' {
        assert(name@ =~= seq!['.']);
        return None;
    }
    if name.len() == 2 && name[0] == '.' && name[1] == '.' {
        assert(name@ =~= seq!['.', '.']);
        return None;
    }
    assert(name@ != seq!['.']) by {
        if name@ == seq!['.'] {
            assert(name@.len() == 1 && name@[0] == '.');
        }
    }
    assert(name@ != seq!['.', '.']) by {
        if name@ == seq!['.', '.'] {
            assert(name@.len() == 2 && name@[0] == '.' && name@[1] == '.');
        }
    }
    Some(name)
}

/// The last component of `p`.
pub fn file_name_of(p: &str) -> (r: Option<String>)
    ensures
        opt_text(r) == file_name(p@),
{
    let chars = chars_of(p);
    match name_chars(&chars) {
        Some(n) => Some(string_of(n.as_slice())),
        None => None,
    }
}

/// The path without its last component.
pub fn parent_of(p: &str) -> (r: Option<String>)
    ensures
        opt_text(r) == parent(p@),
{
    let chars = chars_of(p);
    if chars.len() == 0 {
        return None;
    }
    match last_index(chars.as_slice(), '/') {
        None => {
            let e = String::new();
            Some(e)
        },
        Some(k) => {
            if k == 0 {
                if chars.len() == 1 {
                    None
                } else {
                    let root = slice_chars(chars.as_slice(), 0, 1);
                    assert(root@ =~= seq!['/']);
                    Some(string_of(root.as_slice()))
                }
            } else {
                let head = slice_chars(chars.as_slice(), 0, k);
                assert(head@ =~= chars@.take(k as int));
                Some(string_of(head.as_slice()))
            }
        },
    }
}

/// `name` below `dir`.
pub fn join_path(dir: &str, name: &str) -> (r: String)
    ensures
        r@ == join(dir@, name@),
{
    let d = chars_of(dir);
    let n = chars_of(name);
    if (n.len() > 0 && n[0] == '/') || d.len() == 0 {
        return String::from_str(name);
    }
    let mut out = String::from_str(dir);
    if d[d.len() - 1] != '/' {
        out.push('/');
        assert(out@ =~= dir@ + seq!['/']);
    }
    out.append(name);
    out
}

/// The file name of `p` without its extension.
pub fn file_stem_of(p: &str) -> (r: Option<String>)
    ensures
        opt_text(r) == file_stem(p@),
{
    let chars = chars_of(p);
    match name_chars(&chars) {
        None => None,
        Some(n) => {
            match last_index(n.as_slice(), '.') {
                Some(d) => {
                    if d == 0 {
                        Some(string_of(n.as_slice()))
                    } else {
                        let head = slice_chars(n.as_slice(), 0, d);
                        assert(head@ =~= n@.take(d as int));
                        Some(string_of(head.as_slice()))
                    }
                },
                None => Some(string_of(n.as_slice())),
            }
        },
    }
}


/// The extension of a file name: the text after its last `.`, where that
/// is not its first character.
pub open spec fn extension_of_name(name: Seq<char>) -> Option<Seq<char>> {
    let d = last_index_of(name, '.');
    if d <= 0 {
        None
    } else {
        Some(name.skip(d + 1))
    }
}

/// Whether `p` names a file of source text: the extension of its file name
/// is `rs`.
pub open spec fn is_source(p: Seq<char>) -> bool {
    match file_name(p) {
        Some(n) => extension_of_name(n) == Some(seq!['r', 's']),
        None => false,
    }
}

/// Whether `p` names a file of source text.
pub fn is_source_path(p: &str) -> (r: bool)
    ensures
        r == is_source(p@),
{
    let chars = chars_of(p);
    match name_chars(&chars) {
        None => false,
        Some(n) => {
            match last_index(n.as_slice(), '.') {
                Some(d) => {
                    if d > 0 && n.len() - d == 3 && n[d + 1] == 'r' && n[d + 2] == 's' {
                        assert(n@.skip(d + 1) =~= seq!['r', 's']);
                        true
                    } else {
                        proof {
                            if d > 0 && n@.skip(d + 1) == seq!['r', 's'] {
                                assert(n@.skip(d + 1).len() == 2);
                                assert(n@.skip(d + 1)[0] == 'r');
                                assert(n@.skip(d + 1)[1] == 's');
                            }
                        }
                        false
                    }
                },
                None => false,
            }
        },
    }
}

/// Where the first component of `p` that reads `src` ends, looking from
/// index `i` on.
pub open spec fn src_end_from(p: Seq<char>, i: nat) -> Option<nat>
    decreases p.len() - i,
{
    if i >= p.len() {
        None
    } else if p[i as int] == '/' {
        src_end_from(p, i + 1)
    } else {
        let e = find_from(p, seq!['/'], i);
        if p.subrange(i as int, e as int) == "src"@ {
            Some(e)
        } else {
            proof {
                lemma_find_from(p, seq!['/'], i);
                if e == i {
                    assert(p.subrange(i as int, (i + 1) as int)[0] == p[i as int]);
                }
            }
            src_end_from(p, e)
        }
    }
}

/// The directory of sources above `p`: the path up to and including its
/// first component that reads `src`.
pub open spec fn base_src_dir(p: Seq<char>) -> Option<Seq<char>> {
    match src_end_from(p, 0) {
        Some(e) => Some(p.take(e as int)),
        None => None,
    }
}

/// Whether the file name of `p` is that of a module root, `mod.rs` or
/// `lib.rs`.
pub open spec fn is_module_root(p: Seq<char>) -> bool {
    file_name(p) == Some("mod.rs"@) || file_name(p) == Some("lib.rs"@)
}

/// A component other than `.` and `..`.
pub open spec fn is_normal(c: Seq<char>) -> bool {
    c != seq!['.'] && c != seq!['.', '.']
}

/// The components among `cs` that are normal, in order.
pub open spec fn keep_normal(cs: Seq<Seq<char>>) -> Seq<Seq<char>>
    decreases cs.len(),
{
    if cs.len() == 0 {
        Seq::empty()
    } else if is_normal(cs.last()) {
        keep_normal(cs.drop_last()).push(cs.last())
    } else {
        keep_normal(cs.drop_last())
    }
}

/// The module path of the file `p` below its directory of sources: the
/// normal directory components after the first `src` component and before
/// the file name, then the file stem unless the file is a module root. A
/// path without a `src` component has no segments.
pub open spec fn module_segments(p: Seq<char>) -> Seq<Seq<char>> {
    match src_end_from(p, 0) {
        None => Seq::empty(),
        Some(e) => {
            let rest = segments(p.skip(e as int), seq!['/']);
            let dirs = if rest.len() > 0 {
                keep_normal(rest.drop_last())
            } else {
                Seq::empty()
            };
            match file_name(p) {
                Some(n) => if is_module_root(p) {
                    dirs
                } else {
                    dirs.push(stem_of_name(n))
                },
                None => dirs,
            }
        },
    }
}

fn src_end(chars: &Vec<char>) -> (r: Option<usize>)
    ensures
        match r {
            Some(e) => src_end_from(chars@, 0) == Some(e as nat) && e <= chars.len(),
            None => src_end_from(chars@, 0) is None,
        },
{
    let src = chars_of("src");
    let mut sep: Vec<char> = Vec::new();
    sep.push('/');
    assert(sep@ =~= seq!['/']);
    let mut i: usize = 0;
    while i < chars.len()
        invariant
            i <= chars.len(),
            src@ == "src"@,
            sep@ == seq!['/'],
            src_end_from(chars@, 0) == src_end_from(chars@, i as nat),
        decreases chars.len() - i,
    {
        if chars[i] == '/' {
            i += 1;
        } else {
            let e = find_chars(chars.as_slice(), sep.as_slice(), i);
            proof {
                lemma_find_from(chars@, sep@, i as nat);
                if e == i {
                    assert(chars@.subrange(i as int, i + 1)[0] == chars@[i as int]);
                }
            }
            let comp = slice_chars(chars.as_slice(), i, e);
            if same_chars(comp.as_slice(), src.as_slice()) {
                return Some(e);
            }
            i = e;
        }
    }
    None
}

/// The directory of sources above `p`.
pub fn base_src_dir_of(p: &str) -> (r: Option<String>)
    ensures
        opt_text(r) == base_src_dir(p@),
{
    let chars = chars_of(p);
    match src_end(&chars) {
        Some(e) => {
            let head = slice_chars(chars.as_slice(), 0, e);
            assert(head@ =~= chars@.take(e as int));
            Some(string_of(head.as_slice()))
        },
        None => None,
    }
}

/// Whether the file name of `p` is `mod.rs` or `lib.rs`.
pub fn is_module_root_path(p: &str) -> (r: bool)
    ensures
        r == is_module_root(p@),
{
    let chars = chars_of(p);
    match name_chars(&chars) {
        Some(n) => {
            let m = chars_of("mod.rs");
            let l = chars_of("lib.rs");
            same_chars(n.as_slice(), m.as_slice()) || same_chars(n.as_slice(), l.as_slice())
        },
        None => false,
    }
}

fn char_is_dots(c: &Vec<char>) -> (r: bool)
    ensures
        r == !is_normal(c@),
{
    if c.len() == 1 && c[0] == '.' {
        assert(c@ =~= seq!['.']);
        true
    } else if c.len() == 2 && c[0] == '.' && c[1] == '.' {
        assert(c@ =~= seq!['.', '.']);
        true
    } else {
        assert(c@ != seq!['.']) by {
            if c@ == seq!['.'] {
                assert(c@.len() == 1 && c@[0] == '.');
            }
        }
        assert(c@ != seq!['.', '.']) by {
            if c@ == seq!['.', '.'] {
                assert(c@.len() == 2 && c@[0] == '.' && c@[1] == '.');
            }
        }
        false
    }
}

/// The module path of the file `p` below its directory of sources.
pub fn module_segments_of(p: &str) -> (r: Vec<String>)
    ensures
        texts(r@) == module_segments(p@),
{
    let chars = chars_of(p);
    let mut out: Vec<String> = Vec::new();
    assert(texts(out@) =~= Seq::<Seq<char>>::empty());
    let e = match src_end(&chars) {
        Some(e) => e,
        None => {
            return out;
        },
    };
    let rest = slice_chars(chars.as_slice(), e, chars.len());
    assert(rest@ =~= chars@.skip(e as int));
    let mut sep: Vec<char> = Vec::new();
    sep.push('/');
    assert(sep@ =~= seq!['/']);
    let comps = split_segments(rest.as_slice(), sep.as_slice());
    let ghost rows = char_rows(comps@);
    if comps.len() > 0 {
        let mut i: usize = 0;
        assert(rows.drop_last().take(0) =~= Seq::<Seq<char>>::empty());
        while i + 1 < comps.len()
            invariant
                i + 1 <= comps.len(),
                rows == char_rows(comps@),
                texts(out@) == keep_normal(rows.drop_last().take(i as int)),
            decreases comps.len() - i,
        {
            let ghost before = texts(out@);
            assert(rows.drop_last().take(i + 1).drop_last() =~= rows.drop_last().take(i as int));
            assert(rows.drop_last().take(i + 1).last() == comps@[i as int]@);
            if !char_is_dots(&comps[i]) {
                out.push(string_of(comps[i].as_slice()));
                assert(texts(out@) =~= before.push(comps@[i as int]@));
            }
            i += 1;
        }
        assert(rows.drop_last().take(i as int) =~= rows.drop_last());
    }
    match name_chars(&chars) {
        Some(n) => {
            if !is_module_root_path(p) {
                let ghost before = texts(out@);
                let stem = match last_index(n.as_slice(), '.') {
                    Some(d) => {
                        if d == 0 {
                            string_of(n.as_slice())
                        } else {
                            let head = slice_chars(n.as_slice(), 0, d);
                            assert(head@ =~= n@.take(d as int));
                            string_of(head.as_slice())
                        }
                    },
                    None => string_of(n.as_slice()),
                };
                out.push(stem);
                assert(texts(out@) =~= before.push(stem_of_name(n@)));
            }
        },
        None => {},
    }
    out
}

} // verus!
