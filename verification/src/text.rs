//! Text helpers shared by the whole crate: conversions between strings and
//! character vectors, comparisons, searches and decimal rendering.

use vstd::prelude::*;
use vstd::string::*;

verus! {

/// `String::push` appends one character to the end of the string.
pub assume_specification[ String::push ](s: &mut String, c: char)
    ensures
        final(s)@ == old(s)@.push(c),
;

/// The characters of `s`, in order.
pub fn chars_of(s: &str) -> (v: Vec<char>)
    ensures
        v@ == s@,
{
    let mut v: Vec<char> = Vec::new();
    for c in it: s.chars()
        invariant
            v@ == s@.take(it.index()),
            it.seq() == s@,
    {
        v.push(c);
    }
    v
}

/// The string made of the characters of `v`, in order.
pub fn string_of(v: &[char]) -> (s: String)
    ensures
        s@ == v@,
{
    let mut s = String::new();
    let mut i: usize = 0;
    while i < v.len()
        invariant
            i <= v.len(),
            s@ == v@.take(i as int),
        decreases v.len() - i,
    {
        s.push(v[i]);
        i += 1;
    }
    s
}

/// `a` followed by `b`.
pub fn concat(a: &str, b: &str) -> (s: String)
    ensures
        s@ == a@ + b@,
{
    let mut s = String::from_str(a);
    s.append(b);
    s
}


/// Whether `a` and `b` hold the same characters.
pub fn same_text(a: &str, b: &str) -> (r: bool)
    ensures
        r == (a@ == b@),
{
    let x = a.as_bytes();
    let y = b.as_bytes();
    proof {
        vstd::utf8::encode_utf8_decode_utf8(a@);
        vstd::utf8::encode_utf8_decode_utf8(b@);
    }
    if x.len() != y.len() {
        return false;
    }
    let mut i: usize = 0;
    while i < x.len()
        invariant
            i <= x.len(),
            x.len() == y.len(),
            x@.take(i as int) == y@.take(i as int),
            a@ == b@ ==> x@ == y@,
        decreases x.len() - i,
    {
        if x[i] != y[i] {
            return false;
        }
        assert(x@.take(i + 1) =~= x@.take(i as int).push(x@[i as int]));
        assert(y@.take(i + 1) =~= y@.take(i as int).push(y@[i as int]));
        i += 1;
    }
    assert(x@ =~= x@.take(i as int));
    assert(y@ =~= y@.take(i as int));
    true
}

/// Whether two character slices are equal.
pub fn same_chars(a: &[char], b: &[char]) -> (r: bool)
    ensures
        r == (a@ == b@),
{
    if a.len() != b.len() {
        return false;
    }
    let mut i: usize = 0;
    while i < a.len()
        invariant
            i <= a.len(),
            a.len() == b.len(),
            a@.take(i as int) == b@.take(i as int),
        decreases a.len() - i,
    {
        if a[i] != b[i] {
            return false;
        }
        assert(a@.take(i + 1) =~= a@.take(i as int).push(a@[i as int]));
        assert(b@.take(i + 1) =~= b@.take(i as int).push(b@[i as int]));
        i += 1;
    }
    assert(a@ =~= a@.take(i as int));
    assert(b@ =~= b@.take(i as int));
    true
}

/// The rank of a character in an ordering: its code point, except that with
/// `sep_first` the separator `/` ranks before every other character.
pub open spec fn rank(c: char, sep_first: bool) -> int {
    if sep_first && c == '/' {
        -1
    } else {
        (c as u32) as int
    }
}

/// Lexicographic "less than" on texts, character by character by `rank`; a
/// proper prefix is less than the text it is a prefix of.
pub open spec fn lex_lt(a: Seq<char>, b: Seq<char>, sep_first: bool) -> bool
    decreases a.len(),
{
    if b.len() == 0 {
        false
    } else if a.len() == 0 {
        true
    } else if a[0] == b[0] {
        lex_lt(a.drop_first(), b.drop_first(), sep_first)
    } else {
        rank(a[0], sep_first) < rank(b[0], sep_first)
    }
}

/// Texts with a common prefix compare as their remainders do.
pub proof fn lemma_lex_skip(a: Seq<char>, b: Seq<char>, sep_first: bool, k: int)
    requires
        0 <= k <= a.len(),
        k <= b.len(),
        a.take(k) == b.take(k),
    ensures
        lex_lt(a, b, sep_first) == lex_lt(a.skip(k), b.skip(k), sep_first),
    decreases k,
{
    if k == 0 {
        assert(a.skip(0) =~= a);
        assert(b.skip(0) =~= b);
    } else {
        assert(a[0] == a.take(k)[0]);
        assert(b[0] == b.take(k)[0]);
        assert(a.drop_first().take(k - 1) =~= a.take(k).drop_first());
        assert(b.drop_first().take(k - 1) =~= b.take(k).drop_first());
        lemma_lex_skip(a.drop_first(), b.drop_first(), sep_first, k - 1);
        assert(a.drop_first().skip(k - 1) =~= a.skip(k));
        assert(b.drop_first().skip(k - 1) =~= b.skip(k));
    }
}

/// No text is less than itself.
pub proof fn lemma_lex_irreflexive(a: Seq<char>, sep_first: bool)
    ensures
        !lex_lt(a, a, sep_first),
    decreases a.len(),
{
    if a.len() > 0 {
        lemma_lex_irreflexive(a.drop_first(), sep_first);
    }
}

/// The ordering is transitive.
pub proof fn lemma_lex_transitive(a: Seq<char>, b: Seq<char>, c: Seq<char>, sep_first: bool)
    requires
        lex_lt(a, b, sep_first),
        lex_lt(b, c, sep_first),
    ensures
        lex_lt(a, c, sep_first),
    decreases a.len(),
{
    if a.len() > 0 && a[0] == b[0] && b[0] == c[0] {
        lemma_lex_transitive(a.drop_first(), b.drop_first(), c.drop_first(), sep_first);
    }
}

/// The ordering is total: of two different texts one is less than the other.
pub proof fn lemma_lex_total(a: Seq<char>, b: Seq<char>, sep_first: bool)
    ensures
        a == b || lex_lt(a, b, sep_first) || lex_lt(b, a, sep_first),
    decreases a.len(),
{
    if a.len() > 0 && b.len() > 0 {
        if a[0] == b[0] {
            lemma_lex_total(a.drop_first(), b.drop_first(), sep_first);
            if a.drop_first() == b.drop_first() {
                assert(a =~= seq![a[0]] + a.drop_first());
                assert(b =~= seq![b[0]] + b.drop_first());
            }
        } else {
            vstd::utf8::char_u32_cast(a[0], a[0] as u32);
            vstd::utf8::char_u32_cast(b[0], b[0] as u32);
        }
    } else if a.len() == 0 && b.len() == 0 {
        assert(a =~= b);
    }
}

/// Not both `a < b` and `b < a`.
pub proof fn lemma_lex_asymmetric(a: Seq<char>, b: Seq<char>, sep_first: bool)
    requires
        lex_lt(a, b, sep_first),
    ensures
        !lex_lt(b, a, sep_first),
        a != b,
{
    lemma_lex_irreflexive(a, sep_first);
    if lex_lt(b, a, sep_first) {
        lemma_lex_transitive(a, b, a, sep_first);
    }
}

fn rank_of(c: char, sep_first: bool) -> (r: i64)
    ensures
        r == rank(c, sep_first),
{
    if sep_first && c == '/' {
        -1
    } else {
        (c as u32) as i64
    }
}

/// Whether `a` comes strictly before `b` in the ordering chosen by
/// `sep_first`.
pub fn chars_less(a: &[char], b: &[char], sep_first: bool) -> (r: bool)
    ensures
        r == lex_lt(a@, b@, sep_first),
{
    let mut i: usize = 0;
    while i < a.len() && i < b.len()
        invariant
            i <= a.len(),
            i <= b.len(),
            a@.take(i as int) == b@.take(i as int),
        decreases a.len() - i,
    {
        proof {
            lemma_lex_skip(a@, b@, sep_first, i as int);
            assert(a@.skip(i as int)[0] == a@[i as int]);
            assert(b@.skip(i as int)[0] == b@[i as int]);
        }
        if a[i] != b[i] {
            return rank_of(a[i], sep_first) < rank_of(b[i], sep_first);
        }
        assert(a@.take(i + 1) =~= a@.take(i as int).push(a@[i as int]));
        assert(b@.take(i + 1) =~= b@.take(i as int).push(b@[i as int]));
        i += 1;
    }
    proof {
        lemma_lex_skip(a@, b@, sep_first, i as int);
    }
    i < b.len()
}

/// Whether text `a` comes strictly before text `b`.
pub fn text_less(a: &str, b: &str, sep_first: bool) -> (r: bool)
    ensures
        r == lex_lt(a@, b@, sep_first),
{
    let x = chars_of(a);
    let y = chars_of(b);
    chars_less(x.as_slice(), y.as_slice(), sep_first)
}


/// The least index at or after `i` where `needle` occurs in `hay`, or
/// `hay.len()` where it occurs nowhere from `i` on.
pub open spec fn find_from<A>(hay: Seq<A>, needle: Seq<A>, i: nat) -> nat
    decreases hay.len() - i,
{
    if i >= hay.len() || i + needle.len() > hay.len() {
        hay.len()
    } else if hay.subrange(i as int, (i + needle.len()) as int) == needle {
        i
    } else {
        find_from(hay, needle, i + 1)
    }
}

/// Whether `needle` occurs somewhere in `hay`.
pub open spec fn occurs_in<A>(hay: Seq<A>, needle: Seq<A>) -> bool {
    find_from(hay, needle, 0) + needle.len() <= hay.len()
}

/// What `find_from` finds is an occurrence, the first one.
pub proof fn lemma_find_from<A>(hay: Seq<A>, needle: Seq<A>, i: nat)
    requires
        i <= hay.len(),
    ensures
        i <= find_from(hay, needle, i) <= hay.len(),
        find_from(hay, needle, i) + needle.len() <= hay.len() ==> hay.subrange(
            find_from(hay, needle, i) as int,
            (find_from(hay, needle, i) + needle.len()) as int,
        ) == needle,
        forall|k: int|
            i <= k < find_from(hay, needle, i) && k + needle.len() <= hay.len()
                ==> #[trigger] hay.subrange(k, k + needle.len()) != needle,
    decreases hay.len() - i,
{
    if i < hay.len() && i + needle.len() <= hay.len() && hay.subrange(
        i as int,
        (i + needle.len()) as int,
    ) != needle {
        lemma_find_from(hay, needle, i + 1);
    } else if i == hay.len() && needle.len() == 0 {
        assert(hay.subrange(i as int, i as int) =~= needle);
    }
}

/// Whether `needle` stands in `hay` at index `i`.
pub fn chars_at(hay: &[char], needle: &[char], i: usize) -> (r: bool)
    requires
        i + needle.len() <= hay.len(),
    ensures
        r == (hay@.subrange(i as int, i + needle.len()) == needle@),
{
    let ghost window = hay@.subrange(i as int, i + needle.len());
    let mut j: usize = 0;
    while j < needle.len()
        invariant
            j <= needle.len(),
            i + needle.len() <= hay.len(),
            window == hay@.subrange(i as int, i + needle.len()),
            window.take(j as int) == needle@.take(j as int),
        decreases needle.len() - j,
    {
        if hay[i + j] != needle[j] {
            assert(window[j as int] != needle@[j as int]);
            return false;
        }
        assert(window.take(j + 1) =~= window.take(j as int).push(window[j as int]));
        assert(needle@.take(j + 1) =~= needle@.take(j as int).push(needle@[j as int]));
        j += 1;
    }
    assert(window =~= window.take(j as int));
    assert(needle@ =~= needle@.take(j as int));
    true
}

/// The first index at or after `from` where `needle` occurs in `hay`, or
/// `hay.len()`.
pub fn find_chars(hay: &[char], needle: &[char], from: usize) -> (r: usize)
    requires
        from <= hay.len(),
    ensures
        r == find_from(hay@, needle@, from as nat),
        from <= r <= hay.len(),
{
    proof {
        lemma_find_from(hay@, needle@, from as nat);
    }
    if needle.len() > hay.len() {
        return hay.len();
    }
    if needle.len() == 0 {
        assert(hay@.subrange(from as int, from as int) =~= needle@);
        return from;
    }
    let mut i: usize = from;
    while i <= hay.len() - needle.len()
        invariant
            from <= i <= hay.len(),
            0 < needle.len() <= hay.len(),
            find_from(hay@, needle@, from as nat) == find_from(hay@, needle@, i as nat),
        decreases hay.len() - i,
    {
        if chars_at(hay, needle, i) {
            return i;
        }
        i += 1;
    }
    hay.len()
}

/// Whether `needle` stands in `hay` at index `i`.
pub fn bytes_at(hay: &[u8], needle: &[u8], i: usize) -> (r: bool)
    requires
        i + needle.len() <= hay.len(),
    ensures
        r == (hay@.subrange(i as int, i + needle.len()) == needle@),
{
    let ghost window = hay@.subrange(i as int, i + needle.len());
    let mut j: usize = 0;
    while j < needle.len()
        invariant
            j <= needle.len(),
            i + needle.len() <= hay.len(),
            window == hay@.subrange(i as int, i + needle.len()),
            window.take(j as int) == needle@.take(j as int),
        decreases needle.len() - j,
    {
        if hay[i + j] != needle[j] {
            assert(window[j as int] != needle@[j as int]);
            return false;
        }
        assert(window.take(j + 1) =~= window.take(j as int).push(window[j as int]));
        assert(needle@.take(j + 1) =~= needle@.take(j as int).push(needle@[j as int]));
        j += 1;
    }
    assert(window =~= window.take(j as int));
    assert(needle@ =~= needle@.take(j as int));
    true
}

/// Whether `needle` occurs in the bytes of `hay` from `from` up to `to`.
pub fn bytes_contain(hay: &[u8], from: usize, to: usize, needle: &[u8]) -> (r: bool)
    requires
        from <= to <= hay.len(),
    ensures
        r == occurs_in(hay@.subrange(from as int, to as int), needle@),
{
    let ghost part = hay@.subrange(from as int, to as int);
    proof {
        lemma_find_from(part, needle@, 0);
    }
    if needle.len() > to - from {
        return false;
    }
    if needle.len() == 0 {
        assert(part.subrange(0, 0) =~= needle@);
        return true;
    }
    let mut i: usize = from;
    while i <= to - needle.len()
        invariant
            from <= i <= to <= hay.len(),
            0 < needle.len() <= to - from,
            part == hay@.subrange(from as int, to as int),
            find_from(part, needle@, 0) == find_from(part, needle@, (i - from) as nat),
        decreases to - i,
    {
        assert(part.subrange(i - from, i - from + needle.len()) =~= hay@.subrange(
            i as int,
            i + needle.len(),
        ));
        if bytes_at(hay, needle, i) {
            return true;
        }
        i += 1;
    }
    false
}

/// The decimal digit for `d`, which is below ten.
pub open spec fn digit(d: nat) -> char {
    ((48 + d) as u8) as char
}

/// The decimal numeral of `n`, without leading zeros.
pub open spec fn decimal(n: nat) -> Seq<char>
    decreases n,
{
    if n < 10 {
        seq![digit(n)]
    } else {
        decimal(n / 10).push(digit(n % 10))
    }
}

/// The decimal numeral of `n`.
pub fn decimal_string(n: u128) -> (s: String)
    ensures
        s@ == decimal(n as nat),
{
    let mut digits: Vec<char> = Vec::new();
    let mut rest: u128 = n;
    while rest >= 10
        invariant
            decimal(n as nat) == decimal(rest as nat) + digits@.reverse(),
        decreases rest,
    {
        let d: u8 = (rest % 10) as u8;
        let ghost before = digits@;
        digits.push((48 + d) as char);
        proof {
            assert(digits@.reverse() =~= seq![digit((rest % 10) as nat)] + before.reverse());
            assert(decimal(rest as nat) == decimal((rest / 10) as nat).push(
                digit((rest % 10) as nat),
            ));
            assert(decimal(rest as nat) + before.reverse() =~= decimal((rest / 10) as nat)
                + digits@.reverse());
        }
        rest = rest / 10;
    }
    let d: u8 = rest as u8;
    let mut out: Vec<char> = Vec::new();
    out.push((48 + d) as char);
    let mut i: usize = digits.len();
    while i > 0
        invariant
            i <= digits.len(),
            out@ == decimal(rest as nat) + digits@.reverse().take(digits.len() - i),
        decreases i,
    {
        i -= 1;
        out.push(digits[i]);
        assert(digits@.reverse().take(digits.len() - i) =~= digits@.reverse().take(
            digits.len() - i - 1,
        ).push(digits@[i as int]));
    }
    assert(digits@.reverse().take(digits.len() as int) =~= digits@.reverse());
    string_of(out.as_slice())
}

/// White space: the characters with the Unicode property `White_Space`.
pub open spec fn is_space(c: char) -> bool {
    let u = c as u32;
    ||| 0x09 <= u <= 0x0D
    ||| u == 0x20
    ||| u == 0x85
    ||| u == 0xA0
    ||| u == 0x1680
    ||| 0x2000 <= u <= 0x200A
    ||| u == 0x2028
    ||| u == 0x2029
    ||| u == 0x202F
    ||| u == 0x205F
    ||| u == 0x3000
}

/// Whether `c` is white space.
pub fn char_is_space(c: char) -> (r: bool)
    ensures
        r == is_space(c),
{
    let u: u32 = c as u32;
    (0x09 <= u && u <= 0x0D) || u == 0x20 || u == 0x85 || u == 0xA0 || u == 0x1680 || (0x2000 <= u
        && u <= 0x200A) || u == 0x2028 || u == 0x2029 || u == 0x202F || u == 0x205F || u == 0x3000
}

/// How many characters of white space `s` starts with.
pub open spec fn leading_space(s: Seq<char>) -> nat
    decreases s.len(),
{
    if s.len() > 0 && is_space(s[0]) {
        1 + leading_space(s.drop_first())
    } else {
        0
    }
}

/// How many characters of white space `s` ends with.
pub open spec fn trailing_space(s: Seq<char>) -> nat
    decreases s.len(),
{
    if s.len() > 0 && is_space(s.last()) {
        1 + trailing_space(s.drop_last())
    } else {
        0
    }
}

/// `s` without the white space at its two ends.
pub open spec fn trimmed(s: Seq<char>) -> Seq<char> {
    let a = leading_space(s);
    if a == s.len() {
        Seq::empty()
    } else {
        s.subrange(a as int, s.len() - trailing_space(s))
    }
}

proof fn lemma_leading_space(s: Seq<char>, k: nat)
    requires
        k <= s.len(),
        forall|j: int| 0 <= j < k ==> is_space(#[trigger] s[j]),
    ensures
        leading_space(s) == k + leading_space(s.skip(k as int)),
    decreases k,
{
    if k == 0 {
        assert(s.skip(0) =~= s);
    } else {
        assert(is_space(s[0]));
        assert forall|j: int| 0 <= j < k - 1 implies is_space(#[trigger] s.drop_first()[j]) by {
            assert(s.drop_first()[j] == s[j + 1]);
        }
        lemma_leading_space(s.drop_first(), (k - 1) as nat);
        assert(s.drop_first().skip(k - 1) =~= s.skip(k as int));
    }
}

proof fn lemma_trailing_space(s: Seq<char>, k: nat)
    requires
        k <= s.len(),
        forall|j: int| s.len() - k <= j < s.len() ==> is_space(#[trigger] s[j]),
    ensures
        trailing_space(s) == k + trailing_space(s.take(s.len() - k)),
    decreases k,
{
    if k == 0 {
        assert(s.take(s.len() as int) =~= s);
    } else {
        assert(is_space(s[s.len() - 1]));
        assert forall|j: int| s.len() - 1 - (k - 1) <= j < s.len() - 1 implies is_space(
            #[trigger] s.drop_last()[j],
        ) by {
            assert(s.drop_last()[j] == s[j]);
        }
        lemma_trailing_space(s.drop_last(), (k - 1) as nat);
        assert(s.drop_last().take(s.len() - 1 - (k - 1)) =~= s.take(s.len() - k));
    }
}

/// `s` without the white space at its two ends.
pub fn trim_chars(s: &[char]) -> (r: Vec<char>)
    ensures
        r@ == trimmed(s@),
{
    let mut a: usize = 0;
    while a < s.len() && char_is_space(s[a])
        invariant
            a <= s.len(),
            forall|j: int| 0 <= j < a ==> is_space(#[trigger] s@[j]),
        decreases s.len() - a,
    {
        a += 1;
    }
    proof {
        lemma_leading_space(s@, a as nat);
        if a < s.len() {
            assert(s@.skip(a as int)[0] == s@[a as int]);
        }
    }
    let mut out: Vec<char> = Vec::new();
    if a == s.len() {
        return out;
    }
    let mut b: usize = s.len();
    while b > a && char_is_space(s[b - 1])
        invariant
            a < s.len(),
            a <= b <= s.len(),
            !is_space(s@[a as int]),
            forall|j: int| b <= j < s.len() ==> is_space(#[trigger] s@[j]),
        decreases b,
    {
        b -= 1;
    }
    proof {
        lemma_trailing_space(s@, (s.len() - b) as nat);
        assert(b > a);
        assert(s@.take(b as int).last() == s@[b - 1]);
    }
    let mut i: usize = a;
    while i < b
        invariant
            a <= i <= b <= s.len(),
            out@ == s@.subrange(a as int, i as int),
        decreases b - i,
    {
        out.push(s[i]);
        assert(s@.subrange(a as int, i + 1) =~= s@.subrange(a as int, i as int).push(s@[i as int]));
        i += 1;
    }
    out
}


/// The non-empty pieces of `hay` between occurrences of `sep`, in order.
/// With an empty `sep` the whole of `hay` is the one piece.
pub open spec fn segments(hay: Seq<char>, sep: Seq<char>) -> Seq<Seq<char>>
    decreases hay.len(),
{
    let i = find_from(hay, sep, 0);
    if sep.len() == 0 || i + sep.len() > hay.len() {
        if hay.len() > 0 {
            seq![hay]
        } else {
            Seq::empty()
        }
    } else if i > 0 {
        seq![hay.take(i as int)] + segments(hay.skip((i + sep.len()) as int), sep)
    } else {
        segments(hay.skip((i + sep.len()) as int), sep)
    }
}

/// Searching from `k` on is searching the text without its first `k`
/// characters.
pub proof fn lemma_find_from_skip<A>(hay: Seq<A>, needle: Seq<A>, k: nat, i: nat)
    requires
        k <= i <= hay.len(),
    ensures
        find_from(hay, needle, i) == k + find_from(hay.skip(k as int), needle, (i - k) as nat),
    decreases hay.len() - i,
{
    let rest = hay.skip(k as int);
    if i < hay.len() && i + needle.len() <= hay.len() {
        assert(rest.subrange(i - k, i - k + needle.len()) =~= hay.subrange(
            i as int,
            (i + needle.len()) as int,
        ));
        if hay.subrange(i as int, (i + needle.len()) as int) != needle {
            lemma_find_from_skip(hay, needle, k, i + 1);
        }
    }
}

/// The views of a sequence of character vectors.
pub open spec fn char_rows(v: Seq<Vec<char>>) -> Seq<Seq<char>> {
    v.map_values(|r: Vec<char>| r@)
}

/// The characters of `s` from `from` up to `to`.
pub fn slice_chars(s: &[char], from: usize, to: usize) -> (r: Vec<char>)
    requires
        from <= to <= s.len(),
    ensures
        r@ == s@.subrange(from as int, to as int),
{
    let mut out: Vec<char> = Vec::new();
    let mut i: usize = from;
    while i < to
        invariant
            from <= i <= to <= s.len(),
            out@ == s@.subrange(from as int, i as int),
        decreases to - i,
    {
        out.push(s[i]);
        assert(s@.subrange(from as int, i + 1) =~= s@.subrange(from as int, i as int).push(
            s@[i as int],
        ));
        i += 1;
    }
    out
}

/// The non-empty pieces of `hay` between occurrences of `sep`.
pub fn split_segments(hay: &[char], sep: &[char]) -> (r: Vec<Vec<char>>)
    ensures
        char_rows(r@) == segments(hay@, sep@),
{
    let mut out: Vec<Vec<char>> = Vec::new();
    if sep.len() == 0 {
        if hay.len() > 0 {
            out.push(slice_chars(hay, 0, hay.len()));
            assert(hay@.subrange(0, hay.len() as int) =~= hay@);
            assert(char_rows(out@) =~= seq![hay@]);
        } else {
            assert(char_rows(out@) =~= Seq::<Seq<char>>::empty());
        }
        return out;
    }
    let mut pos: usize = 0;
    assert(hay@.skip(0) =~= hay@);
    assert(char_rows(out@) =~= Seq::<Seq<char>>::empty());
    loop
        invariant_except_break
            pos <= hay.len(),
            sep.len() > 0,
            segments(hay@, sep@) == char_rows(out@) + segments(hay@.skip(pos as int), sep@),
        ensures
            char_rows(out@) == segments(hay@, sep@),
        decreases hay.len() - pos,
    {
        let ghost rest = hay@.skip(pos as int);
        let ghost before = char_rows(out@);
        let i = find_chars(hay, sep, pos);
        proof {
            lemma_find_from_skip(hay@, sep@, pos as nat, pos as nat);
            lemma_find_from(hay@, sep@, pos as nat);
        }
        if hay.len() - i < sep.len() {
            // no further separator: the rest is the last piece
            if pos < hay.len() {
                let ghost old_out = out@;
                out.push(slice_chars(hay, pos, hay.len()));
                proof {
                    assert(hay@.subrange(pos as int, hay.len() as int) =~= rest);
                    assert(char_rows(out@) =~= before + seq![rest]);
                }
            } else {
                assert(char_rows(out@) + Seq::<Seq<char>>::empty() =~= char_rows(out@));
            }
            break;
        }
        if i > pos {
            out.push(slice_chars(hay, pos, i));
            proof {
                assert(hay@.subrange(pos as int, i as int) =~= rest.take(i - pos));
                assert(char_rows(out@) =~= before + seq![rest.take(i - pos)]);
                assert(rest.skip(i - pos + sep.len()) =~= hay@.skip(i + sep.len()));
                assert(before + (seq![rest.take(i - pos)] + segments(
                    hay@.skip(i + sep.len()),
                    sep@,
                )) =~= char_rows(out@) + segments(hay@.skip(i + sep.len()), sep@));
            }
        } else {
            proof {
                assert(rest.skip(i - pos + sep.len()) =~= hay@.skip(i + sep.len()));
            }
        }
        pos = i + sep.len();
    }
    out
}


/// The bytes of a text in UTF-8.
pub open spec fn bytes_of(s: Seq<char>) -> Seq<u8> {
    vstd::utf8::encode_utf8(s)
}

/// Whether the bytes of `s` from `a` up to `e` are a piece of text: both
/// ends lie inside `s` and between two characters.
pub open spec fn span_ok(s: Seq<char>, a: int, e: int) -> bool {
    &&& 0 <= a <= e <= bytes_of(s).len()
    &&& vstd::utf8::is_char_boundary(bytes_of(s), a)
    &&& vstd::utf8::is_char_boundary(bytes_of(s), e)
}

/// The text that the bytes of `s` from `a` up to `e` hold.
pub open spec fn span_text(s: Seq<char>, a: int, e: int) -> Seq<char> {
    vstd::utf8::decode_utf8(bytes_of(s).subrange(a, e))
}

/// The piece of `s` from byte `a` up to byte `e`, where that is a piece of
/// text.
pub fn slice_str<'a>(s: &'a str, a: usize, e: usize) -> (r: Option<&'a str>)
    ensures
        r is Some == span_ok(s@, a as int, e as int),
        r matches Some(t) ==> t@ == span_text(s@, a as int, e as int),
{
    broadcast use
        vstd::utf8::encode_utf8_valid_utf8,
        vstd::utf8::valid_utf8_split,
        vstd::utf8::is_char_boundary_start_end_of_seq,
    ;

    let ghost bytes = bytes_of(s@);
    if a > e || e > s.as_bytes().len() {
        return None;
    }
    if !s.is_char_boundary(e) {
        return None;
    }
    let (head, _) = s.split_at(e);
    assert(head.spec_bytes() == bytes.subrange(0, e as int));
    proof {
        if a < e {
            vstd::utf8::is_char_boundary_iff_not_is_continuation_byte(bytes, a as int);
            vstd::utf8::is_char_boundary_iff_not_is_continuation_byte(
                head.spec_bytes(),
                a as int,
            );
        }
    }
    if !head.is_char_boundary(a) {
        return None;
    }
    let (_, tail) = head.split_at(a);
    proof {
        assert(tail.spec_bytes() =~= bytes.subrange(a as int, e as int));
        vstd::utf8::encode_utf8_decode_utf8(tail@);
    }
    Some(tail)
}

/// How many line feeds `b` holds.
pub open spec fn newlines(b: Seq<u8>) -> nat
    decreases b.len(),
{
    if b.len() == 0 {
        0
    } else {
        newlines(b.drop_last()) + if b.last() == 10u8 {
            1nat
        } else {
            0nat
        }
    }
}

/// How many line feeds stand in the first `upto` bytes of `b`.
pub fn count_newlines(b: &[u8], upto: usize) -> (r: usize)
    requires
        upto <= b.len(),
    ensures
        r == newlines(b@.take(upto as int)),
        r <= upto,
{
    let mut n: usize = 0;
    let mut i: usize = 0;
    while i < upto
        invariant
            i <= upto <= b.len(),
            n == newlines(b@.take(i as int)),
            n <= i,
        decreases upto - i,
    {
        assert(b@.take(i + 1).drop_last() =~= b@.take(i as int));
        if b[i] == 10u8 {
            n += 1;
        }
        i += 1;
    }
    n
}

} // verus!
