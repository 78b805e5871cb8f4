//! Character-level text utilities over `Seq<char>` with verified executable
//! counterparts on `&[char]`.

use vstd::prelude::*;
use vstd::string::*;

verus! {

broadcast use vstd::string::group_string_axioms;

// ---------------------------------------------------------------------------
// Conversions between `str`/`String` and character vectors
// ---------------------------------------------------------------------------

/// The characters of `s`, in order.
pub fn chars_of(s: &str) -> (v: Vec<char>)
    ensures
        v@ == s@,
{
    let mut v: Vec<char> = Vec::new();
    for c in it: s.chars()
        invariant
            v@ == it.seq().take(it.index() as int),
            it.seq() == s@,
    {
        v.push(c);
    }
    v
}

/// Appends one character to a `String` (`String::push`).
///
/// Trusted: `String::push` appends the given char to the end of the string.
#[verifier::external_body]
pub(crate) fn push_char(s: &mut String, c: char)
    ensures
        final(s)@ == old(s)@.push(c),
{
    s.push(c);
}

/// Appends all characters of `cs` to `s`.
pub fn push_chars(s: &mut String, cs: &[char])
    ensures
        final(s)@ == old(s)@ + cs@,
{
    let mut i: usize = 0;
    while i < cs.len()
        invariant
            i <= cs.len(),
            s@ == old(s)@ + cs@.take(i as int),
        decreases cs.len() - i,
    {
        push_char(s, cs[i]);
        assert(cs@.take(i + 1) == cs@.take(i as int).push(cs@[i as int]));
        i += 1;
    }
    assert(cs@.take(cs.len() as int) == cs@);
}

/// Appends the contents of `t` to `s`.
pub fn push_str(s: &mut String, t: &str)
    ensures
        final(s)@ == old(s)@ + t@,
{
    s.append(t);
}

/// A `String` holding exactly the characters of `cs`.
pub fn string_of(cs: &[char]) -> (s: String)
    ensures
        s@ == cs@,
{
    let mut s = String::new();
    push_chars(&mut s, cs);
    s
}

/// A fresh vector holding `s[a..b]`.
pub fn copy_range(s: &[char], a: usize, b: usize) -> (v: Vec<char>)
    requires
        a <= b <= s@.len(),
    ensures
        v@ == s@.subrange(a as int, b as int),
{
    let mut v: Vec<char> = Vec::new();
    let mut i = a;
    while i < b
        invariant
            a <= i <= b <= s@.len(),
            v@ == s@.subrange(a as int, i as int),
        decreases b - i,
    {
        v.push(s[i]);
        assert(s@.subrange(a as int, i + 1) == s@.subrange(a as int, i as int).push(s@[i as int]));
        i += 1;
    }
    v
}

// ---------------------------------------------------------------------------
// Whitespace and trimming
// ---------------------------------------------------------------------------

/// The Unicode `White_Space` property, which `char::is_whitespace` and the
/// trimming and splitting functions of `str` follow.
pub open spec fn is_ws(c: char) -> bool {
    ||| '\u{9}' <= c <= '\u{D}'
    ||| c == ' '
    ||| c == '\u{85}'
    ||| c == '\u{A0}'
    ||| c == '\u{1680}'
    ||| '\u{2000}' <= c <= '\u{200A}'
    ||| c == '\u{2028}'
    ||| c == '\u{2029}'
    ||| c == '\u{202F}'
    ||| c == '\u{205F}'
    ||| c == '\u{3000}'
}

/// Executable `is_ws`.
pub fn is_whitespace(c: char) -> (b: bool)
    ensures
        b == is_ws(c),
{
    ('\u{9}' <= c && c <= '\u{D}') || c == ' ' || c == '\u{85}' || c == '\u{A0}' || c == '\u{1680}'
        || ('\u{2000}' <= c && c <= '\u{200A}') || c == '\u{2028}' || c == '\u{2029}' || c
        == '\u{202F}' || c == '\u{205F}' || c == '\u{3000}'
}

/// `s` without its leading whitespace.
pub open spec fn trim_start(s: Seq<char>) -> Seq<char>
    decreases s.len(),
{
    if s.len() > 0 && is_ws(s[0]) {
        trim_start(s.drop_first())
    } else {
        s
    }
}

/// `s` without its trailing whitespace.
pub open spec fn trim_end(s: Seq<char>) -> Seq<char>
    decreases s.len(),
{
    if s.len() > 0 && is_ws(s.last()) {
        trim_end(s.drop_last())
    } else {
        s
    }
}

/// `s` without leading and trailing whitespace.
pub open spec fn trim(s: Seq<char>) -> Seq<char> {
    trim_end(trim_start(s))
}

/// Trimming the whitespace prefix `s[..i]` leaves `trim_start(s[i..])`.
pub proof fn lemma_trim_start_skip(s: Seq<char>, i: int)
    requires
        0 <= i <= s.len(),
        forall|k: int| 0 <= k < i ==> is_ws(#[trigger] s[k]),
    ensures
        trim_start(s) == trim_start(s.skip(i)),
    decreases i,
{
    if i > 0 {
        assert(s.drop_first().skip(i - 1) =~= s.skip(i));
        lemma_trim_start_skip(s.drop_first(), i - 1);
    } else {
        assert(s.skip(0) =~= s);
    }
}

/// Trimming the whitespace suffix `s[j..]` leaves `trim_end(s[..j])`.
pub proof fn lemma_trim_end_take(s: Seq<char>, j: int)
    requires
        0 <= j <= s.len(),
        forall|k: int| j <= k < s.len() ==> is_ws(#[trigger] s[k]),
    ensures
        trim_end(s) == trim_end(s.take(j)),
    decreases s.len() - j,
{
    if j < s.len() {
        assert(s.drop_last().take(j) =~= s.take(j));
        lemma_trim_end_take(s.drop_last(), j);
    } else {
        assert(s.take(j) =~= s);
    }
}

/// The index where the leading whitespace of `s` ends.
pub fn trim_start_index(s: &[char]) -> (i: usize)
    ensures
        i <= s@.len(),
        trim_start(s@) == s@.skip(i as int),
        forall|k: int| 0 <= k < i ==> is_ws(#[trigger] s@[k]),
{
    let mut i: usize = 0;
    while i < s.len() && is_whitespace(s[i])
        invariant
            i <= s@.len(),
            forall|k: int| 0 <= k < i ==> is_ws(#[trigger] s@[k]),
        decreases s.len() - i,
    {
        i += 1;
    }
    proof {
        lemma_trim_start_skip(s@, i as int);
        let t = s@.skip(i as int);
        if t.len() > 0 {
            assert(t[0] == s@[i as int]);
        }
    }
    i
}

/// The index where the trailing whitespace of `s` begins.
pub fn trim_end_index(s: &[char]) -> (j: usize)
    ensures
        j <= s@.len(),
        trim_end(s@) == s@.take(j as int),
        forall|k: int| j <= k < s@.len() ==> is_ws(#[trigger] s@[k]),
{
    let mut j: usize = s.len();
    while j > 0 && is_whitespace(s[j - 1])
        invariant
            j <= s@.len(),
            forall|k: int| j <= k < s@.len() ==> is_ws(#[trigger] s@[k]),
        decreases j,
    {
        j -= 1;
    }
    proof {
        lemma_trim_end_take(s@, j as int);
        let t = s@.take(j as int);
        if t.len() > 0 {
            assert(t.last() == s@[j - 1]);
        }
    }
    j
}

/// `s` without its leading whitespace.
pub fn trim_start_chars(s: &[char]) -> (r: &[char])
    ensures
        r@ == trim_start(s@),
{
    let i = trim_start_index(s);
    vstd::slice::slice_subrange(s, i, s.len())
}

/// `s` without its trailing whitespace.
pub fn trim_end_chars(s: &[char]) -> (r: &[char])
    ensures
        r@ == trim_end(s@),
{
    let j = trim_end_index(s);
    vstd::slice::slice_subrange(s, 0, j)
}

/// `s` without leading and trailing whitespace.
pub fn trim_chars(s: &[char]) -> (r: &[char])
    ensures
        r@ == trim(s@),
{
    let t = trim_start_chars(s);
    trim_end_chars(t)
}


// ---------------------------------------------------------------------------
// Searching
// ---------------------------------------------------------------------------

/// Index of the first `c` in `s`, or `s.len()` when there is none.
pub open spec fn find_char(s: Seq<char>, c: char) -> int
    decreases s.len(),
{
    if s.len() == 0 {
        0
    } else if s[0] == c {
        0
    } else {
        1 + find_char(s.drop_first(), c)
    }
}

/// `find_char` is the first index of `c`.
pub proof fn lemma_find_char(s: Seq<char>, c: char, j: int)
    requires
        0 <= j <= s.len(),
        forall|k: int| 0 <= k < j ==> #[trigger] s[k] != c,
        j == s.len() || s[j] == c,
    ensures
        find_char(s, c) == j,
    decreases j,
{
    if j > 0 {
        assert forall|k: int| 0 <= k < j - 1 implies #[trigger] s.drop_first()[k] != c by {
            assert(s.drop_first()[k] == s[k + 1]);
        }
        lemma_find_char(s.drop_first(), c, j - 1);
    }
}

/// `find_char` lies within `0..=s.len()`, and no `c` comes before it.
pub proof fn lemma_find_char_bounds(s: Seq<char>, c: char)
    ensures
        0 <= find_char(s, c) <= s.len(),
        forall|k: int| 0 <= k < find_char(s, c) ==> #[trigger] s[k] != c,
        find_char(s, c) < s.len() ==> s[find_char(s, c)] == c,
    decreases s.len(),
{
    if s.len() > 0 && s[0] != c {
        lemma_find_char_bounds(s.drop_first(), c);
        assert forall|k: int| 0 <= k < find_char(s, c) implies #[trigger] s[k] != c by {
            if k > 0 {
                assert(s[k] == s.drop_first()[k - 1]);
            }
        }
    }
}

/// Whether `s` contains `c`.
pub open spec fn has_char(s: Seq<char>, c: char) -> bool {
    exists|k: int| 0 <= k < s.len() && s[k] == c
}

/// Executable `find_char` on `s[from..]`, as an index into `s`.
pub fn find_char_from(s: &[char], from: usize, c: char) -> (i: usize)
    requires
        from <= s@.len(),
    ensures
        from <= i <= s@.len(),
        i == from + find_char(s@.skip(from as int), c),
        forall|k: int| from <= k < i ==> #[trigger] s@[k] != c,
        i < s@.len() ==> s@[i as int] == c,
{
    let mut i = from;
    while i < s.len() && s[i] != c
        invariant
            from <= i <= s@.len(),
            forall|k: int| from <= k < i ==> #[trigger] s@[k] != c,
        decreases s.len() - i,
    {
        i += 1;
    }
    proof {
        let t = s@.skip(from as int);
        assert forall|k: int| 0 <= k < i - from implies #[trigger] t[k] != c by {
            assert(t[k] == s@[from + k]);
        }
        if i < s.len() {
            assert(t[i - from] == s@[i as int]);
        }
        lemma_find_char(t, c, i - from);
    }
    i
}

/// Whether `needle` occurs in `hay` at position `i`.
pub open spec fn occurs_at(hay: Seq<char>, needle: Seq<char>, i: int) -> bool {
    0 <= i && i + needle.len() <= hay.len() && hay.subrange(i, i + needle.len()) == needle
}

/// Whether `needle` occurs anywhere in `hay` (`str::contains`).
pub open spec fn contains_seq(hay: Seq<char>, needle: Seq<char>) -> bool {
    exists|i: int| occurs_at(hay, needle, i)
}

/// Whether `s` starts with `p`.
pub open spec fn starts_with(s: Seq<char>, p: Seq<char>) -> bool {
    p.len() <= s.len() && s.take(p.len() as int) == p
}

/// Whether `needle` occurs in `hay` at position `i`.
pub fn occurs_at_exec(hay: &[char], needle: &[char], i: usize) -> (b: bool)
    ensures
        b == occurs_at(hay@, needle@, i as int),
{
    if needle.len() > hay.len() || i > hay.len() - needle.len() {
        return false;
    }
    let mut k: usize = 0;
    while k < needle.len()
        invariant
            i + needle@.len() <= hay@.len(),
            hay@.len() == hay.len(),
            k <= needle@.len(),
            forall|m: int| 0 <= m < k ==> hay@[i + m] == needle@[m],
        decreases needle.len() - k,
    {
        if hay[i + k] != needle[k] {
            assert(hay@.subrange(i as int, i + needle@.len())[k as int] != needle@[k as int]);
            return false;
        }
        k += 1;
    }
    assert(hay@.subrange(i as int, i + needle@.len()) =~= needle@);
    true
}

/// Whether `needle` occurs in `hay`.
pub fn contains_chars(hay: &[char], needle: &[char]) -> (b: bool)
    ensures
        b == contains_seq(hay@, needle@),
{
    if needle.len() > hay.len() {
        return false;
    }
    let mut i: usize = 0;
    let last = hay.len() - needle.len();
    while i <= last
        invariant
            last == hay@.len() - needle@.len(),
            needle@.len() <= hay@.len(),
            i <= hay@.len() - needle@.len() + 1,
            forall|k: int| 0 <= k < i ==> !occurs_at(hay@, needle@, k),
        decreases hay.len() - needle.len() + 1 - i,
    {
        if occurs_at_exec(hay, needle, i) {
            return true;
        }
        if i == last {
            return false;
        }
        i += 1;
    }
    false
}

/// Whether `s` starts with `p`.
pub fn starts_with_chars(s: &[char], p: &[char]) -> (b: bool)
    ensures
        b == starts_with(s@, p@),
{
    let b = occurs_at_exec(s, p, 0);
    proof {
        if p@.len() <= s@.len() {
            assert(s@.subrange(0, p@.len() as int) == s@.take(p@.len() as int));
        }
    }
    b
}

/// Whether the two character sequences are equal.
pub fn chars_eq(a: &[char], b: &[char]) -> (r: bool)
    ensures
        r == (a@ == b@),
{
    if a.len() != b.len() {
        return false;
    }
    let r = occurs_at_exec(a, b, 0);
    proof {
        assert(a@.subrange(0, b@.len() as int) =~= a@);
    }
    r
}

/// Whether the `String` holds exactly the characters of `b`.
pub fn string_eq_chars(a: &String, b: &[char]) -> (r: bool)
    ensures
        r == (a@ == b@),
{
    let ca = chars_of(a.as_str());
    chars_eq(ca.as_slice(), b)
}

/// Position of the last `a` immediately followed by `b` (`str::rfind` of a
/// two-character pattern).
pub open spec fn rfind_pair(s: Seq<char>, a: char, b: char) -> Option<int>
    decreases s.len(),
{
    if s.len() < 2 {
        None
    } else if s[s.len() - 2] == a && s[s.len() - 1] == b {
        Some(s.len() - 2)
    } else {
        rfind_pair(s.drop_last(), a, b)
    }
}

/// Executable `rfind_pair`.
pub fn rfind_pair_exec(s: &[char], a: char, b: char) -> (r: Option<usize>)
    ensures
        r matches Some(i) ==> rfind_pair(s@, a, b) == Some(i as int) && i + 1 < s@.len() && s@[i as int] == a
            && s@[i + 1] == b,
        r is None ==> rfind_pair(s@, a, b) is None,
{
    let mut m: usize = s.len();
    assert(s@.take(m as int) =~= s@);
    while m >= 2
        invariant
            m <= s@.len(),
            rfind_pair(s@, a, b) == rfind_pair(s@.take(m as int), a, b),
        decreases m,
    {
        let t = Ghost(s@.take(m as int));
        if s[m - 2] == a && s[m - 1] == b {
            assert(t@[t@.len() - 2] == s@[m - 2]);
            return Some(m - 2);
        }
        assert(t@.drop_last() =~= s@.take(m - 1));
        m -= 1;
    }
    None
}


// ---------------------------------------------------------------------------
// Splitting
// ---------------------------------------------------------------------------

/// The character sequences of a vector of character vectors.
pub open spec fn seqs_of(v: Seq<Vec<char>>) -> Seq<Seq<char>> {
    v.map_values(|x: Vec<char>| x@)
}

/// The pieces of `s` between occurrences of `c` (`str::split` with a char).
pub open spec fn split(s: Seq<char>, c: char) -> Seq<Seq<char>>
    decreases s.len(),
{
    let i = find_char(s, c);
    if 0 <= i < s.len() {
        seq![s.take(i)] + split(s.skip(i + 1), c)
    } else {
        seq![s]
    }
}

/// `split` yields at least one piece.
pub proof fn lemma_split_nonempty(s: Seq<char>, c: char)
    ensures
        split(s, c).len() >= 1,
    decreases s.len(),
{
    let i = find_char(s, c);
    if 0 <= i < s.len() {
        lemma_split_nonempty(s.skip(i + 1), c);
    }
}

/// A sequence without `c` is one piece.
pub proof fn lemma_split_none(y: Seq<char>, c: char)
    requires
        !has_char(y, c),
    ensures
        split(y, c) == seq![y],
{
    assert forall|k: int| 0 <= k < y.len() implies #[trigger] y[k] != c by {
        if y[k] == c {
            assert(has_char(y, c));
        }
    }
    lemma_find_char(y, c, y.len() as int);
}

pub proof fn lemma_split_append(s: Seq<char>, c: char, y: Seq<char>)
    requires
        !has_char(y, c),
    ensures
        split(s + seq![c] + y, c) == split(s, c) + seq![y],
    decreases s.len(),
{
    let t = s + seq![c] + y;
    lemma_find_char_bounds(s, c);
    let i = find_char(s, c);
    if i < s.len() {
        assert forall|k: int| 0 <= k < i implies #[trigger] t[k] != c by {
            assert(t[k] == s[k]);
        }
        assert(t[i] == s[i]);
        lemma_find_char(t, c, i);
        assert(t.take(i) =~= s.take(i));
        assert(t.skip(i + 1) =~= s.skip(i + 1) + seq![c] + y);
        lemma_split_append(s.skip(i + 1), c, y);
        assert(split(t, c) =~= seq![s.take(i)] + (split(s.skip(i + 1), c) + seq![y]));
    } else {
        assert forall|k: int| 0 <= k < s.len() implies #[trigger] t[k] != c by {
            assert(t[k] == s[k]);
        }
        assert(t[s.len() as int] == c);
        lemma_find_char(t, c, s.len() as int);
        assert(t.take(s.len() as int) =~= s);
        assert(t.skip(s.len() as int + 1) =~= y);
        lemma_split_none(y, c);
        assert(split(s, c) == seq![s]);
    }
}

/// Splitting joined pieces at their separator gives the pieces back, when
/// no piece holds the separator.
pub proof fn lemma_split_join(ts: Seq<Seq<char>>, c: char)
    requires
        ts.len() >= 1,
        forall|i: int| 0 <= i < ts.len() ==> !has_char(#[trigger] ts[i], c),
    ensures
        split(join(ts, seq![c]), c) == ts,
    decreases ts.len(),
{
    if ts.len() == 1 {
        assert(join(ts, seq![c]) == ts[0]);
        lemma_split_none(ts[0], c);
        assert(ts =~= seq![ts[0]]);
    } else {
        let d = ts.drop_last();
        assert forall|i: int| 0 <= i < d.len() implies !has_char(#[trigger] d[i], c) by {
            assert(d[i] == ts[i]);
        }
        lemma_split_join(d, c);
        assert(!has_char(ts[ts.len() - 1], c));
        lemma_split_append(join(d, seq![c]), c, ts.last());
        assert(d + seq![ts.last()] =~= ts);
    }
}

/// A character that neither the pieces nor the separator hold is not in
/// their join.
pub proof fn lemma_join_no_char(ts: Seq<Seq<char>>, sep: Seq<char>, x: char)
    requires
        forall|i: int| 0 <= i < ts.len() ==> !has_char(#[trigger] ts[i], x),
        !has_char(sep, x),
    ensures
        !has_char(join(ts, sep), x),
    decreases ts.len(),
{
    if ts.len() == 1 {
        assert(!has_char(ts[0], x));
    } else if ts.len() > 1 {
        let d = ts.drop_last();
        assert forall|i: int| 0 <= i < d.len() implies !has_char(#[trigger] d[i], x) by {
            assert(d[i] == ts[i]);
        }
        lemma_join_no_char(d, sep, x);
        let j = join(d, sep) + sep + ts.last();
        assert(!has_char(ts[ts.len() - 1], x));
        assert forall|k: int| 0 <= k < j.len() implies #[trigger] j[k] != x by {
            if k < join(d, sep).len() {
                assert(j[k] == join(d, sep)[k]);
                if j[k] == x {
                    assert(has_char(join(d, sep), x));
                }
            } else if k < join(d, sep).len() + sep.len() {
                assert(j[k] == sep[k - join(d, sep).len()]);
                if j[k] == x {
                    assert(has_char(sep, x));
                }
            } else {
                assert(j[k] == ts.last()[k - join(d, sep).len() - sep.len()]);
                if j[k] == x {
                    assert(has_char(ts.last(), x));
                }
            }
        }
    }
}

/// Joining non-empty pieces gives a non-empty sequence.
pub proof fn lemma_join_nonempty(ts: Seq<Seq<char>>, sep: Seq<char>)
    requires
        ts.len() >= 1,
        forall|i: int| 0 <= i < ts.len() ==> (#[trigger] ts[i]).len() > 0,
    ensures
        join(ts, sep).len() > 0,
    decreases ts.len(),
{
    if ts.len() > 1 {
        assert(ts.drop_last()[0] == ts[0]);
        lemma_join_nonempty(ts.drop_last(), sep);
    }
}

/// `s` without one trailing carriage return.
pub open spec fn strip_cr(l: Seq<char>) -> Seq<char> {
    if l.len() > 0 && l.last() == '\r' {
        l.drop_last()
    } else {
        l
    }
}

/// The lines of `s` (`str::lines`): pieces ending at `\n` (with a `\r` right
/// before the `\n` removed), and a final piece without line ending if it is
/// not empty.
pub open spec fn lines(s: Seq<char>) -> Seq<Seq<char>>
    decreases s.len(),
{
    if s.len() == 0 {
        seq![]
    } else {
        let i = find_char(s, '\n');
        if 0 <= i < s.len() {
            seq![strip_cr(s.take(i))] + lines(s.skip(i + 1))
        } else {
            seq![s]
        }
    }
}

/// The lines `ls`, each followed by `\n`.
pub open spec fn unlines(ls: Seq<Seq<char>>) -> Seq<char>
    decreases ls.len(),
{
    if ls.len() == 0 {
        seq![]
    } else {
        unlines(ls.drop_last()) + ls.last() + seq!['\n']
    }
}

/// Index of the first whitespace character of `s`, or `s.len()`.
pub open spec fn find_ws(s: Seq<char>) -> int
    decreases s.len(),
{
    if s.len() == 0 {
        0
    } else if is_ws(s[0]) {
        0
    } else {
        1 + find_ws(s.drop_first())
    }
}

/// `find_ws` is the first index of a whitespace character.
pub proof fn lemma_find_ws(s: Seq<char>, j: int)
    requires
        0 <= j <= s.len(),
        forall|k: int| 0 <= k < j ==> !is_ws(#[trigger] s[k]),
        j == s.len() || is_ws(s[j]),
    ensures
        find_ws(s) == j,
    decreases j,
{
    if j > 0 {
        assert forall|k: int| 0 <= k < j - 1 implies !is_ws(#[trigger] s.drop_first()[k]) by {
            assert(s.drop_first()[k] == s[k + 1]);
        }
        lemma_find_ws(s.drop_first(), j - 1);
    }
}

/// The maximal runs of non-whitespace characters of `s`
/// (`str::split_whitespace`).
pub open spec fn words(s: Seq<char>) -> Seq<Seq<char>>
    decreases s.len(),
{
    if s.len() == 0 {
        seq![]
    } else if is_ws(s[0]) {
        words(s.drop_first())
    } else {
        let i = find_ws(s);
        if 0 < i <= s.len() {
            seq![s.take(i)] + words(s.skip(i))
        } else {
            seq![s]
        }
    }
}

/// Unfolding of `split` at a known first occurrence.
proof fn lemma_split_step(s: Seq<char>, c: char, start: int, i: int)
    requires
        0 <= start <= i <= s.len(),
        forall|k: int| start <= k < i ==> #[trigger] s[k] != c,
        i == s.len() || s[i] == c,
    ensures
        i < s.len() ==> split(s.skip(start), c) == seq![s.subrange(start, i)] + split(
            s.skip(i + 1),
            c,
        ),
        i == s.len() ==> split(s.skip(start), c) == seq![s.subrange(start, i)],
{
    let t = s.skip(start);
    assert forall|k: int| 0 <= k < i - start implies #[trigger] t[k] != c by {
        assert(t[k] == s[start + k]);
    }
    if i < s.len() {
        assert(t[i - start] == s[i]);
    }
    lemma_find_char(t, c, i - start);
    assert(t.take(i - start) =~= s.subrange(start, i));
    if i < s.len() {
        assert(t.skip(i - start + 1) =~= s.skip(i + 1));
    }
    if i == s.len() {
        assert(t =~= s.subrange(start, i));
    }
}

/// The pieces of `s` between occurrences of `c`.
pub fn split_chars(s: &[char], c: char) -> (r: Vec<Vec<char>>)
    ensures
        seqs_of(r@) == split(s@, c),
{
    let mut out: Vec<Vec<char>> = Vec::new();
    let mut start: usize = 0;
    assert(s@.skip(0) =~= s@);
    loop
        invariant
            start <= s@.len(),
            split(s@, c) == seqs_of(out@) + split(s@.skip(start as int), c),
        decreases s@.len() - start,
    {
        let i = find_char_from(s, start, c);
        let piece = copy_range(s, start, i);
        proof {
            lemma_split_step(s@, c, start as int, i as int);
        }
        let ghost old_out = out@;
        out.push(piece);
        assert(seqs_of(out@) =~= seqs_of(old_out) + seq![s@.subrange(start as int, i as int)]);
        if i == s.len() {
            assert(split(s@, c) =~= seqs_of(out@));
            return out;
        }
        start = i + 1;
    }
}

/// Unfolding of `lines` at a known first line ending.
proof fn lemma_lines_step(s: Seq<char>, start: int, i: int)
    requires
        0 <= start <= i <= s.len(),
        forall|k: int| start <= k < i ==> #[trigger] s[k] != '\n',
        i == s.len() || s[i] == '\n',
    ensures
        i < s.len() ==> lines(s.skip(start)) == seq![strip_cr(s.subrange(start, i))] + lines(
            s.skip(i + 1),
        ),
        i == s.len() && start < s.len() ==> lines(s.skip(start)) == seq![s.subrange(start, i)],
        start == s.len() ==> lines(s.skip(start)) == Seq::<Seq<char>>::empty(),
{
    let t = s.skip(start);
    assert forall|k: int| 0 <= k < i - start implies #[trigger] t[k] != '\n' by {
        assert(t[k] == s[start + k]);
    }
    if i < s.len() {
        assert(t[i - start] == s[i]);
    }
    lemma_find_char(t, '\n', i - start);
    assert(t.take(i - start) =~= s.subrange(start, i));
    if i < s.len() {
        assert(t.skip(i - start + 1) =~= s.skip(i + 1));
    }
    if i == s.len() {
        assert(t =~= s.subrange(start, i));
    }
}

/// `l` without one trailing carriage return.
pub fn strip_cr_chars(l: &[char]) -> (r: &[char])
    ensures
        r@ == strip_cr(l@),
{
    if l.len() > 0 && l[l.len() - 1] == '\r' {
        vstd::slice::slice_subrange(l, 0, l.len() - 1)
    } else {
        l
    }
}

/// The lines of `s`.
pub fn lines_chars(s: &[char]) -> (r: Vec<Vec<char>>)
    ensures
        seqs_of(r@) == lines(s@),
{
    let mut out: Vec<Vec<char>> = Vec::new();
    let mut start: usize = 0;
    assert(s@.skip(0) =~= s@);
    while start < s.len()
        invariant
            start <= s@.len(),
            lines(s@) == seqs_of(out@) + lines(s@.skip(start as int)),
        decreases s@.len() - start,
    {
        let i = find_char_from(s, start, '\n');
        proof {
            lemma_lines_step(s@, start as int, i as int);
        }
        let ghost old_out = out@;
        if i == s.len() {
            let piece = copy_range(s, start, i);
            out.push(piece);
            assert(seqs_of(out@) =~= seqs_of(old_out) + seq![s@.subrange(start as int, i as int)]);
            assert(lines(s@) =~= seqs_of(out@));
            return out;
        }
        let line = vstd::slice::slice_subrange(s, start, i);
        let stripped = strip_cr_chars(line);
        let piece = copy_range(stripped, 0, stripped.len());
        assert(stripped@.subrange(0, stripped@.len() as int) =~= stripped@);
        out.push(piece);
        assert(seqs_of(out@) =~= seqs_of(old_out) + seq![strip_cr(s@.subrange(start as int, i as int))]);
        start = i + 1;
    }
    proof {
        lemma_lines_step(s@, start as int, start as int);
    }
    assert(lines(s@) =~= seqs_of(out@));
    out
}

/// Unfolding of `words` over whitespace and at a word.
proof fn lemma_words_ws(s: Seq<char>, i: int)
    requires
        0 <= i < s.len(),
        is_ws(s[i]),
    ensures
        words(s.skip(i)) == words(s.skip(i + 1)),
{
    assert(s.skip(i).drop_first() =~= s.skip(i + 1));
}

proof fn lemma_words_word(s: Seq<char>, i: int, j: int)
    requires
        0 <= i < j <= s.len(),
        forall|k: int| i <= k < j ==> !is_ws(#[trigger] s[k]),
        j == s.len() || is_ws(s[j]),
    ensures
        words(s.skip(i)) == seq![s.subrange(i, j)] + words(s.skip(j)),
{
    let t = s.skip(i);
    assert forall|k: int| 0 <= k < j - i implies !is_ws(#[trigger] t[k]) by {
        assert(t[k] == s[i + k]);
    }
    if j < s.len() {
        assert(t[j - i] == s[j]);
    }
    lemma_find_ws(t, j - i);
    assert(t[0] == s[i]);
    assert(t.take(j - i) =~= s.subrange(i, j));
    assert(t.skip(j - i) =~= s.skip(j));
}

/// The whitespace-separated words of `s`.
pub fn words_chars(s: &[char]) -> (r: Vec<Vec<char>>)
    ensures
        seqs_of(r@) == words(s@),
{
    let mut out: Vec<Vec<char>> = Vec::new();
    let mut i: usize = 0;
    assert(s@.skip(0) =~= s@);
    while i < s.len()
        invariant
            i <= s@.len(),
            words(s@) == seqs_of(out@) + words(s@.skip(i as int)),
        decreases s@.len() - i,
    {
        if is_whitespace(s[i]) {
            proof {
                lemma_words_ws(s@, i as int);
            }
            i += 1;
        } else {
            let mut j = i + 1;
            while j < s.len() && !is_whitespace(s[j])
                invariant
                    i < j <= s@.len(),
                    forall|k: int| i <= k < j ==> !is_ws(#[trigger] s@[k]),
                decreases s@.len() - j,
            {
                j += 1;
            }
            proof {
                lemma_words_word(s@, i as int, j as int);
            }
            let ghost old_out = out@;
            out.push(copy_range(s, i, j));
            assert(seqs_of(out@) =~= seqs_of(old_out) + seq![s@.subrange(i as int, j as int)]);
            i = j;
        }
    }
    assert(s@.skip(i as int) =~= Seq::<char>::empty());
    assert(words(s@) =~= seqs_of(out@));
    out
}


// ---------------------------------------------------------------------------
// Joining
// ---------------------------------------------------------------------------

/// The pieces `ls` separated by `sep` (`[T]::join`).
pub open spec fn join(ls: Seq<Seq<char>>, sep: Seq<char>) -> Seq<char>
    decreases ls.len(),
{
    if ls.len() == 0 {
        seq![]
    } else if ls.len() == 1 {
        ls[0]
    } else {
        join(ls.drop_last(), sep) + sep + ls.last()
    }
}

/// The character sequences of a sequence of strings.
pub open spec fn strs_of(v: Seq<String>) -> Seq<Seq<char>> {
    v.map_values(|x: String| x@)
}

/// Appends the strings of `parts`, separated by `sep`, to `out`.
pub fn push_joined(out: &mut String, parts: &Vec<String>, sep: &str)
    ensures
        final(out)@ == old(out)@ + join(strs_of(parts@), sep@),
{
    let mut i: usize = 0;
    while i < parts.len()
        invariant
            i <= parts@.len(),
            out@ == old(out)@ + join(strs_of(parts@).take(i as int), sep@),
        decreases parts.len() - i,
    {
        let ghost prev = strs_of(parts@).take(i as int);
        assert(strs_of(parts@).take(i + 1).drop_last() =~= prev);
        if i > 0 {
            push_str(out, sep);
        }
        push_str(out, parts[i].as_str());
        assert(strs_of(parts@).take(i + 1).last() == parts@[i as int]@);
        if i == 0 {
            assert(strs_of(parts@).take(1) =~= seq![parts@[0]@]);
        }
        i += 1;
    }
    assert(strs_of(parts@).take(parts@.len() as int) =~= strs_of(parts@));
}

// ---------------------------------------------------------------------------
// ASCII case
// ---------------------------------------------------------------------------

/// `char::to_ascii_lowercase`.
pub open spec fn ascii_lower(c: char) -> char {
    if 'A' <= c <= 'Z' {
        ((c as u32) + 32) as char
    } else {
        c
    }
}

/// `char::to_ascii_uppercase`.
pub open spec fn ascii_upper(c: char) -> char {
    if 'a' <= c <= 'z' {
        ((c as u32) - 32) as char
    } else {
        c
    }
}

/// `str::eq_ignore_ascii_case`.
pub open spec fn eq_ignore_ascii_case(a: Seq<char>, b: Seq<char>) -> bool {
    a.len() == b.len() && forall|i: int| 0 <= i < a.len() ==> ascii_lower(#[trigger] a[i]) == ascii_lower(b[i])
}

/// Executable `ascii_lower`.
pub fn to_ascii_lower(c: char) -> (r: char)
    ensures
        r == ascii_lower(c),
{
    if 'A' <= c && c <= 'Z' {
        let b = (c as u32 + 32) as u8;
        b as char
    } else {
        c
    }
}

/// Executable `ascii_upper`.
pub fn to_ascii_upper(c: char) -> (r: char)
    ensures
        r == ascii_upper(c),
{
    if 'a' <= c && c <= 'z' {
        let b = (c as u32 - 32) as u8;
        b as char
    } else {
        c
    }
}

/// Executable `eq_ignore_ascii_case`.
pub fn eq_ignore_ascii_case_chars(a: &[char], b: &[char]) -> (r: bool)
    ensures
        r == eq_ignore_ascii_case(a@, b@),
{
    if a.len() != b.len() {
        return false;
    }
    let mut i: usize = 0;
    while i < a.len()
        invariant
            a@.len() == b@.len(),
            i <= a@.len(),
            forall|k: int| 0 <= k < i ==> ascii_lower(#[trigger] a@[k]) == ascii_lower(b@[k]),
        decreases a.len() - i,
    {
        if to_ascii_lower(a[i]) != to_ascii_lower(b[i]) {
            return false;
        }
        i += 1;
    }
    true
}

/// Executable `eq_ignore_ascii_case` on two strings.
pub fn strings_eq_ignore_ascii_case(a: &str, b: &str) -> (r: bool)
    ensures
        r == eq_ignore_ascii_case(a@, b@),
{
    let ca = chars_of(a);
    let cb = chars_of(b);
    eq_ignore_ascii_case_chars(ca.as_slice(), cb.as_slice())
}

// ---------------------------------------------------------------------------
// Unicode properties that std computes from its tables
// ---------------------------------------------------------------------------

/// What `char::is_alphanumeric` returns for `c` (Unicode `Alphabetic` or
/// `Numeric`).
pub uninterp spec fn alphanumeric(c: char) -> bool;

/// What `str::to_lowercase` returns for `s` (the Unicode lowercase mapping).
pub uninterp spec fn lowercase(s: Seq<char>) -> Seq<char>;

/// `char::is_alphanumeric`.
///
/// Trusted: the result is `alphanumeric(c)`, a function of `c` alone, and
/// it is true for the ASCII letters and digits (which have the Unicode
/// `Alphabetic` and decimal-number properties); the rest of the Unicode
/// tables behind it is not stated.
#[verifier::external_body]
pub(crate) fn is_alphanumeric(c: char) -> (b: bool)
    ensures
        b == alphanumeric(c),
        ('a' <= c <= 'z' || 'A' <= c <= 'Z' || '0' <= c <= '9') ==> b,
{
    c.is_alphanumeric()
}

/// `str::to_lowercase`.
///
/// Trusted: the result is `lowercase(s@)`, a function of the characters of
/// `s` alone; the Unicode mapping behind it is not stated.
#[verifier::external_body]
pub(crate) fn to_lowercase(s: &str) -> (r: String)
    ensures
        r@ == lowercase(s@),
{
    s.to_lowercase()
}

// ---------------------------------------------------------------------------
// Decimal numbers
// ---------------------------------------------------------------------------

/// The decimal digit character for `d < 10`.
pub open spec fn digit_char(d: nat) -> char {
    ((d + 48) as u32) as char
}

/// The decimal representation of `n`, as `usize::to_string` prints it.
pub open spec fn decimal(n: nat) -> Seq<char>
    decreases n,
{
    if n < 10 {
        seq![digit_char(n)]
    } else {
        decimal(n / 10).push(digit_char(n % 10))
    }
}

/// Appends the decimal representation of `n` to `out`.
pub fn push_decimal(out: &mut String, n: usize)
    ensures
        final(out)@ == old(out)@ + decimal(n as nat),
    decreases n,
{
    if n >= 10 {
        push_decimal(out, n / 10);
    }
    let d = (n % 10) as u8;
    push_char(out, (d + 48) as char);
    assert(decimal(n as nat) == if n < 10 { seq![digit_char(n as nat)] } else { decimal((n / 10) as nat).push(digit_char((n % 10) as nat)) });
}

/// Appends the decimal representation of `n` to `out`.
pub fn push_decimal_wide(out: &mut String, n: u128)
    ensures
        final(out)@ == old(out)@ + decimal(n as nat),
    decreases n,
{
    if n >= 10 {
        push_decimal_wide(out, n / 10);
    }
    let d = (n % 10) as u8;
    push_char(out, (d + 48) as char);
    assert(decimal(n as nat) == if n < 10 { seq![digit_char(n as nat)] } else { decimal((n / 10) as nat).push(digit_char((n % 10) as nat)) });
}

/// Whether `c` is an ASCII decimal digit.
pub open spec fn is_digit(c: char) -> bool {
    '0' <= c <= '9'
}

/// The value of an ASCII decimal digit.
pub open spec fn digit_value(c: char) -> nat {
    ((c as u32) - 48) as nat
}

/// Why a string is not a `usize` (`core::num::IntErrorKind`).
#[derive(Debug, Clone, Copy, PartialEq, Eq)]
pub enum IntError {
    Empty,
    InvalidDigit,
    PosOverflow,
}

/// What `ParseIntError` says for each kind of failure.
pub open spec fn int_error_text(k: IntError) -> Seq<char> {
    match k {
        IntError::Empty => "cannot parse integer from empty string"@,
        IntError::InvalidDigit => "invalid digit found in string"@,
        IntError::PosOverflow => "number too large to fit in target type"@,
    }
}

impl IntError {
    /// The message for this failure, as `ParseIntError` prints it.
    pub fn message(&self) -> (r: String)
        ensures
            r@ == int_error_text(*self),
    {
        match self {
            IntError::Empty => String::from_str("cannot parse integer from empty string"),
            IntError::InvalidDigit => String::from_str("invalid digit found in string"),
            IntError::PosOverflow => String::from_str("number too large to fit in target type"),
        }
    }
}

/// Reading decimal digits left to right onto `acc`, as `usize::from_str`
/// does: the first non-digit, or the first digit that takes the value past
/// `usize::MAX`, ends it with an error.
pub open spec fn accumulate_digits(d: Seq<char>, acc: nat) -> Result<usize, IntError>
    decreases d.len(),
{
    if d.len() == 0 {
        Ok(acc as usize)
    } else if !is_digit(d[0]) {
        Err(IntError::InvalidDigit)
    } else if acc * 10 + digit_value(d[0]) > usize::MAX {
        Err(IntError::PosOverflow)
    } else {
        accumulate_digits(d.drop_first(), acc * 10 + digit_value(d[0]))
    }
}

/// `s.parse::<usize>()`: an optional `+` and decimal digits.
pub open spec fn parse_usize(s: Seq<char>) -> Result<usize, IntError> {
    if s.len() == 0 {
        Err(IntError::Empty)
    } else if s.len() == 1 && (s[0] == '+' || s[0] == '-') {
        Err(IntError::InvalidDigit)
    } else if s[0] == '+' {
        accumulate_digits(s.drop_first(), 0)
    } else {
        accumulate_digits(s, 0)
    }
}

proof fn lemma_digit_char(d: nat)
    requires
        d < 10,
    ensures
        is_digit(digit_char(d)),
        digit_value(digit_char(d)) == d,
        digit_char(d) != '+' && digit_char(d) != '-' && digit_char(d) != '.',
{
    assert(((d + 48) as u32) as char as u32 == d + 48);
}

proof fn lemma_accumulate_push(s: Seq<char>, c: char, acc: nat)
    requires
        acc <= usize::MAX,
    ensures
        accumulate_digits(s.push(c), acc) == match accumulate_digits(s, acc) {
            Err(e) => Err(e),
            Ok(v) => if !is_digit(c) {
                Err(IntError::InvalidDigit)
            } else if v * 10 + digit_value(c) > usize::MAX {
                Err(IntError::PosOverflow)
            } else {
                Ok((v * 10 + digit_value(c)) as usize)
            },
        },
    decreases s.len(),
{
    if s.len() == 0 {
        assert(s.push(c) =~= seq![c]);
        assert(seq![c].drop_first() =~= Seq::<char>::empty());
        assert(accumulate_digits(s, acc) == Ok::<usize, IntError>(acc as usize));
        if is_digit(c) && acc * 10 + digit_value(c) <= usize::MAX {
            assert(accumulate_digits(Seq::<char>::empty(), acc * 10 + digit_value(c)) == Ok::<usize, IntError>(
                (acc * 10 + digit_value(c)) as usize,
            ));
        }
    } else {
        assert(s.push(c)[0] == s[0]);
        assert(s.push(c).drop_first() =~= s.drop_first().push(c));
        if is_digit(s[0]) && acc * 10 + digit_value(s[0]) <= usize::MAX {
            lemma_accumulate_push(s.drop_first(), c, acc * 10 + digit_value(s[0]));
        }
    }
}

/// Reading the decimal digits of `n` gives `n`.
pub proof fn lemma_accumulate_decimal(n: nat)
    requires
        n <= usize::MAX,
    ensures
        accumulate_digits(decimal(n), 0) == Ok::<usize, IntError>(n as usize),
        decimal(n).len() > 0,
        forall|i: int| 0 <= i < decimal(n).len() ==> is_digit(#[trigger] decimal(n)[i]),
    decreases n,
{
    if n < 10 {
        lemma_digit_char(n);
        assert(decimal(n) == seq![digit_char(n)]);
        assert(seq![digit_char(n)].drop_first() =~= Seq::<char>::empty());
        assert(accumulate_digits(Seq::<char>::empty(), n) == Ok::<usize, IntError>(n as usize));
    } else {
        lemma_accumulate_decimal(n / 10);
        lemma_digit_char(n % 10);
        lemma_accumulate_push(decimal(n / 10), digit_char(n % 10), 0);
        assert((n / 10) * 10 + n % 10 == n);
        let d = decimal(n);
        assert(d == decimal(n / 10).push(digit_char(n % 10)));
        assert forall|i: int| 0 <= i < d.len() implies is_digit(#[trigger] d[i]) by {
            if i < d.len() - 1 {
                assert(d[i] == decimal(n / 10)[i]);
            }
        }
    }
}

/// Reading the decimal text of `n` gives `n`.
pub proof fn lemma_parse_decimal(n: nat)
    requires
        n <= usize::MAX,
    ensures
        parse_usize(decimal(n)) == Ok::<usize, IntError>(n as usize),
        decimal(n).len() > 0,
        forall|i: int| 0 <= i < decimal(n).len() ==> is_digit(#[trigger] decimal(n)[i]),
{
    lemma_accumulate_decimal(n);
    let d = decimal(n);
    assert(is_digit(d[0]));
}

/// Executable `parse_usize`.
pub fn parse_usize_chars(s: &[char]) -> (r: Result<usize, IntError>)
    ensures
        r == parse_usize(s@),
{
    if s.len() == 0 {
        return Err(IntError::Empty);
    }
    if s.len() == 1 && (s[0] == '+' || s[0] == '-') {
        return Err(IntError::InvalidDigit);
    }
    let mut i: usize = if s[0] == '+' { 1 } else { 0 };
    let ghost d = if s@[0] == '+' { s@.drop_first() } else { s@ };
    assert(s@.skip(i as int) =~= d);
    assert(parse_usize(s@) == accumulate_digits(d, 0));
    let mut acc: usize = 0;
    while i < s.len()
        invariant
            i <= s@.len(),
            parse_usize(s@) == accumulate_digits(s@.skip(i as int), acc as nat),
        decreases s.len() - i,
    {
        let c = s[i];
        assert(s@.skip(i as int)[0] == c);
        if !('0' <= c && c <= '9') {
            return Err(IntError::InvalidDigit);
        }
        let v = (c as u32 - 48) as usize;
        if acc > (usize::MAX - v) / 10 {
            assert(acc * 10 + v > usize::MAX) by (nonlinear_arith)
                requires acc > (usize::MAX - v) / 10, v <= 9;
            return Err(IntError::PosOverflow);
        }
        assert(acc * 10 + v <= usize::MAX) by (nonlinear_arith)
            requires acc <= (usize::MAX - v) / 10, v <= 9;
        assert(s@.skip(i as int).drop_first() =~= s@.skip(i + 1));
        acc = acc * 10 + v;
        i += 1;
    }
    assert(s@.skip(i as int) =~= Seq::<char>::empty());
    Ok(acc)
}

// ---------------------------------------------------------------------------
// Quoting
// ---------------------------------------------------------------------------

/// What `format!("{:?}", s)` gives for a string `s`: `s` in double quotes,
/// with quotes, backslashes and the characters that Rust does not print as
/// they are escaped.
pub uninterp spec fn debug_text(s: Seq<char>) -> Seq<char>;

/// `format!("{:?}", s)` for a string.
///
/// Trusted: the result is `debug_text(s@)`, a function of the characters of
/// `s` alone; the Unicode tables that decide which characters are escaped
/// are not stated.
#[verifier::external_body]
pub(crate) fn debug_quoted(s: &str) -> (r: String)
    ensures
        r@ == debug_text(s@),
{
    format!("{:?}", s)
}

/// Appends `s` as `{:?}` prints a string.
pub fn push_quoted(out: &mut String, s: &[char])
    ensures
        final(out)@ == old(out)@ + debug_text(s@),
{
    let t = string_of(s);
    let q = debug_quoted(t.as_str());
    push_str(out, q.as_str());
}

} // verus!
