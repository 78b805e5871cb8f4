//! Resolving human-friendly heading paths into positional addresses.
//!
//! Path syntax:
//!   - Segments separated by `/`
//!   - `#N` — positional (1-based) at that level
//!   - Bare text — case-insensitive exact match, then substring fallback
//!   - Multiple matches → error with suggestions
//!   - `#1.2.3` or `1.2.3` — dot-separated numeric address (as output by show/find)

use vstd::prelude::*;
use vstd::string::*;
use crate::model::{
    Heading, HeadingModel, OrgDoc, headings_model, group_headings_model, valid_parent, valid_path,
    list_at, lemma_list_at_push, addr_text, addr_numbers, lens_fit, lemma_lens_fit_list_at,
    lemma_valid_path_prefix, heading_at_path, title_path, with_heading_at, lemma_shifted_list, shifted, shifted_list,
};
use crate::text::{
    IntError, chars_of, contains_chars, contains_seq, eq_ignore_ascii_case,
    eq_ignore_ascii_case_chars, lowercase, parse_usize, parse_usize_chars, seqs_of, split,
    split_chars, string_of, strs_of, to_lowercase, trim, trim_chars, lemma_split_nonempty, lemma_split_none,
    decimal, int_error_text, join, push_decimal, push_joined, push_quoted, push_str, debug_text, has_char,
    is_digit, is_ws, lemma_parse_decimal, lemma_split_join, trim_end, trim_start,
};

verus! {

broadcast use vstd::string::group_string_axioms, group_headings_model;

// ---------------------------------------------------------------------------
// Errors
// ---------------------------------------------------------------------------

/// Why one segment of a title path does not name a heading.
#[derive(Debug)]
pub enum SegmentError {
    /// The list to search is empty.
    NoHeadings,
    /// `#N` where N is not a number.
    InvalidIndex { kind: IntError },
    /// `#N` outside `1..=len`.
    OutOfRange { n: usize, len: usize },
    /// No title matches; the titles at this level.
    NoMatch { available: Vec<String> },
    /// Several titles match; their addresses and titles.
    Ambiguous { matches: Vec<(Vec<usize>, String)> },
}

/// Why a path does not name a heading.
#[derive(Debug)]
pub enum ResolveError {
    /// The segment at this 1-based position is empty.
    EmptySegment { position: usize },
    /// A segment at this 1-based depth does not resolve.
    Segment { segment: String, depth: usize, cause: SegmentError },
    /// A part of a numeric address is too large for a number.
    InvalidNumeric { part: String, kind: IntError },
    /// A part of a numeric address is outside `1..=len` at this depth.
    NumericOutOfRange { n: usize, len: usize, depth: usize },
}

/// The view of a `SegmentError`.
pub enum SegmentFailure {
    NoHeadings,
    InvalidIndex(IntError),
    OutOfRange(usize, usize),
    NoMatch(Seq<Seq<char>>),
    Ambiguous(Seq<(Seq<usize>, Seq<char>)>),
}

/// The view of a `ResolveError`.
pub enum ResolveFailure {
    EmptySegment(usize),
    Segment(Seq<char>, usize, SegmentFailure),
    InvalidNumeric(Seq<char>, IntError),
    NumericOutOfRange(usize, usize, usize),
}

/// The view of a list of (address, title) pairs.
pub open spec fn matches_of(v: Seq<(Vec<usize>, String)>) -> Seq<(Seq<usize>, Seq<char>)> {
    v.map_values(|p: (Vec<usize>, String)| (p.0@, p.1@))
}

impl View for SegmentError {
    type V = SegmentFailure;

    open spec fn view(&self) -> SegmentFailure {
        match self {
            SegmentError::NoHeadings => SegmentFailure::NoHeadings,
            SegmentError::InvalidIndex { kind } => SegmentFailure::InvalidIndex(*kind),
            SegmentError::OutOfRange { n, len } => SegmentFailure::OutOfRange(*n, *len),
            SegmentError::NoMatch { available } => SegmentFailure::NoMatch(strs_of(available@)),
            SegmentError::Ambiguous { matches } => SegmentFailure::Ambiguous(matches_of(matches@)),
        }
    }
}

impl View for ResolveError {
    type V = ResolveFailure;

    open spec fn view(&self) -> ResolveFailure {
        match self {
            ResolveError::EmptySegment { position } => ResolveFailure::EmptySegment(*position),
            ResolveError::Segment { segment, depth, cause } => ResolveFailure::Segment(
                segment@,
                *depth,
                cause@,
            ),
            ResolveError::InvalidNumeric { part, kind } => ResolveFailure::InvalidNumeric(part@, *kind),
            ResolveError::NumericOutOfRange { n, len, depth } => ResolveFailure::NumericOutOfRange(
                *n,
                *len,
                *depth,
            ),
        }
    }
}

// ---------------------------------------------------------------------------
// Error messages
// ---------------------------------------------------------------------------

/// One line of the suggestions for an ambiguous segment:
/// `  #2.1 — "Item one"`.
pub open spec fn suggestion(m: (Seq<usize>, Seq<char>)) -> Seq<char> {
    "  "@ + addr_text(m.0) + " — "@ + debug_text(m.1)
}

/// The suggestion lines for the matches `ms`.
pub open spec fn suggestions(ms: Seq<(Seq<usize>, Seq<char>)>) -> Seq<Seq<char>> {
    ms.map_values(|m: (Seq<usize>, Seq<char>)| suggestion(m))
}

/// Why the segment `seg` does not name a heading, in words.
pub open spec fn segment_failure_text(f: SegmentFailure, seg: Seq<char>) -> Seq<char> {
    match f {
        SegmentFailure::NoHeadings => "no headings at this level"@,
        SegmentFailure::InvalidIndex(k) => "invalid positional index "@ + debug_text(seg) + ": "@ + int_error_text(k),
        SegmentFailure::OutOfRange(n, len) => "positional index "@ + decimal(n as nat) + " out of range (1.."@ + decimal(
            len as nat,
        ) + ")"@,
        SegmentFailure::NoMatch(av) => "no heading matches "@ + debug_text(seg) + ".\nAvailable at this level: "@ + join(
            av,
            ", "@,
        ),
        SegmentFailure::Ambiguous(ms) => "ambiguous path "@ + debug_text(seg) + " matches "@ + decimal(ms.len())
            + " headings. Use a positional address to disambiguate:\n"@ + join(suggestions(ms), "\n"@),
    }
}

/// Why a path does not name a heading, in words: the cause of a failing
/// segment follows the segment and its depth.
pub open spec fn resolve_failure_text(f: ResolveFailure) -> Seq<char> {
    match f {
        ResolveFailure::EmptySegment(p) => "empty path segment at position "@ + decimal(p as nat),
        ResolveFailure::Segment(seg, d, cause) => "resolving segment "@ + debug_text(seg) + " at depth "@ + decimal(d as nat)
            + ": "@ + segment_failure_text(cause, seg),
        ResolveFailure::InvalidNumeric(part, k) => "invalid numeric address segment "@ + debug_text(part) + ": "@
            + int_error_text(k),
        ResolveFailure::NumericOutOfRange(n, len, d) => "positional index "@ + decimal(n as nat)
            + " out of range (1.."@ + decimal(len as nat) + ") at depth "@ + decimal(d as nat),
    }
}

impl SegmentError {
    fn push_message(&self, out: &mut String, segment: &[char])
        ensures
            final(out)@ == old(out)@ + segment_failure_text(self@, segment@),
    {
        match self {
            SegmentError::NoHeadings => {
                push_str(out, "no headings at this level");
            },
            SegmentError::InvalidIndex { kind } => {
                push_str(out, "invalid positional index ");
                push_quoted(out, segment);
                push_str(out, ": ");
                let m = kind.message();
                push_str(out, m.as_str());
            },
            SegmentError::OutOfRange { n, len } => {
                push_str(out, "positional index ");
                push_decimal(out, *n);
                push_str(out, " out of range (1..");
                push_decimal(out, *len);
                push_str(out, ")");
            },
            SegmentError::NoMatch { available } => {
                push_str(out, "no heading matches ");
                push_quoted(out, segment);
                push_str(out, ".\nAvailable at this level: ");
                push_joined(out, available, ", ");
            },
            SegmentError::Ambiguous { matches } => {
                push_str(out, "ambiguous path ");
                push_quoted(out, segment);
                push_str(out, " matches ");
                push_decimal(out, matches.len());
                push_str(out, " headings. Use a positional address to disambiguate:\n");
                let mut lines: Vec<String> = Vec::new();
                let mut i: usize = 0;
                while i < matches.len()
                    invariant
                        i <= matches@.len(),
                        strs_of(lines@) == suggestions(matches_of(matches@)).take(i as int),
                    decreases matches.len() - i,
                {
                    let mut line = String::new();
                    push_str(&mut line, "  ");
                    let a = Heading::format_addr(matches[i].0.as_slice());
                    push_str(&mut line, a.as_str());
                    push_str(&mut line, " — ");
                    let t = chars_of(matches[i].1.as_str());
                    push_quoted(&mut line, t.as_slice());
                    assert(matches_of(matches@)[i as int] == (matches@[i as int].0@, matches@[i as int].1@));
                    assert(line@ == suggestion(matches_of(matches@)[i as int]));
                    let ghost before = lines@;
                    lines.push(line);
                    assert(strs_of(lines@) =~= strs_of(before).push(suggestion(matches_of(matches@)[i as int])));
                    assert(suggestions(matches_of(matches@)).take(i + 1) =~= suggestions(matches_of(matches@)).take(
                        i as int,
                    ).push(suggestion(matches_of(matches@)[i as int])));
                    i += 1;
                }
                assert(suggestions(matches_of(matches@)).take(i as int) =~= suggestions(matches_of(matches@)));
                push_joined(out, &lines, "\n");
            },
        }
    }

    /// Why the segment `segment` does not name a heading, in words.
    pub fn message(&self, segment: &str) -> (r: String)
        ensures
            r@ == segment_failure_text(self@, segment@),
    {
        let sc = chars_of(segment);
        let mut out = String::new();
        self.push_message(&mut out, sc.as_slice());
        out
    }
}

impl ResolveError {
    /// Why the path does not name a heading, in words.
    pub fn message(&self) -> (r: String)
        ensures
            r@ == resolve_failure_text(self@),
    {
        let mut out = String::new();
        match self {
            ResolveError::EmptySegment { position } => {
                push_str(&mut out, "empty path segment at position ");
                push_decimal(&mut out, *position);
            },
            ResolveError::Segment { segment, depth, cause } => {
                push_str(&mut out, "resolving segment ");
                let sc = chars_of(segment.as_str());
                push_quoted(&mut out, sc.as_slice());
                push_str(&mut out, " at depth ");
                push_decimal(&mut out, *depth);
                push_str(&mut out, ": ");
                cause.push_message(&mut out, sc.as_slice());
            },
            ResolveError::InvalidNumeric { part, kind } => {
                push_str(&mut out, "invalid numeric address segment ");
                let pc = chars_of(part.as_str());
                push_quoted(&mut out, pc.as_slice());
                push_str(&mut out, ": ");
                let m = kind.message();
                push_str(&mut out, m.as_str());
            },
            ResolveError::NumericOutOfRange { n, len, depth } => {
                push_str(&mut out, "positional index ");
                push_decimal(&mut out, *n);
                push_str(&mut out, " out of range (1..");
                push_decimal(&mut out, *len);
                push_str(&mut out, ") at depth ");
                push_decimal(&mut out, *depth);
            },
        }
        assert(out@ =~= resolve_failure_text(self@));
        out
    }
}

// ---------------------------------------------------------------------------
// Specification
// ---------------------------------------------------------------------------

/// Whether `s` is a dot-separated numeric address like `1.2.3`: non-empty,
/// and every `.`-separated part a non-empty run of ASCII digits.
pub open spec fn is_numeric_addr(s: Seq<char>) -> bool {
    s.len() > 0 && forall|k: int| 0 <= k < split(s, '.').len() ==> is_digits(#[trigger] split(s, '.')[k])
}

/// A non-empty run of ASCII digits.
pub open spec fn is_digits(p: Seq<char>) -> bool {
    p.len() > 0 && forall|i: int| 0 <= i < p.len() ==> '0' <= #[trigger] p[i] <= '9'
}

/// Resolving the numeric address `parts[depth..]` in `hs`, with the
/// indices found so far in `acc`.
pub open spec fn resolve_numeric(hs: Seq<HeadingModel>, parts: Seq<Seq<char>>, depth: int, acc: Seq<usize>) -> Result<Seq<usize>, ResolveFailure>
    decreases parts.len() - depth,
{
    if depth < 0 || depth >= parts.len() {
        Ok(acc)
    } else {
        match parse_usize(parts[depth]) {
            Err(kind) => Err(ResolveFailure::InvalidNumeric(parts[depth], kind)),
            Ok(n) => if n == 0 || n > hs.len() {
                Err(ResolveFailure::NumericOutOfRange(n, hs.len() as usize, (depth + 1) as usize))
            } else {
                resolve_numeric(hs[n - 1].children, parts, depth + 1, acc.push((n - 1) as usize))
            },
        }
    }
}

/// Indices `< n` of the headings whose title equals `seg` ignoring ASCII case.
pub open spec fn exact_matches(hs: Seq<HeadingModel>, seg: Seq<char>, n: int) -> Seq<usize>
    decreases n,
{
    if n <= 0 {
        seq![]
    } else if eq_ignore_ascii_case(hs[n - 1].title, seg) {
        exact_matches(hs, seg, n - 1).push((n - 1) as usize)
    } else {
        exact_matches(hs, seg, n - 1)
    }
}

/// Indices `< n` of the headings whose lowercased title contains the
/// lowercased `seg`.
pub open spec fn substring_matches(hs: Seq<HeadingModel>, seg: Seq<char>, n: int) -> Seq<usize>
    decreases n,
{
    if n <= 0 {
        seq![]
    } else if contains_seq(lowercase(hs[n - 1].title), lowercase(seg)) {
        substring_matches(hs, seg, n - 1).push((n - 1) as usize)
    } else {
        substring_matches(hs, seg, n - 1)
    }
}

/// The titles of `hs`.
pub open spec fn titles(hs: Seq<HeadingModel>) -> Seq<Seq<char>> {
    hs.map_values(|h: HeadingModel| h.title)
}

/// The (address, title) pairs of the matches `m` among `hs`, under `parent`.
pub open spec fn match_list(hs: Seq<HeadingModel>, m: Seq<usize>, parent: Seq<usize>) -> Seq<(Seq<usize>, Seq<char>)> {
    m.map_values(|i: usize| (parent.push(i), hs[i as int].title))
}

/// The index of the heading of `hs` (whose address is `parent` followed by
/// the index) that the segment `seg` names: `#N` by position; otherwise
/// the only title equal to `seg` ignoring ASCII case, or else the only
/// title containing it ignoring case.
pub open spec fn segment_index(hs: Seq<HeadingModel>, seg: Seq<char>, parent: Seq<usize>) -> Result<usize, SegmentFailure> {
    if hs.len() == 0 {
        Err(SegmentFailure::NoHeadings)
    } else if seg.len() > 0 && seg[0] == '#' {
        match parse_usize(seg.drop_first()) {
            Err(kind) => Err(SegmentFailure::InvalidIndex(kind)),
            Ok(n) => if n == 0 || n > hs.len() {
                Err(SegmentFailure::OutOfRange(n, hs.len() as usize))
            } else {
                Ok((n - 1) as usize)
            },
        }
    } else {
        let exact = exact_matches(hs, seg, hs.len() as int);
        let sub = substring_matches(hs, seg, hs.len() as int);
        if exact.len() == 1 {
            Ok(exact[0])
        } else if sub.len() == 1 {
            Ok(sub[0])
        } else {
            let m = if exact.len() > 0 { exact } else { sub };
            if m.len() == 0 {
                Err(SegmentFailure::NoMatch(titles(hs)))
            } else {
                Err(SegmentFailure::Ambiguous(match_list(hs, m, parent)))
            }
        }
    }
}

/// Resolving the title path segments `segs[depth..]` in `hs`, with the
/// indices found so far in `acc`.
pub open spec fn resolve_segments(hs: Seq<HeadingModel>, segs: Seq<Seq<char>>, depth: int, acc: Seq<usize>) -> Result<Seq<usize>, ResolveFailure>
    decreases segs.len() - depth,
{
    if depth < 0 || depth >= segs.len() {
        Ok(acc)
    } else {
        let seg = trim(segs[depth]);
        if seg.len() == 0 {
            Err(ResolveFailure::EmptySegment((depth + 1) as usize))
        } else {
            match segment_index(hs, seg, acc) {
                Err(cause) => Err(ResolveFailure::Segment(seg, (depth + 1) as usize, cause)),
                Ok(i) => if i < hs.len() {
                    resolve_segments(hs[i as int].children, segs, depth + 1, acc.push(i))
                } else {
                    Ok(acc)
                },
            }
        }
    }
}

/// `s` without one leading `#`.
pub open spec fn strip_hash(s: Seq<char>) -> Seq<char> {
    if s.len() > 0 && s[0] == '#' {
        s.drop_first()
    } else {
        s
    }
}

/// The positional address that `path` names in the headings `hs`: a
/// numeric address (`#1.2` or `1.2`, surrounding whitespace ignored) or a
/// `/`-separated title path.
pub open spec fn resolve_path(hs: Seq<HeadingModel>, path: Seq<char>) -> Result<Seq<usize>, ResolveFailure> {
    let addr = strip_hash(trim(path));
    if is_numeric_addr(addr) {
        resolve_numeric(hs, split(addr, '.'), 0, seq![])
    } else {
        resolve_segments(hs, split(path, '/'), 0, seq![])
    }
}


// ---------------------------------------------------------------------------
// Resolution
// ---------------------------------------------------------------------------

/// Executable `is_digits`.
fn is_digits_exec(p: &[char]) -> (b: bool)
    ensures
        b == is_digits(p@),
{
    if p.len() == 0 {
        return false;
    }
    let mut i: usize = 0;
    while i < p.len()
        invariant
            i <= p@.len(),
            forall|k: int| 0 <= k < i ==> '0' <= #[trigger] p@[k] <= '9',
        decreases p.len() - i,
    {
        if !('0' <= p[i] && p[i] <= '9') {
            return false;
        }
        i += 1;
    }
    true
}

/// Executable `is_numeric_addr`.
fn is_numeric_addr_exec(s: &[char]) -> (b: bool)
    ensures
        b == is_numeric_addr(s@),
{
    if s.len() == 0 {
        return false;
    }
    let parts = split_chars(s, '.');
    let mut i: usize = 0;
    while i < parts.len()
        invariant
            i <= parts@.len(),
            seqs_of(parts@) == split(s@, '.'),
            forall|k: int| 0 <= k < i ==> is_digits(#[trigger] split(s@, '.')[k]),
        decreases parts.len() - i,
    {
        assert(seqs_of(parts@)[i as int] == parts@[i as int]@);
        if !is_digits_exec(parts[i].as_slice()) {
            return false;
        }
        i += 1;
    }
    true
}

/// Executable `resolve_numeric` from the top.
fn resolve_numeric_addr(headings: &Vec<Heading>, parts: &Vec<Vec<char>>) -> (r: Result<Vec<usize>, ResolveError>)
    ensures
        r matches Ok(v) ==> resolve_numeric(headings_model(headings@), seqs_of(parts@), 0, seq![]) == Ok::<Seq<usize>, ResolveFailure>(v@),
        r matches Err(e) ==> resolve_numeric(headings_model(headings@), seqs_of(parts@), 0, seq![]) == Err::<Seq<usize>, ResolveFailure>(e@),
{
    broadcast use group_headings_model;

    let ghost ps = seqs_of(parts@);
    let ghost goal = resolve_numeric(headings_model(headings@), ps, 0, seq![]);
    let mut indices: Vec<usize> = Vec::new();
    let mut current: &Vec<Heading> = headings;
    let mut depth: usize = 0;
    while depth < parts.len()
        invariant
            ps == seqs_of(parts@),
            goal == resolve_numeric(headings_model(headings@), ps, 0, seq![]),
            depth <= parts@.len(),
            goal == resolve_numeric(headings_model(current@), ps, depth as int, indices@),
        decreases parts.len() - depth,
    {
        assert(ps[depth as int] == parts@[depth as int]@);
        let n = match parse_usize_chars(parts[depth].as_slice()) {
            Ok(n) => n,
            Err(kind) => {
                return Err(ResolveError::InvalidNumeric { part: string_of(parts[depth].as_slice()), kind });
            },
        };
        if n == 0 || n > current.len() {
            return Err(ResolveError::NumericOutOfRange { n, len: current.len(), depth: depth + 1 });
        }
        let idx = n - 1;
        indices.push(idx);
        current = &current[idx].children;
        depth += 1;
    }
    Ok(indices)
}

/// Executable `exact_matches` over all of `hs`.
fn exact_matches_exec(hs: &Vec<Heading>, seg: &[char]) -> (r: Vec<usize>)
    ensures
        r@ == exact_matches(headings_model(hs@), seg@, hs@.len() as int),
{
    broadcast use group_headings_model;

    let mut r: Vec<usize> = Vec::new();
    let mut i: usize = 0;
    while i < hs.len()
        invariant
            i <= hs@.len(),
            r@ == exact_matches(headings_model(hs@), seg@, i as int),
        decreases hs.len() - i,
    {
        let t = chars_of(hs[i].title.as_str());
        assert(headings_model(hs@)[i as int] == hs@[i as int]@);
        if eq_ignore_ascii_case_chars(t.as_slice(), seg) {
            r.push(i);
        }
        i += 1;
    }
    r
}

/// Executable `substring_matches` over all of `hs`, given the lowercased
/// segment.
fn substring_matches_exec(hs: &Vec<Heading>, seg: &[char], seg_lower: &[char]) -> (r: Vec<usize>)
    requires
        seg_lower@ == lowercase(seg@),
    ensures
        r@ == substring_matches(headings_model(hs@), seg@, hs@.len() as int),
{
    broadcast use group_headings_model;

    let mut r: Vec<usize> = Vec::new();
    let mut i: usize = 0;
    while i < hs.len()
        invariant
            i <= hs@.len(),
            seg_lower@ == lowercase(seg@),
            r@ == substring_matches(headings_model(hs@), seg@, i as int),
        decreases hs.len() - i,
    {
        let lower = to_lowercase(hs[i].title.as_str());
        assert(headings_model(hs@)[i as int] == hs@[i as int]@);
        let lc = chars_of(lower.as_str());
        if contains_chars(lc.as_slice(), seg_lower) {
            r.push(i);
        }
        i += 1;
    }
    r
}

/// The titles of `hs`.
fn titles_exec(hs: &Vec<Heading>) -> (r: Vec<String>)
    ensures
        strs_of(r@) == titles(headings_model(hs@)),
{
    broadcast use group_headings_model;

    let mut r: Vec<String> = Vec::new();
    let mut i: usize = 0;
    while i < hs.len()
        invariant
            i <= hs@.len(),
            r@.len() == i,
            strs_of(r@) == titles(headings_model(hs@)).take(i as int),
        decreases hs.len() - i,
    {
        let ghost prev = r@;
        r.push(hs[i].title.clone());
        assert forall|k: int| 0 <= k < i + 1 implies #[trigger] strs_of(r@)[k] == titles(headings_model(hs@)).take(i + 1)[k] by {
            if k < i {
                assert(r@[k] == prev[k]);
                assert(strs_of(prev)[k] == titles(headings_model(hs@)).take(i as int)[k]);
            }
        }
        assert(strs_of(r@) =~= titles(headings_model(hs@)).take(i + 1));
        i += 1;
    }
    assert(titles(headings_model(hs@)).take(i as int) =~= titles(headings_model(hs@)));
    r
}

/// The (address, title) pairs of the matches `m`.
fn match_list_exec(hs: &Vec<Heading>, m: &Vec<usize>, parent: &Vec<usize>) -> (r: Vec<(Vec<usize>, String)>)
    requires
        forall|k: int| 0 <= k < m@.len() ==> #[trigger] m@[k] < hs@.len(),
    ensures
        matches_of(r@) == match_list(headings_model(hs@), m@, parent@),
{
    broadcast use group_headings_model;

    let mut r: Vec<(Vec<usize>, String)> = Vec::new();
    let mut i: usize = 0;
    while i < m.len()
        invariant
            i <= m@.len(),
            forall|k: int| 0 <= k < m@.len() ==> #[trigger] m@[k] < hs@.len(),
            r@.len() == i,
            matches_of(r@) == match_list(headings_model(hs@), m@, parent@).take(i as int),
        decreases m.len() - i,
    {
        let mut addr = vstd::slice::slice_to_vec(parent.as_slice());
        addr.push(m[i]);
        assert(headings_model(hs@)[m@[i as int] as int] == hs@[m@[i as int] as int]@);
        let ghost prev = r@;
        r.push((addr, hs[m[i]].title.clone()));
        assert forall|k: int| 0 <= k < i + 1 implies #[trigger] matches_of(r@)[k] == match_list(headings_model(hs@), m@, parent@).take(i + 1)[k] by {
            if k < i {
                assert(r@[k] == prev[k]);
                assert(matches_of(prev)[k] == match_list(headings_model(hs@), m@, parent@).take(i as int)[k]);
            }
        }
        assert(matches_of(r@) =~= match_list(headings_model(hs@), m@, parent@).take(i + 1));
        i += 1;
    }
    assert(match_list(headings_model(hs@), m@, parent@).take(i as int) =~= match_list(headings_model(hs@), m@, parent@));
    r
}

/// Indices found by `exact_matches` and `substring_matches` are in range.
proof fn lemma_matches_in_range(hs: Seq<HeadingModel>, seg: Seq<char>, n: int)
    requires
        0 <= n <= hs.len(),
    ensures
        forall|k: int| 0 <= k < exact_matches(hs, seg, n).len() ==> #[trigger] exact_matches(hs, seg, n)[k] < n,
        forall|k: int| 0 <= k < substring_matches(hs, seg, n).len() ==> #[trigger] substring_matches(hs, seg, n)[k] < n,
    decreases n,
{
    if n > 0 {
        lemma_matches_in_range(hs, seg, n - 1);
        let e0 = exact_matches(hs, seg, n - 1);
        let s0 = substring_matches(hs, seg, n - 1);
        assert forall|k: int| 0 <= k < exact_matches(hs, seg, n).len() implies #[trigger] exact_matches(hs, seg, n)[k] < n by {
            if k < e0.len() {
                assert(e0[k] < n - 1);
            }
        }
        assert forall|k: int| 0 <= k < substring_matches(hs, seg, n).len() implies #[trigger] substring_matches(hs, seg, n)[k] < n by {
            if k < s0.len() {
                assert(s0[k] < n - 1);
            }
        }
    }
}

/// Executable `segment_index`.
fn resolve_segment(headings: &Vec<Heading>, segment: &[char], parent_addr: &Vec<usize>) -> (r: Result<usize, SegmentError>)
    ensures
        r matches Ok(i) ==> segment_index(headings_model(headings@), segment@, parent_addr@) == Ok::<usize, SegmentFailure>(i) && i < headings@.len(),
        r matches Err(e) ==> segment_index(headings_model(headings@), segment@, parent_addr@) == Err::<usize, SegmentFailure>(e@),
{
    broadcast use group_headings_model;

    if headings.len() == 0 {
        return Err(SegmentError::NoHeadings);
    }
    // Positional: #N (1-based)
    if segment.len() > 0 && segment[0] == '#' {
        let num = vstd::slice::slice_subrange(segment, 1, segment.len());
        assert(num@ =~= segment@.drop_first());
        match parse_usize_chars(num) {
            Err(kind) => {
                return Err(SegmentError::InvalidIndex { kind });
            },
            Ok(n) => {
                if n == 0 || n > headings.len() {
                    return Err(SegmentError::OutOfRange { n, len: headings.len() });
                }
                return Ok(n - 1);
            },
        }
    }
    proof {
        lemma_matches_in_range(headings_model(headings@), segment@, headings@.len() as int);
    }
    // Exact match (case-insensitive)
    let exact = exact_matches_exec(headings, segment);
    if exact.len() == 1 {
        return Ok(exact[0]);
    }
    // Substring match (case-insensitive) as fallback
    let seg_lower = to_lowercase(string_of(segment).as_str());
    let seg_lower_chars = chars_of(seg_lower.as_str());
    let substr = substring_matches_exec(headings, segment, seg_lower_chars.as_slice());
    if substr.len() == 1 {
        return Ok(substr[0]);
    }
    let matches = if exact.len() > 0 { &exact } else { &substr };
    if matches.len() == 0 {
        return Err(SegmentError::NoMatch { available: titles_exec(headings) });
    }
    Err(SegmentError::Ambiguous { matches: match_list_exec(headings, matches, parent_addr) })
}

/// Resolve a human-friendly path string into index coordinates.
///
/// Path syntax:
///   - Segments separated by `/`
///   - `#N` — positional (1-based) at that level
///   - Bare text — case-insensitive exact match, then substring fallback
///   - Multiple matches → error with suggestions
///   - `#1.2.3` or `1.2.3` — dot-separated numeric address (as output by show/find)
///
/// Examples: `"Projects/Website"`, `"#1/#2"`, `"#3/Website"`, `"#1.2"`, `"1.2"`
pub fn resolve(doc: &OrgDoc, path: &str) -> (r: Result<Vec<usize>, ResolveError>)
    ensures
        r matches Ok(v) ==> resolve_path(doc@.headings, path@) == Ok::<Seq<usize>, ResolveFailure>(v@),
        r matches Err(e) ==> resolve_path(doc@.headings, path@) == Err::<Seq<usize>, ResolveFailure>(e@),
{
    broadcast use group_headings_model;

    let pc = chars_of(path);
    // Check if this is a dot-separated numeric address like "#1.2" or "1.2"
    let trimmed = trim_chars(pc.as_slice());
    let addr = if trimmed.len() > 0 && trimmed[0] == '#' {
        let a = vstd::slice::slice_subrange(trimmed, 1, trimmed.len());
        assert(a@ =~= trimmed@.drop_first());
        a
    } else {
        trimmed
    };
    if is_numeric_addr_exec(addr) {
        let parts = split_chars(addr, '.');
        return resolve_numeric_addr(&doc.headings, &parts);
    }
    let segments = split_chars(pc.as_slice(), '/');
    let ghost segs = seqs_of(segments@);
    let ghost goal = resolve_segments(doc@.headings, segs, 0, seq![]);
    assert(goal == resolve_path(doc@.headings, path@));
    let mut indices: Vec<usize> = Vec::new();
    let mut current: &Vec<Heading> = &doc.headings;
    let mut depth: usize = 0;
    while depth < segments.len()
        invariant
            segs == seqs_of(segments@),
            goal == resolve_path(doc@.headings, path@),
            depth <= segments@.len(),
            goal == resolve_segments(headings_model(current@), segs, depth as int, indices@),
        decreases segments.len() - depth,
    {
        assert(segs[depth as int] == segments@[depth as int]@);
        let seg = trim_chars(segments[depth].as_slice());
        if seg.len() == 0 {
            return Err(ResolveError::EmptySegment { position: depth + 1 });
        }
        let idx = match resolve_segment(current, seg, &indices) {
            Ok(i) => i,
            Err(cause) => {
                return Err(ResolveError::Segment { segment: string_of(seg), depth: depth + 1, cause });
            },
        };
        indices.push(idx);
        current = &current[idx].children;
        depth += 1;
    }
    Ok(indices)
}


// ---------------------------------------------------------------------------
// Facts about resolution
// ---------------------------------------------------------------------------

/// `segment_index` picks an index of `hs`.
pub proof fn lemma_segment_index_in_range(hs: Seq<HeadingModel>, seg: Seq<char>, parent: Seq<usize>)
    ensures
        segment_index(hs, seg, parent) matches Ok(i) ==> i < hs.len(),
{
    lemma_matches_in_range(hs, seg, hs.len() as int);
}

proof fn lemma_resolve_numeric_valid(hs0: Seq<HeadingModel>, hs: Seq<HeadingModel>, parts: Seq<Seq<char>>, depth: int, acc: Seq<usize>)
    requires
        0 <= depth <= parts.len(),
        acc.len() == depth,
        valid_parent(hs0, acc),
        list_at(hs0, acc) == hs,
    ensures
        resolve_numeric(hs, parts, depth, acc) matches Ok(r) ==> r.len() == parts.len() && valid_parent(hs0, r) && (r.len() > 0 ==> valid_path(hs0, r)),
    decreases parts.len() - depth,
{
    if depth < parts.len() {
        if let Ok(n) = parse_usize(parts[depth]) {
            if n != 0 && n <= hs.len() {
                lemma_list_at_push(hs0, acc, (n - 1) as usize);
                lemma_resolve_numeric_valid(hs0, hs[n - 1].children, parts, depth + 1, acc.push((n - 1) as usize));
            }
        }
    } else if acc.len() > 0 {
        lemma_valid_parent_nonempty(hs0, acc);
    }
}

proof fn lemma_valid_parent_nonempty(hs: Seq<HeadingModel>, p: Seq<usize>)
    requires
        valid_parent(hs, p),
        p.len() > 0,
    ensures
        valid_path(hs, p),
    decreases p.len(),
{
    if p.len() > 1 {
        lemma_valid_parent_nonempty(hs[p[0] as int].children, p.drop_first());
    }
}

proof fn lemma_resolve_segments_valid(hs0: Seq<HeadingModel>, hs: Seq<HeadingModel>, segs: Seq<Seq<char>>, depth: int, acc: Seq<usize>)
    requires
        0 <= depth <= segs.len(),
        acc.len() == depth,
        valid_parent(hs0, acc),
        list_at(hs0, acc) == hs,
    ensures
        resolve_segments(hs, segs, depth, acc) matches Ok(r) ==> r.len() == segs.len() && valid_parent(hs0, r) && (r.len() > 0 ==> valid_path(hs0, r)),
    decreases segs.len() - depth,
{
    if depth < segs.len() {
        let seg = trim(segs[depth]);
        lemma_segment_index_in_range(hs, seg, acc);
        if seg.len() > 0 {
            if let Ok(i) = segment_index(hs, seg, acc) {
                lemma_list_at_push(hs0, acc, i);
                lemma_resolve_segments_valid(hs0, hs[i as int].children, segs, depth + 1, acc.push(i));
            }
        }
    } else if acc.len() > 0 {
        lemma_valid_parent_nonempty(hs0, acc);
    }
}

/// An address that a path resolves to names a heading of the document,
/// one index per path segment (or numeric part).
pub proof fn lemma_resolve_valid(hs: Seq<HeadingModel>, path: Seq<char>)
    ensures
        resolve_path(hs, path) matches Ok(r) ==> valid_path(hs, r),
{
    lemma_split_nonempty(strip_hash(trim(path)), '.');
    lemma_split_nonempty(path, '/');
    lemma_resolve_numeric_valid(hs, hs, split(strip_hash(trim(path)), '.'), 0, seq![]);
    lemma_resolve_segments_valid(hs, hs, split(path, '/'), 0, seq![]);
}

proof fn lemma_join_last(ts: Seq<Seq<char>>, sep: Seq<char>)
    requires
        ts.len() > 0,
        ts.last().len() > 0,
    ensures
        join(ts, sep).len() > 0,
        join(ts, sep).last() == ts.last().last(),
{
}

proof fn lemma_resolve_numeric_text(root: Seq<HeadingModel>, a: Seq<usize>, i: int)
    requires
        lens_fit(root),
        valid_path(root, a),
        0 <= i <= a.len(),
    ensures
        resolve_numeric(list_at(root, a.take(i)), addr_numbers(a), i, a.take(i)) == Ok::<Seq<usize>, ResolveFailure>(a),
    decreases a.len() - i,
{
    let parts = addr_numbers(a);
    if i == a.len() {
        assert(a.take(i) =~= a);
    } else {
        lemma_valid_path_prefix(root, a, i);
        let hs = list_at(root, a.take(i));
        lemma_lens_fit_list_at(root, a.take(i));
        assert(hs.len() <= usize::MAX);
        assert(parts[i] == decimal(a[i] as nat + 1));
        lemma_parse_decimal(a[i] as nat + 1);
        lemma_list_at_push(root, a.take(i), a[i]);
        assert(a.take(i).push(a[i]) =~= a.take(i + 1));
        lemma_resolve_numeric_text(root, a, i + 1);
    }
}

proof fn lemma_join_first(ts: Seq<Seq<char>>, sep: Seq<char>)
    requires
        ts.len() > 0,
        ts[0].len() > 0,
    ensures
        join(ts, sep).len() > 0,
        join(ts, sep)[0] == ts[0][0],
    decreases ts.len(),
{
    if ts.len() > 1 {
        lemma_join_first(ts.drop_last(), sep);
    }
}

/// The dotted digits of a valid address: a numeric address whose `.`-parts
/// are the 1-based indices, starting and ending with a digit.
proof fn lemma_addr_digits(hs: Seq<HeadingModel>, a: Seq<usize>)
    requires
        lens_fit(hs),
        valid_path(hs, a),
    ensures
        is_numeric_addr(join(addr_numbers(a), seq!['.'])),
        split(join(addr_numbers(a), seq!['.']), '.') == addr_numbers(a),
        is_digit(join(addr_numbers(a), seq!['.'])[0]),
        is_digit(join(addr_numbers(a), seq!['.']).last()),
{
    let parts = addr_numbers(a);
    let j = join(parts, seq!['.']);
    assert forall|k: int| 0 <= k < parts.len() implies !has_char(#[trigger] parts[k], '.') && is_digits(parts[k]) by {
        lemma_valid_path_prefix(hs, a, k);
        lemma_lens_fit_list_at(hs, a.take(k));
        assert(parts[k] == decimal(a[k] as nat + 1));
        lemma_parse_decimal(a[k] as nat + 1);
        if has_char(parts[k], '.') {
            let w = choose|w: int| 0 <= w < parts[k].len() && parts[k][w] == '.';
            assert(is_digit(parts[k][w]));
        }
    }
    lemma_split_join(parts, '.');
    lemma_join_last(parts, seq!['.']);
    lemma_join_first(parts, seq!['.']);
    assert(is_digits(parts.last()));
    assert(is_digits(parts[0]));
}

/// A positional address as `show` and `find` print it (`#1.2.3`) resolves
/// back to that address.
pub proof fn lemma_resolve_addr_text(hs: Seq<HeadingModel>, a: Seq<usize>)
    requires
        lens_fit(hs),
        valid_path(hs, a),
    ensures
        resolve_path(hs, addr_text(a)) == Ok::<Seq<usize>, ResolveFailure>(a),
{
    let j = join(addr_numbers(a), seq!['.']);
    let t = addr_text(a);
    lemma_addr_digits(hs, a);
    assert(t == seq!['#'] + j);
    assert(t.last() == j.last());
    assert(!is_ws(t.last()));
    assert(trim_start(t) == t);
    assert(trim_end(t) == t);
    assert(strip_hash(trim(t)) =~= j);
    assert(list_at(hs, a.take(0)) == hs) by {
        assert(a.take(0) =~= Seq::<usize>::empty());
    }
    lemma_resolve_numeric_text(hs, a, 0);
    assert(a.take(0) =~= Seq::<usize>::empty());
}

/// The same address without its leading `#` (`1.2.3`) resolves back to that
/// address too.
pub proof fn lemma_resolve_addr_digits(hs: Seq<HeadingModel>, a: Seq<usize>)
    requires
        lens_fit(hs),
        valid_path(hs, a),
    ensures
        resolve_path(hs, join(addr_numbers(a), seq!['.'])) == Ok::<Seq<usize>, ResolveFailure>(a),
{
    let j = join(addr_numbers(a), seq!['.']);
    lemma_addr_digits(hs, a);
    assert(!is_ws(j[0]));
    assert(!is_ws(j.last()));
    assert(trim_start(j) == j);
    assert(trim_end(j) == j);
    assert(strip_hash(trim(j)) == j);
    assert(list_at(hs, a.take(0)) == hs) by {
        assert(a.take(0) =~= Seq::<usize>::empty());
    }
    lemma_resolve_numeric_text(hs, a, 0);
    assert(a.take(0) =~= Seq::<usize>::empty());
}

// ---------------------------------------------------------------------------
// Title paths that name their heading
// ---------------------------------------------------------------------------

/// Whether the title at position `i` of the valid address `p` can stand as
/// a segment of a title path that names it: non-empty, without surrounding
/// whitespace, without `/`, not starting with `#`, and equal (ignoring
/// ASCII case) to no other title among its siblings.
pub open spec fn title_segment_ok(hs: Seq<HeadingModel>, p: Seq<usize>, i: int) -> bool {
    let sibs = list_at(hs, p.take(i));
    let t = sibs[p[i] as int].title;
    &&& t.len() > 0
    &&& trim(t) == t
    &&& !has_char(t, '/')
    &&& t[0] != '#'
    &&& forall|j: int| 0 <= j < sibs.len() && j != p[i] ==> !eq_ignore_ascii_case(#[trigger] sibs[j].title, t)
}

proof fn lemma_title_path_at(hs: Seq<HeadingModel>, p: Seq<usize>, i: int)
    requires
        valid_path(hs, p),
        0 <= i < p.len(),
    ensures
        title_path(hs, p).len() == p.len(),
        title_path(hs, p)[i] == list_at(hs, p.take(i))[p[i] as int].title,
    decreases p.len(),
{
    let rest = p.drop_first();
    if p.len() > 1 {
        lemma_title_path_at(hs[p[0] as int].children, rest, if i > 0 { i - 1 } else { 0 });
    } else {
        assert(rest.len() == 0);
        assert(title_path(hs[p[0] as int].children, rest) =~= Seq::<Seq<char>>::empty());
    }
    if i == 0 {
        assert(p.take(0) =~= Seq::<usize>::empty());
    } else {
        let t = p.take(i);
        assert(t[0] == p[0]);
        assert(t.drop_first() =~= rest.take(i - 1));
        assert(p[i] == rest[i - 1]);
    }
}

proof fn lemma_exact_none(hs: Seq<HeadingModel>, seg: Seq<char>, n: int)
    requires
        n <= hs.len(),
        forall|j: int| 0 <= j < n ==> !eq_ignore_ascii_case(#[trigger] hs[j].title, seg),
    ensures
        exact_matches(hs, seg, n).len() == 0,
    decreases n,
{
    if n > 0 {
        lemma_exact_none(hs, seg, n - 1);
    }
}

proof fn lemma_exact_single(hs: Seq<HeadingModel>, seg: Seq<char>, n: int, m: int)
    requires
        0 <= m < n <= hs.len(),
        eq_ignore_ascii_case(hs[m].title, seg),
        forall|j: int| 0 <= j < n && j != m ==> !eq_ignore_ascii_case(#[trigger] hs[j].title, seg),
    ensures
        exact_matches(hs, seg, n) == seq![m as usize],
    decreases n,
{
    if n - 1 == m {
        lemma_exact_none(hs, seg, n - 1);
        assert(exact_matches(hs, seg, n - 1) =~= Seq::<usize>::empty());
    } else {
        lemma_exact_single(hs, seg, n - 1, m);
    }
}

proof fn lemma_resolve_titles(root: Seq<HeadingModel>, p: Seq<usize>, segs: Seq<Seq<char>>, i: int)
    requires
        valid_path(root, p),
        0 <= i <= p.len(),
        segs == title_path(root, p),
        forall|k: int| 0 <= k < p.len() ==> title_segment_ok(root, p, k),
    ensures
        resolve_segments(list_at(root, p.take(i)), segs, i, p.take(i)) == Ok::<Seq<usize>, ResolveFailure>(p),
    decreases p.len() - i,
{
    if i == p.len() {
        lemma_title_path_at(root, p, 0);
        assert(p.take(i) =~= p);
    } else {
        lemma_valid_path_prefix(root, p, i);
        lemma_title_path_at(root, p, i);
        let hs = list_at(root, p.take(i));
        let seg = segs[i];
        assert(title_segment_ok(root, p, i));
        assert(trim(seg) == seg);
        let m = p[i] as int;
        assert(eq_ignore_ascii_case(hs[m].title, seg));
        lemma_exact_single(hs, seg, hs.len() as int, m);
        assert(segment_index(hs, seg, p.take(i)) == Ok::<usize, SegmentFailure>(p[i]));
        lemma_list_at_push(root, p.take(i), p[i]);
        assert(p.take(i).push(p[i]) =~= p.take(i + 1));
        lemma_resolve_titles(root, p, segs, i + 1);
    }
}

/// A title path as the JSON output gives it (`format_title_path`: the
/// titles along a valid address, joined by `/`) resolves back to that
/// address, when each of its titles can stand as a segment (see
/// `title_segment_ok`) and the whole path does not read as a numeric
/// address.
pub proof fn lemma_resolve_title_path(hs: Seq<HeadingModel>, p: Seq<usize>)
    requires
        valid_path(hs, p),
        forall|k: int| 0 <= k < p.len() ==> title_segment_ok(hs, p, k),
        !is_numeric_addr(strip_hash(trim(join(title_path(hs, p), seq!['/'])))),
    ensures
        resolve_path(hs, join(title_path(hs, p), seq!['/'])) == Ok::<Seq<usize>, ResolveFailure>(p),
{
    let tp = title_path(hs, p);
    lemma_title_path_at(hs, p, 0);
    assert forall|k: int| 0 <= k < tp.len() implies !has_char(#[trigger] tp[k], '/') by {
        lemma_title_path_at(hs, p, k);
        assert(title_segment_ok(hs, p, k));
    }
    lemma_split_join(tp, '/');
    assert(p.take(0) =~= Seq::<usize>::empty());
    lemma_resolve_titles(hs, p, tp, 0);
}

proof fn lemma_substring_single(hs: Seq<HeadingModel>, seg: Seq<char>, n: int, m: int)
    requires
        0 <= m < n <= hs.len(),
        contains_seq(lowercase(hs[m].title), lowercase(seg)),
        forall|j: int| 0 <= j < n && j != m ==> !contains_seq(lowercase(#[trigger] hs[j].title), lowercase(seg)),
    ensures
        substring_matches(hs, seg, n) == seq![m as usize],
    decreases n,
{
    if n - 1 == m {
        lemma_substring_none(hs, seg, n - 1);
        assert(substring_matches(hs, seg, n - 1) =~= Seq::<usize>::empty());
    } else {
        lemma_substring_single(hs, seg, n - 1, m);
    }
}

proof fn lemma_substring_none(hs: Seq<HeadingModel>, seg: Seq<char>, n: int)
    requires
        n <= hs.len(),
        forall|j: int| 0 <= j < n ==> !contains_seq(lowercase(#[trigger] hs[j].title), lowercase(seg)),
    ensures
        substring_matches(hs, seg, n).len() == 0,
    decreases n,
{
    if n > 0 {
        lemma_substring_none(hs, seg, n - 1);
    }
}

/// Substring fallback: a segment that is no `#N` and equals no title of
/// the list (ignoring ASCII case) names the one heading whose lowercased
/// title contains the lowercased segment anywhere, when exactly one does.
pub proof fn lemma_unique_substring_segment(hs: Seq<HeadingModel>, seg: Seq<char>, parent: Seq<usize>, i: int)
    requires
        !(seg.len() > 0 && seg[0] == '#'),
        forall|j: int| 0 <= j < hs.len() ==> !eq_ignore_ascii_case(#[trigger] hs[j].title, seg),
        0 <= i < hs.len(),
        contains_seq(lowercase(hs[i].title), lowercase(seg)),
        forall|j: int| 0 <= j < hs.len() && j != i ==> !contains_seq(lowercase(#[trigger] hs[j].title), lowercase(seg)),
    ensures
        segment_index(hs, seg, parent) == Ok::<usize, SegmentFailure>(i as usize),
{
    lemma_exact_none(hs, seg, hs.len() as int);
    lemma_substring_single(hs, seg, hs.len() as int, i);
}

/// A segment that is no `#N` and equals exactly one title of the list
/// (ignoring ASCII case) names that heading, whatever other titles contain
/// it.
pub proof fn lemma_unique_exact_segment(hs: Seq<HeadingModel>, seg: Seq<char>, parent: Seq<usize>, i: int)
    requires
        !(seg.len() > 0 && seg[0] == '#'),
        0 <= i < hs.len(),
        eq_ignore_ascii_case(hs[i].title, seg),
        forall|j: int| 0 <= j < hs.len() && j != i ==> !eq_ignore_ascii_case(#[trigger] hs[j].title, seg),
    ensures
        segment_index(hs, seg, parent) == Ok::<usize, SegmentFailure>(i as usize),
{
    lemma_exact_single(hs, seg, hs.len() as int, i);
}

/// A segment that is no `#N`, equals no title and is contained in no title
/// of a non-empty list (ignoring case) names nothing; the error lists the
/// titles.
pub proof fn lemma_no_match_segment(hs: Seq<HeadingModel>, seg: Seq<char>, parent: Seq<usize>)
    requires
        hs.len() > 0,
        !(seg.len() > 0 && seg[0] == '#'),
        forall|j: int| 0 <= j < hs.len() ==> !eq_ignore_ascii_case(#[trigger] hs[j].title, seg),
        forall|j: int| 0 <= j < hs.len() ==> !contains_seq(lowercase(#[trigger] hs[j].title), lowercase(seg)),
    ensures
        segment_index(hs, seg, parent) == Err::<usize, SegmentFailure>(SegmentFailure::NoMatch(titles(hs))),
{
    lemma_exact_none(hs, seg, hs.len() as int);
    lemma_substring_none(hs, seg, hs.len() as int);
}

/// A path of one segment (trimmed, non-empty, without `/`, not an address)
/// that matches no title exactly but is contained in exactly one top-level
/// title, ignoring case, resolves to that heading.
pub proof fn lemma_unique_substring_path(hs: Seq<HeadingModel>, seg: Seq<char>, i: int)
    requires
        seg.len() > 0,
        trim(seg) == seg,
        !has_char(seg, '/'),
        seg[0] != '#',
        !is_numeric_addr(seg),
        hs.len() <= usize::MAX,
        forall|j: int| 0 <= j < hs.len() ==> !eq_ignore_ascii_case(#[trigger] hs[j].title, seg),
        0 <= i < hs.len(),
        contains_seq(lowercase(hs[i].title), lowercase(seg)),
        forall|j: int| 0 <= j < hs.len() && j != i ==> !contains_seq(lowercase(#[trigger] hs[j].title), lowercase(seg)),
    ensures
        resolve_path(hs, seg) == Ok::<Seq<usize>, ResolveFailure>(seq![i as usize]),
{
    lemma_unique_substring_segment(hs, seg, Seq::<usize>::empty(), i);
    lemma_split_none(seg, '/');
    assert(strip_hash(trim(seg)) == seg);
    let segs = split(seg, '/');
    assert(segs.len() == 1 && segs[0] == seg);
    let e: Seq<usize> = seq![];
    assert(e.push(i as usize) =~= seq![i as usize]);
    assert(resolve_segments(hs[i].children, segs, 1, e.push(i as usize)) == Ok::<Seq<usize>, ResolveFailure>(e.push(i as usize)));
    assert(resolve_segments(hs, segs, 0, e) == resolve_segments(hs[i].children, segs, 1, e.push(i as usize)));
}

// ---------------------------------------------------------------------------
// What resolution depends on
// ---------------------------------------------------------------------------

/// Whether the trees `a` and `b` have the same shape and the same titles.
pub open spec fn same_shape(a: Seq<HeadingModel>, b: Seq<HeadingModel>) -> bool
    decreases a,
{
    &&& a.len() == b.len()
    &&& forall|i: int|
        0 <= i < a.len() ==> (#[trigger] a[i]).title == b[i].title && same_shape(a[i].children, b[i].children)
}

/// Every tree has its own shape.
pub proof fn lemma_same_shape_refl(a: Seq<HeadingModel>)
    ensures
        same_shape(a, a),
    decreases a,
{
    assert forall|i: int| 0 <= i < a.len() implies (#[trigger] a[i]).title == a[i].title && same_shape(
        a[i].children,
        a[i].children,
    ) by {
        lemma_same_shape_refl(a[i].children);
    }
}

proof fn lemma_matches_same_shape(a: Seq<HeadingModel>, b: Seq<HeadingModel>, seg: Seq<char>, n: int)
    requires
        same_shape(a, b),
        0 <= n <= a.len(),
    ensures
        exact_matches(a, seg, n) == exact_matches(b, seg, n),
        substring_matches(a, seg, n) == substring_matches(b, seg, n),
    decreases n,
{
    if n > 0 {
        lemma_matches_same_shape(a, b, seg, n - 1);
        assert(a[n - 1].title == b[n - 1].title);
    }
}

proof fn lemma_segment_index_same_shape(a: Seq<HeadingModel>, b: Seq<HeadingModel>, seg: Seq<char>, parent: Seq<usize>)
    requires
        same_shape(a, b),
    ensures
        segment_index(a, seg, parent) == segment_index(b, seg, parent),
{
    lemma_matches_same_shape(a, b, seg, a.len() as int);
    lemma_matches_in_range(a, seg, a.len() as int);
    assert(titles(a) =~= titles(b)) by {
        assert forall|i: int| 0 <= i < a.len() implies titles(a)[i] == titles(b)[i] by {
            assert(a[i].title == b[i].title);
        }
    }
    let exact = exact_matches(a, seg, a.len() as int);
    let sub = substring_matches(a, seg, a.len() as int);
    let m = if exact.len() > 0 { exact } else { sub };
    assert(match_list(a, m, parent) =~= match_list(b, m, parent)) by {
        assert forall|k: int| 0 <= k < m.len() implies match_list(a, m, parent)[k] == match_list(b, m, parent)[k] by {
            assert(m[k] < a.len());
            assert(a[m[k] as int].title == b[m[k] as int].title);
        }
    }
}

proof fn lemma_resolve_segments_same_shape(
    a: Seq<HeadingModel>,
    b: Seq<HeadingModel>,
    segs: Seq<Seq<char>>,
    depth: int,
    acc: Seq<usize>,
)
    requires
        same_shape(a, b),
    ensures
        resolve_segments(a, segs, depth, acc) == resolve_segments(b, segs, depth, acc),
    decreases segs.len() - depth,
{
    if 0 <= depth < segs.len() {
        let seg = trim(segs[depth]);
        if seg.len() > 0 {
            lemma_segment_index_same_shape(a, b, seg, acc);
            match segment_index(a, seg, acc) {
                Ok(i) => {
                    if i < a.len() {
                        assert(same_shape(a[i as int].children, b[i as int].children));
                        lemma_resolve_segments_same_shape(
                            a[i as int].children,
                            b[i as int].children,
                            segs,
                            depth + 1,
                            acc.push(i),
                        );
                    }
                },
                Err(_) => {},
            }
        }
    }
}

proof fn lemma_resolve_numeric_same_shape(
    a: Seq<HeadingModel>,
    b: Seq<HeadingModel>,
    parts: Seq<Seq<char>>,
    depth: int,
    acc: Seq<usize>,
)
    requires
        same_shape(a, b),
    ensures
        resolve_numeric(a, parts, depth, acc) == resolve_numeric(b, parts, depth, acc),
    decreases parts.len() - depth,
{
    if 0 <= depth < parts.len() {
        match parse_usize(parts[depth]) {
            Ok(n) => {
                if !(n == 0 || n > a.len()) {
                    assert(same_shape(a[n - 1].children, b[n - 1].children));
                    lemma_resolve_numeric_same_shape(a[n - 1].children, b[n - 1].children, parts, depth + 1, acc.push((n - 1) as usize));
                }
            },
            Err(_) => {},
        }
    }
}

/// Resolution reads only the titles and the shape of the tree: two trees
/// of the same shape and titles resolve every path alike.
pub proof fn lemma_resolve_same_shape(a: Seq<HeadingModel>, b: Seq<HeadingModel>, path: Seq<char>)
    requires
        same_shape(a, b),
    ensures
        resolve_path(a, path) == resolve_path(b, path),
{
    lemma_resolve_numeric_same_shape(a, b, split(strip_hash(trim(path)), '.'), 0, seq![]);
    lemma_resolve_segments_same_shape(a, b, split(path, '/'), 0, seq![]);
}

/// Replacing the heading at a valid address by one with the same title and
/// children of the same shape keeps the shape.
pub proof fn lemma_with_heading_same_shape(hs: Seq<HeadingModel>, path: Seq<usize>, h: HeadingModel)
    requires
        valid_path(hs, path),
        h.title == heading_at_path(hs, path).title,
        same_shape(heading_at_path(hs, path).children, h.children),
    ensures
        same_shape(hs, with_heading_at(hs, path, h)),
    decreases path.len(),
{
    let w = with_heading_at(hs, path, h);
    let p0 = path[0] as int;
    lemma_same_shape_refl(hs);
    if path.len() > 1 {
        lemma_with_heading_same_shape(hs[p0].children, path.drop_first(), h);
    }
    assert forall|i: int| 0 <= i < hs.len() implies (#[trigger] hs[i]).title == w[i].title && same_shape(
        hs[i].children,
        w[i].children,
    ) by {
        if i != p0 {
            assert(w[i] == hs[i]);
        } else if path.len() <= 1 {
            assert(w[i] == h);
        }
    }
}

/// The heading at an address after replacing it is the replacement.
pub proof fn lemma_heading_at_with(hs: Seq<HeadingModel>, path: Seq<usize>, h: HeadingModel)
    requires
        valid_path(hs, path),
    ensures
        valid_path(with_heading_at(hs, path, h), path),
        heading_at_path(with_heading_at(hs, path, h), path) == h,
    decreases path.len(),
{
    if path.len() > 1 {
        lemma_heading_at_with(hs[path[0] as int].children, path.drop_first(), h);
    }
}

/// Shifting levels keeps the shape.
pub proof fn lemma_same_shape_shifted(hs: Seq<HeadingModel>, delta: int)
    ensures
        same_shape(hs, shifted_list(hs, delta)),
    decreases hs,
{
    let w = shifted_list(hs, delta);
    lemma_shifted_list(hs, delta);
    assert forall|i: int| 0 <= i < hs.len() implies (#[trigger] hs[i]).title == w[i].title && same_shape(
        hs[i].children,
        w[i].children,
    ) by {
        assert(w[i] == shifted(hs[i], delta));
        lemma_same_shape_shifted(hs[i].children, delta);
    }
}

} // verus!
