//! Parsing org-mode text into an `OrgDoc`.

use vstd::prelude::*;
use vstd::string::*;
use std::collections::VecDeque;
use crate::model::{
    heading_model, Heading, HeadingModel, OrgDoc, Settings, SettingsModel, DocModel, default_settings,
    is_keyword_in, headings_model, strs_of_refs, lemma_headings_model_push,
    lemma_headings_model_subrange, lemma_headings_model, group_headings_model, opt_str, pairs_of, heading_count, lemma_count_add, lemma_count_one,
};
use crate::text::{
    alphanumeric, chars_of, find_char, find_char_from, is_alphanumeric, lines, lines_chars, rfind_pair, rfind_pair_exec, seqs_of, split, split_chars, starts_with, starts_with_chars, string_of, strs_of, trim, trim_chars, trim_end, trim_end_chars, trim_start, trim_start_index, unlines, words, words_chars, push_chars, push_char,
};

verus! {

broadcast use vstd::string::group_string_axioms;

// ---------------------------------------------------------------------------
// Headlines
// ---------------------------------------------------------------------------

/// The number of leading `*` of `l`.
pub open spec fn star_count(l: Seq<char>) -> int
    decreases l.len(),
{
    if l.len() > 0 && l[0] == '*' {
        1 + star_count(l.drop_first())
    } else {
        0
    }
}

pub proof fn lemma_star_count(l: Seq<char>, j: int)
    requires
        0 <= j <= l.len(),
        forall|k: int| 0 <= k < j ==> #[trigger] l[k] == '*',
        j == l.len() || l[j] != '*',
    ensures
        star_count(l) == j,
    decreases j,
{
    if j > 0 {
        assert forall|k: int| 0 <= k < j - 1 implies #[trigger] l.drop_first()[k] == '*' by {
            assert(l.drop_first()[k] == l[k + 1]);
        }
        lemma_star_count(l.drop_first(), j - 1);
    }
}

/// The heading level of `l` if it is a headline: one or more `*` at the
/// start, followed by a space or by the end of the line.
pub open spec fn headline_level_of(l: Seq<char>) -> Option<usize> {
    if l.len() > 0 && l[0] == '*' && (star_count(l) == l.len() || l[star_count(l)] == ' ') {
        Some(star_count(l) as usize)
    } else {
        None
    }
}

/// Whether `l` is a headline.
pub open spec fn is_headline(l: Seq<char>) -> bool {
    headline_level_of(l) is Some
}

/// The number of leading `*` of `l`.
fn star_count_exec(l: &[char]) -> (n: usize)
    ensures
        n == star_count(l@),
        n <= l@.len(),
{
    let mut n: usize = 0;
    while n < l.len() && l[n] == '*'
        invariant
            n <= l@.len(),
            forall|k: int| 0 <= k < n ==> #[trigger] l@[k] == '*',
        decreases l.len() - n,
    {
        n += 1;
    }
    proof {
        lemma_star_count(l@, n as int);
    }
    n
}

/// Executable `headline_level_of`.
pub fn headline_level_chars(l: &[char]) -> (r: Option<usize>)
    ensures
        r == headline_level_of(l@),
{
    if l.len() == 0 || l[0] != '*' {
        return None;
    }
    let stars = star_count_exec(l);
    if stars == l.len() || l[stars] == ' ' {
        Some(stars)
    } else {
        None
    }
}

/// Return the heading level (number of stars) if `line` is a headline.
pub fn headline_level(line: &str) -> (r: Option<usize>)
    ensures
        r == headline_level_of(line@),
{
    let cs = chars_of(line);
    headline_level_chars(cs.as_slice())
}

/// The keyword at the start of `text` and the text after it (`text` itself
/// when it does not start with a keyword of `st`). The keyword is the part
/// before the first space, or the whole text.
pub open spec fn keyword_split(text: Seq<char>, st: SettingsModel) -> (Option<Seq<char>>, Seq<char>) {
    let sp = find_char(text, ' ');
    if sp < text.len() {
        if is_keyword_in(st, text.take(sp)) {
            (Some(text.take(sp)), trim_start(text.skip(sp)))
        } else {
            (None, text)
        }
    } else if is_keyword_in(st, text) {
        (Some(text), seq![])
    } else {
        (None, text)
    }
}

/// The priority cookie `[#X]` (X an ASCII capital) at the start of `text`
/// and the text after it.
pub open spec fn priority_split(text: Seq<char>) -> (Option<char>, Seq<char>) {
    if text.len() >= 4 && text[0] == '[' && text[1] == '#' && text[3] == ']' && 'A' <= text[2] <= 'Z' {
        (Some(text[2]), trim_start(text.skip(4)))
    } else {
        (None, text)
    }
}

/// A character allowed in a tag.
pub open spec fn is_tag_char(c: char) -> bool {
    alphanumeric(c) || c == '_' || c == '@' || c == '#' || c == '%'
}

/// A non-empty tag of tag characters.
pub open spec fn is_valid_tag(t: Seq<char>) -> bool {
    t.len() > 0 && forall|i: int| 0 <= i < t.len() ==> is_tag_char(#[trigger] t[i])
}

/// Whether every part is a valid tag.
pub open spec fn all_valid_tags(parts: Seq<Seq<char>>) -> bool {
    forall|i: int| 0 <= i < parts.len() ==> is_valid_tag(#[trigger] parts[i])
}

/// The title and the tags of `text`: tags `:a:b:` at the end, after the last
/// ` :`, all valid; otherwise the whole text is the title.
pub open spec fn tags_split(text: Seq<char>) -> (Seq<char>, Seq<Seq<char>>) {
    match rfind_pair(text, ' ', ':') {
        Some(idx) => {
            let cand = trim_end(text.skip(idx + 1));
            if cand.len() > 2 && cand[0] == ':' && cand.last() == ':' && all_valid_tags(
                split(cand.subrange(1, cand.len() - 1), ':'),
            ) {
                (trim_end(text.take(idx)), split(cand.subrange(1, cand.len() - 1), ':'))
            } else {
                (text, seq![])
            }
        },
        None => (text, seq![]),
    }
}

/// A headline split into (level, keyword, priority, title, tags). A priority
/// counts only right after a keyword.
pub open spec fn headline_parts(line: Seq<char>, st: SettingsModel) -> (
    usize,
    Option<Seq<char>>,
    Option<char>,
    Seq<char>,
    Seq<Seq<char>>,
) {
    let rest = trim(line.skip(star_count(line)));
    let (kw, rest2) = keyword_split(rest, st);
    let (pri, rest3) = if kw is Some {
        priority_split(rest2)
    } else {
        (None, rest2)
    };
    let (title, tags) = tags_split(rest3);
    (star_count(line) as usize, kw, pri, title, tags)
}

/// The keyword of `text` and where the rest of `text` starts.
fn keyword_split_exec(text: &[char], settings: &Settings) -> (r: (Option<String>, usize))
    ensures
        r.1 <= text@.len(),
        opt_str(r.0) == keyword_split(text@, settings@).0,
        text@.skip(r.1 as int) == keyword_split(text@, settings@).1,
{
    let sp = find_char_from(text, 0, ' ');
    assert(text@.skip(0) =~= text@);
    if sp < text.len() {
        let word = string_of(vstd::slice::slice_subrange(text, 0, sp));
        assert(text@.subrange(0, sp as int) =~= text@.take(sp as int));
        if settings.is_keyword(word.as_str()) {
            let after = vstd::slice::slice_subrange(text, sp, text.len());
            let i = trim_start_index(after);
            assert(after@ =~= text@.skip(sp as int));
            assert(after@.skip(i as int) =~= text@.skip(sp + i));
            return (Some(word), sp + i);
        }
        assert(text@.skip(0) =~= text@);
        (None, 0)
    } else {
        let word = string_of(text);
        if settings.is_keyword(word.as_str()) {
            assert(text@.skip(text@.len() as int) =~= Seq::<char>::empty());
            (Some(word), text.len())
        } else {
            (None, 0)
        }
    }
}

/// The priority of `text` and where the rest of `text` starts.
fn priority_split_exec(text: &[char]) -> (r: (Option<char>, usize))
    ensures
        r.1 <= text@.len(),
        r.0 == priority_split(text@).0,
        text@.skip(r.1 as int) == priority_split(text@).1,
{
    if text.len() >= 4 && text[0] == '[' && text[1] == '#' && text[3] == ']' && 'A' <= text[2]
        && text[2] <= 'Z' {
        let after = vstd::slice::slice_subrange(text, 4, text.len());
        let i = trim_start_index(after);
        assert(after@ =~= text@.skip(4));
        assert(after@.skip(i as int) =~= text@.skip(4 + i));
        (Some(text[2]), 4 + i)
    } else {
        assert(text@.skip(0) =~= text@);
        (None, 0)
    }
}

/// Whether every part is a valid tag.
fn all_valid_tags_exec(parts: &Vec<Vec<char>>) -> (b: bool)
    ensures
        b == all_valid_tags(seqs_of(parts@)),
{
    let mut i: usize = 0;
    while i < parts.len()
        invariant
            i <= parts@.len(),
            forall|k: int| 0 <= k < i ==> is_valid_tag(#[trigger] seqs_of(parts@)[k]),
        decreases parts.len() - i,
    {
        let p = &parts[i];
        assert(seqs_of(parts@)[i as int] == p@);
        if p.len() == 0 {
            return false;
        }
        let mut j: usize = 0;
        while j < p.len()
            invariant
                i < parts@.len(),
                seqs_of(parts@)[i as int] == p@,
                j <= p@.len(),
                forall|k: int| 0 <= k < j ==> is_tag_char(#[trigger] p@[k]),
            decreases p.len() - j,
        {
            let c = p[j];
            if !(is_alphanumeric(c) || c == '_' || c == '@' || c == '#' || c == '%') {
                assert(!is_tag_char(p@[j as int]));
                return false;
            }
            j += 1;
        }
        assert(is_valid_tag(seqs_of(parts@)[i as int]));
        i += 1;
    }
    true
}

/// The strings of a vector of character vectors.
fn strings_of(v: &Vec<Vec<char>>) -> (r: Vec<String>)
    ensures
        strs_of(r@) == seqs_of(v@),
{
    let mut r: Vec<String> = Vec::new();
    let mut i: usize = 0;
    while i < v.len()
        invariant
            i <= v@.len(),
            r@.len() == i,
            strs_of(r@) == seqs_of(v@).take(i as int),
        decreases v.len() - i,
    {
        let ghost prev = r@;
        r.push(string_of(v[i].as_slice()));
        assert forall|k: int| 0 <= k < i + 1 implies #[trigger] strs_of(r@)[k] == seqs_of(v@).take(i + 1)[k] by {
            if k < i {
                assert(r@[k] == prev[k]);
                assert(strs_of(prev)[k] == seqs_of(v@).take(i as int)[k]);
            }
        }
        assert(strs_of(r@) =~= seqs_of(v@).take(i + 1));
        i += 1;
    }
    assert(seqs_of(v@).take(i as int) =~= seqs_of(v@));
    r
}

/// Executable `tags_split`.
fn tags_split_exec(text: &[char]) -> (r: (String, Vec<String>))
    ensures
        r.0@ == tags_split(text@).0,
        strs_of(r.1@) == tags_split(text@).1,
{
    let found = rfind_pair_exec(text, ' ', ':');
    match found {
        Some(idx) => {
            assert(idx + 1 < text@.len());
            assert(text@.len() == text.len());
            let after = vstd::slice::slice_subrange(text, idx + 1, text.len());
            let cand = trim_end_chars(after);
            assert(after@ =~= text@.skip(idx + 1));
            if cand.len() > 2 && cand[0] == ':' && cand[cand.len() - 1] == ':' {
                let inner = vstd::slice::slice_subrange(cand, 1, cand.len() - 1);
                let parts = split_chars(inner, ':');
                if all_valid_tags_exec(&parts) {
                    let head = vstd::slice::slice_subrange(text, 0, idx);
                    let title = trim_end_chars(head);
                    assert(head@ =~= text@.take(idx as int));
                    return (string_of(title), strings_of(&parts));
                }
            }
            (string_of(text), Vec::new())
        },
        None => (string_of(text), Vec::new()),
    }
}

/// Parse a headline into (level, keyword, priority, title, tags).
fn headline_parts_exec(line: &[char], settings: &Settings) -> (r: (
    usize,
    Option<String>,
    Option<char>,
    String,
    Vec<String>,
))
    ensures
        (r.0, opt_str(r.1), r.2, r.3@, strs_of(r.4@)) == headline_parts(line@, settings@),
{
    let stars = star_count_exec(line);
    let after = vstd::slice::slice_subrange(line, stars, line.len());
    assert(after@ =~= line@.skip(stars as int));
    let rest = trim_chars(after);
    let (keyword, k) = keyword_split_exec(rest, settings);
    let rest2 = vstd::slice::slice_subrange(rest, k, rest.len());
    assert(rest2@ =~= rest@.skip(k as int));
    let (priority, rest3) = if keyword.is_some() {
        let (p, j) = priority_split_exec(rest2);
        let r3 = vstd::slice::slice_subrange(rest2, j, rest2.len());
        assert(r3@ =~= rest2@.skip(j as int));
        (p, r3)
    } else {
        (None, rest2)
    };
    let (title, tags) = tags_split_exec(rest3);
    (stars, keyword, priority, title, tags)
}

/// Parse a headline into (level, keyword, priority, title, tags).
pub fn parse_headline(line: &str, settings: &Settings) -> (r: (
    usize,
    Option<String>,
    Option<char>,
    String,
    Vec<String>,
))
    ensures
        (r.0, opt_str(r.1), r.2, r.3@, strs_of(r.4@)) == headline_parts(line@, settings@),
{
    let cs = chars_of(line);
    headline_parts_exec(cs.as_slice(), settings)
}

/// Split a leading TODO keyword off `text`.
pub fn extract_keyword<'a>(text: &'a str, settings: &Settings) -> (r: (Option<String>, &'a str))
    ensures
        (opt_str(r.0), r.1@) == keyword_split(text@, settings@),
{
    let cs = chars_of(text);
    let (kw, k) = keyword_split_exec(cs.as_slice(), settings);
    let rest = text.substring_char(k, cs.len());
    assert(rest@ =~= text@.skip(k as int));
    (kw, rest)
}

/// Split a leading priority cookie off `text`.
pub fn extract_priority(text: &str) -> (r: (Option<char>, &str))
    ensures
        (r.0, r.1@) == priority_split(text@),
{
    let cs = chars_of(text);
    let (p, k) = priority_split_exec(cs.as_slice());
    let rest = text.substring_char(k, cs.len());
    assert(rest@ =~= text@.skip(k as int));
    (p, rest)
}

/// Split trailing tags off `text`, returning (title, tags).
pub fn extract_tags(text: &str) -> (r: (String, Vec<String>))
    ensures
        (r.0@, strs_of(r.1@)) == tags_split(text@),
{
    let cs = chars_of(text);
    tags_split_exec(cs.as_slice())
}


// ---------------------------------------------------------------------------
// Heading content: planning line, property drawer, body
// ---------------------------------------------------------------------------

/// Whether `l`, without leading whitespace, starts with `SCHEDULED:`,
/// `DEADLINE:` or `CLOSED:`.
pub open spec fn is_planning(l: Seq<char>) -> bool {
    let t = trim_start(l);
    starts_with(t, "SCHEDULED:"@) || starts_with(t, "DEADLINE:"@) || starts_with(t, "CLOSED:"@)
}

/// Executable `is_planning`.
fn is_planning_chars(l: &[char]) -> (b: bool)
    ensures
        b == is_planning(l@),
{
    let i = trim_start_index(l);
    let t = vstd::slice::slice_subrange(l, i, l.len());
    assert(t@ =~= l@.skip(i as int));
    let s = chars_of("SCHEDULED:");
    let d = chars_of("DEADLINE:");
    let c = chars_of("CLOSED:");
    starts_with_chars(t, s.as_slice()) || starts_with_chars(t, d.as_slice()) || starts_with_chars(
        t,
        c.as_slice(),
    )
}

/// Whether `line` is a planning line (SCHEDULED / DEADLINE / CLOSED).
pub fn is_planning_line(line: &str) -> (b: bool)
    ensures
        b == is_planning(line@),
{
    let cs = chars_of(line);
    is_planning_chars(cs.as_slice())
}

/// The property of a drawer line `:KEY: value`: the line trimmed, a colon,
/// a non-empty key up to the next colon, and the trimmed rest as value.
pub open spec fn property_of(l: Seq<char>) -> Option<(Seq<char>, Seq<char>)> {
    let t = trim(l);
    if t.len() > 0 && t[0] == ':' {
        let rest = t.drop_first();
        let c = find_char(rest, ':');
        if 0 < c < rest.len() {
            Some((rest.take(c), trim(rest.skip(c + 1))))
        } else {
            None
        }
    } else {
        None
    }
}

/// Executable `property_of`.
fn property_of_chars(l: &[char]) -> (r: Option<(String, String)>)
    ensures
        r matches Some(p) ==> property_of(l@) == Some((p.0@, p.1@)),
        r is None ==> property_of(l@) is None,
{
    let t = trim_chars(l);
    if t.len() == 0 || t[0] != ':' {
        return None;
    }
    let rest = vstd::slice::slice_subrange(t, 1, t.len());
    assert(rest@ =~= t@.drop_first());
    let c = find_char_from(rest, 0, ':');
    assert(rest@.skip(0) =~= rest@);
    if c == 0 || c == rest.len() {
        return None;
    }
    let key = vstd::slice::slice_subrange(rest, 0, c);
    let after = vstd::slice::slice_subrange(rest, c + 1, rest.len());
    let value = trim_chars(after);
    assert(key@ =~= rest@.take(c as int));
    assert(after@ =~= rest@.skip(c + 1));
    Some((string_of(key), string_of(value)))
}

/// Parse one line of a property drawer.
pub fn parse_property_line(line: &str) -> (r: Option<(String, String)>)
    ensures
        r matches Some(p) ==> property_of(line@) == Some((p.0@, p.1@)),
        r is None ==> property_of(line@) is None,
{
    let cs = chars_of(line);
    property_of_chars(cs.as_slice())
}

/// The properties of the drawer lines `ls`, in order; lines that are not
/// properties are skipped.
pub open spec fn properties_of(ls: Seq<Seq<char>>) -> Seq<(Seq<char>, Seq<char>)> {
    ls.filter_map(|l: Seq<char>| property_of(l))
}

/// Index of the first line of `ls` at or after `from` that trims to
/// `:END:`, or `ls.len()`.
pub open spec fn drawer_end(ls: Seq<Seq<char>>, from: int) -> int
    decreases ls.len() - from,
{
    if from >= ls.len() {
        ls.len() as int
    } else if trim(ls[from]) == ":END:"@ {
        from
    } else {
        drawer_end(ls, from + 1)
    }
}

/// Where the content of a heading's section ends its planning line and
/// property drawer: (planning, properties, index of the first body line).
pub open spec fn content_head(ls: Seq<Seq<char>>) -> (Option<Seq<char>>, Seq<(Seq<char>, Seq<char>)>, int) {
    let has_plan = ls.len() > 0 && is_planning(ls[0]);
    let i0: int = if has_plan { 1 } else { 0 };
    let planning = if has_plan { Some(ls[0]) } else { None };
    if i0 < ls.len() && trim(ls[i0]) == ":PROPERTIES:"@ {
        let e = drawer_end(ls, i0 + 1);
        (planning, properties_of(ls.subrange(i0 + 1, e)), if e < ls.len() { e + 1 } else { e })
    } else {
        (planning, seq![], i0)
    }
}

/// The content lines of a section split into (planning line, properties,
/// body): a planning line first, then a drawer from `:PROPERTIES:` to
/// `:END:` (or to the end), then the body: every remaining line followed by
/// `\n`.
pub open spec fn content_parts(ls: Seq<Seq<char>>) -> (Option<Seq<char>>, Seq<(Seq<char>, Seq<char>)>, Seq<char>) {
    let (planning, props, b) = content_head(ls);
    (planning, props, unlines(ls.skip(b)))
}

/// The `String` holding `unlines(ls[from..])`.
fn unlines_from(ls: &[Vec<char>], from: usize) -> (r: String)
    requires
        from <= ls@.len(),
    ensures
        r@ == unlines(seqs_of(ls@).skip(from as int)),
{
    let mut out = String::new();
    let mut i = from;
    while i < ls.len()
        invariant
            from <= i <= ls@.len(),
            out@ == unlines(seqs_of(ls@).subrange(from as int, i as int)),
        decreases ls.len() - i,
    {
        push_chars(&mut out, ls[i].as_slice());
        push_char(&mut out, '\n');
        assert(seqs_of(ls@).subrange(from as int, i + 1).drop_last() =~= seqs_of(ls@).subrange(
            from as int,
            i as int,
        ));
        i += 1;
    }
    assert(seqs_of(ls@).subrange(from as int, i as int) =~= seqs_of(ls@).skip(from as int));
    out
}

/// Whether the line trims to exactly `word`.
fn trims_to(l: &[char], word: &str) -> (b: bool)
    ensures
        b == (trim(l@) == word@),
{
    let t = trim_chars(l);
    let w = chars_of(word);
    crate::text::chars_eq(t, w.as_slice())
}

pub proof fn lemma_drawer_end_step(ls: Seq<Seq<char>>, from: int, j: int)
    requires
        0 <= from <= j <= ls.len(),
        forall|k: int| from <= k < j ==> trim(#[trigger] ls[k]) != ":END:"@,
        j == ls.len() || trim(ls[j]) == ":END:"@,
    ensures
        drawer_end(ls, from) == j,
    decreases j - from,
{
    if from < j {
        lemma_drawer_end_step(ls, from + 1, j);
    }
}

/// Executable `content_parts` on the lines `ls`.
fn content_parts_exec(ls: &[Vec<char>]) -> (r: (Option<String>, Vec<(String, String)>, String))
    ensures
        (opt_str(r.0), pairs_of(r.1@), r.2@) == content_parts(seqs_of(ls@)),
{
    let ghost sl = seqs_of(ls@);
    let mut idx: usize = 0;
    let planning = if ls.len() > 0 && is_planning_chars(ls[0].as_slice()) {
        idx = 1;
        Some(string_of(ls[0].as_slice()))
    } else {
        None
    };
    let mut properties: Vec<(String, String)> = Vec::new();
    if idx < ls.len() && trims_to(ls[idx].as_slice(), ":PROPERTIES:") {
        idx += 1;
        let start = idx;
        while idx < ls.len() && !trims_to(ls[idx].as_slice(), ":END:")
            invariant
                sl == seqs_of(ls@),
                start <= idx <= ls@.len(),
                forall|k: int| start <= k < idx ==> trim(#[trigger] sl[k]) != ":END:"@,
                pairs_of(properties@) == properties_of(sl.subrange(start as int, idx as int)),
            decreases ls.len() - idx,
        {
            let ghost before = properties@;
            let p = property_of_chars(ls[idx].as_slice());
            match p {
                Some(kv) => {
                    properties.push(kv);
                },
                None => {},
            }
            assert(sl.subrange(start as int, idx + 1).drop_last() =~= sl.subrange(start as int, idx as int));
            assert(pairs_of(properties@) =~= properties_of(sl.subrange(start as int, idx + 1)));
            idx += 1;
        }
        proof {
            lemma_drawer_end_step(sl, start as int, idx as int);
        }
        if idx < ls.len() {
            idx += 1;
        }
    }
    let body = unlines_from(ls, idx);
    (planning, properties, body)
}

/// Parse the content lines of a heading into (planning, properties, body).
pub fn parse_content(lines: &[&str]) -> (r: (Option<String>, Vec<(String, String)>, String))
    ensures
        (opt_str(r.0), pairs_of(r.1@), r.2@) == content_parts(strs_of_refs(lines@)),
{
    let mut ls: Vec<Vec<char>> = Vec::new();
    let mut i: usize = 0;
    while i < lines.len()
        invariant
            i <= lines@.len(),
            ls@.len() == i,
            seqs_of(ls@) == strs_of_refs(lines@).take(i as int),
        decreases lines.len() - i,
    {
        let ghost prev = ls@;
        ls.push(chars_of(lines[i]));
        assert forall|k: int| 0 <= k < i + 1 implies #[trigger] seqs_of(ls@)[k] == strs_of_refs(lines@).take(i + 1)[k] by {
            if k < i {
                assert(ls@[k] == prev[k]);
                assert(seqs_of(prev)[k] == strs_of_refs(lines@).take(i as int)[k]);
            }
        }
        assert(seqs_of(ls@) =~= strs_of_refs(lines@).take(i + 1));
        i += 1;
    }
    assert(strs_of_refs(lines@).take(i as int) =~= strs_of_refs(lines@));
    content_parts_exec(ls.as_slice())
}


// ---------------------------------------------------------------------------
// Settings (#+TODO: lines)
// ---------------------------------------------------------------------------

/// `s` without the prefix `p`, if it has it.
pub open spec fn strip_prefix(s: Seq<char>, p: Seq<char>) -> Option<Seq<char>> {
    if starts_with(s, p) {
        Some(s.skip(p.len() as int))
    } else {
        None
    }
}

/// The text after `#+TODO:`, `#+SEQ_TODO:` or `#+TYP_TODO:` on a trimmed
/// preamble line.
pub open spec fn todo_directive(line: Seq<char>) -> Option<Seq<char>> {
    let t = trim(line);
    if strip_prefix(t, "#+TODO:"@) is Some {
        strip_prefix(t, "#+TODO:"@)
    } else if strip_prefix(t, "#+SEQ_TODO:"@) is Some {
        strip_prefix(t, "#+SEQ_TODO:"@)
    } else {
        strip_prefix(t, "#+TYP_TODO:"@)
    }
}

/// Whether `w` is the separator `|`.
pub open spec fn is_pipe(w: Seq<char>) -> bool {
    w == seq!['|']
}

/// Index of the first `|` word, or `ws.len()`.
pub open spec fn first_pipe(ws: Seq<Seq<char>>) -> int
    decreases ws.len(),
{
    if ws.len() == 0 {
        0
    } else if is_pipe(ws[0]) {
        0
    } else {
        1 + first_pipe(ws.drop_first())
    }
}

proof fn lemma_first_pipe(ws: Seq<Seq<char>>, j: int)
    requires
        0 <= j <= ws.len(),
        forall|k: int| 0 <= k < j ==> !is_pipe(#[trigger] ws[k]),
        j == ws.len() || is_pipe(ws[j]),
    ensures
        first_pipe(ws) == j,
    decreases j,
{
    if j > 0 {
        assert forall|k: int| 0 <= k < j - 1 implies !is_pipe(#[trigger] ws.drop_first()[k]) by {
            assert(ws.drop_first()[k] == ws[k + 1]);
        }
        lemma_first_pipe(ws.drop_first(), j - 1);
    }
}

/// `Some(w)` unless `w` is `|`.
pub open spec fn unless_pipe(w: Seq<char>) -> Option<Seq<char>> {
    if is_pipe(w) {
        None
    } else {
        Some(w)
    }
}

/// The active keywords of one directive: the words before the first `|`.
pub open spec fn directive_todo(ws: Seq<Seq<char>>) -> Seq<Seq<char>> {
    ws.take(first_pipe(ws))
}

/// The done keywords of one directive: the words after the first `|`,
/// other `|` left out.
pub open spec fn directive_done(ws: Seq<Seq<char>>) -> Seq<Seq<char>> {
    if first_pipe(ws) < ws.len() {
        ws.skip(first_pipe(ws) + 1).filter_map(|w: Seq<char>| unless_pipe(w))
    } else {
        seq![]
    }
}

/// Over the lines `ls`: whether any is a TODO directive, and the active and
/// done keywords of all directives in order.
pub open spec fn directives(ls: Seq<Seq<char>>) -> (bool, Seq<Seq<char>>, Seq<Seq<char>>)
    decreases ls.len(),
{
    if ls.len() == 0 {
        (false, seq![], seq![])
    } else {
        let (found, todo, done) = directives(ls.drop_last());
        match todo_directive(ls.last()) {
            Some(rest) => (
                true,
                todo + directive_todo(words(trim(rest))),
                done + directive_done(words(trim(rest))),
            ),
            None => (found, todo, done),
        }
    }
}

/// The keyword settings declared by a preamble: the keywords of all
/// `#+TODO:`-style lines, or the defaults when there are none.
pub open spec fn settings_of(preamble: Seq<char>) -> SettingsModel {
    let (found, todo, done) = directives(lines(preamble));
    if found {
        SettingsModel { todo, done }
    } else {
        default_settings()
    }
}

/// Executable `strip_prefix`, as the index where the rest starts.
fn strip_prefix_chars(s: &[char], p: &str) -> (r: Option<usize>)
    ensures
        r matches Some(i) ==> i <= s@.len() && strip_prefix(s@, p@) == Some(s@.skip(i as int)),
        r is None ==> strip_prefix(s@, p@) is None,
{
    let pc = chars_of(p);
    if starts_with_chars(s, pc.as_slice()) {
        Some(pc.len())
    } else {
        None
    }
}

/// Appends the keywords of one directive's words to `todo` and `done`.
fn push_directive_words(ws: &Vec<Vec<char>>, todo: &mut Vec<String>, done: &mut Vec<String>)
    ensures
        strs_of(final(todo)@) == strs_of(old(todo)@) + directive_todo(seqs_of(ws@)),
        strs_of(final(done)@) == strs_of(old(done)@) + directive_done(seqs_of(ws@)),
{
    let ghost w = seqs_of(ws@);
    let mut after_pipe = false;
    let mut i: usize = 0;
    let ghost mut p: int = 0;
    while i < ws.len()
        invariant
            w == seqs_of(ws@),
            i <= ws@.len(),
            !after_pipe ==> forall|k: int| 0 <= k < i ==> !is_pipe(#[trigger] w[k]),
            !after_pipe ==> strs_of(todo@) == strs_of(old(todo)@) + w.take(i as int),
            !after_pipe ==> done@ == old(done)@,
            after_pipe ==> 0 <= p < i && first_pipe(w) == p,
            after_pipe ==> strs_of(todo@) == strs_of(old(todo)@) + w.take(p),
            after_pipe ==> strs_of(done@) == strs_of(old(done)@) + w.subrange(p + 1, i as int).filter_map(
                |x: Seq<char>| unless_pipe(x),
            ),
        decreases ws.len() - i,
    {
        let word = &ws[i];
        assert(w[i as int] == word@);
        let is_bar = word.len() == 1 && word[0] == '|';
        assert(is_bar == is_pipe(word@)) by {
            if word@.len() == 1 && word@[0] == '|' {
                assert(word@ =~= seq!['|']);
            }
        }
        let ghost before_todo = todo@;
        let ghost before_done = done@;
        if is_bar {
            if !after_pipe {
                proof {
                    lemma_first_pipe(w, i as int);
                    p = i as int;
                    assert(w.subrange(p + 1, i + 1) =~= Seq::<Seq<char>>::empty());
                }
                after_pipe = true;
            } else {
                assert(w.subrange(p + 1, i + 1).drop_last() =~= w.subrange(p + 1, i as int));
            }
        } else if after_pipe {
            done.push(string_of(word.as_slice()));
            assert(w.subrange(p + 1, i + 1).drop_last() =~= w.subrange(p + 1, i as int));
            assert(strs_of(done@) =~= strs_of(before_done).push(word@));
        } else {
            todo.push(string_of(word.as_slice()));
            assert(strs_of(todo@) =~= strs_of(before_todo).push(word@));
            assert(w.take(i + 1) =~= w.take(i as int).push(word@));
        }
        i += 1;
    }
    proof {
        if !after_pipe {
            lemma_first_pipe(w, w.len() as int);
            assert(w.take(i as int) =~= w);
        } else {
            assert(w.subrange(p + 1, i as int) =~= w.skip(p + 1));
        }
    }
}

/// Executable `settings_of`.
fn settings_of_chars(preamble: &[char]) -> (r: Settings)
    ensures
        r@ == settings_of(preamble@),
{
    let ls = lines_chars(preamble);
    let ghost sl = seqs_of(ls@);
    let mut todo: Vec<String> = Vec::new();
    let mut done: Vec<String> = Vec::new();
    let mut found = false;
    let mut i: usize = 0;
    while i < ls.len()
        invariant
            sl == seqs_of(ls@),
            i <= ls@.len(),
            directives(sl.take(i as int)) == (found, strs_of(todo@), strs_of(done@)),
        decreases ls.len() - i,
    {
        assert(sl.take(i + 1).drop_last() =~= sl.take(i as int));
        assert(sl.take(i + 1).last() == ls@[i as int]@);
        let t = trim_chars(ls[i].as_slice());
        let mut rest_start = strip_prefix_chars(t, "#+TODO:");
        if rest_start.is_none() {
            rest_start = strip_prefix_chars(t, "#+SEQ_TODO:");
        }
        if rest_start.is_none() {
            rest_start = strip_prefix_chars(t, "#+TYP_TODO:");
        }
        match rest_start {
            Some(k) => {
                found = true;
                let rest = vstd::slice::slice_subrange(t, k, t.len());
                assert(rest@ =~= t@.skip(k as int));
                let trimmed = trim_chars(rest);
                let ws = words_chars(trimmed);
                push_directive_words(&ws, &mut todo, &mut done);
            },
            None => {},
        }
        i += 1;
    }
    assert(sl.take(i as int) =~= sl);
    if found {
        Settings { todo_keywords: todo, done_keywords: done }
    } else {
        Settings::default()
    }
}

/// Parse the keyword settings declared in a preamble.
pub fn parse_settings(preamble: &str) -> (r: Settings)
    ensures
        r@ == settings_of(preamble@),
{
    let cs = chars_of(preamble);
    settings_of_chars(cs.as_slice())
}


// ---------------------------------------------------------------------------
// Sections and the heading tree
// ---------------------------------------------------------------------------

/// Index of the first headline of `ls` at or after `from`, or `ls.len()`.
pub open spec fn next_headline(ls: Seq<Seq<char>>, from: int) -> int
    decreases ls.len() - from,
{
    if from >= ls.len() {
        ls.len() as int
    } else if is_headline(ls[from]) {
        from
    } else {
        next_headline(ls, from + 1)
    }
}

pub proof fn lemma_next_headline(ls: Seq<Seq<char>>, from: int, j: int)
    requires
        0 <= from <= j <= ls.len(),
        forall|k: int| from <= k < j ==> !is_headline(#[trigger] ls[k]),
        j == ls.len() || is_headline(ls[j]),
    ensures
        next_headline(ls, from) == j,
    decreases j - from,
{
    if from < j {
        lemma_next_headline(ls, from + 1, j);
    }
}

pub proof fn lemma_next_headline_bounds(ls: Seq<Seq<char>>, from: int)
    requires
        0 <= from <= ls.len(),
    ensures
        from <= next_headline(ls, from) <= ls.len(),
    decreases ls.len() - from,
{
    if from < ls.len() {
        lemma_next_headline_bounds(ls, from + 1);
    }
}

/// The heading (without children) of a headline and its content lines.
pub open spec fn section_model(headline: Seq<char>, content: Seq<Seq<char>>, st: SettingsModel) -> HeadingModel {
    let (level, keyword, priority, title, tags) = headline_parts(headline, st);
    let (planning, properties, body) = content_parts(content);
    HeadingModel {
        level,
        keyword,
        priority,
        title,
        tags,
        planning,
        properties,
        body,
        children: seq![],
    }
}

/// The sections of `ls` from line `i` on: each headline with the lines up
/// to the next headline.
pub open spec fn sections_from(ls: Seq<Seq<char>>, i: int, st: SettingsModel) -> Seq<HeadingModel>
    decreases ls.len() - i,
{
    if i < 0 || i >= ls.len() {
        seq![]
    } else {
        let j = next_headline(ls, i + 1);
        proof {
            lemma_next_headline_bounds(ls, i + 1);
        }
        seq![section_model(ls[i], ls.subrange(i + 1, j), st)] + sections_from(ls, j, st)
    }
}

/// Index of the first heading of `fs` at or after `j` whose level is at
/// most `level`, or `fs.len()`.
pub open spec fn next_le(fs: Seq<HeadingModel>, j: int, level: usize) -> int
    decreases fs.len() - j,
{
    if j >= fs.len() {
        fs.len() as int
    } else if fs[j].level <= level {
        j
    } else {
        next_le(fs, j + 1, level)
    }
}

pub proof fn lemma_next_le_bounds(fs: Seq<HeadingModel>, j: int, level: usize)
    requires
        0 <= j <= fs.len(),
    ensures
        j <= next_le(fs, j, level) <= fs.len(),
    decreases fs.len() - j,
{
    if j < fs.len() {
        lemma_next_le_bounds(fs, j + 1, level);
    }
}

pub proof fn lemma_next_le(fs: Seq<HeadingModel>, j: int, level: usize, e: int, b: int)
    requires
        0 <= j <= e <= b <= fs.len(),
        forall|k: int| j <= k < e ==> #[trigger] fs[k].level > level,
        e == b || fs[e].level <= level,
    ensures
        (if next_le(fs, j, level) < b { next_le(fs, j, level) } else { b }) == e,
    decreases e - j,
{
    if j < e {
        lemma_next_le(fs, j + 1, level, e, b);
    } else {
        lemma_next_le_bounds(fs, j, level);
    }
}

/// The tree of the flat headings `fs[a..b]`: each heading takes as children
/// the following headings up to the next one of the same or a lower level.
pub open spec fn forest(fs: Seq<HeadingModel>, a: int, b: int) -> Seq<HeadingModel>
    decreases b - a,
{
    if a < 0 || a >= b || b > fs.len() {
        seq![]
    } else {
        let n = next_le(fs, a + 1, fs[a].level);
        let e = if n < b { n } else { b };
        proof {
            lemma_next_le_bounds(fs, a + 1, fs[a].level);
        }
        seq![HeadingModel { children: forest(fs, a + 1, e), ..fs[a] }] + forest(fs, e, b)
    }
}

/// The document that org text `input` describes: the lines before the
/// first headline are the preamble, which declares the keyword settings;
/// each headline with the lines up to the next starts a section; the
/// sections nest by level.
pub open spec fn parse_doc(input: Seq<char>) -> DocModel {
    let ls = lines(input);
    let k = next_headline(ls, 0);
    let pre = unlines(ls.take(k));
    let st = settings_of(pre);
    let fs = sections_from(ls, k, st);
    DocModel { preamble: pre, headings: forest(fs, 0, fs.len() as int), settings: st }
}

/// The heading (without children) of a headline and its content lines.
fn parse_flat_section(headline: &[char], content: &[Vec<char>], settings: &Settings) -> (h: Heading)
    ensures
        h@ == section_model(headline@, seqs_of(content@), settings@),
{
    let (level, keyword, priority, title, tags) = headline_parts_exec(headline, settings);
    let (planning, properties, body) = content_parts_exec(content);
    let h = Heading {
        level,
        keyword,
        priority,
        title,
        tags,
        planning,
        properties,
        body,
        children: Vec::new(),
    };
    assert(headings_model(h.children@) =~= Seq::<HeadingModel>::empty());
    h
}

/// Builds the tree of the flat headings `fs[a..b]`, which `dq` holds from
/// its front.
fn build_tree(dq: &mut VecDeque<Heading>, Ghost(fs): Ghost<Seq<HeadingModel>>, a: usize, b: usize) -> (r: Vec<Heading>)
    requires
        a <= b <= fs.len(),
        headings_model(old(dq)@) == fs.skip(a as int),
        forall|k: int| 0 <= k < fs.len() ==> (#[trigger] fs[k]).children.len() == 0,
    ensures
        headings_model(final(dq)@) == fs.skip(b as int),
        headings_model(r@) == forest(fs, a as int, b as int),
    decreases b - a,
{
    broadcast use group_headings_model;

    let mut out: Vec<Heading> = Vec::new();
    let mut i = a;
    assert(forest(fs, a as int, b as int) =~= headings_model(out@) + forest(fs, i as int, b as int));
    while i < b
        invariant
            a <= i <= b <= fs.len(),
            forall|k: int| 0 <= k < fs.len() ==> (#[trigger] fs[k]).children.len() == 0,
            headings_model(dq@) == fs.skip(i as int),
            forest(fs, a as int, b as int) == headings_model(out@) + forest(fs, i as int, b as int),
        decreases b - i,
    {
        proof {
            lemma_headings_model(dq@);
            assert(fs.skip(i as int)[0] == fs[i as int]);
            assert(headings_model(dq@)[0] == heading_model(dq@[0]));
        }
        let level = dq[0].level;
        assert(level == fs[i as int].level);
        let mut e = i + 1;
        while e < b && dq[e - i].level > level
            invariant
                i < e <= b <= fs.len(),
                headings_model(dq@) == fs.skip(i as int),
                dq@.len() == fs.len() - i,
                forall|k: int| i + 1 <= k < e ==> #[trigger] fs[k].level > level,
            decreases b - e,
        {
            proof {
                lemma_headings_model(dq@);
                assert(fs.skip(i as int)[e - i] == fs[e as int]);
                assert(headings_model(dq@)[e - i] == heading_model(dq@[e - i]));
            }
            e += 1;
        }
        proof {
            if e < b {
                lemma_headings_model(dq@);
                assert(fs.skip(i as int)[e - i] == fs[e as int]);
                assert(headings_model(dq@)[e - i] == heading_model(dq@[e - i]));
            }
            lemma_next_le(fs, i + 1, level, e as int, b as int);
        }
        let ghost old_dq = dq@;
        let mut h = dq.pop_front().unwrap();
        proof {
            assert(dq@ =~= old_dq.drop_first());
            lemma_headings_model_subrange(old_dq, 1, old_dq.len() as int);
            assert(old_dq.subrange(1, old_dq.len() as int) =~= dq@);
            assert(headings_model(dq@) =~= fs.skip(i + 1));
        }
        let kids = build_tree(dq, Ghost(fs), i + 1, e);
        h.children = kids;
        let ghost prev_out = out@;
        out.push(h);
        proof {
            assert(h@ == HeadingModel { children: forest(fs, i + 1, e as int), ..fs[i as int] });
            lemma_headings_model_push(prev_out, h);
            assert(out@ == prev_out.push(h));
            assert(forest(fs, i as int, b as int) =~= seq![h@] + forest(fs, e as int, b as int));
        }
        i = e;
    }
    out
}


/// Parse an org-mode document from its text content.
pub fn parse(input: &str) -> (doc: OrgDoc)
    ensures
        doc@ == parse_doc(input@),
{
    broadcast use group_headings_model;

    let cs = chars_of(input);
    let ls = lines_chars(cs.as_slice());
    let ghost sl = seqs_of(ls@);

    // Locate the first headline line.
    let mut k: usize = 0;
    while k < ls.len() && headline_level_chars(ls[k].as_slice()).is_none()
        invariant
            sl == seqs_of(ls@),
            k <= ls@.len(),
            forall|m: int| 0 <= m < k ==> !is_headline(#[trigger] sl[m]),
        decreases ls.len() - k,
    {
        k += 1;
    }
    proof {
        lemma_next_headline(sl, 0, k as int);
    }

    // Everything before the first headline is preamble.
    let preamble = unlines_from(vstd::slice::slice_subrange(ls.as_slice(), 0, k), 0);
    proof {
        assert(seqs_of(ls@.subrange(0, k as int)).skip(0) =~= sl.take(k as int));
    }
    let pre_chars = chars_of(preamble.as_str());
    let settings = settings_of_chars(pre_chars.as_slice());

    // Split into flat sections (headline + content until next headline).
    let ghost st = settings@;
    let mut dq: VecDeque<Heading> = VecDeque::new();
    let mut i = k;
    assert(headings_model(dq@) =~= Seq::<HeadingModel>::empty());
    while i < ls.len()
        invariant
            sl == seqs_of(ls@),
            st == settings@,
            k <= i <= ls@.len(),
            sections_from(sl, k as int, st) == headings_model(dq@) + sections_from(sl, i as int, st),
            forall|m: int| 0 <= m < dq@.len() ==> (#[trigger] dq@[m]).children@.len() == 0,
        decreases ls.len() - i,
    {
        let mut j = i + 1;
        while j < ls.len() && headline_level_chars(ls[j].as_slice()).is_none()
            invariant
                sl == seqs_of(ls@),
                i < j <= ls@.len(),
                forall|m: int| i + 1 <= m < j ==> !is_headline(#[trigger] sl[m]),
            decreases ls.len() - j,
        {
            j += 1;
        }
        proof {
            lemma_next_headline(sl, i + 1, j as int);
        }
        let content = vstd::slice::slice_subrange(ls.as_slice(), i + 1, j);
        assert(seqs_of(content@) =~= sl.subrange(i + 1, j as int));
        let h = parse_flat_section(ls[i].as_slice(), content, &settings);
        let ghost prev = dq@;
        dq.push_back(h);
        proof {
            assert(dq@ == prev.push(h));
            lemma_headings_model_push(prev, h);
            assert(sections_from(sl, i as int, st) =~= seq![h@] + sections_from(sl, j as int, st));
        }
        i = j;
    }
    let ghost fs = headings_model(dq@);
    proof {
        assert(sections_from(sl, i as int, st) =~= Seq::<HeadingModel>::empty());
        assert(fs =~= sections_from(sl, k as int, st));
        assert(fs.skip(0) =~= fs);
        assert forall|m: int| 0 <= m < fs.len() implies (#[trigger] fs[m]).children.len() == 0 by {
            assert(fs[m] == heading_model(dq@[m]));
            lemma_headings_model(dq@[m].children@);
        }
    }
    let n = dq.len();
    let headings = build_tree(&mut dq, Ghost(fs), 0, n);
    OrgDoc { preamble, headings, settings }
}

// ---------------------------------------------------------------------------
// Every headline becomes a heading
// ---------------------------------------------------------------------------

/// The number of headlines among the lines `ls[from..]`.
pub open spec fn headlines_from(ls: Seq<Seq<char>>, from: int) -> nat
    decreases ls.len() - from,
{
    if from < 0 || from >= ls.len() {
        0
    } else {
        (if is_headline(ls[from]) { 1nat } else { 0nat }) + headlines_from(ls, from + 1)
    }
}

/// The next headline from `from` on lies within the lines, is a headline,
/// and no headline is skipped on the way there.
pub proof fn lemma_next_headline_props(ls: Seq<Seq<char>>, from: int)
    requires
        0 <= from <= ls.len(),
    ensures
        from <= next_headline(ls, from) <= ls.len(),
        next_headline(ls, from) < ls.len() ==> is_headline(ls[next_headline(ls, from)]),
        headlines_from(ls, from) == headlines_from(ls, next_headline(ls, from)),
    decreases ls.len() - from,
{
    if from < ls.len() && !is_headline(ls[from]) {
        lemma_next_headline_props(ls, from + 1);
    }
}

proof fn lemma_sections_count(ls: Seq<Seq<char>>, i: int, st: SettingsModel)
    requires
        0 <= i <= ls.len(),
        i < ls.len() ==> is_headline(ls[i]),
    ensures
        sections_from(ls, i, st).len() == headlines_from(ls, i),
    decreases ls.len() - i,
{
    if i < ls.len() {
        lemma_next_headline_props(ls, i + 1);
        lemma_sections_count(ls, next_headline(ls, i + 1), st);
    }
}

/// The headline lines among `ls[from..]`, in order.
pub open spec fn headline_lines(ls: Seq<Seq<char>>, from: int) -> Seq<Seq<char>>
    decreases ls.len() - from,
{
    if from < 0 || from >= ls.len() {
        seq![]
    } else if is_headline(ls[from]) {
        seq![ls[from]] + headline_lines(ls, from + 1)
    } else {
        headline_lines(ls, from + 1)
    }
}

/// Lines before the next headline hold no headline.
pub proof fn lemma_headline_lines_skip(ls: Seq<Seq<char>>, from: int)
    requires
        0 <= from <= ls.len(),
    ensures
        headline_lines(ls, from) == headline_lines(ls, next_headline(ls, from)),
    decreases ls.len() - from,
{
    if from < ls.len() && !is_headline(ls[from]) {
        lemma_headline_lines_skip(ls, from + 1);
    }
}

/// The sections from the headline at line `i` on match the headline lines
/// from there, one for one, each with that headline's level, keyword,
/// priority, title and tags.
pub proof fn lemma_sections_headlines(ls: Seq<Seq<char>>, i: int, st: SettingsModel)
    requires
        0 <= i <= ls.len(),
        i < ls.len() ==> is_headline(ls[i]),
    ensures
        sections_from(ls, i, st).len() == headline_lines(ls, i).len(),
        forall|j: int| 0 <= j < sections_from(ls, i, st).len() ==> {
            let s = #[trigger] sections_from(ls, i, st)[j];
            let l = headline_lines(ls, i)[j];
            &&& is_headline(l)
            &&& headline_parts(l, st) == (s.level, s.keyword, s.priority, s.title, s.tags)
        },
    decreases ls.len() - i,
{
    if i < ls.len() {
        lemma_next_headline_props(ls, i + 1);
        let n = next_headline(ls, i + 1);
        lemma_headline_lines_skip(ls, i + 1);
        lemma_sections_headlines(ls, n, st);
        let s = sections_from(ls, i, st);
        let h = headline_lines(ls, i);
        assert(s == seq![section_model(ls[i], ls.subrange(i + 1, n), st)] + sections_from(ls, n, st));
        assert(h == seq![ls[i]] + headline_lines(ls, n));
        assert forall|j: int| 0 <= j < s.len() implies {
            let x = #[trigger] s[j];
            let l = h[j];
            &&& is_headline(l)
            &&& headline_parts(l, st) == (x.level, x.keyword, x.priority, x.title, x.tags)
        } by {
            if j > 0 {
                assert(s[j] == sections_from(ls, n, st)[j - 1]);
                assert(h[j] == headline_lines(ls, n)[j - 1]);
            }
        }
    }
}

/// Nesting `fs[a..b]` keeps every heading.
pub proof fn lemma_forest_count(fs: Seq<HeadingModel>, a: int, b: int)
    requires
        0 <= a <= b <= fs.len(),
    ensures
        heading_count(forest(fs, a, b)) == b - a,
    decreases b - a,
{
    if a < b {
        let n = next_le(fs, a + 1, fs[a].level);
        lemma_next_le_bounds(fs, a + 1, fs[a].level);
        let e = if n < b { n } else { b };
        lemma_forest_count(fs, a + 1, e);
        lemma_forest_count(fs, e, b);
        let node = HeadingModel { children: forest(fs, a + 1, e), ..fs[a] };
        lemma_count_add(seq![node], forest(fs, e, b));
        lemma_count_one(node);
    } else {
        assert(forest(fs, a, b) =~= Seq::<HeadingModel>::empty());
    }
}

/// Every headline of the text becomes a heading: the parsed document has
/// as many headings as the text has headline lines.
pub proof fn lemma_parse_count(input: Seq<char>)
    ensures
        heading_count(parse_doc(input).headings) == headlines_from(lines(input), 0),
{
    let ls = lines(input);
    lemma_next_headline_props(ls, 0);
    let k = next_headline(ls, 0);
    let st = settings_of(unlines(ls.take(k)));
    lemma_sections_count(ls, k, st);
    let fs = sections_from(ls, k, st);
    lemma_forest_count(fs, 0, fs.len() as int);
}

} // verus!
