//! Reading back what was written: the parser gives back every document that
//! the writer can represent faithfully.

use vstd::prelude::*;
use vstd::string::*;
use crate::model::{DocModel, HeadingModel, SettingsModel, is_keyword_in, default_settings, walk_list, walk_node, heading_count, node_count};
use crate::parser::{
    all_valid_tags, content_head, content_parts, headline_parts, is_planning, is_valid_tag, keyword_split,
    forest, is_headline, star_count, drawer_end, lemma_drawer_end_step, next_headline, next_le, lemma_next_headline, lemma_next_le, lemma_next_le_bounds, lemma_star_count,
    parse_doc, priority_split, headline_lines, headline_level_of, lemma_headline_lines_skip, lemma_next_headline_props, lemma_sections_headlines, properties_of, property_of, section_model, sections_from, settings_of,
    tags_split, directives, directive_todo, directive_done, todo_directive, first_pipe, is_pipe, unless_pipe,
};
use crate::text::{
    has_char, is_ws, join, find_char, find_ws, words, lemma_find_char_bounds, lemma_find_char, lemma_join_no_char, lemma_join_nonempty, lemma_split_join, lemma_split_nonempty, lemma_trim_end_take, lemma_trim_start_skip, lines, rfind_pair, split, starts_with, strip_cr, trim, trim_end, trim_start, unlines,
};
use crate::writer::{
    heading_text, headings_text, headline_text, properties_text, property_text, section_text, stars, summary_text,
    write_doc,
};

verus! {

// ---------------------------------------------------------------------------
// Lines
// ---------------------------------------------------------------------------

/// Whether `l` survives as one line: it holds no `\n`, and no `\r` at its
/// end (which reading lines would drop).
pub open spec fn plain_line(l: Seq<char>) -> bool {
    !has_char(l, '\n') && !(l.len() > 0 && l.last() == '\r')
}

/// Whether every line of `ls` is plain.
pub open spec fn plain_lines(ls: Seq<Seq<char>>) -> bool {
    forall|i: int| 0 <= i < ls.len() ==> plain_line(#[trigger] ls[i])
}

/// Joining lines distributes over concatenation.
pub proof fn lemma_unlines_add(a: Seq<Seq<char>>, b: Seq<Seq<char>>)
    ensures
        unlines(a + b) == unlines(a) + unlines(b),
    decreases b.len(),
{
    if b.len() == 0 {
        assert(a + b =~= a);
    } else {
        lemma_unlines_add(a, b.drop_last());
        assert((a + b).drop_last() =~= a + b.drop_last());
        assert((a + b).last() == b.last());
    }
}

proof fn lemma_lines_line(l: Seq<char>, rest: Seq<char>)
    requires
        plain_line(l),
    ensures
        lines(l + seq!['\n'] + rest) == seq![l] + lines(rest),
{
    let s = l + seq!['\n'] + rest;
    assert forall|k: int| 0 <= k < l.len() implies #[trigger] s[k] != '\n' by {
        assert(s[k] == l[k]);
        if l[k] == '\n' {
            assert(has_char(l, '\n'));
        }
    }
    assert(s[l.len() as int] == '\n');
    lemma_find_char(s, '\n', l.len() as int);
    assert(s.take(l.len() as int) =~= l);
    assert(s.skip(l.len() as int + 1) =~= rest);
    assert(strip_cr(l) == l);
}

/// Reading the lines of joined plain lines, followed by more text, gives
/// those lines back first.
pub proof fn lemma_lines_unlines_add(ls: Seq<Seq<char>>, rest: Seq<char>)
    requires
        plain_lines(ls),
    ensures
        lines(unlines(ls) + rest) == ls + lines(rest),
    decreases ls.len(),
{
    if ls.len() > 0 {
        let first = seq![ls[0]];
        let tail = ls.drop_first();
        assert(first + tail =~= ls);
        lemma_unlines_add(first, tail);
        assert(unlines(first) =~= ls[0] + seq!['\n']) by {
            assert(first.drop_last() =~= Seq::<Seq<char>>::empty());
            assert(unlines(first.drop_last()) =~= Seq::<char>::empty());
            assert(first.last() == ls[0]);
        }
        assert(plain_line(ls[0]));
        assert(plain_lines(tail)) by {
            assert forall|i: int| 0 <= i < tail.len() implies plain_line(#[trigger] tail[i]) by {
                assert(tail[i] == ls[i + 1]);
            }
        }
        lemma_lines_unlines_add(tail, rest);
        assert(unlines(ls) + rest =~= ls[0] + seq!['\n'] + (unlines(tail) + rest));
        lemma_lines_line(ls[0], unlines(tail) + rest);
        assert(ls + lines(rest) =~= seq![ls[0]] + (tail + lines(rest)));
    } else {
        assert(unlines(ls) + rest =~= rest);
        assert(ls + lines(rest) =~= lines(rest));
    }
}

/// Reading the lines of joined plain lines gives them back.
pub proof fn lemma_lines_unlines(ls: Seq<Seq<char>>)
    requires
        plain_lines(ls),
    ensures
        lines(unlines(ls)) == ls,
{
    lemma_lines_unlines_add(ls, seq![]);
    assert(unlines(ls) + seq![] =~= unlines(ls));
    assert(lines(Seq::<char>::empty()) == Seq::<Seq<char>>::empty());
    assert(ls + Seq::<Seq<char>>::empty() =~= ls);
}

// ---------------------------------------------------------------------------
// The lines that the writer produces
// ---------------------------------------------------------------------------

/// The drawer line of the property `p`, without line ending.
pub open spec fn property_line(p: (Seq<char>, Seq<char>)) -> Seq<char> {
    if p.1.len() == 0 {
        seq![':'] + p.0 + seq![':']
    } else {
        seq![':'] + p.0 + seq![':', ' '] + p.1
    }
}

/// The drawer lines of `props`, none when there are no properties.
pub open spec fn drawer_lines(props: Seq<(Seq<char>, Seq<char>)>) -> Seq<Seq<char>> {
    if props.len() == 0 {
        seq![]
    } else {
        seq![":PROPERTIES:"@] + props.map_values(|p: (Seq<char>, Seq<char>)| property_line(p)) + seq![":END:"@]
    }
}

/// The lines that the writer puts below the headline of `h`.
pub open spec fn content_lines_of(h: HeadingModel) -> Seq<Seq<char>> {
    (match h.planning {
        Some(p) => seq![p],
        None => seq![],
    }) + drawer_lines(h.properties) + lines(h.body)
}

/// The lines of the section of `h`.
pub open spec fn section_lines(h: HeadingModel) -> Seq<Seq<char>> {
    seq![headline_text(h)] + content_lines_of(h)
}

proof fn lemma_unlines_one(l: Seq<char>)
    ensures
        unlines(seq![l]) == l + seq!['\n'],
{
    assert(seq![l].drop_last() =~= Seq::<Seq<char>>::empty());
    assert(unlines(Seq::<Seq<char>>::empty()) =~= Seq::<char>::empty());
    assert(unlines(seq![l]) =~= l + seq!['\n']);
}

proof fn lemma_properties_text(props: Seq<(Seq<char>, Seq<char>)>)
    ensures
        properties_text(props) == unlines(props.map_values(|p: (Seq<char>, Seq<char>)| property_line(p))),
    decreases props.len(),
{
    let m = props.map_values(|p: (Seq<char>, Seq<char>)| property_line(p));
    if props.len() > 0 {
        lemma_properties_text(props.drop_last());
        assert(m.drop_last() =~= props.drop_last().map_values(|p: (Seq<char>, Seq<char>)| property_line(p)));
        assert(m.last() == property_line(props.last()));
        assert(property_text(props.last()) =~= property_line(props.last()) + seq!['\n']);
    } else {
        assert(m =~= Seq::<Seq<char>>::empty());
    }
}

/// The text of a section is the joined lines of the section, when the body
/// is made of whole lines.
pub proof fn lemma_section_text(h: HeadingModel)
    requires
        unlines(lines(h.body)) == h.body,
    ensures
        section_text(h) == unlines(section_lines(h)),
{
    let pl: Seq<Seq<char>> = match h.planning {
        Some(p) => seq![p],
        None => seq![],
    };
    let dl = drawer_lines(h.properties);
    let bl = lines(h.body);
    assert(section_lines(h) =~= seq![headline_text(h)] + pl + dl + bl);
    lemma_unlines_add(seq![headline_text(h)] + pl + dl, bl);
    lemma_unlines_add(seq![headline_text(h)] + pl, dl);
    lemma_unlines_add(seq![headline_text(h)], pl);
    lemma_unlines_one(headline_text(h));
    match h.planning {
        Some(p) => {
            lemma_unlines_one(p);
        },
        None => {
            assert(unlines(pl) =~= Seq::<char>::empty());
        },
    }
    if h.properties.len() > 0 {
        let m = h.properties.map_values(|p: (Seq<char>, Seq<char>)| property_line(p));
        lemma_properties_text(h.properties);
        lemma_unlines_add(seq![":PROPERTIES:"@] + m, seq![":END:"@]);
        lemma_unlines_add(seq![":PROPERTIES:"@], m);
        lemma_unlines_one(":PROPERTIES:"@);
        lemma_unlines_one(":END:"@);
        reveal_strlit(":PROPERTIES:");
        reveal_strlit(":PROPERTIES:\n");
        reveal_strlit(":END:");
        reveal_strlit(":END:\n");
        assert(":PROPERTIES:\n"@ =~= ":PROPERTIES:"@ + seq!['\n']);
        assert(":END:\n"@ =~= ":END:"@ + seq!['\n']);
        assert(unlines(dl) =~= ":PROPERTIES:\n"@ + properties_text(h.properties) + ":END:\n"@);
    } else {
        assert(unlines(dl) =~= Seq::<char>::empty());
    }
    assert(section_text(h) =~= unlines(section_lines(h)));
}

// ---------------------------------------------------------------------------
// The heading tree as a flat list of sections
// ---------------------------------------------------------------------------

/// `h` without its children.
pub open spec fn bare(h: HeadingModel) -> HeadingModel {
    HeadingModel { children: seq![], ..h }
}

/// The headings of `hs` and of their subtrees in document order, each
/// without its children.
pub open spec fn flat(hs: Seq<HeadingModel>) -> Seq<HeadingModel>
    decreases hs,
{
    if hs.len() == 0 {
        seq![]
    } else {
        flat(hs.drop_last()) + flat_node(hs.last())
    }
}

/// `h` without its children, followed by the flat list of its subtree.
pub open spec fn flat_node(h: HeadingModel) -> Seq<HeadingModel>
    decreases h,
{
    seq![bare(h)] + flat(h.children)
}

/// The lines of the sections of `fs`, in order.
pub open spec fn flat_lines(fs: Seq<HeadingModel>) -> Seq<Seq<char>>
    decreases fs.len(),
{
    if fs.len() == 0 {
        seq![]
    } else {
        section_lines(fs[0]) + flat_lines(fs.drop_first())
    }
}

/// The lines of two lists of sections are the lines of each, in order.
pub proof fn lemma_flat_lines_add(a: Seq<HeadingModel>, b: Seq<HeadingModel>)
    ensures
        flat_lines(a + b) == flat_lines(a) + flat_lines(b),
    decreases a.len(),
{
    if a.len() == 0 {
        assert(a + b =~= b);
        assert(flat_lines(a) =~= Seq::<Seq<char>>::empty());
        assert(flat_lines(a) + flat_lines(b) =~= flat_lines(b));
    } else {
        lemma_flat_lines_add(a.drop_first(), b);
        assert((a + b).drop_first() =~= a.drop_first() + b);
        assert((a + b)[0] == a[0]);
        assert(flat_lines(a + b) =~= section_lines(a[0]) + (flat_lines(a.drop_first()) + flat_lines(b)));
    }
}

/// Whether the body of `h` is made of whole lines.
pub open spec fn body_whole(h: HeadingModel) -> bool {
    unlines(lines(h.body)) == h.body
}

/// Whether every body of `fs` is made of whole lines.
pub open spec fn bodies_whole(fs: Seq<HeadingModel>) -> bool {
    forall|k: int| 0 <= k < fs.len() ==> body_whole(#[trigger] fs[k])
}

proof fn lemma_bodies_whole_split(a: Seq<HeadingModel>, b: Seq<HeadingModel>)
    requires
        bodies_whole(a + b),
    ensures
        bodies_whole(a),
        bodies_whole(b),
{
    assert forall|k: int| 0 <= k < a.len() implies body_whole(#[trigger] a[k]) by {
        assert((a + b)[k] == a[k]);
    }
    assert forall|k: int| 0 <= k < b.len() implies body_whole(#[trigger] b[k]) by {
        assert((a + b)[a.len() + k] == b[k]);
    }
}

/// The text of headings is the joined lines of their flat list of sections.
pub proof fn lemma_headings_text(hs: Seq<HeadingModel>)
    requires
        bodies_whole(flat(hs)),
    ensures
        headings_text(hs) == unlines(flat_lines(flat(hs))),
    decreases hs,
{
    if hs.len() == 0 {
        assert(flat_lines(flat(hs)) =~= Seq::<Seq<char>>::empty());
        assert(unlines(Seq::<Seq<char>>::empty()) =~= Seq::<char>::empty());
    } else {
        lemma_bodies_whole_split(flat(hs.drop_last()), flat_node(hs.last()));
        lemma_headings_text(hs.drop_last());
        lemma_heading_text(hs.last());
        lemma_flat_lines_add(flat(hs.drop_last()), flat_node(hs.last()));
        lemma_unlines_add(flat_lines(flat(hs.drop_last())), flat_lines(flat_node(hs.last())));
    }
}

/// The text of a heading and its subtree is the joined lines of its flat
/// list of sections.
pub proof fn lemma_heading_text(h: HeadingModel)
    requires
        bodies_whole(flat_node(h)),
    ensures
        heading_text(h) == unlines(flat_lines(flat_node(h))),
    decreases h,
{
    lemma_bodies_whole_split(seq![bare(h)], flat(h.children));
    assert(seq![bare(h)][0] == bare(h));
    lemma_headings_text(h.children);
    lemma_section_text(h);
    assert(section_lines(bare(h)) == section_lines(h));
    lemma_flat_lines_add(seq![bare(h)], flat(h.children));
    assert(flat_lines(seq![bare(h)]) =~= section_lines(h)) by {
        assert(seq![bare(h)].drop_first() =~= Seq::<HeadingModel>::empty());
        assert(flat_lines(seq![bare(h)].drop_first()) =~= Seq::<Seq<char>>::empty());
    }
    lemma_unlines_add(section_lines(h), flat_lines(flat(h.children)));
}

// ---------------------------------------------------------------------------
// Facts about trimming, splitting and joining
// ---------------------------------------------------------------------------

/// Whether `s` has no whitespace at either end.
pub open spec fn trimmed(s: Seq<char>) -> bool {
    s.len() == 0 || (!is_ws(s[0]) && !is_ws(s.last()))
}

/// Whether `s` holds no whitespace at all.
pub open spec fn no_ws(s: Seq<char>) -> bool {
    forall|i: int| 0 <= i < s.len() ==> !is_ws(#[trigger] s[i])
}

proof fn lemma_trim_id(s: Seq<char>)
    requires
        trimmed(s),
    ensures
        trim_start(s) == s,
        trim_end(s) == s,
        trim(s) == s,
{
}

proof fn lemma_trim_start_after_ws(w: Seq<char>, s: Seq<char>)
    requires
        forall|k: int| 0 <= k < w.len() ==> is_ws(#[trigger] w[k]),
        s.len() == 0 || !is_ws(s[0]),
    ensures
        trim_start(w + s) == s,
{
    let t = w + s;
    assert forall|k: int| 0 <= k < w.len() implies is_ws(#[trigger] t[k]) by {
        assert(t[k] == w[k]);
    }
    lemma_trim_start_skip(t, w.len() as int);
    assert(t.skip(w.len() as int) =~= s);
}

proof fn lemma_trim_end_before_ws(s: Seq<char>, w: Seq<char>)
    requires
        forall|k: int| 0 <= k < w.len() ==> is_ws(#[trigger] w[k]),
        s.len() == 0 || !is_ws(s.last()),
    ensures
        trim_end(s + w) == s,
{
    let t = s + w;
    assert forall|k: int| s.len() <= k < t.len() implies is_ws(#[trigger] t[k]) by {
        assert(t[k] == w[k - s.len()]);
    }
    lemma_trim_end_take(t, s.len() as int);
    assert(t.take(s.len() as int) =~= s);
}

proof fn lemma_rfind_pair_take(s: Seq<char>, a: char, b: char, m: int)
    requires
        2 <= m <= s.len(),
        forall|k: int| m - 1 <= k < s.len() - 1 ==> !(#[trigger] s[k] == a && s[k + 1] == b),
    ensures
        rfind_pair(s, a, b) == rfind_pair(s.take(m), a, b),
    decreases s.len(),
{
    if s.len() == m {
        assert(s.take(m) =~= s);
    } else {
        let d = s.drop_last();
        assert(!(s[s.len() - 2] == a && s[s.len() - 1] == b));
        assert forall|k: int| m - 1 <= k < d.len() - 1 implies !(#[trigger] d[k] == a && d[k + 1] == b) by {
            assert(d[k] == s[k] && d[k + 1] == s[k + 1]);
        }
        lemma_rfind_pair_take(d, a, b, m);
        assert(d.take(m) =~= s.take(m));
    }
}

// ---------------------------------------------------------------------------
// Headlines read back
// ---------------------------------------------------------------------------

/// The tags of a headline as written: ` :a:b:`, or nothing.
pub open spec fn tag_suffix(tags: Seq<Seq<char>>) -> Seq<char> {
    if tags.len() > 0 {
        seq![' ', ':'] + join(tags, seq![':']) + seq![':']
    } else {
        seq![]
    }
}

/// What a headline shows after the keyword and the priority: the title and
/// the tags.
pub open spec fn tail_text(h: HeadingModel) -> Seq<char> {
    h.title + tag_suffix(h.tags)
}

/// Whether `t` reads back as a tag: a valid tag without colons or line
/// breaks.
pub open spec fn tag_ok(t: Seq<char>) -> bool {
    is_valid_tag(t) && !has_char(t, ':') && !has_char(t, '\n')
}

/// Whether no space in `s` is followed by a colon.
pub open spec fn no_space_colon(s: Seq<char>) -> bool {
    forall|k: int| 0 <= k < s.len() - 1 ==> !(#[trigger] s[k] == ' ' && s[k + 1] == ':')
}

/// Whether the headline of `h` reads back as `h` under the keyword
/// settings `st`: a level of at least 1; a trimmed one-line title; tags that
/// read back, behind a non-empty title; no tags that the title would seem
/// to end with; a keyword of `st` without whitespace, or none and a text
/// that does not start with a keyword; a priority `A` to `Z` only after a
/// keyword, or none and a text that does not start with a cookie.
pub open spec fn headline_ok(h: HeadingModel, st: SettingsModel) -> bool {
    &&& h.level >= 1
    &&& trimmed(h.title)
    &&& !has_char(h.title, '\n')
    &&& forall|i: int| 0 <= i < h.tags.len() ==> tag_ok(#[trigger] h.tags[i])
    &&& h.tags.len() > 0 ==> no_space_colon(join(h.tags, seq![':']) + seq![':'])
    &&& h.tags.len() > 0 ==> h.title.len() > 0
    &&& h.tags.len() == 0 ==> tags_split(h.title) == (h.title, Seq::<Seq<char>>::empty())
    &&& match h.keyword {
        Some(k) => {
            &&& k.len() > 0
            &&& no_ws(k)
            &&& is_keyword_in(st, k)
            &&& match h.priority {
                Some(p) => 'A' <= p <= 'Z',
                None => priority_split(tail_text(h)) == (None::<char>, tail_text(h)),
            }
        },
        None => h.priority is None && keyword_split(tail_text(h), st) == (None::<Seq<char>>, tail_text(h)),
    }
}

proof fn lemma_tail_text(h: HeadingModel, st: SettingsModel)
    requires
        headline_ok(h, st),
    ensures
        trimmed(tail_text(h)),
        tags_split(tail_text(h)) == (h.title, h.tags),
        !has_char(tail_text(h), '\n'),
{
    let t = tail_text(h);
    if h.tags.len() == 0 {
        assert(t =~= h.title);
    } else {
        let j = join(h.tags, seq![':']);
        assert forall|i: int| 0 <= i < h.tags.len() implies !has_char(#[trigger] h.tags[i], ':') by {
            assert(tag_ok(h.tags[i]));
        }
        assert forall|i: int| 0 <= i < h.tags.len() implies !has_char(#[trigger] h.tags[i], '\n') by {
            assert(tag_ok(h.tags[i]));
        }
        assert forall|i: int| 0 <= i < h.tags.len() implies (#[trigger] h.tags[i]).len() > 0 by {
            assert(tag_ok(h.tags[i]));
        }
        assert(!has_char(seq![':'], '\n'));
        lemma_join_no_char(h.tags, seq![':'], '\n');
        lemma_join_nonempty(h.tags, seq![':']);
        let n = h.title.len() as int;
        assert(t =~= h.title + seq![' ', ':'] + j + seq![':']);
        assert(t[0] == h.title[0]);
        assert(t.last() == ':');
        // The last ` :` is the one before the tags.
        assert forall|k: int| n + 1 <= k < t.len() - 1 implies !(#[trigger] t[k] == ' ' && t[k + 1] == ':') by {
            if k > n + 1 {
                let jc = j + seq![':'];
                assert(t[k] == jc[k - n - 2]);
                assert(t[k + 1] == jc[k - n - 1]);
                assert(no_space_colon(jc));
            }
        }
        lemma_rfind_pair_take(t, ' ', ':', n + 2);
        let tk = t.take(n + 2);
        assert(tk[tk.len() - 2] == ' ' && tk[tk.len() - 1] == ':');
        assert(rfind_pair(t, ' ', ':') == Some(n));
        let cand = t.skip(n + 1);
        assert(cand =~= seq![':'] + j + seq![':']);
        lemma_trim_id(cand);
        assert(cand.subrange(1, cand.len() - 1) =~= j);
        lemma_split_join(h.tags, ':');
        assert(all_valid_tags(split(j, ':'))) by {
            assert forall|i: int| 0 <= i < split(j, ':').len() implies is_valid_tag(#[trigger] split(j, ':')[i]) by {
                assert(tag_ok(h.tags[i]));
            }
        }
        assert(t.take(n) =~= h.title);
        lemma_trim_id(h.title);
        assert forall|k: int| 0 <= k < t.len() implies #[trigger] t[k] != '\n' by {
            if k < n {
                assert(t[k] == h.title[k]);
                if t[k] == '\n' {
                    assert(has_char(h.title, '\n'));
                }
            } else if n + 2 <= k < t.len() - 1 {
                assert(t[k] == j[k - n - 2]);
                if t[k] == '\n' {
                    assert(has_char(j, '\n'));
                }
            }
        }
    }
}

proof fn lemma_keyword_split_word(k: Seq<char>, r: Seq<char>, st: SettingsModel)
    requires
        k.len() > 0,
        no_ws(k),
        is_keyword_in(st, k),
        r.len() > 0,
        !is_ws(r[0]),
    ensures
        keyword_split(k + seq![' '] + r, st) == (Some(k), r),
        keyword_split(k, st) == (Some(k), Seq::<char>::empty()),
{
    let t = k + seq![' '] + r;
    assert forall|i: int| 0 <= i < k.len() implies #[trigger] t[i] != ' ' by {
        assert(t[i] == k[i]);
        assert(!is_ws(k[i]));
    }
    assert(t[k.len() as int] == ' ');
    lemma_find_char(t, ' ', k.len() as int);
    assert(t.take(k.len() as int) =~= k);
    assert(t.skip(k.len() as int) =~= seq![' '] + r);
    lemma_trim_start_after_ws(seq![' '], r);
    assert forall|i: int| 0 <= i < k.len() implies #[trigger] k[i] != ' ' by {
        assert(!is_ws(k[i]));
    }
    lemma_find_char(k, ' ', k.len() as int);
}

proof fn lemma_priority_split_cookie(p: char, r: Seq<char>)
    requires
        'A' <= p <= 'Z',
        r.len() == 0 || !is_ws(r[0]),
    ensures
        priority_split(seq!['[', '#', p, ']', ' '] + r) == (Some(p), r),
        priority_split(seq!['[', '#', p, ']']) == (Some(p), Seq::<char>::empty()),
{
    let t = seq!['[', '#', p, ']', ' '] + r;
    assert(t.skip(4) =~= seq![' '] + r);
    lemma_trim_start_after_ws(seq![' '], r);
    assert(seq!['[', '#', p, ']'].skip(4) =~= Seq::<char>::empty());
}

/// A headline that meets `headline_ok` reads back as the level, keyword,
/// priority, title and tags it was written from.
pub proof fn lemma_headline_roundtrip(h: HeadingModel, st: SettingsModel)
    requires
        headline_ok(h, st),
    ensures
        headline_parts(headline_text(h), st) == (h.level, h.keyword, h.priority, h.title, h.tags),
{
    let line = headline_text(h);
    let t = tail_text(h);
    lemma_tail_text(h, st);
    let summary = summary_text(h);
    let n = h.level as int;
    assert(line =~= stars(h.level as nat) + seq![' '] + summary);
    assert forall|k: int| 0 <= k < n implies #[trigger] line[k] == '*' by {
        assert(line[k] == stars(h.level as nat)[k]);
    }
    assert(line[n] == ' ');
    lemma_star_count(line, n);
    assert(line.skip(n) =~= seq![' '] + summary);
    let rest = trim(line.skip(n));
    match h.keyword {
        None => {
            assert(summary =~= t);
            lemma_trim_start_after_ws(seq![' '], t);
            lemma_trim_id(t);
            assert(rest == t);
        },
        Some(k) => {
            match h.priority {
                None => {
                    assert(summary =~= k + seq![' '] + t);
                    if t.len() > 0 {
                        assert(!is_ws(k[0]));
                        lemma_trim_start_after_ws(seq![' '], summary);
                        assert(summary.last() == t.last());
                        lemma_trim_id(summary);
                        assert(rest == summary);
                        lemma_keyword_split_word(k, t, st);
                    } else {
                        assert(summary =~= k + seq![' ']);
                        assert(!is_ws(k[0]));
                        lemma_trim_start_after_ws(seq![' '], summary);
                        lemma_trim_end_before_ws(k, seq![' ']);
                        assert(rest == k);
                        lemma_keyword_split_word(k, seq!['x'], st);
                        assert(t =~= Seq::<char>::empty());
                    }
                },
                Some(p) => {
                    let cookie = seq!['[', '#', p, ']'];
                    if t.len() > 0 {
                        let r = seq!['[', '#', p, ']', ' '] + t;
                        assert(summary =~= k + seq![' '] + r);
                        assert(!is_ws(k[0]));
                        lemma_trim_start_after_ws(seq![' '], summary);
                        assert(summary.last() == t.last());
                        lemma_trim_id(summary);
                        assert(rest == summary);
                        lemma_keyword_split_word(k, r, st);
                        lemma_priority_split_cookie(p, t);
                    } else {
                        assert(summary =~= k + seq![' '] + cookie + seq![' ']);
                        assert(!is_ws(k[0]));
                        lemma_trim_start_after_ws(seq![' '], summary);
                        lemma_trim_end_before_ws(k + seq![' '] + cookie, seq![' ']);
                        assert(rest == k + seq![' '] + cookie);
                        lemma_keyword_split_word(k, cookie, st);
                        lemma_priority_split_cookie(p, t);
                        assert(t =~= Seq::<char>::empty());
                    }
                },
            }
        },
    }
}

// ---------------------------------------------------------------------------
// Section content read back
// ---------------------------------------------------------------------------

/// Whether the property `p` reads back from its drawer line: a non-empty
/// one-line key without colons; a trimmed one-line value; not the line
/// that ends a drawer.
pub open spec fn property_ok(p: (Seq<char>, Seq<char>)) -> bool {
    &&& p.0.len() > 0
    &&& !has_char(p.0, ':')
    &&& !has_char(p.0, '\n')
    &&& trimmed(p.1)
    &&& !has_char(p.1, '\n')
    &&& !(p.0 == "END"@ && p.1.len() == 0)
}

/// Whether the content of `h` (planning line, drawer, body) reads back: a
/// plain planning line, properties that read back, a body of whole plain
/// lines; and, where nothing comes before it, a first body line that is
/// not taken for a planning line or the start of a drawer.
pub open spec fn content_ok(h: HeadingModel) -> bool {
    &&& h.planning matches Some(p) ==> is_planning(p) && plain_line(p)
    &&& forall|i: int| 0 <= i < h.properties.len() ==> property_ok(#[trigger] h.properties[i])
    &&& body_whole(h)
    &&& plain_lines(lines(h.body))
    &&& (h.properties.len() == 0 && lines(h.body).len() > 0) ==> {
        &&& trim(lines(h.body)[0]) != ":PROPERTIES:"@
        &&& h.planning is None ==> !is_planning(lines(h.body)[0])
    }
}

proof fn lemma_property_line(p: (Seq<char>, Seq<char>))
    requires
        property_ok(p),
    ensures
        property_of(property_line(p)) == Some(p),
        trim(property_line(p)) == property_line(p),
        trim(property_line(p)) != ":END:"@,
        plain_line(property_line(p)),
        property_line(p).len() > 0 && property_line(p)[0] == ':',
{
    let (k, v) = p;
    let line = property_line(p);
    assert(line[0] == ':');
    assert(line.last() == ':' || line.last() == v.last());
    lemma_trim_id(line);
    let rest = line.drop_first();
    assert forall|i: int| 0 <= i < k.len() implies #[trigger] rest[i] != ':' by {
        assert(rest[i] == k[i]);
        if k[i] == ':' {
            assert(has_char(k, ':'));
        }
    }
    assert(rest[k.len() as int] == ':');
    lemma_find_char(rest, ':', k.len() as int);
    assert(rest.take(k.len() as int) =~= k);
    if v.len() == 0 {
        assert(rest.skip(k.len() as int + 1) =~= Seq::<char>::empty());
    } else {
        assert(rest.skip(k.len() as int + 1) =~= seq![' '] + v);
        lemma_trim_start_after_ws(seq![' '], v);
        lemma_trim_id(v);
    }
    reveal_strlit(":END:");
    if line == ":END:"@ {
        if v.len() == 0 {
            assert(k =~= line.subrange(1, 4));
            reveal_strlit("END");
            assert(k =~= "END"@);
        } else {
            assert(line[k.len() as int + 1] == ':');
            assert(line[2] != ':');
        }
    }
    assert forall|i: int| 0 <= i < line.len() implies #[trigger] line[i] != '\n' by {
        if 1 <= i <= k.len() {
            assert(line[i] == k[i - 1]);
            if k[i - 1] == '\n' {
                assert(has_char(k, '\n'));
            }
        } else if v.len() > 0 && i >= k.len() + 3 {
            assert(line[i] == v[i - k.len() - 3]);
            if line[i] == '\n' {
                assert(has_char(v, '\n'));
            }
        }
    }
}

proof fn lemma_properties_of_lines(props: Seq<(Seq<char>, Seq<char>)>)
    requires
        forall|i: int| 0 <= i < props.len() ==> property_ok(#[trigger] props[i]),
    ensures
        properties_of(props.map_values(|p: (Seq<char>, Seq<char>)| property_line(p))) == props,
    decreases props.len(),
{
    let m = props.map_values(|p: (Seq<char>, Seq<char>)| property_line(p));
    if props.len() > 0 {
        let d = props.drop_last();
        assert forall|i: int| 0 <= i < d.len() implies property_ok(#[trigger] d[i]) by {
            assert(d[i] == props[i]);
        }
        lemma_properties_of_lines(d);
        assert(m.drop_last() =~= d.map_values(|p: (Seq<char>, Seq<char>)| property_line(p)));
        lemma_property_line(props.last());
        assert(m.last() == property_line(props.last()));
        assert(d.push(props.last()) =~= props);
    } else {
        assert(m =~= Seq::<Seq<char>>::empty());
    }
}

proof fn lemma_not_planning_colon(l: Seq<char>)
    requires
        l.len() > 0,
        l[0] == ':',
    ensures
        !is_planning(l),
{
    assert(trim_start(l) == l);
    reveal_strlit("SCHEDULED:");
    reveal_strlit("DEADLINE:");
    reveal_strlit("CLOSED:");
    assert(!starts_with(l, "SCHEDULED:"@)) by {
        if starts_with(l, "SCHEDULED:"@) {
            assert(l[0] == "SCHEDULED:"@[0]);
        }
    }
    assert(!starts_with(l, "DEADLINE:"@)) by {
        if starts_with(l, "DEADLINE:"@) {
            assert(l[0] == "DEADLINE:"@[0]);
        }
    }
    assert(!starts_with(l, "CLOSED:"@)) by {
        if starts_with(l, "CLOSED:"@) {
            assert(l[0] == "CLOSED:"@[0]);
        }
    }
}

/// The content lines of a section that meets `content_ok` read back as its
/// planning line, properties and body.
pub proof fn lemma_content_roundtrip(h: HeadingModel)
    requires
        content_ok(h),
    ensures
        content_parts(content_lines_of(h)) == (h.planning, h.properties, h.body),
{
    let ls = content_lines_of(h);
    let pl: Seq<Seq<char>> = match h.planning {
        Some(p) => seq![p],
        None => seq![],
    };
    let dl = drawer_lines(h.properties);
    let bl = lines(h.body);
    assert(ls =~= pl + dl + bl);
    let i0 = pl.len() as int;
    reveal_strlit(":PROPERTIES:");
    reveal_strlit(":END:");
    let pstart = ":PROPERTIES:"@;
    assert(pstart.len() > 0 && pstart[0] == ':');
    lemma_trim_id(pstart);
    lemma_trim_id(":END:"@);
    // The planning line.
    match h.planning {
        Some(p) => {
            assert(ls[0] == p);
        },
        None => {
            if h.properties.len() > 0 {
                assert(ls[0] == pstart);
                lemma_not_planning_colon(pstart);
            } else if bl.len() > 0 {
                assert(ls[0] == bl[0]);
            }
        },
    }
    let (planning, props, b) = content_head(ls);
    assert(planning == h.planning);
    if h.properties.len() > 0 {
        let n = h.properties.len() as int;
        let m = h.properties.map_values(|p: (Seq<char>, Seq<char>)| property_line(p));
        assert(dl =~= seq![pstart] + m + seq![":END:"@]);
        assert(ls[i0] == pstart);
        assert forall|k: int| i0 + 1 <= k < i0 + 1 + n implies trim(#[trigger] ls[k]) != ":END:"@ by {
            assert(ls[k] == m[k - i0 - 1]);
            lemma_property_line(h.properties[k - i0 - 1]);
        }
        assert(ls[i0 + 1 + n] == ":END:"@);
        lemma_drawer_end_step(ls, i0 + 1, i0 + 1 + n);
        assert(ls.subrange(i0 + 1, i0 + 1 + n) =~= m);
        lemma_properties_of_lines(h.properties);
        assert(b == i0 + 2 + n);
        assert(ls.skip(b) =~= bl);
    } else {
        assert(dl =~= Seq::<Seq<char>>::empty());
        if i0 < ls.len() {
            assert(ls[i0] == bl[0]);
        }
        assert(b == i0);
        assert(ls.skip(b) =~= bl);
    }
}

// ---------------------------------------------------------------------------
// Sections read back
// ---------------------------------------------------------------------------

/// Whether the section of `h` reads back under the keyword settings `st`:
/// its headline and its content do, and no body line is a headline.
pub open spec fn section_ok(h: HeadingModel, st: SettingsModel) -> bool {
    &&& headline_ok(h, st)
    &&& content_ok(h)
    &&& forall|i: int| 0 <= i < lines(h.body).len() ==> !is_headline(#[trigger] lines(h.body)[i])
}

proof fn lemma_planning_not_headline(l: Seq<char>)
    requires
        is_planning(l),
    ensures
        !is_headline(l),
{
    if l.len() > 0 && l[0] == '*' {
        assert(trim_start(l) == l);
        reveal_strlit("SCHEDULED:");
        reveal_strlit("DEADLINE:");
        reveal_strlit("CLOSED:");
        if starts_with(l, "SCHEDULED:"@) {
            assert(l[0] == "SCHEDULED:"@[0]);
        }
        if starts_with(l, "DEADLINE:"@) {
            assert(l[0] == "DEADLINE:"@[0]);
        }
        if starts_with(l, "CLOSED:"@) {
            assert(l[0] == "CLOSED:"@[0]);
        }
    }
}

proof fn lemma_headline_is_headline(h: HeadingModel)
    requires
        h.level >= 1,
    ensures
        is_headline(headline_text(h)),
        headline_level_of(headline_text(h)) == Some(h.level),
        star_count(headline_text(h)) == h.level,
{
    let line = headline_text(h);
    let n = h.level as int;
    assert(line =~= stars(h.level as nat) + seq![' '] + summary_text(h));
    assert forall|k: int| 0 <= k < n implies #[trigger] line[k] == '*' by {
        assert(line[k] == stars(h.level as nat)[k]);
    }
    assert(line[n] == ' ');
    lemma_star_count(line, n);
}

/// The lines of a section: a headline, then content lines that are neither
/// headlines nor broken.
proof fn lemma_section_lines(h: HeadingModel, st: SettingsModel)
    requires
        section_ok(h, st),
    ensures
        is_headline(section_lines(h)[0]),
        forall|k: int| 1 <= k < section_lines(h).len() ==> !is_headline(#[trigger] section_lines(h)[k]),
        plain_lines(section_lines(h)),
        section_lines(h).len() == 1 + content_lines_of(h).len(),
{
    let sl = section_lines(h);
    let cl = content_lines_of(h);
    lemma_headline_is_headline(h);
    let pl: Seq<Seq<char>> = match h.planning {
        Some(p) => seq![p],
        None => seq![],
    };
    let dl = drawer_lines(h.properties);
    let bl = lines(h.body);
    assert(cl =~= pl + dl + bl);
    reveal_strlit(":PROPERTIES:");
    reveal_strlit(":END:");
    let m = h.properties.map_values(|p: (Seq<char>, Seq<char>)| property_line(p));
    assert forall|k: int| 0 <= k < cl.len() implies !is_headline(#[trigger] cl[k]) && plain_line(cl[k]) by {
        if k < pl.len() {
            let p = h.planning->0;
            assert(cl[k] == p);
            lemma_planning_not_headline(p);
        } else if k < pl.len() + dl.len() {
            let d = k - pl.len();
            assert(cl[k] == dl[d]);
            if d == 0 {
                assert(dl[d] == ":PROPERTIES:"@);
                assert(!has_char(":PROPERTIES:"@, '\n'));
            } else if d <= m.len() {
                assert(dl[d] == m[d - 1]);
                lemma_property_line(h.properties[d - 1]);
            } else {
                assert(dl[d] == ":END:"@);
                assert(!has_char(":END:"@, '\n'));
            }
        } else {
            assert(cl[k] == bl[k - pl.len() - dl.len()]);
        }
    }
    // The headline is a plain line.
    let line = headline_text(h);
    lemma_tail_text(h, st);
    let t = tail_text(h);
    let n = h.level as int;
    let summary = summary_text(h);
    assert(line =~= stars(h.level as nat) + seq![' '] + summary);
    let kwp: Seq<char> = match h.keyword {
        Some(k) => k + seq![' '],
        None => seq![],
    };
    let prp: Seq<char> = match h.priority {
        Some(p) => seq!['[', '#', p, ']', ' '],
        None => seq![],
    };
    assert(summary =~= kwp + prp + t);
    assert forall|i: int| 0 <= i < line.len() implies #[trigger] line[i] != '\n' by {
        if i <= n {
        } else if i < n + 1 + kwp.len() {
            let k = h.keyword->0;
            if i < n + 1 + k.len() {
                assert(line[i] == k[i - n - 1]);
                assert(!is_ws(k[i - n - 1]));
            }
        } else if i < n + 1 + kwp.len() + prp.len() {
            let j = i - n - 1 - kwp.len();
            assert(line[i] == prp[j]);
            assert('A' <= h.priority->0 <= 'Z');
        } else {
            assert(line[i] == t[i - n - 1 - kwp.len() - prp.len()]);
            if line[i] == '\n' {
                assert(has_char(t, '\n'));
            }
        }
    }
    assert(!(line.last() == '\r')) by {
        if t.len() > 0 {
            assert(line.last() == t.last());
        } else if prp.len() > 0 {
            assert(line.last() == ' ');
        } else if kwp.len() > 0 {
            assert(line.last() == ' ');
        } else {
            assert(line.last() == ' ');
        }
    }
    assert forall|k: int| 0 <= k < sl.len() implies plain_line(#[trigger] sl[k]) by {
        if k > 0 {
            assert(sl[k] == cl[k - 1]);
        }
    }
    assert forall|k: int| 1 <= k < sl.len() implies !is_headline(#[trigger] sl[k]) by {
        assert(sl[k] == cl[k - 1]);
    }
}

/// The section of a heading that meets `section_ok`, read back from its
/// lines, is the heading without its children.
pub proof fn lemma_section_roundtrip(h: HeadingModel, st: SettingsModel)
    requires
        section_ok(h, st),
    ensures
        section_model(headline_text(h), content_lines_of(h), st) == bare(h),
{
    lemma_headline_roundtrip(h, st);
    lemma_content_roundtrip(h);
}

/// Whether every section of `fs` reads back, and none has children.
pub open spec fn sections_ok(fs: Seq<HeadingModel>, st: SettingsModel) -> bool {
    forall|k: int| 0 <= k < fs.len() ==> section_ok(#[trigger] fs[k], st) && fs[k].children.len() == 0
}

/// Reading the sections of the lines of `fs`, after any lines `xs`, gives
/// back `fs`.
pub proof fn lemma_sections_roundtrip(xs: Seq<Seq<char>>, fs: Seq<HeadingModel>, st: SettingsModel)
    requires
        sections_ok(fs, st),
    ensures
        sections_from(xs + flat_lines(fs), xs.len() as int, st) == fs,
    decreases fs.len(),
{
    let ls = xs + flat_lines(fs);
    let i = xs.len() as int;
    if fs.len() == 0 {
        assert(flat_lines(fs) =~= Seq::<Seq<char>>::empty());
        assert(ls.len() == i);
    } else {
        let f = fs[0];
        let rest = fs.drop_first();
        assert(section_ok(f, st) && f.children.len() == 0);
        assert(sections_ok(rest, st)) by {
            assert forall|k: int| 0 <= k < rest.len() implies section_ok(#[trigger] rest[k], st) && rest[k].children.len() == 0 by {
                assert(rest[k] == fs[k + 1]);
            }
        }
        let sl = section_lines(f);
        lemma_section_lines(f, st);
        let xs2 = xs + sl;
        assert(ls =~= xs2 + flat_lines(rest));
        let j = xs2.len() as int;
        assert(ls[i] == sl[0]);
        assert forall|k: int| i + 1 <= k < j implies !is_headline(#[trigger] ls[k]) by {
            assert(ls[k] == sl[k - i]);
        }
        if rest.len() > 0 {
            lemma_section_lines(rest[0], st);
            assert(flat_lines(rest) =~= section_lines(rest[0]) + flat_lines(rest.drop_first()));
            assert(ls[j] == section_lines(rest[0])[0]);
        } else {
            assert(flat_lines(rest) =~= Seq::<Seq<char>>::empty());
            assert(ls.len() == j);
        }
        lemma_next_headline(ls, i + 1, j);
        assert(ls.subrange(i + 1, j) =~= content_lines_of(f));
        lemma_section_roundtrip(f, st);
        assert(f.children =~= Seq::<HeadingModel>::empty());
        assert(bare(f) == f);
        lemma_sections_roundtrip(xs2, rest, st);
        assert(fs =~= seq![f] + rest);
    }
}

// ---------------------------------------------------------------------------
// The tree read back from its sections
// ---------------------------------------------------------------------------

/// Whether every heading of `fs` has a level above `l`.
pub open spec fn levels_above(fs: Seq<HeadingModel>, l: usize) -> bool {
    forall|k: int| 0 <= k < fs.len() ==> (#[trigger] fs[k]).level > l
}

/// Whether the tree `hs` nests as its levels say: every heading is deeper
/// than the heading it belongs to, and no sibling is deeper than the one
/// before it.
pub open spec fn tree_ok(hs: Seq<HeadingModel>) -> bool
    decreases hs,
{
    if hs.len() == 0 {
        true
    } else {
        &&& levels_above(flat(hs[0].children), hs[0].level)
        &&& tree_ok(hs[0].children)
        &&& (hs.len() > 1 ==> hs[1].level <= hs[0].level)
        &&& tree_ok(hs.drop_first())
    }
}

/// Flattening distributes over concatenation.
pub proof fn lemma_flat_add(a: Seq<HeadingModel>, b: Seq<HeadingModel>)
    ensures
        flat(a + b) == flat(a) + flat(b),
    decreases b.len(),
{
    if b.len() == 0 {
        assert(a + b =~= a);
        assert(flat(b) =~= Seq::<HeadingModel>::empty());
        assert(flat(a) + flat(b) =~= flat(a));
    } else {
        lemma_flat_add(a, b.drop_last());
        assert((a + b).drop_last() =~= a + b.drop_last());
        assert((a + b).last() == b.last());
        assert(flat(a + b) =~= flat(a) + (flat(b.drop_last()) + flat_node(b.last())));
    }
}

proof fn lemma_flat_first(hs: Seq<HeadingModel>)
    requires
        hs.len() > 0,
    ensures
        flat(hs) == seq![bare(hs[0])] + flat(hs[0].children) + flat(hs.drop_first()),
{
    assert(hs =~= seq![hs[0]] + hs.drop_first());
    lemma_flat_add(seq![hs[0]], hs.drop_first());
    assert(seq![hs[0]].drop_last() =~= Seq::<HeadingModel>::empty());
    assert(flat(Seq::<HeadingModel>::empty()) =~= Seq::<HeadingModel>::empty());
    assert(seq![hs[0]].last() == hs[0]);
    assert(flat(seq![hs[0]]) =~= flat_node(hs[0]));
}

/// Nesting the flat list of a tree that meets `tree_ok` gives the tree back.
pub proof fn lemma_forest_roundtrip(x: Seq<HeadingModel>, hs: Seq<HeadingModel>, y: Seq<HeadingModel>)
    requires
        tree_ok(hs),
    ensures
        forest(x + flat(hs) + y, x.len() as int, (x.len() + flat(hs).len()) as int) == hs,
    decreases hs,
{
    let fs = x + flat(hs) + y;
    let a = x.len() as int;
    let b = a + flat(hs).len();
    if hs.len() == 0 {
        assert(flat(hs) =~= Seq::<HeadingModel>::empty());
    } else {
        let h = hs[0];
        let c = flat(h.children);
        let rest = hs.drop_first();
        lemma_flat_first(hs);
        let e = a + 1 + c.len();
        assert(fs =~= x + seq![bare(h)] + c + flat(rest) + y);
        assert(fs[a] == bare(h));
        assert forall|k: int| a + 1 <= k < e implies #[trigger] fs[k].level > bare(h).level by {
            assert(fs[k] == c[k - a - 1]);
        }
        if rest.len() > 0 {
            lemma_flat_first(rest);
            assert(fs[e] == bare(rest[0]));
            assert(rest[0] == hs[1]);
        } else {
            assert(flat(rest) =~= Seq::<HeadingModel>::empty());
            assert(e == b);
        }
        lemma_next_le(fs, a + 1, bare(h).level, e, b);
        lemma_forest_roundtrip(x + seq![bare(h)], h.children, flat(rest) + y);
        assert(fs =~= (x + seq![bare(h)]) + c + (flat(rest) + y));
        lemma_forest_roundtrip(x + seq![bare(h)] + c, rest, y);
        assert(fs =~= (x + seq![bare(h)] + c) + flat(rest) + y);
        assert(HeadingModel { children: h.children, ..bare(h) } == h);
        assert(hs =~= seq![h] + rest);
    }
}

/// `next_le` stops at the first heading at or above `level`, passing only
/// deeper ones.
proof fn lemma_next_le_props(fs: Seq<HeadingModel>, j: int, level: usize)
    requires
        0 <= j <= fs.len(),
    ensures
        j <= next_le(fs, j, level) <= fs.len(),
        forall|k: int| j <= k < next_le(fs, j, level) ==> (#[trigger] fs[k]).level > level,
        next_le(fs, j, level) < fs.len() ==> fs[next_le(fs, j, level)].level <= level,
    decreases fs.len() - j,
{
    if j < fs.len() && fs[j].level > level {
        lemma_next_le_props(fs, j + 1, level);
    }
}

/// Flattening the tree nested from `fs[a..b]` gives those headings back,
/// without children.
pub proof fn lemma_flat_forest(fs: Seq<HeadingModel>, a: int, b: int)
    requires
        0 <= a <= b <= fs.len(),
    ensures
        flat(forest(fs, a, b)) == fs.subrange(a, b).map_values(|h: HeadingModel| bare(h)),
    decreases b - a,
{
    let m = fs.subrange(a, b).map_values(|h: HeadingModel| bare(h));
    if a < b {
        lemma_next_le_props(fs, a + 1, fs[a].level);
        let n = next_le(fs, a + 1, fs[a].level);
        let e = if n < b { n } else { b };
        lemma_flat_forest(fs, a + 1, e);
        lemma_flat_forest(fs, e, b);
        let node = HeadingModel { children: forest(fs, a + 1, e), ..fs[a] };
        let t = forest(fs, a, b);
        assert(t == seq![node] + forest(fs, e, b));
        assert(t[0] == node);
        assert(t.drop_first() =~= forest(fs, e, b));
        lemma_flat_first(t);
        assert(bare(node) == bare(fs[a]));
        assert(m =~= seq![bare(fs[a])] + fs.subrange(a + 1, e).map_values(|h: HeadingModel| bare(h))
            + fs.subrange(e, b).map_values(|h: HeadingModel| bare(h)));
    } else {
        assert(forest(fs, a, b) =~= Seq::<HeadingModel>::empty());
        assert(flat(Seq::<HeadingModel>::empty()) =~= Seq::<HeadingModel>::empty());
        assert(m =~= Seq::<HeadingModel>::empty());
    }
}

/// The tree nested from any flat list of headings nests as its levels say.
pub proof fn lemma_forest_tree_ok(fs: Seq<HeadingModel>, a: int, b: int)
    requires
        0 <= a <= b <= fs.len(),
    ensures
        tree_ok(forest(fs, a, b)),
    decreases b - a,
{
    if a < b {
        lemma_next_le_props(fs, a + 1, fs[a].level);
        let n = next_le(fs, a + 1, fs[a].level);
        let e = if n < b { n } else { b };
        lemma_forest_tree_ok(fs, a + 1, e);
        lemma_forest_tree_ok(fs, e, b);
        lemma_flat_forest(fs, a + 1, e);
        let node = HeadingModel { children: forest(fs, a + 1, e), ..fs[a] };
        let t = forest(fs, a, b);
        assert(t == seq![node] + forest(fs, e, b));
        assert(t[0] == node);
        assert(t.drop_first() =~= forest(fs, e, b));
        let c = flat(node.children);
        assert forall|k: int| 0 <= k < c.len() implies (#[trigger] c[k]).level > node.level by {
            assert(c[k] == bare(fs[a + 1 + k]));
        }
        if t.len() > 1 {
            assert(e < b);
            assert(t[1] == forest(fs, e, b)[0]);
        }
    } else {
        assert(forest(fs, a, b) =~= Seq::<HeadingModel>::empty());
    }
}

/// Every parsed document nests as its levels say: each heading is deeper
/// than the heading it belongs to, and no sibling is deeper than the one
/// before it.
pub proof fn lemma_parse_tree_ok(input: Seq<char>)
    ensures
        tree_ok(parse_doc(input).headings),
{
    let ls = lines(input);
    let k = next_headline(ls, 0);
    let st = settings_of(unlines(ls.take(k)));
    let fs = sections_from(ls, k, st);
    lemma_forest_tree_ok(fs, 0, fs.len() as int);
}

// ---------------------------------------------------------------------------
// Every headline becomes its heading
// ---------------------------------------------------------------------------

proof fn lemma_walk_list_flat(hs: Seq<HeadingModel>, p: Seq<usize>)
    ensures
        walk_list(hs, p).len() == flat(hs).len(),
        forall|k: int| 0 <= k < flat(hs).len() ==> bare(#[trigger] walk_list(hs, p)[k].1) == flat(hs)[k],
    decreases hs,
{
    if hs.len() > 0 {
        let a = p.push((hs.len() - 1) as usize);
        lemma_walk_list_flat(hs.drop_last(), p);
        lemma_walk_node_flat(hs.last(), a);
        let l = walk_list(hs.drop_last(), p);
        let r = walk_node(hs.last(), a);
        let fl = flat(hs.drop_last());
        let fr = flat_node(hs.last());
        assert(walk_list(hs, p) == l + r);
        assert(flat(hs) == fl + fr);
        assert forall|k: int| 0 <= k < flat(hs).len() implies bare(#[trigger] walk_list(hs, p)[k].1) == flat(hs)[k] by {
            if k < l.len() {
                assert(walk_list(hs, p)[k] == l[k]);
                assert(flat(hs)[k] == fl[k]);
            } else {
                assert(walk_list(hs, p)[k] == r[k - l.len()]);
                assert(flat(hs)[k] == fr[k - l.len()]);
            }
        }
    } else {
        assert(flat(hs) =~= Seq::<HeadingModel>::empty());
    }
}

proof fn lemma_walk_node_flat(h: HeadingModel, a: Seq<usize>)
    ensures
        walk_node(h, a).len() == flat_node(h).len(),
        forall|k: int| 0 <= k < flat_node(h).len() ==> bare(#[trigger] walk_node(h, a)[k].1) == flat_node(h)[k],
    decreases h,
{
    lemma_walk_list_flat(h.children, a);
    let w = walk_node(h, a);
    let f = flat_node(h);
    assert forall|k: int| 0 <= k < f.len() implies bare(#[trigger] w[k].1) == f[k] by {
        if k > 0 {
            assert(w[k] == walk_list(h.children, a)[k - 1]);
            assert(f[k] == flat(h.children)[k - 1]);
        }
    }
}

/// Each headline of the text becomes one heading, in order: the
/// depth-first walk of the parsed document lists as many headings as the
/// text has headline lines, and the j-th heading has the level (the number
/// of leading stars), keyword, priority, title and tags that the j-th
/// headline reads as under the document's settings.
pub proof fn lemma_parse_headlines(input: Seq<char>)
    ensures
        walk_list(parse_doc(input).headings, seq![]).len() == headline_lines(lines(input), 0).len(),
        forall|j: int| 0 <= j < walk_list(parse_doc(input).headings, seq![]).len() ==> {
            let h = (#[trigger] walk_list(parse_doc(input).headings, seq![])[j]).1;
            let l = headline_lines(lines(input), 0)[j];
            &&& headline_level_of(l) == Some(h.level)
            &&& headline_parts(l, parse_doc(input).settings) == (h.level, h.keyword, h.priority, h.title, h.tags)
        },
{
    let ls = lines(input);
    lemma_headline_lines_skip(ls, 0);
    lemma_next_headline_props(ls, 0);
    let k = next_headline(ls, 0);
    let d = parse_doc(input);
    let st = d.settings;
    let fs = sections_from(ls, k, st);
    lemma_sections_headlines(ls, k, st);
    lemma_flat_forest(fs, 0, fs.len() as int);
    lemma_walk_list_flat(d.headings, seq![]);
    let w = walk_list(d.headings, seq![]);
    let hl = headline_lines(ls, 0);
    assert(fs.subrange(0, fs.len() as int) =~= fs);
    assert forall|j: int| 0 <= j < w.len() implies {
        let h = (#[trigger] w[j]).1;
        let l = hl[j];
        &&& headline_level_of(l) == Some(h.level)
        &&& headline_parts(l, st) == (h.level, h.keyword, h.priority, h.title, h.tags)
    } by {
        assert(bare(w[j].1) == flat(d.headings)[j]);
        assert(flat(d.headings)[j] == bare(fs[j]));
        assert(is_headline(hl[j]));
    }
}

/// The headings of `hs` and of their subtrees in document order, each with
/// its subtree.
spec fn nodes(hs: Seq<HeadingModel>) -> Seq<HeadingModel>
    decreases hs,
{
    if hs.len() == 0 {
        seq![]
    } else {
        nodes(hs.drop_last()) + nodes_of(hs.last())
    }
}

/// `h` followed by the headings of its subtree in document order.
spec fn nodes_of(h: HeadingModel) -> Seq<HeadingModel>
    decreases h,
{
    seq![h] + nodes(h.children)
}

#[verifier::spinoff_prover]
proof fn lemma_walk_list_nodes(hs: Seq<HeadingModel>, p: Seq<usize>)
    ensures
        walk_list(hs, p).len() == nodes(hs).len(),
        nodes(hs).len() == flat(hs).len(),
        nodes(hs).len() == heading_count(hs),
        forall|k: int| 0 <= k < nodes(hs).len() ==> (#[trigger] walk_list(hs, p)[k]).1 == nodes(hs)[k],
        forall|k: int| 0 <= k < nodes(hs).len() ==> bare(#[trigger] nodes(hs)[k]) == flat(hs)[k],
    decreases hs,
{
    lemma_walk_list_flat(hs, p);
    if hs.len() > 0 {
        let a = p.push((hs.len() - 1) as usize);
        lemma_walk_list_nodes(hs.drop_last(), p);
        lemma_walk_node_nodes(hs.last(), a);
        let l = walk_list(hs.drop_last(), p);
        let r = walk_node(hs.last(), a);
        let nl = nodes(hs.drop_last());
        let nr = nodes_of(hs.last());
        let fl = flat(hs.drop_last());
        let fr = flat_node(hs.last());
        assert(walk_list(hs, p) == l + r);
        assert(nodes(hs) == nl + nr);
        assert(flat(hs) == fl + fr);
        assert forall|k: int| 0 <= k < nodes(hs).len() implies (#[trigger] walk_list(hs, p)[k]).1 == nodes(hs)[k]
            && bare(nodes(hs)[k]) == flat(hs)[k] by {
            if k < l.len() {
                assert(walk_list(hs, p)[k] == l[k]);
                assert(nodes(hs)[k] == nl[k]);
                assert(flat(hs)[k] == fl[k]);
            } else {
                assert(walk_list(hs, p)[k] == r[k - l.len()]);
                assert(nodes(hs)[k] == nr[k - l.len()]);
                assert(flat(hs)[k] == fr[k - l.len()]);
            }
        }
        assert forall|k: int| 0 <= k < nodes(hs).len() implies bare(#[trigger] nodes(hs)[k]) == flat(hs)[k] by {
            assert((walk_list(hs, p)[k]).1 == nodes(hs)[k]);
        }
    } else {
        assert(nodes(hs) =~= Seq::<HeadingModel>::empty());
    }
}

proof fn lemma_walk_node_nodes(h: HeadingModel, a: Seq<usize>)
    ensures
        walk_node(h, a).len() == nodes_of(h).len(),
        nodes_of(h).len() == node_count(h),
        forall|k: int| 0 <= k < nodes_of(h).len() ==> (#[trigger] walk_node(h, a)[k]).1 == nodes_of(h)[k],
        forall|k: int| 0 <= k < nodes_of(h).len() ==> bare(#[trigger] nodes_of(h)[k]) == flat_node(h)[k],
    decreases h,
{
    lemma_walk_list_nodes(h.children, a);
    let w = walk_node(h, a);
    let n = nodes_of(h);
    let f = flat_node(h);
    assert forall|k: int| 0 <= k < n.len() implies (#[trigger] w[k]).1 == n[k] && bare(n[k]) == f[k] by {
        if k > 0 {
            assert(w[k] == walk_list(h.children, a)[k - 1]);
            assert(n[k] == nodes(h.children)[k - 1]);
            assert(f[k] == flat(h.children)[k - 1]);
        }
    }
    assert forall|k: int| 0 <= k < n.len() implies bare(#[trigger] n[k]) == f[k] by {
        assert((w[k]).1 == n[k]);
    }
}

proof fn lemma_nodes_add(a: Seq<HeadingModel>, b: Seq<HeadingModel>)
    ensures
        nodes(a + b) == nodes(a) + nodes(b),
    decreases b.len(),
{
    if b.len() == 0 {
        assert(a + b =~= a);
        assert(nodes(b) =~= Seq::<HeadingModel>::empty());
        assert(nodes(a) + nodes(b) =~= nodes(a));
    } else {
        lemma_nodes_add(a, b.drop_last());
        assert((a + b).drop_last() =~= a + b.drop_last());
        assert((a + b).last() == b.last());
        assert(nodes(a + b) =~= nodes(a) + (nodes(b.drop_last()) + nodes_of(b.last())));
    }
}

proof fn lemma_nodes_first(hs: Seq<HeadingModel>)
    requires
        hs.len() > 0,
    ensures
        nodes(hs) == seq![hs[0]] + nodes(hs[0].children) + nodes(hs.drop_first()),
{
    assert(hs =~= seq![hs[0]] + hs.drop_first());
    lemma_nodes_add(seq![hs[0]], hs.drop_first());
    assert(seq![hs[0]].drop_last() =~= Seq::<HeadingModel>::empty());
    assert(nodes(Seq::<HeadingModel>::empty()) =~= Seq::<HeadingModel>::empty());
    assert(seq![hs[0]].last() == hs[0]);
    assert(nodes(seq![hs[0]]) =~= nodes_of(hs[0]));
}

/// Whether, in the document-order list `n` of headings with their
/// subtrees, the entries after each heading up to the end of its subtree
/// are deeper than it, and the entry that follows its subtree is not.
spec fn subtrees_in_order(n: Seq<HeadingModel>) -> bool {
    forall|j: int| 0 <= j < n.len() ==> {
        &&& j + node_count(#[trigger] n[j]) <= n.len()
        &&& forall|k: int| j < k < j + node_count(n[j]) ==> n[k].level > n[j].level
        &&& j + node_count(n[j]) < n.len() ==> n[j + node_count(n[j])].level <= n[j].level
    }
}

#[verifier::spinoff_prover]
#[verifier::rlimit(40)]
proof fn lemma_tree_ok_subtrees(hs: Seq<HeadingModel>)
    requires
        tree_ok(hs),
    ensures
        subtrees_in_order(nodes(hs)),
    decreases hs,
{
    if hs.len() > 0 {
        let h0 = hs[0];
        let rest = hs.drop_first();
        lemma_nodes_first(hs);
        lemma_tree_ok_subtrees(h0.children);
        lemma_tree_ok_subtrees(rest);
        lemma_walk_list_nodes(h0.children, seq![]);
        lemma_walk_list_nodes(rest, seq![]);
        let n = nodes(hs);
        let c = nodes(h0.children);
        let r = nodes(rest);
        assert(node_count(h0) == 1 + c.len());
        if rest.len() > 0 {
            lemma_nodes_first(rest);
            assert(r[0] == rest[0]);
            assert(rest[0] == hs[1]);
        }
        assert forall|j: int| 0 <= j < n.len() implies {
            &&& j + node_count(#[trigger] n[j]) <= n.len()
            &&& forall|k: int| j < k < j + node_count(n[j]) ==> n[k].level > n[j].level
            &&& j + node_count(n[j]) < n.len() ==> n[j + node_count(n[j])].level <= n[j].level
        } by {
            if j == 0 {
                assert(n[0] == h0);
                assert forall|k: int| 0 < k < node_count(n[0]) implies (#[trigger] n[k]).level > n[0].level by {
                    assert(n[k] == c[k - 1]);
                    assert(bare(c[k - 1]) == flat(h0.children)[k - 1]);
                }
                if node_count(h0) < n.len() {
                    assert(n[1 + c.len() as int] == r[0]);
                }
            } else if j < 1 + c.len() {
                let i = j - 1;
                assert(n[j] == c[i]);
                assert(bare(c[i]) == flat(h0.children)[i]);
                assert(subtrees_in_order(c));
                assert(i + node_count(c[i]) <= c.len());
                assert forall|k: int| j < k < j + node_count(n[j]) implies (#[trigger] n[k]).level > n[j].level by {
                    assert(n[k] == c[k - 1]);
                }
                let e = j + node_count(n[j]);
                if e < n.len() {
                    if e < 1 + c.len() {
                        assert(n[e] == c[e - 1]);
                    } else {
                        assert(n[e] == r[0]);
                    }
                }
            } else {
                let i = j - 1 - c.len();
                assert(n[j] == r[i]);
                assert(subtrees_in_order(r));
                assert(i + node_count(r[i]) <= r.len());
                assert forall|k: int| j < k < j + node_count(n[j]) implies (#[trigger] n[k]).level > n[j].level by {
                    assert(n[k] == r[k - 1 - c.len()]);
                }
                let e = j + node_count(n[j]);
                if e < n.len() {
                    assert(n[e] == r[e - 1 - c.len()]);
                }
            }
        }
    } else {
        assert(nodes(hs) =~= Seq::<HeadingModel>::empty());
    }
}

/// `subtrees_in_order` for the headings of a walk.
pub open spec fn walk_subtrees_in_order(w: Seq<(Seq<usize>, HeadingModel)>) -> bool {
    forall|j: int| 0 <= j < w.len() ==> {
        &&& j + node_count((#[trigger] w[j]).1) <= w.len()
        &&& forall|k: int| j < k < j + node_count(w[j].1) ==> w[k].1.level > w[j].1.level
        &&& j + node_count(w[j].1) < w.len() ==> w[j + node_count(w[j].1)].1.level <= w[j].1.level
    }
}

/// The walk of a parsed document keeps each subtree together: after each
/// heading come the headings of its subtree (as many as `node_count` says),
/// each deeper than it, and the entry that follows them, if any, is no
/// deeper than it.
pub proof fn lemma_parse_subtrees(input: Seq<char>)
    ensures
        walk_subtrees_in_order(walk_list(parse_doc(input).headings, seq![])),
{
    let hs = parse_doc(input).headings;
    lemma_parse_tree_ok(input);
    lemma_tree_ok_subtrees(hs);
    lemma_walk_list_nodes(hs, seq![]);
    let w = walk_list(hs, seq![]);
    let n = nodes(hs);
    assert forall|j: int| 0 <= j < w.len() implies {
        &&& j + node_count((#[trigger] w[j]).1) <= w.len()
        &&& forall|k: int| j < k < j + node_count(w[j].1) ==> w[k].1.level > w[j].1.level
        &&& j + node_count(w[j].1) < w.len() ==> w[j + node_count(w[j].1)].1.level <= w[j].1.level
    } by {
        assert(w[j].1 == n[j]);
        assert forall|k: int| j < k < j + node_count(w[j].1) implies (#[trigger] w[k]).1.level > w[j].1.level by {
            assert(w[k].1 == n[k]);
        }
        if j + node_count(w[j].1) < w.len() {
            assert(w[j + node_count(w[j].1)].1 == n[j + node_count(w[j].1)]);
        }
    }
}

// ---------------------------------------------------------------------------
// Keywords are words
// ---------------------------------------------------------------------------

/// Whether every entry of `ws` is a non-empty run without whitespace.
spec fn all_words_ok(ws: Seq<Seq<char>>) -> bool {
    forall|k: int| 0 <= k < ws.len() ==> (#[trigger] ws[k]).len() > 0 && no_ws(ws[k])
}

/// Whether every keyword of `st` is a non-empty word without whitespace.
pub open spec fn keywords_are_words(st: SettingsModel) -> bool {
    forall|w: Seq<char>| #[trigger] is_keyword_in(st, w) ==> w.len() > 0 && no_ws(w)
}

proof fn lemma_find_ws_bounds(s: Seq<char>)
    ensures
        0 <= find_ws(s) <= s.len(),
        forall|k: int| 0 <= k < find_ws(s) ==> !is_ws(#[trigger] s[k]),
    decreases s.len(),
{
    if s.len() > 0 && !is_ws(s[0]) {
        lemma_find_ws_bounds(s.drop_first());
        assert forall|k: int| 0 <= k < find_ws(s) implies !is_ws(#[trigger] s[k]) by {
            if k > 0 {
                assert(s[k] == s.drop_first()[k - 1]);
            }
        }
    }
}

proof fn lemma_words_ok(s: Seq<char>)
    ensures
        all_words_ok(words(s)),
    decreases s.len(),
{
    if s.len() > 0 {
        if is_ws(s[0]) {
            lemma_words_ok(s.drop_first());
        } else {
            lemma_find_ws_bounds(s);
            let i = find_ws(s);
            assert(i >= 1) by {
                lemma_find_ws_bounds(s.drop_first());
            }
            lemma_words_ok(s.skip(i));
            let w = words(s);
            assert(w == seq![s.take(i)] + words(s.skip(i)));
            assert forall|k: int| 0 <= k < w.len() implies (#[trigger] w[k]).len() > 0 && no_ws(w[k]) by {
                if k > 0 {
                    assert(w[k] == words(s.skip(i))[k - 1]);
                }
            }
        }
    }
}

proof fn lemma_directive_words_ok(ws: Seq<Seq<char>>)
    requires
        all_words_ok(ws),
    ensures
        all_words_ok(directive_todo(ws)),
        all_words_ok(directive_done(ws)),
{
    lemma_first_pipe_bounds(ws);
    let d = directive_done(ws);
    if first_pipe(ws) < ws.len() {
        let src = ws.skip(first_pipe(ws) + 1);
        assert forall|k: int| 0 <= k < d.len() implies (#[trigger] d[k]).len() > 0 && no_ws(d[k]) by {
            assert(d.contains(d[k]));
            src.lemma_filter_map_contains(|w: Seq<char>| unless_pipe(w), d[k]);
            let t = choose|t: Seq<char>| #[trigger] src.contains(t) && unless_pipe(t) == Some(d[k]);
            let m = choose|m: int| 0 <= m < src.len() && src[m] == t;
            assert(src[m] == ws[m + first_pipe(ws) + 1]);
        }
    }
}

proof fn lemma_first_pipe_bounds(ws: Seq<Seq<char>>)
    ensures
        0 <= first_pipe(ws) <= ws.len(),
    decreases ws.len(),
{
    if ws.len() > 0 && !is_pipe(ws[0]) {
        lemma_first_pipe_bounds(ws.drop_first());
    }
}

proof fn lemma_all_words_ok_add(a: Seq<Seq<char>>, b: Seq<Seq<char>>)
    requires
        all_words_ok(a),
        all_words_ok(b),
    ensures
        all_words_ok(a + b),
{
    assert forall|k: int| 0 <= k < (a + b).len() implies (#[trigger] (a + b)[k]).len() > 0 && no_ws((a + b)[k]) by {
        if k < a.len() {
            assert((a + b)[k] == a[k]);
        } else {
            assert((a + b)[k] == b[k - a.len()]);
        }
    }
}

proof fn lemma_directives_ok(ls: Seq<Seq<char>>)
    ensures
        all_words_ok(directives(ls).1),
        all_words_ok(directives(ls).2),
    decreases ls.len(),
{
    if ls.len() > 0 {
        lemma_directives_ok(ls.drop_last());
        match todo_directive(ls.last()) {
            Some(rest) => {
                lemma_words_ok(trim(rest));
                lemma_directive_words_ok(words(trim(rest)));
                lemma_all_words_ok_add(directives(ls.drop_last()).1, directive_todo(words(trim(rest))));
                lemma_all_words_ok_add(directives(ls.drop_last()).2, directive_done(words(trim(rest))));
            },
            None => {},
        }
    } else {
        assert(all_words_ok(Seq::<Seq<char>>::empty()));
    }
}

/// Every keyword that a preamble declares (or a default keyword) is a
/// non-empty word without whitespace.
pub proof fn lemma_settings_words(pre: Seq<char>)
    ensures
        keywords_are_words(settings_of(pre)),
{
    let st = settings_of(pre);
    lemma_directives_ok(lines(pre));
    reveal_strlit("TODO");
    reveal_strlit("NEXT");
    reveal_strlit("WAITING");
    reveal_strlit("HOLD");
    reveal_strlit("DONE");
    reveal_strlit("CANCELLED");
    assert(all_words_ok(default_settings().todo)) by {
        let t = default_settings().todo;
        assert forall|k: int| 0 <= k < t.len() implies (#[trigger] t[k]).len() > 0 && no_ws(t[k]) by {
            assert(k == 0 || k == 1 || k == 2 || k == 3);
        }
    }
    assert(all_words_ok(default_settings().done)) by {
        let t = default_settings().done;
        assert forall|k: int| 0 <= k < t.len() implies (#[trigger] t[k]).len() > 0 && no_ws(t[k]) by {
            assert(k == 0 || k == 1);
        }
    }
    assert forall|w: Seq<char>| #[trigger] is_keyword_in(st, w) implies w.len() > 0 && no_ws(w) by {
        if st.todo.contains(w) {
            let m = choose|m: int| 0 <= m < st.todo.len() && st.todo[m] == w;
            assert(all_words_ok(st.todo));
        } else {
            let m = choose|m: int| 0 <= m < st.done.len() && st.done[m] == w;
            assert(all_words_ok(st.done));
        }
    }
}

// ---------------------------------------------------------------------------
// Which parsed headlines are written faithfully
// ---------------------------------------------------------------------------

proof fn lemma_trim_start_form(s: Seq<char>)
    ensures
        trim_start(s).len() <= s.len(),
        trim_start(s) == s.skip(s.len() - trim_start(s).len()),
        trim_start(s).len() == 0 || !is_ws(trim_start(s)[0]),
        forall|k: int| 0 <= k < s.len() - trim_start(s).len() ==> is_ws(#[trigger] s[k]),
    decreases s.len(),
{
    if s.len() > 0 && is_ws(s[0]) {
        lemma_trim_start_form(s.drop_first());
        assert forall|k: int| 0 <= k < s.len() - trim_start(s).len() implies is_ws(#[trigger] s[k]) by {
            if k > 0 {
                assert(s[k] == s.drop_first()[k - 1]);
            }
        }
        assert(s.drop_first().skip(s.drop_first().len() - trim_start(s).len()) =~= s.skip(s.len() - trim_start(s).len()));
    } else {
        assert(s.skip(0) =~= s);
    }
}

proof fn lemma_trim_end_form(s: Seq<char>)
    ensures
        trim_end(s).len() <= s.len(),
        trim_end(s) == s.take(trim_end(s).len() as int),
        trim_end(s).len() == 0 || !is_ws(trim_end(s).last()),
        forall|k: int| trim_end(s).len() <= k < s.len() ==> is_ws(#[trigger] s[k]),
    decreases s.len(),
{
    if s.len() > 0 && is_ws(s.last()) {
        lemma_trim_end_form(s.drop_last());
        assert forall|k: int| trim_end(s).len() <= k < s.len() implies is_ws(#[trigger] s[k]) by {
            if k < s.len() - 1 {
                assert(s[k] == s.drop_last()[k]);
            }
        }
        assert(s.drop_last().take(trim_end(s).len() as int) =~= s.take(trim_end(s).len() as int));
    } else {
        assert(s.take(s.len() as int) =~= s);
    }
}

/// A suffix of a trimmed text, with its leading whitespace removed, is
/// trimmed.
proof fn lemma_trimmed_suffix(s: Seq<char>, i: int)
    requires
        trimmed(s),
        0 <= i <= s.len(),
    ensures
        trimmed(trim_start(s.skip(i))),
        trim_start(s.skip(i)).len() <= s.len() - i,
        trim_start(s.skip(i)) == s.skip(s.len() - trim_start(s.skip(i)).len()),
{
    let u = s.skip(i);
    lemma_trim_start_form(u);
    let t = trim_start(u);
    assert(u.skip(u.len() - t.len()) =~= s.skip(s.len() - t.len()));
    if t.len() > 0 {
        assert(t.last() == s.last());
    }
}

proof fn lemma_trim_trimmed(s: Seq<char>)
    ensures
        trimmed(trim(s)),
{
    lemma_trim_start_form(s);
    let a = trim_start(s);
    lemma_trim_end_form(a);
    let t = trim_end(a);
    if t.len() > 0 {
        assert(t[0] == a[0]);
    }
}

proof fn lemma_rfind_pair_last(s: Seq<char>, a: char, b: char)
    ensures
        rfind_pair(s, a, b) matches Some(i) ==> {
            &&& 0 <= i && i + 2 <= s.len()
            &&& s[i] == a && s[i + 1] == b
            &&& forall|k: int| i < k < s.len() - 1 ==> !(#[trigger] s[k] == a && s[k + 1] == b)
        },
    decreases s.len(),
{
    if s.len() >= 2 && !(s[s.len() - 2] == a && s[s.len() - 1] == b) {
        let d = s.drop_last();
        lemma_rfind_pair_last(d, a, b);
        if let Some(i) = rfind_pair(s, a, b) {
            assert forall|k: int| i < k < s.len() - 1 implies !(#[trigger] s[k] == a && s[k + 1] == b) by {
                if k < s.len() - 2 {
                    assert(s[k] == d[k] && s[k + 1] == d[k + 1]);
                }
            }
            assert(s[i] == d[i] && s[i + 1] == d[i + 1]);
        }
    }
}

proof fn lemma_split_no_sep(s: Seq<char>, c: char)
    ensures
        forall|k: int| 0 <= k < split(s, c).len() ==> !has_char(#[trigger] split(s, c)[k], c),
    decreases s.len(),
{
    let i = find_char(s, c);
    lemma_find_char_bounds(s, c);
    if 0 <= i < s.len() {
        lemma_split_no_sep(s.skip(i + 1), c);
        let r = split(s.skip(i + 1), c);
        assert(!has_char(s.take(i), c)) by {
            if has_char(s.take(i), c) {
                let w = choose|w: int| 0 <= w < s.take(i).len() && s.take(i)[w] == c;
                assert(s[w] == c);
            }
        }
        assert forall|k: int| 0 <= k < split(s, c).len() implies !has_char(#[trigger] split(s, c)[k], c) by {
            if k > 0 {
                assert(split(s, c)[k] == r[k - 1]);
            }
        }
    } else {
        assert(!has_char(s, c)) by {
            if has_char(s, c) {
                let w = choose|w: int| 0 <= w < s.len() && s[w] == c;
                assert(s[w] != c);
            }
        }
    }
}

proof fn lemma_join_cons(x: Seq<char>, r: Seq<Seq<char>>, sep: Seq<char>)
    requires
        r.len() > 0,
    ensures
        join(seq![x] + r, sep) == x + sep + join(r, sep),
    decreases r.len(),
{
    let t = seq![x] + r;
    if r.len() == 1 {
        assert(t.drop_last() =~= seq![x]);
        assert(seq![x][0] == x);
        assert(join(seq![x], sep) == x);
        assert(t.last() == r[0]);
        assert(join(r, sep) == r[0]);
        assert(join(t, sep) == join(t.drop_last(), sep) + sep + t.last());
    } else {
        lemma_join_cons(x, r.drop_last(), sep);
        assert(t.drop_last() =~= seq![x] + r.drop_last());
        assert(t.last() == r.last());
        assert(join(t, sep) =~= x + sep + join(r, sep));
    }
}

proof fn lemma_join_split(s: Seq<char>, c: char)
    ensures
        join(split(s, c), seq![c]) == s,
    decreases s.len(),
{
    let i = find_char(s, c);
    lemma_find_char_bounds(s, c);
    if 0 <= i < s.len() {
        lemma_join_split(s.skip(i + 1), c);
        let r = split(s.skip(i + 1), c);
        lemma_split_nonempty(s.skip(i + 1), c);
        lemma_join_cons(s.take(i), r, seq![c]);
        assert(s =~= s.take(i) + seq![c] + s.skip(i + 1));
    }
}

/// What `tags_split` gives for a trimmed text without line breaks: a
/// trimmed title that starts the text, and tags that read back behind it.
#[verifier::spinoff_prover]
proof fn lemma_tags_split_parts(r: Seq<char>)
    requires
        trimmed(r),
        clean(r),
    ensures
        ({
            let (title, tags) = tags_split(r);
            &&& trimmed(title)
            &&& clean(title)
            &&& title.len() <= r.len()
            &&& title == r.take(title.len() as int)
            &&& forall|i: int| 0 <= i < tags.len() ==> tag_ok(#[trigger] tags[i])
            &&& tags.len() > 0 ==> {
                &&& no_space_colon(join(tags, seq![':']) + seq![':'])
                &&& title.len() > 0
                &&& title.len() < r.len()
                &&& is_ws(r[title.len() as int])
            }
            &&& tags.len() == 0 ==> title == r && tags_split(title) == (title, Seq::<Seq<char>>::empty())
        }),
{
    lemma_rfind_pair_last(r, ' ', ':');
    let (title, tags) = tags_split(r);
    assert(r.take(r.len() as int) =~= r);
    match rfind_pair(r, ' ', ':') {
        Some(idx) => {
            let u = r.skip(idx + 1);
            lemma_trim_end_form(u);
            let cand = trim_end(u);
            if cand.len() > 2 && cand[0] == ':' && cand.last() == ':' && all_valid_tags(
                split(cand.subrange(1, cand.len() - 1), ':'),
            ) {
                let inner = cand.subrange(1, cand.len() - 1);
                assert(idx >= 1);
                let v = r.take(idx);
                lemma_trim_end_form(v);
                assert(!is_ws(v[0]));
                assert(title.len() > 0);
                assert(title == v.take(title.len() as int));
                assert(title =~= r.take(title.len() as int));
                assert(title[0] == r[0]);
                assert(is_ws(r[title.len() as int])) by {
                    if title.len() < idx {
                        assert(is_ws(v[title.len() as int]));
                    }
                }
                assert(clean(title));
                assert(clean(inner));
                lemma_clean_split(inner, ':');
                lemma_split_no_sep(inner, ':');
                lemma_split_nonempty(inner, ':');
                assert forall|i: int| 0 <= i < tags.len() implies tag_ok(#[trigger] tags[i]) by {
                    assert(is_valid_tag(tags[i]));
                    assert(clean(tags[i]));
                    if has_char(tags[i], '\n') {
                        let w = choose|w: int| 0 <= w < tags[i].len() && tags[i][w] == '\n';
                    }
                }
                lemma_join_split(inner, ':');
                let jc = join(tags, seq![':']) + seq![':'];
                assert(jc =~= cand.skip(1));
                assert forall|k: int| 0 <= k < jc.len() - 1 implies !(#[trigger] jc[k] == ' ' && jc[k + 1] == ':') by {
                    assert(jc[k] == r[idx + 2 + k]);
                    assert(jc[k + 1] == r[idx + 3 + k]);
                }
            } else {
                assert(title == r);
            }
        },
        None => {
            assert(title == r);
        },
    }
}

proof fn lemma_priority_tail(r: Seq<char>)
    requires
        trimmed(r),
        clean(r),
        priority_split(r) == (None::<char>, r),
    ensures
        ({
            let (title, tags) = tags_split(r);
            let t = title + tag_suffix(tags);
            priority_split(t) == (None::<char>, t)
        }),
{
    lemma_tags_split_parts(r);
    let (title, tags) = tags_split(r);
    let t = title + tag_suffix(tags);
    if tags.len() == 0 {
        assert(t =~= title);
    } else {
        let n = title.len() as int;
        assert(t[n] == ' ');
        if n >= 4 {
            assert(t[0] == r[0] && t[1] == r[1] && t[2] == r[2] && t[3] == r[3]);
        }
    }
}

/// Whether a heading read without a keyword has, as its whole title, a
/// keyword that was separated from the tags by whitespace other than a
/// space: written back with one space, the title then reads as a keyword.
pub open spec fn title_reads_as_keyword(h: HeadingModel, st: SettingsModel) -> bool {
    h.keyword is None && h.tags.len() > 0 && is_keyword_in(st, h.title)
}

#[verifier::spinoff_prover]
proof fn lemma_keyword_tail(r: Seq<char>, st: SettingsModel)
    requires
        trimmed(r),
        clean(r),
        keywords_are_words(st),
        keyword_split(r, st) == (None::<Seq<char>>, r),
    ensures
        ({
            let (title, tags) = tags_split(r);
            let t = title + tag_suffix(tags);
            &&& keyword_split(t, st) == (None::<Seq<char>>, t) <==> !(tags.len() > 0 && is_keyword_in(st, title))
            &&& tags.len() > 0 && is_keyword_in(st, title) ==> keyword_split(t, st).0 == Some(title)
        }),
{
    lemma_tags_split_parts(r);
    let (title, tags) = tags_split(r);
    let t = title + tag_suffix(tags);
    if tags.len() == 0 {
        assert(t =~= title);
    } else {
        let n = title.len() as int;
        assert(t[n] == ' ');
        lemma_find_char_bounds(title, ' ');
        let q = find_char(title, ' ');
        if q < n {
            assert forall|k: int| 0 <= k < q implies #[trigger] t[k] != ' ' by {
                assert(t[k] == title[k]);
            }
            assert(t[q] == title[q]);
            lemma_find_char(t, ' ', q);
            assert forall|k: int| 0 <= k < q implies #[trigger] r[k] != ' ' by {
                assert(r[k] == title[k]);
            }
            assert(r[q] == title[q]);
            lemma_find_char(r, ' ', q);
            assert(t.take(q) =~= r.take(q));
            if is_keyword_in(st, title) {
                assert(no_ws(title));
                assert(is_ws(title[q]));
            }
        } else {
            assert forall|k: int| 0 <= k < n implies #[trigger] t[k] != ' ' by {
                assert(t[k] == title[k]);
            }
            lemma_find_char(t, ' ', n);
            assert(t.take(n) =~= title);
        }
    }
}

/// Which headings read from text are written faithfully: a heading read
/// from a headline without line breaks meets `headline_ok` exactly when
/// its title does not read as a keyword once written (see
/// `title_reads_as_keyword`); when it does, the written headline is read
/// back with that title as its keyword.
#[verifier::spinoff_prover]
proof fn lemma_parsed_headline_ok(l: Seq<char>, c: Seq<Seq<char>>, st: SettingsModel)
    requires
        clean(l),
        is_headline(l),
        star_count(l) <= usize::MAX,
        keywords_are_words(st),
    ensures
        headline_ok(section_model(l, c, st), st) <==> !title_reads_as_keyword(section_model(l, c, st), st),
        title_reads_as_keyword(section_model(l, c, st), st) ==> headline_parts(
            headline_text(section_model(l, c, st)),
            st,
        ).1 == Some(section_model(l, c, st).title),
{
    let h = section_model(l, c, st);
    lemma_star_count_le(l);
    lemma_star_count_le(l.drop_first());
    let sc = star_count(l);
    assert(clean(l.skip(sc)));
    lemma_clean_trim(l.skip(sc));
    lemma_trim_trimmed(l.skip(sc));
    let r = trim(l.skip(sc));
    let (kw, rest2) = keyword_split(r, st);
    let sp = find_char(r, ' ');
    lemma_find_char_bounds(r, ' ');
    match kw {
        None => {
            assert(rest2 == r);
            lemma_keyword_tail(r, st);
            lemma_tags_split_parts(r);
            assert(h.priority is None);
            assert(tail_text(h) == h.title + tag_suffix(h.tags));
            if title_reads_as_keyword(h, st) {
                lemma_headline_is_headline(h);
                let line = headline_text(h);
                let t = tail_text(h);
                let n = h.level as int;
                assert(summary_text(h) =~= t);
                assert(line =~= stars(h.level as nat) + seq![' '] + t);
                assert(line.skip(n) =~= seq![' '] + t);
                assert(t[0] == h.title[0]);
                assert(t.last() == ':');
                lemma_trim_start_after_ws(seq![' '], t);
                lemma_trim_id(t);
            }
        },
        Some(k) => {
            assert(is_keyword_in(st, k));
            assert(k.len() > 0 && no_ws(k));
            if sp < r.len() {
                lemma_trimmed_suffix(r, sp);
                lemma_clean_skip(r, r.len() - rest2.len());
            } else {
                assert(rest2 =~= Seq::<char>::empty());
            }
            assert(trimmed(rest2));
            assert(clean(rest2));
            let (pri, rest3) = priority_split(rest2);
            if pri is Some {
                lemma_trimmed_suffix(rest2, 4);
                lemma_clean_skip(rest2, rest2.len() - rest3.len());
                assert(trimmed(rest3));
                assert(clean(rest3));
            } else {
                assert(rest3 == rest2);
                lemma_priority_tail(rest2);
            }
            lemma_tags_split_parts(rest3);
        },
    }
}

/// Whether `h` meets `headline_ok` exactly when its title does not read
/// as a keyword once written, and is read back with its title as keyword
/// when it does.
spec fn headline_faithful(h: HeadingModel, st: SettingsModel) -> bool {
    &&& headline_ok(h, st) <==> !title_reads_as_keyword(h, st)
    &&& title_reads_as_keyword(h, st) ==> headline_parts(headline_text(h), st).1 == Some(h.title)
}

proof fn lemma_sections_faithful(ls: Seq<Seq<char>>, i: int, st: SettingsModel)
    requires
        0 <= i <= ls.len(),
        i < ls.len() ==> is_headline(ls[i]),
        forall|k: int| 0 <= k < ls.len() ==> clean(#[trigger] ls[k]) && ls[k].len() <= usize::MAX,
        keywords_are_words(st),
    ensures
        forall|j: int| 0 <= j < sections_from(ls, i, st).len() ==> headline_faithful(#[trigger] sections_from(ls, i, st)[j], st),
    decreases ls.len() - i,
{
    if i < ls.len() {
        lemma_next_headline_props(ls, i + 1);
        let n = next_headline(ls, i + 1);
        lemma_sections_faithful(ls, n, st);
        let c = ls.subrange(i + 1, n);
        lemma_star_count_le(ls[i]);
        lemma_parsed_headline_ok(ls[i], c, st);
        let s = sections_from(ls, i, st);
        assert(s == seq![section_model(ls[i], c, st)] + sections_from(ls, n, st));
        assert forall|j: int| 0 <= j < s.len() implies headline_faithful(#[trigger] s[j], st) by {
            if j > 0 {
                assert(s[j] == sections_from(ls, n, st)[j - 1]);
            }
        }
    }
}

// ---------------------------------------------------------------------------
// The headline levels survive a round trip
// ---------------------------------------------------------------------------

/// Whether `s` holds no line break (`\n` or `\r`).
spec fn clean(s: Seq<char>) -> bool {
    forall|i: int| 0 <= i < s.len() ==> s[i] != '\n' && s[i] != '\r'
}

proof fn lemma_clean_trim_start(s: Seq<char>)
    requires
        clean(s),
    ensures
        clean(trim_start(s)),
    decreases s.len(),
{
    if s.len() > 0 && is_ws(s[0]) {
        assert(clean(s.drop_first()));
        lemma_clean_trim_start(s.drop_first());
    }
}

proof fn lemma_clean_trim_end(s: Seq<char>)
    requires
        clean(s),
    ensures
        clean(trim_end(s)),
    decreases s.len(),
{
    if s.len() > 0 && is_ws(s.last()) {
        assert(clean(s.drop_last()));
        lemma_clean_trim_end(s.drop_last());
    }
}

proof fn lemma_clean_split(s: Seq<char>, c: char)
    requires
        clean(s),
    ensures
        forall|k: int| 0 <= k < split(s, c).len() ==> clean(#[trigger] split(s, c)[k]),
    decreases s.len(),
{
    let i = find_char(s, c);
    lemma_find_char_bounds(s, c);
    if 0 <= i < s.len() {
        assert(clean(s.skip(i + 1)));
        lemma_clean_split(s.skip(i + 1), c);
        assert(clean(s.take(i)));
        let r = split(s.skip(i + 1), c);
        assert forall|k: int| 0 <= k < split(s, c).len() implies clean(#[trigger] split(s, c)[k]) by {
            if k > 0 {
                assert(split(s, c)[k] == r[k - 1]);
            }
        }
    }
}

proof fn lemma_clean_join(ts: Seq<Seq<char>>, sep: Seq<char>)
    requires
        clean(sep),
        forall|k: int| 0 <= k < ts.len() ==> clean(#[trigger] ts[k]),
    ensures
        clean(join(ts, sep)),
    decreases ts.len(),
{
    if ts.len() > 1 {
        lemma_clean_join(ts.drop_last(), sep);
        let a = join(ts.drop_last(), sep);
        assert(clean(ts.last()));
        assert forall|i: int| 0 <= i < join(ts, sep).len() implies join(ts, sep)[i] != '\n' && join(ts, sep)[i] != '\r' by {
            let j = join(ts, sep);
            assert(j == a + sep + ts.last());
            if i < a.len() {
                assert(j[i] == a[i]);
            } else if i < a.len() + sep.len() {
                assert(j[i] == sep[i - a.len()]);
            } else {
                assert(j[i] == ts.last()[i - a.len() - sep.len()]);
            }
        }
    } else if ts.len() == 1 {
        assert(clean(ts[0]));
    }
}

proof fn lemma_lines_clean(s: Seq<char>)
    requires
        !has_char(s, '\r'),
    ensures
        forall|k: int| 0 <= k < lines(s).len() ==> clean(#[trigger] lines(s)[k]),
    decreases s.len(),
{
    if s.len() > 0 {
        let i = find_char(s, '\n');
        lemma_find_char_bounds(s, '\n');
        assert forall|k: int| 0 <= k < s.len() implies s[k] != '\r' by {
            if s[k] == '\r' {
                assert(has_char(s, '\r'));
            }
        }
        if 0 <= i < s.len() {
            let rest = s.skip(i + 1);
            assert(!has_char(rest, '\r')) by {
                if has_char(rest, '\r') {
                    let w = choose|w: int| 0 <= w < rest.len() && rest[w] == '\r';
                    assert(s[w + i + 1] == '\r');
                }
            }
            lemma_lines_clean(rest);
            assert(clean(s.take(i)));
            assert(strip_cr(s.take(i)) == s.take(i));
            assert forall|k: int| 0 <= k < lines(s).len() implies clean(#[trigger] lines(s)[k]) by {
                if k > 0 {
                    assert(lines(s)[k] == lines(rest)[k - 1]);
                }
            }
        } else {
            assert(clean(s));
        }
    }
}

proof fn lemma_clean_add(a: Seq<char>, b: Seq<char>)
    requires
        clean(a),
        clean(b),
    ensures
        clean(a + b),
{
    assert forall|i: int| 0 <= i < (a + b).len() implies (a + b)[i] != '\n' && (a + b)[i] != '\r' by {
        if i < a.len() {
            assert((a + b)[i] == a[i]);
        } else {
            assert((a + b)[i] == b[i - a.len()]);
        }
    }
}

proof fn lemma_rfind_pair_bounds(s: Seq<char>, a: char, b: char)
    ensures
        rfind_pair(s, a, b) matches Some(i) ==> 0 <= i && i + 2 <= s.len(),
    decreases s.len(),
{
    if s.len() >= 2 && !(s[s.len() - 2] == a && s[s.len() - 1] == b) {
        lemma_rfind_pair_bounds(s.drop_last(), a, b);
    }
}

proof fn lemma_clean_skip(s: Seq<char>, i: int)
    requires
        clean(s),
        0 <= i <= s.len(),
    ensures
        clean(s.skip(i)),
{
    assert forall|k: int| 0 <= k < s.skip(i).len() implies s.skip(i)[k] != '\n' && s.skip(i)[k] != '\r' by {
        assert(s.skip(i)[k] == s[k + i]);
    }
}

proof fn lemma_clean_trim(s: Seq<char>)
    requires
        clean(s),
    ensures
        clean(trim(s)),
{
    lemma_clean_trim_start(s);
    lemma_clean_trim_end(trim_start(s));
}

proof fn lemma_star_count_le(l: Seq<char>)
    ensures
        0 <= star_count(l) <= l.len(),
    decreases l.len(),
{
    if l.len() > 0 && l[0] == '*' {
        lemma_star_count_le(l.drop_first());
    }
}

/// The summary of a headline read from a line without line breaks has no
/// line break either.
proof fn lemma_headline_parts_clean(l: Seq<char>, st: SettingsModel)
    requires
        clean(l),
    ensures
        ({
            let (level, kw, pri, title, tags) = headline_parts(l, st);
            clean(summary_text(HeadingModel {
                level,
                keyword: kw,
                priority: pri,
                title,
                tags,
                planning: None,
                properties: seq![],
                body: seq![],
                children: seq![],
            }))
        }),
{
    lemma_star_count_le(l);
    let rest = trim(l.skip(star_count(l)));
    assert(clean(l.skip(star_count(l))));
    lemma_clean_trim(l.skip(star_count(l)));
    let (kw, rest2) = keyword_split(rest, st);
    let sp = find_char(rest, ' ');
    lemma_find_char_bounds(rest, ' ');
    if sp < rest.len() {
        assert(clean(rest.take(sp)));
        assert(clean(rest.skip(sp)));
        lemma_clean_trim_start(rest.skip(sp));
    }
    assert(kw is Some ==> clean(kw->0));
    assert(clean(rest2));
    let (pri, rest3) = if kw is Some {
        priority_split(rest2)
    } else {
        (None, rest2)
    };
    if kw is Some && rest2.len() >= 4 {
        assert(clean(rest2.skip(4)));
        lemma_clean_trim_start(rest2.skip(4));
    }
    assert(clean(rest3));
    assert(pri is Some ==> 'A' <= pri->0 <= 'Z');
    let (title, tags) = tags_split(rest3);
    lemma_rfind_pair_bounds(rest3, ' ', ':');
    match rfind_pair(rest3, ' ', ':') {
        Some(idx) => {
            assert(clean(rest3.skip(idx + 1)));
            lemma_clean_trim_end(rest3.skip(idx + 1));
            let cand = trim_end(rest3.skip(idx + 1));
            if cand.len() > 2 {
                assert(clean(cand.subrange(1, cand.len() - 1)));
                lemma_clean_split(cand.subrange(1, cand.len() - 1), ':');
            }
            assert(clean(rest3.take(idx)));
            lemma_clean_trim_end(rest3.take(idx));
        },
        None => {},
    }
    assert(clean(title));
    assert(forall|k: int| 0 <= k < tags.len() ==> clean(#[trigger] tags[k]));
    let kp: Seq<char> = match kw {
        Some(k) => k + seq![' '],
        None => seq![],
    };
    let pp: Seq<char> = match pri {
        Some(p) => seq!['[', '#', p, ']', ' '],
        None => seq![],
    };
    let tp: Seq<char> = if tags.len() > 0 {
        seq![' ', ':'] + join(tags, seq![':']) + seq![':']
    } else {
        seq![]
    };
    if kw is Some {
        lemma_clean_add(kw->0, seq![' ']);
    }
    assert(clean(kp));
    assert(clean(pp));
    if tags.len() > 0 {
        lemma_clean_join(tags, seq![':']);
        lemma_clean_add(seq![' ', ':'], join(tags, seq![':']));
        lemma_clean_add(seq![' ', ':'] + join(tags, seq![':']), seq![':']);
    }
    assert(clean(tp));
    lemma_clean_add(kp, pp);
    lemma_clean_add(kp + pp, title);
    lemma_clean_add(kp + pp + title, tp);
}

proof fn lemma_drawer_end_bounds(ls: Seq<Seq<char>>, from: int)
    requires
        0 <= from <= ls.len(),
    ensures
        from <= drawer_end(ls, from) <= ls.len(),
    decreases ls.len() - from,
{
    if from < ls.len() && trim(ls[from]) != ":END:"@ {
        lemma_drawer_end_bounds(ls, from + 1);
    }
}

proof fn lemma_clean_plain(ls: Seq<Seq<char>>)
    requires
        forall|k: int| 0 <= k < ls.len() ==> clean(#[trigger] ls[k]),
    ensures
        plain_lines(ls),
{
    assert forall|k: int| 0 <= k < ls.len() implies plain_line(#[trigger] ls[k]) by {
        assert(clean(ls[k]));
        if has_char(ls[k], '\n') {
            let w = choose|w: int| 0 <= w < ls[k].len() && ls[k][w] == '\n';
        }
    }
}

proof fn lemma_property_clean(t: Seq<char>)
    requires
        clean(t),
    ensures
        property_of(t) matches Some(p) ==> clean(p.0) && clean(p.1),
{
    lemma_clean_trim(t);
    let tt = trim(t);
    if tt.len() > 0 {
        let rest = tt.drop_first();
        let c = find_char(rest, ':');
        assert(clean(rest));
        if 0 < c < rest.len() {
            assert(clean(rest.take(c)));
            assert(clean(rest.skip(c + 1)));
            lemma_clean_trim(rest.skip(c + 1));
        }
    }
}

/// What a section read from clean lines gives the writer: a headline of its
/// level without line breaks, and content lines that are clean and no
/// headline, with a body of whole lines.
spec fn section_good(h: HeadingModel) -> bool {
    &&& h.level >= 1
    &&& headline_level_of(headline_text(h)) == Some(h.level)
    &&& clean(headline_text(h))
    &&& forall|k: int| 0 <= k < content_lines_of(h).len() ==> {
        &&& clean(#[trigger] content_lines_of(h)[k])
        &&& !is_headline(content_lines_of(h)[k])
    }
    &&& body_whole(h)
}

#[verifier::spinoff_prover]
proof fn lemma_section_good(l: Seq<char>, c: Seq<Seq<char>>, st: SettingsModel)
    requires
        clean(l),
        is_headline(l),
        star_count(l) <= usize::MAX,
        forall|k: int| 0 <= k < c.len() ==> clean(#[trigger] c[k]) && !is_headline(c[k]),
    ensures
        section_good(section_model(l, c, st)),
{
    let h = section_model(l, c, st);
    lemma_star_count_le(l.drop_first());
    assert(star_count(l) >= 1);
    lemma_headline_is_headline(h);
    lemma_headline_parts_clean(l, st);
    let (level, kw, pri, title, tags) = headline_parts(l, st);
    let h0 = HeadingModel {
        level,
        keyword: kw,
        priority: pri,
        title,
        tags,
        planning: None,
        properties: seq![],
        body: seq![],
        children: seq![],
    };
    assert(summary_text(h) == summary_text(h0));
    assert(clean(stars(h.level as nat) + seq![' ']));
    lemma_clean_add(stars(h.level as nat) + seq![' '], summary_text(h));
    assert(clean(headline_text(h)));
    let has_plan = c.len() > 0 && is_planning(c[0]);
    let i0: int = if has_plan { 1 } else { 0 };
    let (planning, props, b) = content_head(c);
    if i0 < c.len() && trim(c[i0]) == ":PROPERTIES:"@ {
        lemma_drawer_end_bounds(c, i0 + 1);
    }
    assert(0 <= b <= c.len());
    let rest = c.skip(b);
    assert forall|k: int| 0 <= k < rest.len() implies clean(#[trigger] rest[k]) && !is_headline(rest[k]) by {
        assert(rest[k] == c[k + b]);
    }
    lemma_clean_plain(rest);
    lemma_lines_unlines(rest);
    assert(h.body == unlines(rest));
    assert(body_whole(h));
    assert forall|j: int| 0 <= j < props.len() implies clean((#[trigger] props[j]).0) && clean(props[j].1) by {
        let e = drawer_end(c, i0 + 1);
        let src = c.subrange(i0 + 1, e);
        assert(props == properties_of(src));
        assert(props.contains(props[j]));
        src.lemma_filter_map_contains(|x: Seq<char>| property_of(x), props[j]);
        let t = choose|t: Seq<char>| #[trigger] src.contains(t) && property_of(t) == Some(props[j]);
        let w = choose|w: int| 0 <= w < src.len() && src[w] == t;
        assert(src[w] == c[w + i0 + 1]);
        lemma_property_clean(t);
    }
    let pl: Seq<Seq<char>> = match planning {
        Some(p) => seq![p],
        None => seq![],
    };
    let dl = drawer_lines(props);
    let cl = content_lines_of(h);
    assert(cl == pl + dl + rest);
    reveal_strlit(":PROPERTIES:");
    reveal_strlit(":END:");
    assert forall|k: int| 0 <= k < cl.len() implies clean(#[trigger] cl[k]) && !is_headline(cl[k]) by {
        if k < pl.len() {
            assert(cl[k] == c[0]);
        } else if k < pl.len() + dl.len() {
            let m = k - pl.len();
            assert(cl[k] == dl[m]);
            if m == 0 {
                assert(dl[m] == ":PROPERTIES:"@);
            } else if m == dl.len() - 1 {
                assert(dl[m] == ":END:"@);
            } else {
                let p = props[m - 1];
                assert(dl[m] == property_line(p));
                assert(clean(p.0) && clean(p.1));
                lemma_clean_add(seq![':'], p.0);
                if p.1.len() == 0 {
                    lemma_clean_add(seq![':'] + p.0, seq![':']);
                } else {
                    lemma_clean_add(seq![':'] + p.0, seq![':', ' ']);
                    lemma_clean_add(seq![':'] + p.0 + seq![':', ' '], p.1);
                }
            }
            assert(dl[m][0] == ':');
        } else {
            assert(cl[k] == rest[k - pl.len() - dl.len()]);
        }
    }
}

// ---------------------------------------------------------------------------
// The document read back
// ---------------------------------------------------------------------------

proof fn lemma_flat_lines_plain(fs: Seq<HeadingModel>, st: SettingsModel)
    requires
        sections_ok(fs, st),
    ensures
        plain_lines(flat_lines(fs)),
    decreases fs.len(),
{
    if fs.len() > 0 {
        let rest = fs.drop_first();
        assert(sections_ok(rest, st)) by {
            assert forall|k: int| 0 <= k < rest.len() implies section_ok(#[trigger] rest[k], st) && rest[k].children.len() == 0 by {
                assert(rest[k] == fs[k + 1]);
            }
        }
        lemma_flat_lines_plain(rest, st);
        assert(section_ok(fs[0], st));
        lemma_section_lines(fs[0], st);
        let a = section_lines(fs[0]);
        let b = flat_lines(rest);
        assert forall|i: int| 0 <= i < a.len() + b.len() implies plain_line(#[trigger] (a + b)[i]) by {
            if i < a.len() {
                assert((a + b)[i] == a[i]);
            } else {
                assert((a + b)[i] == b[i - a.len()]);
            }
        }
    }
}

proof fn lemma_unlines_ends(ls: Seq<Seq<char>>)
    ensures
        unlines(ls).len() == 0 || unlines(ls).last() == '\n',
{
}

/// `h` reduced to its level and the shape of its subtree.
spec fn shape(h: HeadingModel) -> HeadingModel
    decreases h,
{
    HeadingModel {
        level: h.level,
        keyword: None,
        priority: None,
        title: seq![],
        tags: seq![],
        planning: None,
        properties: seq![],
        body: seq![],
        children: shape_list(h.children),
    }
}

/// `shape` for every tree of `hs`.
spec fn shape_list(hs: Seq<HeadingModel>) -> Seq<HeadingModel>
    decreases hs,
{
    if hs.len() == 0 {
        seq![]
    } else {
        shape_list(hs.drop_last()).push(shape(hs.last()))
    }
}

proof fn lemma_shape_list_len(hs: Seq<HeadingModel>)
    ensures
        shape_list(hs).len() == hs.len(),
    decreases hs.len(),
{
    if hs.len() > 0 {
        lemma_shape_list_len(hs.drop_last());
    }
}

proof fn lemma_shape_list_add(a: Seq<HeadingModel>, b: Seq<HeadingModel>)
    ensures
        shape_list(a + b) == shape_list(a) + shape_list(b),
    decreases b.len(),
{
    if b.len() == 0 {
        assert(a + b =~= a);
        assert(shape_list(b) =~= Seq::<HeadingModel>::empty());
        assert(shape_list(a) + shape_list(b) =~= shape_list(a));
    } else {
        lemma_shape_list_add(a, b.drop_last());
        assert((a + b).drop_last() =~= a + b.drop_last());
        assert((a + b).last() == b.last());
        assert(shape_list(a + b) =~= shape_list(a) + shape_list(b.drop_last()).push(shape(b.last())));
    }
}

proof fn lemma_shape_list_one(h: HeadingModel)
    ensures
        shape_list(seq![h]) == seq![shape(h)],
{
    assert(seq![h].drop_last() =~= Seq::<HeadingModel>::empty());
    assert(shape_list(Seq::<HeadingModel>::empty()) =~= Seq::<HeadingModel>::empty());
    assert(seq![h].last() == h);
    assert(shape_list(seq![h]) =~= seq![shape(h)]);
}

/// The flat headings `fs` reduced to their levels.
spec fn levels_of(fs: Seq<HeadingModel>) -> Seq<HeadingModel> {
    fs.map_values(|h: HeadingModel| shape(bare(h)))
}

proof fn lemma_next_le_levels(fs: Seq<HeadingModel>, j: int, level: usize)
    requires
        0 <= j <= fs.len(),
    ensures
        next_le(fs, j, level) == next_le(levels_of(fs), j, level),
    decreases fs.len() - j,
{
    if j < fs.len() {
        assert(levels_of(fs)[j].level == fs[j].level);
        lemma_next_le_levels(fs, j + 1, level);
    }
}

proof fn lemma_shape_forest(fs: Seq<HeadingModel>, a: int, b: int)
    requires
        0 <= a <= b <= fs.len(),
    ensures
        shape_list(forest(fs, a, b)) == forest(levels_of(fs), a, b),
    decreases b - a,
{
    let g = levels_of(fs);
    if a < b {
        lemma_next_le_bounds(fs, a + 1, fs[a].level);
        lemma_next_le_levels(fs, a + 1, fs[a].level);
        assert(g[a].level == fs[a].level);
        let n = next_le(fs, a + 1, fs[a].level);
        let e = if n < b { n } else { b };
        lemma_shape_forest(fs, a + 1, e);
        lemma_shape_forest(fs, e, b);
        let node = HeadingModel { children: forest(fs, a + 1, e), ..fs[a] };
        let gnode = HeadingModel { children: forest(g, a + 1, e), ..g[a] };
        assert(forest(fs, a, b) == seq![node] + forest(fs, e, b));
        assert(forest(g, a, b) == seq![gnode] + forest(g, e, b));
        lemma_shape_list_add(seq![node], forest(fs, e, b));
        lemma_shape_list_one(node);
        assert(shape_list(bare(fs[a]).children) =~= Seq::<HeadingModel>::empty());
        assert(shape(node) == gnode);
    } else {
        assert(forest(fs, a, b) =~= Seq::<HeadingModel>::empty());
        assert(forest(g, a, b) =~= Seq::<HeadingModel>::empty());
        assert(shape_list(Seq::<HeadingModel>::empty()) =~= Seq::<HeadingModel>::empty());
    }
}

proof fn lemma_walk_list_shape(hs: Seq<HeadingModel>, p: Seq<usize>)
    ensures
        walk_list(shape_list(hs), p).len() == walk_list(hs, p).len(),
        forall|k: int| 0 <= k < walk_list(hs, p).len() ==>
            (#[trigger] walk_list(shape_list(hs), p)[k]).0 == walk_list(hs, p)[k].0,
    decreases hs,
{
    if hs.len() > 0 {
        let a = p.push((hs.len() - 1) as usize);
        lemma_walk_list_shape(hs.drop_last(), p);
        lemma_walk_node_shape(hs.last(), a);
        let s = shape_list(hs);
        lemma_shape_list_len(hs);
        lemma_shape_list_len(hs.drop_last());
        assert(s.drop_last() =~= shape_list(hs.drop_last()));
        assert(s.last() == shape(hs.last()));
        assert(s.len() == hs.len());
        let l = walk_list(hs.drop_last(), p);
        let r = walk_node(hs.last(), a);
        let sl = walk_list(s.drop_last(), p);
        let sr = walk_node(s.last(), a);
        assert(walk_list(hs, p) == l + r);
        assert(walk_list(s, p) == sl + sr);
        assert forall|k: int| 0 <= k < walk_list(hs, p).len() implies
            (#[trigger] walk_list(s, p)[k]).0 == walk_list(hs, p)[k].0 by {
            if k < l.len() {
                assert(walk_list(s, p)[k] == sl[k]);
                assert(walk_list(hs, p)[k] == l[k]);
            } else {
                assert(walk_list(s, p)[k] == sr[k - l.len()]);
                assert(walk_list(hs, p)[k] == r[k - l.len()]);
            }
        }
    } else {
        assert(shape_list(hs) =~= Seq::<HeadingModel>::empty());
    }
}

proof fn lemma_walk_node_shape(h: HeadingModel, a: Seq<usize>)
    ensures
        walk_node(shape(h), a).len() == walk_node(h, a).len(),
        forall|k: int| 0 <= k < walk_node(h, a).len() ==>
            (#[trigger] walk_node(shape(h), a)[k]).0 == walk_node(h, a)[k].0,
    decreases h,
{
    lemma_walk_list_shape(h.children, a);
    let w = walk_node(h, a);
    let ws = walk_node(shape(h), a);
    assert forall|k: int| 0 <= k < w.len() implies (#[trigger] ws[k]).0 == w[k].0 by {
        if k > 0 {
            assert(ws[k] == walk_list(shape_list(h.children), a)[k - 1]);
            assert(w[k] == walk_list(h.children, a)[k - 1]);
        }
    }
}

proof fn lemma_lines_short(s: Seq<char>)
    ensures
        forall|k: int| 0 <= k < lines(s).len() ==> (#[trigger] lines(s)[k]).len() <= s.len(),
    decreases s.len(),
{
    if s.len() > 0 {
        let i = find_char(s, '\n');
        lemma_find_char_bounds(s, '\n');
        if 0 <= i < s.len() {
            let rest = s.skip(i + 1);
            lemma_lines_short(rest);
            assert forall|k: int| 0 <= k < lines(s).len() implies (#[trigger] lines(s)[k]).len() <= s.len() by {
                if k > 0 {
                    assert(lines(s)[k] == lines(rest)[k - 1]);
                }
            }
        }
    }
}

proof fn lemma_next_headline_skips(ls: Seq<Seq<char>>, from: int)
    requires
        0 <= from <= ls.len(),
    ensures
        forall|k: int| from <= k < next_headline(ls, from) ==> !is_headline(#[trigger] ls[k]),
    decreases ls.len() - from,
{
    if from < ls.len() && !is_headline(ls[from]) {
        lemma_next_headline_skips(ls, from + 1);
    }
}

proof fn lemma_sections_good(ls: Seq<Seq<char>>, i: int, st: SettingsModel)
    requires
        0 <= i <= ls.len(),
        i < ls.len() ==> is_headline(ls[i]),
        forall|k: int| 0 <= k < ls.len() ==> clean(#[trigger] ls[k]) && ls[k].len() <= usize::MAX,
    ensures
        forall|j: int| 0 <= j < sections_from(ls, i, st).len() ==> section_good(#[trigger] sections_from(ls, i, st)[j]),
    decreases ls.len() - i,
{
    if i < ls.len() {
        lemma_next_headline_props(ls, i + 1);
        lemma_next_headline_skips(ls, i + 1);
        let n = next_headline(ls, i + 1);
        lemma_sections_good(ls, n, st);
        let c = ls.subrange(i + 1, n);
        assert forall|k: int| 0 <= k < c.len() implies clean(#[trigger] c[k]) && !is_headline(c[k]) by {
            assert(c[k] == ls[k + i + 1]);
        }
        lemma_star_count_le(ls[i]);
        lemma_section_good(ls[i], c, st);
        let s = sections_from(ls, i, st);
        assert(s == seq![section_model(ls[i], c, st)] + sections_from(ls, n, st));
        assert forall|j: int| 0 <= j < s.len() implies section_good(#[trigger] s[j]) by {
            if j > 0 {
                assert(s[j] == sections_from(ls, n, st)[j - 1]);
            }
        }
    }
}

proof fn lemma_headline_lines_shift(a: Seq<Seq<char>>, b: Seq<Seq<char>>, m: int)
    requires
        0 <= m <= b.len(),
    ensures
        headline_lines(a + b, a.len() + m) == headline_lines(b, m),
    decreases b.len() - m,
{
    if m < b.len() {
        assert((a + b)[a.len() + m] == b[m]);
        lemma_headline_lines_shift(a, b, m + 1);
    }
}

proof fn lemma_headline_lines_add(a: Seq<Seq<char>>, b: Seq<Seq<char>>, i: int)
    requires
        0 <= i <= a.len(),
    ensures
        headline_lines(a + b, i) == headline_lines(a, i) + headline_lines(b, 0),
    decreases a.len() - i,
{
    if i == a.len() {
        lemma_headline_lines_shift(a, b, 0);
        assert(headline_lines(a, i) =~= Seq::<Seq<char>>::empty());
        assert(headline_lines(a + b, i) =~= headline_lines(a, i) + headline_lines(b, 0));
    } else {
        lemma_headline_lines_add(a, b, i + 1);
        assert((a + b)[i] == a[i]);
        if is_headline(a[i]) {
            assert(headline_lines(a + b, i) =~= seq![a[i]] + (headline_lines(a, i + 1) + headline_lines(b, 0)));
        }
    }
}

proof fn lemma_no_headlines(a: Seq<Seq<char>>, i: int)
    requires
        0 <= i <= a.len(),
        forall|k: int| 0 <= k < a.len() ==> !is_headline(#[trigger] a[k]),
    ensures
        headline_lines(a, i) == Seq::<Seq<char>>::empty(),
    decreases a.len() - i,
{
    if i < a.len() {
        lemma_no_headlines(a, i + 1);
    }
}

proof fn lemma_flat_lines_good(fl: Seq<HeadingModel>)
    requires
        forall|j: int| 0 <= j < fl.len() ==> section_good(#[trigger] fl[j]),
    ensures
        forall|k: int| 0 <= k < flat_lines(fl).len() ==> clean(#[trigger] flat_lines(fl)[k]),
        headline_lines(flat_lines(fl), 0) == fl.map_values(|h: HeadingModel| headline_text(h)),
    decreases fl.len(),
{
    if fl.len() == 0 {
        assert(flat_lines(fl) =~= Seq::<Seq<char>>::empty());
        assert(fl.map_values(|h: HeadingModel| headline_text(h)) =~= Seq::<Seq<char>>::empty());
    } else {
        let h = fl[0];
        let rest = fl.drop_first();
        assert forall|j: int| 0 <= j < rest.len() implies section_good(#[trigger] rest[j]) by {
            assert(rest[j] == fl[j + 1]);
        }
        lemma_flat_lines_good(rest);
        assert(section_good(h));
        let x = headline_text(h);
        let cl = content_lines_of(h);
        let f = flat_lines(rest);
        assert(flat_lines(fl) == section_lines(h) + f);
        assert(section_lines(h) == seq![x] + cl);
        assert forall|k: int| 0 <= k < flat_lines(fl).len() implies clean(#[trigger] flat_lines(fl)[k]) by {
            if k == 0 {
                assert(flat_lines(fl)[k] == x);
            } else if k < 1 + cl.len() {
                assert(flat_lines(fl)[k] == cl[k - 1]);
            } else {
                assert(flat_lines(fl)[k] == f[k - 1 - cl.len()]);
            }
        }
        lemma_headline_lines_add(section_lines(h), f, 0);
        lemma_headline_lines_shift(seq![x], cl, 0);
        lemma_no_headlines(cl, 0);
        assert(is_headline(x));
        assert((seq![x] + cl)[0] == x);
        assert(headline_lines(section_lines(h), 0) =~= seq![x]);
        assert(fl.map_values(|h: HeadingModel| headline_text(h)) =~= seq![x] + rest.map_values(|h: HeadingModel| headline_text(h)));
    }
}

/// The text written for the document read from `s`: the preamble lines,
/// then the lines of each section in document order, all of them clean.
#[verifier::spinoff_prover]
proof fn lemma_written_text(s: Seq<char>)
    requires
        !has_char(s, '\r'),
        s.len() <= usize::MAX,
    ensures
        ({
            let ls = lines(s);
            let p = ls.take(next_headline(ls, 0));
            let d = parse_doc(s);
            let fl = flat(d.headings);
            let x = p + flat_lines(fl);
            &&& forall|j: int| 0 <= j < fl.len() ==> section_good(#[trigger] fl[j])
            &&& forall|i: int| 0 <= i < p.len() ==> clean(#[trigger] p[i]) && !is_headline(p[i])
            &&& forall|i: int| 0 <= i < x.len() ==> clean(#[trigger] x[i])
            &&& d.preamble == unlines(p)
            &&& write_doc(d) == unlines(x)
            &&& lines(write_doc(d)) == x
            &&& next_headline(x, 0) == p.len()
            &&& headline_lines(x, 0) == fl.map_values(|h: HeadingModel| headline_text(h))
            &&& walk_list(d.headings, seq![]).len() == fl.len()
            &&& forall|j: int| 0 <= j < fl.len() ==> bare((#[trigger] walk_list(d.headings, seq![])[j]).1) == fl[j]
            &&& fl == sections_from(ls, next_headline(ls, 0), d.settings).map_values(|h: HeadingModel| bare(h))
        }),
{
    let ls = lines(s);
    lemma_lines_clean(s);
    lemma_lines_short(s);
    lemma_next_headline_props(ls, 0);
    lemma_next_headline_skips(ls, 0);
    let k = next_headline(ls, 0);
    let d = parse_doc(s);
    let st = d.settings;
    let fs = sections_from(ls, k, st);
    lemma_sections_good(ls, k, st);
    lemma_flat_forest(fs, 0, fs.len() as int);
    assert(fs.subrange(0, fs.len() as int) =~= fs);
    let fl = flat(d.headings);
    assert forall|j: int| 0 <= j < fl.len() implies section_good(#[trigger] fl[j]) by {
        assert(fl[j] == bare(fs[j]));
        assert(section_good(fs[j]));
        assert(headline_text(bare(fs[j])) == headline_text(fs[j]));
        assert(content_lines_of(bare(fs[j])) == content_lines_of(fs[j]));
    }
    assert(bodies_whole(fl)) by {
        assert forall|j: int| 0 <= j < fl.len() implies body_whole(#[trigger] fl[j]) by {
            assert(section_good(fl[j]));
        }
    }
    lemma_headings_text(d.headings);
    lemma_flat_lines_good(fl);
    let p = ls.take(k);
    assert forall|i: int| 0 <= i < p.len() implies clean(#[trigger] p[i]) && !is_headline(p[i]) by {
        assert(p[i] == ls[i]);
    }
    let x = p + flat_lines(fl);
    assert forall|i: int| 0 <= i < x.len() implies clean(#[trigger] x[i]) by {
        if i < p.len() {
            assert(x[i] == p[i]);
        } else {
            assert(x[i] == flat_lines(fl)[i - p.len()]);
        }
    }
    lemma_clean_plain(x);
    lemma_unlines_add(p, flat_lines(fl));
    lemma_unlines_ends(x);
    assert(d.preamble == unlines(p));
    assert(write_doc(d) == unlines(x));
    lemma_lines_unlines(x);
    lemma_headline_lines_add(p, flat_lines(fl), 0);
    lemma_no_headlines(p, 0);
    assert(headline_lines(x, 0) =~= fl.map_values(|h: HeadingModel| headline_text(h)));
    lemma_parse_headlines(write_doc(d));
    lemma_walk_list_flat(d.headings, seq![]);
    lemma_walk_list_flat(d.headings, seq![]);
    assert forall|i: int| 0 <= i < p.len() implies !is_headline(#[trigger] x[i]) by {
        assert(x[i] == p[i]);
    }
    if fl.len() > 0 {
        assert(x[p.len() as int] == headline_text(fl[0])) by {
            assert(flat_lines(fl) == section_lines(fl[0]) + flat_lines(fl.drop_first()));
        }
        assert(section_good(fl[0]));
    } else {
        assert(flat_lines(fl) =~= Seq::<Seq<char>>::empty());
    }
    lemma_next_headline(x, 0, p.len() as int);
}

/// Every heading read from text without carriage returns (of a length that
/// fits in memory) is written faithfully (`headline_ok`), except exactly
/// the headings whose title reads as a keyword once written
/// (`title_reads_as_keyword`).
pub proof fn lemma_parse_headline_ok(s: Seq<char>)
    requires
        !has_char(s, '\r'),
        s.len() <= usize::MAX,
    ensures
        forall|j: int| 0 <= j < walk_list(parse_doc(s).headings, seq![]).len() ==> (headline_ok(
            (#[trigger] walk_list(parse_doc(s).headings, seq![])[j]).1,
            parse_doc(s).settings,
        ) <==> !title_reads_as_keyword(walk_list(parse_doc(s).headings, seq![])[j].1, parse_doc(s).settings)),
{
    lemma_written_text(s);
    let ls = lines(s);
    let k = next_headline(ls, 0);
    let d = parse_doc(s);
    let st = d.settings;
    let fs = sections_from(ls, k, st);
    let fl = flat(d.headings);
    lemma_lines_clean(s);
    lemma_lines_short(s);
    lemma_next_headline_props(ls, 0);
    lemma_settings_words(unlines(ls.take(k)));
    lemma_sections_faithful(ls, k, st);
    let w = walk_list(d.headings, seq![]);
    assert forall|j: int| 0 <= j < w.len() implies (headline_ok((#[trigger] w[j]).1, st) <==> !title_reads_as_keyword(w[j].1, st)) by {
        assert(bare(w[j].1) == fl[j]);
        assert(fl[j] == bare(fs[j]));
        assert(headline_faithful(fs[j], st));
        assert(headline_ok(w[j].1, st) == headline_ok(fs[j], st));
        assert(title_reads_as_keyword(w[j].1, st) == title_reads_as_keyword(fs[j], st));
    }
}

/// Writing a parsed document and reading it again keeps the tree's shape:
/// for text without carriage returns (of a length that fits in memory), the
/// document read back has the same preamble and settings, and its
/// depth-first walk lists as many headings as that of the document first
/// read, at the same addresses and the same levels. Each heading read back
/// has the keyword, priority, title and tags that the headline written for
/// the first one reads as; these fields survive exactly for the headings
/// whose title does not read as a keyword once written
/// (`title_reads_as_keyword`: `* TODO\t :a:` is read without keyword, with
/// title `TODO`, and written as `* TODO :a:`). Content may be regrouped.
#[verifier::spinoff_prover]
pub proof fn lemma_reread_shape(s: Seq<char>)
    requires
        !has_char(s, '\r'),
        s.len() <= usize::MAX,
    ensures
        parse_doc(write_doc(parse_doc(s))).preamble == parse_doc(s).preamble,
        parse_doc(write_doc(parse_doc(s))).settings == parse_doc(s).settings,
        walk_list(parse_doc(write_doc(parse_doc(s))).headings, seq![]).len() == walk_list(parse_doc(s).headings, seq![]).len(),
        forall|j: int| 0 <= j < walk_list(parse_doc(s).headings, seq![]).len() ==> {
            &&& (#[trigger] walk_list(parse_doc(write_doc(parse_doc(s))).headings, seq![])[j]).0
                == walk_list(parse_doc(s).headings, seq![])[j].0
            &&& walk_list(parse_doc(write_doc(parse_doc(s))).headings, seq![])[j].1.level
                == walk_list(parse_doc(s).headings, seq![])[j].1.level
            &&& headline_parts(
                headline_text(walk_list(parse_doc(s).headings, seq![])[j].1),
                parse_doc(s).settings,
            ) == ({
                let h2 = walk_list(parse_doc(write_doc(parse_doc(s))).headings, seq![])[j].1;
                (h2.level, h2.keyword, h2.priority, h2.title, h2.tags)
            })
            &&& ({
                let h1 = walk_list(parse_doc(s).headings, seq![])[j].1;
                let h2 = walk_list(parse_doc(write_doc(parse_doc(s))).headings, seq![])[j].1;
                (h2.keyword, h2.priority, h2.title, h2.tags) == (h1.keyword, h1.priority, h1.title, h1.tags)
                    <==> !title_reads_as_keyword(h1, parse_doc(s).settings)
            })
        },
{
    lemma_written_text(s);
    let ls = lines(s);
    let k = next_headline(ls, 0);
    let d = parse_doc(s);
    let st = d.settings;
    let fs = sections_from(ls, k, st);
    let fl = flat(d.headings);
    let p = ls.take(k);
    let x = p + flat_lines(fl);
    lemma_parse_headlines(write_doc(d));
    lemma_walk_list_flat(d.headings, seq![]);
    lemma_lines_clean(s);
    lemma_lines_short(s);
    lemma_next_headline_props(ls, 0);
    lemma_settings_words(unlines(ls.take(k)));
    lemma_sections_faithful(ls, k, st);
    let w1 = walk_list(d.headings, seq![]);
    let w2 = walk_list(parse_doc(write_doc(d)).headings, seq![]);
    assert forall|j: int| 0 <= j < w1.len() implies (#[trigger] w2[j]).1.level == w1[j].1.level by {
        assert(bare(w1[j].1) == fl[j]);
        assert(headline_lines(x, 0)[j] == headline_text(fl[j]));
        assert(section_good(fl[j]));
    }
    let t = write_doc(d);
    let d2 = parse_doc(t);
    let ls2 = lines(t);
    let k2 = next_headline(ls2, 0);
    assert(x.take(k2) =~= p);
    let fs2 = sections_from(ls2, k2, settings_of(unlines(ls2.take(k2))));
    lemma_flat_forest(fs2, 0, fs2.len() as int);
    assert(fs2.subrange(0, fs2.len() as int) =~= fs2);
    lemma_walk_list_flat(d2.headings, seq![]);
    assert(levels_of(fs) =~= levels_of(fs2)) by {
        assert forall|j: int| 0 <= j < fs.len() implies levels_of(fs)[j] == levels_of(fs2)[j] by {
            assert(bare(w1[j].1) == flat(d.headings)[j]);
            assert(bare(w2[j].1) == flat(d2.headings)[j]);
            assert(flat(d.headings)[j] == bare(fs[j]));
            assert(flat(d2.headings)[j] == bare(fs2[j]));
            assert(w2[j].1.level == w1[j].1.level);
        }
    }
    lemma_shape_forest(fs, 0, fs.len() as int);
    lemma_shape_forest(fs2, 0, fs2.len() as int);
    lemma_walk_list_shape(d.headings, seq![]);
    lemma_walk_list_shape(d2.headings, seq![]);
    assert forall|j: int| 0 <= j < w1.len() implies (#[trigger] w2[j]).0 == w1[j].0 by {
        assert(walk_list(shape_list(d2.headings), seq![])[j].0 == w2[j].0);
        assert(walk_list(shape_list(d.headings), seq![])[j].0 == w1[j].0);
    }
    assert(d2.settings == st);
    assert forall|j: int| 0 <= j < w1.len() implies {
        &&& headline_parts(headline_text(w1[j].1), st) == ({
            let h2 = (#[trigger] w2[j]).1;
            (h2.level, h2.keyword, h2.priority, h2.title, h2.tags)
        })
        &&& ({
            let h1 = w1[j].1;
            let h2 = w2[j].1;
            (h2.keyword, h2.priority, h2.title, h2.tags) == (h1.keyword, h1.priority, h1.title, h1.tags)
                <==> !title_reads_as_keyword(h1, st)
        })
    } by {
        assert(bare(w1[j].1) == fl[j]);
        assert(fl[j] == bare(fs[j]));
        assert(headline_faithful(fs[j], st));
        assert(headline_text(fl[j]) == headline_text(w1[j].1));
        assert(headline_text(fs[j]) == headline_text(w1[j].1));
        assert(headline_lines(x, 0)[j] == headline_text(fl[j]));
        assert(headline_ok(w1[j].1, st) == headline_ok(fs[j], st));
        assert(title_reads_as_keyword(w1[j].1, st) == title_reads_as_keyword(fs[j], st));
        if headline_ok(w1[j].1, st) {
            lemma_headline_roundtrip(w1[j].1, st);
        }
    }
}

/// Whether the lines written for the section of `h` come out unchanged
/// when they are read back as a section and written again.
pub open spec fn section_rereads(h: HeadingModel, st: SettingsModel) -> bool {
    section_lines(section_model(headline_text(h), content_lines_of(h), st)) == section_lines(h)
}

#[verifier::spinoff_prover]
proof fn lemma_sections_reread(xs: Seq<Seq<char>>, fl: Seq<HeadingModel>, st: SettingsModel)
    requires
        forall|j: int| 0 <= j < fl.len() ==> section_good(#[trigger] fl[j]),
    ensures
        sections_from(xs + flat_lines(fl), xs.len() as int, st)
            == fl.map_values(|h: HeadingModel| section_model(headline_text(h), content_lines_of(h), st)),
    decreases fl.len(),
{
    let ls = xs + flat_lines(fl);
    let i = xs.len() as int;
    let m = fl.map_values(|h: HeadingModel| section_model(headline_text(h), content_lines_of(h), st));
    if fl.len() == 0 {
        assert(flat_lines(fl) =~= Seq::<Seq<char>>::empty());
        assert(ls.len() == i);
        assert(m =~= Seq::<HeadingModel>::empty());
    } else {
        let f = fl[0];
        let rest = fl.drop_first();
        assert forall|j: int| 0 <= j < rest.len() implies section_good(#[trigger] rest[j]) by {
            assert(rest[j] == fl[j + 1]);
        }
        assert(section_good(f));
        let sl = section_lines(f);
        let xs2 = xs + sl;
        assert(flat_lines(fl) == sl + flat_lines(rest));
        assert(ls =~= xs2 + flat_lines(rest));
        let j = xs2.len() as int;
        assert(ls[i] == sl[0]);
        assert forall|k: int| i + 1 <= k < j implies !is_headline(#[trigger] ls[k]) by {
            assert(ls[k] == sl[k - i]);
            assert(sl[k - i] == content_lines_of(f)[k - i - 1]);
        }
        if rest.len() > 0 {
            assert(section_good(rest[0]));
            assert(flat_lines(rest) == section_lines(rest[0]) + flat_lines(rest.drop_first()));
            assert(ls[j] == section_lines(rest[0])[0]);
        } else {
            assert(flat_lines(rest) =~= Seq::<Seq<char>>::empty());
            assert(ls.len() == j);
        }
        lemma_next_headline(ls, i + 1, j);
        assert(ls.subrange(i + 1, j) =~= content_lines_of(f));
        lemma_sections_reread(xs2, rest, st);
        assert(m =~= seq![section_model(headline_text(f), content_lines_of(f), st)]
            + rest.map_values(|h: HeadingModel| section_model(headline_text(h), content_lines_of(h), st)));
    }
}

proof fn lemma_flat_lines_eq(a: Seq<HeadingModel>, b: Seq<HeadingModel>)
    requires
        a.len() == b.len(),
        forall|j: int| 0 <= j < a.len() ==> section_lines(#[trigger] a[j]) == section_lines(b[j]),
    ensures
        flat_lines(a) == flat_lines(b),
    decreases a.len(),
{
    if a.len() > 0 {
        assert forall|j: int| 0 <= j < a.len() - 1 implies section_lines(#[trigger] a.drop_first()[j]) == section_lines(b.drop_first()[j]) by {
            assert(a.drop_first()[j] == a[j + 1]);
            assert(b.drop_first()[j] == b[j + 1]);
        }
        lemma_flat_lines_eq(a.drop_first(), b.drop_first());
        assert(section_lines(a[0]) == section_lines(b[0]));
    }
}

#[verifier::spinoff_prover]
proof fn lemma_flat_lines_inj(a: Seq<HeadingModel>, b: Seq<HeadingModel>)
    requires
        a.len() == b.len(),
        forall|j: int| 0 <= j < a.len() ==> section_good(#[trigger] a[j]),
        forall|j: int| 0 <= j < b.len() ==> section_good(#[trigger] b[j]),
        flat_lines(a) == flat_lines(b),
    ensures
        forall|j: int| 0 <= j < a.len() ==> section_lines(#[trigger] a[j]) == section_lines(b[j]),
    decreases a.len(),
{
    if a.len() > 0 {
        let ra = a.drop_first();
        let rb = b.drop_first();
        let ca = content_lines_of(a[0]);
        let cb = content_lines_of(b[0]);
        let fa = flat_lines(ra);
        let fb = flat_lines(rb);
        assert(section_good(a[0]) && section_good(b[0]));
        assert(flat_lines(a) == section_lines(a[0]) + fa);
        assert(flat_lines(b) == section_lines(b[0]) + fb);
        assert(section_lines(a[0]) == seq![headline_text(a[0])] + ca);
        assert(section_lines(b[0]) == seq![headline_text(b[0])] + cb);
        assert forall|j: int| 0 <= j < ra.len() implies section_good(#[trigger] ra[j]) by {
            assert(ra[j] == a[j + 1]);
        }
        assert forall|j: int| 0 <= j < rb.len() implies section_good(#[trigger] rb[j]) by {
            assert(rb[j] == b[j + 1]);
        }
        let fl = flat_lines(a);
        if ca.len() < cb.len() {
            let q: int = 1 + ca.len() as int;
            assert(fl[q] == cb[ca.len() as int]);
            assert(!is_headline(cb[ca.len() as int]));
            if ra.len() > 0 {
                assert(section_good(ra[0]));
                assert(fa == section_lines(ra[0]) + flat_lines(ra.drop_first()));
                assert(fl[q] == fa[0]);
                assert(fa[0] == headline_text(ra[0]));
            } else {
                assert(fa =~= Seq::<Seq<char>>::empty());
                assert(fl.len() == q);
            }
        }
        if cb.len() < ca.len() {
            let q: int = 1 + cb.len() as int;
            assert(fl[q] == ca[cb.len() as int]);
            assert(!is_headline(ca[cb.len() as int]));
            if rb.len() > 0 {
                assert(section_good(rb[0]));
                assert(fb == section_lines(rb[0]) + flat_lines(rb.drop_first()));
                assert(fl[q] == fb[0]);
                assert(fb[0] == headline_text(rb[0]));
            } else {
                assert(fb =~= Seq::<Seq<char>>::empty());
                assert(fl.len() == q);
            }
        }
        assert(ca.len() == cb.len());
        assert(section_lines(a[0]) =~= fl.take(1 + ca.len() as int));
        assert(section_lines(b[0]) =~= fl.take(1 + cb.len() as int));
        assert(fa =~= fl.skip(1 + ca.len() as int));
        assert(fb =~= fl.skip(1 + cb.len() as int));
        lemma_flat_lines_inj(ra, rb);
        assert forall|j: int| 0 <= j < a.len() implies section_lines(#[trigger] a[j]) == section_lines(b[j]) by {
            if j > 0 {
                assert(a[j] == ra[j - 1]);
                assert(b[j] == rb[j - 1]);
            }
        }
    }
}

/// Writing is stable under reading exactly section by section: for text
/// without carriage returns (of a length that fits in memory), reading
/// what was written for the document read from it and writing that again
/// gives the same text if and only if, for every heading of the walk, the
/// lines written for its section come out unchanged when read back as a
/// section and written again.
#[verifier::spinoff_prover]
pub proof fn lemma_write_stable(t: Seq<char>)
    requires
        !has_char(t, '\r'),
        t.len() <= usize::MAX,
    ensures
        write_doc(parse_doc(write_doc(parse_doc(t)))) == write_doc(parse_doc(t)) <==> forall|j: int|
            0 <= j < walk_list(parse_doc(t).headings, seq![]).len() ==> section_rereads(
                (#[trigger] walk_list(parse_doc(t).headings, seq![])[j]).1,
                parse_doc(t).settings,
            ),
{
    lemma_written_text(t);
    let ls = lines(t);
    let d = parse_doc(t);
    let st = d.settings;
    let fl = flat(d.headings);
    let p = ls.take(next_headline(ls, 0));
    let x = p + flat_lines(fl);
    let w = walk_list(d.headings, seq![]);
    let fr = fl.map_values(|h: HeadingModel| section_model(headline_text(h), content_lines_of(h), st));
    assert forall|j: int| 0 <= j < fr.len() implies section_good(#[trigger] fr[j]) by {
        let h = fl[j];
        assert(section_good(h));
        lemma_headline_is_headline(h);
        let c = content_lines_of(h);
        assert forall|k: int| 0 <= k < c.len() implies clean(#[trigger] c[k]) && !is_headline(c[k]) by {}
        lemma_section_good(headline_text(h), c, st);
    }
    lemma_sections_reread(p, fl, st);
    let t1 = write_doc(d);
    let d2 = parse_doc(t1);
    let k2 = next_headline(x, 0);
    assert(x.take(k2) =~= p);
    assert(d.preamble == unlines(p));
    assert(d2.preamble == d.preamble);
    assert(d2.settings == settings_of(d.preamble));
    assert(st == settings_of(d.preamble));
    let fs2 = sections_from(x, k2, d2.settings);
    assert(fs2 == fr);
    lemma_flat_forest(fr, 0, fr.len() as int);
    assert(fr.subrange(0, fr.len() as int) =~= fr);
    assert(fr.map_values(|h: HeadingModel| bare(h)) =~= fr);
    assert(flat(d2.headings) == fr);
    assert(bodies_whole(fr)) by {
        assert forall|j: int| 0 <= j < fr.len() implies body_whole(#[trigger] fr[j]) by {
            assert(section_good(fr[j]));
        }
    }
    lemma_headings_text(d2.headings);
    let x2 = p + flat_lines(fr);
    lemma_unlines_add(p, flat_lines(fr));
    lemma_unlines_ends(x2);
    assert(write_doc(d2) == unlines(x2));
    assert forall|j: int| 0 <= j < fl.len() implies
        section_lines(#[trigger] fr[j]) == section_lines(section_model(headline_text(w[j].1), content_lines_of(w[j].1), st))
        && section_lines(fl[j]) == section_lines(w[j].1) by {
        assert(bare(w[j].1) == fl[j]);
    }
    if forall|j: int| 0 <= j < w.len() ==> section_rereads(#[trigger] w[j].1, st) {
        assert forall|j: int| 0 <= j < fr.len() implies section_lines(#[trigger] fr[j]) == section_lines(fl[j]) by {
            assert(section_rereads(w[j].1, st));
        }
        lemma_flat_lines_eq(fr, fl);
        assert(x2 == x);
    }
    if write_doc(d2) == t1 {
        lemma_flat_lines_good(fr);
        assert forall|i: int| 0 <= i < x2.len() implies clean(#[trigger] x2[i]) by {
            if i < p.len() {
                assert(x2[i] == p[i]);
            } else {
                assert(x2[i] == flat_lines(fr)[i - p.len()]);
            }
        }
        lemma_clean_plain(x2);
        lemma_lines_unlines(x2);
        assert(x2 == x);
        assert(flat_lines(fr) =~= x2.skip(p.len() as int));
        assert(flat_lines(fl) =~= x.skip(p.len() as int));
        lemma_flat_lines_inj(fr, fl);
        assert forall|j: int| 0 <= j < w.len() implies section_rereads(#[trigger] w[j].1, st) by {
            assert(section_lines(fr[j]) == section_lines(fl[j]));
        }
    }
}

/// Whether the writer represents the document `d` faithfully: its preamble
/// is whole plain lines, none of them a headline; its keyword settings are
/// the ones its preamble declares; every section reads back; and the tree
/// nests as its levels say.
pub open spec fn doc_ok(d: DocModel) -> bool {
    &&& unlines(lines(d.preamble)) == d.preamble
    &&& plain_lines(lines(d.preamble))
    &&& forall|i: int| 0 <= i < lines(d.preamble).len() ==> !is_headline(#[trigger] lines(d.preamble)[i])
    &&& d.settings == settings_of(d.preamble)
    &&& sections_ok(flat(d.headings), d.settings)
    &&& tree_ok(d.headings)
}

/// Round trip: parsing the text that the writer makes of a document gives
/// the document back, for every document that the writer represents
/// faithfully.
pub proof fn lemma_parse_write(d: DocModel)
    requires
        doc_ok(d),
    ensures
        parse_doc(write_doc(d)) == d,
{
    let st = d.settings;
    let p = lines(d.preamble);
    let fl = flat(d.headings);
    let sl = flat_lines(fl);
    assert(bodies_whole(fl)) by {
        assert forall|k: int| 0 <= k < fl.len() implies body_whole(#[trigger] fl[k]) by {
            assert(section_ok(fl[k], st));
        }
    }
    lemma_headings_text(d.headings);
    lemma_unlines_add(p, sl);
    let out = d.preamble + headings_text(d.headings);
    assert(out == unlines(p + sl));
    lemma_unlines_ends(p + sl);
    assert(write_doc(d) == out);
    lemma_flat_lines_plain(fl, st);
    assert(plain_lines(p + sl)) by {
        assert forall|i: int| 0 <= i < (p + sl).len() implies plain_line(#[trigger] (p + sl)[i]) by {
            if i < p.len() {
                assert((p + sl)[i] == p[i]);
            } else {
                assert((p + sl)[i] == sl[i - p.len()]);
            }
        }
    }
    lemma_lines_unlines(p + sl);
    let ls = p + sl;
    assert(lines(out) == ls);
    // The preamble ends where the first section starts.
    assert forall|k: int| 0 <= k < p.len() implies !is_headline(#[trigger] ls[k]) by {
        assert(ls[k] == p[k]);
    }
    if fl.len() > 0 {
        assert(section_ok(fl[0], st));
        lemma_section_lines(fl[0], st);
        assert(sl =~= section_lines(fl[0]) + flat_lines(fl.drop_first()));
        assert(ls[p.len() as int] == section_lines(fl[0])[0]);
    } else {
        assert(sl =~= Seq::<Seq<char>>::empty());
    }
    lemma_next_headline(ls, 0, p.len() as int);
    assert(ls.take(p.len() as int) =~= p);
    lemma_sections_roundtrip(p, fl, st);
    lemma_forest_roundtrip(Seq::<HeadingModel>::empty(), d.headings, Seq::<HeadingModel>::empty());
    assert(Seq::<HeadingModel>::empty() + fl + Seq::<HeadingModel>::empty() =~= fl);
    assert(parse_doc(write_doc(d)) =~= d);
}

/// Round trip on text: the text that the writer makes of a faithfully
/// represented document is reproduced exactly by reading and writing it.
pub proof fn lemma_write_parse_written(d: DocModel)
    requires
        doc_ok(d),
    ensures
        write_doc(parse_doc(write_doc(d))) == write_doc(d),
{
    lemma_parse_write(d);
}

/// Writing is stable under reading: when the document read from `t` is
/// represented faithfully, reading the written text and writing it again
/// gives the same text.
pub proof fn lemma_write_parse_stable(t: Seq<char>)
    requires
        doc_ok(parse_doc(t)),
    ensures
        write_doc(parse_doc(write_doc(parse_doc(t)))) == write_doc(parse_doc(t)),
{
    lemma_parse_write(parse_doc(t));
}

} // verus!
