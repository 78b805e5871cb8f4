//! Serialising an `OrgDoc` back to org-mode text.

use vstd::prelude::*;
use vstd::string::*;
use crate::model::{Heading, HeadingModel, OrgDoc, DocModel, headings_model, lemma_headings_model};
use crate::text::{
    join, push_char, push_joined, push_str,
};

verus! {

broadcast use vstd::string::group_string_axioms;

/// `n` stars.
pub open spec fn stars(n: nat) -> Seq<char> {
    Seq::new(n, |i: int| '*')
}

/// What a headline shows after its stars: the keyword and a space, the
/// priority cookie `[#X] `, the title, and ` :tags:`.
pub open spec fn summary_text(h: HeadingModel) -> Seq<char> {
    (match h.keyword {
        Some(k) => k + seq![' '],
        None => seq![],
    }) + match h.priority {
        Some(p) => seq!['[', '#', p, ']', ' '],
        None => seq![],
    } + h.title + if h.tags.len() > 0 {
        seq![' ', ':'] + join(h.tags, seq![':']) + seq![':']
    } else {
        seq![]
    }
}

/// The headline of `h` (without line ending): stars, a space, and the
/// summary of `h`.
pub open spec fn headline_text(h: HeadingModel) -> Seq<char> {
    stars(h.level as nat) + seq![' '] + summary_text(h)
}

/// One line of a property drawer: `:KEY: value`, or `:KEY:` for an empty
/// value.
pub open spec fn property_text(p: (Seq<char>, Seq<char>)) -> Seq<char> {
    if p.1.len() == 0 {
        seq![':'] + p.0 + seq![':', '\n']
    } else {
        seq![':'] + p.0 + seq![':', ' '] + p.1 + seq!['\n']
    }
}

/// The drawer lines of `props`.
pub open spec fn properties_text(props: Seq<(Seq<char>, Seq<char>)>) -> Seq<char>
    decreases props.len(),
{
    if props.len() == 0 {
        seq![]
    } else {
        properties_text(props.drop_last()) + property_text(props.last())
    }
}

/// The text of the section of `h` without its children: headline, planning
/// line, property drawer (only when there are properties), body.
pub open spec fn section_text(h: HeadingModel) -> Seq<char> {
    headline_text(h) + seq!['\n'] + match h.planning {
        Some(p) => p + seq!['\n'],
        None => seq![],
    } + if h.properties.len() > 0 {
        ":PROPERTIES:\n"@ + properties_text(h.properties) + ":END:\n"@
    } else {
        seq![]
    } + h.body
}

/// The text of `h` and its subtree.
pub open spec fn heading_text(h: HeadingModel) -> Seq<char>
    decreases h,
{
    section_text(h) + headings_text(h.children)
}

/// The text of the headings `hs` and their subtrees, in order.
pub open spec fn headings_text(hs: Seq<HeadingModel>) -> Seq<char>
    decreases hs,
{
    if hs.len() == 0 {
        seq![]
    } else {
        headings_text(hs.drop_last()) + heading_text(hs.last())
    }
}

/// The org text of a document: preamble and headings, with a final `\n`
/// added when the text is not empty and does not end with one.
pub open spec fn write_doc(d: DocModel) -> Seq<char> {
    let out = d.preamble + headings_text(d.headings);
    if out.len() > 0 && out.last() != '\n' {
        out.push('\n')
    } else {
        out
    }
}

/// Appends the summary of `h` (keyword, priority, title, tags) to `line`.
pub fn push_summary(line: &mut String, h: &Heading)
    ensures
        final(line)@ == old(line)@ + summary_text(h@),
{
    match &h.keyword {
        Some(kw) => {
            push_str(line, kw.as_str());
            push_char(line, ' ');
        },
        None => {},
    }
    let ghost b = line@;
    match h.priority {
        Some(p) => {
            push_char(line, '[');
            push_char(line, '#');
            push_char(line, p);
            push_char(line, ']');
            push_char(line, ' ');
        },
        None => {},
    }
    let ghost c = line@;
    push_str(line, h.title.as_str());
    let ghost d = line@;
    if h.tags.len() > 0 {
        push_char(line, ' ');
        push_char(line, ':');
        push_joined(line, &h.tags, ":");
        proof {
            reveal_strlit(":");
            assert(":"@ =~= seq![':']);
        }
        push_char(line, ':');
    }
    assert(line@ =~= old(line)@ + summary_text(h@));
}

/// Appends the headline of `h` to `line`.
fn push_headline(line: &mut String, h: &Heading)
    ensures
        final(line)@ == old(line)@ + headline_text(h@),
{
    let mut i: usize = 0;
    while i < h.level
        invariant
            i <= h.level,
            line@ == old(line)@ + stars(i as nat),
        decreases h.level - i,
    {
        push_char(line, '*');
        assert(stars((i + 1) as nat) =~= stars(i as nat).push('*'));
        i += 1;
    }
    push_char(line, ' ');
    push_summary(line, h);
    assert(line@ =~= old(line)@ + headline_text(h@));
}

/// Format a single headline line (without trailing newline).
pub fn format_headline(h: &Heading) -> (r: String)
    ensures
        r@ == headline_text(h@),
{
    let mut line = String::new();
    push_headline(&mut line, h);
    line
}

/// Appends the drawer lines of `props` to `out`.
fn push_properties(out: &mut String, props: &Vec<(String, String)>)
    ensures
        final(out)@ == old(out)@ + properties_text(crate::model::pairs_of(props@)),
{
    let ghost ps = crate::model::pairs_of(props@);
    let mut i: usize = 0;
    while i < props.len()
        invariant
            ps == crate::model::pairs_of(props@),
            i <= props@.len(),
            out@ == old(out)@ + properties_text(ps.take(i as int)),
        decreases props.len() - i,
    {
        let (key, value) = (&props[i].0, &props[i].1);
        assert(ps.take(i + 1).drop_last() =~= ps.take(i as int));
        assert(ps.take(i + 1).last() == (key@, value@));
        push_char(out, ':');
        push_str(out, key.as_str());
        push_char(out, ':');
        if value.as_str().is_empty() {
            push_char(out, '\n');
        } else {
            push_char(out, ' ');
            push_str(out, value.as_str());
            push_char(out, '\n');
        }
        assert(out@ =~= old(out)@ + properties_text(ps.take(i + 1)));
        i += 1;
    }
    assert(ps.take(i as int) =~= ps);
}

fn write_heading(out: &mut String, h: &Heading)
    ensures
        final(out)@ == old(out)@ + heading_text(h@),
    decreases h, 0nat,
{
    // Headline
    push_headline(out, h);
    push_char(out, '\n');
    let ghost a = out@;
    // Planning
    match &h.planning {
        Some(p) => {
            push_str(out, p.as_str());
            push_char(out, '\n');
        },
        None => {},
    }
    let ghost b = out@;
    // Property drawer
    if h.properties.len() > 0 {
        push_str(out, ":PROPERTIES:\n");
        push_properties(out, &h.properties);
        push_str(out, ":END:\n");
    }
    let ghost c = out@;
    // Body (already contains its own newlines)
    push_str(out, h.body.as_str());
    assert(out@ =~= old(out)@ + section_text(h@));
    // Children
    write_headings(out, &h.children);
    assert(out@ =~= old(out)@ + heading_text(h@));
}

fn write_headings(out: &mut String, hs: &Vec<Heading>)
    ensures
        final(out)@ == old(out)@ + headings_text(headings_model(hs@)),
    decreases hs, 1nat,
{
    let mut i: usize = 0;
    while i < hs.len()
        invariant
            i <= hs@.len(),
            out@ == old(out)@ + headings_text(headings_model(hs@).take(i as int)),
        decreases hs@.len() - i,
    {
        write_heading(out, &hs[i]);
        proof {
            lemma_headings_model(hs@);
            let t = headings_model(hs@).take(i + 1);
            assert(t.drop_last() =~= headings_model(hs@).take(i as int));
            assert(t.last() == hs@[i as int]@);
        }
        assert(out@ =~= old(out)@ + headings_text(headings_model(hs@).take(i + 1)));
        i += 1;
    }
    proof {
        lemma_headings_model(hs@);
    }
    assert(headings_model(hs@).take(i as int) =~= headings_model(hs@));
}

/// Serialise an `OrgDoc` back to org-mode text.
pub fn write(doc: &OrgDoc) -> (r: String)
    ensures
        r@ == write_doc(doc@),
{
    let mut out = String::new();
    push_str(&mut out, doc.preamble.as_str());
    write_headings(&mut out, &doc.headings);
    // Ensure trailing newline.
    let cs = crate::text::chars_of(out.as_str());
    if cs.len() > 0 && cs[cs.len() - 1] != '\n' {
        push_char(&mut out, '\n');
    }
    out
}

/// The written text is empty or ends with a line break, and it starts with
/// the preamble.
pub proof fn lemma_write_shape(d: DocModel)
    ensures
        write_doc(d).len() == 0 || write_doc(d).last() == '\n',
        write_doc(d).take(d.preamble.len() as int) == d.preamble,
{
    let out = d.preamble + headings_text(d.headings);
    assert(out.take(d.preamble.len() as int) =~= d.preamble);
    assert(out.push('\n').take(d.preamble.len() as int) =~= d.preamble);
}

} // verus!
