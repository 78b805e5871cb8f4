//! What `show` and `find` display: the outline as text, one line per
//! heading with its positional address, and the outline as a tree of plain
//! values for JSON output.

use vstd::prelude::*;
use vstd::string::*;
use crate::model::{
    DocModel, Heading, HeadingModel, OrgDoc, addr_text, group_headings_model, heading_at_path,
    headings_model, lemma_doc_lens_fit, lemma_list_at_path, lemma_list_at_push, 
    lemma_walk_names, lens_fit, list_at, opt_str, pairs_of, title_path, valid_parent, valid_path,
    walk_list, walk_view, copy_opt, copy_pairs, copy_strings,
};
use crate::ops::{FindQuery, find, find_result, lemma_matching_from};
use crate::path::{ResolveError, ResolveFailure, lemma_resolve_valid, resolve, resolve_path};
use crate::text::{
    chars_of, join, lines, lines_chars, push_char, push_chars, push_str, seqs_of, string_of, strs_of,
    trim_end, trim_end_chars,
};
use crate::writer::{push_summary, summary_text};

verus! {

broadcast use vstd::string::group_string_axioms, group_headings_model;

// ---------------------------------------------------------------------------
// The outline as text
// ---------------------------------------------------------------------------

/// `s` padded on the right with spaces to at least `n` characters.
pub open spec fn pad_right(s: Seq<char>, n: nat) -> Seq<char> {
    if s.len() >= n {
        s
    } else {
        s + Seq::new((n - s.len()) as nat, |i: int| ' ')
    }
}

/// The body lines as shown under a heading: each behind `         | `.
pub open spec fn content_lines(ls: Seq<Seq<char>>) -> Seq<char>
    decreases ls.len(),
{
    if ls.len() == 0 {
        seq![]
    } else {
        content_lines(ls.drop_last()) + "         | "@ + ls.last() + seq!['\n']
    }
}

/// The outline line of `h` at `addr`: the address padded to 8 characters,
/// a space, the summary; then, with `content`, the lines of a non-empty body.
pub open spec fn heading_line(h: HeadingModel, addr: Seq<usize>, content: bool) -> Seq<char> {
    pad_right(addr_text(addr), 8) + seq![' '] + summary_text(h) + seq!['\n'] + if content && h.body.len() > 0 {
        content_lines(lines(h.body))
    } else {
        seq![]
    }
}

/// Whether a depth limit lets the outline go one level further down.
pub open spec fn descends(depth: Option<usize>) -> bool {
    match depth {
        Some(d) => d > 0,
        None => true,
    }
}

/// The depth limit one level further down.
pub open spec fn lower(depth: Option<usize>) -> Option<usize> {
    match depth {
        Some(d) => Some(if d > 0 { (d - 1) as usize } else { 0 }),
        None => None,
    }
}

/// The outline of the headings `hs` whose addresses extend `base`.
pub open spec fn outline_list(hs: Seq<HeadingModel>, base: Seq<usize>, depth: Option<usize>, content: bool) -> Seq<char>
    decreases hs,
{
    if hs.len() == 0 {
        seq![]
    } else {
        outline_list(hs.drop_last(), base, depth, content) + outline_tree(
            hs.last(),
            base.push((hs.len() - 1) as usize),
            depth,
            content,
        )
    }
}

/// The outline of `h` at `addr`: its line, then, while the depth limit
/// allows, the outline of its children.
pub open spec fn outline_tree(h: HeadingModel, addr: Seq<usize>, depth: Option<usize>, content: bool) -> Seq<char>
    decreases h,
{
    heading_line(h, addr, content) + if descends(depth) {
        outline_list(h.children, addr, lower(depth), content)
    } else {
        seq![]
    }
}

/// What `show` prints: the outline of the heading at `path` (with its
/// subtree), or of the whole document; or why `path` does not resolve.
pub open spec fn show_result(d: DocModel, path: Option<Seq<char>>, depth: Option<usize>, content: bool) -> Result<Seq<char>, ResolveFailure> {
    match path {
        Some(p) => match resolve_path(d.headings, p) {
            Ok(a) => Ok(outline_tree(heading_at_path(d.headings, a), a, depth, content)),
            Err(e) => Err(e),
        },
        None => Ok(outline_list(d.headings, seq![], depth, content)),
    }
}

/// Appends `s` padded on the right with spaces to at least `n` characters.
fn push_padded(out: &mut String, s: &str, n: usize)
    ensures
        final(out)@ == old(out)@ + pad_right(s@, n as nat),
{
    let cs = chars_of(s);
    push_str(out, s);
    let mut k: usize = cs.len();
    while k < n
        invariant
            cs@ == s@,
            cs@.len() <= k <= n || (k == cs@.len() && k >= n),
            out@ == old(out)@ + s@ + Seq::new((k - cs@.len()) as nat, |i: int| ' '),
        decreases n - k,
    {
        push_char(out, ' ');
        assert(Seq::new((k + 1 - cs@.len()) as nat, |i: int| ' ') =~= Seq::new(
            (k - cs@.len()) as nat,
            |i: int| ' ',
        ).push(' '));
        k += 1;
    }
    assert(out@ =~= old(out)@ + pad_right(s@, n as nat));
}

/// Append the outline line of `h` at `addr` to `out`; with `show_content`,
/// also the lines of its body, each behind `         | `.
pub fn format_heading_line(out: &mut String, h: &Heading, addr: &[usize], show_content: bool)
    ensures
        final(out)@ == old(out)@ + heading_line(h@, addr@, show_content),
{
    let addr_str = Heading::format_addr(addr);
    push_padded(out, addr_str.as_str(), 8);
    push_char(out, ' ');
    push_summary(out, h);
    push_char(out, '\n');
    let ghost head = out@;
    let body = chars_of(h.body.as_str());
    if show_content && body.len() > 0 {
        let ls = lines_chars(body.as_slice());
        let mut i: usize = 0;
        while i < ls.len()
            invariant
                i <= ls@.len(),
                out@ == head + content_lines(seqs_of(ls@).take(i as int)),
            decreases ls.len() - i,
        {
            let ghost t = seqs_of(ls@).take(i + 1);
            assert(t.drop_last() =~= seqs_of(ls@).take(i as int));
            assert(t.last() == ls@[i as int]@);
            push_str(out, "         | ");
            push_chars(out, ls[i].as_slice());
            push_char(out, '\n');
            assert(out@ =~= head + content_lines(t));
            i += 1;
        }
        assert(seqs_of(ls@).take(i as int) =~= seqs_of(ls@));
    }
    assert(out@ =~= old(out)@ + heading_line(h@, addr@, show_content));
}

/// The depth limit one level further down (saturating at zero).
fn lower_exec(depth: Option<usize>) -> (r: Option<usize>)
    ensures
        r == lower(depth),
{
    match depth {
        Some(d) => Some(if d > 0 { d - 1 } else { 0 }),
        None => None,
    }
}

fn outline_tree_exec(out: &mut String, h: &Heading, addr: &Vec<usize>, depth: Option<usize>, content: bool)
    ensures
        final(out)@ == old(out)@ + outline_tree(h@, addr@, depth, content),
    decreases h, 0nat,
{
    format_heading_line(out, h, addr.as_slice(), content);
    let descend = match depth {
        Some(d) => d > 0,
        None => true,
    };
    if descend {
        outline_list_exec(out, &h.children, addr, lower_exec(depth), content);
    }
    assert(out@ =~= old(out)@ + outline_tree(h@, addr@, depth, content));
}

fn outline_list_exec(out: &mut String, hs: &Vec<Heading>, base: &Vec<usize>, depth: Option<usize>, content: bool)
    ensures
        final(out)@ == old(out)@ + outline_list(headings_model(hs@), base@, depth, content),
    decreases hs, 1nat,
{
    let mut i: usize = 0;
    while i < hs.len()
        invariant
            i <= hs@.len(),
            out@ == old(out)@ + outline_list(headings_model(hs@).take(i as int), base@, depth, content),
        decreases hs@.len() - i,
    {
        let mut addr = vstd::slice::slice_to_vec(base.as_slice());
        addr.push(i);
        let ghost t = headings_model(hs@).take(i + 1);
        assert(t.drop_last() =~= headings_model(hs@).take(i as int));
        assert(t.last() == hs@[i as int]@);
        assert(addr@ == base@.push(i));
        outline_tree_exec(out, &hs[i], &addr, depth, content);
        i += 1;
    }
    assert(headings_model(hs@).take(i as int) =~= headings_model(hs@));
}

/// The outline of `headings`, their addresses extending `base_addr`, down
/// to `depth` further levels (all levels without a limit).
pub fn format_outline(headings: &[Heading], base_addr: &[usize], depth: Option<usize>, show_content: bool) -> (r: String)
    ensures
        r@ == outline_list(headings_model(headings@), base_addr@, depth, show_content),
{
    let base = vstd::slice::slice_to_vec(base_addr);
    let mut out = String::new();
    let mut i: usize = 0;
    while i < headings.len()
        invariant
            i <= headings@.len(),
            base@ == base_addr@,
            out@ == outline_list(headings_model(headings@).take(i as int), base@, depth, show_content),
        decreases headings@.len() - i,
    {
        let mut addr = vstd::slice::slice_to_vec(base.as_slice());
        addr.push(i);
        let ghost t = headings_model(headings@).take(i + 1);
        assert(t.drop_last() =~= headings_model(headings@).take(i as int));
        assert(t.last() == headings@[i as int]@);
        assert(addr@ == base@.push(i));
        outline_tree_exec(&mut out, &headings[i], &addr, depth, show_content);
        i += 1;
    }
    assert(headings_model(headings@).take(i as int) =~= headings_model(headings@));
    out
}

/// The text that `show` prints: the heading at `path` and its subtree, or
/// the whole outline; `depth` limits how many levels below are shown.
pub fn show_text(doc: &OrgDoc, path: Option<&str>, depth: Option<usize>, show_content: bool) -> (r: Result<String, ResolveError>)
    ensures
        match show_result(doc@, match path { Some(p) => Some(p@), None => None }, depth, show_content) {
            Ok(t) => r matches Ok(s) && s@ == t,
            Err(e) => r matches Err(x) && x@ == e,
        },
{
    match path {
        Some(p) => {
            let indices = match resolve(doc, p) {
                Ok(v) => v,
                Err(e) => return Err(e),
            };
            proof {
                lemma_resolve_valid(doc@.headings, p@);
            }
            let h = doc.heading_at(indices.as_slice());
            let mut out = String::new();
            outline_tree_exec(&mut out, h, &indices, depth, show_content);
            Ok(out)
        },
        None => {
            let base: Vec<usize> = Vec::new();
            Ok(format_outline(doc.headings.as_slice(), base.as_slice(), depth, show_content))
        },
    }
}

// ---------------------------------------------------------------------------
// The outline as a tree of plain values
// ---------------------------------------------------------------------------

/// One heading as the JSON outline shows it.
pub struct OutlineNode {
    /// Positional address, `#1.2`.
    pub addr: String,
    /// Title path, `Projects/Website`.
    pub path: String,
    pub level: usize,
    pub keyword: Option<String>,
    pub priority: Option<char>,
    pub title: String,
    pub tags: Vec<String>,
    pub planning: Option<String>,
    pub properties: Vec<(String, String)>,
    /// The body without trailing whitespace.
    pub body: String,
    /// The children, as far as the depth limit allows.
    pub children: Vec<OutlineNode>,
}

/// The JSON outline: the preamble without trailing whitespace (for the
/// whole document, when it is not empty), and the headings shown.
pub struct Outline {
    pub preamble: Option<String>,
    pub headings: Vec<OutlineNode>,
}

/// Whether `n` shows the heading `h` at address `addr` of the document
/// headings `root`, with its children down to `depth` further levels.
pub open spec fn is_node_of(n: OutlineNode, root: Seq<HeadingModel>, h: HeadingModel, addr: Seq<usize>, depth: Option<usize>) -> bool
    decreases h,
{
    &&& n.addr@ == addr_text(addr)
    &&& n.path@ == join(title_path(root, addr), seq!['/'])
    &&& n.level == h.level
    &&& opt_str(n.keyword) == h.keyword
    &&& n.priority == h.priority
    &&& n.title@ == h.title
    &&& strs_of(n.tags@) == h.tags
    &&& opt_str(n.planning) == h.planning
    &&& pairs_of(n.properties@) == h.properties
    &&& n.body@ == trim_end(h.body)
    &&& if descends(depth) {
        &&& n.children@.len() == h.children.len()
        &&& forall|i: int|
            0 <= i < h.children.len() ==> is_node_of(
                #[trigger] n.children@[i],
                root,
                h.children[i],
                addr.push(i as usize),
                lower(depth),
            )
    } else {
        n.children@.len() == 0
    }
}

/// The preamble as the JSON outline of the whole document shows it.
pub open spec fn preamble_shown(p: Seq<char>) -> Option<Seq<char>> {
    if p.len() == 0 {
        None
    } else {
        Some(trim_end(p))
    }
}

/// Whether `o` is the JSON outline of the whole document `d`.
pub open spec fn is_doc_outline(o: Outline, d: DocModel, depth: Option<usize>) -> bool {
    &&& opt_str(o.preamble) == preamble_shown(d.preamble)
    &&& o.headings@.len() == d.headings.len()
    &&& forall|i: int|
        0 <= i < d.headings.len() ==> is_node_of(#[trigger] o.headings@[i], d.headings, d.headings[i], seq![i as usize], depth)
}

/// Whether `o` is the JSON outline of the heading at `addr` of `d`.
pub open spec fn is_subtree_outline(o: Outline, d: DocModel, addr: Seq<usize>, depth: Option<usize>) -> bool {
    &&& o.preamble is None
    &&& o.headings@.len() == 1
    &&& is_node_of(o.headings@[0], d.headings, heading_at_path(d.headings, addr), addr, depth)
}

fn node_exec(doc: &OrgDoc, h: &Heading, addr: &Vec<usize>, depth: Option<usize>) -> (n: OutlineNode)
    requires
        lens_fit(doc@.headings),
        valid_path(doc@.headings, addr@),
        heading_at_path(doc@.headings, addr@) == h@,
    ensures
        is_node_of(n, doc@.headings, h@, addr@, depth),
    decreases h, 0nat,
{
    proof {
        lemma_list_at_path(doc@.headings, addr@);
    }
    let descend = match depth {
        Some(d) => d > 0,
        None => true,
    };
    let children = if descend {
        nodes_exec(doc, &h.children, addr, lower_exec(depth))
    } else {
        Vec::new()
    };
    let bc = chars_of(h.body.as_str());
    let body = string_of(trim_end_chars(bc.as_slice()));
    let n = OutlineNode {
        addr: Heading::format_addr(addr.as_slice()),
        path: Heading::format_title_path(doc, addr.as_slice()),
        level: h.level,
        keyword: copy_opt(&h.keyword),
        priority: h.priority,
        title: h.title.clone(),
        tags: copy_strings(&h.tags),
        planning: copy_opt(&h.planning),
        properties: copy_pairs(&h.properties),
        body,
        children,
    };
    assert(n.addr@ == addr_text(addr@));
    assert(n.path@ == join(title_path(doc@.headings, addr@), seq!['/']));
    assert(n.title@ == h@.title);
    assert(n.body@ == trim_end(h@.body));
    assert(descends(depth) ==> n.children@.len() == h@.children.len());
    n
}

fn nodes_exec(doc: &OrgDoc, hs: &Vec<Heading>, base: &Vec<usize>, depth: Option<usize>) -> (r: Vec<OutlineNode>)
    requires
        lens_fit(doc@.headings),
        valid_parent(doc@.headings, base@),
        list_at(doc@.headings, base@) == headings_model(hs@),
    ensures
        r@.len() == hs@.len(),
        forall|i: int|
            0 <= i < hs@.len() ==> is_node_of(
                #[trigger] r@[i],
                doc@.headings,
                headings_model(hs@)[i],
                base@.push(i as usize),
                depth,
            ),
    decreases hs, 1nat,
{
    let mut r: Vec<OutlineNode> = Vec::new();
    let mut i: usize = 0;
    while i < hs.len()
        invariant
            i <= hs@.len(),
            lens_fit(doc@.headings),
            valid_parent(doc@.headings, base@),
            list_at(doc@.headings, base@) == headings_model(hs@),
            r@.len() == i,
            forall|k: int|
                0 <= k < i ==> is_node_of(
                    #[trigger] r@[k],
                    doc@.headings,
                    headings_model(hs@)[k],
                    base@.push(k as usize),
                    depth,
                ),
        decreases hs@.len() - i,
    {
        let mut addr = vstd::slice::slice_to_vec(base.as_slice());
        addr.push(i);
        assert(addr@ == base@.push(i));
        proof {
            lemma_list_at_push(doc@.headings, base@, i);
        }
        let n = node_exec(doc, &hs[i], &addr, depth);
        r.push(n);
        i += 1;
    }
    r
}

/// The JSON outline node of the heading at `addr`, with its children down
/// to `depth` further levels (all levels without a limit).
pub fn outline_node(doc: &OrgDoc, addr: &[usize], depth: Option<usize>) -> (n: OutlineNode)
    requires
        valid_path(doc@.headings, addr@),
    ensures
        is_node_of(n, doc@.headings, heading_at_path(doc@.headings, addr@), addr@, depth),
{
    proof {
        lemma_doc_lens_fit(doc);
    }
    let a = vstd::slice::slice_to_vec(addr);
    let h = doc.heading_at(addr);
    node_exec(doc, h, &a, depth)
}

/// The JSON outline that `show` prints: the heading at `path` and its
/// subtree, or the whole document with its preamble; `depth` limits how
/// many levels below are shown.
pub fn json_outline(doc: &OrgDoc, path: Option<&str>, depth: Option<usize>) -> (r: Result<Outline, ResolveError>)
    ensures
        match path {
            Some(p) => match resolve_path(doc@.headings, p@) {
                Ok(a) => r matches Ok(o) && is_subtree_outline(o, doc@, a, depth),
                Err(e) => r matches Err(x) && x@ == e,
            },
            None => r matches Ok(o) && is_doc_outline(o, doc@, depth),
        },
{
    proof {
        lemma_doc_lens_fit(doc);
    }
    match path {
        Some(p) => {
            let indices = match resolve(doc, p) {
                Ok(v) => v,
                Err(e) => return Err(e),
            };
            proof {
                lemma_resolve_valid(doc@.headings, p@);
            }
            let h = doc.heading_at(indices.as_slice());
            let n = node_exec(doc, h, &indices, depth);
            let mut headings: Vec<OutlineNode> = Vec::new();
            headings.push(n);
            Ok(Outline { preamble: None, headings })
        },
        None => {
            let base: Vec<usize> = Vec::new();
            let headings = nodes_exec(doc, &doc.headings, &base, depth);
            assert forall|i: int| 0 <= i < doc@.headings.len() implies is_node_of(
                #[trigger] headings@[i],
                doc@.headings,
                doc@.headings[i],
                seq![i as usize],
                depth,
            ) by {
                assert(base@.push(i as usize) =~= seq![i as usize]);
            }
            let pc = chars_of(doc.preamble.as_str());
            let preamble = if pc.len() == 0 {
                None
            } else {
                Some(string_of(trim_end_chars(pc.as_slice())))
            };
            Ok(Outline { preamble, headings })
        },
    }
}

/// The JSON nodes (without children) of the headings that a search finds,
/// in depth-first order.
pub fn find_nodes(doc: &OrgDoc, q: &FindQuery) -> (r: Result<Vec<OutlineNode>, ResolveError>)
    ensures
        match find_result(doc@, q@) {
            Ok(m) => r matches Ok(v) && v@.len() == m.len() && forall|k: int|
                0 <= k < m.len() ==> is_node_of(#[trigger] v@[k], doc@.headings, m[k].1, m[k].0, Some(0usize)),
            Err(e) => r matches Err(x) && x@ == e,
        },
{
    proof {
        lemma_doc_lens_fit(doc);
    }
    let found = match find(doc, q) {
        Ok(v) => v,
        Err(e) => return Err(e),
    };
    let ghost root = doc@.headings;
    let ghost walked = walk_list(root, seq![]);
    let ghost m = walk_view(found@);
    let ghost sc = match find_result(doc@, q@) {
        Ok(x) => x,
        Err(_) => m,
    };
    assert(m == sc);
    proof {
        let scope = match q@.under {
            Some(u) => match resolve_path(root, u) {
                Ok(s) => Some(s),
                Err(_) => None,
            },
            None => None,
        };
        lemma_matching_from(walked, q@, scope);
    }
    let mut r: Vec<OutlineNode> = Vec::new();
    let mut k: usize = 0;
    while k < found.len()
        invariant
            k <= found@.len(),
            lens_fit(root),
            root == doc@.headings,
            m == walk_view(found@),
            forall|j: int| 0 <= j < m.len() ==> walked.contains(#[trigger] m[j]),
            walked == walk_list(root, seq![]),
            r@.len() == k,
            forall|j: int| 0 <= j < k ==> is_node_of(#[trigger] r@[j], root, m[j].1, m[j].0, Some(0usize)),
        decreases found@.len() - k,
    {
        assert(m[k as int] == (found@[k as int].0@, found@[k as int].1@));
        proof {
            assert(walked.contains(m[k as int]));
            let w = choose|w: int| 0 <= w < walked.len() && walked[w] == m[k as int];
            lemma_walk_names(root, w);
        }
        let n = node_exec(doc, found[k].1, &found[k].0, Some(0));
        r.push(n);
        k += 1;
    }
    Ok(r)
}


// ---------------------------------------------------------------------------
// What a depth limit shows
// ---------------------------------------------------------------------------

/// `h` with the headings more than `d` levels below it cut off.
pub open spec fn pruned(h: HeadingModel, d: nat) -> HeadingModel
    decreases h,
{
    HeadingModel {
        children: if d == 0 { seq![] } else { pruned_list(h.children, (d - 1) as nat) },
        ..h
    }
}

/// `pruned` for every tree of `hs`.
pub open spec fn pruned_list(hs: Seq<HeadingModel>, d: nat) -> Seq<HeadingModel>
    decreases hs,
{
    if hs.len() == 0 {
        seq![]
    } else {
        pruned_list(hs.drop_last(), d).push(pruned(hs.last(), d))
    }
}

/// The outline of a tree with the depth limit `d` is the full outline of
/// the tree with everything more than `d` levels below it cut off.
pub proof fn lemma_outline_tree_depth(h: HeadingModel, addr: Seq<usize>, d: usize, content: bool)
    ensures
        outline_tree(h, addr, Some(d), content) == outline_tree(pruned(h, d as nat), addr, None, content),
    decreases h,
{
    let p = pruned(h, d as nat);
    assert(heading_line(p, addr, content) == heading_line(h, addr, content));
    if d > 0 {
        lemma_outline_list_depth(h.children, addr, (d - 1) as usize, content);
        assert(lower(Some(d)) == Some((d - 1) as usize));
    } else {
        assert(outline_list(p.children, addr, None, content) =~= Seq::<char>::empty());
    }
}

/// The outline of a list of trees with the depth limit `d` is the full
/// outline of those trees with everything more than `d` levels below them
/// cut off: the outline shows the listed headings and at most `d` levels
/// of their descendants.
pub proof fn lemma_outline_list_depth(hs: Seq<HeadingModel>, base: Seq<usize>, d: usize, content: bool)
    ensures
        outline_list(hs, base, Some(d), content) == outline_list(pruned_list(hs, d as nat), base, None, content),
    decreases hs,
{
    if hs.len() > 0 {
        let p = pruned_list(hs, d as nat);
        lemma_pruned_list_len(hs.drop_last(), d as nat);
        assert(p.drop_last() =~= pruned_list(hs.drop_last(), d as nat));
        assert(p.last() == pruned(hs.last(), d as nat));
        lemma_outline_list_depth(hs.drop_last(), base, d, content);
        lemma_outline_tree_depth(hs.last(), base.push((hs.len() - 1) as usize), d, content);
    } else {
        assert(pruned_list(hs, d as nat) =~= Seq::<HeadingModel>::empty());
    }
}

proof fn lemma_pruned_list_len(hs: Seq<HeadingModel>, d: nat)
    ensures
        pruned_list(hs, d).len() == hs.len(),
    decreases hs.len(),
{
    if hs.len() > 0 {
        lemma_pruned_list_len(hs.drop_last(), d);
    }
}

} // verus!
