//! The editing operations behind the `chorg` commands: each resolves a
//! heading path and changes the document, or reports why it cannot.

use vstd::prelude::*;
use vstd::string::*;
use crate::model::{
    DocModel, Heading, HeadingModel, OrgDoc, group_headings_model, heading_at_path, headings_model, list_at, opt_str, pairs_of, shift_fits, shifted, shifted_list, valid_path, with_heading_at, with_list_at, lemma_valid_path_parent, lemma_shift_fits_list, shift_fits_list, walk_list, walk_view, addr_text, levels_positive, lemma_shift_back, lemma_with_heading_itself, lemma_with_heading_twice, heading_count, node_count, lemma_count_insert, lemma_count_remove, lemma_count_shifted, lemma_count_with_heading_at, lemma_count_with_list_at, lemma_list_at_path, lemma_list_at_push, lens_fit, lemma_lens_fit_list_at,
};
use crate::text::{
    ascii_upper, chars_of, eq_ignore_ascii_case, eq_ignore_ascii_case_chars, push_char, push_str,
    seqs_of, split, split_chars, string_of, strs_of, to_ascii_upper, join, push_joined, find_char,
    find_char_from, contains_seq, lowercase, contains_chars, push_quoted, debug_text, strings_eq_ignore_ascii_case, to_lowercase, string_eq_chars,
};
use crate::path::{
    ResolveError, ResolveFailure, lemma_resolve_valid, resolve, resolve_path, resolve_failure_text,
    lemma_heading_at_with, lemma_resolve_same_shape, lemma_same_shape_refl, lemma_same_shape_shifted,
    lemma_with_heading_same_shape,
};

verus! {

broadcast use vstd::string::group_string_axioms, group_headings_model;

/// The keyword that a TODO state sets: none for the empty state.
pub open spec fn keyword_for(state: Seq<char>) -> Option<Seq<char>> {
    if state.len() == 0 {
        None
    } else {
        Some(state)
    }
}

/// `h` with the keyword `kw`.
pub open spec fn with_keyword(h: HeadingModel, kw: Option<Seq<char>>) -> HeadingModel {
    HeadingModel { keyword: kw, ..h }
}

/// Change the TODO keyword of the heading at `path` to `state` (none for
/// an empty `state`); gives its address and its previous keyword.
pub fn set_keyword(doc: &mut OrgDoc, path: &str, state: &str) -> (r: Result<(Vec<usize>, Option<String>), ResolveError>)
    ensures
        match resolve_path(old(doc)@.headings, path@) {
            Err(e) => r matches Err(x) && x@ == e && final(doc)@ == old(doc)@,
            Ok(idx) => r matches Ok(v) && v.0@ == idx && opt_str(v.1) == heading_at_path(
                old(doc)@.headings,
                idx,
            ).keyword && final(doc)@ == (DocModel {
                headings: with_heading_at(
                    old(doc)@.headings,
                    idx,
                    with_keyword(heading_at_path(old(doc)@.headings, idx), keyword_for(state@)),
                ),
                ..old(doc)@
            }),
        },
{
    proof {
        lemma_resolve_valid(doc@.headings, path@);
    }
    let indices = match resolve(doc, path) {
        Ok(i) => i,
        Err(e) => {
            return Err(e);
        },
    };
    let new_kw = if state.is_empty() {
        None
    } else {
        Some(String::from_str(state))
    };
    let h = doc.heading_at_mut(indices.as_slice());
    let old_kw = h.keyword.take();
    h.keyword = new_kw;
    Ok((indices, old_kw))
}

/// `hs` with the heading at `path` (and its subtree) removed.
pub open spec fn without_heading_at(hs: Seq<HeadingModel>, path: Seq<usize>) -> Seq<HeadingModel> {
    with_list_at(hs, path.drop_last(), list_at(hs, path.drop_last()).remove(path.last() as int))
}

/// Delete the heading at `path` and its subtree; gives its address and
/// its title.
pub fn delete_heading(doc: &mut OrgDoc, path: &str) -> (r: Result<(Vec<usize>, String), ResolveError>)
    ensures
        match resolve_path(old(doc)@.headings, path@) {
            Err(e) => r matches Err(x) && x@ == e && final(doc)@ == old(doc)@,
            Ok(idx) => r matches Ok(v) && v.0@ == idx && v.1@ == heading_at_path(
                old(doc)@.headings,
                idx,
            ).title && final(doc)@ == (DocModel {
                headings: without_heading_at(old(doc)@.headings, idx),
                ..old(doc)@
            }),
        },
{
    proof {
        lemma_resolve_valid(doc@.headings, path@);
    }
    let indices = match resolve(doc, path) {
        Ok(i) => i,
        Err(e) => {
            return Err(e);
        },
    };
    proof {
        lemma_valid_path_parent(doc@.headings, indices@);
    }
    let title = doc.heading_at(indices.as_slice()).title.clone();
    let (list, idx) = doc.parent_list_mut(indices.as_slice());
    let ghost before = list@;
    list.remove(idx);
    proof {
        assert(headings_model(list@) =~= headings_model(before).remove(idx as int));
    }
    Ok((indices, title))
}


// ---------------------------------------------------------------------------
// Insert, promote, move
// ---------------------------------------------------------------------------

/// `Some(p)` for a non-empty `p`.
pub open spec fn nonempty_piece(p: Seq<char>) -> Option<Seq<char>> {
    if p.len() > 0 {
        Some(p)
    } else {
        None
    }
}

/// The tags of a colon-separated list `a:b:c`, empty pieces left out.
pub open spec fn tag_list(t: Seq<char>) -> Seq<Seq<char>> {
    split(t, ':').filter_map(|p: Seq<char>| nonempty_piece(p))
}

/// Body text as given: with a final `\n` added when it lacks one.
pub open spec fn body_line(b: Seq<char>) -> Seq<char> {
    if b.len() > 0 && b.last() == '\n' {
        b
    } else {
        b.push('\n')
    }
}

/// The sibling position for a 1-based `position` (default: append), at
/// most `len`.
pub open spec fn insert_pos(position: Option<usize>, len: nat) -> int {
    let p: int = match position {
        Some(q) => if q == 0 { 0 } else { q - 1 },
        None => len as int,
    };
    if p < len {
        p
    } else {
        len as int
    }
}

/// A new heading without planning line, properties or children.
pub open spec fn new_heading(
    level: usize,
    title: Seq<char>,
    keyword: Option<Seq<char>>,
    priority: Option<char>,
    tags: Option<Seq<char>>,
    body: Option<Seq<char>>,
) -> HeadingModel {
    HeadingModel {
        level,
        keyword,
        priority,
        title,
        tags: match tags {
            Some(t) => tag_list(t),
            None => seq![],
        },
        planning: None,
        properties: seq![],
        body: match body {
            Some(b) => body_line(b),
            None => seq![],
        },
        children: seq![],
    }
}

/// The view of an optional string slice.
pub open spec fn opt_strref(o: Option<&str>) -> Option<Seq<char>> {
    match o {
        Some(s) => Some(s@),
        None => None,
    }
}

/// Executable `tag_list`.
pub fn tag_list_of(t: &str) -> (r: Vec<String>)
    ensures
        strs_of(r@) == tag_list(t@),
{
    let cs = chars_of(t);
    let parts = split_chars(cs.as_slice(), ':');
    let ghost ps = seqs_of(parts@);
    let mut r: Vec<String> = Vec::new();
    let mut i: usize = 0;
    while i < parts.len()
        invariant
            ps == seqs_of(parts@),
            ps == split(t@, ':'),
            i <= parts@.len(),
            strs_of(r@) == ps.take(i as int).filter_map(|p: Seq<char>| nonempty_piece(p)),
        decreases parts.len() - i,
    {
        assert(ps.take(i + 1).drop_last() =~= ps.take(i as int));
        assert(ps.take(i + 1).last() == parts@[i as int]@);
        let ghost prev = r@;
        if parts[i].len() > 0 {
            r.push(string_of(parts[i].as_slice()));
            assert(strs_of(r@) =~= strs_of(prev) + seq![parts@[i as int]@]);
        }
        i += 1;
    }
    assert(ps.take(i as int) =~= ps);
    r
}

/// Executable `body_line`.
fn body_line_of(b: &str) -> (r: String)
    ensures
        r@ == body_line(b@),
{
    let cs = chars_of(b);
    let mut s = String::from_str(b);
    if !(cs.len() > 0 && cs[cs.len() - 1] == '\n') {
        push_char(&mut s, '\n');
    }
    s
}

/// Executable `insert_pos`.
fn insert_pos_of(position: Option<usize>, len: usize) -> (r: usize)
    ensures
        r == insert_pos(position, len as nat),
{
    let p = match position {
        Some(q) => if q == 0 { 0 } else { q - 1 },
        None => len,
    };
    if p < len { p } else { len }
}

/// A new heading without planning line, properties or children.
fn make_heading(level: usize, title: &str, keyword: Option<String>, priority: Option<char>, tags: Option<&str>, body: Option<&str>) -> (h: Heading)
    ensures
        h@ == new_heading(level, title@, opt_str(keyword), priority, opt_strref(tags), opt_strref(body)),
{
    let tag_vec = match tags {
        Some(t) => tag_list_of(t),
        None => Vec::new(),
    };
    let body_text = match body {
        Some(b) => body_line_of(b),
        None => String::new(),
    };
    let h = Heading {
        level,
        keyword,
        priority,
        title: String::from_str(title),
        tags: tag_vec,
        planning: None,
        properties: Vec::new(),
        body: body_text,
        children: Vec::new(),
    };
    assert(strs_of(h.tags@) =~= match opt_strref(tags) {
        Some(t) => tag_list(t),
        None => Seq::<Seq<char>>::empty(),
    });
    assert(pairs_of(h.properties@) =~= Seq::<(Seq<char>, Seq<char>)>::empty());
    assert(headings_model(h.children@) =~= Seq::<HeadingModel>::empty());
    h
}

/// Insert a new heading under the heading at `parent_path` (`/` for the
/// top level) at the 1-based `position` among its siblings (default:
/// append); gives the new heading's address.
pub fn insert_heading(
    doc: &mut OrgDoc,
    parent_path: &str,
    title: &str,
    keyword: Option<String>,
    priority: Option<char>,
    tags: Option<&str>,
    body: Option<&str>,
    position: Option<usize>,
) -> (r: Result<Vec<usize>, ResolveError>)
    requires
        parent_path@ != seq!['/'] ==> (resolve_path(old(doc)@.headings, parent_path@) matches Ok(idx) ==> heading_at_path(
            old(doc)@.headings,
            idx,
        ).level < usize::MAX),
    ensures
        if parent_path@ == seq!['/'] {
            let pos = insert_pos(position, old(doc)@.headings.len());
            r matches Ok(a) && a@ == seq![pos as usize] && final(doc)@ == (DocModel {
                headings: old(doc)@.headings.insert(
                    pos,
                    new_heading(1, title@, opt_str(keyword), priority, opt_strref(tags), opt_strref(body)),
                ),
                ..old(doc)@
            })
        } else {
            match resolve_path(old(doc)@.headings, parent_path@) {
                Err(e) => r matches Err(x) && x@ == e && final(doc)@ == old(doc)@,
                Ok(idx) => {
                    let parent = heading_at_path(old(doc)@.headings, idx);
                    let pos = insert_pos(position, parent.children.len());
                    r matches Ok(a) && a@ == idx.push(pos as usize) && final(doc)@ == (DocModel {
                        headings: with_heading_at(
                            old(doc)@.headings,
                            idx,
                            HeadingModel {
                                children: parent.children.insert(
                                    pos,
                                    new_heading(
                                        (parent.level + 1) as usize,
                                        title@,
                                        opt_str(keyword),
                                        priority,
                                        opt_strref(tags),
                                        opt_strref(body),
                                    ),
                                ),
                                ..parent
                            },
                        ),
                        ..old(doc)@
                    })
                },
            }
        },
{
    let pc = chars_of(parent_path);
    if pc.len() == 1 && pc[0] == '/' {
        // Top-level insertion
        assert(parent_path@ =~= seq!['/']);
        let h = make_heading(1, title, keyword, priority, tags, body);
        let pos = insert_pos_of(position, doc.headings.len());
        let ghost before = doc.headings@;
        doc.headings.insert(pos, h);
        proof {
            assert(headings_model(doc.headings@) =~= headings_model(before).insert(pos as int, h@));
        }
        let mut addr: Vec<usize> = Vec::new();
        addr.push(pos);
        assert(addr@ =~= seq![pos]);
        return Ok(addr);
    }
    proof {
        if parent_path@ == seq!['/'] {
            assert(pc@.len() == 1 && pc@[0] == '/');
        }
        lemma_resolve_valid(doc@.headings, parent_path@);
    }
    let indices = match resolve(doc, parent_path) {
        Ok(i) => i,
        Err(e) => {
            return Err(e);
        },
    };
    let level = doc.heading_at(indices.as_slice()).level + 1;
    let h = make_heading(level, title, keyword, priority, tags, body);
    let parent = doc.heading_at_mut(indices.as_slice());
    let ghost old_parent = parent@;
    let pos = insert_pos_of(position, parent.children.len());
    let ghost before = parent.children@;
    parent.children.insert(pos, h);
    proof {
        assert(headings_model(parent.children@) =~= headings_model(before).insert(pos as int, h@));
        assert(parent@ =~= HeadingModel { children: old_parent.children.insert(pos as int, h@), ..old_parent });
    }
    let mut child_addr = indices;
    child_addr.push(pos);
    Ok(child_addr)
}

/// Why a promotion or demotion did not happen.
#[derive(Debug)]
pub enum PromoteError {
    /// The path does not name a heading.
    Resolve(ResolveError),
    /// A top-level heading cannot be promoted.
    AtTopLevel,
}

/// A `PromoteError` in words.
pub open spec fn promote_error_text(e: PromoteError) -> Seq<char> {
    match e {
        PromoteError::Resolve(x) => resolve_failure_text(x@),
        PromoteError::AtTopLevel => "cannot promote: already at top level"@,
    }
}

impl PromoteError {
    /// Why the heading was not shifted, in words.
    pub fn message(&self) -> (r: String)
        ensures
            r@ == promote_error_text(*self),
    {
        match self {
            PromoteError::Resolve(x) => x.message(),
            PromoteError::AtTopLevel => String::from_str("cannot promote: already at top level"),
        }
    }
}

/// Shift the heading at `path` and its subtree by `delta` levels (negative:
/// promote, positive: demote); a level-1 heading is not promoted.
pub fn shift_heading(doc: &mut OrgDoc, path: &str, delta: i32) -> (r: Result<Vec<usize>, PromoteError>)
    requires
        resolve_path(old(doc)@.headings, path@) matches Ok(idx) ==> shift_fits(
            heading_at_path(old(doc)@.headings, idx),
            delta as int,
        ),
    ensures
        match resolve_path(old(doc)@.headings, path@) {
            Err(e) => r matches Err(PromoteError::Resolve(x)) && x@ == e && final(doc)@ == old(doc)@,
            Ok(idx) => {
                let h = heading_at_path(old(doc)@.headings, idx);
                if delta < 0 && h.level == 1 {
                    r matches Err(PromoteError::AtTopLevel) && final(doc)@ == old(doc)@
                } else {
                    r matches Ok(a) && a@ == idx && final(doc)@ == (DocModel {
                        headings: with_heading_at(old(doc)@.headings, idx, shifted(h, delta as int)),
                        ..old(doc)@
                    })
                }
            },
        },
{
    proof {
        lemma_resolve_valid(doc@.headings, path@);
    }
    let indices = match resolve(doc, path) {
        Ok(i) => i,
        Err(e) => {
            return Err(PromoteError::Resolve(e));
        },
    };
    if delta < 0 && doc.heading_at(indices.as_slice()).level == 1 {
        return Err(PromoteError::AtTopLevel);
    }
    let h = doc.heading_at_mut(indices.as_slice());
    h.shift_level(delta);
    Ok(indices)
}

/// The headings after the subtree at `src` is moved under the heading at
/// `dst` of the remaining headings (`None`: to the top level), at the
/// 1-based `position` (default: append), with its levels shifted to fit.
pub open spec fn moved(rest: Seq<HeadingModel>, h: HeadingModel, dst: Option<Seq<usize>>, position: Option<usize>) -> Seq<HeadingModel> {
    match dst {
        None => rest.insert(insert_pos(position, rest.len()), shifted(h, 1 - h.level)),
        Some(d) => {
            let p = heading_at_path(rest, d);
            with_heading_at(
                rest,
                d,
                HeadingModel {
                    children: p.children.insert(
                        insert_pos(position, p.children.len()),
                        shifted(h, p.level + 1 - h.level),
                    ),
                    ..p
                },
            )
        },
    }
}

/// Whether the level arithmetic of moving the heading at `path` under the
/// heading at `under` fits in `i32`: the new level, and the shift of every
/// level of the moved subtree. Nothing is asked when a path does not
/// resolve.
pub open spec fn move_fits(hs: Seq<HeadingModel>, path: Seq<char>, under: Seq<char>) -> bool {
    match resolve_path(hs, path) {
        Ok(src) => {
            let h = heading_at_path(hs, src);
            let rest = without_heading_at(hs, src);
            if under == seq!['/'] {
                shift_fits(h, 1 - h.level)
            } else {
                match resolve_path(rest, under) {
                    Ok(dst) => {
                        let l = heading_at_path(rest, dst).level;
                        l + 1 <= i32::MAX && shift_fits(h, l + 1 - h.level)
                    },
                    Err(_) => true,
                }
            }
        },
        Err(_) => true,
    }
}

/// Move (refile) the heading at `path` under the heading at `under` (`/`
/// for the top level), at the 1-based `position` among its new siblings
/// (default: append); its subtree's levels shift to fit. `under` is
/// resolved after the heading has been taken out. Gives the new address.
pub fn move_heading(doc: &mut OrgDoc, path: &str, under: &str, position: Option<usize>) -> (r: Result<Vec<usize>, ResolveError>)
    requires
        move_fits(old(doc)@.headings, path@, under@),
    ensures
        match resolve_path(old(doc)@.headings, path@) {
            Err(e) => r matches Err(x) && x@ == e && final(doc)@ == old(doc)@,
            Ok(src) => {
                let h = heading_at_path(old(doc)@.headings, src);
                let rest = without_heading_at(old(doc)@.headings, src);
                if under@ == seq!['/'] {
                    r matches Ok(a) && a@ == seq![insert_pos(position, rest.len()) as usize]
                        && final(doc)@ == (DocModel { headings: moved(rest, h, None, position), ..old(doc)@ })
                } else {
                    match resolve_path(rest, under@) {
                        Err(e) => r matches Err(x) && x@ == e && final(doc)@ == (DocModel {
                            headings: rest,
                            ..old(doc)@
                        }),
                        Ok(dst) => r matches Ok(a) && a@ == dst.push(
                            insert_pos(position, heading_at_path(rest, dst).children.len()) as usize,
                        ) && final(doc)@ == (DocModel {
                            headings: moved(rest, h, Some(dst), position),
                            ..old(doc)@
                        }),
                    }
                }
            },
        },
{
    proof {
        lemma_resolve_valid(doc@.headings, path@);
    }
    // 1. Remove the heading from its current position.
    let src_indices = match resolve(doc, path) {
        Ok(i) => i,
        Err(e) => {
            return Err(e);
        },
    };
    proof {
        lemma_valid_path_parent(doc@.headings, src_indices@);
    }
    let ghost hs0 = doc@.headings;
    let ghost h_model = heading_at_path(doc@.headings, src_indices@);
    let mut heading = {
        let (list, idx) = doc.parent_list_mut(src_indices.as_slice());
        let ghost before = list@;
        let h = list.remove(idx);
        proof {
            assert(headings_model(list@) =~= headings_model(before).remove(idx as int));
        }
        h
    };
    assert(heading@ == h_model);
    let uc = chars_of(under);
    // 2. Determine new level and insert under the destination.
    if uc.len() == 1 && uc[0] == '/' {
        assert(under@ =~= seq!['/']);
        let delta = 1i32 - heading.level as i32;
        heading.shift_level(delta);
        let pos = insert_pos_of(position, doc.headings.len());
        let ghost before = doc.headings@;
        doc.headings.insert(pos, heading);
        proof {
            assert(headings_model(doc.headings@) =~= headings_model(before).insert(pos as int, heading@));
        }
        let mut addr: Vec<usize> = Vec::new();
        addr.push(pos);
        assert(addr@ =~= seq![pos]);
        return Ok(addr);
    }
    proof {
        if under@ == seq!['/'] {
            assert(uc@.len() == 1 && uc@[0] == '/');
        }
        lemma_resolve_valid(doc@.headings, under@);
    }
    let dst_indices = match resolve(doc, under) {
        Ok(i) => i,
        Err(e) => {
            return Err(e);
        },
    };
    assert(doc@.headings == without_heading_at(hs0, src_indices@));
    let new_level = doc.heading_at(dst_indices.as_slice()).level + 1;
    let delta = new_level as i32 - heading.level as i32;
    heading.shift_level(delta);
    let parent = doc.heading_at_mut(dst_indices.as_slice());
    let ghost old_parent = parent@;
    let pos = insert_pos_of(position, parent.children.len());
    let ghost before = parent.children@;
    parent.children.insert(pos, heading);
    proof {
        assert(headings_model(parent.children@) =~= headings_model(before).insert(pos as int, heading@));
        assert(parent@ =~= HeadingModel { children: old_parent.children.insert(pos as int, heading@), ..old_parent });
    }
    let mut new_addr = dst_indices;
    new_addr.push(pos);
    Ok(new_addr)
}


// ---------------------------------------------------------------------------
// Edit
// ---------------------------------------------------------------------------

/// Whether `s` ends with `\n`.
pub open spec fn ends_nl(s: Seq<char>) -> bool {
    s.len() > 0 && s.last() == '\n'
}

/// `h` with the edits applied in order: a new title; a new priority (the
/// first character in ASCII upper case, none for an empty value); a new
/// body (ending in `\n`, or empty); text appended to the body on a line of
/// its own, ending in `\n`.
pub open spec fn edited(
    h: HeadingModel,
    title: Option<Seq<char>>,
    priority: Option<Seq<char>>,
    body: Option<Seq<char>>,
    append: Option<Seq<char>>,
) -> HeadingModel {
    let h1 = match title {
        Some(t) => HeadingModel { title: t, ..h },
        None => h,
    };
    let h2 = match priority {
        Some(p) => HeadingModel {
            priority: if p.len() == 0 { None } else { Some(ascii_upper(p[0])) },
            ..h1
        },
        None => h1,
    };
    let h3 = match body {
        Some(b) => HeadingModel { body: if b.len() == 0 { b } else { body_line(b) }, ..h2 },
        None => h2,
    };
    match append {
        Some(a) => {
            let b0 = h3.body;
            let b1 = if b0.len() > 0 && !ends_nl(b0) { b0.push('\n') } else { b0 };
            HeadingModel { body: body_line(b1 + a), ..h3 }
        },
        None => h3,
    }
}

/// Edit the title, priority and body of the heading at `path`; gives its
/// address.
pub fn edit_heading(
    doc: &mut OrgDoc,
    path: &str,
    title: Option<String>,
    priority: Option<String>,
    body: Option<String>,
    append: Option<String>,
) -> (r: Result<Vec<usize>, ResolveError>)
    ensures
        match resolve_path(old(doc)@.headings, path@) {
            Err(e) => r matches Err(x) && x@ == e && final(doc)@ == old(doc)@,
            Ok(idx) => r matches Ok(a) && a@ == idx && final(doc)@ == (DocModel {
                headings: with_heading_at(
                    old(doc)@.headings,
                    idx,
                    edited(
                        heading_at_path(old(doc)@.headings, idx),
                        opt_str(title),
                        opt_str(priority),
                        opt_str(body),
                        opt_str(append),
                    ),
                ),
                ..old(doc)@
            }),
        },
{
    proof {
        lemma_resolve_valid(doc@.headings, path@);
    }
    let indices = match resolve(doc, path) {
        Ok(i) => i,
        Err(e) => {
            return Err(e);
        },
    };
    let h = doc.heading_at_mut(indices.as_slice());
    let ghost h0 = h@;
    match title {
        Some(t) => {
            h.title = t;
        },
        None => {},
    }
    let ghost h1 = h@;
    match priority {
        Some(p) => {
            let pc = chars_of(p.as_str());
            h.priority = if pc.len() == 0 {
                None
            } else {
                Some(to_ascii_upper(pc[0]))
            };
        },
        None => {},
    }
    let ghost h2 = h@;
    match body {
        Some(b) => {
            h.body = if b.as_str().is_empty() {
                b
            } else {
                body_line_of(b.as_str())
            };
        },
        None => {},
    }
    let ghost h3 = h@;
    match append {
        Some(a) => {
            let bc = chars_of(h.body.as_str());
            if bc.len() > 0 && bc[bc.len() - 1] != '\n' {
                push_char(&mut h.body, '\n');
            }
            push_str(&mut h.body, a.as_str());
            let bc2 = chars_of(h.body.as_str());
            if !(bc2.len() > 0 && bc2[bc2.len() - 1] == '\n') {
                push_char(&mut h.body, '\n');
            }
        },
        None => {},
    }
    assert(h@ =~= edited(h0, opt_str(title), opt_str(priority), opt_str(body), opt_str(append)));
    Ok(indices)
}

// ---------------------------------------------------------------------------
// Properties
// ---------------------------------------------------------------------------

/// Index of the first property whose key equals `key` ignoring ASCII case,
/// or `props.len()`.
pub open spec fn property_index(props: Seq<(Seq<char>, Seq<char>)>, key: Seq<char>) -> int
    decreases props.len(),
{
    if props.len() == 0 {
        0
    } else if eq_ignore_ascii_case(props[0].0, key) {
        0
    } else {
        1 + property_index(props.drop_first(), key)
    }
}

proof fn lemma_property_index(props: Seq<(Seq<char>, Seq<char>)>, key: Seq<char>, j: int)
    requires
        0 <= j <= props.len(),
        forall|k: int| 0 <= k < j ==> !eq_ignore_ascii_case(#[trigger] props[k].0, key),
        j == props.len() || eq_ignore_ascii_case(props[j].0, key),
    ensures
        property_index(props, key) == j,
    decreases j,
{
    if j > 0 {
        assert forall|k: int| 0 <= k < j - 1 implies !eq_ignore_ascii_case(#[trigger] props.drop_first()[k].0, key) by {
            assert(props.drop_first()[k] == props[k + 1]);
        }
        lemma_property_index(props.drop_first(), key, j - 1);
    }
}

/// Executable `property_index`.
fn property_index_of(props: &Vec<(String, String)>, key: &str) -> (r: usize)
    ensures
        r == property_index(pairs_of(props@), key@),
        r <= props@.len(),
{
    let kc = chars_of(key);
    let ghost ps = pairs_of(props@);
    let mut i: usize = 0;
    while i < props.len()
        invariant
            ps == pairs_of(props@),
            kc@ == key@,
            i <= props@.len(),
            forall|k: int| 0 <= k < i ==> !eq_ignore_ascii_case(#[trigger] ps[k].0, key@),
        decreases props.len() - i,
    {
        let pk = chars_of(props[i].0.as_str());
        assert(ps[i as int].0 == props@[i as int].0@);
        if eq_ignore_ascii_case_chars(pk.as_slice(), kc.as_slice()) {
            proof {
                lemma_property_index(ps, key@, i as int);
            }
            return i;
        }
        i += 1;
    }
    proof {
        lemma_property_index(ps, key@, i as int);
    }
    i
}

/// `Some(p)` unless its key equals `key` ignoring ASCII case.
pub open spec fn unless_key(p: (Seq<char>, Seq<char>), key: Seq<char>) -> Option<(Seq<char>, Seq<char>)> {
    if eq_ignore_ascii_case(p.0, key) {
        None
    } else {
        Some(p)
    }
}

/// `props` without the properties whose key equals `key` ignoring ASCII
/// case.
pub open spec fn without_key(props: Seq<(Seq<char>, Seq<char>)>, key: Seq<char>) -> Seq<(Seq<char>, Seq<char>)> {
    props.filter_map(|p: (Seq<char>, Seq<char>)| unless_key(p, key))
}

/// `props` with the value of the first property whose key equals `key`
/// ignoring ASCII case set to `value`, or with (`key`, `value`) appended.
pub open spec fn with_property(props: Seq<(Seq<char>, Seq<char>)>, key: Seq<char>, value: Seq<char>) -> Seq<(Seq<char>, Seq<char>)> {
    let i = property_index(props, key);
    if 0 <= i < props.len() {
        props.update(i, (props[i].0, value))
    } else {
        props.push((key, value))
    }
}

/// Why a property operation failed.
#[derive(Debug)]
pub enum PropertyError {
    /// The path does not name a heading.
    Resolve(ResolveError),
    /// No property of that key to delete.
    Missing { key: String },
    /// No property of that key on the heading at `addr`.
    MissingOn { key: String, addr: Vec<usize> },
}

/// A `PropertyError` in words.
pub open spec fn property_error_text(e: PropertyError) -> Seq<char> {
    match e {
        PropertyError::Resolve(x) => resolve_failure_text(x@),
        PropertyError::Missing { key } => "property "@ + debug_text(key@) + " not found"@,
        PropertyError::MissingOn { key, addr } => "property "@ + debug_text(key@) + " not found on "@ + addr_text(addr@),
    }
}

impl PropertyError {
    /// Why the property operation failed, in words.
    pub fn message(&self) -> (r: String)
        ensures
            r@ == property_error_text(*self),
    {
        match self {
            PropertyError::Resolve(x) => x.message(),
            PropertyError::Missing { key } => {
                let mut out = String::new();
                push_str(&mut out, "property ");
                let kc = chars_of(key.as_str());
                push_quoted(&mut out, kc.as_slice());
                push_str(&mut out, " not found");
                out
            },
            PropertyError::MissingOn { key, addr } => {
                let mut out = String::new();
                push_str(&mut out, "property ");
                let kc = chars_of(key.as_str());
                push_quoted(&mut out, kc.as_slice());
                push_str(&mut out, " not found on ");
                let a = Heading::format_addr(addr.as_slice());
                push_str(&mut out, a.as_str());
                out
            },
        }
    }
}

/// Delete all properties whose key equals `key` (ignoring ASCII case) from
/// the heading at `path`; an error when there is none.
pub fn delete_property(doc: &mut OrgDoc, path: &str, key: &str) -> (r: Result<Vec<usize>, PropertyError>)
    ensures
        match resolve_path(old(doc)@.headings, path@) {
            Err(e) => r matches Err(PropertyError::Resolve(x)) && x@ == e && final(doc)@ == old(doc)@,
            Ok(idx) => {
                let h = heading_at_path(old(doc)@.headings, idx);
                if property_index(h.properties, key@) == h.properties.len() {
                    r matches Err(PropertyError::Missing { key: k }) && k@ == key@ && final(doc)@ == old(doc)@
                } else {
                    r matches Ok(a) && a@ == idx && final(doc)@ == (DocModel {
                        headings: with_heading_at(
                            old(doc)@.headings,
                            idx,
                            HeadingModel { properties: without_key(h.properties, key@), ..h },
                        ),
                        ..old(doc)@
                    })
                }
            },
        },
{
    proof {
        lemma_resolve_valid(doc@.headings, path@);
    }
    let indices = match resolve(doc, path) {
        Ok(i) => i,
        Err(e) => {
            return Err(PropertyError::Resolve(e));
        },
    };
    if property_index_of(&doc.heading_at(indices.as_slice()).properties, key) == doc.heading_at(indices.as_slice()).properties.len() {
        return Err(PropertyError::Missing { key: String::from_str(key) });
    }
    let kc = chars_of(key);
    let h = doc.heading_at_mut(indices.as_slice());
    let ghost h0 = h@;
    let mut old_props: Vec<(String, String)> = Vec::new();
    std::mem::swap(&mut old_props, &mut h.properties);
    let ghost ps = pairs_of(old_props@);
    let mut i: usize = 0;
    assert(pairs_of(h.properties@) =~= Seq::<(Seq<char>, Seq<char>)>::empty());
    while i < old_props.len()
        invariant
            ps == pairs_of(old_props@),
            kc@ == key@,
            i <= old_props@.len(),
            pairs_of(h.properties@) == without_key(ps.take(i as int), key@),
            h@ == (HeadingModel { properties: pairs_of(h.properties@), ..h0 }),
        decreases old_props.len() - i,
    {
        assert(ps.take(i + 1).drop_last() =~= ps.take(i as int));
        assert(ps.take(i + 1).last() == (old_props@[i as int].0@, old_props@[i as int].1@));
        let pk = chars_of(old_props[i].0.as_str());
        let ghost before = h.properties@;
        if !eq_ignore_ascii_case_chars(pk.as_slice(), kc.as_slice()) {
            h.properties.push((old_props[i].0.clone(), old_props[i].1.clone()));
            assert(pairs_of(h.properties@) =~= pairs_of(before).push(ps[i as int]));
        }
        i += 1;
    }
    assert(ps.take(i as int) =~= ps);
    Ok(indices)
}

/// Set the property `key` of the heading at `path` to `value` (replacing
/// the value of the first key equal ignoring ASCII case, or appending).
pub fn set_property(doc: &mut OrgDoc, path: &str, key: &str, value: String) -> (r: Result<Vec<usize>, ResolveError>)
    ensures
        match resolve_path(old(doc)@.headings, path@) {
            Err(e) => r matches Err(x) && x@ == e && final(doc)@ == old(doc)@,
            Ok(idx) => {
                let h = heading_at_path(old(doc)@.headings, idx);
                r matches Ok(a) && a@ == idx && final(doc)@ == (DocModel {
                    headings: with_heading_at(
                        old(doc)@.headings,
                        idx,
                        HeadingModel { properties: with_property(h.properties, key@, value@), ..h },
                    ),
                    ..old(doc)@
                })
            },
        },
{
    proof {
        lemma_resolve_valid(doc@.headings, path@);
    }
    let indices = match resolve(doc, path) {
        Ok(i) => i,
        Err(e) => {
            return Err(e);
        },
    };
    let h = doc.heading_at_mut(indices.as_slice());
    let ghost h0 = h@;
    let i = property_index_of(&h.properties, key);
    let ghost before = h.properties@;
    if i < h.properties.len() {
        let k = h.properties[i].0.clone();
        h.properties.set(i, (k, value));
        assert(pairs_of(h.properties@) =~= pairs_of(before).update(i as int, (pairs_of(before)[i as int].0, value@)));
    } else {
        h.properties.push((String::from_str(key), value));
        assert(pairs_of(h.properties@) =~= pairs_of(before).push((key@, value@)));
    }
    assert(h@ =~= HeadingModel { properties: with_property(h0.properties, key@, value@), ..h0 });
    Ok(indices)
}

/// The value of the first property of the heading at `path` whose key
/// equals `key` ignoring ASCII case.
pub fn get_property(doc: &OrgDoc, path: &str, key: &str) -> (r: Result<String, PropertyError>)
    ensures
        match resolve_path(doc@.headings, path@) {
            Err(e) => r matches Err(PropertyError::Resolve(x)) && x@ == e,
            Ok(idx) => {
                let h = heading_at_path(doc@.headings, idx);
                let i = property_index(h.properties, key@);
                if i < h.properties.len() {
                    r matches Ok(v) && v@ == h.properties[i].1
                } else {
                    r matches Err(PropertyError::MissingOn { key: k, addr: a }) && k@ == key@ && a@ == idx
                }
            },
        },
{
    proof {
        lemma_resolve_valid(doc@.headings, path@);
    }
    let indices = match resolve(doc, path) {
        Ok(i) => i,
        Err(e) => {
            return Err(PropertyError::Resolve(e));
        },
    };
    let h = doc.heading_at(indices.as_slice());
    let i = property_index_of(&h.properties, key);
    if i < h.properties.len() {
        Ok(h.properties[i].1.clone())
    } else {
        Err(PropertyError::MissingOn { key: String::from_str(key), addr: indices })
    }
}


// ---------------------------------------------------------------------------
// Tags
// ---------------------------------------------------------------------------

/// Whether `tags` has `t`, ignoring ASCII case.
pub open spec fn has_tag(tags: Seq<Seq<char>>, t: Seq<char>) -> bool {
    exists|i: int| 0 <= i < tags.len() && eq_ignore_ascii_case(#[trigger] tags[i], t)
}

/// `tags` with each tag of `add` appended unless already there (ignoring
/// ASCII case), in order.
pub open spec fn add_tags(tags: Seq<Seq<char>>, add: Seq<Seq<char>>) -> Seq<Seq<char>>
    decreases add.len(),
{
    if add.len() == 0 {
        tags
    } else {
        let t = add_tags(tags, add.drop_last());
        if has_tag(t, add.last()) {
            t
        } else {
            t.push(add.last())
        }
    }
}

/// `Some(x)` unless `x` equals `r` ignoring ASCII case.
pub open spec fn unless_tag(x: Seq<char>, r: Seq<char>) -> Option<Seq<char>> {
    if eq_ignore_ascii_case(x, r) {
        None
    } else {
        Some(x)
    }
}

/// `tags` without every tag equal to one of `remove`, ignoring ASCII case.
pub open spec fn remove_tags(tags: Seq<Seq<char>>, remove: Seq<Seq<char>>) -> Seq<Seq<char>>
    decreases remove.len(),
{
    if remove.len() == 0 {
        tags
    } else {
        remove_tags(tags, remove.drop_last()).filter_map(|x: Seq<char>| unless_tag(x, remove.last()))
    }
}

/// The tags after clearing, setting (a colon-separated list), adding and
/// removing, in that order.
pub open spec fn retagged(
    tags: Seq<Seq<char>>,
    add: Seq<Seq<char>>,
    remove: Seq<Seq<char>>,
    set: Option<Seq<char>>,
    clear: bool,
) -> Seq<Seq<char>> {
    let t1 = if clear { seq![] } else { tags };
    let t2 = match set {
        Some(s) => tag_list(s),
        None => t1,
    };
    remove_tags(add_tags(t2, add), remove)
}

/// Executable `has_tag`.
fn has_tag_of(tags: &Vec<String>, t: &str) -> (b: bool)
    ensures
        b == has_tag(strs_of(tags@), t@),
{
    let tc = chars_of(t);
    let mut i: usize = 0;
    while i < tags.len()
        invariant
            tc@ == t@,
            i <= tags@.len(),
            forall|k: int| 0 <= k < i ==> !eq_ignore_ascii_case(#[trigger] strs_of(tags@)[k], t@),
        decreases tags.len() - i,
    {
        let c = chars_of(tags[i].as_str());
        assert(strs_of(tags@)[i as int] == tags@[i as int]@);
        if eq_ignore_ascii_case_chars(c.as_slice(), tc.as_slice()) {
            return true;
        }
        i += 1;
    }
    false
}

/// Removes from `tags` every tag equal to `r` ignoring ASCII case.
fn retain_other_tags(tags: &mut Vec<String>, r: &str)
    ensures
        strs_of(final(tags)@) == strs_of(old(tags)@).filter_map(|x: Seq<char>| unless_tag(x, r@)),
{
    let rc = chars_of(r);
    let mut old_tags: Vec<String> = Vec::new();
    std::mem::swap(&mut old_tags, tags);
    let ghost ts = strs_of(old_tags@);
    let mut i: usize = 0;
    assert(strs_of(tags@) =~= Seq::<Seq<char>>::empty());
    while i < old_tags.len()
        invariant
            ts == strs_of(old_tags@),
            ts == strs_of(old(tags)@),
            rc@ == r@,
            i <= old_tags@.len(),
            strs_of(tags@) == ts.take(i as int).filter_map(|x: Seq<char>| unless_tag(x, r@)),
        decreases old_tags.len() - i,
    {
        assert(ts.take(i + 1).drop_last() =~= ts.take(i as int));
        assert(ts.take(i + 1).last() == old_tags@[i as int]@);
        let c = chars_of(old_tags[i].as_str());
        let ghost before = tags@;
        if !eq_ignore_ascii_case_chars(c.as_slice(), rc.as_slice()) {
            tags.push(old_tags[i].clone());
            assert(strs_of(tags@) =~= strs_of(before).push(ts[i as int]));
        }
        i += 1;
    }
    assert(ts.take(i as int) =~= ts);
}

/// Change the tags of the heading at `path`: clear them, set them from a
/// colon-separated list, add each of `add` that is not there, and remove
/// each of `remove` (comparing tags ignoring ASCII case).
pub fn update_tags(
    doc: &mut OrgDoc,
    path: &str,
    add: &Vec<String>,
    remove: &Vec<String>,
    set: Option<&str>,
    clear: bool,
) -> (r: Result<Vec<usize>, ResolveError>)
    ensures
        match resolve_path(old(doc)@.headings, path@) {
            Err(e) => r matches Err(x) && x@ == e && final(doc)@ == old(doc)@,
            Ok(idx) => {
                let h = heading_at_path(old(doc)@.headings, idx);
                r matches Ok(a) && a@ == idx && final(doc)@ == (DocModel {
                    headings: with_heading_at(
                        old(doc)@.headings,
                        idx,
                        HeadingModel {
                            tags: retagged(h.tags, strs_of(add@), strs_of(remove@), opt_strref(set), clear),
                            ..h
                        },
                    ),
                    ..old(doc)@
                })
            },
        },
{
    proof {
        lemma_resolve_valid(doc@.headings, path@);
    }
    let indices = match resolve(doc, path) {
        Ok(i) => i,
        Err(e) => {
            return Err(e);
        },
    };
    let h = doc.heading_at_mut(indices.as_slice());
    let ghost h0 = h@;
    if clear {
        h.tags.clear();
    }
    match set {
        Some(st) => {
            h.tags = tag_list_of(st);
        },
        None => {},
    }
    let ghost t2 = strs_of(h.tags@);
    assert(t2 =~= match opt_strref(set) {
        Some(st) => tag_list(st),
        None => if clear { Seq::<Seq<char>>::empty() } else { h0.tags },
    });
    let mut i: usize = 0;
    while i < add.len()
        invariant
            i <= add@.len(),
            strs_of(h.tags@) == add_tags(t2, strs_of(add@).take(i as int)),
            h@ == (HeadingModel { tags: strs_of(h.tags@), ..h0 }),
        decreases add.len() - i,
    {
        assert(strs_of(add@).take(i + 1).drop_last() =~= strs_of(add@).take(i as int));
        assert(strs_of(add@).take(i + 1).last() == add@[i as int]@);
        if !has_tag_of(&h.tags, add[i].as_str()) {
            let ghost before = h.tags@;
            h.tags.push(add[i].clone());
            assert(strs_of(h.tags@) =~= strs_of(before).push(add@[i as int]@));
        }
        i += 1;
    }
    assert(strs_of(add@).take(i as int) =~= strs_of(add@));
    let ghost t3 = strs_of(h.tags@);
    let mut j: usize = 0;
    while j < remove.len()
        invariant
            j <= remove@.len(),
            strs_of(h.tags@) == remove_tags(t3, strs_of(remove@).take(j as int)),
            h@ == (HeadingModel { tags: strs_of(h.tags@), ..h0 }),
        decreases remove.len() - j,
    {
        assert(strs_of(remove@).take(j + 1).drop_last() =~= strs_of(remove@).take(j as int));
        assert(strs_of(remove@).take(j + 1).last() == remove@[j as int]@);
        retain_other_tags(&mut h.tags, remove[j].as_str());
        j += 1;
    }
    assert(strs_of(remove@).take(j as int) =~= strs_of(remove@));
    Ok(indices)
}

/// Whether a tag command changes anything (otherwise it shows the tags).
pub fn is_tag_change(add: &Vec<String>, remove: &Vec<String>, set: Option<&str>, clear: bool) -> (b: bool)
    ensures
        b == (clear || set is Some || add@.len() > 0 || remove@.len() > 0),
{
    clear || set.is_some() || add.len() > 0 || remove.len() > 0
}

/// How a heading's tags are shown: `:a:b:`, or `(no tags)`.
pub open spec fn tags_shown(tags: Seq<Seq<char>>) -> Seq<char> {
    if tags.len() == 0 {
        "(no tags)"@
    } else {
        seq![':'] + join(tags, seq![':']) + seq![':']
    }
}

/// The tags of `h` as shown: `:a:b:`, or `(no tags)`.
pub fn tags_display(h: &Heading) -> (r: String)
    ensures
        r@ == tags_shown(h@.tags),
{
    if h.tags.len() == 0 {
        return String::from_str("(no tags)");
    }
    let mut out = String::new();
    push_char(&mut out, ':');
    push_joined(&mut out, &h.tags, ":");
    proof {
        reveal_strlit(":");
        assert(":"@ =~= seq![':']);
    }
    push_char(&mut out, ':');
    assert(out@ =~= tags_shown(h@.tags));
    out
}


// ---------------------------------------------------------------------------
// Level check
// ---------------------------------------------------------------------------

/// Whether shifting every level of `h`'s subtree by `delta` fits the `i32`
/// arithmetic of `shift_level`.
pub fn can_shift(h: &Heading, delta: i128) -> (b: bool)
    ensures
        b == shift_fits(h@, delta as int),
    decreases h, 0nat,
{
    let l = h.level as i128;
    if l > 0x7fff_ffff || delta > 0x1_0000_0000 || delta < -0x1_0000_0000 {
        return false;
    }
    let n = l + delta;
    if n < -0x8000_0000 || n > 0x7fff_ffff {
        return false;
    }
    can_shift_all(&h.children, delta)
}

fn can_shift_all(hs: &Vec<Heading>, delta: i128) -> (b: bool)
    ensures
        b == shift_fits_list(headings_model(hs@), delta as int),
    decreases hs, 1nat,
{
    let ghost m = headings_model(hs@);
    let mut i: usize = 0;
    while i < hs.len()
        invariant
            i <= hs@.len(),
            m == headings_model(hs@),
            shift_fits_list(m.take(i as int), delta as int),
        decreases hs@.len() - i,
    {
        assert(m[i as int] == hs@[i as int]@);
        if !can_shift(&hs[i], delta) {
            proof {
                if shift_fits_list(m, delta as int) {
                    lemma_shift_fits_list(m, delta as int, i as int);
                }
            }
            return false;
        }
        assert(m.take(i + 1).drop_last() =~= m.take(i as int));
        i += 1;
    }
    assert(m.take(i as int) =~= m);
    true
}

/// Whether the level arithmetic of `move_heading(doc, path, under, _)`
/// fits: the test to make before that call.
pub fn can_move(doc: &OrgDoc, path: &str, under: &str) -> (b: bool)
    ensures
        b == move_fits(doc@.headings, path@, under@),
{
    proof {
        lemma_resolve_valid(doc@.headings, path@);
    }
    let src = match resolve(doc, path) {
        Ok(s) => s,
        Err(_) => return true,
    };
    proof {
        lemma_valid_path_parent(doc@.headings, src@);
    }
    let h = doc.heading_at(src.as_slice());
    let uc = chars_of(under);
    if uc.len() == 1 && uc[0] == '/' {
        assert(under@ =~= seq!['/']);
        return can_shift(h, 1 - h.level as i128);
    }
    proof {
        if under@ == seq!['/'] {
            assert(uc@.len() == 1 && uc@[0] == '/');
        }
    }
    let mut rest = doc.clone();
    {
        let (list, idx) = rest.parent_list_mut(src.as_slice());
        let ghost before = list@;
        list.remove(idx);
        proof {
            assert(headings_model(list@) =~= headings_model(before).remove(idx as int));
        }
    }
    assert(rest@.headings == without_heading_at(doc@.headings, src@));
    proof {
        lemma_resolve_valid(rest@.headings, under@);
    }
    let dst = match resolve(&rest, under) {
        Ok(d) => d,
        Err(_) => return true,
    };
    let l = rest.heading_at(dst.as_slice()).level;
    if l >= 0x7fff_ffff {
        return false;
    }
    can_shift(h, (l + 1) as i128 - h.level as i128)
}

// ---------------------------------------------------------------------------
// Find
// ---------------------------------------------------------------------------

/// Search criteria; a heading matches when it meets all that are given.
pub struct FindQuery {
    /// TODO keyword (exact, ignoring ASCII case).
    pub keyword: Option<String>,
    /// Excluded TODO keyword.
    pub no_keyword: Option<String>,
    /// Tags that must all be present (ignoring ASCII case).
    pub tags: Vec<String>,
    /// Tags that must all be absent.
    pub no_tags: Vec<String>,
    /// Minimum heading level.
    pub min_level: Option<usize>,
    /// Maximum heading level.
    pub max_level: Option<usize>,
    /// Only headings with a SCHEDULED timestamp.
    pub scheduled: bool,
    /// Only headings with a DEADLINE timestamp.
    pub deadline: bool,
    /// Title substring (ignoring case).
    pub title: Option<String>,
    /// Body substring (ignoring case).
    pub body: Option<String>,
    /// Property `KEY=VALUE` (or `KEY` for any value).
    pub property: Option<String>,
    /// Only descendants of the heading at this path.
    pub under: Option<String>,
}

/// The view of a `FindQuery`.
pub struct QueryModel {
    pub keyword: Option<Seq<char>>,
    pub no_keyword: Option<Seq<char>>,
    pub tags: Seq<Seq<char>>,
    pub no_tags: Seq<Seq<char>>,
    pub min_level: Option<usize>,
    pub max_level: Option<usize>,
    pub scheduled: bool,
    pub deadline: bool,
    pub title: Option<Seq<char>>,
    pub body: Option<Seq<char>>,
    pub property: Option<Seq<char>>,
    pub under: Option<Seq<char>>,
}

impl View for FindQuery {
    type V = QueryModel;

    open spec fn view(&self) -> QueryModel {
        QueryModel {
            keyword: opt_str(self.keyword),
            no_keyword: opt_str(self.no_keyword),
            tags: strs_of(self.tags@),
            no_tags: strs_of(self.no_tags@),
            min_level: self.min_level,
            max_level: self.max_level,
            scheduled: self.scheduled,
            deadline: self.deadline,
            title: opt_str(self.title),
            body: opt_str(self.body),
            property: opt_str(self.property),
            under: opt_str(self.under),
        }
    }
}

/// `KEY=VALUE` split at the first `=`; without `=`, the key and an empty
/// value.
pub open spec fn property_filter(p: Seq<char>) -> (Seq<char>, Seq<char>) {
    let i = find_char(p, '=');
    if 0 <= i < p.len() {
        (p.take(i), p.skip(i + 1))
    } else {
        (p, seq![])
    }
}

/// Executable `property_filter`.
pub fn parse_property_filter(p: &str) -> (r: (String, String))
    ensures
        (r.0@, r.1@) == property_filter(p@),
{
    let cs = chars_of(p);
    let i = find_char_from(cs.as_slice(), 0, '=');
    assert(cs@.skip(0) =~= cs@);
    if i < cs.len() {
        let k = vstd::slice::slice_subrange(cs.as_slice(), 0, i);
        let v = vstd::slice::slice_subrange(cs.as_slice(), i + 1, cs.len());
        assert(k@ =~= p@.take(i as int));
        assert(v@ =~= p@.skip(i + 1));
        (string_of(k), string_of(v))
    } else {
        (String::from_str(p), String::new())
    }
}

/// Whether some property of `props` has key `k` (ignoring ASCII case) and,
/// unless `v` is empty, value `v`.
pub open spec fn has_property(props: Seq<(Seq<char>, Seq<char>)>, k: Seq<char>, v: Seq<char>) -> bool {
    exists|i: int| 0 <= i < props.len() && eq_ignore_ascii_case(#[trigger] props[i].0, k) && (v.len() == 0 || props[i].1 == v)
}

/// Whether the planning line exists and contains `word`.
pub open spec fn planning_has(planning: Option<Seq<char>>, word: Seq<char>) -> bool {
    match planning {
        Some(p) => contains_seq(p, word),
        None => false,
    }
}

/// Whether the heading `h` at `addr` meets the criteria of `q`, with
/// `scope` the resolved address of `q.under`.
pub open spec fn query_matches(q: QueryModel, scope: Option<Seq<usize>>, addr: Seq<usize>, h: HeadingModel) -> bool {
    &&& scope matches Some(s) ==> addr.len() > s.len() && addr.take(s.len() as int) == s
    &&& q.min_level matches Some(m) ==> h.level >= m
    &&& q.max_level matches Some(m) ==> h.level <= m
    &&& q.scheduled ==> planning_has(h.planning, "SCHEDULED:"@)
    &&& q.deadline ==> planning_has(h.planning, "DEADLINE:"@)
    &&& q.keyword matches Some(kw) ==> (h.keyword matches Some(hk) && eq_ignore_ascii_case(hk, kw))
    &&& q.no_keyword matches Some(nk) ==> !(h.keyword matches Some(hk) && eq_ignore_ascii_case(hk, nk))
    &&& forall|i: int| 0 <= i < q.tags.len() ==> has_tag(h.tags, #[trigger] q.tags[i])
    &&& forall|i: int| 0 <= i < q.no_tags.len() ==> !has_tag(h.tags, #[trigger] q.no_tags[i])
    &&& q.title matches Some(t) ==> contains_seq(lowercase(h.title), lowercase(t))
    &&& q.body matches Some(b) ==> contains_seq(lowercase(h.body), lowercase(b))
    &&& q.property matches Some(p) ==> has_property(
        h.properties,
        property_filter(p).0,
        property_filter(p).1,
    )
}

/// The walked (address, heading) pairs that meet the criteria.
pub open spec fn matching(walked: Seq<(Seq<usize>, HeadingModel)>, q: QueryModel, scope: Option<Seq<usize>>) -> Seq<(Seq<usize>, HeadingModel)> {
    walked.filter_map(|p: (Seq<usize>, HeadingModel)| if query_matches(q, scope, p.0, p.1) { Some(p) } else { None })
}

/// The result of a search: the headings, in depth-first order, that meet
/// the criteria, or why the `under` path does not resolve.
pub open spec fn find_result(d: DocModel, q: QueryModel) -> Result<Seq<(Seq<usize>, HeadingModel)>, ResolveFailure> {
    match q.under {
        Some(u) => match resolve_path(d.headings, u) {
            Err(e) => Err(e),
            Ok(s) => Ok(matching(walk_list(d.headings, seq![]), q, Some(s))),
        },
        None => Ok(matching(walk_list(d.headings, seq![]), q, None)),
    }
}

/// Whether `addr` lies strictly below `scope`: longer, and starting with it.
fn is_strictly_under(addr: &Vec<usize>, scope: &Vec<usize>) -> (b: bool)
    ensures
        b == (addr@.len() > scope@.len() && addr@.take(scope@.len() as int) == scope@),
{
    if addr.len() <= scope.len() {
        return false;
    }
    let mut i: usize = 0;
    while i < scope.len()
        invariant
            i <= scope@.len() < addr@.len(),
            addr@.take(i as int) == scope@.take(i as int),
        decreases scope.len() - i,
    {
        if addr[i] != scope[i] {
            assert(addr@.take(scope@.len() as int)[i as int] != scope@[i as int]);
            return false;
        }
        assert(addr@.take(i + 1) =~= addr@.take(i as int).push(addr@[i as int]));
        assert(scope@.take(i + 1) =~= scope@.take(i as int).push(scope@[i as int]));
        i += 1;
    }
    assert(scope@.take(i as int) =~= scope@);
    true
}

/// Whether the planning line `planning` exists and contains `word`.
fn planning_contains(planning: &Option<String>, word: &str) -> (b: bool)
    ensures
        b == planning_has(opt_str(*planning), word@),
{
    match planning {
        Some(p) => {
            let pc = chars_of(p.as_str());
            let wc = chars_of(word);
            contains_chars(pc.as_slice(), wc.as_slice())
        },
        None => false,
    }
}

/// Whether `text` contains `pattern`, both lowercased.
fn contains_lowercased(text: &str, pattern: &str) -> (b: bool)
    ensures
        b == contains_seq(lowercase(text@), lowercase(pattern@)),
{
    let t = to_lowercase(text);
    let p = to_lowercase(pattern);
    let tc = chars_of(t.as_str());
    let pc = chars_of(p.as_str());
    contains_chars(tc.as_slice(), pc.as_slice())
}

/// Whether a keyword is present and equals `kw`, ignoring ASCII case.
fn keyword_is(hk: &Option<String>, kw: &str) -> (b: bool)
    ensures
        b == (opt_str(*hk) matches Some(k) && eq_ignore_ascii_case(k, kw@)),
{
    match hk {
        Some(k) => strings_eq_ignore_ascii_case(k.as_str(), kw),
        None => false,
    }
}

/// Whether `tags` has every tag of `wanted` (`all`), or none of them.
fn tags_all_or_none(tags: &Vec<String>, wanted: &Vec<String>, all: bool) -> (b: bool)
    ensures
        b == (forall|i: int| 0 <= i < wanted@.len() ==> has_tag(strs_of(tags@), #[trigger] strs_of(wanted@)[i]) == all),
{
    let mut i: usize = 0;
    while i < wanted.len()
        invariant
            i <= wanted@.len(),
            forall|k: int| 0 <= k < i ==> has_tag(strs_of(tags@), #[trigger] strs_of(wanted@)[k]) == all,
        decreases wanted.len() - i,
    {
        assert(strs_of(wanted@)[i as int] == wanted@[i as int]@);
        if has_tag_of(tags, wanted[i].as_str()) != all {
            return false;
        }
        i += 1;
    }
    true
}

/// Whether some property has key `k` (ignoring ASCII case) and, unless `v`
/// is empty, value `v`.
fn has_property_of(props: &Vec<(String, String)>, k: &str, v: &str) -> (b: bool)
    ensures
        b == has_property(pairs_of(props@), k@, v@),
{
    let vc = chars_of(v);
    let mut i: usize = 0;
    while i < props.len()
        invariant
            i <= props@.len(),
            vc@ == v@,
            forall|j: int| 0 <= j < i ==> !(eq_ignore_ascii_case(#[trigger] pairs_of(props@)[j].0, k@) && (v@.len() == 0 || pairs_of(props@)[j].1 == v@)),
        decreases props.len() - i,
    {
        assert(pairs_of(props@)[i as int] == (props@[i as int].0@, props@[i as int].1@));
        if strings_eq_ignore_ascii_case(props[i].0.as_str(), k) && (vc.len() == 0 || string_eq_chars(&props[i].1, vc.as_slice())) {
            assert(eq_ignore_ascii_case(pairs_of(props@)[i as int].0, k@) && (v@.len() == 0 || pairs_of(props@)[i as int].1 == v@));
            return true;
        }
        i += 1;
    }
    false
}

/// Whether the heading `h` at `addr` meets the criteria of `q`, with `pf`
/// the split property filter and `scope` the resolved `under` address.
fn meets_query(q: &FindQuery, pf: &Option<(String, String)>, scope: &Option<Vec<usize>>, addr: &Vec<usize>, h: &Heading) -> (b: bool)
    requires
        match q@.property {
            Some(p) => pf matches Some(kv) && (kv.0@, kv.1@) == property_filter(p),
            None => pf is None,
        },
    ensures
        b == query_matches(q@, match scope { Some(s) => Some(s@), None => None }, addr@, h@),
{
    if let Some(s) = scope {
        if !is_strictly_under(addr, s) {
            return false;
        }
    }
    if let Some(m) = q.min_level {
        if h.level < m {
            return false;
        }
    }
    if let Some(m) = q.max_level {
        if h.level > m {
            return false;
        }
    }
    if q.scheduled && !planning_contains(&h.planning, "SCHEDULED:") {
        return false;
    }
    if q.deadline && !planning_contains(&h.planning, "DEADLINE:") {
        return false;
    }
    if let Some(kw) = &q.keyword {
        if !keyword_is(&h.keyword, kw.as_str()) {
            return false;
        }
    }
    if let Some(nk) = &q.no_keyword {
        if keyword_is(&h.keyword, nk.as_str()) {
            return false;
        }
    }
    assert(h@.tags == strs_of(h.tags@) && q@.tags == strs_of(q.tags@) && q@.no_tags == strs_of(q.no_tags@));
    if !tags_all_or_none(&h.tags, &q.tags, true) {
        return false;
    }
    if !tags_all_or_none(&h.tags, &q.no_tags, false) {
        return false;
    }
    if let Some(t) = &q.title {
        if !contains_lowercased(h.title.as_str(), t.as_str()) {
            return false;
        }
    }
    if let Some(bd) = &q.body {
        if !contains_lowercased(h.body.as_str(), bd.as_str()) {
            return false;
        }
    }
    if let Some(kv) = pf {
        if !has_property_of(&h.properties, kv.0.as_str(), kv.1.as_str()) {
            return false;
        }
    }
    true
}

proof fn lemma_matching_push(walked: Seq<(Seq<usize>, HeadingModel)>, p: (Seq<usize>, HeadingModel), q: QueryModel, scope: Option<Seq<usize>>)
    ensures
        matching(walked.push(p), q, scope) == if query_matches(q, scope, p.0, p.1) {
            matching(walked, q, scope).push(p)
        } else {
            matching(walked, q, scope)
        },
{
    assert(walked.push(p).drop_last() =~= walked);
}

/// Each pair that the search keeps is one of the walked pairs.
pub proof fn lemma_matching_from(walked: Seq<(Seq<usize>, HeadingModel)>, q: QueryModel, scope: Option<Seq<usize>>)
    ensures
        forall|k: int| 0 <= k < matching(walked, q, scope).len() ==> walked.contains(#[trigger] matching(walked, q, scope)[k]),
    decreases walked.len(),
{
    if walked.len() > 0 {
        let rest = walked.drop_last();
        lemma_matching_from(rest, q, scope);
        lemma_matching_push(rest, walked.last(), q, scope);
        assert(rest.push(walked.last()) =~= walked);
        let m = matching(walked, q, scope);
        let mr = matching(rest, q, scope);
        assert forall|k: int| 0 <= k < m.len() implies walked.contains(#[trigger] m[k]) by {
            if k < mr.len() {
                assert(m[k] == mr[k]);
                let j = choose|j: int| 0 <= j < rest.len() && rest[j] == mr[k];
                assert(walked[j] == rest[j]);
            } else {
                assert(m[k] == walked.last());
                assert(walked[walked.len() - 1] == walked.last());
            }
        }
    }
}

/// Search the headings of `doc`, depth-first, for those that meet the
/// criteria of `q`; each comes with its positional address.
pub fn find<'a>(doc: &'a OrgDoc, q: &FindQuery) -> (r: Result<Vec<(Vec<usize>, &'a Heading)>, ResolveError>)
    ensures
        match find_result(doc@, q@) {
            Ok(m) => r matches Ok(v) && walk_view(v@) == m,
            Err(e) => r matches Err(x) && x@ == e,
        },
{
    let pf = match &q.property {
        Some(p) => Some(parse_property_filter(p.as_str())),
        None => None,
    };
    let scope = match &q.under {
        Some(u) => match resolve(doc, u.as_str()) {
            Ok(s) => Some(s),
            Err(e) => return Err(e),
        },
        None => None,
    };
    let ghost sc = match &scope { Some(s) => Some(s@), None => None::<Seq<usize>> };
    let all = doc.walk();
    let mut out: Vec<(Vec<usize>, &'a Heading)> = Vec::new();
    let mut i: usize = 0;
    while i < all.len()
        invariant
            i <= all@.len(),
            walk_view(all@) == walk_list(doc@.headings, seq![]),
            sc == match &scope { Some(s) => Some(s@), None => None::<Seq<usize>> },
            match q@.property {
                Some(p) => pf matches Some(kv) && (kv.0@, kv.1@) == property_filter(p),
                None => pf is None,
            },
            walk_view(out@) == matching(walk_view(all@).take(i as int), q@, sc),
        decreases all.len() - i,
    {
        let ghost wv = walk_view(all@);
        proof {
            assert(wv.take(i + 1) =~= wv.take(i as int).push(wv[i as int]));
            lemma_matching_push(wv.take(i as int), wv[i as int], q@, sc);
        }
        if meets_query(q, &pf, &scope, &all[i].0, all[i].1) {
            let a = vstd::slice::slice_to_vec(all[i].0.as_slice());
            let ghost before = out@;
            out.push((a, all[i].1));
            assert(walk_view(out@) =~= walk_view(before).push((a@, all@[i as int].1@)));
        }
        i += 1;
    }
    assert(walk_view(all@).take(i as int) =~= walk_view(all@));
    Ok(out)
}

// ---------------------------------------------------------------------------
// Laws of the editing operations
// ---------------------------------------------------------------------------

proof fn lemma_property_index_bounds(props: Seq<(Seq<char>, Seq<char>)>, key: Seq<char>)
    ensures
        0 <= property_index(props, key) <= props.len(),
        forall|k: int| 0 <= k < property_index(props, key) ==> !eq_ignore_ascii_case(#[trigger] props[k].0, key),
        property_index(props, key) < props.len() ==> eq_ignore_ascii_case(props[property_index(props, key)].0, key),
    decreases props.len(),
{
    if props.len() > 0 && !eq_ignore_ascii_case(props[0].0, key) {
        lemma_property_index_bounds(props.drop_first(), key);
        assert forall|k: int| 0 <= k < property_index(props, key) implies !eq_ignore_ascii_case(#[trigger] props[k].0, key) by {
            if k > 0 {
                assert(props[k] == props.drop_first()[k - 1]);
            }
        }
    }
}

/// After setting `key` to `value`, the first property with that key has
/// that value.
proof fn lemma_property_set(props: Seq<(Seq<char>, Seq<char>)>, key: Seq<char>, value: Seq<char>)
    ensures
        property_index(with_property(props, key, value), key) < with_property(props, key, value).len(),
        with_property(props, key, value)[property_index(with_property(props, key, value), key)].1 == value,
{
    lemma_property_index_bounds(props, key);
    let i = property_index(props, key);
    let p2 = with_property(props, key, value);
    if i < props.len() {
        assert forall|k: int| 0 <= k < i implies !eq_ignore_ascii_case(#[trigger] p2[k].0, key) by {
            assert(p2[k] == props[k]);
        }
        lemma_property_index(p2, key, i);
    } else {
        assert forall|k: int| 0 <= k < i implies !eq_ignore_ascii_case(#[trigger] p2[k].0, key) by {
            assert(p2[k] == props[k]);
        }
        assert(p2[i] == (key, value));
        assert(eq_ignore_ascii_case(key, key));
        lemma_property_index(p2, key, i);
    }
}

/// A property read back after it was set: once `set_property` has set
/// `key` to `value` on the heading at `path`, the same path names the same
/// heading, and `get_property` finds `value` there.
pub proof fn lemma_get_after_set(d: DocModel, path: Seq<char>, key: Seq<char>, value: Seq<char>)
    requires
        resolve_path(d.headings, path) is Ok,
    ensures
        match resolve_path(d.headings, path) {
            Ok(idx) => {
                let h = heading_at_path(d.headings, idx);
                let hs2 = with_heading_at(d.headings, idx, HeadingModel { properties: with_property(h.properties, key, value), ..h });
                let h2 = heading_at_path(hs2, idx);
                &&& resolve_path(hs2, path) == Ok::<Seq<usize>, ResolveFailure>(idx)
                &&& property_index(h2.properties, key) < h2.properties.len()
                &&& h2.properties[property_index(h2.properties, key)].1 == value
            },
            Err(_) => true,
        },
{
    lemma_resolve_valid(d.headings, path);
    let idx = resolve_path(d.headings, path)->Ok_0;
    let h = heading_at_path(d.headings, idx);
    let h1 = HeadingModel { properties: with_property(h.properties, key, value), ..h };
    lemma_same_shape_refl(h.children);
    lemma_with_heading_same_shape(d.headings, idx, h1);
    lemma_resolve_same_shape(d.headings, with_heading_at(d.headings, idx, h1), path);
    lemma_heading_at_with(d.headings, idx, h1);
    lemma_property_set(h.properties, key, value);
}

/// Demoting and then promoting a heading gives the document back: after a
/// demotion the path names the same heading, which is below the top level,
/// and promoting it restores every level of its subtree, wherever those
/// levels are at least 1 and leave room for the demotion.
pub proof fn lemma_demote_promote(d: DocModel, path: Seq<char>)
    requires
        resolve_path(d.headings, path) is Ok,
        levels_positive(heading_at_path(d.headings, resolve_path(d.headings, path)->Ok_0)),
        shift_fits(heading_at_path(d.headings, resolve_path(d.headings, path)->Ok_0), 1),
    ensures
        match resolve_path(d.headings, path) {
            Ok(idx) => {
                let h = heading_at_path(d.headings, idx);
                let hs2 = with_heading_at(d.headings, idx, shifted(h, 1));
                let h2 = heading_at_path(hs2, idx);
                &&& resolve_path(hs2, path) == Ok::<Seq<usize>, ResolveFailure>(idx)
                &&& h2.level != 1
                &&& with_heading_at(hs2, idx, shifted(h2, -1)) == d.headings
            },
            Err(_) => true,
        },
{
    lemma_resolve_valid(d.headings, path);
    let idx = resolve_path(d.headings, path)->Ok_0;
    let h = heading_at_path(d.headings, idx);
    lemma_same_shape_shifted(h.children, 1);
    lemma_with_heading_same_shape(d.headings, idx, shifted(h, 1));
    lemma_resolve_same_shape(d.headings, with_heading_at(d.headings, idx, shifted(h, 1)), path);
    lemma_heading_at_with(d.headings, idx, shifted(h, 1));
    lemma_shift_back(h);
    lemma_with_heading_twice(d.headings, idx, shifted(h, 1), h);
    lemma_with_heading_itself(d.headings, idx);
}

proof fn lemma_has_tag_push(tags: Seq<Seq<char>>, x: Seq<char>, t: Seq<char>)
    requires
        has_tag(tags, t),
    ensures
        has_tag(tags.push(x), t),
{
    let i = choose|i: int| 0 <= i < tags.len() && eq_ignore_ascii_case(#[trigger] tags[i], t);
    assert(tags.push(x)[i] == tags[i]);
}

proof fn lemma_add_tags_has(tags: Seq<Seq<char>>, add: Seq<Seq<char>>)
    ensures
        forall|k: int| 0 <= k < add.len() ==> has_tag(add_tags(tags, add), #[trigger] add[k]),
        forall|t: Seq<char>| has_tag(tags, t) ==> has_tag(add_tags(tags, add), t),
    decreases add.len(),
{
    if add.len() > 0 {
        let d = add.drop_last();
        lemma_add_tags_has(tags, d);
        let t0 = add_tags(tags, d);
        let x = add.last();
        if !has_tag(t0, x) {
            assert forall|t: Seq<char>| has_tag(t0, t) implies has_tag(t0.push(x), t) by {
                lemma_has_tag_push(t0, x, t);
            }
            assert(t0.push(x)[t0.len() as int] == x);
            assert(eq_ignore_ascii_case(x, x));
            assert(has_tag(t0.push(x), x));
        }
        assert forall|k: int| 0 <= k < add.len() implies has_tag(add_tags(tags, add), #[trigger] add[k]) by {
            if k < add.len() - 1 {
                assert(add[k] == d[k]);
            }
        }
    }
}

proof fn lemma_add_tags_present(tags: Seq<Seq<char>>, add: Seq<Seq<char>>)
    requires
        forall|k: int| 0 <= k < add.len() ==> has_tag(tags, #[trigger] add[k]),
    ensures
        add_tags(tags, add) == tags,
    decreases add.len(),
{
    if add.len() > 0 {
        let d = add.drop_last();
        assert forall|k: int| 0 <= k < d.len() implies has_tag(tags, #[trigger] d[k]) by {
            assert(d[k] == add[k]);
        }
        lemma_add_tags_present(tags, d);
        assert(has_tag(tags, add[add.len() - 1]));
    }
}

/// Adding tags is idempotent: adding the same tags again changes nothing.
pub proof fn lemma_add_tags_idempotent(tags: Seq<Seq<char>>, add: Seq<Seq<char>>)
    ensures
        add_tags(add_tags(tags, add), add) == add_tags(tags, add),
        forall|k: int| 0 <= k < add.len() ==> has_tag(add_tags(tags, add), #[trigger] add[k]),
{
    lemma_add_tags_has(tags, add);
    lemma_add_tags_present(add_tags(tags, add), add);
}

/// Removed tags are gone: no tag that remains equals a removed one,
/// ignoring ASCII case.
pub proof fn lemma_remove_tags_gone(tags: Seq<Seq<char>>, remove: Seq<Seq<char>>)
    ensures
        forall|k: int| 0 <= k < remove.len() ==> !has_tag(remove_tags(tags, remove), #[trigger] remove[k]),
    decreases remove.len(),
{
    if remove.len() > 0 {
        let d = remove.drop_last();
        let x = remove.last();
        lemma_remove_tags_gone(tags, d);
        let prev = remove_tags(tags, d);
        let f = |y: Seq<char>| unless_tag(y, x);
        let res = remove_tags(tags, remove);
        assert(res == prev.filter_map(f));
        assert forall|k: int| 0 <= k < remove.len() implies !has_tag(res, #[trigger] remove[k]) by {
            if has_tag(res, remove[k]) {
                let i = choose|i: int| 0 <= i < res.len() && eq_ignore_ascii_case(#[trigger] res[i], remove[k]);
                assert(res.contains(res[i]));
                prev.lemma_filter_map_contains(f, res[i]);
                let y = choose|y: Seq<char>| #[trigger] prev.contains(y) && f(y) == Some(res[i]);
                assert(y == res[i]);
                assert(!eq_ignore_ascii_case(y, x));
                if k < remove.len() - 1 {
                    assert(remove[k] == d[k]);
                    let j = choose|j: int| 0 <= j < prev.len() && prev[j] == y;
                    assert(has_tag(prev, d[k]));
                } else {
                    assert(remove[k] == x);
                }
            }
        }
    }
}

/// Deleting a heading removes exactly the headings of its subtree.
pub proof fn lemma_delete_count(hs: Seq<HeadingModel>, path: Seq<usize>)
    requires
        valid_path(hs, path),
    ensures
        heading_count(without_heading_at(hs, path)) + node_count(heading_at_path(hs, path)) == heading_count(hs),
{
    lemma_valid_path_parent(hs, path);
    let pp = path.drop_last();
    let l = list_at(hs, pp);
    lemma_count_remove(l, path.last() as int);
    lemma_count_with_list_at(hs, pp, l.remove(path.last() as int));
}

/// Inserting adds exactly one heading: the new heading, without children.
pub proof fn lemma_insert_count(
    hs: Seq<HeadingModel>,
    parent: Seq<usize>,
    position: Option<usize>,
    h: HeadingModel,
)
    requires
        valid_path(hs, parent),
        h.children.len() == 0,
    ensures
        ({
            let p = heading_at_path(hs, parent);
            heading_count(with_heading_at(
                hs,
                parent,
                HeadingModel { children: p.children.insert(insert_pos(position, p.children.len()), h), ..p },
            )) == heading_count(hs) + 1
        }),
        heading_count(hs.insert(insert_pos(position, hs.len()), h)) == heading_count(hs) + 1,
{
    let p = heading_at_path(hs, parent);
    let pos = insert_pos(position, p.children.len());
    assert(heading_count(h.children) == 0) by {
        assert(h.children =~= Seq::<HeadingModel>::empty());
    }
    lemma_count_insert(p.children, pos, h);
    lemma_count_with_heading_at(hs, parent, HeadingModel { children: p.children.insert(pos, h), ..p });
    lemma_count_insert(hs, insert_pos(position, hs.len()), h);
}

/// Moving a heading keeps every heading: the document after the move has
/// as many headings as before.
pub proof fn lemma_move_count(hs: Seq<HeadingModel>, src: Seq<usize>, dst: Option<Seq<usize>>, position: Option<usize>)
    requires
        valid_path(hs, src),
        dst matches Some(d) ==> valid_path(without_heading_at(hs, src), d),
    ensures
        heading_count(moved(without_heading_at(hs, src), heading_at_path(hs, src), dst, position)) == heading_count(hs),
{
    let h = heading_at_path(hs, src);
    let rest = without_heading_at(hs, src);
    lemma_delete_count(hs, src);
    match dst {
        None => {
            let s = shifted(h, 1 - h.level);
            lemma_count_shifted(h, 1 - h.level);
            lemma_count_insert(rest, insert_pos(position, rest.len()), s);
        },
        Some(d) => {
            let p = heading_at_path(rest, d);
            let s = shifted(h, p.level + 1 - h.level);
            lemma_count_shifted(h, p.level + 1 - h.level);
            let pos = insert_pos(position, p.children.len());
            lemma_count_insert(p.children, pos, s);
            lemma_count_with_heading_at(rest, d, HeadingModel { children: p.children.insert(pos, s), ..p });
        },
    }
}

/// Shifting a list of trees shifts the heading at every address of it.
proof fn lemma_shifted_at_path(cs: Seq<HeadingModel>, q: Seq<usize>, delta: int)
    requires
        valid_path(cs, q),
        shift_fits_list(cs, delta),
    ensures
        valid_path(shifted_list(cs, delta), q),
        heading_at_path(shifted_list(cs, delta), q) == shifted(heading_at_path(cs, q), delta),
        shift_fits(heading_at_path(cs, q), delta),
    decreases q.len(),
{
    broadcast use crate::model::lemma_shifted_list;
    let i = q[0] as int;
    lemma_shift_fits_list(cs, delta, i);
    crate::model::lemma_shifted_list(cs, delta);
    assert(shifted_list(cs, delta)[i] == shifted(cs[i], delta));
    if q.len() > 1 {
        lemma_shifted_at_path(cs[i].children, q.drop_first(), delta);
    }
}

/// Moving a heading carries its whole subtree along: the heading put in
/// place is the moved heading with every level of its subtree shifted by
/// the same amount (to 1 at the top level, or one below its new parent);
/// so every descendant keeps its distance to the moved heading, and each
/// heading that was deeper than the moved one still is.
pub proof fn lemma_move_subtree(hs: Seq<HeadingModel>, src: Seq<usize>, dst: Option<Seq<usize>>, position: Option<usize>)
    requires
        valid_path(hs, src),
        dst matches Some(d) ==> valid_path(without_heading_at(hs, src), d),
        ({
            let h = heading_at_path(hs, src);
            let rest = without_heading_at(hs, src);
            let nl: int = match dst {
                None => 1,
                Some(d) => heading_at_path(rest, d).level + 1,
            };
            nl <= i32::MAX && shift_fits(h, nl - h.level)
        }),
    ensures
        ({
            let h = heading_at_path(hs, src);
            let rest = without_heading_at(hs, src);
            let hs2 = moved(rest, h, dst, position);
            let (nl, m): (int, HeadingModel) = match dst {
                None => (1, hs2[insert_pos(position, rest.len())]),
                Some(d) => (
                    heading_at_path(rest, d).level + 1,
                    heading_at_path(hs2, d).children[insert_pos(position, heading_at_path(rest, d).children.len())],
                ),
            };
            &&& m == shifted(h, nl - h.level)
            &&& m.level == nl
            &&& forall|q: Seq<usize>|
                valid_path(h.children, q) && #[trigger] heading_at_path(h.children, q).level > h.level ==> {
                    &&& valid_path(m.children, q)
                    &&& heading_at_path(m.children, q).level == heading_at_path(h.children, q).level + nl - h.level
                }
        }),
{
    broadcast use crate::model::lemma_shifted_list;
    let h = heading_at_path(hs, src);
    let rest = without_heading_at(hs, src);
    let hs2 = moved(rest, h, dst, position);
    let nl: int = match dst {
        None => 1,
        Some(d) => heading_at_path(rest, d).level + 1,
    };
    let delta = nl - h.level;
    let s = shifted(h, delta);
    match dst {
        None => {
            assert(hs2[insert_pos(position, rest.len())] == s);
        },
        Some(d) => {
            let p = heading_at_path(rest, d);
            let p2 = HeadingModel { children: p.children.insert(insert_pos(position, p.children.len()), s), ..p };
            lemma_heading_at_with(rest, d, p2);
            assert(heading_at_path(hs2, d).children[insert_pos(position, p.children.len())] == s);
        },
    }
    assert forall|q: Seq<usize>|
        valid_path(h.children, q) && #[trigger] heading_at_path(h.children, q).level > h.level implies {
            &&& valid_path(s.children, q)
            &&& heading_at_path(s.children, q).level == heading_at_path(h.children, q).level + nl - h.level
        } by {
        lemma_shifted_at_path(h.children, q, delta);
    }
}

proof fn lemma_filter_map_has<A, B>(s: Seq<A>, f: spec_fn(A) -> Option<B>, i: int)
    requires
        0 <= i < s.len(),
        f(s[i]) is Some,
    ensures
        s.filter_map(f).contains(f(s[i])->0),
    decreases s.len(),
{
    let r = s.drop_last();
    if i == s.len() - 1 {
        assert(s.filter_map(f) == r.filter_map(f) + seq![f(s[i])->0]);
        assert(s.filter_map(f)[r.filter_map(f).len() as int] == f(s[i])->0);
    } else {
        assert(r[i] == s[i]);
        lemma_filter_map_has(r, f, i);
        let k = choose|k: int| 0 <= k < r.filter_map(f).len() && r.filter_map(f)[k] == f(s[i])->0;
        match f(s.last()) {
            Some(y) => {
                assert(s.filter_map(f) == r.filter_map(f) + seq![y]);
                assert(s.filter_map(f)[k] == r.filter_map(f)[k]);
            },
            None => {},
        }
    }
}

/// Deleting a property keeps exactly the properties whose key differs
/// from the deleted one (ignoring ASCII case): all of them, and no other.
pub proof fn lemma_delete_property_keeps(props: Seq<(Seq<char>, Seq<char>)>, key: Seq<char>)
    ensures
        forall|p: (Seq<char>, Seq<char>)| #[trigger] without_key(props, key).contains(p) <==> (props.contains(p)
            && !eq_ignore_ascii_case(p.0, key)),
{
    let f = |p: (Seq<char>, Seq<char>)| unless_key(p, key);
    assert forall|p: (Seq<char>, Seq<char>)| #[trigger] without_key(props, key).contains(p) <==> (props.contains(p)
        && !eq_ignore_ascii_case(p.0, key)) by {
        if without_key(props, key).contains(p) {
            props.lemma_filter_map_contains(f, p);
            let t = choose|t: (Seq<char>, Seq<char>)| #[trigger] props.contains(t) && f(t) == Some(p);
            assert(t == p);
        }
        if props.contains(p) && !eq_ignore_ascii_case(p.0, key) {
            let i = choose|i: int| 0 <= i < props.len() && props[i] == p;
            lemma_filter_map_has(props, f, i);
        }
    }
}

/// Removing tags keeps exactly the tags equal (ignoring ASCII case) to
/// none of the removed ones: all of them, and no other.
pub proof fn lemma_remove_tags_keeps(tags: Seq<Seq<char>>, remove: Seq<Seq<char>>)
    ensures
        forall|t: Seq<char>| #[trigger] remove_tags(tags, remove).contains(t) <==> (tags.contains(t) && !has_tag(remove, t)),
    decreases remove.len(),
{
    if remove.len() == 0 {
        assert forall|t: Seq<char>| #[trigger] remove_tags(tags, remove).contains(t) <==> (tags.contains(t) && !has_tag(remove, t)) by {}
    } else {
        let d = remove.drop_last();
        let x = remove.last();
        lemma_remove_tags_keeps(tags, d);
        let prev = remove_tags(tags, d);
        let f = |y: Seq<char>| unless_tag(y, x);
        assert(remove_tags(tags, remove) == prev.filter_map(f));
        assert forall|t: Seq<char>| #[trigger] remove_tags(tags, remove).contains(t) <==> (tags.contains(t) && !has_tag(remove, t)) by {
            if prev.filter_map(f).contains(t) {
                prev.lemma_filter_map_contains(f, t);
                let u = choose|u: Seq<char>| #[trigger] prev.contains(u) && f(u) == Some(t);
                assert(u == t);
                assert(prev.contains(t));
                assert(!eq_ignore_ascii_case(t, x));
                if has_tag(remove, t) {
                    let i = choose|i: int| 0 <= i < remove.len() && eq_ignore_ascii_case(#[trigger] remove[i], t);
                    if i < remove.len() - 1 {
                        assert(d[i] == remove[i]);
                        assert(has_tag(d, t));
                    } else {
                        assert(eq_ignore_ascii_case(t, x));
                    }
                }
            }
            if tags.contains(t) && !has_tag(remove, t) {
                assert(!has_tag(d, t)) by {
                    if has_tag(d, t) {
                        let i = choose|i: int| 0 <= i < d.len() && eq_ignore_ascii_case(#[trigger] d[i], t);
                        assert(remove[i] == d[i]);
                    }
                }
                assert(prev.contains(t));
                assert(!eq_ignore_ascii_case(t, x)) by {
                    if eq_ignore_ascii_case(t, x) {
                        assert(eq_ignore_ascii_case(remove[remove.len() - 1], t));
                    }
                }
                let i = choose|i: int| 0 <= i < prev.len() && prev[i] == t;
                lemma_filter_map_has(prev, f, i);
            }
        }
    }
}

proof fn lemma_filter_map_add<A, B>(a: Seq<A>, b: Seq<A>, f: spec_fn(A) -> Option<B>)
    ensures
        (a + b).filter_map(f) == a.filter_map(f) + b.filter_map(f),
    decreases b.len(),
{
    if b.len() == 0 {
        assert(a + b =~= a);
        assert(b.filter_map(f) =~= Seq::<B>::empty());
        assert(a.filter_map(f) + b.filter_map(f) =~= a.filter_map(f));
    } else {
        lemma_filter_map_add(a, b.drop_last(), f);
        assert((a + b).drop_last() =~= a + b.drop_last());
        assert((a + b).last() == b.last());
        match f(b.last()) {
            Some(y) => {
                assert((a + b).filter_map(f) =~= a.filter_map(f) + (b.drop_last().filter_map(f) + seq![y]));
            },
            None => {},
        }
    }
}

/// Deleting a property acts on each property alone and keeps the order:
/// over two lists in a row it deletes from each; a single property goes
/// exactly when its key equals the deleted one ignoring ASCII case.
pub proof fn lemma_delete_property_order(a: Seq<(Seq<char>, Seq<char>)>, b: Seq<(Seq<char>, Seq<char>)>, p: (Seq<char>, Seq<char>), key: Seq<char>)
    ensures
        without_key(a + b, key) == without_key(a, key) + without_key(b, key),
        without_key(seq![p], key) == if eq_ignore_ascii_case(p.0, key) {
            Seq::<(Seq<char>, Seq<char>)>::empty()
        } else {
            seq![p]
        },
{
    lemma_filter_map_add(a, b, |q: (Seq<char>, Seq<char>)| unless_key(q, key));
    Seq::lemma_filter_map_singleton(p, |q: (Seq<char>, Seq<char>)| unless_key(q, key));
}

/// Removing tags acts on each tag alone and keeps the order: over two
/// lists in a row it removes from each; a single tag goes exactly when it
/// equals one of the removed tags ignoring ASCII case.
pub proof fn lemma_remove_tags_order(a: Seq<Seq<char>>, b: Seq<Seq<char>>, t: Seq<char>, remove: Seq<Seq<char>>)
    ensures
        remove_tags(a + b, remove) == remove_tags(a, remove) + remove_tags(b, remove),
        remove_tags(seq![t], remove) == if has_tag(remove, t) {
            Seq::<Seq<char>>::empty()
        } else {
            seq![t]
        },
    decreases remove.len(),
{
    if remove.len() == 0 {
        assert(!has_tag(remove, t));
    } else {
        let d = remove.drop_last();
        let x = remove.last();
        let f = |y: Seq<char>| unless_tag(y, x);
        lemma_remove_tags_order(a, b, t, d);
        lemma_filter_map_add(remove_tags(a, d), remove_tags(b, d), f);
        if has_tag(d, t) {
            assert(remove_tags(seq![t], d) =~= Seq::<Seq<char>>::empty());
            assert(Seq::<Seq<char>>::empty().filter_map(f) =~= Seq::<Seq<char>>::empty());
            let i = choose|i: int| 0 <= i < d.len() && eq_ignore_ascii_case(#[trigger] d[i], t);
            assert(remove[i] == d[i]);
        } else {
            Seq::lemma_filter_map_singleton(t, f);
            if eq_ignore_ascii_case(t, x) {
                assert(eq_ignore_ascii_case(remove[remove.len() - 1], t));
            } else {
                assert(!has_tag(remove, t)) by {
                    if has_tag(remove, t) {
                        let i = choose|i: int| 0 <= i < remove.len() && eq_ignore_ascii_case(#[trigger] remove[i], t);
                        if i < remove.len() - 1 {
                            assert(d[i] == remove[i]);
                        }
                    }
                }
            }
        }
    }
}

/// A heading inserted among the children of the heading at `parent`, at
/// position `pos`, is found at the address `parent` followed by `pos`; so
/// `insert_heading` and `move_heading` put the heading at the address they
/// return.
pub proof fn lemma_insert_child_at(hs: Seq<HeadingModel>, parent: Seq<usize>, pos: int, h: HeadingModel)
    requires
        lens_fit(hs),
        valid_path(hs, parent),
        0 <= pos <= heading_at_path(hs, parent).children.len(),
    ensures
        ({
            let p = heading_at_path(hs, parent);
            let hs2 = with_heading_at(hs, parent, HeadingModel { children: p.children.insert(pos, h), ..p });
            valid_path(hs2, parent.push(pos as usize)) && heading_at_path(hs2, parent.push(pos as usize)) == h
        }),
{
    let p = heading_at_path(hs, parent);
    let p2 = HeadingModel { children: p.children.insert(pos, h), ..p };
    let hs2 = with_heading_at(hs, parent, p2);
    lemma_list_at_path(hs, parent);
    lemma_lens_fit_list_at(hs, parent);
    assert(pos <= usize::MAX);
    lemma_heading_at_with(hs, parent, p2);
    lemma_list_at_path(hs2, parent);
    lemma_list_at_push(hs2, parent, pos as usize);
}

/// A heading inserted into the top-level list at position `pos` is found
/// at the address `[pos]`.
pub proof fn lemma_insert_top_at(hs: Seq<HeadingModel>, pos: int, h: HeadingModel)
    requires
        0 <= pos <= hs.len(),
        hs.len() <= usize::MAX,
    ensures
        valid_path(hs.insert(pos, h), seq![pos as usize]),
        heading_at_path(hs.insert(pos, h), seq![pos as usize]) == h,
{
    let s = seq![pos as usize];
    assert(s.drop_first() =~= Seq::<usize>::empty());
    assert(s[0] == pos);
}

} // verus!
