//! The document model: a preamble, a tree of headings, and the TODO keyword
//! settings; its mathematical view; and navigation of the tree by
//! positional addresses.

use vstd::prelude::*;
use vstd::string::*;
use crate::text::{chars_of, decimal, join, push_char, push_decimal_wide, push_joined, string_eq_chars, strs_of};

verus! {

broadcast use vstd::string::group_string_axioms;

/// Top-level org document.
#[derive(Debug)]
pub struct OrgDoc {
    /// Text before the first heading (settings, comments, etc.).
    pub preamble: String,
    /// Top-level headings (children are nested).
    pub headings: Vec<Heading>,
    /// Parsed TODO/DONE keyword sets.
    pub settings: Settings,
}

/// A single org heading and its subtree.
#[derive(Debug)]
pub struct Heading {
    /// Nesting depth (number of stars: 1, 2, 3, …).
    pub level: usize,
    /// TODO keyword (TODO, DONE, WAITING, etc.) if present.
    pub keyword: Option<String>,
    /// Priority cookie (A, B, C, …) if present.
    pub priority: Option<char>,
    /// Heading title text.
    pub title: String,
    /// Tags on this heading.
    pub tags: Vec<String>,
    /// Raw planning line (SCHEDULED / DEADLINE / CLOSED).
    pub planning: Option<String>,
    /// Property drawer key-value pairs (insertion order preserved).
    pub properties: Vec<(String, String)>,
    /// Body text (between property drawer and first child heading).
    pub body: String,
    /// Child headings.
    pub children: Vec<Heading>,
}

/// Configurable keyword sets parsed from #+TODO: lines.
#[derive(Debug, Clone)]
pub struct Settings {
    pub todo_keywords: Vec<String>,
    pub done_keywords: Vec<String>,
}

// ---------------------------------------------------------------------------
// Mathematical view
// ---------------------------------------------------------------------------

/// The keyword sets as sequences of words.
#[verifier::ext_equal]
pub struct SettingsModel {
    pub todo: Seq<Seq<char>>,
    pub done: Seq<Seq<char>>,
}

/// A heading with all text as character sequences.
#[verifier::ext_equal]
pub struct HeadingModel {
    pub level: usize,
    pub keyword: Option<Seq<char>>,
    pub priority: Option<char>,
    pub title: Seq<char>,
    pub tags: Seq<Seq<char>>,
    pub planning: Option<Seq<char>>,
    pub properties: Seq<(Seq<char>, Seq<char>)>,
    pub body: Seq<char>,
    pub children: Seq<HeadingModel>,
}

/// A document with all text as character sequences.
#[verifier::ext_equal]
pub struct DocModel {
    pub preamble: Seq<char>,
    pub headings: Seq<HeadingModel>,
    pub settings: SettingsModel,
}

/// The view of an optional string.
pub open spec fn opt_str(o: Option<String>) -> Option<Seq<char>> {
    match o {
        Some(s) => Some(s@),
        None => None,
    }
}

/// The view of a list of key/value string pairs.
pub open spec fn pairs_of(v: Seq<(String, String)>) -> Seq<(Seq<char>, Seq<char>)> {
    v.map_values(|p: (String, String)| (p.0@, p.1@))
}

/// The view of one heading.
pub open spec fn heading_model(h: Heading) -> HeadingModel
    decreases h,
{
    HeadingModel {
        level: h.level,
        keyword: opt_str(h.keyword),
        priority: h.priority,
        title: h.title@,
        tags: strs_of(h.tags@),
        planning: opt_str(h.planning),
        properties: pairs_of(h.properties@),
        body: h.body@,
        children: headings_model(h.children@),
    }
}

/// The view of a list of headings.
pub open spec fn headings_model(hs: Seq<Heading>) -> Seq<HeadingModel>
    decreases hs,
{
    if hs.len() == 0 {
        seq![]
    } else {
        headings_model(hs.drop_last()).push(heading_model(hs.last()))
    }
}

/// `headings_model` maps each heading to its view.
pub proof fn lemma_headings_model(hs: Seq<Heading>)
    ensures
        headings_model(hs).len() == hs.len(),
        forall|i: int| 0 <= i < hs.len() ==> #[trigger] headings_model(hs)[i] == heading_model(hs[i]),
    decreases hs.len(),
{
    if hs.len() > 0 {
        lemma_headings_model(hs.drop_last());
    }
}

/// `headings_model` keeps the length.
pub broadcast proof fn lemma_headings_model_len(hs: Seq<Heading>)
    ensures
        #[trigger] headings_model(hs).len() == hs.len(),
{
    lemma_headings_model(hs);
}

/// `headings_model` maps each heading to its view.
pub broadcast proof fn lemma_headings_model_index(hs: Seq<Heading>, i: int)
    requires
        0 <= i < hs.len(),
    ensures
        #[trigger] headings_model(hs)[i] == heading_model(hs[i]),
{
    lemma_headings_model(hs);
}

/// The facts that relate `headings_model` to its argument.
pub broadcast group group_headings_model {
    lemma_headings_model_len,
    lemma_headings_model_index,
}

// ---------------------------------------------------------------------------
// Copies
// ---------------------------------------------------------------------------

/// A copy of an optional string.
pub(crate) fn copy_opt(o: &Option<String>) -> (r: Option<String>)
    ensures
        opt_str(r) == opt_str(*o),
{
    match o {
        Some(s) => Some(s.clone()),
        None => None,
    }
}

/// A copy of a list of strings.
pub(crate) fn copy_strings(v: &Vec<String>) -> (r: Vec<String>)
    ensures
        strs_of(r@) == strs_of(v@),
{
    let mut r: Vec<String> = Vec::new();
    let mut i: usize = 0;
    while i < v.len()
        invariant
            i <= v@.len(),
            strs_of(r@) == strs_of(v@).take(i as int),
        decreases v.len() - i,
    {
        let ghost before = r@;
        r.push(v[i].clone());
        assert(strs_of(r@) =~= strs_of(before).push(v@[i as int]@));
        assert(strs_of(v@).take(i + 1) =~= strs_of(v@).take(i as int).push(v@[i as int]@));
        i += 1;
    }
    assert(strs_of(v@).take(i as int) =~= strs_of(v@));
    r
}

/// A copy of a list of string pairs.
pub(crate) fn copy_pairs(v: &Vec<(String, String)>) -> (r: Vec<(String, String)>)
    ensures
        pairs_of(r@) == pairs_of(v@),
{
    let mut r: Vec<(String, String)> = Vec::new();
    let mut i: usize = 0;
    while i < v.len()
        invariant
            i <= v@.len(),
            pairs_of(r@) == pairs_of(v@).take(i as int),
        decreases v.len() - i,
    {
        let ghost before = r@;
        r.push((v[i].0.clone(), v[i].1.clone()));
        assert(pairs_of(r@) =~= pairs_of(before).push((v@[i as int].0@, v@[i as int].1@)));
        assert(pairs_of(v@).take(i + 1) =~= pairs_of(v@).take(i as int).push((v@[i as int].0@, v@[i as int].1@)));
        i += 1;
    }
    assert(pairs_of(v@).take(i as int) =~= pairs_of(v@));
    r
}

fn copy_headings(hs: &Vec<Heading>) -> (r: Vec<Heading>)
    ensures
        headings_model(r@) == headings_model(hs@),
    decreases hs, 1nat,
{
    broadcast use group_headings_model;

    let mut r: Vec<Heading> = Vec::new();
    let mut i: usize = 0;
    while i < hs.len()
        invariant
            i <= hs@.len(),
            r@.len() == i,
            forall|k: int| 0 <= k < i ==> (#[trigger] r@[k])@ == hs@[k]@,
        decreases hs@.len() - i,
    {
        let c = hs[i].clone();
        r.push(c);
        i += 1;
    }
    assert(headings_model(r@) =~= headings_model(hs@));
    r
}

impl Clone for Heading {
    /// A copy of the heading and its subtree.
    fn clone(&self) -> (r: Self)
        ensures
            r@ == self@,
        decreases self, 0nat,
    {
        let r = Heading {
            level: self.level,
            keyword: copy_opt(&self.keyword),
            priority: self.priority,
            title: self.title.clone(),
            tags: copy_strings(&self.tags),
            planning: copy_opt(&self.planning),
            properties: copy_pairs(&self.properties),
            body: self.body.clone(),
            children: copy_headings(&self.children),
        };
        assert(r@ =~= self@);
        r
    }
}

impl Clone for OrgDoc {
    /// A copy of the document.
    fn clone(&self) -> (r: Self)
        ensures
            r@ == self@,
    {
        let settings = Settings {
            todo_keywords: copy_strings(&self.settings.todo_keywords),
            done_keywords: copy_strings(&self.settings.done_keywords),
        };
        let r = OrgDoc { preamble: self.preamble.clone(), headings: copy_headings(&self.headings), settings };
        assert(r@ =~= self@);
        r
    }
}

impl View for Settings {
    type V = SettingsModel;

    open spec fn view(&self) -> SettingsModel {
        SettingsModel { todo: strs_of(self.todo_keywords@), done: strs_of(self.done_keywords@) }
    }
}

impl View for Heading {
    type V = HeadingModel;

    open spec fn view(&self) -> HeadingModel {
        heading_model(*self)
    }
}

impl View for OrgDoc {
    type V = DocModel;

    open spec fn view(&self) -> DocModel {
        DocModel {
            preamble: self.preamble@,
            headings: headings_model(self.headings@),
            settings: self.settings@,
        }
    }
}

// ---------------------------------------------------------------------------
// Settings
// ---------------------------------------------------------------------------

/// The keyword sets used when a document declares none.
pub open spec fn default_settings() -> SettingsModel {
    SettingsModel {
        todo: seq!["TODO"@, "NEXT"@, "WAITING"@, "HOLD"@],
        done: seq!["DONE"@, "CANCELLED"@],
    }
}

/// Whether `word` is any recognised keyword (active or done).
pub open spec fn is_keyword_in(s: SettingsModel, word: Seq<char>) -> bool {
    s.todo.contains(word) || s.done.contains(word)
}

/// Whether `word` is a done keyword.
pub open spec fn is_done_in(s: SettingsModel, word: Seq<char>) -> bool {
    s.done.contains(word)
}

/// Every done keyword is a keyword, and the keywords are the active ones
/// followed by the done ones, as `all_keywords` lists them.
pub proof fn lemma_done_is_keyword(s: SettingsModel, word: Seq<char>)
    ensures
        is_done_in(s, word) ==> is_keyword_in(s, word),
        is_keyword_in(s, word) <==> (s.todo + s.done).contains(word),
{
    let all = s.todo + s.done;
    if s.todo.contains(word) {
        let i = choose|i: int| 0 <= i < s.todo.len() && s.todo[i] == word;
        assert(all[i] == word);
    }
    if s.done.contains(word) {
        let i = choose|i: int| 0 <= i < s.done.len() && s.done[i] == word;
        assert(all[s.todo.len() + i] == word);
    }
    if all.contains(word) {
        let i = choose|i: int| 0 <= i < all.len() && all[i] == word;
        if i < s.todo.len() {
            assert(s.todo[i] == word);
        } else {
            assert(s.done[i - s.todo.len()] == word);
        }
    }
}

/// The character sequences of a sequence of string slices.
pub open spec fn strs_of_refs(v: Seq<&str>) -> Seq<Seq<char>> {
    v.map_values(|w: &str| w@)
}

/// Whether the string `word` occurs in `list`.
fn list_contains(list: &Vec<String>, word: &str) -> (b: bool)
    ensures
        b == strs_of(list@).contains(word@),
{
    let w = chars_of(word);
    let mut i: usize = 0;
    while i < list.len()
        invariant
            i <= list@.len(),
            w@ == word@,
            forall|k: int| 0 <= k < i ==> list@[k]@ != word@,
        decreases list.len() - i,
    {
        if string_eq_chars(&list[i], w.as_slice()) {
            assert(strs_of(list@)[i as int] == word@);
            return true;
        }
        i += 1;
    }
    proof {
        if strs_of(list@).contains(word@) {
            let k = choose|k: int| 0 <= k < strs_of(list@).len() && strs_of(list@)[k] == word@;
            assert(list@[k]@ == word@);
        }
    }
    false
}

impl Default for Settings {
    fn default() -> (s: Self)
        ensures
            s@ == default_settings(),
    {
        let mut todo: Vec<String> = Vec::new();
        todo.push(String::from_str("TODO"));
        todo.push(String::from_str("NEXT"));
        todo.push(String::from_str("WAITING"));
        todo.push(String::from_str("HOLD"));
        let mut done: Vec<String> = Vec::new();
        done.push(String::from_str("DONE"));
        done.push(String::from_str("CANCELLED"));
        let s = Settings { todo_keywords: todo, done_keywords: done };
        assert(s@.todo =~= default_settings().todo);
        assert(s@.done =~= default_settings().done);
        s
    }
}

impl Settings {
    /// Return true if `word` is any recognised keyword (active or done).
    pub fn is_keyword(&self, word: &str) -> (b: bool)
        ensures
            b == is_keyword_in(self@, word@),
    {
        list_contains(&self.todo_keywords, word) || list_contains(&self.done_keywords, word)
    }

    /// Return true if `word` is a *done* keyword.
    pub fn is_done(&self, word: &str) -> (b: bool)
        ensures
            b == is_done_in(self@, word@),
    {
        list_contains(&self.done_keywords, word)
    }

    /// All keywords (active first, then done).
    pub fn all_keywords(&self) -> (r: Vec<&str>)
        ensures
            strs_of_refs(r@) == self@.todo + self@.done,
    {
        let mut r: Vec<&str> = Vec::new();
        let mut i: usize = 0;
        while i < self.todo_keywords.len()
            invariant
                i <= self.todo_keywords@.len(),
                r@.len() == i,
                strs_of_refs(r@) == self@.todo.take(i as int),
            decreases self.todo_keywords.len() - i,
        {
            let ghost prev = r@;
            r.push(self.todo_keywords[i].as_str());
            assert forall|k: int| 0 <= k < i + 1 implies #[trigger] strs_of_refs(r@)[k]
                == self@.todo.take(i + 1)[k] by {
                if k < i {
                    assert(r@[k] == prev[k]);
                    assert(strs_of_refs(prev)[k] == self@.todo.take(i as int)[k]);
                }
            }
            assert(strs_of_refs(r@) =~= self@.todo.take(i + 1));
            i += 1;
        }
        assert(self@.todo.take(i as int) =~= self@.todo);
        let mut j: usize = 0;
        while j < self.done_keywords.len()
            invariant
                j <= self.done_keywords@.len(),
                r@.len() == self@.todo.len() + j,
                strs_of_refs(r@) == self@.todo + self@.done.take(j as int),
            decreases self.done_keywords.len() - j,
        {
            let ghost prev = r@;
            r.push(self.done_keywords[j].as_str());
            assert forall|k: int| 0 <= k < r@.len() implies #[trigger] strs_of_refs(r@)[k]
                == (self@.todo + self@.done.take(j + 1))[k] by {
                if k < r@.len() - 1 {
                    assert(r@[k] == prev[k]);
                    assert(strs_of_refs(prev)[k] == (self@.todo + self@.done.take(j as int))[k]);
                }
            }
            assert(strs_of_refs(r@) =~= self@.todo + self@.done.take(j + 1));
            j += 1;
        }
        assert(self@.done.take(j as int) =~= self@.done);
        r
    }
}


// ---------------------------------------------------------------------------
// Addresses in the heading tree
// ---------------------------------------------------------------------------

/// `headings_model` commutes with replacing one element.
pub broadcast proof fn lemma_headings_model_update(hs: Seq<Heading>, i: int, h: Heading)
    requires
        0 <= i < hs.len(),
    ensures
        #[trigger] headings_model(hs.update(i, h)) == headings_model(hs).update(i, heading_model(h)),
{
    broadcast use group_headings_model;

    assert(headings_model(hs.update(i, h)) =~= headings_model(hs).update(i, heading_model(h)));
}

/// `headings_model` commutes with `push`.
pub broadcast proof fn lemma_headings_model_push(hs: Seq<Heading>, h: Heading)
    ensures
        #[trigger] headings_model(hs.push(h)) == headings_model(hs).push(heading_model(h)),
{
    assert(hs.push(h).drop_last() =~= hs);
}

/// `headings_model` commutes with `subrange`.
pub broadcast proof fn lemma_headings_model_subrange(hs: Seq<Heading>, a: int, b: int)
    requires
        0 <= a <= b <= hs.len(),
    ensures
        #[trigger] headings_model(hs.subrange(a, b)) == headings_model(hs).subrange(a, b),
{
    broadcast use group_headings_model;

    assert(headings_model(hs.subrange(a, b)) =~= headings_model(hs).subrange(a, b));
}

/// Whether the positional address `path` names a heading of `hs`.
pub open spec fn valid_path(hs: Seq<HeadingModel>, path: Seq<usize>) -> bool
    decreases path.len(),
{
    path.len() > 0 && path[0] < hs.len() && (path.len() == 1 || valid_path(
        hs[path[0] as int].children,
        path.drop_first(),
    ))
}

/// The heading of `hs` at address `path`.
pub open spec fn heading_at_path(hs: Seq<HeadingModel>, path: Seq<usize>) -> HeadingModel
    decreases path.len(),
{
    if path.len() <= 1 {
        hs[path[0] as int]
    } else {
        heading_at_path(hs[path[0] as int].children, path.drop_first())
    }
}

/// `hs` with the heading at address `path` replaced by `h`.
pub open spec fn with_heading_at(hs: Seq<HeadingModel>, path: Seq<usize>, h: HeadingModel) -> Seq<
    HeadingModel,
>
    decreases path.len(),
{
    if path.len() <= 1 {
        hs.update(path[0] as int, h)
    } else {
        hs.update(
            path[0] as int,
            HeadingModel {
                children: with_heading_at(hs[path[0] as int].children, path.drop_first(), h),
                ..hs[path[0] as int]
            },
        )
    }
}

/// Whether `pp` names a heading of `hs` or is empty (the top-level list).
pub open spec fn valid_parent(hs: Seq<HeadingModel>, pp: Seq<usize>) -> bool
    decreases pp.len(),
{
    pp.len() == 0 || (pp[0] < hs.len() && valid_parent(hs[pp[0] as int].children, pp.drop_first()))
}

/// The list of children of the heading at `pp` (the top-level list for an
/// empty `pp`).
pub open spec fn list_at(hs: Seq<HeadingModel>, pp: Seq<usize>) -> Seq<HeadingModel>
    decreases pp.len(),
{
    if pp.len() == 0 {
        hs
    } else {
        list_at(hs[pp[0] as int].children, pp.drop_first())
    }
}

/// `hs` with the list at `pp` replaced by `new`.
pub open spec fn with_list_at(hs: Seq<HeadingModel>, pp: Seq<usize>, new: Seq<HeadingModel>) -> Seq<
    HeadingModel,
>
    decreases pp.len(),
{
    if pp.len() == 0 {
        new
    } else {
        hs.update(
            pp[0] as int,
            HeadingModel {
                children: with_list_at(hs[pp[0] as int].children, pp.drop_first(), new),
                ..hs[pp[0] as int]
            },
        )
    }
}

fn heading_at_in<'a>(list: &'a Vec<Heading>, path: &[usize], k: usize) -> (r: &'a Heading)
    requires
        k < path@.len(),
        valid_path(headings_model(list@), path@.skip(k as int)),
    ensures
        r@ == heading_at_path(headings_model(list@), path@.skip(k as int)),
    decreases path@.len() - k,
{
    broadcast use group_headings_model;

    let i = path[k];
    if k + 1 == path.len() {
        &list[i]
    } else {
        assert(path@.skip(k as int).drop_first() =~= path@.skip(k + 1));
        heading_at_in(&list[i].children, path, k + 1)
    }
}

fn heading_at_mut_in<'a>(list: &'a mut Vec<Heading>, path: &[usize], k: usize) -> (r: &'a mut Heading)
    requires
        k < path@.len(),
        valid_path(headings_model(old(list)@), path@.skip(k as int)),
    ensures
        (*r)@ == heading_at_path(headings_model(old(list)@), path@.skip(k as int)),
        headings_model(final(list)@) == with_heading_at(
            headings_model(old(list)@),
            path@.skip(k as int),
            (*final(r))@,
        ),
    decreases path@.len() - k,
{
    broadcast use group_headings_model, lemma_headings_model_update;

    let i = path[k];
    let ghost old_list = list@;
    if k + 1 == path.len() {
        &mut list[i]
    } else {
        assert(path@.skip(k as int).drop_first() =~= path@.skip(k + 1));
        let node = &mut list[i];
        heading_at_mut_in(&mut node.children, path, k + 1)
    }
}

fn list_at_mut_in<'a>(list: &'a mut Vec<Heading>, pp: &[usize], k: usize) -> (r: &'a mut Vec<Heading>)
    requires
        k <= pp@.len(),
        valid_parent(headings_model(old(list)@), pp@.skip(k as int)),
    ensures
        headings_model(r@) == list_at(headings_model(old(list)@), pp@.skip(k as int)),
        headings_model(final(list)@) == with_list_at(
            headings_model(old(list)@),
            pp@.skip(k as int),
            headings_model(final(r)@),
        ),
    decreases pp@.len() - k,
{
    broadcast use group_headings_model, lemma_headings_model_update;

    if k == pp.len() {
        list
    } else {
        let i = pp[k];
        let ghost old_list = list@;
        assert(pp@.skip(k as int).drop_first() =~= pp@.skip(k + 1));
        let node = &mut list[i];
        list_at_mut_in(&mut node.children, pp, k + 1)
    }
}

impl OrgDoc {
    /// Mutable access to a heading by index path.
    pub fn heading_at_mut(&mut self, indices: &[usize]) -> (r: &mut Heading)
        requires
            valid_path(old(self)@.headings, indices@),
        ensures
            (*r)@ == heading_at_path(old(self)@.headings, indices@),
            final(self)@ == (DocModel {
                headings: with_heading_at(old(self)@.headings, indices@, (*final(r))@),
                ..old(self)@
            }),
    {
        assert(indices@.skip(0) =~= indices@);
        heading_at_mut_in(&mut self.headings, indices, 0)
    }

    /// Immutable access to a heading by index path.
    pub fn heading_at(&self, indices: &[usize]) -> (r: &Heading)
        requires
            valid_path(self@.headings, indices@),
        ensures
            r@ == heading_at_path(self@.headings, indices@),
    {
        assert(indices@.skip(0) =~= indices@);
        heading_at_in(&self.headings, indices, 0)
    }

    /// Return mutable reference to the Vec<Heading> that *contains* the
    /// heading addressed by `indices`, along with the final index.
    pub fn parent_list_mut(&mut self, indices: &[usize]) -> (r: (&mut Vec<Heading>, usize))
        requires
            indices@.len() > 0,
            valid_parent(old(self)@.headings, indices@.drop_last()),
        ensures
            r.1 == indices@.last(),
            headings_model(r.0@) == list_at(old(self)@.headings, indices@.drop_last()),
            final(self)@ == (DocModel {
                headings: with_list_at(
                    old(self)@.headings,
                    indices@.drop_last(),
                    headings_model(final(r.0)@),
                ),
                ..old(self)@
            }),
    {
        let last = indices[indices.len() - 1];
        let pp = vstd::slice::slice_subrange(indices, 0, indices.len() - 1);
        proof {
            assert(pp@ =~= indices@.drop_last());
            assert(pp@.skip(0) =~= pp@);
        }
        let list = list_at_mut_in(&mut self.headings, pp, 0);
        proof {
            broadcast use group_headings_model;
        }
        (list, last)
    }
}

/// A valid address is a valid parent address followed by an index into
/// the parent's list.
pub proof fn lemma_valid_path_parent(hs: Seq<HeadingModel>, path: Seq<usize>)
    requires
        valid_path(hs, path),
    ensures
        valid_parent(hs, path.drop_last()),
        path.last() < list_at(hs, path.drop_last()).len(),
        heading_at_path(hs, path) == list_at(hs, path.drop_last())[path.last() as int],
    decreases path.len(),
{
    if path.len() > 1 {
        let rest = path.drop_first();
        lemma_valid_path_parent(hs[path[0] as int].children, rest);
        assert(path.drop_last().drop_first() =~= rest.drop_last());
        assert(rest.last() == path.last());
    }
}


// ---------------------------------------------------------------------------
// Depth-first traversal
// ---------------------------------------------------------------------------

/// The headings of `hs` and their descendants in depth-first order, each
/// with its positional address under `prefix`.
pub open spec fn walk_list(hs: Seq<HeadingModel>, prefix: Seq<usize>) -> Seq<(Seq<usize>, HeadingModel)>
    decreases hs,
{
    if hs.len() == 0 {
        seq![]
    } else {
        walk_list(hs.drop_last(), prefix) + walk_node(hs.last(), prefix.push((hs.len() - 1) as usize))
    }
}

/// `h` at address `addr`, followed by its descendants in depth-first order.
pub open spec fn walk_node(h: HeadingModel, addr: Seq<usize>) -> Seq<(Seq<usize>, HeadingModel)>
    decreases h,
{
    seq![(addr, h)] + walk_list(h.children, addr)
}

/// The view of a list of (address, heading) pairs.
pub open spec fn walk_view(v: Seq<(Vec<usize>, &Heading)>) -> Seq<(Seq<usize>, HeadingModel)> {
    v.map_values(|p: (Vec<usize>, &Heading)| (p.0@, p.1@))
}

proof fn lemma_walk_view_push(v: Seq<(Vec<usize>, &Heading)>, p: (Vec<usize>, &Heading))
    ensures
        walk_view(v.push(p)) == walk_view(v).push((p.0@, p.1@)),
{
    assert(walk_view(v.push(p)) =~= walk_view(v).push((p.0@, p.1@)));
}

fn walk_rec<'a>(h: &'a Heading, addr: &Vec<usize>, out: &mut Vec<(Vec<usize>, &'a Heading)>)
    ensures
        walk_view(final(out)@) == walk_view(old(out)@) + walk_node(h@, addr@),
    decreases h, 0nat,
{
    let a = vstd::slice::slice_to_vec(addr.as_slice());
    let ghost before = out@;
    out.push((a, h));
    proof {
        lemma_walk_view_push(before, (a, h));
    }
    walk_children(&h.children, addr, out);
    assert(walk_view(out@) =~= walk_view(old(out)@) + walk_node(h@, addr@));
}

fn walk_children<'a>(hs: &'a Vec<Heading>, prefix: &Vec<usize>, out: &mut Vec<(Vec<usize>, &'a Heading)>)
    ensures
        walk_view(final(out)@) == walk_view(old(out)@) + walk_list(headings_model(hs@), prefix@),
    decreases hs, 1nat,
{
    broadcast use group_headings_model;

    let mut i: usize = 0;
    while i < hs.len()
        invariant
            i <= hs@.len(),
            walk_view(out@) == walk_view(old(out)@) + walk_list(headings_model(hs@).take(i as int), prefix@),
        decreases hs@.len() - i,
    {
        let mut child_addr = vstd::slice::slice_to_vec(prefix.as_slice());
        child_addr.push(i);
        assert(child_addr@ == prefix@.push(i));
        let ghost before = out@;
        walk_rec(&hs[i], &child_addr, out);
        proof {
            lemma_headings_model(hs@);
            let t = headings_model(hs@).take(i + 1);
            assert(t.drop_last() =~= headings_model(hs@).take(i as int));
            assert(t.last() == hs@[i as int]@);
        }
        i += 1;
    }
    assert(headings_model(hs@).take(i as int) =~= headings_model(hs@));
}

impl OrgDoc {
    /// Iterate all headings depth-first, yielding (positional address, &Heading).
    pub fn walk(&self) -> (r: Vec<(Vec<usize>, &Heading)>)
        ensures
            walk_view(r@) == walk_list(self@.headings, seq![]),
    {
        let mut out: Vec<(Vec<usize>, &Heading)> = Vec::new();
        let prefix: Vec<usize> = Vec::new();
        walk_children(&self.headings, &prefix, &mut out);
        assert(walk_view(out@) =~= walk_list(self@.headings, seq![]));
        out
    }
}

// ---------------------------------------------------------------------------
// Addresses as text, and level shifts
// ---------------------------------------------------------------------------

/// The 1-based numbers of a positional address, as text.
pub open spec fn addr_numbers(indices: Seq<usize>) -> Seq<Seq<char>> {
    indices.map_values(|i: usize| decimal(i as nat + 1))
}

/// The positional address as `#1.2.3` (1-based).
pub open spec fn addr_text(indices: Seq<usize>) -> Seq<char> {
    seq!['#'] + join(addr_numbers(indices), seq!['.'])
}

/// The titles of the headings along `path`.
pub open spec fn title_path(hs: Seq<HeadingModel>, path: Seq<usize>) -> Seq<Seq<char>>
    decreases path.len(),
{
    if path.len() == 0 {
        seq![]
    } else {
        seq![hs[path[0] as int].title] + title_path(hs[path[0] as int].children, path.drop_first())
    }
}

/// Whether shifting every level of `h`'s subtree by `delta` stays within
/// `i32`, as the arithmetic of `shift_level` needs.
pub open spec fn shift_fits(h: HeadingModel, delta: int) -> bool
    decreases h,
{
    h.level <= i32::MAX && i32::MIN <= h.level + delta <= i32::MAX && shift_fits_list(h.children, delta)
}

/// `shift_fits` for every heading of `hs`.
pub open spec fn shift_fits_list(hs: Seq<HeadingModel>, delta: int) -> bool
    decreases hs,
{
    hs.len() == 0 || (shift_fits_list(hs.drop_last(), delta) && shift_fits(hs.last(), delta))
}

/// `level + delta`, but at least 1.
pub open spec fn shifted_level(level: usize, delta: int) -> usize {
    if level + delta < 1 {
        1
    } else {
        (level + delta) as usize
    }
}

/// `h` with the level of every heading of its subtree shifted by `delta`
/// (and kept at least 1).
pub open spec fn shifted(h: HeadingModel, delta: int) -> HeadingModel
    decreases h,
{
    HeadingModel {
        level: shifted_level(h.level, delta),
        children: shifted_list(h.children, delta),
        ..h
    }
}

/// `shifted` for every heading of `hs`.
pub open spec fn shifted_list(hs: Seq<HeadingModel>, delta: int) -> Seq<HeadingModel>
    decreases hs,
{
    if hs.len() == 0 {
        seq![]
    } else {
        shifted_list(hs.drop_last(), delta).push(shifted(hs.last(), delta))
    }
}

/// `shifted_list` acts element by element.
pub broadcast proof fn lemma_shifted_list(hs: Seq<HeadingModel>, delta: int)
    ensures
        #[trigger] shifted_list(hs, delta).len() == hs.len(),
        forall|i: int| 0 <= i < hs.len() ==> #[trigger] shifted_list(hs, delta)[i] == shifted(hs[i], delta),
    decreases hs.len(),
{
    if hs.len() > 0 {
        lemma_shifted_list(hs.drop_last(), delta);
    }
}

/// `shift_fits_list` holds of every element.
pub proof fn lemma_shift_fits_list(hs: Seq<HeadingModel>, delta: int, i: int)
    requires
        shift_fits_list(hs, delta),
        0 <= i < hs.len(),
    ensures
        shift_fits(hs[i], delta),
    decreases hs.len(),
{
    if i < hs.len() - 1 {
        lemma_shift_fits_list(hs.drop_last(), delta, i);
        assert(hs.drop_last()[i] == hs[i]);
    }
}

fn push_title_parts(list: &Vec<Heading>, path: &[usize], k: usize, parts: &mut Vec<String>)
    requires
        k <= path@.len(),
        valid_parent(headings_model(list@), path@.skip(k as int)),
    ensures
        strs_of(final(parts)@) == strs_of(old(parts)@) + title_path(headings_model(list@), path@.skip(k as int)),
    decreases path@.len() - k,
{
    broadcast use group_headings_model;

    if k == path.len() {
        assert(strs_of(parts@) =~= strs_of(parts@) + title_path(headings_model(list@), path@.skip(k as int)));
        return;
    }
    let idx = path[k];
    let ghost before = parts@;
    parts.push(list[idx].title.clone());
    assert(strs_of(parts@) =~= strs_of(before) + seq![list@[idx as int].title@]);
    assert(path@.skip(k as int).drop_first() =~= path@.skip(k + 1));
    push_title_parts(&list[idx].children, path, k + 1, parts);
    assert(strs_of(final(parts)@) =~= strs_of(old(parts)@) + title_path(headings_model(list@), path@.skip(k as int)));
}

impl Heading {
    /// Format the positional address as `#1.2.3` (1-based).
    pub fn format_addr(indices: &[usize]) -> (r: String)
        ensures
            r@ == addr_text(indices@),
    {
        let mut out = String::new();
        push_char(&mut out, '#');
        let mut i: usize = 0;
        while i < indices.len()
            invariant
                i <= indices@.len(),
                out@ == seq!['#'] + join(addr_numbers(indices@).take(i as int), seq!['.']),
            decreases indices.len() - i,
        {
            let ghost prev = addr_numbers(indices@).take(i as int);
            let ghost t = addr_numbers(indices@).take(i + 1);
            assert(t.drop_last() =~= prev);
            assert(t.last() == decimal(indices@[i as int] as nat + 1));
            if i > 0 {
                push_char(&mut out, '.');
            } else {
                assert(t =~= seq![t.last()]);
            }
            push_decimal_wide(&mut out, indices[i] as u128 + 1);
            assert(out@ =~= seq!['#'] + join(t, seq!['.']));
            i += 1;
        }
        assert(addr_numbers(indices@).take(i as int) =~= addr_numbers(indices@));
        out
    }

    /// Format the title-based path like `"Projects/Website"`.
    pub fn format_title_path(doc: &OrgDoc, indices: &[usize]) -> (r: String)
        requires
            valid_parent(doc@.headings, indices@),
        ensures
            r@ == join(title_path(doc@.headings, indices@), seq!['/']),
    {
        let mut parts: Vec<String> = Vec::new();
        assert(indices@.skip(0) =~= indices@);
        push_title_parts(&doc.headings, indices, 0, &mut parts);
        assert(strs_of(parts@) =~= title_path(doc@.headings, indices@));
        let mut out = String::new();
        push_joined(&mut out, &parts, "/");
        proof {
            reveal_strlit("/");
            assert("/"@ =~= seq!['/']);
        }
        assert(out@ =~= join(title_path(doc@.headings, indices@), seq!['/']));
        out
    }

    /// Shift level of this heading and all descendants by `delta`.
    pub fn shift_level(&mut self, delta: i32)
        requires
            shift_fits(old(self)@, delta as int),
        ensures
            final(self)@ == shifted(old(self)@, delta as int),
        decreases *old(self),
    {
        broadcast use group_headings_model, lemma_headings_model_update, lemma_shifted_list;

        let v = self.level as i32 + delta;
        self.level = if v < 1 { 1 } else { v as usize };
        let ghost old_children = self.children@;
        let mut i: usize = 0;
        while i < self.children.len()
            invariant
                i <= self.children@.len(),
                self.children@.len() == old_children.len(),
                self.level == shifted_level(old(self).level, delta as int),
                self.keyword == old(self).keyword,
                self.priority == old(self).priority,
                self.title == old(self).title,
                self.tags == old(self).tags,
                self.planning == old(self).planning,
                self.properties == old(self).properties,
                self.body == old(self).body,
                old_children == old(self).children@,
                shift_fits(old(self)@, delta as int),
                forall|k: int| 0 <= k < i ==> #[trigger] self.children@[k]@ == shifted(old_children[k]@, delta as int),
                forall|k: int| i <= k < old_children.len() ==> #[trigger] self.children@[k] == old_children[k],
            decreases self.children@.len() - i,
        {
            proof {
                lemma_headings_model(old_children);
                lemma_shift_fits_list(headings_model(old_children), delta as int, i as int);
            }
            let c = &mut self.children[i];
            c.shift_level(delta);
            i += 1;
        }
        proof {
            lemma_headings_model(old_children);
            lemma_headings_model(self.children@);
            lemma_shifted_list(headings_model(old_children), delta as int);
            assert forall|k: int| 0 <= k < old_children.len() implies #[trigger] headings_model(self.children@)[k]
                == shifted_list(headings_model(old_children), delta as int)[k] by {
                assert(self.children@[k]@ == shifted(old_children[k]@, delta as int));
            }
        }
        assert(headings_model(self.children@) =~= shifted_list(headings_model(old_children), delta as int));
        assert(self@ =~= shifted(old(self)@, delta as int));
    }
}


// ---------------------------------------------------------------------------
// Facts about addresses
// ---------------------------------------------------------------------------

/// Extending a valid parent address by an index into its list.
pub proof fn lemma_list_at_push(hs: Seq<HeadingModel>, pp: Seq<usize>, i: usize)
    requires
        valid_parent(hs, pp),
        i < list_at(hs, pp).len(),
    ensures
        valid_parent(hs, pp.push(i)),
        list_at(hs, pp.push(i)) == list_at(hs, pp)[i as int].children,
        valid_path(hs, pp.push(i)),
        heading_at_path(hs, pp.push(i)) == list_at(hs, pp)[i as int],
    decreases pp.len(),
{
    let q = pp.push(i);
    if pp.len() > 0 {
        lemma_list_at_push(hs[pp[0] as int].children, pp.drop_first(), i);
        assert(q.drop_first() =~= pp.drop_first().push(i));
        assert(q[0] == pp[0]);
        assert(list_at(hs, q) == list_at(hs[pp[0] as int].children, q.drop_first()));
        assert(valid_parent(hs, q) == (q[0] < hs.len() && valid_parent(hs[q[0] as int].children, q.drop_first())));
        assert(valid_path(hs, q) == (q[0] < hs.len() && valid_path(hs[q[0] as int].children, q.drop_first())));
    } else {
        assert(q.drop_first() =~= Seq::<usize>::empty());
        assert(q[0] == i);
        assert(list_at(hs, q) == list_at(hs[i as int].children, q.drop_first()));
        assert(valid_parent(hs, q) == (q[0] < hs.len() && valid_parent(hs[q[0] as int].children, q.drop_first())));
    }
}

/// A valid address is a valid parent address.
pub proof fn lemma_valid_path_is_parent(hs: Seq<HeadingModel>, path: Seq<usize>)
    requires
        valid_path(hs, path),
    ensures
        valid_parent(hs, path),
    decreases path.len(),
{
    if path.len() > 1 {
        lemma_valid_path_is_parent(hs[path[0] as int].children, path.drop_first());
    } else {
        assert(path.drop_first() =~= Seq::<usize>::empty());
        assert(valid_parent(hs[path[0] as int].children, path.drop_first()));
    }
}


// ---------------------------------------------------------------------------
// Lengths, and what the walk yields
// ---------------------------------------------------------------------------

/// Whether no list of headings in the tree of `hs` (`hs` included) has more
/// than `usize::MAX` entries, as holds of every document in memory.
pub open spec fn lens_fit(hs: Seq<HeadingModel>) -> bool
    decreases hs,
{
    hs.len() <= usize::MAX && (hs.len() == 0 || (lens_fit(hs.drop_last()) && lens_fit(hs.last().children)))
}

/// The bound holds of the children of each heading of a list that has it.
pub proof fn lemma_lens_fit_index(hs: Seq<HeadingModel>, i: int)
    requires
        lens_fit(hs),
        0 <= i < hs.len(),
    ensures
        lens_fit(hs[i].children),
    decreases hs.len(),
{
    if i < hs.len() - 1 {
        lemma_lens_fit_index(hs.drop_last(), i);
        assert(hs.drop_last()[i] == hs[i]);
    }
}

/// The bound holds of the list at a valid parent address.
pub proof fn lemma_lens_fit_list_at(hs: Seq<HeadingModel>, pp: Seq<usize>)
    requires
        lens_fit(hs),
        valid_parent(hs, pp),
    ensures
        lens_fit(list_at(hs, pp)),
    decreases pp.len(),
{
    if pp.len() > 0 {
        lemma_lens_fit_index(hs, pp[0] as int);
        lemma_lens_fit_list_at(hs[pp[0] as int].children, pp.drop_first());
    }
}

proof fn lemma_lens_fit_of(hs: Seq<Heading>)
    requires
        hs.len() <= usize::MAX,
    ensures
        lens_fit(headings_model(hs)),
    decreases hs,
{
    broadcast use group_headings_model;

    if hs.len() > 0 {
        lemma_lens_fit_of(hs.drop_last());
        let c = hs.last().children;
        assert(c.len() <= usize::MAX);
        lemma_lens_fit_of(c@);
        assert(headings_model(hs).drop_last() =~= headings_model(hs.drop_last()));
    }
}

/// Every document in memory has the length bound.
pub proof fn lemma_doc_lens_fit(doc: &OrgDoc)
    ensures
        lens_fit(doc@.headings),
{
    assert(doc.headings.len() <= usize::MAX);
    lemma_lens_fit_of(doc.headings@);
}

/// The list at a valid address is the children of the heading there.
pub proof fn lemma_list_at_path(hs: Seq<HeadingModel>, path: Seq<usize>)
    requires
        valid_path(hs, path),
    ensures
        valid_parent(hs, path),
        list_at(hs, path) == heading_at_path(hs, path).children,
    decreases path.len(),
{
    lemma_valid_path_is_parent(hs, path);
    if path.len() > 1 {
        lemma_list_at_path(hs[path[0] as int].children, path.drop_first());
    } else {
        assert(path.drop_first() =~= Seq::<usize>::empty());
        assert(list_at(hs[path[0] as int].children, path.drop_first()) == hs[path[0] as int].children);
    }
}

/// Each prefix of a valid address is a valid parent address, and the next
/// index lies within the list there.
pub proof fn lemma_valid_path_prefix(hs: Seq<HeadingModel>, path: Seq<usize>, i: int)
    requires
        valid_path(hs, path),
        0 <= i < path.len(),
    ensures
        valid_parent(hs, path.take(i)),
        path[i] < list_at(hs, path.take(i)).len(),
    decreases path.len(),
{
    if i == 0 {
        assert(path.take(0) =~= Seq::<usize>::empty());
    } else {
        let rest = path.drop_first();
        lemma_valid_path_prefix(hs[path[0] as int].children, rest, i - 1);
        let t = path.take(i);
        assert(t[0] == path[0]);
        assert(t.drop_first() =~= rest.take(i - 1));
        assert(path[i] == rest[i - 1]);
    }
}

/// Whether the address of the pair `e` names its heading in `root`.
pub open spec fn names_heading(root: Seq<HeadingModel>, e: (Seq<usize>, HeadingModel)) -> bool {
    valid_path(root, e.0) && heading_at_path(root, e.0) == e.1
}

proof fn lemma_walk_list_names(root: Seq<HeadingModel>, pp: Seq<usize>, hs: Seq<HeadingModel>, n: int)
    requires
        lens_fit(root),
        valid_parent(root, pp),
        hs == list_at(root, pp),
        0 <= n <= hs.len(),
    ensures
        forall|k: int| 0 <= k < walk_list(hs.take(n), pp).len() ==> names_heading(root, #[trigger] walk_list(hs.take(n), pp)[k]),
    decreases hs, n,
{
    if n > 0 {
        lemma_walk_list_names(root, pp, hs, n - 1);
        lemma_lens_fit_list_at(root, pp);
        let t = hs.take(n);
        assert(t.drop_last() =~= hs.take(n - 1));
        assert(t.last() == hs[n - 1]);
        let i = (n - 1) as usize;
        assert(i == n - 1);
        lemma_list_at_push(root, pp, i);
        lemma_walk_node_names(root, pp.push(i), hs[n - 1]);
        let a = walk_list(hs.take(n - 1), pp);
        let b = walk_node(hs[n - 1], pp.push(i));
        assert(walk_list(t, pp) == a + b);
        assert forall|k: int| 0 <= k < walk_list(t, pp).len() implies names_heading(root, #[trigger] walk_list(t, pp)[k]) by {
            if k < a.len() {
                assert(walk_list(t, pp)[k] == a[k]);
            } else {
                assert(walk_list(t, pp)[k] == b[k - a.len()]);
            }
        }
    }
}

proof fn lemma_walk_node_names(root: Seq<HeadingModel>, addr: Seq<usize>, h: HeadingModel)
    requires
        lens_fit(root),
        valid_parent(root, addr),
        valid_path(root, addr),
        heading_at_path(root, addr) == h,
        list_at(root, addr) == h.children,
    ensures
        forall|k: int| 0 <= k < walk_node(h, addr).len() ==> names_heading(root, #[trigger] walk_node(h, addr)[k]),
    decreases h, 0int,
{
    lemma_walk_list_names(root, addr, h.children, h.children.len() as int);
    assert(h.children.take(h.children.len() as int) =~= h.children);
    let w = walk_node(h, addr);
    let c = walk_list(h.children, addr);
    assert forall|k: int| 0 <= k < w.len() implies names_heading(root, #[trigger] w[k]) by {
        if k > 0 {
            assert(w[k] == c[k - 1]);
        }
    }
}

/// The depth-first walk yields each heading together with an address that
/// names it: the address is valid, and the heading at it is the one yielded.
pub proof fn lemma_walk_names(hs: Seq<HeadingModel>, k: int)
    requires
        lens_fit(hs),
        0 <= k < walk_list(hs, seq![]).len(),
    ensures
        valid_path(hs, walk_list(hs, seq![])[k].0),
        heading_at_path(hs, walk_list(hs, seq![])[k].0) == walk_list(hs, seq![])[k].1,
{
    lemma_walk_list_names(hs, seq![], hs, hs.len() as int);
    assert(hs.take(hs.len() as int) =~= hs);
    assert(names_heading(hs, walk_list(hs, seq![])[k]));
}


// ---------------------------------------------------------------------------
// The order of the walk
// ---------------------------------------------------------------------------

/// Lexicographic order on addresses, a proper prefix before its extensions:
/// the order in which a depth-first walk visits them.
pub open spec fn addr_lt(a: Seq<usize>, b: Seq<usize>) -> bool
    decreases a.len(),
{
    if b.len() == 0 {
        false
    } else if a.len() == 0 {
        true
    } else if a[0] != b[0] {
        a[0] < b[0]
    } else {
        addr_lt(a.drop_first(), b.drop_first())
    }
}

/// Whether the addresses of `w` strictly increase.
pub open spec fn addrs_increasing(w: Seq<(Seq<usize>, HeadingModel)>) -> bool {
    forall|i: int, j: int| 0 <= i < j < w.len() ==> addr_lt(#[trigger] w[i].0, #[trigger] w[j].0)
}

/// No address comes before itself.
pub proof fn lemma_addr_lt_irreflexive(a: Seq<usize>)
    ensures
        !addr_lt(a, a),
    decreases a.len(),
{
    if a.len() > 0 {
        lemma_addr_lt_irreflexive(a.drop_first());
    }
}

proof fn lemma_addr_lt_at(x: Seq<usize>, y: Seq<usize>, m: int)
    requires
        0 <= m < x.len(),
        m < y.len(),
        x.take(m) == y.take(m),
        x[m] < y[m],
    ensures
        addr_lt(x, y),
    decreases m,
{
    if m > 0 {
        assert(x[0] == x.take(m)[0]);
        assert(y[0] == y.take(m)[0]);
        assert(x.drop_first().take(m - 1) =~= x.take(m).drop_first());
        assert(y.drop_first().take(m - 1) =~= y.take(m).drop_first());
        lemma_addr_lt_at(x.drop_first(), y.drop_first(), m - 1);
    }
}

proof fn lemma_addr_lt_prefix(x: Seq<usize>, y: Seq<usize>)
    requires
        x.len() < y.len(),
        y.take(x.len() as int) == x,
    ensures
        addr_lt(x, y),
    decreases x.len(),
{
    if x.len() > 0 {
        assert(y[0] == y.take(x.len() as int)[0]);
        assert(y.drop_first().take(x.len() - 1) =~= x.drop_first());
        lemma_addr_lt_prefix(x.drop_first(), y.drop_first());
    }
}

/// Every address walked from `hs` under `p` extends `p` by an index of `hs`.
spec fn walked_under(w: Seq<(Seq<usize>, HeadingModel)>, p: Seq<usize>, n: nat) -> bool {
    forall|k: int| 0 <= k < w.len() ==> {
        &&& (#[trigger] w[k]).0.len() > p.len()
        &&& w[k].0.take(p.len() as int) == p
        &&& w[k].0[p.len() as int] < n
    }
}

#[verifier::spinoff_prover]
proof fn lemma_walk_list_order(hs: Seq<HeadingModel>, p: Seq<usize>)
    requires
        lens_fit(hs),
    ensures
        walk_list(hs, p).len() == heading_count(hs),
        walked_under(walk_list(hs, p), p, hs.len()),
        addrs_increasing(walk_list(hs, p)),
    decreases hs,
{
    if hs.len() > 0 {
        let n = hs.len();
        let a = p.push((n - 1) as usize);
        let l = walk_list(hs.drop_last(), p);
        let r = walk_node(hs.last(), a);
        let w = walk_list(hs, p);
        lemma_walk_list_order(hs.drop_last(), p);
        lemma_walk_node_order(hs.last(), a);
        assert(w == l + r);
        assert(a.take(p.len() as int) =~= p);
        assert forall|k: int| 0 <= k < w.len() implies {
            &&& (#[trigger] w[k]).0.len() > p.len()
            &&& w[k].0.take(p.len() as int) == p
            &&& w[k].0[p.len() as int] < n
        } by {
            if k < l.len() {
                assert(w[k] == l[k]);
            } else {
                let x = r[k - l.len()].0;
                assert(w[k] == r[k - l.len()]);
                assert(x.take(a.len() as int) == a);
                assert(x.take(p.len() as int) =~= a.take(p.len() as int));
                assert(x[p.len() as int] == x.take(a.len() as int)[p.len() as int]);
            }
        }
        assert forall|i: int, j: int| 0 <= i < j < w.len() implies addr_lt(#[trigger] w[i].0, #[trigger] w[j].0) by {
            if j < l.len() {
                assert(w[i] == l[i]);
                assert(w[j] == l[j]);
            } else if i >= l.len() {
                assert(w[i] == r[i - l.len()]);
                assert(w[j] == r[j - l.len()]);
            } else {
                assert(w[i] == l[i]);
                let y = r[j - l.len()].0;
                assert(w[j] == r[j - l.len()]);
                assert(y.take(a.len() as int) == a);
                assert(y.take(p.len() as int) =~= a.take(p.len() as int));
                assert(y[p.len() as int] == y.take(a.len() as int)[p.len() as int]);
                lemma_addr_lt_at(l[i].0, y, p.len() as int);
            }
        }
    }
}

proof fn lemma_walk_node_order(h: HeadingModel, a: Seq<usize>)
    requires
        lens_fit(h.children),
    ensures
        walk_node(h, a).len() == node_count(h),
        walk_node(h, a)[0] == (a, h),
        forall|k: int| 0 <= k < walk_node(h, a).len() ==> {
            &&& (#[trigger] walk_node(h, a)[k]).0.len() >= a.len()
            &&& walk_node(h, a)[k].0.take(a.len() as int) == a
        },
        addrs_increasing(walk_node(h, a)),
    decreases h,
{
    let c = walk_list(h.children, a);
    let w = walk_node(h, a);
    lemma_walk_list_order(h.children, a);
    assert(a.take(a.len() as int) =~= a);
    assert forall|k: int| 0 <= k < w.len() implies {
        &&& (#[trigger] w[k]).0.len() >= a.len()
        &&& w[k].0.take(a.len() as int) == a
    } by {
        if k > 0 {
            assert(w[k] == c[k - 1]);
        }
    }
    assert forall|i: int, j: int| 0 <= i < j < w.len() implies addr_lt(#[trigger] w[i].0, #[trigger] w[j].0) by {
        assert(w[j] == c[j - 1]);
        if i == 0 {
            lemma_addr_lt_prefix(a, c[j - 1].0);
        } else {
            assert(w[i] == c[i - 1]);
        }
    }
}

/// The position in the walk of `hs` under `p` of the address `p + q`.
proof fn lemma_walk_list_find(hs: Seq<HeadingModel>, p: Seq<usize>, q: Seq<usize>) -> (k: int)
    requires
        valid_path(hs, q),
    ensures
        0 <= k < walk_list(hs, p).len(),
        walk_list(hs, p)[k].0 == p + q,
    decreases hs,
{
    let n = hs.len();
    let l = walk_list(hs.drop_last(), p);
    let a = p.push((n - 1) as usize);
    let w = walk_list(hs, p);
    assert(w == l + walk_node(hs.last(), a));
    if q[0] == n - 1 {
        assert(a =~= p.push(q[0]));
        if q.len() == 1 {
            assert(p.push(q[0]) =~= p + q);
            assert(w[l.len() as int] == walk_node(hs.last(), a)[0]);
            l.len() as int
        } else {
            let c = walk_list(hs.last().children, a);
            let k1 = lemma_walk_list_find(hs.last().children, a, q.drop_first());
            assert(a + q.drop_first() =~= p + q);
            assert(walk_node(hs.last(), a)[k1 + 1] == c[k1]);
            assert(w[l.len() + 1 + k1] == walk_node(hs.last(), a)[k1 + 1]);
            l.len() + 1 + k1
        }
    } else {
        assert(hs.drop_last()[q[0] as int] == hs[q[0] as int]);
        let k1 = lemma_walk_list_find(hs.drop_last(), p, q);
        assert(w[k1] == l[k1]);
        k1
    }
}

/// The depth-first walk of a document lists every heading once, in
/// document order: its length is the number of headings; the addresses
/// strictly increase in lexicographic order (a heading before its
/// descendants, and those before its later siblings), so no address comes
/// twice; every valid address of the document occurs; and each address
/// names the heading it comes with.
pub proof fn lemma_walk_order(hs: Seq<HeadingModel>)
    requires
        lens_fit(hs),
    ensures
        walk_list(hs, seq![]).len() == heading_count(hs),
        addrs_increasing(walk_list(hs, seq![])),
        forall|i: int, j: int|
            0 <= i < walk_list(hs, seq![]).len() && 0 <= j < walk_list(hs, seq![]).len() && i != j
                ==> #[trigger] walk_list(hs, seq![])[i].0 != #[trigger] walk_list(hs, seq![])[j].0,
        forall|q: Seq<usize>| #[trigger] valid_path(hs, q) ==> exists|k: int|
            0 <= k < walk_list(hs, seq![]).len() && #[trigger] walk_list(hs, seq![])[k].0 == q,
        forall|k: int| 0 <= k < walk_list(hs, seq![]).len() ==> names_heading(hs, #[trigger] walk_list(hs, seq![])[k]),
{
    let w = walk_list(hs, seq![]);
    lemma_walk_list_order(hs, seq![]);
    assert forall|i: int, j: int| 0 <= i < w.len() && 0 <= j < w.len() && i != j implies #[trigger] w[i].0 != #[trigger] w[j].0 by {
        lemma_addr_lt_irreflexive(w[i].0);
        if i > j {
            assert(addr_lt(w[j].0, w[i].0));
        } else {
            assert(addr_lt(w[i].0, w[j].0));
        }
    }
    assert forall|q: Seq<usize>| #[trigger] valid_path(hs, q) implies exists|k: int|
        0 <= k < w.len() && #[trigger] w[k].0 == q by {
        let k = lemma_walk_list_find(hs, seq![], q);
        assert(Seq::<usize>::empty() + q =~= q);
    }
    assert forall|k: int| 0 <= k < w.len() implies names_heading(hs, #[trigger] w[k]) by {
        lemma_walk_names(hs, k);
    }
}

// ---------------------------------------------------------------------------
// Replacing a heading, and shifting back
// ---------------------------------------------------------------------------

/// Replacing the heading at an address twice leaves the second replacement.
pub proof fn lemma_with_heading_twice(hs: Seq<HeadingModel>, path: Seq<usize>, a: HeadingModel, b: HeadingModel)
    requires
        valid_path(hs, path),
    ensures
        with_heading_at(with_heading_at(hs, path, a), path, b) == with_heading_at(hs, path, b),
    decreases path.len(),
{
    if path.len() > 1 {
        lemma_with_heading_twice(hs[path[0] as int].children, path.drop_first(), a, b);
    }
    assert(with_heading_at(with_heading_at(hs, path, a), path, b) =~= with_heading_at(hs, path, b));
}

/// Putting back the heading that is at an address changes nothing.
pub proof fn lemma_with_heading_itself(hs: Seq<HeadingModel>, path: Seq<usize>)
    requires
        valid_path(hs, path),
    ensures
        with_heading_at(hs, path, heading_at_path(hs, path)) == hs,
    decreases path.len(),
{
    if path.len() > 1 {
        lemma_with_heading_itself(hs[path[0] as int].children, path.drop_first());
    }
    assert(with_heading_at(hs, path, heading_at_path(hs, path)) =~= hs);
}

/// Whether every level of `h`'s subtree is at least 1.
pub open spec fn levels_positive(h: HeadingModel) -> bool
    decreases h,
{
    h.level >= 1 && all_levels_positive(h.children)
}

/// Whether every level of the trees of `hs` is at least 1.
pub open spec fn all_levels_positive(hs: Seq<HeadingModel>) -> bool
    decreases hs,
{
    hs.len() == 0 || (all_levels_positive(hs.drop_last()) && levels_positive(hs.last()))
}

/// Shifting down one level and back up restores a subtree whose levels
/// are all at least 1 and leave room for the shift.
pub proof fn lemma_shift_back(h: HeadingModel)
    requires
        levels_positive(h),
        shift_fits(h, 1),
    ensures
        shifted(shifted(h, 1), -1) == h,
    decreases h,
{
    lemma_shift_back_list(h.children);
    assert(shifted(shifted(h, 1), -1) =~= h);
}

/// `lemma_shift_back` for every tree of `hs`.
pub proof fn lemma_shift_back_list(hs: Seq<HeadingModel>)
    requires
        all_levels_positive(hs),
        shift_fits_list(hs, 1),
    ensures
        shifted_list(shifted_list(hs, 1), -1) == hs,
    decreases hs,
{
    if hs.len() > 0 {
        lemma_shift_back_list(hs.drop_last());
        lemma_shift_back(hs.last());
        let x = shifted_list(hs, 1);
        assert(x.drop_last() == shifted_list(hs.drop_last(), 1));
        assert(x.last() == shifted(hs.last(), 1));
        assert(shifted_list(x, -1) =~= hs.drop_last().push(hs.last()));
        assert(hs.drop_last().push(hs.last()) =~= hs);
    } else {
        assert(shifted_list(hs, 1) =~= Seq::<HeadingModel>::empty());
    }
}

/// Shifting by zero changes nothing in a subtree whose levels are all at
/// least 1.
pub proof fn lemma_shift_zero(h: HeadingModel)
    requires
        levels_positive(h),
    ensures
        shifted(h, 0) == h,
    decreases h,
{
    lemma_shift_zero_list(h.children);
    assert(shifted(h, 0) =~= h);
}

/// `lemma_shift_zero` for every tree of `hs`.
pub proof fn lemma_shift_zero_list(hs: Seq<HeadingModel>)
    requires
        all_levels_positive(hs),
    ensures
        shifted_list(hs, 0) == hs,
    decreases hs,
{
    if hs.len() > 0 {
        lemma_shift_zero_list(hs.drop_last());
        lemma_shift_zero(hs.last());
        assert(hs.drop_last().push(hs.last()) =~= hs);
    } else {
        assert(shifted_list(hs, 0) =~= hs);
    }
}

/// Shifting never takes a level below 1.
pub proof fn lemma_shift_positive(h: HeadingModel, delta: int)
    requires
        shift_fits(h, delta),
    ensures
        levels_positive(shifted(h, delta)),
    decreases h,
{
    lemma_shift_positive_list(h.children, delta);
}

/// `lemma_shift_positive` for every tree of `hs`.
pub proof fn lemma_shift_positive_list(hs: Seq<HeadingModel>, delta: int)
    requires
        shift_fits_list(hs, delta),
    ensures
        all_levels_positive(shifted_list(hs, delta)),
    decreases hs,
{
    if hs.len() > 0 {
        lemma_shift_positive_list(hs.drop_last(), delta);
        lemma_shift_positive(hs.last(), delta);
        let x = shifted_list(hs, delta);
        assert(x.drop_last() == shifted_list(hs.drop_last(), delta));
        assert(x.last() == shifted(hs.last(), delta));
    } else {
        assert(shifted_list(hs, delta) =~= Seq::<HeadingModel>::empty());
    }
}

// ---------------------------------------------------------------------------
// Counting headings
// ---------------------------------------------------------------------------

/// The number of headings of the trees of `hs`.
pub open spec fn heading_count(hs: Seq<HeadingModel>) -> nat
    decreases hs,
{
    if hs.len() == 0 {
        0
    } else {
        heading_count(hs.drop_last()) + node_count(hs.last())
    }
}

/// The number of headings of the tree of `h`, `h` included.
pub open spec fn node_count(h: HeadingModel) -> nat
    decreases h,
{
    1 + heading_count(h.children)
}

/// Counting distributes over concatenation.
pub proof fn lemma_count_add(a: Seq<HeadingModel>, b: Seq<HeadingModel>)
    ensures
        heading_count(a + b) == heading_count(a) + heading_count(b),
    decreases b.len(),
{
    if b.len() == 0 {
        assert(a + b =~= a);
    } else {
        lemma_count_add(a, b.drop_last());
        assert((a + b).drop_last() =~= a + b.drop_last());
        assert((a + b).last() == b.last());
    }
}

pub proof fn lemma_count_one(h: HeadingModel)
    ensures
        heading_count(seq![h]) == node_count(h),
{
    assert(seq![h].drop_last() =~= Seq::<HeadingModel>::empty());
    assert(heading_count(Seq::<HeadingModel>::empty()) == 0);
    assert(seq![h].last() == h);
}

/// Inserting a tree adds its headings.
pub proof fn lemma_count_insert(hs: Seq<HeadingModel>, i: int, h: HeadingModel)
    requires
        0 <= i <= hs.len(),
    ensures
        heading_count(hs.insert(i, h)) == heading_count(hs) + node_count(h),
{
    assert(hs.insert(i, h) =~= hs.take(i) + seq![h] + hs.skip(i));
    assert(hs =~= hs.take(i) + hs.skip(i));
    lemma_count_add(hs.take(i) + seq![h], hs.skip(i));
    lemma_count_add(hs.take(i), seq![h]);
    lemma_count_add(hs.take(i), hs.skip(i));
    lemma_count_one(h);
}

/// Removing a tree takes away its headings.
pub proof fn lemma_count_remove(hs: Seq<HeadingModel>, i: int)
    requires
        0 <= i < hs.len(),
    ensures
        heading_count(hs.remove(i)) + node_count(hs[i]) == heading_count(hs),
{
    assert(hs.remove(i) =~= hs.take(i) + hs.skip(i + 1));
    assert(hs =~= hs.take(i) + seq![hs[i]] + hs.skip(i + 1));
    lemma_count_add(hs.take(i) + seq![hs[i]], hs.skip(i + 1));
    lemma_count_add(hs.take(i), seq![hs[i]]);
    lemma_count_add(hs.take(i), hs.skip(i + 1));
    lemma_count_one(hs[i]);
}

/// Replacing a tree swaps its headings for the replacement's.
pub proof fn lemma_count_update(hs: Seq<HeadingModel>, i: int, h: HeadingModel)
    requires
        0 <= i < hs.len(),
    ensures
        heading_count(hs.update(i, h)) + node_count(hs[i]) == heading_count(hs) + node_count(h),
{
    lemma_count_remove(hs, i);
    lemma_count_insert(hs.remove(i), i, h);
    assert(hs.remove(i).insert(i, h) =~= hs.update(i, h));
}

/// Replacing the list at a valid parent address swaps its headings for
/// those of the new list.
pub proof fn lemma_count_with_list_at(hs: Seq<HeadingModel>, pp: Seq<usize>, new: Seq<HeadingModel>)
    requires
        valid_parent(hs, pp),
    ensures
        heading_count(with_list_at(hs, pp, new)) + heading_count(list_at(hs, pp)) == heading_count(hs)
            + heading_count(new),
    decreases pp.len(),
{
    if pp.len() > 0 {
        let i = pp[0] as int;
        let c = hs[i];
        lemma_count_with_list_at(c.children, pp.drop_first(), new);
        let c2 = HeadingModel { children: with_list_at(c.children, pp.drop_first(), new), ..c };
        lemma_count_update(hs, i, c2);
    }
}

/// Replacing the heading at a valid address swaps its tree's headings for
/// those of the replacement.
pub proof fn lemma_count_with_heading_at(hs: Seq<HeadingModel>, path: Seq<usize>, h: HeadingModel)
    requires
        valid_path(hs, path),
    ensures
        heading_count(with_heading_at(hs, path, h)) + node_count(heading_at_path(hs, path)) == heading_count(hs)
            + node_count(h),
    decreases path.len(),
{
    let i = path[0] as int;
    if path.len() <= 1 {
        lemma_count_update(hs, i, h);
    } else {
        let c = hs[i];
        lemma_count_with_heading_at(c.children, path.drop_first(), h);
        let c2 = HeadingModel { children: with_heading_at(c.children, path.drop_first(), h), ..c };
        lemma_count_update(hs, i, c2);
    }
}

/// Shifting levels keeps the number of headings.
pub proof fn lemma_count_shifted(h: HeadingModel, delta: int)
    ensures
        node_count(shifted(h, delta)) == node_count(h),
    decreases h,
{
    lemma_count_shifted_list(h.children, delta);
}

/// `lemma_count_shifted` for every tree of `hs`.
pub proof fn lemma_count_shifted_list(hs: Seq<HeadingModel>, delta: int)
    ensures
        heading_count(shifted_list(hs, delta)) == heading_count(hs),
    decreases hs,
{
    if hs.len() > 0 {
        lemma_count_shifted_list(hs.drop_last(), delta);
        lemma_count_shifted(hs.last(), delta);
        let x = shifted_list(hs, delta);
        assert(x.drop_last() == shifted_list(hs.drop_last(), delta));
        assert(x.last() == shifted(hs.last(), delta));
    }
}

} // verus!
