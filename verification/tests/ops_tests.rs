//! Tests of the editing operations, the search, the outline display and the
//! error messages.

use chorg::display::{find_nodes, format_heading_line, format_outline, json_outline, outline_node, show_text};
use chorg::model::{Heading, OrgDoc};
use chorg::ops::{
    delete_heading, delete_property, edit_heading, find, get_property, can_move, can_shift, insert_heading,
    is_tag_change, move_heading, parse_property_filter, set_keyword, set_property, shift_heading, tag_list_of,
    tags_display, update_tags, FindQuery, PromoteError, PropertyError,
};
use chorg::parser::parse;
use chorg::path::{resolve, ResolveError, SegmentError};
use chorg::text::IntError;
use chorg::writer;

fn fixture() -> OrgDoc {
    parse(
        "\
#+TODO: TODO NEXT WAITING | DONE CANCELLED

* TODO [#A] Buy groceries :shopping:
SCHEDULED: <2024-06-15 Sat>
:PROPERTIES:
:EFFORT: 30min
:END:
Need to go to the store.
** Milk
** Eggs
* DONE Fix bug :work:code:
CLOSED: [2024-06-14 Fri]
The login page was fixed.
* Projects
** TODO Website redesign :work:
:PROPERTIES:
:EFFORT: 8h
:ASSIGNED: alice
:END:
Redesign the landing page.
** WAITING Database migration :work:infra:
DEADLINE: <2024-07-01 Mon>
Blocked on ops.
",
    )
}

fn query() -> FindQuery {
    FindQuery {
        keyword: None,
        no_keyword: None,
        tags: Vec::new(),
        no_tags: Vec::new(),
        min_level: None,
        max_level: None,
        scheduled: false,
        deadline: false,
        title: None,
        body: None,
        property: None,
        under: None,
    }
}

fn found_titles(doc: &OrgDoc, q: &FindQuery) -> Vec<String> {
    find(doc, q).unwrap().iter().map(|(_, h)| h.title.clone()).collect()
}

// ---------------------------------------------------------------------------
// TODO state
// ---------------------------------------------------------------------------

#[test]
fn set_keyword_returns_old_state() {
    let mut doc = fixture();
    let (addr, old) = set_keyword(&mut doc, "Projects/Website", "DONE").unwrap();
    assert_eq!(addr, vec![2, 0]);
    assert_eq!(old.as_deref(), Some("TODO"));
    assert_eq!(doc.heading_at(&[2, 0]).keyword.as_deref(), Some("DONE"));
}

#[test]
fn set_keyword_empty_clears() {
    let mut doc = fixture();
    set_keyword(&mut doc, "#1", "").unwrap();
    assert_eq!(doc.heading_at(&[0]).keyword, None);
}

#[test]
fn set_keyword_unknown_path_leaves_doc() {
    let mut doc = fixture();
    let before = writer::write(&doc);
    let err = set_keyword(&mut doc, "Nowhere", "DONE").unwrap_err();
    assert!(err.message().contains("no heading matches"));
    assert_eq!(writer::write(&doc), before);
}

// ---------------------------------------------------------------------------
// Insert, delete, move
// ---------------------------------------------------------------------------

#[test]
fn insert_first_top_level_with_fields() {
    let mut doc = fixture();
    let addr = insert_heading(&mut doc, "/", "First", Some("TODO".into()), Some('B'), Some("a:b"), Some("text"), Some(1))
        .unwrap();
    assert_eq!(addr, vec![0]);
    let h = doc.heading_at(&[0]);
    assert_eq!(h.level, 1);
    assert_eq!(h.title, "First");
    assert_eq!(h.keyword.as_deref(), Some("TODO"));
    assert_eq!(h.priority, Some('B'));
    assert_eq!(h.tags, vec!["a".to_string(), "b".to_string()]);
    assert_eq!(h.body, "text\n");
    assert_eq!(doc.headings.len(), 4);
}

#[test]
fn insert_under_parent_appends_and_clamps_position() {
    let mut doc = fixture();
    let addr = insert_heading(&mut doc, "Projects", "Docs", None, None, None, None, Some(99)).unwrap();
    assert_eq!(addr, vec![2, 2]);
    assert_eq!(doc.heading_at(&[2, 2]).level, 2);
    assert_eq!(doc.heading_at(&[2, 2]).body, "");
}

#[test]
fn insert_position_zero_is_first() {
    let mut doc = fixture();
    let addr = insert_heading(&mut doc, "#1", "Tea", None, None, None, None, Some(0)).unwrap();
    assert_eq!(addr, vec![0, 0]);
    assert_eq!(doc.heading_at(&[0, 0]).title, "Tea");
}

#[test]
fn tag_list_drops_empty_pieces() {
    assert_eq!(tag_list_of(":a::b:"), vec!["a".to_string(), "b".to_string()]);
    assert!(tag_list_of("").is_empty());
}

#[test]
fn delete_returns_title() {
    let mut doc = fixture();
    let (addr, title) = delete_heading(&mut doc, "#1.2").unwrap();
    assert_eq!(addr, vec![0, 1]);
    assert_eq!(title, "Eggs");
    assert_eq!(doc.headings[0].children.len(), 1);
}

#[test]
fn move_to_top_level_shifts_levels() {
    let mut doc = fixture();
    let addr = move_heading(&mut doc, "Projects/Database", "/", None).unwrap();
    assert_eq!(addr, vec![3]);
    assert_eq!(doc.heading_at(&[3]).level, 1);
    assert_eq!(doc.heading_at(&[3]).title, "Database migration");
}

#[test]
fn move_under_other_parent_at_position() {
    let mut doc = fixture();
    let addr = move_heading(&mut doc, "#2", "Projects", Some(1)).unwrap();
    assert_eq!(addr, vec![1, 0]);
    assert_eq!(doc.heading_at(&[1, 0]).title, "Fix bug");
    assert_eq!(doc.heading_at(&[1, 0]).level, 2);
}

#[test]
fn move_unknown_destination_is_error() {
    let mut doc = fixture();
    let err = move_heading(&mut doc, "#1", "Nowhere", None).unwrap_err();
    assert!(err.message().contains("no heading matches"));
}

// ---------------------------------------------------------------------------
// Promote and demote
// ---------------------------------------------------------------------------

#[test]
fn promote_at_top_level_refused() {
    let mut doc = fixture();
    let err = shift_heading(&mut doc, "#1", -1).unwrap_err();
    assert!(matches!(err, PromoteError::AtTopLevel));
    assert_eq!(err.message(), "cannot promote: already at top level");
}

#[test]
fn demote_then_promote_restores_levels() {
    let mut doc = fixture();
    let before = writer::write(&doc);
    shift_heading(&mut doc, "Projects", 1).unwrap();
    assert_eq!(doc.heading_at(&[2]).level, 2);
    assert_eq!(doc.heading_at(&[2, 1]).level, 3);
    shift_heading(&mut doc, "Projects", -1).unwrap();
    assert_eq!(writer::write(&doc), before);
}

#[test]
fn promote_error_from_path() {
    let mut doc = fixture();
    let err = shift_heading(&mut doc, "#9", 1).unwrap_err();
    assert!(matches!(err, PromoteError::Resolve(_)));
    assert!(err.message().contains("out of range"));
}

#[test]
fn shift_and_move_bounds() {
    let doc = fixture();
    assert!(can_shift(doc.heading_at(&[2]), 1));
    assert!(can_move(&doc, "#1", "Projects"));
    assert!(can_move(&doc, "Nowhere", "Projects"));
    let mut deep = fixture();
    deep.headings[2].children[1].level = 0x7fff_ffff;
    assert!(!can_shift(deep.heading_at(&[2]), 1));
    assert!(can_shift(deep.heading_at(&[2]), -1));
    // An unrelated deep heading does not stop a move elsewhere.
    assert!(can_move(&deep, "#1", "Fix bug"));
    assert!(!can_move(&deep, "Projects", "Fix bug"));
    let mut doc2 = fixture();
    doc2.headings[1].level = 0x7fff_ffff;
    assert!(!can_move(&doc2, "#1", "Fix bug"));
    assert!(can_move(&doc2, "#1", "/"));
}

// ---------------------------------------------------------------------------
// Edit
// ---------------------------------------------------------------------------

#[test]
fn edit_priority_uppercases_first_char() {
    let mut doc = fixture();
    edit_heading(&mut doc, "Fix bug", None, Some("c".into()), None, None).unwrap();
    assert_eq!(doc.heading_at(&[1]).priority, Some('C'));
    edit_heading(&mut doc, "Fix bug", None, Some(String::new()), None, None).unwrap();
    assert_eq!(doc.heading_at(&[1]).priority, None);
}

#[test]
fn edit_append_adds_line_break() {
    let mut doc = fixture();
    edit_heading(&mut doc, "#1/Milk", None, None, None, Some("two liters".into())).unwrap();
    assert_eq!(doc.heading_at(&[0, 0]).body, "two liters\n");
    edit_heading(&mut doc, "#1/Milk", Some("Oat milk".into()), None, Some("x".into()), Some("y".into())).unwrap();
    let h = doc.heading_at(&[0, 0]);
    assert_eq!(h.title, "Oat milk");
    assert_eq!(h.body, "x\ny\n");
}

// ---------------------------------------------------------------------------
// Properties
// ---------------------------------------------------------------------------

#[test]
fn get_after_set_gives_value() {
    let mut doc = fixture();
    set_property(&mut doc, "Projects/Website", "effort", "9h".into()).unwrap();
    assert_eq!(get_property(&doc, "Projects/Website", "EFFORT").unwrap(), "9h");
    assert_eq!(doc.heading_at(&[2, 0]).properties[0], ("EFFORT".to_string(), "9h".to_string()));
    set_property(&mut doc, "Projects/Website", "NEW", "v".into()).unwrap();
    assert_eq!(get_property(&doc, "Projects/Website", "new").unwrap(), "v");
}

#[test]
fn get_missing_property_message() {
    let doc = fixture();
    let err = get_property(&doc, "Projects/Website", "COLOR").unwrap_err();
    assert!(matches!(err, PropertyError::MissingOn { .. }));
    assert_eq!(err.message(), "property \"COLOR\" not found on #3.1");
}

#[test]
fn delete_missing_property_message() {
    let mut doc = fixture();
    let err = delete_property(&mut doc, "#1", "COLOR").unwrap_err();
    assert!(matches!(err, PropertyError::Missing { .. }));
    assert_eq!(err.message(), "property \"COLOR\" not found");
}

#[test]
fn delete_property_removes_all_matches() {
    let mut doc = fixture();
    delete_property(&mut doc, "#1", "effort").unwrap();
    assert!(doc.heading_at(&[0]).properties.is_empty());
    let err = get_property(&doc, "#1", "EFFORT").unwrap_err();
    assert!(matches!(err, PropertyError::MissingOn { .. }));
}

#[test]
fn property_error_from_path() {
    let doc = fixture();
    let err = get_property(&doc, "Projects//x", "A").unwrap_err();
    assert!(matches!(err, PropertyError::Resolve(_)));
    assert_eq!(err.message(), "empty path segment at position 2");
}

// ---------------------------------------------------------------------------
// Tags
// ---------------------------------------------------------------------------

#[test]
fn tags_add_twice_is_once() {
    let mut doc = fixture();
    let add = vec!["Urgent".to_string(), "urgent".to_string()];
    update_tags(&mut doc, "#2", &add, &Vec::new(), None, false).unwrap();
    update_tags(&mut doc, "#2", &add, &Vec::new(), None, false).unwrap();
    assert_eq!(doc.heading_at(&[1]).tags, vec!["work".to_string(), "code".to_string(), "Urgent".to_string()]);
}

#[test]
fn tags_set_clear_remove() {
    let mut doc = fixture();
    update_tags(&mut doc, "#2", &vec!["x".to_string()], &vec!["WORK".to_string()], Some("a:b"), true).unwrap();
    assert_eq!(doc.heading_at(&[1]).tags, vec!["a".to_string(), "b".to_string(), "x".to_string()]);
    assert_eq!(tags_display(doc.heading_at(&[1])), ":a:b:x:");
    update_tags(&mut doc, "#2", &Vec::new(), &Vec::new(), None, true).unwrap();
    assert_eq!(tags_display(doc.heading_at(&[1])), "(no tags)");
}

#[test]
fn tag_change_detection() {
    assert!(!is_tag_change(&Vec::new(), &Vec::new(), None, false));
    assert!(is_tag_change(&Vec::new(), &Vec::new(), Some(""), false));
    assert!(is_tag_change(&vec!["a".to_string()], &Vec::new(), None, false));
    assert!(is_tag_change(&Vec::new(), &Vec::new(), None, true));
}

// ---------------------------------------------------------------------------
// Find
// ---------------------------------------------------------------------------

#[test]
fn find_by_keyword_ignores_case() {
    let doc = fixture();
    let mut q = query();
    q.keyword = Some("todo".into());
    assert_eq!(found_titles(&doc, &q), vec!["Buy groceries", "Website redesign"]);
}

#[test]
fn find_excluding_keyword() {
    let doc = fixture();
    let mut q = query();
    q.no_keyword = Some("TODO".into());
    q.max_level = Some(1);
    assert_eq!(found_titles(&doc, &q), vec!["Fix bug", "Projects"]);
}

#[test]
fn find_by_tags_all_and_none() {
    let doc = fixture();
    let mut q = query();
    q.tags = vec!["WORK".into()];
    q.no_tags = vec!["infra".into()];
    assert_eq!(found_titles(&doc, &q), vec!["Fix bug", "Website redesign"]);
}

#[test]
fn find_by_title_lowercases() {
    let doc = fixture();
    let mut q = query();
    q.title = Some("REDESIGN".into());
    assert_eq!(found_titles(&doc, &q), vec!["Website redesign"]);
}

#[test]
fn find_by_body_lowercases() {
    let doc = fixture();
    let mut q = query();
    q.body = Some("LANDING".into());
    assert_eq!(found_titles(&doc, &q), vec!["Website redesign"]);
}

#[test]
fn find_by_property() {
    let doc = fixture();
    let mut q = query();
    q.property = Some("EFFORT=9h".into());
    assert!(found_titles(&doc, &q).is_empty());
    q.property = Some("effort=8h".into());
    assert_eq!(found_titles(&doc, &q), vec!["Website redesign"]);
    q.property = Some("assigned".into());
    assert_eq!(found_titles(&doc, &q), vec!["Website redesign"]);
}

#[test]
fn find_property_filter_split() {
    assert_eq!(parse_property_filter("A=b=c"), ("A".to_string(), "b=c".to_string()));
    assert_eq!(parse_property_filter("A"), ("A".to_string(), String::new()));
}

#[test]
fn find_planning_and_levels() {
    let doc = fixture();
    let mut q = query();
    q.scheduled = true;
    assert_eq!(found_titles(&doc, &q), vec!["Buy groceries"]);
    let mut q = query();
    q.deadline = true;
    assert_eq!(found_titles(&doc, &q), vec!["Database migration"]);
    let mut q = query();
    q.min_level = Some(2);
    q.max_level = Some(2);
    assert_eq!(found_titles(&doc, &q).len(), 4);
}

#[test]
fn find_under_scope_is_strict() {
    let doc = fixture();
    let mut q = query();
    q.under = Some("Projects".into());
    let found = find(&doc, &q).unwrap();
    let addrs: Vec<Vec<usize>> = found.iter().map(|(a, _)| a.clone()).collect();
    assert_eq!(addrs, vec![vec![2, 0], vec![2, 1]]);
    q.under = Some("Nowhere".into());
    assert!(find(&doc, &q).is_err());
}

#[test]
fn find_nodes_have_no_children() {
    let doc = fixture();
    let mut q = query();
    q.title = Some("groceries".into());
    let nodes = find_nodes(&doc, &q).unwrap();
    assert_eq!(nodes.len(), 1);
    assert_eq!(nodes[0].addr, "#1");
    assert_eq!(nodes[0].path, "Buy groceries");
    assert!(nodes[0].children.is_empty());
    assert_eq!(nodes[0].body, "Need to go to the store.");
}

// ---------------------------------------------------------------------------
// Display
// ---------------------------------------------------------------------------

#[test]
fn heading_line_pads_address() {
    let doc = fixture();
    let mut out = String::new();
    format_heading_line(&mut out, doc.heading_at(&[0]), &[0], false);
    assert_eq!(out, "#1       TODO [#A] Buy groceries :shopping:\n");
}

#[test]
fn heading_line_with_content() {
    let doc = fixture();
    let mut out = String::new();
    format_heading_line(&mut out, doc.heading_at(&[1]), &[1], true);
    assert_eq!(out, "#2       DONE Fix bug :work:code:\n         | The login page was fixed.\n");
}

#[test]
fn outline_depth_limit() {
    let doc = fixture();
    let text = format_outline(&doc.headings, &[], Some(0), false);
    assert_eq!(text, "#1       TODO [#A] Buy groceries :shopping:\n#2       DONE Fix bug :work:code:\n#3       Projects\n");
    let all = format_outline(&doc.headings, &[], None, false);
    assert_eq!(all.lines().count(), 7);
    assert!(all.contains("#3.2     WAITING Database migration :work:infra:\n"));
}

#[test]
fn show_subtree() {
    let doc = fixture();
    let text = show_text(&doc, Some("Projects"), Some(1), false).unwrap();
    assert_eq!(
        text,
        "#3       Projects\n#3.1     TODO Website redesign :work:\n#3.2     WAITING Database migration :work:infra:\n"
    );
    assert!(show_text(&doc, Some("Nowhere"), None, false).is_err());
}

#[test]
fn json_outline_whole_document() {
    let doc = fixture();
    let o = json_outline(&doc, None, None).unwrap();
    assert_eq!(o.preamble.as_deref(), Some("#+TODO: TODO NEXT WAITING | DONE CANCELLED"));
    assert_eq!(o.headings.len(), 3);
    let p = &o.headings[2];
    assert_eq!(p.addr, "#3");
    assert_eq!(p.children.len(), 2);
    assert_eq!(p.children[0].path, "Projects/Website redesign");
    assert_eq!(p.children[0].properties.len(), 2);
    let shallow = json_outline(&doc, None, Some(0)).unwrap();
    assert!(shallow.headings[2].children.is_empty());
}

#[test]
fn json_outline_subtree() {
    let doc = fixture();
    let o = json_outline(&doc, Some("#1"), None).unwrap();
    assert!(o.preamble.is_none());
    assert_eq!(o.headings.len(), 1);
    assert_eq!(o.headings[0].children.len(), 2);
    let n = outline_node(&doc, &[0, 1], Some(0));
    assert_eq!(n.title, "Eggs");
    assert_eq!(n.level, 2);
}

// ---------------------------------------------------------------------------
// Error messages
// ---------------------------------------------------------------------------

#[test]
fn resolve_messages_in_full() {
    let doc = fixture();
    assert_eq!(
        resolve(&doc, "Projects/Nothing").unwrap_err().message(),
        "resolving segment \"Nothing\" at depth 2: no heading matches \"Nothing\".\nAvailable at this level: Website redesign, Database migration"
    );
    assert_eq!(
        resolve(&doc, "#9").unwrap_err().message(),
        "positional index 9 out of range (1..3) at depth 1"
    );
    assert_eq!(
        resolve(&doc, "Projects/#7").unwrap_err().message(),
        "resolving segment \"#7\" at depth 2: positional index 7 out of range (1..2)"
    );
    assert_eq!(
        resolve(&doc, "#x").unwrap_err().message(),
        "resolving segment \"#x\" at depth 1: invalid positional index \"#x\": invalid digit found in string"
    );
    assert_eq!(
        resolve(&doc, "#1/Milk/x").unwrap_err().message(),
        "resolving segment \"x\" at depth 3: no headings at this level"
    );
    assert_eq!(
        resolve(&doc, "99999999999999999999999").unwrap_err().message(),
        "invalid numeric address segment \"99999999999999999999999\": number too large to fit in target type"
    );
}

#[test]
fn ambiguous_message_lists_addresses() {
    let doc = parse("* P\n** Item A\n** Item B\n");
    let err = resolve(&doc, "P/item").unwrap_err();
    assert_eq!(
        err.message(),
        "resolving segment \"item\" at depth 2: ambiguous path \"item\" matches 2 headings. Use a positional address to disambiguate:\n  #1.1 — \"Item A\"\n  #1.2 — \"Item B\""
    );
    match err {
        ResolveError::Segment { cause, .. } => {
            assert!(matches!(cause, SegmentError::Ambiguous { .. }));
            assert!(cause.message("item").starts_with("ambiguous path \"item\""));
        },
        _ => panic!("expected a segment error"),
    }
}

#[test]
fn int_error_messages() {
    assert_eq!(IntError::Empty.message(), "cannot parse integer from empty string");
    assert_eq!(IntError::InvalidDigit.message(), "invalid digit found in string");
    assert_eq!(IntError::PosOverflow.message(), "number too large to fit in target type");
    let doc = fixture();
    assert!(resolve(&doc, "#").unwrap_err().message().contains("cannot parse integer from empty string"));
}

// ---------------------------------------------------------------------------
// Laws on concrete values
// ---------------------------------------------------------------------------

#[test]
fn parse_of_written_doc_is_the_doc() {
    let doc = fixture();
    let text = writer::write(&doc);
    let again = parse(&text);
    assert_eq!(writer::write(&again), text);
    assert_eq!(format!("{:?}", again.headings), format!("{:?}", doc.headings));
    assert_eq!(again.preamble, doc.preamble);
}

#[test]
fn printed_addresses_resolve_back() {
    let doc = fixture();
    for (addr, h) in doc.walk() {
        let text = Heading::format_addr(&addr);
        assert_eq!(resolve(&doc, &text).unwrap(), addr);
        assert_eq!(doc.heading_at(&addr).title, h.title);
    }
}

#[test]
fn unicode_tags_are_alphanumeric() {
    let doc = parse("* Title :café:\n* Other :a-b:\n");
    assert_eq!(doc.headings[0].tags, vec!["café".to_string()]);
    assert!(doc.headings[1].tags.is_empty());
    assert_eq!(doc.headings[1].title, "Other :a-b:");
}

#[test]
fn messages_quote_like_debug() {
    let doc = fixture();
    let err = resolve(&doc, "say \"hi\"\t").unwrap_err();
    assert_eq!(
        err.message(),
        "resolving segment \"say \\\"hi\\\"\" at depth 1: no heading matches \"say \\\"hi\\\"\".\nAvailable at this level: Buy groceries, Fix bug, Projects"
    );
}

fn count(doc: &OrgDoc) -> usize {
    doc.walk().len()
}

#[test]
fn headings_counted_across_edits() {
    let mut doc = fixture();
    assert_eq!(count(&doc), 7);
    move_heading(&mut doc, "#1", "Projects", None).unwrap();
    assert_eq!(count(&doc), 7);
    delete_heading(&mut doc, "Projects").unwrap();
    assert_eq!(count(&doc), 1);
    insert_heading(&mut doc, "#1", "New", None, None, None, None, None).unwrap();
    assert_eq!(count(&doc), 2);
}

#[test]
fn every_headline_becomes_a_heading() {
    let text = "pre\n* A\n*** B\n** C\nnot * a headline\n*bold*\n* D\n";
    let doc = parse(text);
    assert_eq!(count(&doc), 4);
    assert_eq!(doc.headings.len(), 2);
    assert_eq!(doc.headings[0].children.len(), 2);
}

// ---------------------------------------------------------------------------
// Walk order, addresses and title paths
// ---------------------------------------------------------------------------

#[test]
fn walk_lists_every_address_once_in_order() {
    let doc = fixture();
    let w = doc.walk();
    let addrs: Vec<Vec<usize>> = w.iter().map(|(a, _)| a.clone()).collect();
    assert_eq!(
        addrs,
        vec![vec![0], vec![0, 0], vec![0, 1], vec![1], vec![2], vec![2, 0], vec![2, 1]]
    );
    for i in 1..addrs.len() {
        assert!(addrs[i - 1] < addrs[i]);
    }
    for (a, h) in &w {
        assert_eq!(doc.heading_at(a).title, h.title);
    }
}

#[test]
fn printed_addresses_resolve_with_and_without_hash() {
    let doc = fixture();
    for (a, _) in doc.walk() {
        let text = Heading::format_addr(&a);
        assert_eq!(resolve(&doc, &text).unwrap(), a);
        assert_eq!(resolve(&doc, &text[1..]).unwrap(), a);
    }
    assert_eq!(resolve(&doc, "3.2").unwrap(), vec![2, 1]);
}

#[test]
fn title_paths_resolve_back() {
    let doc = fixture();
    for (a, _) in doc.walk() {
        let p = Heading::format_title_path(&doc, &a);
        assert_eq!(resolve(&doc, &p).unwrap(), a);
    }
    assert_eq!(Heading::format_title_path(&doc, &[2, 0]), "Projects/Website redesign");
}

#[test]
fn each_headline_line_becomes_its_heading() {
    let text = "pre\n* A :t:\nbody\n*** C\n** D\n*notheadline\n* TODO E\n";
    let doc = parse(text);
    let w = doc.walk();
    let levels: Vec<usize> = w.iter().map(|(_, h)| h.level).collect();
    assert_eq!(levels, vec![1, 3, 2, 1]);
    let titles: Vec<String> = w.iter().map(|(_, h)| h.title.clone()).collect();
    assert_eq!(titles, vec!["A", "C", "D", "E"]);
    assert_eq!(w[0].1.tags, vec!["t".to_string()]);
    assert_eq!(w[3].1.keyword, Some("TODO".to_string()));
}

#[test]
fn subtrees_stay_together_in_the_walk() {
    let doc = parse("* A\n*** B\n** C\n* D\n** E\n");
    let w = doc.walk();
    let levels: Vec<usize> = w.iter().map(|(_, h)| h.level).collect();
    assert_eq!(levels, vec![1, 3, 2, 1, 2]);
    assert_eq!(w[0].1.children.len(), 2);
    assert_eq!(w[1].1.children.len(), 0);
    assert_eq!(w[3].1.children.len(), 1);
    assert_eq!(w[0].0, vec![0]);
    assert_eq!(w[2].0, vec![0, 1]);
    assert_eq!(w[3].0, vec![1]);
}

#[test]
fn promote_demote_with_a_deep_unrelated_heading() {
    let mut doc = parse("* A\n** B\n");
    doc.headings.push(Heading {
        level: 0x4000_0005,
        keyword: None,
        priority: None,
        title: "Deep".to_string(),
        tags: Vec::new(),
        planning: None,
        properties: Vec::new(),
        body: String::new(),
        children: Vec::new(),
    });
    shift_heading(&mut doc, "A", 1).unwrap();
    assert_eq!(doc.headings[0].level, 2);
    assert_eq!(doc.headings[0].children[0].level, 3);
    shift_heading(&mut doc, "A", -1).unwrap();
    assert_eq!(doc.headings[0].level, 1);
    assert_eq!(doc.headings[0].children[0].level, 2);
    assert_eq!(doc.headings[1].level, 0x4000_0005);
    assert!(can_move(&doc, "A", "/"));
    move_heading(&mut doc, "A", "/", None).unwrap();
    assert_eq!(doc.headings[1].title, "A");
}

#[test]
fn levels_survive_writing_and_reading_again() {
    let text = "pre\n* TODO\t :a:\n*** B\n:PROPERTIES:\n:END:\nSCHEDULED: x\n** C :t:\nbody\n* D\n";
    let doc = parse(text);
    let again = parse(&writer::write(&doc));
    let l1: Vec<(Vec<usize>, usize)> = doc.walk().iter().map(|(a, h)| (a.clone(), h.level)).collect();
    let l2: Vec<(Vec<usize>, usize)> = again.walk().iter().map(|(a, h)| (a.clone(), h.level)).collect();
    assert_eq!(l1, l2);
    assert_eq!(l1.len(), 4);
    assert_eq!(doc.headings[0].keyword, None);
    assert_eq!(again.headings[0].keyword, Some("TODO".to_string()));
}

#[test]
fn writing_again_is_stable_when_each_section_rereads() {
    let text = "* H\n:PROPERTIES:\n:END:\nSCHEDULED: x\n";
    let first = writer::write(&parse(text));
    assert_eq!(first, "* H\nSCHEDULED: x\n");
    let second = writer::write(&parse(&first));
    assert_eq!(first, second);
}

#[test]
fn writing_again_changes_a_section_that_does_not_reread() {
    let text = "* A\n:PROPERTIES:\n:END:\nSCHEDULED: x\n  :PROPERTIES:\n:K:   v\n:END:\n";
    let first = writer::write(&parse(text));
    assert_eq!(first, "* A\nSCHEDULED: x\n  :PROPERTIES:\n:K:   v\n:END:\n");
    let second = writer::write(&parse(&first));
    assert_eq!(second, "* A\nSCHEDULED: x\n:PROPERTIES:\n:K: v\n:END:\n");
    let third = writer::write(&parse(&second));
    assert_eq!(second, third);
}

#[test]
fn headline_fields_survive_unless_the_title_reads_as_a_keyword() {
    let doc = parse("* Foo\t :a:\n* TODO\t :b:\n* DONE [#B]  Task\t:x:y:\n");
    let again = parse(&writer::write(&doc));
    let fields = |d: &OrgDoc, i: usize| {
        let h = &d.headings[i];
        (h.keyword.clone(), h.priority, h.title.clone(), h.tags.clone())
    };
    assert_eq!(fields(&again, 0), fields(&doc, 0));
    assert_eq!(fields(&doc, 0), (None, None, "Foo".to_string(), vec!["a".to_string()]));
    assert_ne!(fields(&again, 1), fields(&doc, 1));
    assert_eq!(fields(&again, 1), (Some("TODO".to_string()), None, ":b:".to_string(), Vec::new()));
    assert_eq!(fields(&again, 2), fields(&doc, 2));
}
