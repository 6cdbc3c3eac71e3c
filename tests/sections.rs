use mfdarchiver::archive::{build_archive, group_by_title};
use mfdarchiver::document::{Document, NodeKind, Tag};
use mfdarchiver::lifecycle::Lifecycle;
use mfdarchiver::sections::{
    add_to_archive, add_to_old_business, apply_lifecycle, archive_discussion, cleanup_empty_sections, cleanup_region, find_section_end,
    get_listed_mfds, is_in_old_business, move_into_old_business, move_out_of_current,
    remove_from_current, remove_transclusions, StructureError,
};

fn body() -> Document {
    Document::new(NodeKind::Element {
        tag: Tag::Other("body".to_string()),
        attrs: vec![],
        transclusion: None,
    })
}

fn element(doc: &mut Document, tag: Tag) -> usize {
    doc.add_node(NodeKind::Element { tag, attrs: vec![], transclusion: None })
}

fn heading(doc: &mut Document, level: u8, text: &str) {
    let h = element(doc, Tag::Heading(level));
    let t = doc.add_node(NodeKind::Text(text.to_string()));
    doc.append_child(h, t);
    doc.append_child(0, h);
}

fn para(doc: &mut Document, text: &str) {
    let p = element(doc, Tag::Other("p".to_string()));
    let t = doc.add_node(NodeKind::Text(text.to_string()));
    doc.append_child(p, t);
    doc.append_child(0, p);
}

fn transclusion(doc: &mut Document, title: &str) {
    let n = doc.add_node(NodeKind::Element {
        tag: Tag::Other("div".to_string()),
        attrs: vec![],
        transclusion: Some(title.to_string()),
    });
    let t = doc.add_node(NodeKind::Text(format!("Discussion of {}", title)));
    doc.append_child(n, t);
    doc.append_child(0, n);
}

fn list(doc: &mut Document, items: &[&str]) {
    let ul = element(doc, Tag::List);
    for item in items {
        let li = element(doc, Tag::Item);
        let t = doc.add_node(NodeKind::Text(item.to_string()));
        doc.append_child(li, t);
        doc.append_child(ul, li);
    }
    doc.append_child(0, ul);
}

/// One line per top-level node.
fn outline(doc: &Document) -> Vec<String> {
    doc.nodes[doc.root]
        .children
        .iter()
        .map(|&c| match &doc.nodes[c].kind {
            NodeKind::Element { transclusion: Some(t), .. } => format!("T {}", t),
            NodeKind::Element { tag: Tag::Heading(l), .. } => {
                format!("h{} {}", l, doc.text_contents(c))
            }
            NodeKind::Element { tag: Tag::List, .. } => {
                let items: Vec<String> = doc.nodes[c]
                    .children
                    .iter()
                    .map(|&li| doc.text_contents(li))
                    .collect();
                format!("ul [{}]", items.join(" | "))
            }
            NodeKind::Text(t) => format!("text {:?}", t),
            _ => format!("p {}", doc.text_contents(c)),
        })
        .collect()
}

fn strings(v: &[&str]) -> Vec<String> {
    v.iter().map(|s| s.to_string()).collect()
}

fn listing() -> Document {
    let mut doc = body();
    heading(&mut doc, 2, "Current discussions");
    heading(&mut doc, 3, "May 20, 2021");
    transclusion(&mut doc, "Wikipedia:Miscellany for deletion/A");
    transclusion(&mut doc, "Wikipedia:Miscellany for deletion/B");
    heading(&mut doc, 3, "May 21, 2021");
    transclusion(&mut doc, "Wikipedia:Miscellany for deletion/C");
    heading(&mut doc, 2, "Old business");
    heading(&mut doc, 3, "May 10, 2021");
    transclusion(&mut doc, "Wikipedia:Miscellany for deletion/D");
    heading(&mut doc, 3, "May 12, 2021");
    transclusion(&mut doc, "Wikipedia:Miscellany for deletion/E");
    doc
}

#[test]
fn section_ends_at_heading_of_same_or_higher_rank() {
    let doc = listing();
    assert_eq!(find_section_end(&doc, 0), 6);
    assert_eq!(find_section_end(&doc, 1), 4);
    assert_eq!(find_section_end(&doc, 4), 6);
    assert_eq!(find_section_end(&doc, 6), 11);
}

#[test]
fn archive_entry_goes_to_front_of_list() {
    let mut doc = body();
    heading(&mut doc, 3, "May 21, 2021");
    heading(&mut doc, 3, "May 20, 2021");
    list(&mut doc, &["Older (Keep)"]);
    heading(&mut doc, 3, "May 19, 2021");
    let r = add_to_archive(&mut doc, &"May 20, 2021".to_string(), &"Title".to_string(), &Some("Delete".to_string()));
    assert!(r.is_ok());
    assert_eq!(
        outline(&doc),
        strings(&["h3 May 21, 2021", "h3 May 20, 2021", "ul [Title (Delete) | Older (Keep)]", "h3 May 19, 2021"])
    );
}

#[test]
fn archive_entry_starts_a_list_at_section_end() {
    let mut doc = body();
    heading(&mut doc, 3, "May 21, 2021");
    heading(&mut doc, 3, "May 20, 2021");
    heading(&mut doc, 3, "May 19, 2021");
    let r = add_to_archive(&mut doc, &"May 20, 2021".to_string(), &"Title".to_string(), &None);
    assert!(r.is_ok());
    assert_eq!(
        outline(&doc),
        strings(&["h3 May 21, 2021", "h3 May 20, 2021", "ul [Title]", "h3 May 19, 2021"])
    );
    // The entry links to the page.
    let ul = doc.nodes[0].children[2];
    let li = doc.nodes[ul].children[0];
    let link = doc.nodes[li].children[0];
    match &doc.nodes[link].kind {
        NodeKind::Element { tag: Tag::Link, attrs, .. } => {
            assert_eq!(attrs, &vec![("href".to_string(), "Title".to_string())]);
        }
        _ => panic!("expected a link"),
    }
}

#[test]
fn archive_without_the_day_heading_fails() {
    let mut doc = body();
    heading(&mut doc, 3, "May 21, 2021");
    let before = outline(&doc);
    let n = doc.nodes.len();
    match add_to_archive(&mut doc, &"May 20, 2021".to_string(), &"Title".to_string(), &None) {
        Err(StructureError::MissingHeading(h)) => assert_eq!(h, "May 20, 2021"),
        Ok(_) => panic!("expected an error"),
    }
    assert_eq!(outline(&doc), before);
    assert_eq!(doc.nodes.len(), n);
}

#[test]
fn closed_discussion_lands_in_its_archive() {
    // Opened 09:00, 20 May 2021 (UTC), closed 10:00, 1 June 2021 (UTC), result "Delete".
    // Archive pages are keyed by the month of the opening: the May 2021 page
    // has the heading "May 20, 2021".
    let mut may = build_archive(2021, 5).unwrap();
    let r = add_to_archive(&mut may, &"May 20, 2021".to_string(), &"Wikipedia:Miscellany for deletion/Draft:Colors".to_string(), &Some("Delete".to_string()));
    assert!(r.is_ok());
    let lines = outline(&may);
    let at = lines.iter().position(|l| l == "h3 May 20, 2021").unwrap();
    assert_eq!(lines[at + 1], "ul [Wikipedia:Miscellany for deletion/Draft:Colors (Delete)]");
    assert_eq!(lines[at + 2], "h3 May 19, 2021");
    // The June 2021 page has no heading for a day of May.
    let mut june = build_archive(2021, 6).unwrap();
    assert!(matches!(
        add_to_archive(&mut june, &"May 20, 2021".to_string(), &"T".to_string(), &None),
        Err(StructureError::MissingHeading(_))
    ));
}

#[test]
fn new_day_heading_goes_before_the_first_one() {
    let mut doc = listing();
    // "Old business" is at position 6; its first day heading reads May 10.
    add_to_old_business(&mut doc, 6, &"May 20, 2021".to_string(), &"Wikipedia:Miscellany for deletion/A".to_string());
    assert_eq!(
        outline(&doc)[6..].to_vec(),
        strings(&[
            "h2 Old business",
            "h3 May 20, 2021",
            "T Wikipedia:Miscellany for deletion/A",
            "h3 May 10, 2021",
            "T Wikipedia:Miscellany for deletion/D",
            "h3 May 12, 2021",
            "T Wikipedia:Miscellany for deletion/E",
        ])
    );
}

#[test]
fn reference_goes_under_its_day_heading() {
    let mut doc = listing();
    add_to_old_business(&mut doc, 6, &"May 12, 2021".to_string(), &"Wikipedia:Miscellany for deletion/F".to_string());
    assert_eq!(
        outline(&doc)[6..].to_vec(),
        strings(&[
            "h2 Old business",
            "h3 May 10, 2021",
            "T Wikipedia:Miscellany for deletion/D",
            "h3 May 12, 2021",
            "T Wikipedia:Miscellany for deletion/F",
            "text \"\\n\"",
            "T Wikipedia:Miscellany for deletion/E",
        ])
    );
}

#[test]
fn reference_goes_to_section_end_without_day_headings() {
    let mut doc = body();
    heading(&mut doc, 2, "Old business");
    heading(&mut doc, 2, "Current discussions");
    add_to_old_business(&mut doc, 0, &"May 20, 2021".to_string(), &"X".to_string());
    assert_eq!(
        outline(&doc),
        strings(&["h2 Old business", "h3 May 20, 2021", "T X", "h2 Current discussions"])
    );
}

#[test]
fn adding_twice_equals_adding_once() {
    let mut once = listing();
    add_to_old_business(&mut once, 6, &"May 20, 2021".to_string(), &"Wikipedia:Miscellany for deletion/A".to_string());
    let after_one = outline(&once);
    let nodes_after_one = once.nodes.len();
    add_to_old_business(&mut once, 6, &"May 20, 2021".to_string(), &"Wikipedia:Miscellany for deletion/A".to_string());
    assert_eq!(outline(&once), after_one);
    assert_eq!(once.nodes.len(), nodes_after_one);
}

#[test]
fn reference_already_there_is_not_added() {
    let mut doc = listing();
    let before = outline(&doc);
    add_to_old_business(&mut doc, 6, &"May 20, 2021".to_string(), &"Wikipedia:Miscellany for deletion/E".to_string());
    assert_eq!(outline(&doc), before);
}

#[test]
fn removal_detaches_first_reference() {
    let mut doc = listing();
    assert!(remove_from_current(&mut doc, 0, &"Wikipedia:Miscellany for deletion/B".to_string()));
    assert_eq!(
        outline(&doc)[..5].to_vec(),
        strings(&[
            "h2 Current discussions",
            "h3 May 20, 2021",
            "T Wikipedia:Miscellany for deletion/A",
            "h3 May 21, 2021",
            "T Wikipedia:Miscellany for deletion/C",
        ])
    );
    // A second removal finds nothing and changes nothing.
    let before = outline(&doc);
    assert!(!remove_from_current(&mut doc, 0, &"Wikipedia:Miscellany for deletion/B".to_string()));
    assert_eq!(outline(&doc), before);
    // A reference in another section is out of reach.
    assert!(!remove_from_current(&mut doc, 0, &"Wikipedia:Miscellany for deletion/D".to_string()));
}

#[test]
fn removal_everywhere() {
    let mut doc = listing();
    transclusion(&mut doc, "Wikipedia:Miscellany for deletion/A");
    remove_transclusions(&mut doc, &"Wikipedia:Miscellany for deletion/A".to_string());
    assert!(!outline(&doc).contains(&"T Wikipedia:Miscellany for deletion/A".to_string()));
    assert_eq!(outline(&doc).len(), 10);
}

#[test]
fn cleanup_removes_only_empty_day_sections() {
    let mut doc = body();
    heading(&mut doc, 2, "Current discussions");
    heading(&mut doc, 3, "May 20, 2021");
    para(&mut doc, "  \n ");
    heading(&mut doc, 3, "May 21, 2021");
    para(&mut doc, "still listed");
    heading(&mut doc, 3, "June 2, 2021");
    heading(&mut doc, 3, "May 22, 2021");
    list(&mut doc, &["entry"]);
    heading(&mut doc, 3, "May 23, 2021");
    heading(&mut doc, 2, "Old business");
    heading(&mut doc, 3, "May 1, 2021");
    cleanup_empty_sections(&mut doc, 0, &"June 2, 2021".to_string());
    assert_eq!(
        outline(&doc),
        strings(&[
            "h2 Current discussions",
            "h3 May 21, 2021",
            "p still listed",
            "h3 June 2, 2021",
            "h3 May 22, 2021",
            "ul [entry]",
            "h2 Old business",
            "h3 May 1, 2021",
        ])
    );
}

#[test]
fn cleanup_keeps_section_with_nested_content() {
    let mut doc = body();
    heading(&mut doc, 2, "Old business");
    heading(&mut doc, 3, "May 20, 2021");
    heading(&mut doc, 4, "Note");
    heading(&mut doc, 3, "May 21, 2021");
    heading(&mut doc, 4, "");
    cleanup_empty_sections(&mut doc, 0, &"June 2, 2021".to_string());
    // Only day-level sub-sections go: "Note" stays, and keeps its day.
    assert_eq!(
        outline(&doc),
        strings(&["h2 Old business", "h3 May 20, 2021", "h4 Note"])
    );
}

#[test]
fn cleanup_twice_equals_cleanup_once() {
    let mut doc = body();
    heading(&mut doc, 2, "Old business");
    heading(&mut doc, 3, "May 20, 2021");
    heading(&mut doc, 4, "Note");
    heading(&mut doc, 3, "May 21, 2021");
    heading(&mut doc, 2, "Current discussions");
    let today = "June 2, 2021".to_string();
    cleanup_empty_sections(&mut doc, 0, &today);
    let once = outline(&doc);
    assert_eq!(once, strings(&["h2 Old business", "h3 May 20, 2021", "h4 Note", "h2 Current discussions"]));
    cleanup_empty_sections(&mut doc, 0, &today);
    assert_eq!(outline(&doc), once);
}

#[test]
fn archive_skeleton_for_january() {
    let doc = build_archive(2021, 1).unwrap();
    let lines = outline(&doc);
    assert_eq!(lines.len(), 32);
    assert_eq!(lines[0], "T TOCright");
    for (i, line) in lines[1..].iter().enumerate() {
        assert_eq!(line, &format!("h3 January {}, 2021", 31 - i));
    }
}

#[test]
fn archive_skeleton_for_leap_february() {
    let doc = build_archive(2020, 2).unwrap();
    let lines = outline(&doc);
    assert_eq!(lines.len(), 30);
    assert_eq!(lines[1], "h3 February 29, 2020");
    assert_eq!(lines[29], "h3 February 1, 2020");
    assert_eq!(outline(&build_archive(2021, 2).unwrap()).len(), 29);
}

#[test]
fn listed_discussions_oldest_first() {
    let mut doc = listing();
    transclusion(&mut doc, "Wikipedia:Miscellany for deletion/Front matter");
    transclusion(&mut doc, "Template:Other");
    assert_eq!(
        get_listed_mfds(&doc),
        strings(&[
            "Wikipedia:Miscellany for deletion/E",
            "Wikipedia:Miscellany for deletion/D",
            "Wikipedia:Miscellany for deletion/C",
            "Wikipedia:Miscellany for deletion/B",
            "Wikipedia:Miscellany for deletion/A",
        ])
    );
}

#[test]
fn old_business_membership() {
    let doc = listing();
    assert!(is_in_old_business(&doc, &"Wikipedia:Miscellany for deletion/D".to_string()));
    assert!(!is_in_old_business(&doc, &"Wikipedia:Miscellany for deletion/A".to_string()));
}

#[test]
fn aging_discussion_moves_to_old_business() {
    let mut doc = listing();
    let title = "Wikipedia:Miscellany for deletion/C".to_string();
    let today = "June 2, 2021".to_string();
    assert!(move_into_old_business(&mut doc, &"May 21, 2021".to_string(), &title, &today).is_ok());
    assert!(matches!(move_out_of_current(&mut doc, &title, &today), Ok(true)));
    assert_eq!(
        outline(&doc),
        strings(&[
            "h2 Current discussions",
            "h3 May 20, 2021",
            "T Wikipedia:Miscellany for deletion/A",
            "T Wikipedia:Miscellany for deletion/B",
            "h2 Old business",
            "h3 May 21, 2021",
            "T Wikipedia:Miscellany for deletion/C",
            "h3 May 10, 2021",
            "T Wikipedia:Miscellany for deletion/D",
            "h3 May 12, 2021",
            "T Wikipedia:Miscellany for deletion/E",
        ])
    );
    assert!(is_in_old_business(&doc, &title));
}

#[test]
fn moves_need_their_regions() {
    let mut doc = body();
    heading(&mut doc, 2, "Elsewhere");
    match move_into_old_business(&mut doc, &"May 21, 2021".to_string(), &"X".to_string(), &"June 2, 2021".to_string()) {
        Err(StructureError::MissingHeading(h)) => assert_eq!(h, "Old business"),
        Ok(_) => panic!("expected an error"),
    }
    match move_out_of_current(&mut doc, &"X".to_string(), &"June 2, 2021".to_string()) {
        Err(StructureError::MissingHeading(h)) => assert_eq!(h, "Current discussions"),
        Ok(_) => panic!("expected an error"),
    }
}

#[test]
fn regions_are_cleaned_by_heading() {
    let mut doc = listing();
    heading(&mut doc, 3, "May 30, 2021");
    assert!(cleanup_region(&mut doc, &"Old business".to_string(), &"June 2, 2021".to_string()));
    assert_eq!(outline(&doc).len(), 11);
    let before = outline(&doc);
    assert!(!cleanup_region(&mut doc, &"Nowhere".to_string(), &"June 2, 2021".to_string()));
    assert_eq!(outline(&doc), before);
}

#[test]
fn archive_groups_by_title() {
    let titles = strings(&["May 2021", "June 2021", "May 2021", "April 2021", "June 2021"]);
    assert_eq!(group_by_title(&titles), vec![vec![0, 2], vec![1, 4], vec![3]]);
    assert!(group_by_title(&vec![]).is_empty());
}

/// A paragraph at the top level that holds a reference to `title`.
fn wrapped_transclusion(doc: &mut Document, title: &str) {
    let p = element(doc, Tag::Other("p".to_string()));
    doc.append_child(0, p);
    let n = doc.add_node(NodeKind::Element {
        tag: Tag::Other("span".to_string()),
        attrs: vec![],
        transclusion: Some(title.to_string()),
    });
    doc.append_child(p, n);
}

fn nested_listing() -> Document {
    let mut doc = body();
    heading(&mut doc, 2, "Current discussions");
    heading(&mut doc, 3, "May 20, 2021");
    wrapped_transclusion(&mut doc, "Wikipedia:Miscellany for deletion/A");
    transclusion(&mut doc, "Wikipedia:Miscellany for deletion/B");
    heading(&mut doc, 2, "Old business");
    heading(&mut doc, 3, "May 10, 2021");
    wrapped_transclusion(&mut doc, "Wikipedia:Miscellany for deletion/D");
    doc
}

fn paragraph_children(doc: &Document, position: usize) -> usize {
    let p = doc.nodes[doc.root].children[position];
    doc.nodes[p].children.len()
}

#[test]
fn nested_reference_counts_as_old_business() {
    let doc = nested_listing();
    assert!(is_in_old_business(&doc, &"Wikipedia:Miscellany for deletion/D".to_string()));
    assert!(!is_in_old_business(&doc, &"Wikipedia:Miscellany for deletion/A".to_string()));
}

#[test]
fn nested_reference_is_not_added_again() {
    let mut doc = nested_listing();
    let before = outline(&doc);
    let nodes = doc.nodes.len();
    add_to_old_business(&mut doc, 4, &"May 10, 2021".to_string(), &"Wikipedia:Miscellany for deletion/D".to_string());
    assert_eq!(outline(&doc), before);
    assert_eq!(doc.nodes.len(), nodes);
}

#[test]
fn nested_reference_is_detached_first() {
    let mut doc = nested_listing();
    assert_eq!(paragraph_children(&doc, 2), 1);
    assert!(remove_from_current(&mut doc, 0, &"Wikipedia:Miscellany for deletion/A".to_string()));
    assert_eq!(paragraph_children(&doc, 2), 0);
    assert_eq!(outline(&doc).len(), 7);
    assert!(!remove_from_current(&mut doc, 0, &"Wikipedia:Miscellany for deletion/A".to_string()));
}

#[test]
fn nested_references_are_removed_everywhere() {
    let mut doc = nested_listing();
    wrapped_transclusion(&mut doc, "Wikipedia:Miscellany for deletion/B");
    remove_transclusions(&mut doc, &"Wikipedia:Miscellany for deletion/B".to_string());
    assert!(!outline(&doc).contains(&"T Wikipedia:Miscellany for deletion/B".to_string()));
    assert_eq!(paragraph_children(&doc, 6), 0);
    // The other references stay.
    assert_eq!(paragraph_children(&doc, 2), 1);
    assert!(get_listed_mfds(&doc).len() == 2);
}

#[test]
fn archive_entry_without_result_is_a_bare_link() {
    let mut doc = body();
    heading(&mut doc, 3, "May 20, 2021");
    assert!(add_to_archive(&mut doc, &"May 20, 2021".to_string(), &"T".to_string(), &None).is_ok());
    let ul = doc.nodes[0].children[1];
    let li = doc.nodes[ul].children[0];
    assert_eq!(doc.nodes[li].children.len(), 1);
    let link = doc.nodes[li].children[0];
    assert!(matches!(&doc.nodes[link].kind, NodeKind::Element { tag: Tag::Link, .. }));
    assert_eq!(doc.text_contents(link), "T");
}

#[test]
fn archive_entry_with_result_is_link_then_text() {
    let mut doc = body();
    heading(&mut doc, 3, "May 20, 2021");
    let r = add_to_archive(&mut doc, &"May 20, 2021".to_string(), &"Title".to_string(), &Some("Delete".to_string()));
    assert!(r.is_ok());
    let ul = doc.nodes[0].children[1];
    let li = doc.nodes[ul].children[0];
    let kids = doc.nodes[li].children.clone();
    assert_eq!(kids.len(), 2);
    match &doc.nodes[kids[0]].kind {
        NodeKind::Element { tag: Tag::Link, attrs, .. } => {
            assert_eq!(attrs, &vec![("href".to_string(), "Title".to_string())]);
        }
        _ => panic!("expected a link"),
    }
    match &doc.nodes[kids[1]].kind {
        NodeKind::Text(t) => assert_eq!(t, " (Delete)"),
        _ => panic!("expected text"),
    }
}

#[test]
fn aging_state_moves_the_discussion() {
    let mut doc = listing();
    let title = "Wikipedia:Miscellany for deletion/C".to_string();
    let today = "June 2, 2021".to_string();
    let header = "May 21, 2021".to_string();
    assert!(matches!(apply_lifecycle(&mut doc, Lifecycle::Aging, &header, &title, &today), Ok(true)));
    assert!(is_in_old_business(&doc, &title));
    assert!(!outline(&doc)[..4].contains(&"T Wikipedia:Miscellany for deletion/C".to_string()));
    // A second application finds it in "Old business" already.
    let after = outline(&doc);
    assert!(matches!(apply_lifecycle(&mut doc, Lifecycle::Aging, &header, &title, &today), Ok(false)));
    assert_eq!(outline(&doc), after);
}

#[test]
fn other_states_leave_the_listing() {
    let mut doc = listing();
    let before = outline(&doc);
    let title = "Wikipedia:Miscellany for deletion/C".to_string();
    for state in [Lifecycle::Open, Lifecycle::ClosedPendingArchive, Lifecycle::ToArchive] {
        let r = apply_lifecycle(&mut doc, state, &"May 21, 2021".to_string(), &title, &"June 2, 2021".to_string());
        assert!(matches!(r, Ok(false)));
    }
    assert_eq!(outline(&doc), before);
}

#[test]
fn missing_old_business_is_reported() {
    let mut doc = body();
    heading(&mut doc, 2, "Current discussions");
    transclusion(&mut doc, "X");
    let before = outline(&doc);
    match apply_lifecycle(&mut doc, Lifecycle::Aging, &"May 21, 2021".to_string(), &"X".to_string(), &"June 2, 2021".to_string()) {
        Err(StructureError::MissingHeading(h)) => assert_eq!(h, "Old business"),
        _ => panic!("expected an error"),
    }
    assert_eq!(outline(&doc), before);
}

#[test]
fn archiving_moves_the_entry_off_the_listing() {
    let mut listing = nested_listing();
    let mut may = build_archive(2021, 5).unwrap();
    let title = "Wikipedia:Miscellany for deletion/A".to_string();
    let r = archive_discussion(&mut may, &mut listing, &"May 20, 2021".to_string(), &title, &Some("Delete".to_string()));
    assert!(r.is_ok());
    assert_eq!(paragraph_children(&listing, 2), 0);
    assert!(!get_listed_mfds(&listing).contains(&title));
    let lines = outline(&may);
    let at = lines.iter().position(|l| l == "h3 May 20, 2021").unwrap();
    assert_eq!(lines[at + 1], format!("ul [{} (Delete)]", title));
}

#[test]
fn archiving_without_the_day_changes_nothing() {
    let mut listing = nested_listing();
    let mut june = build_archive(2021, 6).unwrap();
    let before = outline(&listing);
    let r = archive_discussion(&mut june, &mut listing, &"May 20, 2021".to_string(), &"Wikipedia:Miscellany for deletion/A".to_string(), &None);
    assert!(matches!(r, Err(StructureError::MissingHeading(_))));
    assert_eq!(outline(&listing), before);
    assert_eq!(paragraph_children(&listing, 2), 1);
}
