use mfdarchiver::archive::archive_title;
use mfdarchiver::document::{Document, NodeKind, Tag};
use mfdarchiver::lifecycle::{
    assign_times, classify, is_old, should_archive, ExtractError, Lifecycle, MfD,
    AGING_SECONDS, ARCHIVE_DELAY_SECONDS,
};
use mfdarchiver::signatures::{find_signatures, parse_timestamp};

const CLOSE: i64 = 1622541600; // 10:00, 1 June 2021 (UTC)
const OPEN: i64 = 1621501200; // 09:00, 20 May 2021 (UTC)
const NOW: i64 = 1622610000; // 2021-06-02T05:00:00Z

fn element(doc: &mut Document, tag: Tag) -> usize {
    doc.add_node(NodeKind::Element { tag, attrs: vec![], transclusion: None })
}

fn add_text(doc: &mut Document, parent: usize, text: &str) {
    let t = doc.add_node(NodeKind::Text(text.to_string()));
    doc.append_child(parent, t);
}

fn add_bold(doc: &mut Document, parent: usize, text: &str) {
    let b = element(doc, Tag::Bold);
    add_text(doc, b, text);
    doc.append_child(parent, b);
}

fn body() -> Document {
    Document::new(NodeKind::Element {
        tag: Tag::Other("body".to_string()),
        attrs: vec![],
        transclusion: None,
    })
}

/// A closed discussion: banner, result, closing signature, nomination and
/// its signature.
fn closed_discussion() -> Document {
    let mut doc = body();
    let p = element(&mut doc, Tag::Other("div".to_string()));
    doc.append_child(0, p);
    add_text(&mut doc, p, "The following discussion is an archived debate of the ");
    add_bold(&mut doc, p, "miscellany for deletion");
    add_text(&mut doc, p, ". The result of the discussion was ");
    add_bold(&mut doc, p, "Delete");
    add_text(&mut doc, p, ". Closer 10:00, 1 June 2021 (UTC)\n");
    add_text(&mut doc, p, "Unused draft. Nominator 09:00, 20 May 2021 (UTC)\n");
    add_text(&mut doc, p, "Reply 11:30, 21 May 2021 (UTC)\n");
    doc
}

fn open_discussion(text: &str) -> Document {
    let mut doc = body();
    add_text(&mut doc, 0, text);
    doc
}

#[test]
fn archive_delay_boundary() {
    assert_eq!(ARCHIVE_DELAY_SECONDS, 18 * 3600);
    assert!(should_archive(Some(CLOSE), CLOSE + 18 * 3600));
    assert!(!should_archive(Some(CLOSE), CLOSE + 18 * 3600 - 1));
    assert!(!should_archive(Some(CLOSE), CLOSE));
    assert!(should_archive(Some(CLOSE), CLOSE + 19 * 3600));
    assert!(!should_archive(None, NOW));
}

#[test]
fn aging_boundary() {
    assert_eq!(AGING_SECONDS, 8 * 86400);
    assert!(is_old(OPEN, OPEN + 8 * 86400));
    assert!(!is_old(OPEN, OPEN + 8 * 86400 - 1));
    assert!(!is_old(OPEN, OPEN + 7 * 86400));
    assert!(is_old(OPEN, OPEN + 9 * 86400));
}

#[test]
fn time_arithmetic_does_not_overflow() {
    assert!(is_old(i64::MIN, i64::MAX));
    assert!(!is_old(i64::MAX, i64::MIN));
    assert!(!should_archive(Some(i64::MAX), i64::MIN));
}

#[test]
fn classify_states() {
    assert_eq!(classify(OPEN, None, OPEN + 86400), Lifecycle::Open);
    assert_eq!(classify(OPEN, None, OPEN + 8 * 86400), Lifecycle::Aging);
    assert_eq!(classify(OPEN, Some(CLOSE), CLOSE + 3600), Lifecycle::ClosedPendingArchive);
    assert_eq!(classify(OPEN, Some(CLOSE), NOW), Lifecycle::ToArchive);
}

#[test]
fn times_by_closure_state() {
    assert_eq!(assign_times(CLOSE, OPEN, true), (OPEN, Some(CLOSE)));
    assert_eq!(assign_times(OPEN, CLOSE, false), (OPEN, None));
}

#[test]
fn signatures_in_order() {
    let found = find_signatures("a 10:00, 1 June 2021 (UTC) b 09:00, 20 May 2021 (UTC) c");
    assert_eq!(found, vec!["10:00, 1 June 2021 (UTC)".to_string(), "09:00, 20 May 2021 (UTC)".to_string()]);
    assert!(find_signatures("no signature here").is_empty());
}

#[test]
fn timestamp_parsing() {
    assert_eq!(parse_timestamp("10:00, 1 June 2021 (UTC)"), Some(CLOSE));
    assert_eq!(parse_timestamp("09:00, 20 May 2021 (UTC)"), Some(OPEN));
    assert_eq!(parse_timestamp("10:00, 1 Juni 2021 (UTC)"), None);
}

#[test]
fn closed_discussion_end_to_end() {
    let mfd = match MfD::new("Wikipedia:Miscellany for deletion/Draft:Colors".to_string(), closed_discussion()) {
        Ok(m) => m,
        Err(e) => panic!("{:?}", e),
    };
    assert!(mfd.is_closed());
    assert_eq!(mfd.close, Some(CLOSE));
    assert_eq!(mfd.start, OPEN);
    assert!(mfd.should_archive(NOW));
    assert_eq!(mfd.lifecycle(NOW), Lifecycle::ToArchive);
    assert_eq!(mfd.extract_result(), Some("Delete".to_string()));
    assert_eq!(mfd.date_header(), Some("May 20, 2021".to_string()));
    assert_eq!(
        archive_title(mfd.start),
        Some("Wikipedia:Miscellany for deletion/Archived debates/May 2021".to_string())
    );
}

#[test]
fn open_discussion_times() {
    let doc = open_discussion("Nominated 09:00, 20 May 2021 (UTC). Keep 10:00, 21 May 2021 (UTC)");
    let mfd = match MfD::new("T".to_string(), doc) {
        Ok(m) => m,
        Err(e) => panic!("{:?}", e),
    };
    assert!(!mfd.is_closed());
    assert_eq!(mfd.start, OPEN);
    assert_eq!(mfd.close, None);
    assert_eq!(mfd.extract_result(), None);
    assert!(!mfd.should_archive(NOW));
    assert_eq!(mfd.lifecycle(OPEN + 7 * 86400), Lifecycle::Open);
    assert_eq!(mfd.lifecycle(OPEN + 9 * 86400), Lifecycle::Aging);
}

#[test]
fn one_signature_is_malformed() {
    let doc = open_discussion("Nominated 09:00, 20 May 2021 (UTC).");
    assert!(matches!(MfD::new("T".to_string(), doc), Err(ExtractError::Malformed)));
}

#[test]
fn unreadable_signature_is_reported() {
    let doc = open_discussion("Nominated 09:00, 20 Mai 2021 (UTC). Keep 10:00, 21 May 2021 (UTC)");
    match MfD::new("T".to_string(), doc) {
        Err(ExtractError::BadTimestamp(ts)) => assert_eq!(ts, "09:00, 20 Mai 2021 (UTC)"),
        _ => panic!("expected a bad timestamp"),
    }
}
