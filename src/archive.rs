//! Month archive pages: building the skeleton of a new one, and the title
//! of the page that a discussion goes to.
use vstd::prelude::*;
use crate::calendar::{
    day_header, day_header_of, days_in_month, is_valid_date, month_length, month_name, month_name_of, utc_date,
    utc_date_of,
};
use crate::document::{transcludes, Document, NodeKind, Tag};
use crate::sections::{add_text_element, level_at, lemma_text_frame, text_at, transclusion_kind};

verus! {

/// `doc` is the skeleton of the archive page of `month` of `year`: a
/// table-of-contents template, then one day heading per day of the month,
/// from the last day down to the first.
pub open spec fn archive_skeleton(doc: &Document, year: int, month: int) -> bool {
    let n = month_length(year, month);
    &&& doc.wf()
    &&& doc.top().len() == n + 1
    &&& transcludes(doc.kind(doc.top()[0] as int), "TOCright"@)
    &&& forall|i: int|
        #![trigger level_at(doc, i)]
        #![trigger text_at(doc, i)]
        1 <= i <= n ==> level_at(doc, i) == 3 && day_header_of(year, month, n + 1 - i) == Some(
            text_at(doc, i),
        )
}

/// Every day of `month` of `year` has a heading text.
pub open spec fn all_days_named(year: int, month: int) -> bool {
    forall|d: int| 1 <= d <= month_length(year, month) ==> #[trigger] day_header_of(year, month, d) is Some
}

/// Builds the skeleton of the archive page of `month` of `year` (see
/// `archive_skeleton`). Fails where some day of the month has no heading text.
pub fn build_archive(year: i32, month: u32) -> (r: Option<Document>)
    requires
        1 <= month <= 12,
    ensures
        r is Some <==> all_days_named(year as int, month as int),
        1 <= year <= 9999 ==> r is Some,
        r matches Some(doc) ==> archive_skeleton(&doc, year as int, month as int)
            && doc.nodes@.len() == 2 + 2 * month_length(year as int, month as int),
{
    let days = days_in_month(year, month);
    let ghost n = days as int;
    let mut doc = Document::new(
        NodeKind::Element {
            tag: Tag::Other(String::from_str("body")),
            attrs: Vec::new(),
            transclusion: None,
        },
    );
    let toc = doc.add_node(transclusion_kind(&String::from_str("TOCright")));
    doc.insert_child(0, 0, toc);
    let mut day: i64 = days;
    while day >= 1
        invariant
            doc.wf(),
            doc.root == 0,
            1 <= month <= 12,
            days == month_length(year as int, month as int),
            28 <= days <= 31,
            0 <= day <= days,
            doc.nodes@.len() == 2 + 2 * (days - day),
            doc.top().len() == 1 + (days - day),
            transcludes(doc.kind(doc.top()[0] as int), "TOCright"@),
            forall|i: int|
                #![trigger level_at(&doc, i)]
                #![trigger text_at(&doc, i)]
                1 <= i <= days - day ==> level_at(&doc, i) == 3 && day_header_of(
                    year as int,
                    month as int,
                    days + 1 - i,
                ) == Some(text_at(&doc, i)),
            forall|d: int| day < d <= days ==> #[trigger] day_header_of(year as int, month as int, d) is Some,
            forall|k: int| 0 <= k < doc.top().len() ==> #[trigger] doc.top()[k] < doc.nodes@.len(),
        decreases day,
    {
        let header = match day_header(year, month, day as u32) {
            Some(h) => h,
            None => {
                assert((day as u32) as int == day);
                assert(is_valid_date(year as int, month as int, day as int));
                return None;
            },
        };
        let ghost d0 = doc;
        let h = add_text_element(&mut doc, Tag::Heading(3), header);
        let ghost d1 = doc;
        let end = doc.nodes[0].children.len();
        doc.insert_child(0, end, h);
        proof {
            assert(d1.top() == d0.top());
            assert(doc.top() == d0.top().push(h));
            lemma_text_frame(&d1, &doc, h as int);
            assert forall|i: int|
                #![trigger level_at(&doc, i)]
                #![trigger text_at(&doc, i)]
                1 <= i <= days - day + 1 implies level_at(&doc, i) == 3 && day_header_of(
                year as int,
                month as int,
                days + 1 - i,
            ) == Some(text_at(&doc, i)) by {
                if i <= days - day {
                    assert(day_header_of(year as int, month as int, days + 1 - i) == Some(
                        text_at(&d0, i),
                    ));
                    assert(level_at(&d0, i) == 3);
                    let c = d0.top()[i] as int;
                    assert(doc.top()[i] == d0.top()[i]);
                    assert(0 < c);
                    lemma_text_frame(&d0, &d1, c);
                    lemma_text_frame(&d1, &doc, c);
                    assert(d1.kind(c) == d0.kind(c));
                } else {
                    assert(doc.top()[i] == h);
                    assert(doc.kind(h as int) == d1.kind(h as int));
                    assert(days + 1 - i == day);
                }
            }
            assert(doc.kind(doc.top()[0] as int) == d0.kind(d0.top()[0] as int));
        }
        day -= 1;
    }
    Some(doc)
}

/// The month and year whose archive page takes a discussion opened at
/// `start`: those of its UTC day.
pub fn archive_month(start: i64) -> (r: Option<(i32, u32)>)
    ensures
        match r {
            Some((y, m)) => 1 <= m <= 12 && (utc_date_of(start as int) matches Some((y2, m2, _))
                && y2 == y && m2 == m),
            None => utc_date_of(start as int) is None,
        },
{
    match utc_date(start) {
        Some((y, m, _)) => Some((y, m)),
        None => None,
    }
}

/// The title of the archive page for discussions opened at `secs`: the
/// month of that day, as chrono names it.
pub open spec fn archive_title_of(secs: int) -> Option<Seq<char>> {
    match utc_date_of(secs) {
        Some((y, m, _)) => match month_name_of(y, m) {
            Some(t) => Some("Wikipedia:Miscellany for deletion/Archived debates/"@ + t),
            None => None,
        },
        None => None,
    }
}

/// The title of the archive page for a discussion opened at `start`.
pub fn archive_title(start: i64) -> (r: Option<String>)
    ensures
        match r {
            Some(t) => archive_title_of(start as int) == Some(t@),
            None => archive_title_of(start as int) is None,
        },
{
    match utc_date(start) {
        Some((y, m, _)) => match month_name(y, m) {
            Some(t) => {
                let mut title = String::from_str("Wikipedia:Miscellany for deletion/Archived debates/");
                title.append(t.as_str());
                Some(title)
            },
            None => None,
        },
        None => None,
    }
}

/// `groups` sorts the indices of `titles` by title: each index is in
/// exactly one group, the indices of a group share their title and rise,
/// no two groups share a title, and groups come in the order in which their
/// titles first appear.
pub open spec fn grouped(titles: Seq<Seq<char>>, groups: Seq<Seq<usize>>) -> bool {
    &&& forall|g: int| 0 <= g < groups.len() ==> #[trigger] groups[g].len() > 0
    &&& forall|g: int, k: int|
        0 <= g < groups.len() && 0 <= k < groups[g].len() ==> #[trigger] groups[g][k]
            < titles.len() && titles[groups[g][k] as int] == titles[groups[g][0] as int]
    &&& forall|g: int, k1: int, k2: int|
        0 <= g < groups.len() && 0 <= k1 < k2 < groups[g].len() ==> #[trigger] groups[g][k1]
            < #[trigger] groups[g][k2]
    &&& forall|g1: int, g2: int|
        0 <= g1 < g2 < groups.len() ==> titles[#[trigger] groups[g1][0] as int]
            != titles[#[trigger] groups[g2][0] as int] && groups[g1][0] < groups[g2][0]
    &&& forall|i: int| 0 <= i < titles.len() ==> #[trigger] in_some_group(groups, i)
}

/// Index `i` is in one of `groups`.
pub open spec fn in_some_group(groups: Seq<Seq<usize>>, i: int) -> bool {
    exists|g: int, k: int|
        0 <= g < groups.len() && 0 <= k < groups[g].len() && #[trigger] groups[g][k] == i
}

/// The views of a sequence of vectors.
pub open spec fn views_of(v: Seq<Vec<usize>>) -> Seq<Seq<usize>> {
    Seq::new(v.len(), |g: int| v[g]@)
}

/// The views of a sequence of strings.
pub open spec fn strings_of(v: Seq<String>) -> Seq<Seq<char>> {
    Seq::new(v.len(), |i: int| v[i]@)
}

/// Sorts the indices of `titles` into groups by title (see `grouped`).
pub fn group_by_title(titles: &Vec<String>) -> (r: Vec<Vec<usize>>)
    ensures
        grouped(strings_of(titles@), views_of(r@)),
{
    let ghost ts = strings_of(titles@);
    let mut groups: Vec<Vec<usize>> = Vec::new();
    let mut i: usize = 0;
    while i < titles.len()
        invariant
            ts == strings_of(titles@),
            i <= titles.len(),
            grouped(ts.take(i as int), views_of(groups@)),
            forall|g: int, k: int|
                0 <= g < groups@.len() && 0 <= k < groups@[g]@.len() ==> #[trigger] groups@[g]@[k]
                    < i,
        decreases titles.len() - i,
    {
        let ghost old_groups = views_of(groups@);
        let mut g: usize = 0;
        let mut found = false;
        while g < groups.len()
            invariant_except_break
                !found,
            invariant
                ts == strings_of(titles@),
                i < titles.len(),
                g <= groups.len(),
                groups@.len() == old_groups.len(),
                views_of(groups@) == old_groups,
                grouped(ts.take(i as int), old_groups),
                forall|h: int| 0 <= h < g ==> ts[old_groups[h][0] as int] != ts[i as int],
            ensures
                found ==> g < groups@.len() && ts[old_groups[g as int][0] as int] == ts[i as int],
                !found ==> g == groups@.len(),
            decreases groups.len() - g,
        {
            assert(old_groups[g as int] == groups@[g as int]@);
            assert(old_groups[g as int].len() > 0);
            let first = groups[g][0];
            assert(old_groups[g as int][0] < ts.take(i as int).len());
            if titles[first] == titles[i] {
                found = true;
                break;
            }
            g += 1;
        }
        proof {
            assert(ts.take(i as int + 1).take(i as int) =~= ts.take(i as int));
        }
        if found {
            assert(g < groups@.len() && ts[old_groups[g as int][0] as int] == ts[i as int]);
            groups[g].push(i);
            proof {
                let ng = views_of(groups@);
                assert forall|h: int| 0 <= h < ng.len() && h != g implies ng[h] == old_groups[h] by {}
                assert(ng[g as int] == old_groups[g as int].push(i));
                let t1 = ts.take(i as int + 1);
                assert forall|j: int| 0 <= j < t1.len() implies #[trigger] in_some_group(ng, j) by {
                    if j < i {
                        assert(in_some_group(old_groups, j));
                        let (h, k) = choose|h: int, k: int|
                            0 <= h < old_groups.len() && 0 <= k < old_groups[h].len()
                                && #[trigger] old_groups[h][k] == j;
                        assert(ng[h][k] == j);
                    } else {
                        assert(ng[g as int][old_groups[g as int].len() as int] == j);
                    }
                }
            }
        } else {
            let mut fresh: Vec<usize> = Vec::new();
            fresh.push(i);
            groups.push(fresh);
            proof {
                let ng = views_of(groups@);
                assert forall|h: int| 0 <= h < old_groups.len() implies ng[h] == old_groups[h] by {}
                assert(ng[old_groups.len() as int] =~= seq![i]);
                let t1 = ts.take(i as int + 1);
                assert forall|j: int| 0 <= j < t1.len() implies #[trigger] in_some_group(ng, j) by {
                    if j < i {
                        assert(in_some_group(old_groups, j));
                        let (h, k) = choose|h: int, k: int|
                            0 <= h < old_groups.len() && 0 <= k < old_groups[h].len()
                                && #[trigger] old_groups[h][k] == j;
                        assert(ng[h][k] == j);
                    } else {
                        assert(ng[old_groups.len() as int][0] == j);
                    }
                }
            }
        }
        i += 1;
    }
    proof {
        assert(ts.take(titles@.len() as int) =~= ts);
    }
    groups
}

} // verus!
