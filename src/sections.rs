//! Sections of a document and the edits that move discussion entries
//! between them.
//!
//! A section is read off the top level of the document: it starts at a
//! heading of level `L` and runs up to the next heading of level `L` or less,
//! or to the end. Positions below are positions in the root's children. The
//! entries of a section (references to discussion pages, lists, text) are
//! the top-level nodes that follow its heading; day headings are of level 3.
use vstd::prelude::*;
use crate::lifecycle::Lifecycle;
use crate::document::{is_list, is_transclusion, level_of, transcludes, Document, NodeKind, Tag};
use crate::references::{
    first_ref, first_ref_in, has_ref, lemma_first_ref_unique, lemma_top_ref, no_ref, refers_to,
    top_edges,
};
use crate::text::{blank, has_prefix, is_blank, starts_with};

verus! {

/// The heading level of the node at position `p`, or 0.
pub open spec fn level_at(doc: &Document, p: int) -> int {
    level_of(doc.kind(doc.top()[p] as int))
}

/// The text of the node at position `p`.
pub open spec fn text_at(doc: &Document, p: int) -> Seq<char> {
    doc.text_of(doc.top()[p] as int)
}

/// The node at position `j` ends the section that starts at position `s`.
pub open spec fn closes(doc: &Document, s: int, j: int) -> bool {
    0 < level_at(doc, j) <= level_at(doc, s)
}

/// The end of the section starting at `s`, looking from position `j` on.
pub open spec fn end_from(doc: &Document, s: int, j: int) -> int
    decreases doc.top().len() - j,
{
    if j >= doc.top().len() {
        doc.top().len() as int
    } else if closes(doc, s, j) {
        j
    } else {
        end_from(doc, s, j + 1)
    }
}

/// The end (exclusive) of the section whose heading is at position `s`.
pub open spec fn section_end(doc: &Document, s: int) -> int {
    end_from(doc, s, s + 1)
}

/// Position `p` holds a heading whose text is `text`.
pub open spec fn heading_named(doc: &Document, p: int, text: Seq<char>) -> bool {
    level_at(doc, p) > 0 && text_at(doc, p) == text
}

/// `p` is the first position among `[from, to)` that satisfies `heading_named`.
pub open spec fn first_heading_named(
    doc: &Document,
    from: int,
    to: int,
    p: int,
    text: Seq<char>,
) -> bool {
    &&& from <= p < to
    &&& heading_named(doc, p, text)
    &&& forall|q: int| from <= q < p ==> !heading_named(doc, q, text)
}

/// No position among `[from, to)` holds a heading whose text is `text`.
pub open spec fn no_heading_named(doc: &Document, from: int, to: int, text: Seq<char>) -> bool {
    forall|q: int| from <= q < to ==> !heading_named(doc, q, text)
}

/// Position `p` holds a bullet list.
pub open spec fn list_at(doc: &Document, p: int) -> bool {
    is_list(doc.kind(doc.top()[p] as int))
}

/// Position `p` holds a transclusion of `title`.
pub open spec fn transclusion_at(doc: &Document, p: int, title: Seq<char>) -> bool {
    transcludes(doc.kind(doc.top()[p] as int), title)
}


/// The text of an archive entry: the title, then the result in parentheses
/// where there is one.
pub open spec fn entry_text(title: Seq<char>, result: Option<Seq<char>>) -> Seq<char> {
    match result {
        Some(r) => title + " ("@ + r + ")"@,
        None => title,
    }
}

/// The view of an optional string.
pub open spec fn opt_view(o: Option<String>) -> Option<Seq<char>> {
    match o {
        Some(s) => Some(s@),
        None => None,
    }
}

/// Node `li` of `doc` is a list item whose text is `entry_text(title, result)`.
pub open spec fn is_entry(
    doc: &Document,
    li: int,
    title: Seq<char>,
    result: Option<Seq<char>>,
) -> bool {
    &&& doc.kind(li) matches NodeKind::Element { tag: Tag::Item, transclusion: None, .. }
    &&& doc.kids(li).len() == if result is Some {
        2int
    } else {
        1int
    }
    &&& li < doc.kids(li)[0] < doc.nodes@.len()
    &&& link_target(doc.kind(doc.kids(li)[0] as int)) == Some(title)
    &&& doc.text_of(doc.kids(li)[0] as int) == title
    &&& result is Some ==> li < doc.kids(li)[1] < doc.nodes@.len() && text_node(
        doc.kind(doc.kids(li)[1] as int),
    ) == Some(" ("@ + result.unwrap() + ")"@)
    &&& doc.text_of(li) == entry_text(title, result)
}

/// The page that a link element points to: its one attribute, `href`.
pub open spec fn link_target(kind: NodeKind) -> Option<Seq<char>> {
    match kind {
        NodeKind::Element { tag: Tag::Link, attrs, transclusion: None } => if attrs@.len() == 1
            && attrs@[0].0@ == "href"@ {
            Some(attrs@[0].1@)
        } else {
            None
        },
        _ => None,
    }
}

/// The text of a text node.
pub open spec fn text_node(kind: NodeKind) -> Option<Seq<char>> {
    match kind {
        NodeKind::Text(t) => Some(t@),
        _ => None,
    }
}

/// An entry stays one while the nodes from its own index on are unchanged.
pub proof fn lemma_entry_frame(
    old: &Document,
    new: &Document,
    li: int,
    title: Seq<char>,
    result: Option<Seq<char>>,
)
    requires
        old.wf(),
        0 <= li < old.nodes@.len(),
        keeps_from(old, new, li),
        is_entry(old, li, title, result),
    ensures
        is_entry(new, li, title, result),
{
    assert(new.kids(li) == old.kids(li));
    assert(new.kind(li) == old.kind(li));
    let a = old.kids(li)[0] as int;
    assert(new.kind(a) == old.kind(a));
    lemma_text_frame(old, new, a);
    lemma_text_frame(old, new, li);
    if result is Some {
        let t = old.kids(li)[1] as int;
        assert(new.kind(t) == old.kind(t));
    }
}

/// `new` holds every node of `old`, unchanged from position `from` on, and
/// maybe more after them.
pub open spec fn keeps_from(old: &Document, new: &Document, from: int) -> bool {
    &&& old.nodes@.len() <= new.nodes@.len()
    &&& forall|j: int|
        #![trigger new.kind(j)]
        #![trigger new.kids(j)]
        from <= j < old.nodes@.len() ==> new.kind(j) == old.kind(j) && new.kids(j) == old.kids(j)
}

/// The text of a node depends only on the nodes from its own index on.
pub proof fn lemma_text_frame(old: &Document, new: &Document, i: int)
    requires
        old.wf(),
        0 <= i < old.nodes@.len(),
        keeps_from(old, new, i),
    ensures
        new.text_of(i) == old.text_of(i),
    decreases old.nodes@.len() - i, old.kids(i).len() + 1,
{
    assert(new.kind(i) == old.kind(i));
    lemma_text_upto_frame(old, new, i, old.kids(i).len() as int);
}

proof fn lemma_text_upto_frame(old: &Document, new: &Document, i: int, k: int)
    requires
        old.wf(),
        0 <= i < old.nodes@.len(),
        0 <= k <= old.kids(i).len(),
        keeps_from(old, new, i),
    ensures
        new.text_upto(i, k) == old.text_upto(i, k),
    decreases old.nodes@.len() - i, k,
{
    assert(new.kids(i) == old.kids(i));
    if k > 0 {
        lemma_text_upto_frame(old, new, i, k - 1);
        let c = old.kids(i)[k - 1] as int;
        assert(i < c < old.nodes@.len());
        lemma_text_frame(old, new, c);
    }
}

/// The heading level of node `i`, or 0.
pub fn node_level(doc: &Document, i: usize) -> (r: u8)
    requires
        i < doc.nodes@.len(),
    ensures
        r as int == level_of(doc.kind(i as int)),
{
    match &doc.nodes[i].kind {
        NodeKind::Element { tag: Tag::Heading(l), .. } => *l,
        _ => 0,
    }
}

/// The end (exclusive) of the section whose heading is at position `s`.
pub fn find_section_end(doc: &Document, s: usize) -> (r: usize)
    requires
        doc.wf(),
        s < doc.top().len(),
    ensures
        r == section_end(doc, s as int),
        s < r <= doc.top().len(),
        forall|j: int| s < j < r ==> !closes(doc, s as int, j),
{
    let top = &doc.nodes[doc.root].children;
    let level = node_level(doc, top[s]);
    let n = top.len();
    let mut j = s + 1;
    while j < top.len()
        invariant
            doc.wf(),
            top@ == doc.top(),
            s < j <= top.len(),
            level as int == level_at(doc, s as int),
            end_from(doc, s as int, s as int + 1) == end_from(doc, s as int, j as int),
            forall|q: int| s < q < j ==> !closes(doc, s as int, q),
        decreases top.len() - j,
    {
        let l = node_level(doc, top[j]);
        if 0 < l && l <= level {
            return j;
        }
        j += 1;
    }
    j
}

/// Whether the node at position `p` is a heading whose text is `text`.
pub fn is_heading_named(doc: &Document, p: usize, text: &String) -> (r: bool)
    requires
        doc.wf(),
        p < doc.top().len(),
    ensures
        r == heading_named(doc, p as int, text@),
{
    let top = &doc.nodes[doc.root].children;
    if node_level(doc, top[p]) == 0 {
        return false;
    }
    let t = doc.text_contents(top[p]);
    t == *text
}

/// The first position among `[from, to)` that holds a heading whose text is
/// `text`.
pub fn find_heading_in(doc: &Document, from: usize, to: usize, text: &String) -> (r: Option<
    usize,
>)
    requires
        doc.wf(),
        from <= to <= doc.top().len(),
    ensures
        match r {
            Some(p) => first_heading_named(doc, from as int, to as int, p as int, text@),
            None => no_heading_named(doc, from as int, to as int, text@),
        },
{
    let mut p = from;
    while p < to
        invariant
            doc.wf(),
            from <= p <= to <= doc.top().len(),
            no_heading_named(doc, from as int, p as int, text@),
        decreases to - p,
    {
        if is_heading_named(doc, p, text) {
            return Some(p);
        }
        p += 1;
    }
    None
}

/// The first position among `[from, to)` that holds a bullet list.
pub fn find_list(doc: &Document, from: usize, to: usize) -> (r: Option<usize>)
    requires
        doc.wf(),
        from <= to <= doc.top().len(),
    ensures
        match r {
            Some(p) => from <= p < to && list_at(doc, p as int) && forall|q: int|
                from <= q < p ==> !list_at(doc, q),
            None => forall|q: int| from <= q < to ==> !list_at(doc, q),
        },
{
    let top = &doc.nodes[doc.root].children;
    let mut p = from;
    while p < to
        invariant
            doc.wf(),
            top@ == doc.top(),
            from <= p <= to <= doc.top().len(),
            forall|q: int| from <= q < p ==> !list_at(doc, q),
        decreases to - p,
    {
        if let NodeKind::Element { tag: Tag::List, .. } = &doc.nodes[top[p]].kind {
            return Some(p);
        }
        p += 1;
    }
    None
}

/// An element `tag` without attributes that transcludes nothing.
pub open spec fn plain_element(kind: NodeKind, tag: Tag) -> bool {
    kind matches NodeKind::Element { tag: t, attrs, transclusion: None } && t == tag
        && attrs@.len() == 0
}

/// Adds a detached element `tag` whose one child is the text `text`, and
/// returns its index.
pub fn add_text_element(doc: &mut Document, tag: Tag, text: String) -> (r: usize)
    requires
        old(doc).wf(),
        old(doc).nodes@.len() + 2 < usize::MAX,
    ensures
        final(doc).wf(),
        r == old(doc).nodes@.len(),
        final(doc).nodes@.len() == old(doc).nodes@.len() + 2,
        keeps_from(old(doc), final(doc), 0),
        final(doc).root == old(doc).root,
        final(doc).kind(r as int) matches NodeKind::Element { tag: t, transclusion: None, .. }
            && t == tag,
        final(doc).text_of(r as int) == text@,
{
    let ghost t = tag;
    let ghost s = text@;
    let r = doc.add_node(NodeKind::Element { tag, attrs: Vec::new(), transclusion: None });
    let x = doc.add_node(NodeKind::Text(text));
    doc.insert_child(r, 0, x);
    proof {
        assert(doc.kids(r as int) =~= seq![x]);
        assert(doc.text_of(x as int) == s);
        assert(doc.text_upto(r as int, 0) == Seq::<char>::empty());
        assert(doc.text_upto(r as int, 1) =~= s);
        assert forall|j: int| 0 <= j < old(doc).nodes@.len() implies #[trigger] doc.kind(j)
            == old(doc).kind(j) && doc.kids(j) == old(doc).kids(j) by {
            assert(doc.kids(j) == old(doc).kids(j));
            assert(doc.kind(j) == old(doc).kind(j));
        }
    }
    r
}

/// Adds a detached archive entry for `title` and returns its index: a list
/// item that links to the page, followed by the result in parentheses where
/// there is one.
pub fn add_entry(doc: &mut Document, title: &String, result: &Option<String>) -> (r: usize)
    requires
        old(doc).wf(),
        old(doc).nodes@.len() + 8 < usize::MAX,
    ensures
        final(doc).wf(),
        r == old(doc).nodes@.len(),
        old(doc).nodes@.len() < final(doc).nodes@.len() <= old(doc).nodes@.len() + 8,
        keeps_from(old(doc), final(doc), 0),
        final(doc).root == old(doc).root,
        is_entry(final(doc), r as int, title@, opt_view(*result)),
{
    let ghost d0 = *doc;
    let li = doc.add_node(plain_element_exec(Tag::Item));
    let mut attrs: Vec<(String, String)> = Vec::new();
    let href = String::from_str("href");
    let target = title.clone();
    let ghost href_text = href@;
    let ghost target_text = target@;
    attrs.push((href, target));
    let ghost attrs_view = attrs@;
    let link = doc.add_node(NodeKind::Element { tag: Tag::Link, attrs, transclusion: None });
    assert(link_target(doc.kind(link as int)) == Some(title@)) by {
        assert(attrs_view.len() == 1);
        assert(attrs_view[0].0@ == href_text);
        assert(attrs_view[0].1@ == target_text);
    }
    let label = doc.add_node(NodeKind::Text(title.clone()));
    doc.insert_child(link, 0, label);
    doc.insert_child(li, 0, link);
    proof {
        assert(doc.kids(link as int) =~= seq![label]);
        assert(doc.text_of(label as int) == title@);
        assert(doc.text_upto(link as int, 0) == Seq::<char>::empty());
        assert(doc.text_upto(link as int, 1) =~= title@);
        assert(doc.text_of(link as int) == title@);
        assert(doc.kids(li as int) =~= seq![link]);
        assert(doc.text_upto(li as int, 0) == Seq::<char>::empty());
        assert(doc.text_upto(li as int, 1) =~= title@);
    }
    let ghost d1 = *doc;
    assert(keeps_from(&d0, &d1, 0)) by {
        assert forall|j: int| 0 <= j < d0.nodes@.len() implies #[trigger] d1.kind(j) == d0.kind(j)
            && d1.kids(j) == d0.kids(j) by {
            assert(d1.kids(j) == d0.kids(j));
            assert(d1.kind(j) == d0.kind(j));
        }
    }
    match result {
        Some(res) => {
            let mut tail = String::from_str(" (");
            tail.append(res.as_str());
            tail.append(")");
            let ghost tail_text = tail@;
            let t = doc.add_node(NodeKind::Text(tail));
            doc.insert_child(li, 1, t);
            proof {
                assert(doc.kids(li as int) =~= seq![link, t]);
                assert forall|j: int| link <= j < d1.nodes@.len() implies #[trigger] doc.kind(j)
                    == d1.kind(j) && doc.kids(j) == d1.kids(j) by {
                    assert(doc.kids(j) == d1.kids(j));
                    assert(doc.kind(j) == d1.kind(j));
                }
                lemma_text_frame(&d1, doc, link as int);
                assert(doc.text_upto(li as int, 0) == Seq::<char>::empty());
                assert(doc.text_upto(li as int, 1) =~= title@);
                assert(doc.text_of(t as int) == tail_text);
                assert(doc.text_upto(li as int, 2) =~= title@ + tail_text);
                assert(doc.text_of(li as int) =~= entry_text(
                    title@,
                    opt_view(*result),
                ));
                assert(doc.kind(link as int) == d1.kind(link as int));
                assert(text_node(doc.kind(t as int)) == Some(tail_text));
                assert forall|j: int| 0 <= j < d0.nodes@.len() implies #[trigger] doc.kind(j)
                    == d0.kind(j) && doc.kids(j) == d0.kids(j) by {
                    assert(doc.kids(j) == d1.kids(j));
                    assert(doc.kind(j) == d1.kind(j));
                }
            }
        },
        None => {
            proof {
                assert(doc.text_of(li as int) == title@);
            }
        },
    }
    li
}

/// An element without attributes.
pub fn plain_element_exec(tag: Tag) -> (r: NodeKind)
    ensures
        plain_element(r, tag),
{
    NodeKind::Element { tag, attrs: Vec::new(), transclusion: None }
}

/// An expected heading is missing from a document.
#[derive(Debug)]
pub enum StructureError {
    /// No heading carries this text.
    MissingHeading(String),
}

/// `q` is the first position among `[from, to)` that holds a bullet list.
pub open spec fn first_list(doc: &Document, from: int, to: int, q: int) -> bool {
    &&& from <= q < to
    &&& list_at(doc, q)
    &&& forall|j: int| from <= j < q ==> !list_at(doc, j)
}

/// `new` holds the nodes of `old` unchanged, but for the children of node `p`.
pub open spec fn unchanged_except(old: &Document, new: &Document, p: int) -> bool {
    &&& new.wf()
    &&& new.root == old.root
    &&& old.nodes@.len() <= new.nodes@.len()
    &&& forall|j: int|
        #![trigger new.kind(j)]
        #![trigger new.kids(j)]
        0 <= j < old.nodes@.len() ==> new.kind(j) == old.kind(j) && (j != p ==> new.kids(j)
            == old.kids(j))
}

/// `new` is `old` with an entry for `title` added to the section whose
/// heading is at position `s`: at the front of its first bullet list, or,
/// where it has none, in a new list at the end of the section.
pub open spec fn archived_under(
    old: &Document,
    new: &Document,
    s: int,
    title: Seq<char>,
    result: Option<Seq<char>>,
) -> bool {
    let e = section_end(old, s);
    let n = old.nodes@.len() as int;
    if exists|q: int| #[trigger] first_list(old, s + 1, e, q) {
        forall|q: int|
            #[trigger] first_list(old, s + 1, e, q) ==> {
                let ul = old.top()[q] as int;
                &&& unchanged_except(old, new, ul)
                &&& new.kids(ul) == old.kids(ul).insert(0, n as usize)
                &&& is_entry(new, n, title, result)
            }
    } else {
        &&& unchanged_except(old, new, old.root as int)
        &&& new.top() == old.top().insert(e, n as usize)
        &&& plain_element(new.kind(n), Tag::List)
        &&& new.kids(n) == seq![(n + 1) as usize]
        &&& is_entry(new, n + 1, title, result)
    }
}

/// Adds an entry for `title` (with `result`, where there is one) under the
/// heading whose text is `header`: at the front of the first bullet list of
/// that heading's section, or in a new list at the section's end. Fails,
/// leaving the document as it was, where no heading has that text.
pub fn add_to_archive(
    archive: &mut Document,
    header: &String,
    title: &String,
    result: &Option<String>,
) -> (r: Result<(), StructureError>)
    requires
        old(archive).wf(),
        old(archive).nodes@.len() + 10 < usize::MAX,
    ensures
        r is Err <==> no_heading_named(old(archive), 0, old(archive).top().len() as int, header@),
        r matches Err(StructureError::MissingHeading(h)) ==> h@ == header@ && *final(archive)
            == *old(archive),
        r is Ok ==> forall|s: int|
            #[trigger] first_heading_named(
                old(archive),
                0,
                old(archive).top().len() as int,
                s,
                header@,
            ) ==> archived_under(old(archive), final(archive), s, title@, opt_view(*result)),
{
    let ghost d0 = *archive;
    let n_top = archive.nodes[archive.root].children.len();
    let s = match find_heading_in(archive, 0, n_top, header) {
        None => {
            return Err(StructureError::MissingHeading(header.clone()));
        },
        Some(s) => s,
    };
    assert(heading_named(&d0, s as int, header@));
    assert(!no_heading_named(&d0, 0, d0.top().len() as int, header@));
    let e = find_section_end(archive, s);
    match find_list(archive, s + 1, e) {
        Some(q) => {
            let ul = archive.nodes[archive.root].children[q];
            let li = add_entry(archive, title, result);
            let ghost d1 = *archive;
            archive.insert_child(ul, 0, li);
            proof {
                lemma_entry_frame(&d1, archive, li as int, title@, opt_view(*result));
                assert(first_list(&d0, s + 1, e as int, q as int));
                assert(forall|q2: int| #[trigger] first_list(&d0, s + 1, e as int, q2) ==> q2 == q);
            }
        },
        None => {
            let ul = archive.add_node(plain_element_exec(Tag::List));
            let ghost da = *archive;
            let li = add_entry(archive, title, result);
            let ghost d1 = *archive;
            archive.insert_child(ul, 0, li);
            let ghost d2 = *archive;
            let root = archive.root;
            archive.insert_child(root, e, ul);
            proof {
                lemma_entry_frame(&d1, &d2, li as int, title@, opt_view(*result));
                lemma_entry_frame(&d2, archive, li as int, title@, opt_view(*result));
                assert(archive.kids(ul as int) =~= seq![li]);
                assert forall|j: int|
                    0 <= j < d0.nodes@.len() && j != d0.root implies #[trigger] archive.kids(j)
                    == d0.kids(j) by {
                    assert(da.nodes@[j] == d0.nodes@[j]);
                    assert(da.kids(j) == d0.kids(j));
                    assert(d1.kids(j) == da.kids(j));
                    assert(d2.kids(j) == d1.kids(j));
                }
            }
        },
    }
    proof {
        assert(forall|s2: int|
            #[trigger] first_heading_named(&d0, 0, d0.top().len() as int, s2, header@) ==> s2 == s);
    }
    Ok(())
}

/// Position `p` holds a day heading (level 3) whose text is `text`.
pub open spec fn day_named(doc: &Document, p: int, text: Seq<char>) -> bool {
    level_at(doc, p) == 3 && text_at(doc, p) == text
}

/// `p` is the first position among `[from, to)` that satisfies `day_named`.
pub open spec fn first_day_named(
    doc: &Document,
    from: int,
    to: int,
    p: int,
    text: Seq<char>,
) -> bool {
    &&& from <= p < to
    &&& day_named(doc, p, text)
    &&& forall|q: int| from <= q < p ==> !day_named(doc, q, text)
}

/// `p` is the first position among `[from, to)` that holds a day heading.
pub open spec fn first_day(doc: &Document, from: int, to: int, p: int) -> bool {
    &&& from <= p < to
    &&& level_at(doc, p) == 3
    &&& forall|q: int| from <= q < p ==> level_at(doc, q) != 3
}

/// Node `i` of `new` is a new transclusion of `title`, without children.
pub open spec fn new_transclusion(new: &Document, i: int, title: Seq<char>) -> bool {
    &&& transcludes(new.kind(i), title)
    &&& level_of(new.kind(i)) == 0
    &&& new.kids(i) == Seq::<usize>::empty()
}

/// Node `i` of `new` is a day heading whose text is `text`.
pub open spec fn new_day_heading(new: &Document, i: int, text: Seq<char>) -> bool {
    &&& level_of(new.kind(i)) == 3
    &&& new.text_of(i) == text
}

/// `new` is `old` after adding a reference to `title` to the section whose
/// heading is at position `s`, under the day heading `header`.
///
/// Where the section already holds a reference to `title`, nothing changes.
/// Otherwise the reference goes right after the first day heading with that
/// text, followed by a line break; where there is none, a new day heading
/// and the reference go right before the first day heading of the section,
/// whatever its date, or at the section's end where it has no day heading.
pub open spec fn old_business_added(
    old: &Document,
    new: &Document,
    s: int,
    header: Seq<char>,
    title: Seq<char>,
) -> bool {
    let e = section_end(old, s);
    let n = old.nodes@.len() as int;
    if has_ref(old, s + 1, e, title) {
        *new == *old
    } else if exists|p: int| #[trigger] first_day_named(old, s + 1, e, p, header) {
        forall|p: int|
            #[trigger] first_day_named(old, s + 1, e, p, header) ==> {
                &&& unchanged_except(old, new, old.root as int)
                &&& new.top() == old.top().insert(p + 1, n as usize).insert(
                    p + 2,
                    (n + 1) as usize,
                )
                &&& new_transclusion(new, n, title)
                &&& new.kind(n + 1) matches NodeKind::Text(t) && t@ == "\n"@
            }
    } else {
        let at = if exists|f: int| #[trigger] first_day(old, s + 1, e, f) {
            choose|f: int| #[trigger] first_day(old, s + 1, e, f)
        } else {
            e
        };
        &&& unchanged_except(old, new, old.root as int)
        &&& new.top() == old.top().insert(at, n as usize).insert(at + 1, (n + 2) as usize)
        &&& new_day_heading(new, n, header)
        &&& new_transclusion(new, n + 2, title)
    }
}

/// The first position among `[from, to)` that holds a day heading whose text
/// is `text`.
pub fn find_day_named(doc: &Document, from: usize, to: usize, text: &String) -> (r: Option<usize>)
    requires
        doc.wf(),
        from <= to <= doc.top().len(),
    ensures
        match r {
            Some(p) => first_day_named(doc, from as int, to as int, p as int, text@),
            None => forall|q: int| from <= q < to ==> !day_named(doc, q, text@),
        },
{
    let top = &doc.nodes[doc.root].children;
    let mut p = from;
    while p < to
        invariant
            doc.wf(),
            top@ == doc.top(),
            from <= p <= to <= doc.top().len(),
            forall|q: int| from <= q < p ==> !day_named(doc, q, text@),
        decreases to - p,
    {
        if node_level(doc, top[p]) == 3 && is_heading_named(doc, p, text) {
            return Some(p);
        }
        p += 1;
    }
    None
}

/// The first position among `[from, to)` that holds a day heading.
pub fn find_first_day(doc: &Document, from: usize, to: usize) -> (r: Option<usize>)
    requires
        doc.wf(),
        from <= to <= doc.top().len(),
    ensures
        match r {
            Some(p) => first_day(doc, from as int, to as int, p as int),
            None => forall|q: int| from <= q < to ==> level_at(doc, q) != 3,
        },
{
    let top = &doc.nodes[doc.root].children;
    let mut p = from;
    while p < to
        invariant
            doc.wf(),
            top@ == doc.top(),
            from <= p <= to <= doc.top().len(),
            forall|q: int| from <= q < p ==> level_at(doc, q) != 3,
        decreases to - p,
    {
        if node_level(doc, top[p]) == 3 {
            return Some(p);
        }
        p += 1;
    }
    None
}

/// A transclusion of `title`.
pub fn transclusion_kind(title: &String) -> (r: NodeKind)
    ensures
        transcludes(r, title@),
        level_of(r) == 0,
{
    NodeKind::Element {
        tag: Tag::Other(String::from_str("span")),
        attrs: Vec::new(),
        transclusion: Some(title.clone()),
    }
}

/// Adds a reference to `title` to the section whose heading is at position
/// `section`, under the day heading `header`, unless the section already
/// holds one (see `old_business_added`).
pub fn add_to_old_business(doc: &mut Document, section: usize, header: &String, title: &String)
    requires
        old(doc).wf(),
        section < old(doc).top().len(),
        old(doc).nodes@.len() + 10 < usize::MAX,
        old(doc).top().len() + 10 < usize::MAX,
    ensures
        old_business_added(old(doc), final(doc), section as int, header@, title@),
        final(doc).wf(),
        section < final(doc).top().len(),
        final(doc).nodes@.len() <= old(doc).nodes@.len() + 3,
        final(doc).top().len() <= old(doc).top().len() + 2,
{
    let ghost d0 = *doc;
    let e = find_section_end(doc, section);
    if first_ref_in(doc, section + 1, e, title).is_some() {
        return;
    }
    let root = doc.root;
    match find_day_named(doc, section + 1, e, header) {
        Some(p) => {
            let t = doc.add_node(transclusion_kind(title));
            let ghost da = *doc;
            let nl = doc.add_node(NodeKind::Text(String::from_str("\n")));
            let ghost db = *doc;
            doc.insert_child(root, p + 1, t);
            let ghost dc = *doc;
            doc.insert_child(root, p + 2, nl);
            proof {
                assert forall|j: int|
                    0 <= j < d0.nodes@.len() implies #[trigger] doc.kind(j) == d0.kind(j) && (j
                    != root ==> doc.kids(j) == d0.kids(j)) by {
                    assert(da.nodes@[j] == d0.nodes@[j]);
                    assert(db.nodes@[j] == da.nodes@[j]);
                    assert(dc.kind(j) == db.kind(j));
                    assert(dc.kids(j) == db.kids(j) || j == root);
                }
                assert(doc.kids(t as int) == da.kids(t as int));
                assert(first_day_named(&d0, section + 1, e as int, p as int, header@));
                assert(forall|p2: int|
                    #[trigger] first_day_named(&d0, section + 1, e as int, p2, header@) ==> p2
                        == p);
            }
        },
        None => {
            let first = find_first_day(doc, section + 1, e);
            let at = match first {
                Some(f) => f,
                None => e,
            };
            let h = add_text_element(doc, Tag::Heading(3), header.clone());
            let ghost da = *doc;
            assert(da.kids(root as int) == d0.kids(root as int));
            let t = doc.add_node(transclusion_kind(title));
            let ghost db = *doc;
            assert(db.nodes@[root as int] == da.nodes@[root as int]);
            doc.insert_child(root, at, h);
            let ghost dc = *doc;
            doc.insert_child(root, at + 1, t);
            proof {
                assert forall|j: int|
                    0 <= j < d0.nodes@.len() implies #[trigger] doc.kind(j) == d0.kind(j) && (j
                    != root ==> doc.kids(j) == d0.kids(j)) by {
                    assert(da.kind(j) == d0.kind(j) && da.kids(j) == d0.kids(j));
                    assert(db.nodes@[j] == da.nodes@[j]);
                    assert(dc.kind(j) == db.kind(j));
                    assert(dc.kids(j) == db.kids(j) || j == root);
                }
                assert(da.nodes@[h as int] == db.nodes@[h as int]);
                lemma_text_frame(&db, doc, h as int);
                lemma_text_frame(&da, &db, h as int);
                assert(doc.kids(t as int) == db.kids(t as int));
                if let Some(f) = first {
                    assert(first_day(&d0, section + 1, e as int, f as int));
                    assert(forall|f2: int|
                        #[trigger] first_day(&d0, section + 1, e as int, f2) ==> f2 == f);
                }
            }
        },
    }
}

/// No position between a section's heading and its end closes the section.
pub proof fn lemma_before_end(doc: &Document, s: int, j: int, q: int)
    requires
        j <= q < end_from(doc, s, j),
    ensures
        !closes(doc, s, q),
    decreases doc.top().len() - j,
{
    if j < doc.top().len() && !closes(doc, s, j) && j < q {
        lemma_before_end(doc, s, j + 1, q);
    }
}

proof fn lemma_end_at_least(doc: &Document, s: int, j: int)
    requires
        j <= doc.top().len(),
    ensures
        end_from(doc, s, j) >= j,
    decreases doc.top().len() - j,
{
    if j < doc.top().len() && !closes(doc, s, j) {
        lemma_end_at_least(doc, s, j + 1);
    }
}

/// A section ends at the latest at the end of the top level.
pub proof fn lemma_end_at_most(doc: &Document, s: int, j: int)
    ensures
        end_from(doc, s, j) <= doc.top().len(),
    decreases doc.top().len() - j,
{
    if j < doc.top().len() && !closes(doc, s, j) {
        lemma_end_at_most(doc, s, j + 1);
    }
}

/// Where no position among `[j, q]` closes the section, it ends after `q`.
pub proof fn lemma_end_beyond(doc: &Document, s: int, j: int, q: int)
    requires
        0 <= j <= q < doc.top().len(),
        forall|m: int| j <= m <= q ==> !closes(doc, s, m),
    ensures
        end_from(doc, s, j) > q,
    decreases q - j,
{
    if j < q {
        lemma_end_beyond(doc, s, j + 1, q);
    } else {
        lemma_end_at_least(doc, s, j + 1);
    }
}

/// Inserting new nodes after position `at` keeps the section that starts at
/// `s` open up to the last of them, where none of them closes it.
proof fn lemma_insert_keeps_section(
    d0: &Document,
    d1: &Document,
    s: int,
    at: int,
    last: int,
)
    requires
        d0.wf(),
        0 <= s < at <= section_end(d0, s),
        at <= last < d1.top().len(),
        unchanged_except(d0, d1, d0.root as int),
        forall|m: int| 0 <= m < at ==> d1.top()[m] == d0.top()[m],
        forall|m: int| at <= m <= last ==> !closes(d1, s, m),
    ensures
        section_end(d1, s) > last,
{
    lemma_end_at_most(d0, s, s + 1);
    assert(d0.top()[s] < d0.nodes@.len());
    assert(level_at(d1, s) == level_at(d0, s));
    assert forall|m: int| s + 1 <= m <= last implies !closes(d1, s, m) by {
        if m < at {
            lemma_before_end(d0, s, s + 1, m);
            assert(d0.top()[m] < d0.nodes@.len());
            assert(level_at(d1, m) == level_at(d0, m));
        }
    }
    lemma_end_beyond(d1, s, s + 1, last);
}

/// Adding a reference to a section under a day heading is idempotent: a
/// second addition with the same section, date and title leaves the
/// document as the first one left it. This holds for a section whose heading
/// is of a higher rank than day headings (level 1 or 2), which new day
/// headings do not end.
#[verifier::rlimit(50)]
pub proof fn lemma_old_business_idempotent(
    d0: &Document,
    d1: &Document,
    d2: &Document,
    s: int,
    header: Seq<char>,
    title: Seq<char>,
)
    requires
        d0.wf(),
        0 <= s < d0.top().len(),
        0 < level_at(d0, s) < 3,
        d0.nodes@.len() + 10 < usize::MAX,
        d0.top().len() + 10 < usize::MAX,
        old_business_added(d0, d1, s, header, title),
        old_business_added(d1, d2, s, header, title),
    ensures
        *d2 == *d1,
{
    let e = section_end(d0, s);
    let n = d0.nodes@.len() as int;
    lemma_end_at_least(d0, s, s + 1);
    lemma_end_at_most(d0, s, s + 1);
    if has_ref(d0, s + 1, e, title) {
        assert(*d1 == *d0);
    } else if exists|p: int| #[trigger] first_day_named(d0, s + 1, e, p, header) {
        let p = choose|p: int| #[trigger] first_day_named(d0, s + 1, e, p, header);
        assert(d1.top()[s] == d0.top()[s]);
        assert(level_at(d1, s) == level_at(d0, s));
        assert(d1.top()[p + 1] == n);
        assert(transclusion_at(d1, p + 1, title));
        lemma_insert_keeps_section(d0, d1, s, p + 1, p + 1);
        lemma_end_at_most(d1, s, s + 1);
        lemma_top_ref(d1, s + 1, section_end(d1, s), p + 1, title);
    } else {
        let at = if exists|f: int| #[trigger] first_day(d0, s + 1, e, f) {
            choose|f: int| #[trigger] first_day(d0, s + 1, e, f)
        } else {
            e
        };
        assert(d1.top()[s] == d0.top()[s]);
        assert(level_at(d1, s) == level_at(d0, s));
        assert(d1.top()[at] == n);
        assert(d1.top()[at + 1] == n + 2);
        assert(transclusion_at(d1, at + 1, title));
        lemma_insert_keeps_section(d0, d1, s, at, at + 1);
        lemma_end_at_most(d1, s, s + 1);
        lemma_top_ref(d1, s + 1, section_end(d1, s), at + 1, title);
    }
}

/// The node at position `q` holds nothing: its text is blank, and it
/// transcludes no page.
pub open spec fn empty_at(doc: &Document, q: int) -> bool {
    &&& blank(text_at(doc, q))
    &&& !is_transclusion(doc.kind(doc.top()[q] as int))
}

/// The day-level sub-section whose heading is at position `p` can go: its
/// heading is a day heading (level 3) whose text is not `today`, and all
/// that follows the heading in it is empty.
pub open spec fn removable(doc: &Document, p: int, today: Seq<char>) -> bool {
    &&& level_at(doc, p) == 3
    &&& text_at(doc, p) != today
    &&& forall|q: int| p < q < section_end(doc, p) ==> #[trigger] empty_at(doc, q)
}

/// The top-level nodes at positions `[j, e)` that a cleanup keeps: a
/// removable sub-section goes as a whole; anything else stays.
pub open spec fn kept_from(doc: &Document, j: int, e: int, today: Seq<char>) -> Seq<usize>
    decreases doc.top().len() - j,
{
    if j >= e || j >= doc.top().len() || j < 0 {
        Seq::empty()
    } else if removable(doc, j, today) && j < section_end(doc, j) <= doc.top().len() {
        kept_from(doc, section_end(doc, j), e, today)
    } else {
        seq![doc.top()[j]] + kept_from(doc, j + 1, e, today)
    }
}

/// `new` is `old` after the cleanup of the section whose heading is at
/// position `s`: its removable sub-sections are gone, all else stays.
pub open spec fn cleaned(old: &Document, new: &Document, s: int, today: Seq<char>) -> bool {
    let e = section_end(old, s);
    &&& unchanged_except(old, new, old.root as int)
    &&& new.nodes@.len() == old.nodes@.len()
    &&& new.top() == old.top().take(s + 1) + kept_from(old, s + 1, e, today) + old.top().skip(e)
}

/// Whether the sub-section whose heading is at position `p` can go.
pub fn is_removable(doc: &Document, p: usize, today: &String) -> (r: bool)
    requires
        doc.wf(),
        p < doc.top().len(),
    ensures
        r == removable(doc, p as int, today@),
{
    let top = &doc.nodes[doc.root].children;
    if node_level(doc, top[p]) != 3 {
        return false;
    }
    if is_heading_named(doc, p, today) {
        return false;
    }
    let end = find_section_end(doc, p);
    let mut q = p + 1;
    while q < end
        invariant
            doc.wf(),
            top@ == doc.top(),
            p < q <= end <= doc.top().len(),
            end == section_end(doc, p as int),
            forall|m: int| p < m < q ==> #[trigger] empty_at(doc, m),
        decreases end - q,
    {
        if let NodeKind::Element { transclusion: Some(_), .. } = &doc.nodes[top[q]].kind {
            assert(!empty_at(doc, q as int));
            return false;
        }
        let t = doc.text_contents(top[q]);
        assert(t@ == text_at(doc, q as int));
        if !is_blank(t.as_str()) {
            assert(!empty_at(doc, q as int));
            return false;
        }
        q += 1;
    }
    true
}

/// Removes, from the section whose heading is at position `section`, every
/// day-level sub-section that holds nothing after its heading (no text but whitespace,
/// no reference to a page), but for the one whose heading reads `today`.
pub fn cleanup_empty_sections(doc: &mut Document, section: usize, today: &String)
    requires
        old(doc).wf(),
        section < old(doc).top().len(),
    ensures
        cleaned(old(doc), final(doc), section as int, today@),
{
    let ghost d0 = *doc;
    let e = find_section_end(doc, section);
    let root = doc.root;
    let top = &doc.nodes[root].children;
    let mut kept: Vec<usize> = Vec::new();
    let mut i: usize = 0;
    while i <= section
        invariant
            doc.wf(),
            root == doc.root,
            top@ == doc.top(),
            section < e <= top.len(),
            i <= section + 1,
            kept@ == top@.take(i as int),
            forall|k: int| 0 <= k < kept@.len() ==> root < #[trigger] kept@[k] < doc.nodes@.len(),
        decreases section + 1 - i,
    {
        assert(doc.kids(root as int)[i as int] > root);
        kept.push(top[i]);
        i += 1;
        assert(kept@ =~= top@.take(i as int));
    }
    let mut j = section + 1;
    while j < e
        invariant
            doc.wf(),
            root == doc.root,
            top@ == doc.top(),
            section < e <= top.len(),
            section < j,
            e == section_end(doc, section as int),
            kept@ + kept_from(doc, j as int, e as int, today@) == top@.take(section + 1)
                + kept_from(doc, section + 1, e as int, today@),
            forall|k: int| 0 <= k < kept@.len() ==> root < #[trigger] kept@[k] < doc.nodes@.len(),
        decreases top.len() - j,
    {
        if is_removable(doc, j, today) {
            proof {
                lemma_end_at_most(doc, j as int, j as int + 1);
            }
            j = find_section_end(doc, j);
        } else {
            assert(kept_from(doc, j as int, e as int, today@) =~= seq![top@[j as int]]
                + kept_from(doc, j as int + 1, e as int, today@));
            assert(doc.kids(root as int)[j as int] > root);
            kept.push(top[j]);
            j += 1;
        }
    }
    let ghost middle = kept@;
    let mut k = e;
    while k < top.len()
        invariant
            doc.wf(),
            root == doc.root,
            top@ == doc.top(),
            e <= k <= top.len(),
            kept@ == middle + top@.subrange(e as int, k as int),
            forall|m: int| 0 <= m < kept@.len() ==> root < #[trigger] kept@[m] < doc.nodes@.len(),
        decreases top.len() - k,
    {
        assert(doc.kids(root as int)[k as int] > root);
        kept.push(top[k]);
        k += 1;
        assert(kept@ =~= middle + top@.subrange(e as int, k as int));
    }
    proof {
        assert(top@.subrange(e as int, top@.len() as int) =~= top@.skip(e as int));
    }
    doc.replace_children(root, kept);
}

/// A section ends at the latest at a position that closes it.
proof fn lemma_end_before_closer(doc: &Document, s: int, j: int, m: int)
    requires
        j <= m < doc.top().len(),
        closes(doc, s, m),
    ensures
        end_from(doc, s, j) <= m,
    decreases m - j,
{
    if j < m && !closes(doc, s, j) {
        lemma_end_before_closer(doc, s, j + 1, m);
    }
}

/// A sub-section ends at the latest where its enclosing section ends.
proof fn lemma_nested_end(doc: &Document, p: int, q: int)
    requires
        p < q < section_end(doc, p),
        level_at(doc, q) > 0,
    ensures
        section_end(doc, q) <= section_end(doc, p),
{
    let e = section_end(doc, p);
    lemma_before_end(doc, p, p + 1, q);
    lemma_end_at_most(doc, p, p + 1);
    lemma_end_at_most(doc, q, q + 1);
    if e < doc.top().len() {
        lemma_end_at_least(doc, p, p + 1);
        if !closes(doc, p, e) {
            lemma_end_not_open(doc, p, p + 1);
        }
        lemma_end_before_closer(doc, q, q + 1, e);
    }
}

/// Before the end of the top level, a section ends at a position that closes it.
proof fn lemma_end_not_open(doc: &Document, s: int, j: int)
    requires
        j <= doc.top().len(),
        end_from(doc, s, j) < doc.top().len(),
    ensures
        closes(doc, s, end_from(doc, s, j)),
    decreases doc.top().len() - j,
{
    if j < doc.top().len() && !closes(doc, s, j) {
        lemma_end_not_open(doc, s, j + 1);
    }
}

/// A node at position `q` among `[j, e)` stays in a cleanup unless a
/// removable sub-section that starts at or after `j` holds it.
proof fn lemma_kept(doc: &Document, j: int, e: int, today: Seq<char>, q: int)
    requires
        0 <= j <= q < e <= doc.top().len(),
        forall|p: int| j <= p <= q && q < section_end(doc, p) ==> !removable(doc, p, today),
    ensures
        kept_from(doc, j, e, today).contains(doc.top()[q]),
    decreases doc.top().len() - j,
{
    if removable(doc, j, today) && j < section_end(doc, j) <= doc.top().len() {
        lemma_kept(doc, section_end(doc, j), e, today, q);
    } else if q == j {
        assert(kept_from(doc, j, e, today)[0] == doc.top()[q]);
    } else {
        lemma_kept(doc, j + 1, e, today, q);
        let rest = kept_from(doc, j + 1, e, today);
        let i = choose|i: int| 0 <= i < rest.len() && rest[i] == doc.top()[q];
        assert(kept_from(doc, j, e, today)[i + 1] == doc.top()[q]);
    }
}

/// Cleaning up a section keeps every node of it that holds something (text
/// other than whitespace, or a reference to a page) and is no heading, the
/// heading of every sub-section that holds such a node, and the heading that
/// reads today's date (a date is never blank).
pub proof fn lemma_cleanup_keeps(
    d0: &Document,
    d1: &Document,
    s: int,
    today: Seq<char>,
    q: int,
)
    requires
        d0.wf(),
        0 <= s < d0.top().len(),
        !blank(today),
        cleaned(d0, d1, s, today),
        s < q < section_end(d0, s),
    ensures
        level_at(d0, q) == 0 && !empty_at(d0, q) ==> d1.top().contains(d0.top()[q]),
        heading_named(d0, q, today) ==> d1.top().contains(d0.top()[q]),
        (level_at(d0, q) > 0 && exists|r: int|
            q < r < section_end(d0, q) && level_at(d0, r) == 0 && !#[trigger] empty_at(d0, r))
            ==> d1.top().contains(d0.top()[q]),
{
    let e = section_end(d0, s);
    lemma_end_at_most(d0, s, s + 1);
    let keeps = level_at(d0, q) == 0 && !empty_at(d0, q) || heading_named(d0, q, today) || (
    level_at(d0, q) > 0 && exists|r: int|
        q < r < section_end(d0, q) && level_at(d0, r) == 0 && !#[trigger] empty_at(d0, r));
    if keeps {
        assert forall|p: int| s + 1 <= p <= q && q < section_end(d0, p) implies !removable(
            d0,
            p,
            today,
        ) by {
            if level_at(d0, q) == 0 && !empty_at(d0, q) {
            } else if heading_named(d0, q, today) {
                if p < q {
                    assert(!empty_at(d0, q));
                }
            } else {
                let r = choose|r: int|
                    q < r < section_end(d0, q) && level_at(d0, r) == 0 && !#[trigger] empty_at(
                        d0,
                        r,
                    );
                if p < q {
                    lemma_nested_end(d0, p, q);
                    assert(p < r < section_end(d0, p));
                }
            }
        }
        lemma_kept(d0, s + 1, e, today, q);
        let mid = kept_from(d0, s + 1, e, today);
        let i = choose|i: int| 0 <= i < mid.len() && mid[i] == d0.top()[q];
        let pre = d0.top().take(s + 1);
        assert(d1.top()[pre.len() + i] == d0.top()[q]);
    }
}

/// `new` is `old` after detaching the first reference to `title`, in
/// document order, under the section whose heading is at position `s`,
/// where there is one.
pub open spec fn removed_from(old: &Document, new: &Document, s: int, title: Seq<char>) -> bool {
    let e = section_end(old, s);
    if has_ref(old, s + 1, e, title) {
        forall|edge: (usize, usize)|
            #[trigger] first_ref(old, top_edges(old, s + 1, e), title, edge) ==> {
                &&& unchanged_except(old, new, edge.0 as int)
                &&& new.nodes@.len() == old.nodes@.len()
                &&& new.kids(edge.0 as int) == old.kids(edge.0 as int).remove(edge.1 as int)
            }
    } else {
        *new == *old
    }
}

/// Detaches the first reference to `title`, in document order, anywhere
/// under the section whose heading is at position `section`, and says
/// whether there was one. A section without one is left as it is.
pub fn remove_from_current(doc: &mut Document, section: usize, title: &String) -> (r: bool)
    requires
        old(doc).wf(),
        section < old(doc).top().len(),
    ensures
        r == has_ref(old(doc), section + 1, section_end(old(doc), section as int), title@),
        removed_from(old(doc), final(doc), section as int, title@),
        final(doc).wf(),
        section < final(doc).top().len(),
{
    let ghost d0 = *doc;
    let e = find_section_end(doc, section);
    match first_ref_in(doc, section + 1, e, title) {
        None => false,
        Some((p, k)) => {
            doc.remove_child(p, k);
            proof {
                let es = top_edges(&d0, section + 1, e as int);
                assert forall|e2: (usize, usize)| #[trigger]
                    first_ref(&d0, es, title@, e2) implies e2 == (p, k) by {
                    lemma_first_ref_unique(&d0, es, title@, e2, (p, k));
                }
                assert(!no_ref(&d0, es, title@));
            }
            true
        },
    }
}

/// The nodes of `s` but those that transclude `title`, in order.
pub open spec fn without_refs(doc: &Document, s: Seq<usize>, title: Seq<char>) -> Seq<usize>
    decreases s.len(),
{
    if s.len() == 0 {
        s
    } else {
        let rest = without_refs(doc, s.drop_last(), title);
        if s.last() < doc.nodes@.len() && transcludes(doc.kind(s.last() as int), title) {
            rest
        } else {
            rest.push(s.last())
        }
    }
}

/// What `without_refs` keeps comes from `s` and refers to no `title`.
proof fn lemma_without_refs(doc: &Document, s: Seq<usize>, title: Seq<char>)
    ensures
        forall|i: int|
            0 <= i < without_refs(doc, s, title).len() ==> s.contains(
                #[trigger] without_refs(doc, s, title)[i],
            ) && (without_refs(doc, s, title)[i] < doc.nodes@.len() ==> !transcludes(
                doc.kind(without_refs(doc, s, title)[i] as int),
                title,
            )),
    decreases s.len(),
{
    if s.len() > 0 {
        lemma_without_refs(doc, s.drop_last(), title);
        let rest = without_refs(doc, s.drop_last(), title);
        assert forall|i: int| 0 <= i < rest.len() implies s.contains(#[trigger] rest[i]) by {
            let j = choose|j: int| 0 <= j < s.drop_last().len() && s.drop_last()[j] == rest[i];
            assert(s[j] == rest[i]);
        }
        assert(s[s.len() - 1] == s.last());
    }
}

/// `without_refs` reads only the kinds of the nodes.
proof fn lemma_without_refs_same(d1: &Document, d2: &Document, s: Seq<usize>, title: Seq<char>)
    requires
        d1.nodes@.len() == d2.nodes@.len(),
        forall|j: int| 0 <= j < d1.nodes@.len() ==> #[trigger] d1.kind(j) == d2.kind(j),
    ensures
        without_refs(d1, s, title) == without_refs(d2, s, title),
    decreases s.len(),
{
    if s.len() > 0 {
        lemma_without_refs_same(d1, d2, s.drop_last(), title);
        if s.last() < d1.nodes@.len() {
            assert(d1.kind(s.last() as int) == d2.kind(s.last() as int));
        }
    }
}

/// The children of node `p` that do not refer to `title`, in order.
fn kept_children(doc: &Document, p: usize, title: &String) -> (r: Vec<usize>)
    requires
        doc.wf(),
        p < doc.nodes@.len(),
    ensures
        r@ == without_refs(doc, doc.kids(p as int), title@),
        forall|m: int| 0 <= m < r@.len() ==> p < #[trigger] r@[m] < doc.nodes@.len(),
{
    let kids = &doc.nodes[p].children;
    let mut kept: Vec<usize> = Vec::new();
    let mut k: usize = 0;
    while k < kids.len()
        invariant
            doc.wf(),
            p < doc.nodes@.len(),
            kids@ == doc.kids(p as int),
            k <= kids.len(),
            kept@ == without_refs(doc, kids@.take(k as int), title@),
            forall|m: int| 0 <= m < kept@.len() ==> p < #[trigger] kept@[m] < doc.nodes@.len(),
        decreases kids.len() - k,
    {
        let c = kids[k];
        assert(kids@.take(k as int + 1).drop_last() =~= kids@.take(k as int));
        assert(p < c < doc.nodes@.len());
        if !refers_to(doc, c, title) {
            kept.push(c);
        }
        k += 1;
    }
    assert(kids@.take(kids@.len() as int) =~= kids@);
    kept
}

/// Detaches every reference to `title` anywhere in the document: each node
/// keeps only those of its children that do not refer to `title`.
pub fn remove_transclusions(doc: &mut Document, title: &String)
    requires
        old(doc).wf(),
    ensures
        refs_removed(old(doc), final(doc), title@),
{
    let ghost d0 = *doc;
    let n = doc.nodes.len();
    let mut p: usize = 0;
    while p < n
        invariant
            doc.wf(),
            d0.wf(),
            doc.root == d0.root,
            n == doc.nodes@.len(),
            n == d0.nodes@.len(),
            p <= n,
            forall|j: int| 0 <= j < n ==> #[trigger] doc.kind(j) == d0.kind(j),
            forall|j: int|
                0 <= j < p ==> #[trigger] doc.kids(j) == without_refs(&d0, d0.kids(j), title@),
            forall|j: int| p <= j < n ==> #[trigger] doc.kids(j) == d0.kids(j),
        decreases n - p,
    {
        let kept = kept_children(doc, p, title);
        proof {
            lemma_without_refs_same(doc, &d0, doc.kids(p as int), title@);
        }
        let ghost before = *doc;
        doc.replace_children(p, kept);
        proof {
            assert forall|j: int| 0 <= j < n implies #[trigger] doc.kind(j) == d0.kind(j) by {
                assert(doc.kind(j) == before.kind(j));
            }
            assert forall|j: int| 0 <= j < p + 1 implies #[trigger] doc.kids(j) == without_refs(
                &d0,
                d0.kids(j),
                title@,
            ) by {
                if j < p {
                    assert(doc.kids(j) == before.kids(j));
                }
            }
            assert forall|j: int| p + 1 <= j < n implies #[trigger] doc.kids(j) == d0.kids(j) by {
                assert(doc.kids(j) == before.kids(j));
            }
        }
        p += 1;
    }
    proof {
        assert forall|q: int, k: int|
            0 <= q < doc.nodes@.len() && 0 <= k < doc.kids(q).len() implies !transcludes(
            doc.kind(#[trigger] doc.kids(q)[k] as int),
            title@,
        ) by {
            lemma_without_refs(&d0, d0.kids(q), title@);
            let x = doc.kids(q)[k];
            let j = choose|j: int| 0 <= j < d0.kids(q).len() && d0.kids(q)[j] == x;
            assert(x < d0.nodes@.len());
            assert(doc.kind(x as int) == d0.kind(x as int));
        }
    }
}

/// Whether some section whose heading reads `heading` holds a reference to
/// `title`.
pub open spec fn listed_under(doc: &Document, heading: Seq<char>, title: Seq<char>) -> bool {
    exists|p: int|
        0 <= p < doc.top().len() && #[trigger] heading_named(doc, p, heading) && has_ref(
            doc,
            p + 1,
            section_end(doc, p),
            title,
        )
}

/// Whether some section whose heading reads `heading` holds a reference to
/// `title`.
pub fn is_listed_under(doc: &Document, heading: &String, title: &String) -> (r: bool)
    requires
        doc.wf(),
    ensures
        r == listed_under(doc, heading@, title@),
{
    let n = doc.nodes[doc.root].children.len();
    let mut p: usize = 0;
    while p < n
        invariant
            doc.wf(),
            n == doc.top().len(),
            p <= n,
            forall|q: int|
                0 <= q < p ==> !(#[trigger] heading_named(doc, q, heading@) && has_ref(
                    doc,
                    q + 1,
                    section_end(doc, q),
                    title@,
                )),
        decreases n - p,
    {
        if is_heading_named(doc, p, heading) {
            let e = find_section_end(doc, p);
            if first_ref_in(doc, p + 1, e, title).is_some() {
                return true;
            }
        }
        p += 1;
    }
    false
}

/// The heading of the region of discussions that have aged.
pub fn old_business() -> (r: String)
    ensures
        r@ == "Old business"@,
{
    String::from_str("Old business")
}

/// The heading of the region of running discussions.
pub fn current_discussions() -> (r: String)
    ensures
        r@ == "Current discussions"@,
{
    String::from_str("Current discussions")
}

/// Whether the "Old business" region holds a reference to `title`.
pub fn is_in_old_business(doc: &Document, title: &String) -> (r: bool)
    requires
        doc.wf(),
    ensures
        r == listed_under(doc, "Old business"@, title@),
{
    is_listed_under(doc, &old_business(), title)
}

/// `new` is `old` after a reference to `title` was added under the day
/// heading `header` of the first "Old business" section (see
/// `old_business_added`) and that section was cleaned up (see `cleaned`).
pub open spec fn moved_into(
    old: &Document,
    new: &Document,
    header: Seq<char>,
    title: Seq<char>,
    today: Seq<char>,
) -> bool {
    forall|s: int|
        #[trigger] first_heading_named(old, 0, old.top().len() as int, s, "Old business"@)
            ==> exists|d1: Document|
            #[trigger] old_business_added(old, &d1, s, header, title) && cleaned(
                &d1,
                new,
                s,
                today,
            )
}

/// `new` is `old` after the first reference to `title` was detached from the
/// first "Current discussions" section (see `removed_from`) and that section
/// was cleaned up (see `cleaned`).
pub open spec fn moved_out(old: &Document, new: &Document, title: Seq<char>, today: Seq<char>) -> bool {
    forall|s: int|
        #[trigger] first_heading_named(old, 0, old.top().len() as int, s, "Current discussions"@)
            ==> exists|d1: Document|
            #[trigger] removed_from(old, &d1, s, title) && cleaned(&d1, new, s, today)
}

/// Adds a reference to `title` under the day heading `header` of the first
/// "Old business" section (see `old_business_added`), then cleans that
/// section up (see `cleaned`). Fails, changing nothing, where the document
/// has no such section.
pub fn move_into_old_business(
    listing: &mut Document,
    header: &String,
    title: &String,
    today: &String,
) -> (r: Result<(), StructureError>)
    requires
        old(listing).wf(),
        old(listing).nodes@.len() + 10 < usize::MAX,
        old(listing).top().len() + 10 < usize::MAX,
    ensures
        r is Err <==> no_heading_named(
            old(listing),
            0,
            old(listing).top().len() as int,
            "Old business"@,
        ),
        r matches Err(StructureError::MissingHeading(h)) ==> h@ == "Old business"@
            && *final(listing) == *old(listing),
        r is Ok ==> moved_into(old(listing), final(listing), header@, title@, today@),
        final(listing).wf(),
{
    let ghost d0 = *listing;
    let heading = old_business();
    let n = listing.nodes[listing.root].children.len();
    match find_heading_in(listing, 0, n, &heading) {
        None => Err(StructureError::MissingHeading(heading)),
        Some(s) => {
            assert(heading_named(&d0, s as int, "Old business"@));
            add_to_old_business(listing, s, header, title);
            let ghost d1 = *listing;
            proof {
                lemma_end_at_most(&d0, s as int, s as int + 1);
            }
            cleanup_empty_sections(listing, s, today);
            proof {
                assert(old_business_added(&d0, &d1, s as int, header@, title@));
                assert(forall|s2: int|
                    #[trigger] first_heading_named(&d0, 0, n as int, s2, "Old business"@) ==> s2
                        == s);
            }
            Ok(())
        },
    }
}

/// Detaches the first reference to `title` from the first "Current
/// discussions" section (see `removed_from`), then cleans that section up
/// (see `cleaned`); says whether there was a reference. Fails, changing
/// nothing, where the document has no such section.
pub fn move_out_of_current(listing: &mut Document, title: &String, today: &String) -> (r: Result<
    bool,
    StructureError,
>)
    requires
        old(listing).wf(),
    ensures
        r is Err <==> no_heading_named(
            old(listing),
            0,
            old(listing).top().len() as int,
            "Current discussions"@,
        ),
        r matches Err(StructureError::MissingHeading(h)) ==> h@ == "Current discussions"@
            && *final(listing) == *old(listing),
        r is Ok ==> forall|s: int|
            #[trigger] first_heading_named(
                old(listing),
                0,
                old(listing).top().len() as int,
                s,
                "Current discussions"@,
            ) ==> r == Ok::<bool, StructureError>(
                has_ref(old(listing), s + 1, section_end(old(listing), s), title@),
            ),
        r is Ok ==> moved_out(old(listing), final(listing), title@, today@),
        final(listing).wf(),
{
    let ghost d0 = *listing;
    let heading = current_discussions();
    let n = listing.nodes[listing.root].children.len();
    match find_heading_in(listing, 0, n, &heading) {
        None => Err(StructureError::MissingHeading(heading)),
        Some(s) => {
            assert(heading_named(&d0, s as int, "Current discussions"@));
            let found = remove_from_current(listing, s, title);
            let ghost d1 = *listing;
            proof {
                let e = section_end(&d0, s as int);
                lemma_end_at_most(&d0, s as int, s as int + 1);
            }
            cleanup_empty_sections(listing, s, today);
            proof {
                assert(removed_from(&d0, &d1, s as int, title@));
                assert(forall|s2: int|
                    #[trigger] first_heading_named(&d0, 0, n as int, s2, "Current discussions"@)
                        ==> s2 == s);
            }
            Ok(found)
        },
    }
}

/// A title of a discussion listed on the central page: a subpage of the
/// deletion page, but not its front matter.
pub open spec fn is_discussion_title(t: Seq<char>) -> bool {
    has_prefix(t, "Wikipedia:Miscellany for deletion"@) && t
        != "Wikipedia:Miscellany for deletion/Front matter"@
}

/// The title of the discussion that a node of this kind transcludes, if any.
pub open spec fn discussion_of(kind: NodeKind) -> Option<Seq<char>> {
    match kind {
        NodeKind::Element { transclusion: Some(t), .. } => if is_discussion_title(t@) {
            Some(t@)
        } else {
            None
        },
        _ => None,
    }
}

/// The titles of the discussions that the nodes of `s` transclude, in order.
pub open spec fn listed_titles(doc: &Document, s: Seq<usize>) -> Seq<Seq<char>>
    decreases s.len(),
{
    if s.len() == 0 {
        Seq::empty()
    } else {
        let rest = listed_titles(doc, s.drop_last());
        let j = s.last();
        if j < doc.nodes@.len() && discussion_of(doc.kind(j as int)) is Some {
            rest.push(discussion_of(doc.kind(j as int)).unwrap())
        } else {
            rest
        }
    }
}

/// The discussions that the page transcludes, from the last one listed to
/// the first, so that the oldest come first.
pub fn get_listed_mfds(doc: &Document) -> (r: Vec<String>)
    requires
        doc.wf(),
    ensures
        ({
            let l = listed_titles(doc, doc.preorder(doc.root as int));
            &&& r@.len() == l.len()
            &&& forall|i: int| 0 <= i < l.len() ==> #[trigger] r@[i]@ == l[l.len() - 1 - i]
        }),
{
    let mut all: Vec<usize> = Vec::new();
    doc.append_preorder(doc.root, &mut all);
    assert(all@ =~= doc.preorder(doc.root as int));
    let prefix = "Wikipedia:Miscellany for deletion";
    let front = String::from_str("Wikipedia:Miscellany for deletion/Front matter");
    let mut found: Vec<String> = Vec::new();
    let mut k: usize = 0;
    while k < all.len()
        invariant
            doc.wf(),
            all@ == doc.preorder(doc.root as int),
            front@ == "Wikipedia:Miscellany for deletion/Front matter"@,
            prefix@ == "Wikipedia:Miscellany for deletion"@,
            k <= all.len(),
            found@.len() == listed_titles(doc, all@.take(k as int)).len(),
            forall|i: int|
                0 <= i < found@.len() ==> #[trigger] found@[i]@ == listed_titles(
                    doc,
                    all@.take(k as int),
                )[i],
        decreases all.len() - k,
    {
        let j = all[k];
        assert(all@.take(k as int + 1).drop_last() =~= all@.take(k as int));
        assert(all@.take(k as int + 1).last() == j);
        if j < doc.nodes.len() {
            if let NodeKind::Element { transclusion: Some(t), .. } = &doc.nodes[j].kind {
                if starts_with(t.as_str(), prefix) && !(*t == front) {
                    found.push(t.clone());
                }
            }
        }
        k += 1;
    }
    assert(all@.take(all@.len() as int) =~= all@);
    let ghost l = listed_titles(doc, all@);
    let mut r: Vec<String> = Vec::new();
    let mut i: usize = found.len();
    while i > 0
        invariant
            i <= found@.len(),
            found@.len() == l.len(),
            forall|m: int| 0 <= m < found@.len() ==> #[trigger] found@[m]@ == l[m],
            r@.len() == l.len() - i,
            forall|m: int| 0 <= m < r@.len() ==> #[trigger] r@[m]@ == l[l.len() - 1 - m],
        decreases i,
    {
        i -= 1;
        r.push(found[i].clone());
    }
    r
}

/// Cleans up (see `cleaned`) the first section whose heading reads
/// `heading`, and says whether there is one; without one, nothing changes.
pub fn cleanup_region(listing: &mut Document, heading: &String, today: &String) -> (r: bool)
    requires
        old(listing).wf(),
    ensures
        r == !no_heading_named(old(listing), 0, old(listing).top().len() as int, heading@),
        !r ==> *final(listing) == *old(listing),
        r ==> forall|s: int|
            #[trigger] first_heading_named(
                old(listing),
                0,
                old(listing).top().len() as int,
                s,
                heading@,
            ) ==> cleaned(old(listing), final(listing), s, today@),
{
    let ghost d0 = *listing;
    let n = listing.nodes[listing.root].children.len();
    match find_heading_in(listing, 0, n, heading) {
        None => false,
        Some(s) => {
            assert(heading_named(&d0, s as int, heading@));
            cleanup_empty_sections(listing, s, today);
            assert(forall|s2: int|
                #[trigger] first_heading_named(&d0, 0, n as int, s2, heading@) ==> s2 == s);
            true
        },
    }
}

/// Where the section holds neither a reference to `title` nor a day
/// heading for the date, the new day heading and the reference go right
/// before the section's first day heading, whatever its date.
pub proof fn lemma_new_day_before_first(
    d0: &Document,
    d1: &Document,
    s: int,
    header: Seq<char>,
    title: Seq<char>,
    f: int,
)
    requires
        old_business_added(d0, d1, s, header, title),
        !has_ref(d0, s + 1, section_end(d0, s), title),
        forall|q: int| s < q < section_end(d0, s) ==> !day_named(d0, q, header),
        first_day(d0, s + 1, section_end(d0, s), f),
    ensures
        d1.top() == d0.top().insert(f, d0.nodes@.len() as usize).insert(
            f + 1,
            (d0.nodes@.len() + 2) as usize,
        ),
        new_day_heading(d1, d0.nodes@.len() as int, header),
        new_transclusion(d1, d0.nodes@.len() as int + 2, title),
{
    let e = section_end(d0, s);
    assert(!exists|p: int| #[trigger] first_day_named(d0, s + 1, e, p, header));
    assert forall|f2: int| #[trigger] first_day(d0, s + 1, e, f2) implies f2 == f by {
        if f2 < f {
            assert(level_at(d0, f2) == 3);
        } else if f < f2 {
            assert(level_at(d0, f) == 3);
        }
    }
}

/// Applies the state of the discussion `title` to the listing: an aging
/// discussion that "Old business" does not hold yet moves there, under the
/// day heading `header` (see `moved_into`), and leaves "Current discussions"
/// (see `moved_out`); in any other case nothing changes. Says whether it
/// moved. Fails where a region's heading is missing: without "Old business"
/// nothing changes; without "Current discussions" the move into "Old
/// business" stands.
pub fn apply_lifecycle(
    listing: &mut Document,
    state: Lifecycle,
    header: &String,
    title: &String,
    today: &String,
) -> (r: Result<bool, StructureError>)
    requires
        old(listing).wf(),
        old(listing).nodes@.len() + 10 < usize::MAX,
        old(listing).top().len() + 10 < usize::MAX,
    ensures
        final(listing).wf(),
        !(state == Lifecycle::Aging && !listed_under(old(listing), "Old business"@, title@)) ==> r
            == Ok::<bool, StructureError>(false) && *final(listing) == *old(listing),
        state == Lifecycle::Aging && !listed_under(old(listing), "Old business"@, title@) ==> (
        match r {
            Ok(moved) => moved && !no_heading_named(
                old(listing),
                0,
                old(listing).top().len() as int,
                "Old business"@,
            ) && exists|d1: Document|
                #[trigger] moved_into(old(listing), &d1, header@, title@, today@)
                    && !no_heading_named(&d1, 0, d1.top().len() as int, "Current discussions"@)
                    && moved_out(&d1, final(listing), title@, today@),
            Err(StructureError::MissingHeading(h)) => (h@ == "Old business"@ && no_heading_named(
                old(listing),
                0,
                old(listing).top().len() as int,
                "Old business"@,
            ) && *final(listing) == *old(listing)) || (h@ == "Current discussions"@
                && moved_into(old(listing), final(listing), header@, title@, today@)
                && no_heading_named(
                final(listing),
                0,
                final(listing).top().len() as int,
                "Current discussions"@,
            )),
        }),
{
    match state {
        Lifecycle::Aging => {},
        _ => {
            return Ok(false);
        },
    }
    if is_in_old_business(listing, title) {
        return Ok(false);
    }
    let ghost d0 = *listing;
    match move_into_old_business(listing, header, title, today) {
        Err(e) => {
            return Err(e);
        },
        Ok(()) => {},
    }
    let ghost d1 = *listing;
    match move_out_of_current(listing, title, today) {
        Err(e) => Err(e),
        Ok(_) => {
            assert(moved_into(&d0, &d1, header@, title@, today@));
            Ok(true)
        },
    }
}

/// `new` is `old` with every reference to `title` detached (see
/// `remove_transclusions`).
pub open spec fn refs_removed(old: &Document, new: &Document, title: Seq<char>) -> bool {
    &&& new.wf()
    &&& new.root == old.root
    &&& new.nodes@.len() == old.nodes@.len()
    &&& forall|j: int|
        #![trigger new.kind(j)]
        #![trigger new.kids(j)]
        0 <= j < old.nodes@.len() ==> new.kind(j) == old.kind(j) && new.kids(j) == without_refs(
            old,
            old.kids(j),
            title,
        )
    &&& forall|p: int, k: int|
        0 <= p < new.nodes@.len() && 0 <= k < new.kids(p).len() ==> !transcludes(
            new.kind(#[trigger] new.kids(p)[k] as int),
            title,
        )
}

/// Archives the discussion `title`: adds its entry (with `result`, where
/// there is one) under the day heading `header` of the archive page (see
/// `add_to_archive`), then detaches every reference to it from the listing.
/// Where the archive page has no such heading, neither document changes.
pub fn archive_discussion(
    archive: &mut Document,
    listing: &mut Document,
    header: &String,
    title: &String,
    result: &Option<String>,
) -> (r: Result<(), StructureError>)
    requires
        old(archive).wf(),
        old(listing).wf(),
        old(archive).nodes@.len() + 10 < usize::MAX,
    ensures
        r is Err <==> no_heading_named(old(archive), 0, old(archive).top().len() as int, header@),
        r matches Err(StructureError::MissingHeading(h)) ==> h@ == header@ && *final(archive)
            == *old(archive) && *final(listing) == *old(listing),
        r is Ok ==> (forall|s: int|
            #[trigger] first_heading_named(old(archive), 0, old(archive).top().len() as int, s, header@)
                ==> archived_under(old(archive), final(archive), s, title@, opt_view(*result)))
            && refs_removed(old(listing), final(listing), title@),
{
    match add_to_archive(archive, header, title, result) {
        Err(e) => Err(e),
        Ok(()) => {
            remove_transclusions(listing, title);
            Ok(())
        },
    }
}

/// The positions among `[j, e)` whose nodes a cleanup keeps (see
/// `kept_from`).
pub open spec fn kept_pos(doc: &Document, j: int, e: int, today: Seq<char>) -> Seq<int>
    decreases doc.top().len() - j,
{
    if j >= e || j >= doc.top().len() || j < 0 {
        Seq::empty()
    } else if removable(doc, j, today) && j < section_end(doc, j) <= doc.top().len() {
        kept_pos(doc, section_end(doc, j), e, today)
    } else {
        seq![j] + kept_pos(doc, j + 1, e, today)
    }
}

/// `kept_from` holds the nodes at the positions of `kept_pos`, none of which
/// is removable, and the scan from any kept position is the rest of the scan.
proof fn lemma_kept_pos(doc: &Document, j: int, e: int, today: Seq<char>)
    ensures
        kept_from(doc, j, e, today).len() == kept_pos(doc, j, e, today).len(),
        forall|i: int|
            #![trigger kept_pos(doc, j, e, today)[i]]
            0 <= i < kept_pos(doc, j, e, today).len() ==> {
                let m = kept_pos(doc, j, e, today)[i];
                &&& j <= m < e
                &&& m < doc.top().len()
                &&& kept_from(doc, j, e, today)[i] == doc.top()[m]
                &&& !removable(doc, m, today)
                &&& kept_pos(doc, j, e, today).skip(i) == kept_pos(doc, m, e, today)
            },
    decreases doc.top().len() - j,
{
    if j >= e || j >= doc.top().len() || j < 0 {
    } else if removable(doc, j, today) && j < section_end(doc, j) <= doc.top().len() {
        lemma_kept_pos(doc, section_end(doc, j), e, today);
    } else {
        lemma_kept_pos(doc, j + 1, e, today);
        lemma_end_at_least(doc, j, j + 1);
        lemma_end_at_most(doc, j, j + 1);
        let p = kept_pos(doc, j, e, today);
        let rest = kept_pos(doc, j + 1, e, today);
        assert(p.skip(0) =~= p);
        assert forall|i: int| 1 <= i < p.len() implies p.skip(i) =~= rest.skip(i - 1) by {}
    }
}

/// Positions `[j, k)` that hold no day heading are all kept, one by one.
proof fn lemma_kept_run(doc: &Document, j: int, k: int, e: int, today: Seq<char>)
    requires
        0 <= j <= k <= e,
        k <= doc.top().len(),
        forall|q: int| j <= q < k ==> level_at(doc, q) != 3,
    ensures
        kept_pos(doc, j, e, today).len() >= k - j,
        forall|t: int| 0 <= t < k - j ==> #[trigger] kept_pos(doc, j, e, today)[t] == j + t,
        kept_pos(doc, j, e, today).skip(k - j) == kept_pos(doc, k, e, today),
    decreases k - j,
{
    if j < k {
        lemma_kept_run(doc, j + 1, k, e, today);
        let p = kept_pos(doc, j, e, today);
        let rest = kept_pos(doc, j + 1, e, today);
        assert(p =~= seq![j] + rest);
        assert(p.skip(k - j) =~= rest.skip(k - j - 1));
        assert forall|t: int| 0 <= t < k - j implies #[trigger] p[t] == j + t by {
            if t > 0 {
                assert(p[t] == rest[t - 1]);
            }
        }
    } else {
        assert(kept_pos(doc, j, e, today).skip(0) =~= kept_pos(doc, j, e, today));
    }
}

/// A scan that resumes at a heading of level 1 to 3 keeps, first, such a
/// heading, or nothing.
proof fn lemma_kept_after_closer(doc: &Document, k: int, e: int, today: Seq<char>)
    requires
        0 <= k < doc.top().len(),
        0 < level_at(doc, k) <= 3,
    ensures
        kept_pos(doc, k, e, today).len() > 0 ==> 0 < level_at(
            doc,
            kept_pos(doc, k, e, today)[0],
        ) <= 3,
    decreases doc.top().len() - k,
{
    if k >= e {
    } else if removable(doc, k, today) && k < section_end(doc, k) <= doc.top().len() {
        let n = section_end(doc, k);
        if n < doc.top().len() {
            lemma_end_not_open(doc, k, k + 1);
            lemma_kept_after_closer(doc, n, e, today);
        }
    }
}

/// A cleanup changes no node but the root, so each other node keeps its
/// kind and its text.
proof fn lemma_cleaned_frame(d0: &Document, d1: &Document, x: int)
    requires
        d0.wf(),
        unchanged_except(d0, d1, d0.root as int),
        d1.nodes@.len() == d0.nodes@.len(),
        d0.root < x < d0.nodes@.len(),
    ensures
        d1.kind(x) == d0.kind(x),
        d1.text_of(x) == d0.text_of(x),
{
    assert forall|j: int| x <= j < d0.nodes@.len() implies #[trigger] d1.kind(j) == d0.kind(j)
        && d1.kids(j) == d0.kids(j) by {}
    lemma_text_frame(d0, d1, x);
}

/// After a cleanup, no day-level sub-section of the section can go.
proof fn lemma_second_pass_keeps(
    d0: &Document,
    d1: &Document,
    s: int,
    today: Seq<char>,
    i: int,
)
    requires
        d0.wf(),
        0 <= s < d0.top().len(),
        0 < level_at(d0, s) < 3,
        cleaned(d0, d1, s, today),
        0 <= i < kept_from(d0, s + 1, section_end(d0, s), today).len(),
    ensures
        !removable(d1, s + 1 + i, today),
{
    let e0 = section_end(d0, s);
    let len0 = d0.top().len() as int;
    lemma_end_at_least(d0, s, s + 1);
    lemma_end_at_most(d0, s, s + 1);
    lemma_kept_pos(d0, s + 1, e0, today);
    let pos = kept_pos(d0, s + 1, e0, today);
    let kept = kept_from(d0, s + 1, e0, today);
    let root = d0.root as int;
    let m = pos[i];
    let p = s + 1 + i;
    assert(d1.top()[p] == kept[i]);
    assert(d1.top()[p] == d0.top()[m]);
    assert(root < d0.top()[m] < d0.nodes@.len());
    lemma_cleaned_frame(d0, d1, d0.top()[m] as int);
    if level_at(d0, m) == 3 {
        let big_e = section_end(d0, m);
        lemma_before_end(d0, s, s + 1, m);
        lemma_nested_end(d0, s, m);
        lemma_end_at_least(d0, m, m + 1);
        lemma_end_at_most(d0, m, m + 1);
        let c = big_e - m - 1;
        assert forall|q: int| m < q < big_e implies #[trigger] level_at(d0, q) != 3 by {
            lemma_before_end(d0, m, m + 1, q);
        }
        lemma_kept_run(d0, m + 1, big_e, e0, today);
        let run = kept_pos(d0, m + 1, e0, today);
        let from_m = kept_pos(d0, m, e0, today);
        assert(from_m =~= seq![m] + run);
        assert(pos.skip(i) == from_m);
        assert(pos.len() >= i + 1 + c) by {
            assert(pos.skip(i).len() == pos.len() - i);
        }
        assert forall|t: int| 0 <= t < c implies #[trigger] pos[i + 1 + t] == m + 1 + t by {
            assert(pos[i + 1 + t] == pos.skip(i)[1 + t]);
            assert(run[t] == m + 1 + t);
        }
        assert(pos.skip(i + 1 + c) =~= kept_pos(d0, big_e, e0, today)) by {
            assert(pos.skip(i + 1 + c) =~= from_m.skip(1 + c));
            assert(from_m.skip(1 + c) =~= run.skip(c));
        }
        // The nodes of the sub-section follow its heading in the new document.
        assert forall|t: int| 0 <= t < c implies #[trigger] d1.top()[p + 1 + t] == d0.top()[m + 1 + t]
            && level_at(d1, p + 1 + t) == level_at(d0, m + 1 + t) && (empty_at(d1, p + 1 + t)
            == empty_at(d0, m + 1 + t)) by {
            assert(pos[i + 1 + t] == m + 1 + t);
            assert(d1.top()[p + 1 + t] == kept[i + 1 + t]);
            assert(root < d0.top()[m + 1 + t] < d0.nodes@.len());
            lemma_cleaned_frame(d0, d1, d0.top()[m + 1 + t] as int);
        }
        assert forall|q: int| p < q <= p + c implies !#[trigger] closes(d1, p, q) by {
            let t = q - p - 1;
            assert(level_at(d1, p + 1 + t) == level_at(d0, m + 1 + t));
            assert(level_at(d0, m + 1 + t) != 3);
            lemma_before_end(d0, m, m + 1, m + 1 + t);
        }
        // The sub-section ends where it ended before.
        let after = p + c + 1;
        if i + 1 + c < kept.len() {
            let k = pos[i + 1 + c];
            assert(k == kept_pos(d0, big_e, e0, today)[0]);
            assert(big_e < len0);
            lemma_end_not_open(d0, m, m + 1);
            lemma_kept_after_closer(d0, big_e, e0, today);
            assert(d1.top()[after] == kept[i + 1 + c]);
            assert(root < d0.top()[k] < d0.nodes@.len());
            lemma_cleaned_frame(d0, d1, d0.top()[k] as int);
            assert(closes(d1, p, after));
            lemma_end_before_closer(d1, p, p + 1, after);
        } else if e0 < len0 {
            assert(kept.len() == i + 1 + c);
            lemma_end_not_open(d0, s, s + 1);
            assert(d1.top()[after] == d0.top()[e0]);
            assert(root < d0.top()[e0] < d0.nodes@.len());
            lemma_cleaned_frame(d0, d1, d0.top()[e0] as int);
            assert(closes(d1, p, after));
            lemma_end_before_closer(d1, p, p + 1, after);
        } else {
            assert(d1.top().len() == after);
            lemma_end_at_most(d1, p, p + 1);
        }
        if c > 0 {
            lemma_end_beyond(d1, p, p + 1, p + c);
        } else {
            lemma_end_at_least(d1, p, p + 1);
        }
        assert(section_end(d1, p) == after);
        if removable(d1, p, today) {
            assert forall|q: int| m < q < big_e implies #[trigger] empty_at(d0, q) by {
                let t = q - m - 1;
                assert(empty_at(d1, p + 1 + t));
            }
            assert(removable(d0, m, today));
        }
    }
}

/// Cleaning a section twice on the same day leaves it as cleaning it once:
/// a second cleanup removes nothing. This holds for a region whose heading
/// is of a higher rank than day headings (level 1 or 2).
pub proof fn lemma_cleanup_idempotent(
    d0: &Document,
    d1: &Document,
    d2: &Document,
    s: int,
    today: Seq<char>,
)
    requires
        d0.wf(),
        0 <= s < d0.top().len(),
        0 < level_at(d0, s) < 3,
        cleaned(d0, d1, s, today),
        cleaned(d1, d2, s, today),
    ensures
        d2.top() == d1.top(),
{
    let e0 = section_end(d0, s);
    let len0 = d0.top().len() as int;
    lemma_end_at_least(d0, s, s + 1);
    lemma_end_at_most(d0, s, s + 1);
    let kept = kept_from(d0, s + 1, e0, today);
    let stop = s + 1 + kept.len();
    let e1 = section_end(d1, s);
    assert(d1.top()[s] == d0.top()[s]);
    assert(d0.root < d0.top()[s] < d0.nodes@.len());
    lemma_cleaned_frame(d0, d1, d0.top()[s] as int);
    lemma_end_at_least(d1, s, s + 1);
    lemma_end_at_most(d1, s, s + 1);
    if e0 < len0 {
        lemma_end_not_open(d0, s, s + 1);
        assert(d1.top()[stop] == d0.top()[e0]);
        assert(d0.root < d0.top()[e0] < d0.nodes@.len());
        lemma_cleaned_frame(d0, d1, d0.top()[e0] as int);
        lemma_end_before_closer(d1, s, s + 1, stop);
    }
    assert(e1 <= stop);
    assert forall|p: int| s + 1 <= p < e1 implies !#[trigger] removable(d1, p, today) by {
        lemma_second_pass_keeps(d0, d1, s, today, p - s - 1);
    }
    lemma_kept_none(d1, s + 1, e1, today);
    assert(d2.top() =~= d1.top());
}

/// Where no position among `[j, e)` can go, a cleanup keeps them all.
proof fn lemma_kept_none(doc: &Document, j: int, e: int, today: Seq<char>)
    requires
        0 <= j <= e <= doc.top().len(),
        forall|p: int| j <= p < e ==> !removable(doc, p, today),
    ensures
        kept_from(doc, j, e, today) == doc.top().subrange(j, e),
    decreases e - j,
{
    if j < e {
        lemma_kept_none(doc, j + 1, e, today);
        assert(kept_from(doc, j, e, today) =~= doc.top().subrange(j, e));
    } else {
        assert(kept_from(doc, j, e, today) =~= doc.top().subrange(j, e));
    }
}

} // verus!
