//! References to pages (transclusions) anywhere under the top-level nodes of
//! a document.
//!
//! A reference is found through the edge that holds it: the pair of its
//! parent's index and its position among the parent's children. The edges
//! under a node are listed in document order, so the first reference in that
//! list is the first one in the document.
use vstd::prelude::*;
use crate::document::{transcludes, Document, NodeKind};

verus! {

/// The edges under node `i`, in document order: each child's edge, followed
/// by the edges under that child.
pub open spec fn edges(doc: &Document, i: int) -> Seq<(usize, usize)>
    decreases doc.nodes@.len() - i, doc.kids(i).len() + 1,
{
    if 0 <= i < doc.nodes@.len() {
        edges_upto(doc, i, doc.kids(i).len() as int)
    } else {
        Seq::empty()
    }
}

/// The edges under the first `k` children of node `i`, in document order.
pub open spec fn edges_upto(doc: &Document, i: int, k: int) -> Seq<(usize, usize)>
    decreases doc.nodes@.len() - i, k,
{
    if 0 <= i < doc.nodes@.len() && 0 < k <= doc.kids(i).len() {
        let c = doc.kids(i)[k - 1] as int;
        edges_upto(doc, i, k - 1) + seq![(i as usize, (k - 1) as usize)] + if i < c
            < doc.nodes@.len() {
            edges(doc, c)
        } else {
            Seq::empty()
        }
    } else {
        Seq::empty()
    }
}

/// The edges of the top-level nodes at positions `[from, to)` and the edges
/// under them, in document order.
pub open spec fn top_edges(doc: &Document, from: int, to: int) -> Seq<(usize, usize)>
    decreases to - from,
{
    if from < to <= doc.top().len() {
        let c = doc.top()[to - 1] as int;
        top_edges(doc, from, to - 1) + seq![(doc.root, (to - 1) as usize)] + if doc.root < c
            < doc.nodes@.len() {
            edges(doc, c)
        } else {
            Seq::empty()
        }
    } else {
        Seq::empty()
    }
}

/// The node that edge `e` leads to.
pub open spec fn child_at(doc: &Document, e: (usize, usize)) -> int {
    doc.kids(e.0 as int)[e.1 as int] as int
}

/// Edge `e` leads to a reference to `title`.
pub open spec fn refers(doc: &Document, e: (usize, usize), title: Seq<char>) -> bool {
    transcludes(doc.kind(child_at(doc, e)), title)
}

/// No edge of `es` leads to a reference to `title`.
pub open spec fn no_ref(doc: &Document, es: Seq<(usize, usize)>, title: Seq<char>) -> bool {
    forall|j: int| 0 <= j < es.len() ==> !#[trigger] refers(doc, es[j], title)
}

/// `e` is the first edge of `es` that leads to a reference to `title`.
pub open spec fn first_ref(
    doc: &Document,
    es: Seq<(usize, usize)>,
    title: Seq<char>,
    e: (usize, usize),
) -> bool {
    exists|idx: int|
        0 <= idx < es.len() && #[trigger] es[idx] == e && refers(doc, e, title) && no_ref(
            doc,
            es.take(idx),
            title,
        )
}

/// Some node under the top-level positions `[from, to)`, or one of those
/// nodes, refers to `title`.
pub open spec fn has_ref(doc: &Document, from: int, to: int, title: Seq<char>) -> bool {
    !no_ref(doc, top_edges(doc, from, to), title)
}

/// The first reference of a list stays the first of any list that extends it.
pub proof fn lemma_first_ref_prefix(
    doc: &Document,
    a: Seq<(usize, usize)>,
    c: Seq<(usize, usize)>,
    title: Seq<char>,
    e: (usize, usize),
)
    requires
        first_ref(doc, a, title, e),
        a.len() <= c.len(),
        c.take(a.len() as int) == a,
    ensures
        first_ref(doc, c, title, e),
{
    let idx = choose|idx: int|
        0 <= idx < a.len() && #[trigger] a[idx] == e && refers(doc, e, title) && no_ref(
            doc,
            a.take(idx),
            title,
        );
    assert(c[idx] == c.take(a.len() as int)[idx]);
    assert(c.take(idx) =~= a.take(idx));
}

/// Two first references of one list are the same edge.
pub proof fn lemma_first_ref_unique(
    doc: &Document,
    es: Seq<(usize, usize)>,
    title: Seq<char>,
    e1: (usize, usize),
    e2: (usize, usize),
)
    requires
        first_ref(doc, es, title, e1),
        first_ref(doc, es, title, e2),
    ensures
        e1 == e2,
{
    let i1 = choose|idx: int|
        0 <= idx < es.len() && #[trigger] es[idx] == e1 && refers(doc, e1, title) && no_ref(
            doc,
            es.take(idx),
            title,
        );
    let i2 = choose|idx: int|
        0 <= idx < es.len() && #[trigger] es[idx] == e2 && refers(doc, e2, title) && no_ref(
            doc,
            es.take(idx),
            title,
        );
    if i1 < i2 {
        assert(es.take(i2)[i1] == e1);
    } else if i2 < i1 {
        assert(es.take(i1)[i2] == e2);
    }
}

/// The edges under fewer children begin those under more.
proof fn lemma_upto_prefix(doc: &Document, i: int, m: int, n: int)
    requires
        0 <= i < doc.nodes@.len(),
        0 <= m <= n <= doc.kids(i).len(),
    ensures
        edges_upto(doc, i, m).len() <= edges_upto(doc, i, n).len(),
        edges_upto(doc, i, n).take(edges_upto(doc, i, m).len() as int) == edges_upto(doc, i, m),
    decreases n - m,
{
    if m < n {
        lemma_upto_prefix(doc, i, m, n - 1);
        if 0 <= i < doc.nodes@.len() && 0 < n <= doc.kids(i).len() {
            let a = edges_upto(doc, i, m);
            let b = edges_upto(doc, i, n - 1);
            assert(edges_upto(doc, i, n).take(b.len() as int) =~= b);
            assert(edges_upto(doc, i, n).take(a.len() as int) =~= b.take(a.len() as int));
        }
    } else {
        assert(edges_upto(doc, i, n).take(edges_upto(doc, i, n).len() as int) =~= edges_upto(
            doc,
            i,
            n,
        ));
    }
}

/// The top-level edges up to one position begin those up to a later one.
proof fn lemma_top_prefix(doc: &Document, from: int, m: int, n: int)
    requires
        from <= m <= n <= doc.top().len(),
    ensures
        top_edges(doc, from, m).len() <= top_edges(doc, from, n).len(),
        top_edges(doc, from, n).take(top_edges(doc, from, m).len() as int) == top_edges(
            doc,
            from,
            m,
        ),
    decreases n - m,
{
    if m < n {
        lemma_top_prefix(doc, from, m, n - 1);
        if from < n <= doc.top().len() {
            let a = top_edges(doc, from, m);
            let b = top_edges(doc, from, n - 1);
            assert(top_edges(doc, from, n).take(b.len() as int) =~= b);
            assert(top_edges(doc, from, n).take(a.len() as int) =~= b.take(a.len() as int));
        } else {
            assert(top_edges(doc, from, n - 1) == Seq::<(usize, usize)>::empty());
        }
    } else {
        assert(top_edges(doc, from, n).take(top_edges(doc, from, n).len() as int) =~= top_edges(
            doc,
            from,
            n,
        ));
    }
}

/// A top-level node that refers to `title` is found among the edges of its
/// positions.
pub proof fn lemma_top_ref(doc: &Document, from: int, to: int, q: int, title: Seq<char>)
    requires
        0 <= from <= q < to <= doc.top().len(),
        to <= usize::MAX,
        transcludes(doc.kind(doc.top()[q] as int), title),
    ensures
        has_ref(doc, from, to, title),
    decreases to - from,
{
    lemma_top_prefix(doc, from, q + 1, to);
    let es = top_edges(doc, from, q + 1);
    let j = top_edges(doc, from, q).len() as int;
    assert(es[j] == (doc.root, q as usize));
    assert(refers(doc, es[j], title));
    let all = top_edges(doc, from, to);
    assert(all[j] == all.take(es.len() as int)[j]);
}

/// Whether node `i` refers to `title`.
pub fn refers_to(doc: &Document, i: usize, title: &String) -> (r: bool)
    requires
        i < doc.nodes@.len(),
    ensures
        r == transcludes(doc.kind(i as int), title@),
{
    match &doc.nodes[i].kind {
        NodeKind::Element { transclusion: Some(t), .. } => *t == *title,
        _ => false,
    }
}

/// The first edge under node `i` that leads to a reference to `title`.
pub fn first_ref_under(doc: &Document, i: usize, title: &String) -> (r: Option<(usize, usize)>)
    requires
        doc.wf(),
        i < doc.nodes@.len(),
    ensures
        match r {
            Some(e) => i <= e.0 < doc.nodes@.len() && e.1 < doc.kids(e.0 as int).len()
                && first_ref(doc, edges(doc, i as int), title@, e),
            None => no_ref(doc, edges(doc, i as int), title@),
        },
    decreases doc.nodes@.len() - i,
{
    let kids = &doc.nodes[i].children;
    let n = kids.len();
    let mut k: usize = 0;
    while k < n
        invariant
            doc.wf(),
            i < doc.nodes@.len(),
            kids@ == doc.kids(i as int),
            n == kids@.len(),
            k <= n,
            no_ref(doc, edges_upto(doc, i as int, k as int), title@),
        decreases n - k,
    {
        let c = kids[k];
        assert(i < c < doc.nodes@.len());
        let ghost before = edges_upto(doc, i as int, k as int);
        let ghost upto = edges_upto(doc, i as int, k as int + 1);
        assert(upto == before + seq![(i, k)] + edges(doc, c as int));
        if refers_to(doc, c, title) {
            proof {
                assert(upto[before.len() as int] == (i, k));
                assert(upto.take(before.len() as int) =~= before);
                assert(refers(doc, (i, k), title@));
                assert(first_ref(doc, upto, title@, (i, k)));
                lemma_upto_prefix(doc, i as int, k as int + 1, n as int);
                lemma_first_ref_prefix(doc, upto, edges(doc, i as int), title@, (i, k));
            }
            return Some((i, k));
        }
        match first_ref_under(doc, c, title) {
            Some(e) => {
                proof {
                    let sub = edges(doc, c as int);
                    let idx = choose|idx: int|
                        0 <= idx < sub.len() && #[trigger] sub[idx] == e && refers(doc, e, title@)
                            && no_ref(doc, sub.take(idx), title@);
                    let j = before.len() + 1 + idx;
                    assert(upto[j] == e);
                    assert forall|m: int| 0 <= m < upto.take(j).len() implies !#[trigger] refers(
                        doc,
                        upto.take(j)[m],
                        title@,
                    ) by {
                        if m < before.len() {
                            assert(upto.take(j)[m] == before[m]);
                        } else if m == before.len() {
                            assert(upto.take(j)[m] == (i, k));
                        } else {
                            assert(upto.take(j)[m] == sub.take(idx)[m - before.len() - 1]);
                        }
                    }
                    assert(first_ref(doc, upto, title@, e));
                    lemma_upto_prefix(doc, i as int, k as int + 1, n as int);
                    lemma_first_ref_prefix(doc, upto, edges(doc, i as int), title@, e);
                }
                return Some(e);
            },
            None => {},
        }
        proof {
            assert forall|m: int| 0 <= m < upto.len() implies !#[trigger] refers(
                doc,
                upto[m],
                title@,
            ) by {
                if m < before.len() {
                    assert(upto[m] == before[m]);
                } else if m == before.len() {
                    assert(upto[m] == (i, k));
                } else {
                    assert(upto[m] == edges(doc, c as int)[m - before.len() - 1]);
                }
            }
        }
        k += 1;
    }
    None
}

/// The first edge among the top-level positions `[from, to)` and the nodes
/// under them that leads to a reference to `title`.
pub fn first_ref_in(doc: &Document, from: usize, to: usize, title: &String) -> (r: Option<
    (usize, usize),
>)
    requires
        doc.wf(),
        from <= to <= doc.top().len(),
    ensures
        match r {
            Some(e) => e.0 < doc.nodes@.len() && e.1 < doc.kids(e.0 as int).len() && (e.0
                == doc.root ==> from <= e.1 < to) && first_ref(
                doc,
                top_edges(doc, from as int, to as int),
                title@,
                e,
            ),
            None => no_ref(doc, top_edges(doc, from as int, to as int), title@),
        },
{
    let root = doc.root;
    let top = &doc.nodes[root].children;
    let mut q = from;
    while q < to
        invariant
            doc.wf(),
            root == doc.root,
            top@ == doc.top(),
            from <= q <= to <= top@.len(),
            no_ref(doc, top_edges(doc, from as int, q as int), title@),
        decreases to - q,
    {
        let c = top[q];
        assert(root < c < doc.nodes@.len());
        let ghost before = top_edges(doc, from as int, q as int);
        let ghost upto = top_edges(doc, from as int, q as int + 1);
        assert(upto == before + seq![(root, q)] + edges(doc, c as int));
        if refers_to(doc, c, title) {
            proof {
                assert(upto[before.len() as int] == (root, q));
                assert(upto.take(before.len() as int) =~= before);
                assert(refers(doc, (root, q), title@));
                assert(first_ref(doc, upto, title@, (root, q)));
                lemma_top_prefix(doc, from as int, q as int + 1, to as int);
                lemma_first_ref_prefix(
                    doc,
                    upto,
                    top_edges(doc, from as int, to as int),
                    title@,
                    (root, q),
                );
            }
            return Some((root, q));
        }
        match first_ref_under(doc, c, title) {
            Some(e) => {
                proof {
                    let sub = edges(doc, c as int);
                    let idx = choose|idx: int|
                        0 <= idx < sub.len() && #[trigger] sub[idx] == e && refers(doc, e, title@)
                            && no_ref(doc, sub.take(idx), title@);
                    let j = before.len() + 1 + idx;
                    assert(upto[j] == e);
                    assert forall|m: int| 0 <= m < upto.take(j).len() implies !#[trigger] refers(
                        doc,
                        upto.take(j)[m],
                        title@,
                    ) by {
                        if m < before.len() {
                            assert(upto.take(j)[m] == before[m]);
                        } else if m == before.len() {
                            assert(upto.take(j)[m] == (root, q));
                        } else {
                            assert(upto.take(j)[m] == sub.take(idx)[m - before.len() - 1]);
                        }
                    }
                    assert(first_ref(doc, upto, title@, e));
                    lemma_top_prefix(doc, from as int, q as int + 1, to as int);
                    lemma_first_ref_prefix(
                        doc,
                        upto,
                        top_edges(doc, from as int, to as int),
                        title@,
                        e,
                    );
                }
                return Some(e);
            },
            None => {},
        }
        proof {
            assert forall|m: int| 0 <= m < upto.len() implies !#[trigger] refers(
                doc,
                upto[m],
                title@,
            ) by {
                if m < before.len() {
                    assert(upto[m] == before[m]);
                } else if m == before.len() {
                    assert(upto[m] == (root, q));
                } else {
                    assert(upto[m] == edges(doc, c as int)[m - before.len() - 1]);
                }
            }
        }
        q += 1;
    }
    None
}

} // verus!
