//! A document tree held in an arena: nodes live in one table and refer to
//! their children by index. A detached node stays in the table but is no
//! longer reachable from the root.
use vstd::prelude::*;

verus! {

/// The tag of an element, by what the archiving logic reads of it.
pub enum Tag {
    /// `h1` to `h6`, with the level.
    Heading(u8),
    /// `ul`, a bullet list.
    List,
    /// `li`, an item of a list.
    Item,
    /// `b`, bold text.
    Bold,
    /// `a`, a link.
    Link,
    /// Any other tag, by name.
    Other(String),
}

pub enum NodeKind {
    /// An element; `transclusion` holds the title of the page that it
    /// transcludes, where it stands for a template.
    Element { tag: Tag, attrs: Vec<(String, String)>, transclusion: Option<String> },
    Text(String),
    Comment(String),
}

pub struct Node {
    pub kind: NodeKind,
    pub children: Vec<usize>,
}

pub struct Document {
    pub nodes: Vec<Node>,
    pub root: usize,
}

/// The heading level of a node kind, or 0 where it is no heading.
pub open spec fn level_of(kind: NodeKind) -> int {
    match kind {
        NodeKind::Element { tag: Tag::Heading(l), .. } => l as int,
        _ => 0,
    }
}

/// Whether a node kind is an element with a tag of the given shape.
pub open spec fn is_list(kind: NodeKind) -> bool {
    kind matches NodeKind::Element { tag: Tag::List, .. }
}

pub open spec fn is_bold(kind: NodeKind) -> bool {
    kind matches NodeKind::Element { tag: Tag::Bold, .. }
}

/// Whether a node kind transcludes some page.
pub open spec fn is_transclusion(kind: NodeKind) -> bool {
    kind matches NodeKind::Element { transclusion: Some(_), .. }
}

/// Whether a node kind transcludes the page `title`.
pub open spec fn transcludes(kind: NodeKind, title: Seq<char>) -> bool {
    match kind {
        NodeKind::Element { transclusion: Some(t), .. } => t@ == title,
        _ => false,
    }
}

impl Document {
    pub open spec fn kind(&self, i: int) -> NodeKind {
        self.nodes@[i].kind
    }

    pub open spec fn kids(&self, i: int) -> Seq<usize> {
        self.nodes@[i].children@
    }

    /// The root's children: the top level of the document, where its
    /// sections are.
    pub open spec fn top(&self) -> Seq<usize> {
        self.kids(self.root as int)
    }

    /// Well-formed: the root is a node, and every child has a larger index
    /// than its parent, so that the nodes under any node form a tree.
    pub open spec fn wf(&self) -> bool {
        &&& self.root < self.nodes@.len()
        &&& forall|i: int, k: int|
            0 <= i < self.nodes@.len() && 0 <= k < self.kids(i).len() ==> i < #[trigger] self.kids(
                i,
            )[k] < self.nodes@.len()
    }

    /// The text of node `i`: its own text, or that of its descendants in
    /// document order. Comments hold none.
    pub open spec fn text_of(&self, i: int) -> Seq<char>
        decreases self.nodes@.len() - i, self.kids(i).len() + 1,
    {
        if 0 <= i < self.nodes@.len() {
            match self.kind(i) {
                NodeKind::Text(t) => t@,
                NodeKind::Comment(_) => Seq::empty(),
                NodeKind::Element { .. } => self.text_upto(i, self.kids(i).len() as int),
            }
        } else {
            Seq::empty()
        }
    }

    /// The text of the first `k` children of node `i`.
    pub open spec fn text_upto(&self, i: int, k: int) -> Seq<char>
        decreases self.nodes@.len() - i, k,
    {
        if 0 <= i < self.nodes@.len() && 0 < k <= self.kids(i).len() {
            let c = self.kids(i)[k - 1] as int;
            self.text_upto(i, k - 1) + if i < c < self.nodes@.len() {
                self.text_of(c)
            } else {
                Seq::empty()
            }
        } else {
            Seq::empty()
        }
    }

    /// Node `i` and all nodes under it, in document order.
    pub open spec fn preorder(&self, i: int) -> Seq<usize>
        decreases self.nodes@.len() - i, self.kids(i).len() + 1,
    {
        if 0 <= i < self.nodes@.len() {
            seq![i as usize] + self.preorder_upto(i, self.kids(i).len() as int)
        } else {
            Seq::empty()
        }
    }

    /// The nodes under the first `k` children of node `i`, in document order.
    pub open spec fn preorder_upto(&self, i: int, k: int) -> Seq<usize>
        decreases self.nodes@.len() - i, k,
    {
        if 0 <= i < self.nodes@.len() && 0 < k <= self.kids(i).len() {
            let c = self.kids(i)[k - 1] as int;
            self.preorder_upto(i, k - 1) + if i < c < self.nodes@.len() {
                self.preorder(c)
            } else {
                Seq::empty()
            }
        } else {
            Seq::empty()
        }
    }

    /// The bold elements among `s`, in order.
    pub open spec fn bold_among(&self, s: Seq<usize>) -> Seq<usize>
        decreases s.len(),
    {
        if s.len() == 0 {
            s
        } else {
            let rest = self.bold_among(s.drop_last());
            if s.last() < self.nodes@.len() && is_bold(self.kind(s.last() as int)) {
                rest.push(s.last())
            } else {
                rest
            }
        }
    }

    /// The bold elements among `s` are nodes of the document.
    pub proof fn lemma_bold_in_range(&self, s: Seq<usize>)
        ensures
            forall|i: int|
                0 <= i < self.bold_among(s).len() ==> #[trigger] self.bold_among(s)[i]
                    < self.nodes@.len(),
        decreases s.len(),
    {
        if s.len() > 0 {
            self.lemma_bold_in_range(s.drop_last());
            let rest = self.bold_among(s.drop_last());
            assert forall|i: int| 0 <= i < self.bold_among(s).len() implies #[trigger] self.bold_among(
                s,
            )[i] < self.nodes@.len() by {
                if i < rest.len() {
                    assert(self.bold_among(s)[i] == rest[i]);
                }
            }
        }
    }

    /// `self` and `other` differ at most in the children of `p`.
    pub open spec fn same_except_kids(&self, other: &Document, p: int) -> bool {
        &&& self.root == other.root
        &&& self.nodes@.len() == other.nodes@.len()
        &&& forall|j: int| 0 <= j < self.nodes@.len() ==> #[trigger] self.kind(j) == other.kind(j)
        &&& forall|j: int| 0 <= j < self.nodes@.len() && j != p ==> #[trigger] self.kids(j) == other.kids(j)
    }

    /// `self` is `other` with one more node at the end: `kind`, without
    /// children.
    pub open spec fn extends_by(&self, other: &Document, kind: NodeKind) -> bool {
        &&& self.root == other.root
        &&& self.nodes@.len() == other.nodes@.len() + 1
        &&& forall|j: int| 0 <= j < other.nodes@.len() ==> #[trigger] self.nodes@[j] == other.nodes@[j]
        &&& self.kind(other.nodes@.len() as int) == kind
        &&& self.kids(other.nodes@.len() as int) == Seq::<usize>::empty()
    }

    /// A document of one node, the root.
    pub fn new(root: NodeKind) -> (r: Document)
        ensures
            r.wf(),
            r.root == 0,
            r.nodes@.len() == 1,
            r.kind(0) == root,
            r.kids(0) == Seq::<usize>::empty(),
    {
        let mut nodes: Vec<Node> = Vec::new();
        nodes.push(Node { kind: root, children: Vec::new() });
        Document { nodes, root: 0 }
    }

    /// Adds a detached node without children and returns its index.
    pub fn add_node(&mut self, kind: NodeKind) -> (r: usize)
        requires
            old(self).wf(),
            old(self).nodes@.len() < usize::MAX,
        ensures
            final(self).wf(),
            final(self).extends_by(old(self), kind),
            r == old(self).nodes@.len(),
    {
        let r = self.nodes.len();
        self.nodes.push(Node { kind, children: Vec::new() });
        proof {
            assert forall|i: int, k: int|
                0 <= i < self.nodes@.len() && 0 <= k < self.kids(i).len() implies i
                < #[trigger] self.kids(i)[k] < self.nodes@.len() by {
                if i < r {
                    assert(self.kids(i) == old(self).kids(i));
                }
            }
        }
        r
    }

    /// Makes `child` the child of `parent` at position `pos`.
    pub fn insert_child(&mut self, parent: usize, pos: usize, child: usize)
        requires
            old(self).wf(),
            parent < child < old(self).nodes@.len(),
            pos <= old(self).kids(parent as int).len(),
        ensures
            final(self).wf(),
            final(self).same_except_kids(old(self), parent as int),
            final(self).kids(parent as int) == old(self).kids(parent as int).insert(
                pos as int,
                child,
            ),
    {
        self.nodes[parent].children.insert(pos, child);
        proof {
            assert forall|i: int, k: int|
                0 <= i < self.nodes@.len() && 0 <= k < self.kids(i).len() implies i
                < #[trigger] self.kids(i)[k] < self.nodes@.len() by {
                if i == parent {
                    if k < pos {
                        assert(self.kids(i)[k] == old(self).kids(i)[k]);
                    } else if k > pos {
                        assert(self.kids(i)[k] == old(self).kids(i)[k - 1]);
                    }
                } else {
                    assert(self.kids(i) == old(self).kids(i));
                }
            }
        }
    }

    /// Makes `child` the last child of `parent`.
    pub fn append_child(&mut self, parent: usize, child: usize)
        requires
            old(self).wf(),
            parent < child < old(self).nodes@.len(),
        ensures
            final(self).wf(),
            final(self).same_except_kids(old(self), parent as int),
            final(self).kids(parent as int) == old(self).kids(parent as int).push(child),
    {
        let pos = self.nodes[parent].children.len();
        self.insert_child(parent, pos, child);
        assert(self.kids(parent as int) =~= old(self).kids(parent as int).push(child));
    }

    /// Detaches the child of `parent` at position `pos`, with all that is
    /// under it.
    pub fn remove_child(&mut self, parent: usize, pos: usize)
        requires
            old(self).wf(),
            parent < old(self).nodes@.len(),
            pos < old(self).kids(parent as int).len(),
        ensures
            final(self).wf(),
            final(self).same_except_kids(old(self), parent as int),
            final(self).kids(parent as int) == old(self).kids(parent as int).remove(pos as int),
    {
        self.nodes[parent].children.remove(pos);
        proof {
            assert forall|i: int, k: int|
                0 <= i < self.nodes@.len() && 0 <= k < self.kids(i).len() implies i
                < #[trigger] self.kids(i)[k] < self.nodes@.len() by {
                if i == parent {
                    if k < pos {
                        assert(self.kids(i)[k] == old(self).kids(i)[k]);
                    } else {
                        assert(self.kids(i)[k] == old(self).kids(i)[k + 1]);
                    }
                } else {
                    assert(self.kids(i) == old(self).kids(i));
                }
            }
        }
    }

    /// Replaces the children of `parent` with `kids`.
    pub fn replace_children(&mut self, parent: usize, kids: Vec<usize>)
        requires
            old(self).wf(),
            parent < old(self).nodes@.len(),
            forall|k: int| 0 <= k < kids@.len() ==> parent < #[trigger] kids@[k] < old(self).nodes@.len(),
        ensures
            final(self).wf(),
            final(self).same_except_kids(old(self), parent as int),
            final(self).kids(parent as int) == kids@,
    {
        let ghost new_kids = kids@;
        self.nodes[parent].children = kids;
        proof {
            assert forall|i: int, k: int|
                0 <= i < self.nodes@.len() && 0 <= k < self.kids(i).len() implies i
                < #[trigger] self.kids(i)[k] < self.nodes@.len() by {
                if i != parent {
                    assert(self.kids(i) == old(self).kids(i));
                }
            }
        }
    }

    /// Appends the text of node `i` to `out`.
    pub fn append_text(&self, i: usize, out: &mut String)
        requires
            self.wf(),
            i < self.nodes@.len(),
        ensures
            final(out)@ == old(out)@ + self.text_of(i as int),
        decreases self.nodes@.len() - i,
    {
        match &self.nodes[i].kind {
            NodeKind::Text(t) => {
                out.append(t.as_str());
            },
            NodeKind::Comment(_) => {
                assert(self.text_of(i as int) == Seq::<char>::empty());
                assert(out@ =~= old(out)@ + self.text_of(i as int));
            },
            NodeKind::Element { .. } => {
                let kids = &self.nodes[i].children;
                let ghost start = out@;
                let mut k: usize = 0;
                assert(out@ =~= start + self.text_upto(i as int, 0));
                while k < kids.len()
                    invariant
                        self.wf(),
                        i < self.nodes@.len(),
                        kids@ == self.kids(i as int),
                        self.kind(i as int) is Element,
                        k <= kids.len(),
                        start == old(out)@,
                        out@ == start + self.text_upto(i as int, k as int),
                    decreases kids.len() - k,
                {
                    let c = kids[k];
                    assert(i < c < self.nodes@.len());
                    self.append_text(c, out);
                    k += 1;
                    assert(out@ =~= start + self.text_upto(i as int, k as int));
                }
            },
        }
    }

    /// The text of node `i`.
    pub fn text_contents(&self, i: usize) -> (r: String)
        requires
            self.wf(),
            i < self.nodes@.len(),
        ensures
            r@ == self.text_of(i as int),
    {
        let mut out = String::new();
        self.append_text(i, &mut out);
        assert(out@ =~= self.text_of(i as int));
        out
    }

    /// Appends node `i` and all nodes under it, in document order, to `out`.
    pub fn append_preorder(&self, i: usize, out: &mut Vec<usize>)
        requires
            self.wf(),
            i < self.nodes@.len(),
        ensures
            final(out)@ == old(out)@ + self.preorder(i as int),
        decreases self.nodes@.len() - i,
    {
        let ghost start = out@;
        out.push(i);
        let kids = &self.nodes[i].children;
        let mut k: usize = 0;
        assert(out@ =~= start + seq![i] + self.preorder_upto(i as int, 0));
        while k < kids.len()
            invariant
                self.wf(),
                i < self.nodes@.len(),
                kids@ == self.kids(i as int),
                k <= kids.len(),
                start == old(out)@,
                out@ == start + seq![i] + self.preorder_upto(i as int, k as int),
            decreases kids.len() - k,
        {
            let c = kids[k];
            assert(i < c < self.nodes@.len());
            self.append_preorder(c, out);
            k += 1;
            assert(out@ =~= start + seq![i] + self.preorder_upto(i as int, k as int));
        }
        assert(out@ =~= start + self.preorder(i as int));
    }

    /// The bold elements under node `i` (itself included), in document
    /// order.
    pub fn select_bold(&self, i: usize) -> (r: Vec<usize>)
        requires
            self.wf(),
            i < self.nodes@.len(),
        ensures
            r@ == self.bold_among(self.preorder(i as int)),
    {
        let mut all: Vec<usize> = Vec::new();
        self.append_preorder(i, &mut all);
        assert(all@ =~= self.preorder(i as int));
        let mut r: Vec<usize> = Vec::new();
        let mut k: usize = 0;
        while k < all.len()
            invariant
                self.wf(),
                all@ == self.preorder(i as int),
                k <= all.len(),
                r@ == self.bold_among(all@.take(k as int)),
            decreases all.len() - k,
        {
            let j = all[k];
            assert(all@.take(k as int + 1).drop_last() =~= all@.take(k as int));
            if j < self.nodes.len() {
                if let NodeKind::Element { tag: Tag::Bold, .. } = &self.nodes[j].kind {
                    r.push(j);
                }
            }
            k += 1;
        }
        assert(all@.take(all@.len() as int) =~= all@);
        r
    }
}

} // verus!
