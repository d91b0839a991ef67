//! The tree of links that a crawl builds: each node holds a link, an id, the
//! id of its parent and the nodes of the links found on its page.

use vstd::prelude::*;
use crate::text::{decimal, decimal_string, views};

verus! {

/// Hands out node ids: each new node takes the next one, starting at 0.
pub struct IdCounter {
    next: u32,
}

impl IdCounter {
    /// The id that the next node will take.
    pub closed spec fn next_id(&self) -> nat {
        self.next as nat
    }

    /// A counter whose first id is 0.
    pub fn new() -> (c: IdCounter)
        ensures
            c.next_id() == 0,
    {
        IdCounter { next: 0 }
    }

    /// The id that the next node will take.
    pub fn peek(&self) -> (r: u32)
        ensures
            r == self.next_id(),
    {
        self.next
    }
}

/// Two nodes created one after the other from one counter (`c0` before the
/// first, `c1` between, `c2` after) take consecutive ids, so different ones.
pub proof fn lemma_consecutive_ids(a: LinkTreeNode, b: LinkTreeNode, c0: IdCounter, c1: IdCounter, c2: IdCounter)
    requires
        a.id() == c0.next_id(),
        c1.next_id() == c0.next_id() + 1,
        b.id() == c1.next_id(),
        c2.next_id() == c1.next_id() + 1,
    ensures
        b.id() == a.id() + 1,
        a.id() != b.id(),
        c2.next_id() == a.id() + 2,
{
}

/// A node of the link tree.
#[derive(Debug)]
pub struct LinkTreeNode {
    id: u32,
    link: String,
    node_list: Vec<LinkTreeNode>,
    parent_id: u32,
}

impl LinkTreeNode {
    /// The node's id.
    pub closed spec fn id(&self) -> nat {
        self.id as nat
    }

    /// The node's link.
    pub closed spec fn link_text(&self) -> Seq<char> {
        self.link@
    }

    /// The node's children, in the order they were added.
    pub closed spec fn children(&self) -> Seq<LinkTreeNode> {
        self.node_list@
    }

    /// The id of the node's parent (0 until it is added to one).
    pub closed spec fn parent(&self) -> nat {
        self.parent_id as nat
    }

    /// This node with its parent id replaced.
    pub closed spec fn with_parent(self, parent_id: nat) -> LinkTreeNode {
        LinkTreeNode { parent_id: parent_id as u32, ..self }
    }

    /// What `with_parent` keeps and what it changes.
    pub proof fn lemma_with_parent(self, parent_id: nat)
        requires
            parent_id <= u32::MAX,
        ensures
            self.with_parent(parent_id).parent() == parent_id,
            self.with_parent(parent_id).id() == self.id(),
            self.with_parent(parent_id).link_text() == self.link_text(),
            self.with_parent(parent_id).children() == self.children(),
            self.with_parent(parent_id).well_linked() == self.well_linked(),
    {
    }

    /// The number of levels below this node: 0 for a leaf.
    pub closed spec fn height(self) -> nat
        decreases self,
    {
        if self.node_list@.len() == 0 {
            0
        } else {
            1 + Self::height_of_all(self.node_list@)
        }
    }

    /// The greatest height among `nodes`, 0 for none.
    pub closed spec fn height_of_all(nodes: Seq<LinkTreeNode>) -> nat
        decreases nodes,
    {
        if nodes.len() == 0 {
            0
        } else {
            let a = Self::height_of_all(nodes.drop_last());
            let b = nodes.last().height();
            if a < b { b } else { a }
        }
    }
}


impl LinkTreeNode {
    /// A node for `link` with no children and parent id 0; it takes the
    /// counter's next id, and the counter moves on by one.
    pub fn create(link: &String, ids: &mut IdCounter) -> (r: LinkTreeNode)
        requires
            old(ids).next_id() < u32::MAX,
        ensures
            r.id() == old(ids).next_id(),
            r.link_text() == link@,
            r.children() == Seq::<LinkTreeNode>::empty(),
            r.parent() == 0,
            r.well_linked(),
            r.unique_ids(),
            r.height() == 0,
            final(ids).next_id() == old(ids).next_id() + 1,
    {
        let id = ids.next;
        let result = LinkTreeNode { id, link: link.clone(), node_list: Vec::new(), parent_id: 0 };
        ids.next = id + 1;
        proof {
            result.lemma_leaf_has_id(0);
        }
        result
    }

    /// Makes `node` the last child of this node, with this node's id as its
    /// parent id.
    pub fn add_child(&mut self, node: LinkTreeNode)
        ensures
            final(self).id() == old(self).id(),
            final(self).link_text() == old(self).link_text(),
            final(self).parent() == old(self).parent(),
            final(self).children() == old(self).children().push(node.with_parent(old(self).id())),
            old(self).well_linked() && node.well_linked() ==> final(self).well_linked(),
            final(self).height() == if old(self).height() < node.height() + 1 { node.height() + 1 } else { old(self).height() },
            old(self).unique_ids() && node.unique_ids() && (forall|x: nat| !(#[trigger] old(self).has_id(x) && node.has_id(x)))
                ==> final(self).unique_ids(),
    {
        let mut node = node;
        node.set_parent_id(self.id);
        self.node_list.push(node);
        proof {
            if old(self).well_linked() && node.well_linked() {
                assert forall|i: int| 0 <= i < self.node_list@.len() implies {
                    &&& (#[trigger] self.node_list@[i]).parent_id == self.id
                    &&& self.node_list@[i].well_linked()
                } by {
                    if i < old(self).node_list@.len() {
                        assert(self.node_list@[i] == old(self).node_list@[i]);
                    }
                }
            }
            let n = old(self).node_list@.len();
            let added = self.node_list@[n as int];
            assert(self.node_list@.drop_last() =~= old(self).node_list@);
            assert(added.height() == node.height());
            assert(forall|x: nat| #[trigger] added.has_id(x) == node.has_id(x));
            if old(self).unique_ids() && node.unique_ids() && (forall|x: nat| !(#[trigger] old(self).has_id(x) && node.has_id(x))) {
                assert(old(self).has_id(old(self).id as nat));
                assert forall|i: int, x: nat| 0 <= i < n && (#[trigger] old(self).node_list@[i].has_id(x)) implies old(self).has_id(x) by {
                }
                assert forall|i: int| 0 <= i < self.node_list@.len() implies !(#[trigger] self.node_list@[i]).has_id(self.id as nat) by {
                    if i < n {
                        assert(self.node_list@[i] == old(self).node_list@[i]);
                    }
                }
                assert forall|i: int, j: int, x: nat| 0 <= i < j < self.node_list@.len() implies !((#[trigger] self.node_list@[i].has_id(x)) && (#[trigger] self.node_list@[j].has_id(x))) by {
                    assert(self.node_list@[i] == old(self).node_list@[i]);
                    if j < n {
                        assert(self.node_list@[j] == old(self).node_list@[j]);
                    } else if self.node_list@[i].has_id(x) {
                        assert(old(self).node_list@[i].has_id(x));
                        assert(old(self).has_id(x));
                    }
                }
                assert forall|i: int| 0 <= i < self.node_list@.len() implies (#[trigger] self.node_list@[i]).unique_ids() by {
                    if i < n {
                        assert(self.node_list@[i] == old(self).node_list@[i]);
                    }
                }
            }
        }
    }

    /// Sets the parent id; nothing else changes.
    pub fn set_parent_id(&mut self, parent_id: u32)
        ensures
            *final(self) == old(self).with_parent(parent_id as nat),
            final(self).parent() == parent_id,
            final(self).id() == old(self).id(),
            final(self).link_text() == old(self).link_text(),
            final(self).children() == old(self).children(),
    {
        self.parent_id = parent_id;
    }

    /// The node's link.
    pub fn link(&mut self) -> (r: &String)
        ensures
            r@ == old(self).link_text(),
            *final(self) == *old(self),
    {
        &self.link
    }

    /// The node's children, to be changed in place; the rest of the node
    /// stays as it is.
    pub fn node_list(&mut self) -> (r: &mut Vec<LinkTreeNode>)
        ensures
            r@ == old(self).children(),
            final(self).children() == final(r)@,
            final(self).id() == old(self).id(),
            final(self).link_text() == old(self).link_text(),
            final(self).parent() == old(self).parent(),
    {
        &mut self.node_list
    }
}


/// Spaces that `format!("{: <w$}", " ")` writes: `w` of them, at least one.
pub open spec fn indent(w: nat) -> Seq<char> {
    Seq::new(if w == 0 { 1 } else { w }, |i: int| ' ')
}

impl LinkTreeNode {
    /// Every child of every node in this tree carries its parent's id.
    pub closed spec fn well_linked(self) -> bool
        decreases self,
    {
        forall|i: int|
            0 <= i < self.node_list@.len() ==> {
                &&& (#[trigger] self.node_list@[i]).parent_id == self.id
                &&& self.node_list@[i].well_linked()
            }
    }

    /// The line that stands for this node alone, indented by `w`.
    pub closed spec fn line(self, w: nat) -> Seq<char> {
        indent(w) + self.link@ + "; id:"@ + decimal(self.id as nat) + "; parent_id:"@ + decimal(
            self.parent_id as nat,
        ) + ";\n"@
    }

    /// This node's line, then each child's text indented ten more.
    pub closed spec fn rendered(self, w: nat) -> Seq<char>
        decreases self,
    {
        self.line(w) + Self::rendered_all(self.node_list@, w + 10)
    }

    /// The texts of `nodes`, one after another, each indented by `w`.
    pub closed spec fn rendered_all(nodes: Seq<LinkTreeNode>, w: nat) -> Seq<char>
        decreases nodes,
    {
        if nodes.len() == 0 {
            Seq::empty()
        } else {
            Self::rendered_all(nodes.drop_last(), w) + nodes.last().rendered(w)
        }
    }
}


impl LinkTreeNode {
    proof fn lemma_child_height(nodes: Seq<LinkTreeNode>, i: int)
        requires
            0 <= i < nodes.len(),
        ensures
            nodes[i].height() <= Self::height_of_all(nodes),
        decreases nodes.len(),
    {
        if i < nodes.len() - 1 {
            Self::lemma_child_height(nodes.drop_last(), i);
        }
    }

    proof fn lemma_rendered_all_step(nodes: Seq<LinkTreeNode>, i: int, w: nat)
        requires
            0 <= i < nodes.len(),
        ensures
            Self::rendered_all(nodes.take(i + 1), w) == Self::rendered_all(nodes.take(i), w)
                + nodes[i].rendered(w),
    {
        assert(nodes.take(i + 1).drop_last() =~= nodes.take(i));
    }

    /// Appends this node's text, indented by `width`, to `out`.
    fn render_into(&self, width: usize, out: &mut String)
        requires
            width + 10 * self.height() <= usize::MAX,
        ensures
            final(out)@ == old(out)@ + self.rendered(width as nat),
        decreases self,
    {
        let pad: usize = if width == 0 {
            1
        } else {
            width
        };
        let ghost start = out@;
        let mut k: usize = 0;
        while k < pad
            invariant
                k <= pad,
                out@ =~= start + Seq::new(k as nat, |i: int| ' '),
            decreases pad - k,
        {
            crate::text::push_char(out, ' ');
            k = k + 1;
        }
        out.append(self.link.as_str());
        out.append("; id:");
        out.append(decimal_string(self.id as u64).as_str());
        out.append("; parent_id:");
        out.append(decimal_string(self.parent_id as u64).as_str());
        out.append(";\n");
        assert(out@ =~= start + self.line(width as nat));
        let ghost after_line = out@;
        let mut i: usize = 0;
        while i < self.node_list.len()
            invariant
                i <= self.node_list@.len(),
                width + 10 * self.height() <= usize::MAX,
                out@ == after_line + Self::rendered_all(self.node_list@.take(i as int), (width + 10) as nat),
            decreases self.node_list@.len() - i,
        {
            proof {
                Self::lemma_child_height(self.node_list@, i as int);
                Self::lemma_rendered_all_step(self.node_list@, i as int, (width + 10) as nat);
                assert(decreases_to!(self => self.node_list@[i as int]));
            }
            self.node_list[i].render_into(width + 10, out);
            i = i + 1;
        }
        assert(self.node_list@.take(self.node_list@.len() as int) =~= self.node_list@);
    }

    /// The text that this node's `Display` writes at width `width`: its line,
    /// then its children's texts, each indented ten more.
    pub fn render(&self, width: usize) -> (r: String)
        requires
            width + 10 * self.height() <= usize::MAX,
        ensures
            r@ == self.rendered(width as nat),
    {
        let mut out = String::new();
        self.render_into(width, &mut out);
        out
    }

    /// The text of `format!("{}", node)`: the tree, the root unindented.
    pub fn to_display_string(&self) -> (r: String)
        requires
            10 * self.height() <= usize::MAX,
        ensures
            r@ == self.rendered(0),
    {
        self.render(0)
    }
}


impl LinkTreeNode {
    /// Every id in this tree is below `bound`.
    pub closed spec fn ids_below(self, bound: nat) -> bool
        decreases self,
    {
        &&& (self.id as nat) < bound
        &&& forall|i: int|
            0 <= i < self.node_list@.len() ==> (#[trigger] self.node_list@[i]).ids_below(bound)
    }

    /// Some node of this tree has id `x`.
    pub closed spec fn has_id(self, x: nat) -> bool
        decreases self,
    {
        ||| self.id == x
        ||| exists|i: int| 0 <= i < self.node_list@.len() && (#[trigger] self.node_list@[i]).has_id(x)
    }

    /// The node reached from this one by taking, at each level, the child at
    /// the next index of `path`; `None` where an index is out of range.
    pub closed spec fn node_at(self, path: Seq<usize>) -> Option<LinkTreeNode>
        decreases path.len(),
    {
        if path.len() == 0 {
            Some(self)
        } else if path[0] < self.node_list@.len() {
            self.node_list@[path[0] as int].node_at(path.drop_first())
        } else {
            None
        }
    }

    /// `nodes` are new leaves for `links`, in order, with consecutive ids
    /// from `first_id` and parent id `parent`.
    pub closed spec fn fresh_leaves(nodes: Seq<LinkTreeNode>, links: Seq<Seq<char>>, first_id: nat, parent: nat) -> bool {
        &&& nodes.len() == links.len()
        &&& forall|k: int|
            0 <= k < nodes.len() ==> {
                &&& (#[trigger] nodes[k]).id() == first_id + k
                &&& nodes[k].link_text() == links[k]
                &&& nodes[k].parent() == parent
                &&& nodes[k].children().len() == 0
            }
    }

    /// `new` is `old` with fresh leaves for `links` (ids from `first_id`)
    /// added, after its existing children, to the node at `path`; nothing
    /// else differs.
    pub closed spec fn grafted(old: LinkTreeNode, new: LinkTreeNode, path: Seq<usize>, links: Seq<Seq<char>>, first_id: nat) -> bool
        decreases path.len(),
    {
        &&& new.id == old.id
        &&& new.link@ == old.link@
        &&& new.parent_id == old.parent_id
        &&& if path.len() == 0 {
            &&& new.node_list@.len() == old.node_list@.len() + links.len()
            &&& new.node_list@.take(old.node_list@.len() as int) == old.node_list@
            &&& Self::fresh_leaves(
                new.node_list@.skip(old.node_list@.len() as int),
                links,
                first_id,
                old.id as nat,
            )
        } else {
            let i = path[0] as int;
            &&& i < old.node_list@.len()
            &&& new.node_list@.len() == old.node_list@.len()
            &&& forall|j: int|
                0 <= j < old.node_list@.len() && j != i ==> new.node_list@[j] == old.node_list@[j]
            &&& Self::grafted(old.node_list@[i], new.node_list@[i], path.drop_first(), links, first_id)
        }
    }

    /// Adds, in order, a new child for each of `links` to the node at
    /// `path`, the ids taken from `ids`.
    pub fn add_children_at(&mut self, path: &Vec<usize>, links: &Vec<String>, ids: &mut IdCounter)
        requires
            old(self).node_at(path@) is Some,
            old(ids).next_id() + links.len() <= u32::MAX,
        ensures
            Self::grafted(*old(self), *final(self), path@, views(links@), old(ids).next_id()),
            final(ids).next_id() == old(ids).next_id() + links.len(),
    {
        assert(path@.skip(0) =~= path@);
        self.add_children_from(path, 0, links, ids);
    }

    fn add_children_from(&mut self, path: &Vec<usize>, depth: usize, links: &Vec<String>, ids: &mut IdCounter)
        requires
            depth <= path.len(),
            old(self).node_at(path@.skip(depth as int)) is Some,
            old(ids).next_id() + links.len() <= u32::MAX,
        ensures
            Self::grafted(*old(self), *final(self), path@.skip(depth as int), views(links@), old(ids).next_id()),
            final(ids).next_id() == old(ids).next_id() + links.len(),
        decreases path.len() - depth,
    {
        let ghost first = ids.next_id();
        if depth == path.len() {
            let ghost before = self.node_list@;
            let mut k: usize = 0;
            while k < links.len()
                invariant
                    k <= links.len(),
                    first + links.len() <= u32::MAX,
                    ids.next_id() == first + k,
                    self.id == old(self).id,
                    self.link@ == old(self).link@,
                    self.parent_id == old(self).parent_id,
                    before == old(self).node_list@,
                    self.node_list@.len() == before.len() + k,
                    self.node_list@.take(before.len() as int) == before,
                    Self::fresh_leaves(self.node_list@.skip(before.len() as int), views(links@).take(k as int), first, self.id as nat),
                decreases links.len() - k,
            {
                let child = LinkTreeNode::create(&links[k], ids);
                let ghost prev = self.node_list@;
                self.add_child(child);
                proof {
                    assert(self.node_list@.take(before.len() as int) =~= before);
                    let added = self.node_list@.skip(before.len() as int);
                    assert(added =~= prev.skip(before.len() as int).push(child.with_parent(self.id as nat)));
                    assert(views(links@).take(k + 1) =~= views(links@).take(k as int).push(links@[k as int]@));
                    child.lemma_with_parent(self.id as nat);
                }
                k = k + 1;
            }
            assert(views(links@).take(links.len() as int) =~= views(links@));
            assert(path@.skip(depth as int).len() == 0);
        } else {
            let i = path[depth];
            proof {
                assert(path@.skip(depth as int)[0] == i);
                assert(path@.skip(depth as int).drop_first() =~= path@.skip(depth + 1));
            }
            let ghost before = self.node_list@;
            let child = &mut self.node_list[i];
            child.add_children_from(path, depth + 1, links, ids);
            proof {
                assert(forall|j: int| 0 <= j < before.len() && j != i ==> self.node_list@[j] == before[j]);
            }
        }
    }
}


impl LinkTreeNode {
    /// A node whose ids are all below `bound` holds no id at or above it.
    pub proof fn lemma_ids_below_excludes(self, bound: nat, x: nat)
        requires
            self.ids_below(bound),
            bound <= x,
        ensures
            !self.has_id(x),
        decreases self,
    {
        assert forall|i: int| 0 <= i < self.node_list@.len() implies !(#[trigger] self.node_list@[i]).has_id(x) by {
            assert(decreases_to!(self => self.node_list@[i]));
            self.node_list@[i].lemma_ids_below_excludes(bound, x);
        }
    }

    /// The empty path leads to the node itself.
    pub proof fn lemma_node_at_empty(self)
        ensures
            self.node_at(Seq::<usize>::empty()) == Some(self),
    {
    }

    /// A leaf's ids are below any bound above its own id.
    pub proof fn lemma_leaf_ids_below(self, bound: nat)
        requires
            self.children().len() == 0,
            self.id() < bound,
        ensures
            self.ids_below(bound),
    {
    }

    /// A bound on the ids holds for every larger bound.
    pub proof fn lemma_ids_below_mono(self, bound: nat, larger: nat)
        requires
            self.ids_below(bound),
            bound <= larger,
        ensures
            self.ids_below(larger),
        decreases self,
    {
        assert forall|i: int| 0 <= i < self.node_list@.len() implies (#[trigger] self.node_list@[i]).ids_below(larger) by {
            assert(decreases_to!(self => self.node_list@[i]));
            self.node_list@[i].lemma_ids_below_mono(bound, larger);
        }
    }

    /// Grafting keeps the children's parent ids right, keeps every id below
    /// the counter, and keeps every path that led to a node leading to one.
    pub proof fn lemma_grafted(old: LinkTreeNode, new: LinkTreeNode, path: Seq<usize>, links: Seq<Seq<char>>, first_id: nat)
        requires
            Self::grafted(old, new, path, links, first_id),
        ensures
            old.well_linked() ==> new.well_linked(),
            old.ids_below(first_id) ==> new.ids_below(first_id + links.len()),
            forall|q: Seq<usize>| #[trigger] old.node_at(q) is Some ==> new.node_at(q) is Some,
            forall|q: Seq<usize>| #[trigger] old.node_at(q) is Some ==> {
                &&& new.node_at(q)->0.id() == old.node_at(q)->0.id()
                &&& new.node_at(q)->0.link_text() == old.node_at(q)->0.link_text()
                &&& new.node_at(q)->0.parent() == old.node_at(q)->0.parent()
            },
            old.node_at(path) is Some,
            new.node_at(path) is Some,
            new.node_at(path)->0.children().take(old.node_at(path)->0.children().len() as int) == old.node_at(path)->0.children(),
            new.node_at(path)->0.children().len() == old.node_at(path)->0.children().len() + links.len(),
            new.node_at(path)->0.id() == old.node_at(path)->0.id(),
            new.parent() == old.parent(),
            new.id() == old.id(),
            new.link_text() == old.link_text(),
        decreases path.len(),
    {
        if path.len() == 0 {
            let n = old.node_list@.len();
            let added = new.node_list@.skip(n as int);
            assert forall|j: int| 0 <= j < new.node_list@.len() implies new.node_list@[j] == (if j < n { old.node_list@[j] } else { added[j - n] }) by {
                if j < n {
                    assert(new.node_list@.take(n as int)[j] == new.node_list@[j]);
                }
            }
            if old.well_linked() {
                assert forall|j: int| 0 <= j < new.node_list@.len() implies {
                    &&& (#[trigger] new.node_list@[j]).parent_id == new.id
                    &&& new.node_list@[j].well_linked()
                } by {
                    if j >= n {
                        assert(added[j - n].children().len() == 0);
                        assert(added[j - n].parent() == old.id as nat);
                    } else {
                        assert(new.node_list@[j] == old.node_list@[j]);
                    }
                }
            }
            if old.ids_below(first_id) {
                assert forall|j: int| 0 <= j < new.node_list@.len() implies (#[trigger] new.node_list@[j]).ids_below(first_id + links.len()) by {
                    if j >= n {
                        assert(added[j - n].id() == first_id + (j - n));
                        assert(added[j - n].children().len() == 0);
                    } else {
                        assert(new.node_list@[j] == old.node_list@[j]);
                        old.node_list@[j].lemma_ids_below_mono(first_id, first_id + links.len());
                    }
                }
            }
            assert forall|q: Seq<usize>| #[trigger] old.node_at(q) is Some implies new.node_at(q) is Some
                && new.node_at(q)->0.id() == old.node_at(q)->0.id()
                && new.node_at(q)->0.link_text() == old.node_at(q)->0.link_text()
                && new.node_at(q)->0.parent() == old.node_at(q)->0.parent() by {
                if q.len() > 0 && q[0] < n {
                    assert(new.node_list@[q[0] as int] == old.node_list@[q[0] as int]);
                }
            }
        } else {
            let i = path[0] as int;
            let oc = old.node_list@[i];
            let nc = new.node_list@[i];
            Self::lemma_grafted(oc, nc, path.drop_first(), links, first_id);
            if old.well_linked() {
                assert forall|j: int| 0 <= j < new.node_list@.len() implies {
                    &&& (#[trigger] new.node_list@[j]).parent_id == new.id
                    &&& new.node_list@[j].well_linked()
                } by {
                    if j != i {
                        assert(new.node_list@[j] == old.node_list@[j]);
                    } else {
                        assert(old.node_list@[i].parent_id == old.id);
                        assert(old.node_list@[i].well_linked());
                    }
                }
            }
            if old.ids_below(first_id) {
                assert forall|j: int| 0 <= j < new.node_list@.len() implies (#[trigger] new.node_list@[j]).ids_below(first_id + links.len()) by {
                    if j != i {
                        assert(new.node_list@[j] == old.node_list@[j]);
                        old.node_list@[j].lemma_ids_below_mono(first_id, first_id + links.len());
                    } else {
                        assert(old.node_list@[i].ids_below(first_id));
                    }
                }
            }
            assert forall|q: Seq<usize>| #[trigger] old.node_at(q) is Some implies new.node_at(q) is Some
                && new.node_at(q)->0.id() == old.node_at(q)->0.id()
                && new.node_at(q)->0.link_text() == old.node_at(q)->0.link_text()
                && new.node_at(q)->0.parent() == old.node_at(q)->0.parent() by {
                if q.len() > 0 && q[0] < old.node_list@.len() {
                    if q[0] != i {
                        assert(new.node_list@[q[0] as int] == old.node_list@[q[0] as int]);
                    } else {
                        assert(oc.node_at(q.drop_first()) is Some);
                    }
                }
            }
        }
    }
}


impl LinkTreeNode {
    /// The node's id.
    pub fn get_id(&self) -> (r: u32)
        ensures
            r == self.id(),
    {
        self.id
    }

    /// The node's children, to read.
    pub fn node_list_immutable(&self) -> (r: &Vec<LinkTreeNode>)
        ensures
            r@ == self.children(),
    {
        &self.node_list
    }

    /// How many children the node has.
    pub fn child_count(&self) -> (r: usize)
        ensures
            r == self.children().len(),
    {
        self.node_list.len()
    }

    /// The node's link, to read.
    pub fn link_ref(&self) -> (r: &String)
        ensures
            r@ == self.link_text(),
    {
        &self.link
    }

    /// The node at `path` below this one.
    pub fn node_ref_at(&self, path: &Vec<usize>) -> (r: &LinkTreeNode)
        requires
            self.node_at(path@) is Some,
        ensures
            self.node_at(path@) == Some(*r),
    {
        assert(path@.skip(0) =~= path@);
        self.node_ref_from(path, 0)
    }

    fn node_ref_from(&self, path: &Vec<usize>, depth: usize) -> (r: &LinkTreeNode)
        requires
            depth <= path.len(),
            self.node_at(path@.skip(depth as int)) is Some,
        ensures
            self.node_at(path@.skip(depth as int)) == Some(*r),
        decreases path.len() - depth,
    {
        if depth == path.len() {
            assert(path@.skip(depth as int).len() == 0);
            self
        } else {
            let i = path[depth];
            assert(path@.skip(depth as int)[0] == i);
            assert(path@.skip(depth as int).drop_first() =~= path@.skip(depth + 1));
            self.node_list[i].node_ref_from(path, depth + 1)
        }
    }

    /// Where grafting put the new leaves: the `k`-th of them is reached by
    /// the grafting path and then the index it took among the children.
    pub proof fn lemma_grafted_leaves(old: LinkTreeNode, new: LinkTreeNode, path: Seq<usize>, links: Seq<Seq<char>>, first_id: nat, k: int)
        requires
            Self::grafted(old, new, path, links, first_id),
            0 <= k < links.len(),
            old.node_at(path) is Some,
            old.node_at(path)->0.children().len() + k <= usize::MAX,
        ensures
            new.node_at(path.push((old.node_at(path)->0.children().len() + k) as usize)) matches Some(leaf)
                && leaf.id() == first_id + k && leaf.link_text() == links[k] && leaf.children().len() == 0
                && leaf.parent() == old.node_at(path)->0.id(),
        decreases path.len(),
    {
        let m = old.node_at(path)->0;
        let q = path.push((m.children().len() + k) as usize);
        if path.len() == 0 {
            let n = old.node_list@.len();
            let leaf = new.node_list@[n + k];
            assert(new.node_list@.skip(n as int)[k] == leaf);
            assert(q.drop_first() =~= Seq::<usize>::empty());
            assert(leaf.node_at(q.drop_first()) == Some(leaf));
            assert(q[0] == n + k);
            assert(new.node_at(q) == Some(leaf));
        } else {
            let i = path[0] as int;
            assert(q.drop_first() =~= path.drop_first().push((m.children().len() + k) as usize));
            assert(old.node_list@[i].node_at(path.drop_first()) == Some(m));
            assert(q[0] == path[0]);
            Self::lemma_grafted_leaves(old.node_list@[i], new.node_list@[i], path.drop_first(), links, first_id, k);
        }
    }
}


/// The derefs of a sequence of node references.
pub open spec fn derefs(v: Seq<&LinkTreeNode>) -> Seq<LinkTreeNode> {
    v.map_values(|r: &LinkTreeNode| *r)
}

impl LinkTreeNode {
    /// The children of the nodes of `level`, in order: the level below it.
    pub closed spec fn next_level(level: Seq<LinkTreeNode>) -> Seq<LinkTreeNode>
        decreases level.len(),
    {
        if level.len() == 0 {
            Seq::empty()
        } else {
            Self::next_level(level.drop_last()) + level.last().node_list@
        }
    }

    /// How many levels lie at and below `level`.
    pub closed spec fn level_measure(level: Seq<LinkTreeNode>) -> nat {
        if level.len() == 0 {
            0
        } else {
            1 + Self::height_of_all(level)
        }
    }

    proof fn lemma_height_of_all_bound(nodes: Seq<LinkTreeNode>, b: nat)
        requires
            forall|i: int| 0 <= i < nodes.len() ==> (#[trigger] nodes[i]).height() <= b,
        ensures
            Self::height_of_all(nodes) <= b,
        decreases nodes.len(),
    {
        if nodes.len() > 0 {
            Self::lemma_height_of_all_bound(nodes.drop_last(), b);
            assert(nodes.last() == nodes[nodes.len() - 1]);
        }
    }

    proof fn lemma_next_level_members(level: Seq<LinkTreeNode>, j: int)
        requires
            0 <= j < Self::next_level(level).len(),
        ensures
            exists|i: int| 0 <= i < level.len() && Self::next_level(level)[j].height() + 1 <= (#[trigger] level[i]).height(),
        decreases level.len(),
    {
        let prev = Self::next_level(level.drop_last());
        let last = level.last();
        if j < prev.len() {
            Self::lemma_next_level_members(level.drop_last(), j);
            let i = choose|i: int| 0 <= i < level.drop_last().len() && prev[j].height() + 1 <= (#[trigger] level.drop_last()[i]).height();
            assert(level[i] == level.drop_last()[i]);
        } else {
            let k = j - prev.len();
            assert(Self::next_level(level)[j] == last.node_list@[k]);
            Self::lemma_child_height(last.node_list@, k);
            assert(level[level.len() - 1] == last);
        }
    }

    proof fn lemma_next_level_smaller(level: Seq<LinkTreeNode>)
        requires
            level.len() > 0,
        ensures
            Self::level_measure(Self::next_level(level)) < Self::level_measure(level),
    {
        let next = Self::next_level(level);
        if next.len() > 0 {
            assert forall|j: int| 0 <= j < next.len() implies (#[trigger] next[j]).height() + 1 <= Self::height_of_all(level) by {
                Self::lemma_next_level_members(level, j);
                let i = choose|i: int| 0 <= i < level.len() && next[j].height() + 1 <= (#[trigger] level[i]).height();
                Self::lemma_child_height(level, i);
            }
            if Self::height_of_all(level) > 0 {
                Self::lemma_height_of_all_bound(next, (Self::height_of_all(level) - 1) as nat);
            } else {
                assert(next[0].height() + 1 <= Self::height_of_all(level));
            }
        }
    }

    /// The ids of the nodes of `level` and of every level below it, level
    /// by level, left to right, each with its depth, `depth` being that of
    /// `level`.
    pub closed spec fn level_order(level: Seq<LinkTreeNode>, depth: nat) -> Seq<(nat, nat)>
        decreases Self::level_measure(level),
    {
        if level.len() == 0 {
            Seq::empty()
        } else {
            proof {
                Self::lemma_next_level_smaller(level);
            }
            level.map_values(|n: LinkTreeNode| (n.id as nat, depth)) + Self::level_order(
                Self::next_level(level),
                depth + 1,
            )
        }
    }

    /// The tree's nodes in breadth-first order (the order in which a queue
    /// that starts with the root and takes each node's children at its back
    /// hands them out), each as its id and its depth, the root's being 0.
    pub fn breadth_first(&self) -> (r: Vec<(u32, u32)>)
        requires
            self.height() < u32::MAX,
        ensures
            r@.map_values(|e: (u32, u32)| (e.0 as nat, e.1 as nat)) == Self::level_order(seq![*self], 0),
    {
        let mut out: Vec<(u32, u32)> = Vec::new();
        let mut cur: Vec<&LinkTreeNode> = Vec::new();
        cur.push(self);
        let mut depth: u32 = 0;
        assert(derefs(cur@) =~= seq![*self]);
        assert(seq![*self].drop_last() =~= Seq::<LinkTreeNode>::empty());
        assert(Self::height_of_all(Seq::<LinkTreeNode>::empty()) == 0);
        assert(seq![*self].last() == *self);
        assert(Self::height_of_all(seq![*self]) == self.height());
        while cur.len() > 0
            invariant
                self.height() < u32::MAX,
                out@.map_values(|e: (u32, u32)| (e.0 as nat, e.1 as nat)) + Self::level_order(derefs(cur@), depth as nat)
                    == Self::level_order(seq![*self], 0),
                cur.len() > 0 ==> depth + Self::height_of_all(derefs(cur@)) <= self.height(),
            decreases Self::level_measure(derefs(cur@)),
        {
            let ghost level = derefs(cur@);
            let ghost out0 = out@;
            let mut next: Vec<&LinkTreeNode> = Vec::new();
            let mut i: usize = 0;
            while i < cur.len()
                invariant
                    i <= cur.len(),
                    level == derefs(cur@),
                    out@.map_values(|e: (u32, u32)| (e.0 as nat, e.1 as nat)) == out0.map_values(|e: (u32, u32)| (e.0 as nat, e.1 as nat))
                        + level.take(i as int).map_values(|n: LinkTreeNode| (n.id as nat, depth as nat)),
                    derefs(next@) == Self::next_level(level.take(i as int)),
                decreases cur.len() - i,
            {
                let node: &LinkTreeNode = cur[i];
                let ghost out_before = out@;
                out.push((node.id, depth));
                proof {
                    assert(level.take(i + 1).drop_last() =~= level.take(i as int));
                    assert(level.take(i + 1).last() == *node);
                    assert(out@.map_values(|e: (u32, u32)| (e.0 as nat, e.1 as nat)) =~= out_before.map_values(|e: (u32, u32)| (e.0 as nat, e.1 as nat)).push((node.id as nat, depth as nat)));
                    assert(level.take(i + 1).map_values(|n: LinkTreeNode| (n.id as nat, depth as nat)) =~= level.take(i as int).map_values(|n: LinkTreeNode| (n.id as nat, depth as nat)).push((node.id as nat, depth as nat)));
                }
                let ghost next0 = derefs(next@);
                let mut k: usize = 0;
                while k < node.node_list.len()
                    invariant
                        k <= node.node_list@.len(),
                        derefs(next@) == next0 + node.node_list@.take(k as int),
                    decreases node.node_list@.len() - k,
                {
                    let ghost before = next@;
                    next.push(&node.node_list[k]);
                    assert(derefs(next@) =~= derefs(before).push(node.node_list@[k as int]));
                    assert(node.node_list@.take(k + 1) =~= node.node_list@.take(k as int).push(node.node_list@[k as int]));
                    k = k + 1;
                }
                assert(node.node_list@.take(node.node_list@.len() as int) =~= node.node_list@);
                i = i + 1;
            }
            proof {
                assert(level.take(cur.len() as int) =~= level);
                Self::lemma_next_level_smaller(level);
                let nl = Self::next_level(level);
                assert(Self::level_order(level, depth as nat) == level.map_values(|n: LinkTreeNode| (n.id as nat, depth as nat))
                    + Self::level_order(nl, depth as nat + 1));
            }
            cur = next;
            if cur.len() > 0 {
                depth = depth + 1;
            } else {
                proof {
                    assert(Self::level_order(derefs(cur@), depth as nat + 1) =~= Seq::<(nat, nat)>::empty());
                }
            }
        }
        out
    }
}


impl LinkTreeNode {
    /// The id of the node's parent.
    pub fn get_parent_id(&self) -> (r: u32)
        ensures
            r == self.parent(),
    {
        self.parent_id
    }

    /// The tree's height, or `cap` where the height is larger.
    pub fn height_capped(&self, cap: u32) -> (r: u32)
        ensures
            r == if self.height() < cap { self.height() } else { cap as nat },
        decreases self,
    {
        if self.node_list.len() == 0 || cap == 0 {
            return 0;
        }
        let mut best: u32 = 0;
        let mut i: usize = 0;
        while i < self.node_list.len()
            invariant
                0 < cap,
                i <= self.node_list@.len(),
                best == {
                    let h = Self::height_of_all(self.node_list@.take(i as int));
                    if h < cap - 1 { h } else { (cap - 1) as nat }
                },
            decreases self.node_list@.len() - i,
        {
            proof {
                assert(decreases_to!(self => self.node_list@[i as int]));
                assert(self.node_list@.take(i + 1).drop_last() =~= self.node_list@.take(i as int));
                assert(self.node_list@.take(i + 1).last() == self.node_list@[i as int]);
            }
            let h = self.node_list[i].height_capped(cap - 1);
            if h > best {
                best = h;
            }
            i = i + 1;
        }
        assert(self.node_list@.take(self.node_list@.len() as int) =~= self.node_list@);
        best + 1
    }
}


impl LinkTreeNode {
    /// No two nodes of this tree share an id.
    pub closed spec fn unique_ids(self) -> bool
        decreases self,
    {
        &&& forall|i: int| 0 <= i < self.node_list@.len() ==> !(#[trigger] self.node_list@[i]).has_id(self.id as nat)
        &&& forall|i: int, j: int, x: nat|
            0 <= i < j < self.node_list@.len() ==> !((#[trigger] self.node_list@[i].has_id(x)) && (#[trigger] self.node_list@[j].has_id(x)))
        &&& forall|i: int| 0 <= i < self.node_list@.len() ==> (#[trigger] self.node_list@[i]).unique_ids()
    }

    /// A tree whose ids are below `bound` has each of its ids below it.
    pub proof fn lemma_has_id_below(self, bound: nat, x: nat)
        requires
            self.ids_below(bound),
            self.has_id(x),
        ensures
            x < bound,
    {
        if x >= bound {
            self.lemma_ids_below_excludes(bound, x);
        }
    }

    /// A leaf holds its own id and no other.
    pub proof fn lemma_leaf_has_id(self, x: nat)
        requires
            self.children().len() == 0,
        ensures
            self.has_id(x) == (x == self.id()),
            self.unique_ids(),
    {
    }

    /// The ids of a grafted tree are those it had and the new leaves' ones.
    pub proof fn lemma_grafted_has_id(old: LinkTreeNode, new: LinkTreeNode, path: Seq<usize>, links: Seq<Seq<char>>, first_id: nat, x: nat)
        requires
            Self::grafted(old, new, path, links, first_id),
            new.has_id(x),
        ensures
            old.has_id(x) || (first_id <= x < first_id + links.len()),
        decreases path.len(),
    {
        if new.id != x {
            let j = choose|j: int| 0 <= j < new.node_list@.len() && (#[trigger] new.node_list@[j]).has_id(x);
            if path.len() == 0 {
                let n = old.node_list@.len();
                if j < n {
                    assert(new.node_list@.take(n as int)[j] == new.node_list@[j]);
                    assert(old.node_list@[j].has_id(x));
                } else {
                    let leaf = new.node_list@.skip(n as int)[j - n];
                    assert(leaf == new.node_list@[j]);
                    leaf.lemma_leaf_has_id(x);
                }
            } else {
                let i = path[0] as int;
                if j == i {
                    Self::lemma_grafted_has_id(old.node_list@[i], new.node_list@[i], path.drop_first(), links, first_id, x);
                    if old.node_list@[i].has_id(x) {
                        assert(old.has_id(x));
                    }
                } else {
                    assert(new.node_list@[j] == old.node_list@[j]);
                    assert(old.node_list@[j].has_id(x));
                }
            }
        }
    }

    /// Grafting leaves whose ids lie at or above every id of the tree keeps
    /// the tree's ids unique.
    pub proof fn lemma_grafted_unique(old: LinkTreeNode, new: LinkTreeNode, path: Seq<usize>, links: Seq<Seq<char>>, first_id: nat)
        requires
            Self::grafted(old, new, path, links, first_id),
            old.unique_ids(),
            old.ids_below(first_id),
        ensures
            new.unique_ids(),
        decreases path.len(),
    {
        let nl = new.node_list@;
        let ol = old.node_list@;
        if path.len() == 0 {
            let n = ol.len();
            assert forall|j: int| 0 <= j < nl.len() implies (if j < n { nl[j] == ol[j] } else { nl[j] == nl.skip(n as int)[j - n] }) by {
                if j < n {
                    assert(nl.take(n as int)[j] == nl[j]);
                }
            }
            assert forall|j: int, x: nat| 0 <= j < nl.len() && (#[trigger] nl[j].has_id(x)) implies
                (j < n ==> x < first_id) && (j >= n ==> x == first_id + (j - n)) by {
                if j < n {
                    ol[j].lemma_has_id_below(first_id, x);
                } else {
                    nl[j].lemma_leaf_has_id(x);
                }
            }
            assert forall|i: int| 0 <= i < nl.len() implies !(#[trigger] nl[i]).has_id(new.id as nat) by {
                if i >= n && nl[i].has_id(new.id as nat) {
                    assert(new.id as nat == first_id + (i - n));
                }
            }
            assert forall|i: int, j: int, x: nat| 0 <= i < j < nl.len() implies !((#[trigger] nl[i].has_id(x)) && (#[trigger] nl[j].has_id(x))) by {
                if i < n && j < n {
                    assert(!(ol[i].has_id(x) && ol[j].has_id(x)));
                }
            }
            assert forall|i: int| 0 <= i < nl.len() implies (#[trigger] nl[i]).unique_ids() by {
                if i >= n {
                    nl[i].lemma_leaf_has_id(0);
                }
            }
        } else {
            let k = path[0] as int;
            assert(ol[k].ids_below(first_id));
            Self::lemma_grafted_unique(ol[k], nl[k], path.drop_first(), links, first_id);
            assert forall|j: int, x: nat| 0 <= j < nl.len() && j != k && (#[trigger] nl[j].has_id(x)) implies x < first_id by {
                assert(nl[j] == ol[j]);
                ol[j].lemma_has_id_below(first_id, x);
            }
            assert forall|x: nat| (#[trigger] nl[k].has_id(x)) implies ol[k].has_id(x) || first_id <= x by {
                Self::lemma_grafted_has_id(ol[k], nl[k], path.drop_first(), links, first_id, x);
            }
            assert forall|i: int| 0 <= i < nl.len() implies !(#[trigger] nl[i]).has_id(new.id as nat) by {
                if i == k {
                    assert(nl[k].has_id(new.id as nat) ==> ol[k].has_id(new.id as nat) || first_id <= new.id);
                } else {
                    assert(nl[i] == ol[i]);
                }
            }
            assert forall|i: int, j: int, x: nat| 0 <= i < j < nl.len() implies !((#[trigger] nl[i].has_id(x)) && (#[trigger] nl[j].has_id(x))) by {
                if i != k && j != k {
                    assert(nl[i] == ol[i] && nl[j] == ol[j]);
                } else if i == k {
                    if nl[i].has_id(x) && nl[j].has_id(x) {
                        assert(nl[j] == ol[j]);
                        assert(x < first_id);
                        assert(ol[k].has_id(x));
                        assert(!(ol[i].has_id(x) && ol[j].has_id(x)));
                    }
                } else {
                    if nl[i].has_id(x) && nl[j].has_id(x) {
                        assert(nl[i] == ol[i]);
                        assert(x < first_id);
                        assert(ol[k].has_id(x));
                        assert(!(ol[i].has_id(x) && ol[j].has_id(x)));
                    }
                }
            }
            assert forall|i: int| 0 <= i < nl.len() implies (#[trigger] nl[i]).unique_ids() by {
                if i != k {
                    assert(nl[i] == ol[i]);
                }
            }
        }
    }
}


impl LinkTreeNode {
    /// What `height` is: 0 for a leaf, else one more than the greatest
    /// height among the children.
    pub proof fn lemma_height_def(self)
        ensures
            self.height() == if self.children().len() == 0 { 0 } else { 1 + Self::height_of_all(self.children()) },
    {
    }

    /// What `height_of_all` is: 0 for no nodes, else the greater of the last
    /// node's height and that of the others.
    pub proof fn lemma_height_of_all_def(nodes: Seq<LinkTreeNode>)
        ensures
            Self::height_of_all(nodes) == if nodes.len() == 0 {
                0
            } else if Self::height_of_all(nodes.drop_last()) < nodes.last().height() {
                nodes.last().height()
            } else {
                Self::height_of_all(nodes.drop_last())
            },
    {
    }

    /// What `rendered` is: the node's line, then its children's texts
    /// indented ten more.
    pub proof fn lemma_rendered_def(self, w: nat)
        ensures
            self.rendered(w) == indent(w) + self.link_text() + "; id:"@ + decimal(self.id()) + "; parent_id:"@
                + decimal(self.parent()) + ";\n"@ + Self::rendered_all(self.children(), w + 10),
    {
    }

    /// What `rendered_all` is: the texts of the nodes one after another.
    pub proof fn lemma_rendered_all_def(nodes: Seq<LinkTreeNode>, w: nat)
        ensures
            Self::rendered_all(nodes, w) == if nodes.len() == 0 {
                Seq::<char>::empty()
            } else {
                Self::rendered_all(nodes.drop_last(), w) + nodes.last().rendered(w)
            },
    {
    }

    /// What `well_linked` is.
    pub proof fn lemma_well_linked_def(self)
        ensures
            self.well_linked() == forall|i: int|
                0 <= i < self.children().len() ==> (#[trigger] self.children()[i]).parent() == self.id()
                    && self.children()[i].well_linked(),
    {
        let c = self.children();
        if self.well_linked() {
            assert forall|i: int| 0 <= i < c.len() implies (#[trigger] c[i]).parent() == self.id() && c[i].well_linked() by {
                assert(self.node_list@[i] == c[i]);
            }
        }
        if forall|i: int| 0 <= i < c.len() ==> (#[trigger] c[i]).parent() == self.id() && c[i].well_linked() {
            assert forall|i: int| 0 <= i < self.node_list@.len() implies {
                &&& (#[trigger] self.node_list@[i]).parent_id == self.id
                &&& self.node_list@[i].well_linked()
            } by {
                assert(c[i].parent() == self.id());
            }
        }
    }

    /// What `has_id` is.
    pub proof fn lemma_has_id_def(self, x: nat)
        ensures
            self.has_id(x) == (self.id() == x || exists|i: int|
                0 <= i < self.children().len() && (#[trigger] self.children()[i]).has_id(x)),
    {
        let c = self.children();
        if exists|i: int| 0 <= i < c.len() && (#[trigger] c[i]).has_id(x) {
            let i = choose|i: int| 0 <= i < c.len() && (#[trigger] c[i]).has_id(x);
            assert(self.node_list@[i].has_id(x));
        }
        if exists|i: int| 0 <= i < self.node_list@.len() && (#[trigger] self.node_list@[i]).has_id(x) {
            let i = choose|i: int| 0 <= i < self.node_list@.len() && (#[trigger] self.node_list@[i]).has_id(x);
            assert(c[i].has_id(x));
        }
    }

    /// What `ids_below` is.
    pub proof fn lemma_ids_below_def(self, bound: nat)
        ensures
            self.ids_below(bound) == (self.id() < bound && forall|i: int|
                0 <= i < self.children().len() ==> (#[trigger] self.children()[i]).ids_below(bound)),
    {
        let c = self.children();
        if forall|i: int| 0 <= i < c.len() ==> (#[trigger] c[i]).ids_below(bound) {
            assert forall|i: int| 0 <= i < self.node_list@.len() implies (#[trigger] self.node_list@[i]).ids_below(bound) by {
                assert(c[i].ids_below(bound));
            }
        }
        if self.ids_below(bound) {
            assert forall|i: int| 0 <= i < c.len() implies (#[trigger] c[i]).ids_below(bound) by {
                assert(self.node_list@[i].ids_below(bound));
            }
        }
    }

    /// What `unique_ids` is.
    pub proof fn lemma_unique_ids_def(self)
        ensures
            self.unique_ids() == {
                &&& forall|i: int| 0 <= i < self.children().len() ==> !(#[trigger] self.children()[i]).has_id(self.id())
                &&& forall|i: int, j: int, x: nat|
                    0 <= i < j < self.children().len() ==> !((#[trigger] self.children()[i].has_id(x)) && (#[trigger] self.children()[j].has_id(x)))
                &&& forall|i: int| 0 <= i < self.children().len() ==> (#[trigger] self.children()[i]).unique_ids()
            },
    {
        let c = self.children();
        let l = self.node_list@;
        assert(c == l);
        let a1 = forall|i: int| 0 <= i < c.len() ==> !(#[trigger] c[i]).has_id(self.id());
        let a2 = forall|i: int| 0 <= i < l.len() ==> !(#[trigger] l[i]).has_id(self.id as nat);
        assert(a1 == a2);
        let b1 = forall|i: int, j: int, x: nat| 0 <= i < j < c.len() ==> !((#[trigger] c[i].has_id(x)) && (#[trigger] c[j].has_id(x)));
        let b2 = forall|i: int, j: int, x: nat| 0 <= i < j < l.len() ==> !((#[trigger] l[i].has_id(x)) && (#[trigger] l[j].has_id(x)));
        assert(b1 == b2);
        let d1 = forall|i: int| 0 <= i < c.len() ==> (#[trigger] c[i]).unique_ids();
        let d2 = forall|i: int| 0 <= i < l.len() ==> (#[trigger] l[i]).unique_ids();
        assert(d1 == d2);
        assert(self.unique_ids() == (a2 && b2 && d2));
    }

    /// What `node_at` is.
    pub proof fn lemma_node_at_def(self, path: Seq<usize>)
        ensures
            self.node_at(path) == if path.len() == 0 {
                Some(self)
            } else if path[0] < self.children().len() {
                self.children()[path[0] as int].node_at(path.drop_first())
            } else {
                None
            },
    {
    }

    /// What `next_level` is.
    pub proof fn lemma_next_level_def(level: Seq<LinkTreeNode>)
        ensures
            Self::next_level(level) == if level.len() == 0 {
                Seq::<LinkTreeNode>::empty()
            } else {
                Self::next_level(level.drop_last()) + level.last().children()
            },
    {
    }

    /// What `level_order` is: the ids of `level` with their depth, then
    /// those of the levels below.
    pub proof fn lemma_level_order_def(level: Seq<LinkTreeNode>, depth: nat)
        ensures
            Self::level_order(level, depth) == if level.len() == 0 {
                Seq::<(nat, nat)>::empty()
            } else {
                level.map_values(|n: LinkTreeNode| (n.id(), depth)) + Self::level_order(Self::next_level(level), depth + 1)
            },
    {
        if level.len() > 0 {
            assert(level.map_values(|n: LinkTreeNode| (n.id(), depth)) =~= level.map_values(|n: LinkTreeNode| (n.id as nat, depth)));
        }
    }
}


impl LinkTreeNode {
    /// A node's text at width `w` starts with `w` spaces (one where `w` is
    /// 0), then the node's link; each child's text, `w + 10` wide, follows
    /// the node's own line, and a child's text starts in its turn with
    /// `w + 10` spaces.
    pub proof fn lemma_rendered_starts(self, w: nat)
        ensures
            self.rendered(w).len() >= (if w == 0 { 1 } else { w }) + self.link_text().len(),
            self.rendered(w).take(if w == 0 { 1 } else { w } as int) == Seq::new(if w == 0 { 1 } else { w }, |i: int| ' '),
            self.rendered(w).subrange(
                if w == 0 { 1 } else { w } as int,
                ((if w == 0 { 1 } else { w }) + self.link_text().len()) as int,
            ) == self.link_text(),
            forall|i: int|
                0 <= i < self.children().len() ==> (#[trigger] self.children()[i]).rendered(w + 10).take(w + 10 as int)
                    == Seq::new(w + 10, |j: int| ' '),
    {
        let pad: int = if w == 0 { 1 } else { w as int };
        let r = self.rendered(w);
        let tail = "; id:"@ + decimal(self.id as nat) + "; parent_id:"@ + decimal(self.parent_id as nat) + ";\n"@
            + Self::rendered_all(self.node_list@, w + 10);
        assert(r =~= indent(w) + self.link@ + tail);
        assert(r.take(pad) =~= Seq::new(pad as nat, |i: int| ' '));
        assert(r.subrange(pad, pad + self.link@.len()) =~= self.link@);
        assert forall|i: int| 0 <= i < self.children().len() implies (#[trigger] self.children()[i]).rendered(w + 10).take(w + 10 as int)
            == Seq::new(w + 10, |j: int| ' ') by {
            let c = self.children()[i];
            let rc = c.rendered(w + 10);
            let tc = "; id:"@ + decimal(c.id as nat) + "; parent_id:"@ + decimal(c.parent_id as nat) + ";\n"@
                + Self::rendered_all(c.node_list@, w + 20);
            assert(rc =~= indent(w + 10) + c.link@ + tc);
            assert(rc.take(w + 10 as int) =~= Seq::new(w + 10, |j: int| ' '));
        }
    }
}

} // verus!
