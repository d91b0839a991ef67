//! The decisions of a crawl: which page to read next, and what the tree
//! becomes once its links are known. Reading pages is left to the caller.

use vstd::prelude::*;
use crate::link_tree::{IdCounter, LinkTreeNode};
use crate::text::views;

verus! {

/// What the crawl asks for next.
pub enum CrawlStep {
    /// Read the page at this link and hand back the links it leads to.
    Fetch(String),
    /// Every node has been visited.
    Finished,
}

/// The paths of the `count` new children of the node at `path`, the first
/// of them (index `first`) last, so that it is visited next.
pub open spec fn child_paths_last_first(path: Seq<usize>, first: nat, count: nat) -> Seq<Seq<usize>> {
    Seq::new(count, |j: int| path.push((first + count - 1 - j) as usize))
}

/// A crawl in progress: the tree so far, the id counter, and the paths of
/// the nodes still to visit, the next one last.
pub struct Crawl {
    root: LinkTreeNode,
    ids: IdCounter,
    pending: Vec<Vec<usize>>,
}

impl Crawl {
    /// The tree so far.
    pub closed spec fn tree(&self) -> LinkTreeNode {
        self.root
    }

    /// The id that the next node will take.
    pub closed spec fn next_id(&self) -> nat {
        self.ids.next_id()
    }

    /// The paths of the nodes still to visit; the last is visited next.
    pub closed spec fn pending(&self) -> Seq<Seq<usize>> {
        self.pending@.map_values(|p: Vec<usize>| p@)
    }

    /// Every pending path leads to a node, every child carries its parent's
    /// id, every id in the tree is below the counter's next one, and no two
    /// nodes share an id.
    pub closed spec fn wf(&self) -> bool {
        &&& forall|i: int| 0 <= i < self.pending().len() ==> (#[trigger] self.root.node_at(self.pending()[i])) is Some
        &&& self.root.well_linked()
        &&& self.root.ids_below(self.ids.next_id())
        &&& self.root.unique_ids()
    }

    /// A crawl of `address`: its root node takes the counter's next id, and
    /// is the one node to visit.
    pub fn start(address: &String, ids: IdCounter) -> (c: Crawl)
        requires
            ids.next_id() < u32::MAX,
        ensures
            c.wf(),
            c.tree().well_linked(),
            c.tree().unique_ids(),
            c.tree().id() == ids.next_id(),
            c.tree().link_text() == address@,
            c.tree().children().len() == 0,
            c.tree().parent() == 0,
            c.next_id() == ids.next_id() + 1,
            c.pending() == seq![Seq::<usize>::empty()],
    {
        let mut ids = ids;
        let root = LinkTreeNode::create(address, &mut ids);
        let mut pending: Vec<Vec<usize>> = Vec::new();
        pending.push(Vec::new());
        let c = Crawl { root, ids, pending };
        proof {
            assert(c.pending() =~= seq![Seq::<usize>::empty()]);
            c.root.lemma_node_at_empty();
            c.root.lemma_leaf_ids_below(c.ids.next_id());
            c.root.lemma_leaf_has_id(0);
        }
        c
    }

    /// The page to read next: the link of the node at the last pending
    /// path; `Finished` where none is pending.
    pub fn next_step(&self) -> (r: CrawlStep)
        requires
            self.wf(),
        ensures
            self.pending().len() == 0 ==> r is Finished,
            self.pending().len() > 0 ==> (r matches CrawlStep::Fetch(link) && link@ == self.tree().node_at(
                self.pending().last(),
            )->0.link_text()),
    {
        let n = self.pending.len();
        if n == 0 {
            CrawlStep::Finished
        } else {
            let path = &self.pending[n - 1];
            assert(self.pending()[n - 1] == path@);
            let node = self.root.node_ref_at(path);
            CrawlStep::Fetch(node.link_ref().clone())
        }
    }

    /// Takes the links found on the page of the node at the last pending
    /// path (`None` where it could not be read): a new child for each is
    /// added to that node, the path leaves the pending ones, and the new
    /// children's paths join them so that the first child is visited next.
    /// Each new child takes an id that no node of the tree had.
    pub fn deliver(&mut self, links: Option<Vec<String>>)
        requires
            old(self).wf(),
            old(self).pending().len() > 0,
            links matches Some(v) ==> old(self).next_id() + v.len() <= u32::MAX,
        ensures
            final(self).wf(),
            final(self).tree().well_linked(),
            final(self).tree().unique_ids(),
            match links {
                None => {
                    &&& final(self).tree() == old(self).tree()
                    &&& final(self).next_id() == old(self).next_id()
                    &&& final(self).pending() == old(self).pending().drop_last()
                },
                Some(v) => {
                    let path = old(self).pending().last();
                    let n = old(self).tree().node_at(path)->0.children().len();
                    &&& LinkTreeNode::grafted(old(self).tree(), final(self).tree(), path, views(v@), old(self).next_id())
                    &&& final(self).next_id() == old(self).next_id() + v.len()
                    &&& final(self).pending() == old(self).pending().drop_last() + child_paths_last_first(path, n, v.len() as nat)
                    &&& final(self).pending().len() == old(self).pending().len() - 1 + v.len()
                    &&& final(self).pending().take(old(self).pending().len() - 1) == old(self).pending().drop_last()
                    &&& forall|k: int| 0 <= k < v.len() ==> #[trigger] final(self).pending()[old(self).pending().len() - 1 + (v.len() - 1 - k)]
                        == path.push((n + k) as usize)
                    &&& v.len() > 0 ==> final(self).pending().last() == path.push(n as usize)
                        && final(self).tree().node_at(final(self).pending().last())->0.link_text() == v@[0]@
                    &&& forall|k: nat| k < v.len() ==> !old(self).tree().has_id(#[trigger] (old(self).next_id() + k))
                    &&& forall|q: Seq<usize>| #[trigger] old(self).tree().node_at(q) is Some ==> {
                        &&& final(self).tree().node_at(q) is Some
                        &&& final(self).tree().node_at(q)->0.id() == old(self).tree().node_at(q)->0.id()
                        &&& final(self).tree().node_at(q)->0.link_text() == old(self).tree().node_at(q)->0.link_text()
                        &&& final(self).tree().node_at(q)->0.parent() == old(self).tree().node_at(q)->0.parent()
                    }
                    &&& final(self).tree().node_at(path)->0.children().take(n as int) == old(self).tree().node_at(path)->0.children()
                    &&& forall|k: int| 0 <= k < v.len() ==> ((#[trigger] final(self).tree().node_at(path.push((n + k) as usize)))
                        matches Some(leaf) && leaf.id() == old(self).next_id() + k && leaf.link_text() == v@[k]@
                        && leaf.children().len() == 0 && leaf.parent() == old(self).tree().node_at(path)->0.id())
                },
            },
    {
        let ghost old_pending = self.pending();
        let path = self.pending.pop().unwrap();
        assert(self.pending() =~= old_pending.drop_last());
        assert(path@ == old_pending.last());
        assert(self.root.node_at(old_pending[old_pending.len() - 1]) is Some);
        assert forall|i: int| 0 <= i < self.pending().len() implies (#[trigger] self.root.node_at(self.pending()[i])) is Some by {
            assert(self.pending()[i] == old_pending[i]);
            assert(self.root.node_at(old_pending[i]) is Some);
        }
        match links {
            None => {
            },
            Some(v) => {
                let ghost old_root = self.root;
                let ghost first = self.ids.next_id();
                let n0 = self.root.node_ref_at(&path).child_count();
                self.root.add_children_at(&path, &v, &mut self.ids);
                proof {
                    LinkTreeNode::lemma_grafted(old_root, self.root, path@, views(v@), first);
                    LinkTreeNode::lemma_grafted_unique(old_root, self.root, path@, views(v@), first);
                    assert forall|i: int| 0 <= i < self.pending().len() implies (#[trigger] self.root.node_at(self.pending()[i])) is Some by {
                        assert(old_root.node_at(self.pending()[i]) is Some);
                    }
                    assert forall|k: nat| k < v.len() implies !old_root.has_id(#[trigger] (first + k)) by {
                        old_root.lemma_ids_below_excludes(first, first + k);
                    }
                }
                let n1 = self.root.node_ref_at(&path).child_count();
                assert(n1 == n0 + v.len());
                proof {
                    assert forall|k: int| 0 <= k < v.len() implies ((#[trigger] self.root.node_at(path@.push((n0 + k) as usize)))
                        matches Some(leaf) && leaf.id() == first + k && leaf.link_text() == v@[k]@
                        && leaf.children().len() == 0 && leaf.parent() == old_root.node_at(path@)->0.id()) by {
                        LinkTreeNode::lemma_grafted_leaves(old_root, self.root, path@, views(v@), first, k);
                        assert(views(v@)[k] == v@[k]@);
                    }
                }
                let ghost base = self.pending();
                let ghost new_root = self.root;
                let mut j: usize = v.len();
                while j > 0
                    invariant
                        j <= v.len(),
                        n1 == n0 + v.len(),
                        self.root == new_root,
                        self.root.well_linked(),
                        self.root.ids_below(self.ids.next_id()),
                        self.root.unique_ids(),
                        self.ids.next_id() == first + v.len(),
                        n0 == old_root.node_at(path@)->0.children().len(),
                        LinkTreeNode::grafted(old_root, self.root, path@, views(v@), first),
                        old_root.node_at(path@) is Some,
                        forall|i: int| 0 <= i < base.len() ==> (#[trigger] self.root.node_at(base[i])) is Some,
                        self.pending() == base + child_paths_last_first(path@, n0 as nat, v.len() as nat).take((v.len() - j) as int),
                    decreases j,
                {
                    j = j - 1;
                    let mut child_path: Vec<usize> = Vec::new();
                    let mut t: usize = 0;
                    while t < path.len()
                        invariant
                            t <= path.len(),
                            child_path@ == path@.take(t as int),
                        decreases path.len() - t,
                    {
                        child_path.push(path[t]);
                        t = t + 1;
                        assert(child_path@ =~= path@.take(t as int));
                    }
                    assert(path@.take(path.len() as int) =~= path@);
                    child_path.push(n0 + j);
                    let ghost before = self.pending();
                    self.pending.push(child_path);
                    proof {
                        let cp = child_paths_last_first(path@, n0 as nat, v.len() as nat);
                        assert(cp[(v.len() - 1 - j) as int] == child_path@);
                        assert(self.pending() =~= before.push(child_path@));
                        assert(cp.take((v.len() - j) as int) =~= cp.take((v.len() - 1 - j) as int).push(child_path@));
                    }
                }
                proof {
                    let cp = child_paths_last_first(path@, n0 as nat, v.len() as nat);
                    assert(cp.take(v.len() as int) =~= cp);
                    assert forall|i: int| 0 <= i < self.pending().len() implies (#[trigger] self.root.node_at(self.pending()[i])) is Some by {
                        if i >= base.len() {
                            let k = v.len() - 1 - (i - base.len());
                            assert(self.pending()[i] == path@.push((n0 + k) as usize));
                            LinkTreeNode::lemma_grafted_leaves(old_root, self.root, path@, views(v@), first, k);
                        }
                    }
                    assert(base.len() == old_pending.len() - 1);
                    assert(self.pending().take(base.len() as int) =~= base);
                    assert forall|k: int| 0 <= k < v.len() implies #[trigger] self.pending()[base.len() + (v.len() - 1 - k)]
                        == path@.push((n0 + k) as usize) by {
                        assert(cp[v.len() - 1 - k] == path@.push((n0 + k) as usize));
                    }
                    if v.len() > 0 {
                        assert(self.pending()[base.len() + (v.len() - 1 - 0)] == path@.push((n0 + 0) as usize));
                        assert(self.pending().last() == path@.push(n0 as usize));
                        LinkTreeNode::lemma_grafted_leaves(old_root, self.root, path@, views(v@), first, 0);
                        assert(views(v@)[0] == v@[0]@);
                    }
                }
            },
        }
    }

    /// The id that the next node will take.
    pub fn next_node_id(&self) -> (r: u32)
        ensures
            r == self.next_id(),
    {
        self.ids.peek()
    }

    /// The tree so far.
    pub fn root(&self) -> (r: &LinkTreeNode)
        ensures
            *r == self.tree(),
    {
        &self.root
    }
}

} // verus!
