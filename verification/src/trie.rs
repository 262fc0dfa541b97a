//! The zone-routing trie: maps a domain name to the most specific registered
//! zone entry, by longest registered suffix of the name's label path.
//!
//! A value's label path is ordered least-significant label first (as the
//! labels appear in a dotted name); the walk from the root consumes the path
//! from its most significant (last) label down. The tree is modelled as a
//! `Map` from whole label paths to the values stored at them.

use vstd::prelude::*;

verus! {

broadcast use vstd::std_specs::vec::group_vec_axioms, vstd::seq::group_seq_axioms;

/// A value that can be placed in (or used to query) the tree: it yields an
/// ordered sequence of domain labels, least-significant label first.
pub trait TreeSortable {
    /// The label path of this value, least-significant label first.
    spec fn path_spec(&self) -> Seq<Seq<u8>>;

    /// Computes the label path.
    fn get_path(&self) -> (r: Vec<Vec<u8>>)
        ensures
            r.deep_view() == self.path_spec(),
    ;
}

struct ChildEdge<T> {
    label: Vec<u8>,
    node: TreeNode<T>,
}

struct TreeNode<T> {
    value: Option<T>,
    children: Vec<ChildEdge<T>>,
}

/// A trie over domain label paths. Each node optionally holds one value,
/// standing for the zone spelled by the labels on the node's path.
pub struct Tree<T: TreeSortable> {
    root: TreeNode<T>,
}

impl<T> TreeNode<T> {
    /// The child node reached by `lab`: the first edge bearing that label.
    spec fn child(self, lab: Seq<u8>) -> Option<TreeNode<T>> {
        Self::edge_find(self.children@, lab)
    }

    spec fn edge_find(edges: Seq<ChildEdge<T>>, lab: Seq<u8>) -> Option<TreeNode<T>>
        decreases edges.len(),
    {
        if edges.len() == 0 {
            None
        } else if edges[0].label@ == lab {
            Some(edges[0].node)
        } else {
            Self::edge_find(edges.drop_first(), lab)
        }
    }

    /// Exact lookup: the value at the node reached by consuming the whole
    /// path, most-significant label first; `None` as soon as an edge misses.
    spec fn get_at(self, path: Seq<Seq<u8>>) -> Option<T>
        decreases path.len(),
    {
        if path.len() == 0 {
            self.value
        } else {
            match self.child(path.last()) {
                None => None,
                Some(c) => c.get_at(path.drop_last()),
            }
        }
    }

    /// Suffix lookup: walk as in `get_at`, but where an edge misses, stop and
    /// take the value of the node reached so far.
    spec fn find_at(self, path: Seq<Seq<u8>>) -> Option<T>
        decreases path.len(),
    {
        if path.len() == 0 {
            self.value
        } else {
            match self.child(path.last()) {
                None => self.value,
                Some(c) => c.find_at(path.drop_last()),
            }
        }
    }

    /// Some node of this subtree holds a value.
    spec fn has_value(self) -> bool
        decreases self,
    {
        self.value is Some || Self::edges_have_value(self.children@)
    }

    spec fn edges_have_value(edges: Seq<ChildEdge<T>>) -> bool
        decreases edges,
    {
        edges.len() > 0 && (edges[0].node.has_value() || Self::edges_have_value(
            edges.drop_first(),
        ))
    }

    /// Shape invariant: edge labels are distinct at every node, and every
    /// subtree holds a value somewhere — nodes only exist on values' paths.
    spec fn live(self) -> bool
        decreases self,
    {
        Self::edges_wf(self.children@)
    }

    spec fn edges_wf(edges: Seq<ChildEdge<T>>) -> bool
        decreases edges,
    {
        edges.len() == 0 || (edges[0].node.live() && edges[0].node.has_value() && (forall|j: int|
            1 <= j < edges.len() ==> (#[trigger] edges[j].label@) != edges[0].label@)
            && Self::edges_wf(edges.drop_first()))
    }

    proof fn lemma_edges_wf_at(edges: Seq<ChildEdge<T>>, i: int)
        requires
            Self::edges_wf(edges),
            0 <= i < edges.len(),
        ensures
            edges[i].node.live(),
            edges[i].node.has_value(),
        decreases i,
    {
        if i > 0 {
            Self::lemma_edges_wf_at(edges.drop_first(), i - 1);
        }
    }

    proof fn lemma_edges_wf_distinct(edges: Seq<ChildEdge<T>>, i: int, j: int)
        requires
            Self::edges_wf(edges),
            0 <= i < j < edges.len(),
        ensures
            edges[i].label@ != edges[j].label@,
        decreases i,
    {
        if i > 0 {
            Self::lemma_edges_wf_distinct(edges.drop_first(), i - 1, j - 1);
        }
    }

    /// Replacing an edge's node with a live, value-holding one, keeping its
    /// label, preserves well-formedness of the edge list.
    proof fn lemma_edges_wf_update(edges: Seq<ChildEdge<T>>, i: int, e2: ChildEdge<T>)
        requires
            Self::edges_wf(edges),
            0 <= i < edges.len(),
            e2.label@ == edges[i].label@,
            e2.node.live(),
            e2.node.has_value(),
        ensures
            Self::edges_wf(edges.update(i, e2)),
        decreases edges.len(),
    {
        let up = edges.update(i, e2);
        assert forall|j: int| 1 <= j < up.len() implies (#[trigger] up[j].label@)
            != up[0].label@ by {
            assert(up[j].label@ == edges[j].label@);
            assert(up[0].label@ == edges[0].label@);
            assert(edges[j].label@ != edges[0].label@);
        }
        if i == 0 {
            assert(up.drop_first() =~= edges.drop_first());
            assert(up[0] == e2);
        } else {
            assert(up[0] == edges[0]);
            assert(up.drop_first() =~= edges.drop_first().update(i - 1, e2));
            Self::lemma_edges_wf_update(edges.drop_first(), i - 1, e2);
        }
    }

    /// Appending a live, value-holding edge with a fresh label preserves
    /// well-formedness of the edge list.
    proof fn lemma_edges_wf_push(edges: Seq<ChildEdge<T>>, e: ChildEdge<T>)
        requires
            Self::edges_wf(edges),
            e.node.live(),
            e.node.has_value(),
            forall|j: int| 0 <= j < edges.len() ==> edges[j].label@ != e.label@,
        ensures
            Self::edges_wf(edges.push(e)),
        decreases edges.len(),
    {
        let up = edges.push(e);
        if edges.len() == 0 {
            assert(up[0] == e);
            assert(up.drop_first() =~= Seq::<ChildEdge<T>>::empty());
            assert(Self::edges_wf(Seq::<ChildEdge<T>>::empty()));
            assert(Self::edges_wf(up.drop_first()));
        } else {
            assert(up[0] == edges[0]);
            assert forall|j: int| 1 <= j < up.len() implies (#[trigger] up[j].label@)
                != up[0].label@ by {
                if j < edges.len() {
                    assert(up[j] == edges[j]);
                    assert(edges[j].label@ != edges[0].label@);
                } else {
                    assert(up[j] == e);
                    assert(edges[0].label@ != e.label@);
                }
            }
            assert(up.drop_first() =~= edges.drop_first().push(e));
            Self::lemma_edges_wf_push(edges.drop_first(), e);
            assert(Self::edges_wf(up.drop_first()));
        }
    }

    proof fn lemma_edges_have_value_at(edges: Seq<ChildEdge<T>>, i: int)
        requires
            0 <= i < edges.len(),
            edges[i].node.has_value(),
        ensures
            Self::edges_have_value(edges),
        decreases i,
    {
        if i > 0 {
            Self::lemma_edges_have_value_at(edges.drop_first(), i - 1);
        }
    }

    proof fn lemma_edge_find_at(edges: Seq<ChildEdge<T>>, lab: Seq<u8>, i: int)
        requires
            0 <= i < edges.len(),
            edges[i].label@ == lab,
            forall|j: int| 0 <= j < i ==> edges[j].label@ != lab,
        ensures
            Self::edge_find(edges, lab) == Some(edges[i].node),
        decreases i,
    {
        if i > 0 {
            Self::lemma_edge_find_at(edges.drop_first(), lab, i - 1);
        }
    }

    proof fn lemma_edge_find_none(edges: Seq<ChildEdge<T>>, lab: Seq<u8>)
        requires
            forall|j: int| 0 <= j < edges.len() ==> edges[j].label@ != lab,
        ensures
            Self::edge_find(edges, lab) is None,
        decreases edges.len(),
    {
        if edges.len() > 0 {
            Self::lemma_edge_find_none(edges.drop_first(), lab);
        }
    }

    proof fn lemma_edge_find_index(edges: Seq<ChildEdge<T>>, lab: Seq<u8>)
        requires
            Self::edge_find(edges, lab) is Some,
        ensures
            exists|i: int|
                0 <= i < edges.len() && edges[i].label@ == lab && edges[i].node
                    == Self::edge_find(edges, lab).unwrap(),
        decreases edges.len(),
    {
        if edges.len() > 0 {
            if edges[0].label@ == lab {
                assert(edges[0].label@ == lab && edges[0].node == Self::edge_find(
                    edges,
                    lab,
                ).unwrap());
            } else {
                Self::lemma_edge_find_index(edges.drop_first(), lab);
                let i = choose|i: int|
                    0 <= i < edges.drop_first().len() && edges.drop_first()[i].label@ == lab
                        && edges.drop_first()[i].node == Self::edge_find(
                        edges.drop_first(),
                        lab,
                    ).unwrap();
                assert(edges[i + 1].label@ == lab && edges[i + 1].node == Self::edge_find(
                    edges,
                    lab,
                ).unwrap());
            }
        }
    }

    /// Replacing the first `lab`-edge's node changes `edge_find` only at `lab`.
    proof fn lemma_edge_find_update(
        edges: Seq<ChildEdge<T>>,
        i: int,
        e2: ChildEdge<T>,
        lab2: Seq<u8>,
    )
        requires
            0 <= i < edges.len(),
            e2.label@ == edges[i].label@,
            forall|j: int| 0 <= j < i ==> edges[j].label@ != edges[i].label@,
        ensures
            Self::edge_find(edges.update(i, e2), lab2) == (if lab2 == edges[i].label@ {
                Some(e2.node)
            } else {
                Self::edge_find(edges, lab2)
            }),
        decreases edges.len(),
    {
        let up = edges.update(i, e2);
        if i == 0 {
            if lab2 == edges[0].label@ {
                assert(up[0].label@ == lab2);
            } else {
                assert(up[0].label@ != lab2);
                assert(up.drop_first() =~= edges.drop_first());
            }
        } else {
            assert(up[0] == edges[0]);
            if edges[0].label@ == lab2 {
            } else {
                assert(up.drop_first() =~= edges.drop_first().update(i - 1, e2));
                Self::lemma_edge_find_update(edges.drop_first(), i - 1, e2, lab2);
            }
        }
    }

    /// Appending an edge with a fresh label changes `edge_find` only there.
    proof fn lemma_edge_find_push(edges: Seq<ChildEdge<T>>, e: ChildEdge<T>, lab2: Seq<u8>)
        requires
            forall|j: int| 0 <= j < edges.len() ==> edges[j].label@ != e.label@,
        ensures
            Self::edge_find(edges.push(e), lab2) == (if lab2 == e.label@ {
                Some(e.node)
            } else {
                Self::edge_find(edges, lab2)
            }),
        decreases edges.len(),
    {
        let up = edges.push(e);
        if edges.len() == 0 {
            if lab2 != e.label@ {
                assert(Self::edge_find(edges, lab2) is None);
            }
        } else {
            assert(up[0] == edges[0]);
            if edges[0].label@ == lab2 {
            } else {
                assert(up.drop_first() =~= edges.drop_first().push(e));
                Self::lemma_edge_find_push(edges.drop_first(), e, lab2);
            }
        }
    }

    /// A node with no value and no children stores nothing at any path.
    proof fn lemma_empty_get_at(self, path: Seq<Seq<u8>>)
        requires
            self.value is None,
            self.children@.len() == 0,
        ensures
            self.get_at(path) is None,
    {
        if path.len() > 0 {
            Self::lemma_edge_find_none(self.children@, path.last());
        }
    }

    /// The index of the first edge bearing `lab`, if any.
    fn child_index(&self, lab: &Vec<u8>) -> (r: Option<usize>)
        ensures
            match r {
                Some(i) => 0 <= i < self.children@.len() && self.children@[i as int].label@ == lab@
                    && (forall|j: int| 0 <= j < i ==> self.children@[j].label@ != lab@),
                None => forall|j: int| 0 <= j < self.children@.len() ==> self.children@[j].label@
                    != lab@,
            },
    {
        let n = self.children.len();
        let mut k: usize = 0;
        while k < n
            invariant
                k <= n,
                n == self.children@.len(),
                forall|j: int| 0 <= j < k ==> self.children@[j].label@ != lab@,
            decreases n - k,
        {
            if self.children[k].label == *lab {
                assert(self.children@[k as int].label@ =~= lab@);
                return Some(k);
            }
            assert(self.children@[k as int].label@ != lab@);
            k += 1;
        }
        None
    }

    fn get_rec<'a>(&'a self, path: &Vec<Vec<u8>>, n: usize) -> (r: Option<&'a T>)
        requires
            n <= path@.len(),
        ensures
            match r {
                Some(v) => self.get_at(path.deep_view().take(n as int)) == Some(*v),
                None => self.get_at(path.deep_view().take(n as int)) is None,
            },
        decreases n,
    {
        let ghost p = path.deep_view().take(n as int);
        if n == 0 {
            return self.value.as_ref();
        }
        let lab = &path[n - 1];
        proof {
            assert(p.last() == lab@);
        }
        match self.child_index(lab) {
            None => {
                proof {
                    Self::lemma_edge_find_none(self.children@, lab@);
                }
                None
            },
            Some(i) => {
                proof {
                    Self::lemma_edge_find_at(self.children@, lab@, i as int);
                    assert(p.drop_last() =~= path.deep_view().take(n as int - 1));
                }
                self.children[i].node.get_rec(path, n - 1)
            },
        }
    }

    fn find_rec<'a>(&'a self, path: &Vec<Vec<u8>>, n: usize) -> (r: Option<&'a T>)
        requires
            n <= path@.len(),
        ensures
            match r {
                Some(v) => self.find_at(path.deep_view().take(n as int)) == Some(*v),
                None => self.find_at(path.deep_view().take(n as int)) is None,
            },
        decreases n,
    {
        let ghost p = path.deep_view().take(n as int);
        if n == 0 {
            return self.value.as_ref();
        }
        let lab = &path[n - 1];
        proof {
            assert(p.last() == lab@);
        }
        match self.child_index(lab) {
            None => {
                proof {
                    Self::lemma_edge_find_none(self.children@, lab@);
                }
                self.value.as_ref()
            },
            Some(i) => {
                proof {
                    Self::lemma_edge_find_at(self.children@, lab@, i as int);
                    assert(p.drop_last() =~= path.deep_view().take(n as int - 1));
                }
                self.children[i].node.find_rec(path, n - 1)
            },
        }
    }

    fn insert_rec(&mut self, path: &Vec<Vec<u8>>, n: usize, value: T) -> (prev: Option<T>)
        requires
            n <= path@.len(),
            old(self).live(),
        ensures
            final(self).live(),
            final(self).has_value(),
            prev == old(self).get_at(path.deep_view().take(n as int)),
            forall|q: Seq<Seq<u8>>| #[trigger]
                final(self).get_at(q) == (if q == path.deep_view().take(n as int) {
                    Some(value)
                } else {
                    old(self).get_at(q)
                }),
        decreases n,
    {
        let ghost p = path.deep_view().take(n as int);
        if n == 0 {
            let prev = self.value.take();
            self.value = Some(value);
            proof {
                assert(p =~= Seq::<Seq<u8>>::empty());
                assert forall|q: Seq<Seq<u8>>|
                    final(self).get_at(q) == (if q == p {
                        Some(value)
                    } else {
                        old(self).get_at(q)
                    }) by {
                    if q.len() == 0 {
                        assert(q =~= p);
                    } else {
                        assert(q != p);
                    }
                }
            }
            return prev;
        }
        let lab = &path[n - 1];
        let ghost p1 = path.deep_view().take(n as int - 1);
        proof {
            assert(p.last() == lab@);
            assert(p.drop_last() =~= p1);
        }
        let idx = match self.child_index(lab) {
            Some(i) => i,
            None => {
                let i = self.children.len();
                let fresh = TreeNode::<T> { value: None, children: Vec::new() };
                let label_copy = vstd::slice::slice_to_vec(lab.as_slice());
                proof {
                    Self::lemma_edge_find_none(old(self).children@, lab@);
                    assert(fresh.live());
                }
                self.children.push(ChildEdge { label: label_copy, node: fresh });
                proof {
                    assert(self.children@[i as int].node.live());
                    assert(self.children@[i as int].node.value is None);
                    assert(self.children@[i as int].node.children@.len() == 0);
                }
                i
            },
        };
        let ghost mid = *self;
        let ghost was_present = (idx as int) < old(self).children@.len();
        // The edge at idx is the first one bearing lab@; in the fresh case its
        // node is an empty, live node and the old tree had no lab@ edge.
        proof {
            assert(0 <= idx < mid.children@.len());
            assert(mid.children@[idx as int].label@ == lab@);
            assert(forall|j: int| 0 <= j < idx ==> mid.children@[j].label@ != lab@);
            if was_present {
                assert(mid == *old(self));
                Self::lemma_edge_find_at(old(self).children@, lab@, idx as int);
                assert(old(self).child(lab@) == Some(mid.children@[idx as int].node));
                Self::lemma_edges_wf_at(old(self).children@, idx as int);
            } else {
                assert(idx as int == old(self).children@.len());
                Self::lemma_edge_find_none(old(self).children@, lab@);
                assert(old(self).child(lab@) is None);
                assert(mid.children@[idx as int].node.value is None);
                assert(mid.children@[idx as int].node.children@.len() == 0);
                assert(forall|i: int|
                    0 <= i < old(self).children@.len() ==> mid.children@[i]
                        == old(self).children@[i]);
            }
            assert(mid.children@[idx as int].node.live());
        }
        let mut edge = self.children.remove(idx);
        let ghost sub_old = edge.node;
        let prev = edge.node.insert_rec(path, n - 1, value);
        let ghost sub_new = edge.node;
        let ghost e2 = ChildEdge { label: edge.label, node: edge.node };
        self.children.insert(idx, edge);
        proof {
            assert(self.children@ =~= mid.children@.update(idx as int, e2));
            assert(e2.label@ == lab@);
            assert forall|lab2: Seq<u8>|
                Self::edge_find(self.children@, lab2) == (if lab2 == lab@ {
                    Some(sub_new)
                } else {
                    Self::edge_find(mid.children@, lab2)
                }) by {
                Self::lemma_edge_find_update(mid.children@, idx as int, e2, lab2);
            }
            // In the fresh case an edge with a new label changes nothing else.
            if !was_present {
                assert forall|lab2: Seq<u8>| lab2 != lab@ implies Self::edge_find(
                    mid.children@,
                    lab2,
                ) == Self::edge_find(old(self).children@, lab2) by {
                    assert(mid.children@ =~= old(self).children@.push(
                        mid.children@[idx as int],
                    ));
                    Self::lemma_edge_find_push(
                        old(self).children@,
                        mid.children@[idx as int],
                        lab2,
                    );
                }
            }
            // Pointwise description of the new tree's stored values.
            assert forall|q: Seq<Seq<u8>>|
                final(self).get_at(q) == (if q == p {
                    Some(value)
                } else {
                    old(self).get_at(q)
                }) by {
                if q.len() == 0 {
                    assert(q != p);
                    assert(final(self).value == old(self).value);
                } else {
                    if q.last() == lab@ {
                        assert(final(self).get_at(q) == sub_new.get_at(q.drop_last()));
                        if q.drop_last() == p1 {
                            assert(q =~= p);
                            assert(final(self).get_at(q) == Some(value));
                        } else {
                            assert(q != p);
                            assert(sub_new.get_at(q.drop_last()) == sub_old.get_at(q.drop_last()));
                            if was_present {
                                assert(old(self).child(lab@) == Some(sub_old));
                                assert(old(self).get_at(q) == sub_old.get_at(q.drop_last()));
                            } else {
                                sub_old.lemma_empty_get_at(q.drop_last());
                                assert(old(self).get_at(q) is None);
                            }
                        }
                    } else {
                        assert(q != p);
                        assert(final(self).get_at(q) == old(self).get_at(q));
                    }
                }
            }
            // prev is the old stored value at p.
            if was_present {
                assert(old(self).child(lab@) == Some(sub_old));
                assert(old(self).get_at(p) == sub_old.get_at(p1));
            } else {
                assert(old(self).get_at(p) is None);
            }
            // Liveness is preserved: only the idx edge changed, to a live,
            // value-holding subtree; labels are unchanged.
            assert(sub_new.live() && sub_new.has_value());
            assert(e2.node == sub_new);
            if was_present {
                Self::lemma_edges_wf_update(old(self).children@, idx as int, e2);
                assert(final(self).children@ =~= old(self).children@.update(idx as int, e2));
            } else {
                Self::lemma_edges_wf_push(old(self).children@, e2);
                assert(final(self).children@ =~= old(self).children@.push(e2));
            }
            assert(final(self).live());
            Self::lemma_edges_have_value_at(final(self).children@, idx as int);
            assert(final(self).has_value());
        }
        prev
    }
}

impl<T: TreeSortable> Tree<T> {
    /// The tree as a map from whole label paths to the values stored at them.
    pub closed spec fn as_path_map(self) -> Map<Seq<Seq<u8>>, T> {
        Map::new(|p: Seq<Seq<u8>>| self.root.get_at(p) is Some, |p| self.root.get_at(p).unwrap())
    }

    /// The result of the suffix walk for `path`: the value of the node where
    /// the walk stops (see `find`).
    pub closed spec fn spec_find(self, path: Seq<Seq<u8>>) -> Option<T> {
        self.root.find_at(path)
    }

    /// Shape invariant, established by `new` and kept by `insert`: edge
    /// labels are distinct at each node and nodes exist only on the paths of
    /// stored values.
    pub closed spec fn wf(self) -> bool {
        self.root.live()
    }

    pub fn new() -> (t: Self)
        ensures
            t.wf(),
            t@ == Map::<Seq<Seq<u8>>, T>::empty(),
    {
        let t = Tree::<T> { root: TreeNode { value: None, children: Vec::new() } };
        proof {
            assert forall|p: Seq<Seq<u8>>| t.root.get_at(p) is None by {
                t.root.lemma_empty_get_at(p);
            }
            assert(t@ =~= Map::<Seq<Seq<u8>>, T>::empty());
        }
        t
    }

    /// Stores `value` at its own label path, returning the value previously
    /// stored at exactly that path, if any: the last insert for a path wins.
    pub fn insert(&mut self, value: T) -> (prev: Option<T>)
        requires
            old(self).wf(),
        ensures
            final(self).wf(),
            final(self)@ == old(self)@.insert(value.path_spec(), value),
            prev == (if old(self)@.dom().contains(value.path_spec()) {
                Some(old(self)@[value.path_spec()])
            } else {
                None::<T>
            }),
    {
        let path = value.get_path();
        let n = path.len();
        let ghost vp = value.path_spec();
        proof {
            assert(path.deep_view().take(n as int) =~= vp);
        }
        let prev = self.root.insert_rec(&path, n, value);
        proof {
            assert(final(self)@ =~= old(self)@.insert(vp, value));
        }
        prev
    }

    /// Longest-suffix lookup: walks the registered labels from the most
    /// significant down and returns the value of the node where the walk
    /// stops — the entry of the longest registered suffix reachable along
    /// `path` — or `None` when that node holds no value.
    pub fn find<U: TreeSortable>(&self, path: &U) -> (r: Option<&T>)
        ensures
            match r {
                Some(v) => self.spec_find(path.path_spec()) == Some(*v),
                None => self.spec_find(path.path_spec()) is None,
            },
    {
        let labels = path.get_path();
        let n = labels.len();
        proof {
            assert(labels.deep_view().take(n as int) =~= path.path_spec());
        }
        self.root.find_rec(&labels, n)
    }

    /// Exact lookup: the value stored at exactly `path`'s labels, with no
    /// ancestor fallback.
    pub fn get<U: TreeSortable>(&self, path: &U) -> (r: Option<&T>)
        ensures
            match r {
                Some(v) => self@.dom().contains(path.path_spec()) && *v == self@[path.path_spec()],
                None => !self@.dom().contains(path.path_spec()),
            },
    {
        let labels = path.get_path();
        let n = labels.len();
        proof {
            assert(labels.deep_view().take(n as int) =~= path.path_spec());
        }
        self.root.get_rec(&labels, n)
    }
}

/// `s` is a label-wise suffix of `p`: `p` ends with exactly `s`'s labels.
pub open spec fn is_path_suffix(s: Seq<Seq<u8>>, p: Seq<Seq<u8>>) -> bool {
    s.len() <= p.len() && s == p.skip(p.len() - s.len())
}

/// Between any registered path and a longer registered path, every
/// intermediate suffix is registered too. The suffix walk cannot skip back
/// over an unregistered intermediate node, so the longest-suffix reading of
/// `find` is exact precisely for zone sets closed in this sense.
pub open spec fn suffix_closed<T>(m: Map<Seq<Seq<u8>>, T>) -> bool {
    forall|z1: Seq<Seq<u8>>, p: Seq<Seq<u8>>, z2: Seq<Seq<u8>>|
        #![trigger m.dom().contains(z1), m.dom().contains(p), m.dom().contains(z2)]
        m.dom().contains(z1) && m.dom().contains(z2) && is_path_suffix(z1, p) && is_path_suffix(
            p,
            z2,
        ) ==> m.dom().contains(p)
}

impl<T> TreeNode<T> {
    /// `suffix_closed`, phrased over the stored values of this subtree.
    spec fn node_closed(self) -> bool {
        forall|z1: Seq<Seq<u8>>, p: Seq<Seq<u8>>, z2: Seq<Seq<u8>>|
            #![trigger self.get_at(z1), self.get_at(p), self.get_at(z2)]
            self.get_at(z1) is Some && self.get_at(z2) is Some && is_path_suffix(z1, p)
                && is_path_suffix(p, z2) ==> self.get_at(p) is Some
    }

    proof fn lemma_suffix_step(s: Seq<Seq<u8>>, q: Seq<Seq<u8>>)
        requires
            q.len() > 0,
            s.len() > 0,
            is_path_suffix(s, q),
        ensures
            s.last() == q.last(),
            is_path_suffix(s.drop_last(), q.drop_last()),
    {
        let k = q.len() - s.len();
        assert(s.last() == q.skip(k).last());
        assert(s.drop_last() =~= q.drop_last().skip(k));
    }

    proof fn lemma_suffix_extend(s: Seq<Seq<u8>>, q: Seq<Seq<u8>>)
        requires
            q.len() > 0,
            is_path_suffix(s, q.drop_last()),
        ensures
            is_path_suffix(s.push(q.last()), q),
    {
        assert(s.push(q.last()) =~= q.skip(q.len() - s.len() - 1));
    }

    proof fn lemma_suffix_push(a: Seq<Seq<u8>>, b: Seq<Seq<u8>>, x: Seq<u8>)
        requires
            is_path_suffix(a, b),
        ensures
            is_path_suffix(a.push(x), b.push(x)),
    {
        assert(a.push(x) =~= b.push(x).skip(b.len() - a.len()));
    }

    proof fn lemma_empty_suffix(q: Seq<Seq<u8>>)
        ensures
            is_path_suffix(Seq::<Seq<u8>>::empty(), q),
    {
        assert(Seq::<Seq<u8>>::empty() =~= q.skip(q.len() as int));
    }

    /// Walking `s.push(lab)` from a node first takes the `lab` edge, then
    /// walks `s` in the child.
    proof fn lemma_get_shift(n: TreeNode<T>, c: TreeNode<T>, lab: Seq<u8>, s: Seq<Seq<u8>>)
        requires
            n.child(lab) == Some(c),
        ensures
            n.get_at(s.push(lab)) == c.get_at(s),
    {
        let sp = s.push(lab);
        assert(sp.last() == lab);
        assert(sp.drop_last() =~= s);
    }

    proof fn lemma_closed_child(n: TreeNode<T>, c: TreeNode<T>, lab: Seq<u8>)
        requires
            n.node_closed(),
            n.child(lab) == Some(c),
        ensures
            c.node_closed(),
    {
        assert forall|z1: Seq<Seq<u8>>, p: Seq<Seq<u8>>, z2: Seq<Seq<u8>>|
            #![trigger c.get_at(z1), c.get_at(p), c.get_at(z2)]
            c.get_at(z1) is Some && c.get_at(z2) is Some && is_path_suffix(z1, p)
                && is_path_suffix(p, z2) implies c.get_at(p) is Some by {
            Self::lemma_get_shift(n, c, lab, z1);
            Self::lemma_get_shift(n, c, lab, z2);
            Self::lemma_get_shift(n, c, lab, p);
            Self::lemma_suffix_push(z1, p, lab);
            Self::lemma_suffix_push(p, z2, lab);
            assert(n.get_at(z1.push(lab)) is Some && n.get_at(z2.push(lab)) is Some);
            assert(n.get_at(p.push(lab)) is Some);
        }
    }

    proof fn lemma_edges_have_value_index(edges: Seq<ChildEdge<T>>)
        requires
            Self::edges_have_value(edges),
        ensures
            exists|i: int| 0 <= i < edges.len() && (#[trigger] edges[i].node.has_value()),
        decreases edges.len(),
    {
        if edges[0].node.has_value() {
            assert(0 <= 0 < edges.len() && edges[0].node.has_value());
        } else {
            Self::lemma_edges_have_value_index(edges.drop_first());
            let i = choose|i: int|
                0 <= i < edges.drop_first().len() && (#[trigger] edges.drop_first()[i].node.has_value());
            assert(edges[i + 1].node.has_value());
        }
    }

    /// A live subtree that holds a value somewhere stores a value at some
    /// path.
    proof fn lemma_has_value_witness(n: TreeNode<T>)
        requires
            n.live(),
            n.has_value(),
        ensures
            exists|z: Seq<Seq<u8>>| (#[trigger] n.get_at(z)) is Some,
        decreases n,
    {
        if n.value is Some {
            assert(n.get_at(Seq::<Seq<u8>>::empty()) is Some);
        } else {
            Self::lemma_edges_have_value_index(n.children@);
            let i = choose|i: int|
                0 <= i < n.children@.len() && (#[trigger] n.children@[i].node.has_value());
            let c = n.children@[i].node;
            let lab = n.children@[i].label@;
            assert forall|j: int| 0 <= j < i implies n.children@[j].label@ != lab by {
                Self::lemma_edges_wf_distinct(n.children@, j, i);
            }
            Self::lemma_edge_find_at(n.children@, lab, i);
            Self::lemma_edges_wf_at(n.children@, i);
            Self::lemma_has_value_witness(c);
            let z = choose|z: Seq<Seq<u8>>| (#[trigger] c.get_at(z)) is Some;
            Self::lemma_get_shift(n, c, lab, z);
            assert(n.get_at(z.push(lab)) is Some);
        }
    }

    /// When the suffix walk returns a value, that value sits at a registered
    /// suffix of the query, and no longer suffix is registered.
    proof fn lemma_find_at_some(n: TreeNode<T>, q: Seq<Seq<u8>>)
        requires
            n.find_at(q) is Some,
        ensures
            exists|s: Seq<Seq<u8>>|
                {
                    &&& #[trigger] is_path_suffix(s, q)
                    &&& n.get_at(s) == n.find_at(q)
                    &&& forall|s2: Seq<Seq<u8>>|
                        is_path_suffix(s2, q) && (#[trigger] n.get_at(s2)) is Some ==> s2.len()
                            <= s.len()
                },
        decreases q.len(),
    {
        if q.len() == 0 {
            let s = Seq::<Seq<u8>>::empty();
            Self::lemma_empty_suffix(q);
            assert(s =~= q.skip(0));
            assert forall|s2: Seq<Seq<u8>>|
                is_path_suffix(s2, q) && (#[trigger] n.get_at(s2)) is Some implies s2.len()
                <= s.len() by {}
            assert(is_path_suffix(s, q) && n.get_at(s) == n.find_at(q));
        } else {
            match n.child(q.last()) {
                None => {
                    let s = Seq::<Seq<u8>>::empty();
                    Self::lemma_empty_suffix(q);
                    assert forall|s2: Seq<Seq<u8>>|
                        is_path_suffix(s2, q) && (#[trigger] n.get_at(s2)) is Some implies s2.len()
                        <= s.len() by {
                        if s2.len() > 0 {
                            Self::lemma_suffix_step(s2, q);
                            assert(n.get_at(s2) is None);
                        }
                    }
                    assert(is_path_suffix(s, q) && n.get_at(s) == n.find_at(q));
                },
                Some(c) => {
                    Self::lemma_find_at_some(c, q.drop_last());
                    let s1 = choose|s1: Seq<Seq<u8>>|
                        {
                            &&& #[trigger] is_path_suffix(s1, q.drop_last())
                            &&& c.get_at(s1) == c.find_at(q.drop_last())
                            &&& forall|s2: Seq<Seq<u8>>|
                                is_path_suffix(s2, q.drop_last()) && (#[trigger] c.get_at(s2))
                                    is Some ==> s2.len() <= s1.len()
                        };
                    let s = s1.push(q.last());
                    Self::lemma_suffix_extend(s1, q);
                    Self::lemma_get_shift(n, c, q.last(), s1);
                    assert forall|s2: Seq<Seq<u8>>|
                        is_path_suffix(s2, q) && (#[trigger] n.get_at(s2)) is Some implies s2.len()
                        <= s.len() by {
                        if s2.len() > 0 {
                            Self::lemma_suffix_step(s2, q);
                            assert(s2 =~= s2.drop_last().push(s2.last()));
                            Self::lemma_get_shift(n, c, q.last(), s2.drop_last());
                            assert(c.get_at(s2.drop_last()) is Some);
                        }
                    }
                    assert(is_path_suffix(s, q) && n.get_at(s) == n.find_at(q));
                },
            }
        }
    }

    /// When the suffix walk returns nothing — and the stored set is
    /// suffix-closed — no suffix of the query is registered at all.
    proof fn lemma_find_at_none(n: TreeNode<T>, q: Seq<Seq<u8>>)
        requires
            n.live(),
            n.node_closed(),
            n.find_at(q) is None,
        ensures
            forall|s: Seq<Seq<u8>>| is_path_suffix(s, q) ==> (#[trigger] n.get_at(s)) is None,
        decreases q.len(),
    {
        if q.len() == 0 {
            assert forall|s: Seq<Seq<u8>>| is_path_suffix(s, q) implies (#[trigger] n.get_at(s))
                is None by {
                assert(s =~= Seq::<Seq<u8>>::empty());
            }
        } else {
            match n.child(q.last()) {
                None => {
                    assert forall|s: Seq<Seq<u8>>| is_path_suffix(s, q) implies (#[trigger] n.get_at(
                        s,
                    )) is None by {
                        if s.len() == 0 {
                            assert(s =~= Seq::<Seq<u8>>::empty());
                        } else {
                            Self::lemma_suffix_step(s, q);
                        }
                    }
                },
                Some(c) => {
                    let lab = q.last();
                    Self::lemma_edge_find_index(n.children@, lab);
                    let i = choose|i: int|
                        0 <= i < n.children@.len() && n.children@[i].label@ == lab
                            && n.children@[i].node == Self::edge_find(n.children@, lab).unwrap();
                    Self::lemma_edges_wf_at(n.children@, i);
                    Self::lemma_closed_child(n, c, lab);
                    Self::lemma_find_at_none(c, q.drop_last());
                    // No value may sit at the node itself: the walk died deeper,
                    // and closedness would then put a value on the child's path.
                    if n.get_at(Seq::<Seq<u8>>::empty()) is Some {
                        Self::lemma_has_value_witness(c);
                        let z = choose|z: Seq<Seq<u8>>| (#[trigger] c.get_at(z)) is Some;
                        Self::lemma_get_shift(n, c, lab, z);
                        let single = Seq::<Seq<u8>>::empty().push(lab);
                        Self::lemma_empty_suffix(single);
                        Self::lemma_empty_suffix(z);
                        Self::lemma_suffix_push(Seq::<Seq<u8>>::empty(), z, lab);
                        assert(n.get_at(z.push(lab)) is Some);
                        assert(is_path_suffix(single, z.push(lab)));
                        assert(n.get_at(single) is Some);
                        Self::lemma_get_shift(n, c, lab, Seq::<Seq<u8>>::empty());
                        assert(c.get_at(Seq::<Seq<u8>>::empty()) is Some);
                        Self::lemma_empty_suffix(q.drop_last());
                        assert(false);
                    }
                    assert forall|s: Seq<Seq<u8>>| is_path_suffix(s, q) implies (#[trigger] n.get_at(
                        s,
                    )) is None by {
                        if s.len() == 0 {
                            assert(s =~= Seq::<Seq<u8>>::empty());
                        } else {
                            Self::lemma_suffix_step(s, q);
                            assert(s =~= s.drop_last().push(s.last()));
                            Self::lemma_get_shift(n, c, lab, s.drop_last());
                            assert(c.get_at(s.drop_last()) is None);
                        }
                    }
                },
            }
        }
    }
}

impl<T: TreeSortable> Tree<T> {
    /// The longest-suffix law. For a well-formed tree whose registered zone
    /// set is suffix-closed, `find`'s walk returns the value of the longest
    /// registered label-suffix of the query, and returns nothing exactly when
    /// no suffix of the query is registered.
    pub proof fn lemma_find_longest_suffix(self, q: Seq<Seq<u8>>)
        requires
            self.wf(),
            suffix_closed(self@),
        ensures
            match self.spec_find(q) {
                Some(v) => exists|s: Seq<Seq<u8>>|
                    {
                        &&& #[trigger] is_path_suffix(s, q)
                        &&& self@.dom().contains(s)
                        &&& self@[s] == v
                        &&& forall|s2: Seq<Seq<u8>>|
                            is_path_suffix(s2, q) && self@.dom().contains(s2) ==> s2.len()
                                <= s.len()
                    },
                None => forall|s: Seq<Seq<u8>>|
                    is_path_suffix(s, q) ==> !self@.dom().contains(s),
            },
    {
        let root = self.root;
        assert forall|p: Seq<Seq<u8>>| #[trigger]
            self@.dom().contains(p) == (root.get_at(p) is Some) by {}
        assert forall|z1: Seq<Seq<u8>>, p: Seq<Seq<u8>>, z2: Seq<Seq<u8>>|
            #![trigger root.get_at(z1), root.get_at(p), root.get_at(z2)]
            root.get_at(z1) is Some && root.get_at(z2) is Some && is_path_suffix(z1, p)
                && is_path_suffix(p, z2) implies root.get_at(p) is Some by {
            assert(self@.dom().contains(z1) && self@.dom().contains(z2));
            assert(self@.dom().contains(p));
        }
        assert(root.node_closed());
        match self.spec_find(q) {
            Some(v) => {
                TreeNode::<T>::lemma_find_at_some(root, q);
                let s = choose|s: Seq<Seq<u8>>|
                    {
                        &&& #[trigger] is_path_suffix(s, q)
                        &&& root.get_at(s) == root.find_at(q)
                        &&& forall|s2: Seq<Seq<u8>>|
                            is_path_suffix(s2, q) && (#[trigger] root.get_at(s2)) is Some
                                ==> s2.len() <= s.len()
                    };
                assert(self@.dom().contains(s) && self@[s] == v);
                assert forall|s2: Seq<Seq<u8>>|
                    is_path_suffix(s2, q) && self@.dom().contains(s2) implies s2.len()
                    <= s.len() by {
                    assert(root.get_at(s2) is Some);
                }
                assert(is_path_suffix(s, q) && self@.dom().contains(s) && self@[s] == v && (
                forall|s2: Seq<Seq<u8>>|
                    is_path_suffix(s2, q) && self@.dom().contains(s2) ==> s2.len() <= s.len()));
            },
            None => {
                TreeNode::<T>::lemma_find_at_none(root, q);
            },
        }
    }
}

impl<T: TreeSortable> View for Tree<T> {
    type V = Map<Seq<Seq<u8>>, T>;

    open spec fn view(&self) -> Map<Seq<Seq<u8>>, T> {
        self.as_path_map()
    }
}

} // verus!

