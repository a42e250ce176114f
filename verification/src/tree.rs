//! The relation graph: single-parent / multi-child edges over handles,
//! keyed by handle identity.

use crate::handle::PinNode;
use std::collections::HashMap;
use vstd::prelude::*;

verus! {

broadcast use vstd::std_specs::hash::group_hash_axioms;

/// Some handle in `s` has identity `c`.
pub open spec fn seq_has_id<T>(s: Seq<PinNode<T>>, c: usize) -> bool {
    exists|i: int| 0 <= i < s.len() && (#[trigger] s[i]).id() == c
}

/// No two handles in `s` share an identity.
pub open spec fn no_dup_ids<T>(s: Seq<PinNode<T>>) -> bool {
    forall|i: int, j: int| 0 <= i < j < s.len() ==> (#[trigger] s[i]).id() != (#[trigger] s[j]).id()
}

/// A relation graph over identity-keyed handles.
///
/// The graph owns a clone of every registered handle, keyed by its
/// identity, and mirrors every parent edge in the parent's child list:
/// `x` has parent `p` exactly when `x` stands in `p`'s child list. A node
/// has at most one parent at a time; cycles and self-loops are ordinary
/// states, never errors.
#[derive(Debug)]
pub struct PinTree<T> {
    nodes: HashMap<usize, PinNode<T>>,
    parents: HashMap<usize, PinNode<T>>,
    childs: HashMap<usize, Vec<PinNode<T>>>,
}

impl<T> PinTree<T> {
    /// The identities of the registered nodes.
    pub closed spec fn node_ids(self) -> Set<usize> {
        self.nodes@.dom()
    }

    /// The node with identity `x` is registered.
    pub open spec fn has_node(self, x: usize) -> bool {
        self.node_ids().contains(x)
    }

    /// The node with identity `x` has a recorded parent.
    pub closed spec fn has_parent(self, x: usize) -> bool {
        self.parents@.contains_key(x)
    }

    /// The recorded parent of `x` is `p`.
    pub closed spec fn parent_edge(self, x: usize, p: usize) -> bool {
        self.parents@.contains_key(x) && self.parents@[x].id() == p
    }

    /// `x` stands in the recorded child list of `p`.
    pub closed spec fn child_edge(self, p: usize, x: usize) -> bool {
        self.childs@.contains_key(p) && seq_has_id(self.childs@[p]@, x)
    }

    /// The graph's invariant: stored handles are filed under their own
    /// identity, every edge endpoint is registered, child lists hold no
    /// duplicates, and the parent map and the child lists mirror each
    /// other exactly.
    pub closed spec fn wf(self) -> bool {
        &&& forall|k: usize| #[trigger] self.nodes@.contains_key(k) ==> self.nodes@[k].id() == k
        &&& forall|k: usize| #[trigger] self.parents@.contains_key(k)
            ==> self.nodes@.contains_key(k) && self.nodes@.contains_key(self.parents@[k].id())
        &&& forall|k: usize| #[trigger] self.childs@.contains_key(k)
            ==> self.nodes@.contains_key(k) && no_dup_ids(self.childs@[k]@)
        &&& forall|p: usize, x: usize|
            #![trigger self.child_edge(p, x)]
            #![trigger self.parent_edge(x, p)]
            self.child_edge(p, x) <==> self.parent_edge(x, p)
    }

    /// Create an empty graph.
    pub fn new() -> (t: Self)
        ensures
            t.wf(),
            t.node_ids() == Set::<usize>::empty(),
            forall|x: usize, p: usize| !(#[trigger] t.parent_edge(x, p)),
            forall|p: usize, x: usize| !(#[trigger] t.child_edge(p, x)),
            forall|x: usize| !(#[trigger] t.has_parent(x)),
    {
        let t = PinTree {
            nodes: HashMap::new(),
            parents: HashMap::new(),
            childs: HashMap::new(),
        };
        proof {
            assert(t.node_ids() =~= Set::<usize>::empty());
        }
        t
    }

    /// Check whether the graph has registered this handle.
    pub fn has(&self, node: &PinNode<T>) -> (r: bool)
        ensures
            r == self.has_node(node.id()),
    {
        self.nodes.contains_key(&node.key())
    }

    /// Register an existing handle. Returns `true` if it was newly
    /// inserted, `false` if it was already registered; a second call with
    /// the same handle never changes the graph.
    pub fn node_from(&mut self, node: PinNode<T>) -> (r: bool)
        requires
            old(self).wf(),
        ensures
            final(self).wf(),
            r == !old(self).has_node(node.id()),
            final(self).node_ids() == old(self).node_ids().insert(node.id()),
            !r ==> *final(self) == *old(self),
            forall|x: usize, p: usize|
                #![trigger final(self).parent_edge(x, p)]
                final(self).parent_edge(x, p) == old(self).parent_edge(x, p),
            forall|p: usize, x: usize|
                #![trigger final(self).child_edge(p, x)]
                final(self).child_edge(p, x) == old(self).child_edge(p, x),
            forall|x: usize| #[trigger] final(self).has_parent(x) == old(self).has_parent(x),
    {
        let k = node.key();
        let r: bool;
        if self.nodes.contains_key(&k) {
            r = false;
        } else {
            self.nodes.insert(k, node);
            r = true;
        }
        proof {
            assert(self.node_ids() =~= old(self).node_ids().insert(k));
            assert forall|p: usize, x: usize|
                self.child_edge(p, x) == old(self).child_edge(p, x)
                && self.parent_edge(x, p) == old(self).parent_edge(x, p) by {}
            assert forall|p: usize, x: usize|
                #![trigger self.child_edge(p, x)]
                #![trigger self.parent_edge(x, p)]
                self.child_edge(p, x) <==> self.parent_edge(x, p) by {
                assert(self.child_edge(p, x) == old(self).child_edge(p, x));
                assert(self.parent_edge(x, p) == old(self).parent_edge(x, p));
                assert(old(self).child_edge(p, x) <==> old(self).parent_edge(x, p));
            }
        }
        r
    }

    /// Create a fresh handle for `v` and register it. The handle's
    /// identity is new to the graph: it was not registered before, and no
    /// edge touches it.
    pub fn node(&mut self, v: T) -> (n: PinNode<T>)
        requires
            old(self).wf(),
        ensures
            final(self).wf(),
            n.wraps(v),
            !old(self).has_node(n.id()),
            final(self).has_node(n.id()),
            final(self).node_ids() == old(self).node_ids().insert(n.id()),
            forall|x: usize, p: usize|
                #![trigger final(self).parent_edge(x, p)]
                final(self).parent_edge(x, p) == old(self).parent_edge(x, p),
            forall|p: usize, x: usize|
                #![trigger final(self).child_edge(p, x)]
                final(self).child_edge(p, x) == old(self).child_edge(p, x),
            forall|x: usize| #[trigger] final(self).has_parent(x) == old(self).has_parent(x),
            !final(self).has_parent(n.id()),
            forall|q: usize| !(#[trigger] final(self).parent_edge(n.id(), q)),
            forall|q: usize| !(#[trigger] final(self).parent_edge(q, n.id())),
            forall|q: usize| !(#[trigger] final(self).child_edge(n.id(), q)),
            forall|q: usize| !(#[trigger] final(self).child_edge(q, n.id())),
    {
        let n = PinNode::new_distinct_from(v, &self.nodes);
        self.node_from(n.clone());
        proof {
            let k = n.id();
            assert(!old(self).has_parent(k));
            assert forall|q: usize| !(#[trigger] self.parent_edge(k, q)) by {
                assert(self.parent_edge(k, q) == old(self).parent_edge(k, q));
            }
            assert forall|q: usize| !(#[trigger] self.parent_edge(q, k)) by {
                assert(self.parent_edge(q, k) == old(self).parent_edge(q, k));
                if old(self).parents@.contains_key(q) {
                    assert(old(self).nodes@.contains_key(old(self).parents@[q].id()));
                }
            }
            assert forall|q: usize| !(#[trigger] self.child_edge(k, q)) by {
                assert(self.child_edge(k, q) == old(self).child_edge(k, q));
            }
            assert forall|q: usize| !(#[trigger] self.child_edge(q, k)) by {
                assert(self.child_edge(q, k) == old(self).child_edge(q, k));
                assert(old(self).child_edge(q, k) == old(self).parent_edge(k, q));
            }
        }
        n
    }

    /// A node has at most one recorded parent at any time: two parent
    /// edges from the same node always name the same parent.
    pub proof fn lemma_single_parent(self, x: usize, p1: usize, p2: usize)
        requires
            self.parent_edge(x, p1),
            self.parent_edge(x, p2),
        ensures
            p1 == p2,
    {
    }

    /// The two directions of the relation mirror each other: `x` has
    /// parent `p` exactly when `x` stands among the children of `p`.
    pub proof fn lemma_relation_symmetric(self, x: usize, p: usize)
        requires
            self.wf(),
        ensures
            self.parent_edge(x, p) <==> self.child_edge(p, x),
    {
    }

    /// Re-parenting overwrites, never accumulates: once the parent of `x`
    /// is `p2`, no other node `p1` keeps a parent edge from `x`, nor `x`
    /// in its child list.
    pub proof fn lemma_reparent_detaches(self, x: usize, p1: usize, p2: usize)
        requires
            self.wf(),
            self.parent_edge(x, p2),
            p1 != p2,
        ensures
            !self.parent_edge(x, p1),
            !self.child_edge(p1, x),
    {
    }

    /// Edges stand only between registered nodes.
    pub proof fn lemma_edges_are_registered(self, x: usize, p: usize)
        requires
            self.wf(),
            self.parent_edge(x, p),
        ensures
            self.has_node(x),
            self.has_node(p),
    {
    }

    /// A node has a recorded parent exactly when some parent edge
    /// leaves it.
    pub proof fn lemma_has_parent_edge(self, x: usize)
        ensures
            self.has_parent(x) <==> exists|p: usize| #[trigger] self.parent_edge(x, p),
    {
        if self.has_parent(x) {
            assert(self.parent_edge(x, self.parents@[x].id()));
        }
    }

    /// Every stored child list is free of duplicate identities.
    spec fn lists_wf(self) -> bool {
        forall|k: usize| #[trigger] self.childs@.contains_key(k)
            ==> no_dup_ids(self.childs@[k]@)
    }

    /// Drop `this` from the recorded child list of `parent`, if it stands
    /// there. Touches nothing else.
    fn remove_child(&mut self, parent: &PinNode<T>, this: &PinNode<T>) -> (r: bool)
        requires
            old(self).lists_wf(),
        ensures
            final(self).nodes@ == old(self).nodes@,
            final(self).parents@ == old(self).parents@,
            final(self).childs@.dom() == old(self).childs@.dom(),
            final(self).lists_wf(),
            r == old(self).child_edge(parent.id(), this.id()),
            forall|p: usize, x: usize|
                #![trigger final(self).child_edge(p, x)]
                #![trigger old(self).child_edge(p, x)]
                final(self).child_edge(p, x)
                    == (old(self).child_edge(p, x) && !(p == parent.id() && x == this.id())),
    {
        let pk = parent.key();
        let r: bool;
        match self.childs.remove(&pk) {
            Some(mut v) => {
                r = remove_id(&mut v, this.key());
                self.childs.insert(pk, v);
            }
            None => {
                r = false;
            }
        }
        proof {
            assert(self.childs@.dom() =~= old(self).childs@.dom());
            assert forall|p: usize, x: usize|
                #![trigger self.child_edge(p, x)]
                #![trigger old(self).child_edge(p, x)]
                self.child_edge(p, x)
                    == (old(self).child_edge(p, x) && !(p == pk && x == this.id())) by {
                if p != pk {
                    assert(self.childs@.contains_key(p) == old(self).childs@.contains_key(p));
                    if self.childs@.contains_key(p) {
                        assert(self.childs@[p] == old(self).childs@[p]);
                    }
                }
            }
        }
        r
    }

    /// Append `child` to the recorded child list of `parent`, creating the
    /// list if absent. Touches nothing else.
    fn push_child(&mut self, parent: &PinNode<T>, child: &PinNode<T>)
        requires
            old(self).lists_wf(),
            !old(self).child_edge(parent.id(), child.id()),
        ensures
            final(self).nodes@ == old(self).nodes@,
            final(self).parents@ == old(self).parents@,
            final(self).childs@.dom() == old(self).childs@.dom().insert(parent.id()),
            final(self).lists_wf(),
            forall|p: usize, x: usize|
                #![trigger final(self).child_edge(p, x)]
                #![trigger old(self).child_edge(p, x)]
                final(self).child_edge(p, x)
                    == (old(self).child_edge(p, x) || (p == parent.id() && x == child.id())),
    {
        let pk = parent.key();
        let mut v: Vec<PinNode<T>> = match self.childs.remove(&pk) {
            Some(v) => v,
            None => Vec::new(),
        };
        proof {
            if old(self).childs@.contains_key(pk) {
                assert(!seq_has_id(v@, child.id()));
            } else {
                assert(v@.len() == 0);
                assert(!seq_has_id(v@, child.id()));
            }
        }
        let ghost pre = v@;
        v.push(child.clone());
        proof {
            assert forall|c: usize| #[trigger] seq_has_id(v@, c)
                == (seq_has_id(pre, c) || c == child.id()) by {
                if seq_has_id(v@, c) {
                    let j = choose|j: int| 0 <= j < v@.len() && (#[trigger] v@[j]).id() == c;
                    if j < pre.len() {
                        assert(pre[j].id() == c);
                    } else {
                        assert(v@[j].id() == child.id());
                    }
                }
                if seq_has_id(pre, c) {
                    let j = choose|j: int| 0 <= j < pre.len() && (#[trigger] pre[j]).id() == c;
                    assert(v@[j].id() == c);
                }
                if c == child.id() {
                    assert(v@[pre.len() as int].id() == c);
                }
            }
            assert(no_dup_ids(v@));
        }
        self.childs.insert(pk, v);
        proof {
            assert(self.childs@.dom() =~= old(self).childs@.dom().insert(pk));
            assert forall|p: usize, x: usize|
                #![trigger self.child_edge(p, x)]
                #![trigger old(self).child_edge(p, x)]
                self.child_edge(p, x)
                    == (old(self).child_edge(p, x) || (p == pk && x == child.id())) by {
                if p != pk {
                    assert(self.childs@.contains_key(p) == old(self).childs@.contains_key(p));
                    if self.childs@.contains_key(p) {
                        assert(self.childs@[p] == old(self).childs@[p]);
                    }
                }
            }
        }
    }

    /// Record `parent` as the parent of `this`, registering both handles
    /// first if needed. Returns `false`, changing no edge, when the edge
    /// already stands; otherwise the new edge replaces any former parent
    /// edge of `this`, and `this` leaves the former parent's child list,
    /// so the mirrored edge does not dangle. Cycles and self-loops are
    /// recorded like any other edge.
    pub fn set_parent(&mut self, this: &PinNode<T>, parent: &PinNode<T>) -> (r: bool)
        requires
            old(self).wf(),
        ensures
            final(self).wf(),
            r == !old(self).parent_edge(this.id(), parent.id()),
            final(self).node_ids() == old(self).node_ids().insert(this.id()).insert(parent.id()),
            forall|x: usize, q: usize|
                #![trigger final(self).parent_edge(x, q)]
                #![trigger old(self).parent_edge(x, q)]
                final(self).parent_edge(x, q)
                    == ((x == this.id() && q == parent.id())
                        || (x != this.id() && old(self).parent_edge(x, q))),
    {
        let tk = this.key();
        let pk = parent.key();
        self.node_from(this.clone());
        self.node_from(parent.clone());
        let ghost s1 = *self;
        proof {
            assert(self.node_ids() =~= old(self).node_ids().insert(tk).insert(pk));
        }
        if self.is_parent(this, parent) {
            proof {
                assert forall|x: usize, q: usize|
                    #![trigger self.parent_edge(x, q)]
                    #![trigger old(self).parent_edge(x, q)]
                    self.parent_edge(x, q)
                        == ((x == tk && q == pk) || (x != tk && old(self).parent_edge(x, q))) by {
                    assert(self.parent_edge(x, q) == old(self).parent_edge(x, q));
                    if x == tk {
                        assert(self.parent_edge(tk, pk));
                    }
                }
            }
            return false;
        }
        let former: Option<PinNode<T>> = match self.parents.get(&tk) {
            Some(p) => Some(p.clone()),
            None => None,
        };
        match &former {
            Some(p) => {
                self.remove_child(p, this);
            }
            None => {},
        }
        let ghost s2 = *self;
        self.parents.insert(tk, parent.clone());
        let ghost s3 = *self;
        proof {
            assert(s3.lists_wf());
            assert(!s3.child_edge(pk, tk)) by {
                assert(s3.child_edge(pk, tk) == s2.child_edge(pk, tk));
                assert(!s1.parent_edge(tk, pk));
                assert(!s1.child_edge(pk, tk));
            }
        }
        self.push_child(parent, this);
        proof {
            assert forall|x: usize, q: usize|
                #![trigger self.parent_edge(x, q)]
                #![trigger old(self).parent_edge(x, q)]
                self.parent_edge(x, q)
                    == ((x == tk && q == pk) || (x != tk && old(self).parent_edge(x, q))) by {
                assert(self.parents@ == s3.parents@);
                assert(s3.parents@ == s1.parents@.insert(tk, s3.parents@[tk]));
                if x != tk {
                    assert(self.parent_edge(x, q) == s1.parent_edge(x, q));
                    assert(s1.parent_edge(x, q) == old(self).parent_edge(x, q));
                }
            }
            assert(self.node_ids() =~= old(self).node_ids().insert(tk).insert(pk));
            assert forall|p: usize, x: usize|
                #![trigger self.child_edge(p, x)]
                #![trigger self.parent_edge(x, p)]
                self.child_edge(p, x) <==> self.parent_edge(x, p) by {
                assert(self.child_edge(p, x) == (s3.child_edge(p, x) || (p == pk && x == tk)));
                assert(s3.child_edge(p, x) == s2.child_edge(p, x));
                match former {
                    Some(f) => {
                        assert(s2.child_edge(p, x)
                            == (s1.child_edge(p, x) && !(p == f.id() && x == tk)));
                        if x == tk && !(p == pk) {
                            assert(s1.child_edge(p, tk) == s1.parent_edge(tk, p));
                            assert(s1.parent_edge(tk, p) ==> p == f.id());
                        }
                    }
                    None => {
                        assert(s2.child_edge(p, x) == s1.child_edge(p, x));
                        if x == tk {
                            assert(!s1.has_parent(tk));
                            assert(!s1.parent_edge(tk, p));
                            assert(!s1.child_edge(p, tk));
                        }
                    }
                }
                assert(s1.child_edge(p, x) == s1.parent_edge(x, p));
            }
            assert(self.wf()) by {
                assert forall|k: usize| #[trigger] self.parents@.contains_key(k)
                    implies self.nodes@.contains_key(k)
                        && self.nodes@.contains_key(self.parents@[k].id()) by {
                    if self.parents@.contains_key(k) && k != tk {
                        assert(s1.parents@.contains_key(k));
                    }
                }
                assert forall|k: usize| #[trigger] self.childs@.contains_key(k)
                    implies self.nodes@.contains_key(k) && no_dup_ids(self.childs@[k]@) by {
                    assert(self.childs@.dom() == s2.childs@.dom().insert(pk));
                    if self.childs@.contains_key(k) && k != pk {
                        assert(s1.childs@.contains_key(k));
                    }
                }
            }
        }
        true
    }

    /// Remove the parent edge from `this` to `parent`, but only if that
    /// exact edge stands; otherwise return `false` and change nothing.
    pub fn unset_parent(&mut self, this: &PinNode<T>, parent: &PinNode<T>) -> (r: bool)
        requires
            old(self).wf(),
        ensures
            final(self).wf(),
            r == old(self).parent_edge(this.id(), parent.id()),
            !r ==> *final(self) == *old(self),
            final(self).node_ids() == old(self).node_ids(),
            forall|x: usize, q: usize|
                #![trigger final(self).parent_edge(x, q)]
                #![trigger old(self).parent_edge(x, q)]
                final(self).parent_edge(x, q)
                    == (old(self).parent_edge(x, q) && !(x == this.id() && q == parent.id())),
    {
        let tk = this.key();
        let pk = parent.key();
        if !self.is_parent(this, parent) {
            return false;
        }
        self.parents.remove(&tk);
        let ghost s2 = *self;
        self.remove_child(parent, this);
        proof {
            assert(self.parents@ == old(self).parents@.remove(tk));
            assert forall|x: usize, q: usize|
                #![trigger self.parent_edge(x, q)]
                #![trigger old(self).parent_edge(x, q)]
                self.parent_edge(x, q)
                    == (old(self).parent_edge(x, q) && !(x == tk && q == pk)) by {
                if x == tk {
                    assert(!self.parents@.contains_key(tk));
                    assert(old(self).parent_edge(tk, q) ==> q == pk);
                }
            }
            assert(self.node_ids() =~= old(self).node_ids());
            assert(self.wf()) by {
                assert forall|p: usize, x: usize|
                    #![trigger self.child_edge(p, x)]
                    #![trigger self.parent_edge(x, p)]
                    self.child_edge(p, x) <==> self.parent_edge(x, p) by {
                    assert(self.child_edge(p, x)
                        == (s2.child_edge(p, x) && !(p == pk && x == tk)));
                    assert(s2.child_edge(p, x) == old(self).child_edge(p, x));
                    assert(old(self).child_edge(p, x) == old(self).parent_edge(x, p));
                    if x == tk {
                        assert(old(self).parent_edge(tk, p) ==> p == pk);
                    }
                }
                assert forall|k: usize| #[trigger] self.childs@.contains_key(k)
                    implies self.nodes@.contains_key(k) && no_dup_ids(self.childs@[k]@) by {
                    if self.childs@.contains_key(k) {
                        assert(old(self).childs@.contains_key(k));
                    }
                }
            }
        }
        true
    }

    /// Unregister `this`, severing every edge that touches it: the edge
    /// to its own parent, and the parent edges of all of its children,
    /// which stay registered as orphans. Returns `false` and changes
    /// nothing when `this` is not registered.
    pub fn remove(&mut self, this: &PinNode<T>) -> (r: bool)
        requires
            old(self).wf(),
        ensures
            final(self).wf(),
            r == old(self).has_node(this.id()),
            !r ==> *final(self) == *old(self),
            final(self).node_ids() == old(self).node_ids().remove(this.id()),
            forall|x: usize, q: usize|
                #![trigger final(self).parent_edge(x, q)]
                #![trigger old(self).parent_edge(x, q)]
                final(self).parent_edge(x, q)
                    == (old(self).parent_edge(x, q) && x != this.id() && q != this.id()),
    {
        let tk = this.key();
        if !self.nodes.contains_key(&tk) {
            proof {
                assert(self.node_ids() =~= old(self).node_ids().remove(tk));
            }
            return false;
        }
        let former: Option<PinNode<T>> = match self.parents.get(&tk) {
            Some(p) => Some(p.clone()),
            None => None,
        };
        match &former {
            Some(p) => {
                self.remove_child(p, this);
                self.parents.remove(&tk);
            }
            None => {},
        }
        let ghost s2 = *self;
        proof {
            assert(!s2.has_parent(tk));
            assert(s2.wf()) by {
                assert forall|p: usize, x: usize|
                    #![trigger s2.child_edge(p, x)]
                    #![trigger s2.parent_edge(x, p)]
                    s2.child_edge(p, x) <==> s2.parent_edge(x, p) by {
                    match former {
                        Some(f) => {
                            assert(s2.child_edge(p, x)
                                == (old(self).child_edge(p, x) && !(p == f.id() && x == tk)));
                            assert(s2.parents@ == old(self).parents@.remove(tk));
                            if x == tk {
                                assert(old(self).parent_edge(tk, p) ==> p == f.id());
                            }
                        }
                        None => {
                            assert(s2.child_edge(p, x) == old(self).child_edge(p, x));
                            if x == tk {
                                assert(!old(self).has_parent(tk));
                                assert(!old(self).parent_edge(tk, p));
                            }
                        }
                    }
                    assert(old(self).child_edge(p, x) == old(self).parent_edge(x, p));
                }
                assert forall|k: usize| #[trigger] s2.childs@.contains_key(k)
                    implies s2.nodes@.contains_key(k) && no_dup_ids(s2.childs@[k]@) by {
                    if s2.childs@.contains_key(k) {
                        assert(old(self).childs@.contains_key(k));
                    }
                }
            }
        }
        let kids: Vec<PinNode<T>> = match self.childs.remove(&tk) {
            Some(v) => v,
            None => Vec::new(),
        };
        proof {
            assert forall|x: usize| #[trigger] seq_has_id(kids@, x) == s2.child_edge(tk, x) by {
                if !s2.childs@.contains_key(tk) {
                    assert(kids@.len() == 0);
                }
            }
            assert(no_dup_ids(kids@)) by {
                if !s2.childs@.contains_key(tk) {
                    assert(kids@.len() == 0);
                }
            }
        }
        let ghost s3 = *self;
        let mut i: usize = 0;
        while i < kids.len()
            invariant
                i <= kids.len(),
                no_dup_ids(kids@),
                self.nodes@ == s3.nodes@,
                self.childs@ == s3.childs@,
                forall|x: usize| #[trigger] self.parents@.contains_key(x)
                    == (s3.parents@.contains_key(x) && !seq_has_id(kids@.take(i as int), x)),
                forall|x: usize| #[trigger] self.parents@.contains_key(x)
                    ==> self.parents@[x] == s3.parents@[x],
            decreases kids.len() - i,
        {
            let ghost pre = self.parents@;
            self.parents.remove(&kids[i].key());
            proof {
                assert(self.parents@ == pre.remove(kids@[i as int].id()));
                assert(kids@.take(i as int + 1) =~= kids@.take(i as int).push(kids@[i as int]));
                assert forall|x: usize| #[trigger] self.parents@.contains_key(x)
                    == (s3.parents@.contains_key(x)
                        && !seq_has_id(kids@.take(i as int + 1), x)) by {
                    let t = kids@.take(i as int + 1);
                    assert(seq_has_id(t, x)
                        == (seq_has_id(kids@.take(i as int), x) || x == kids@[i as int].id())) by {
                        if seq_has_id(t, x) {
                            let j = choose|j: int|
                                0 <= j < t.len() && (#[trigger] t[j]).id() == x;
                            if j < i as int {
                                assert(kids@.take(i as int)[j].id() == x);
                            }
                        }
                        if seq_has_id(kids@.take(i as int), x) {
                            let j = choose|j: int|
                                0 <= j < i as int
                                    && (#[trigger] kids@.take(i as int)[j]).id() == x;
                            assert(t[j].id() == x);
                        }
                        if x == kids@[i as int].id() {
                            assert(t[i as int].id() == x);
                        }
                    }
                }
            }
            i += 1;
        }
        proof {
            assert(kids@.take(kids@.len() as int) =~= kids@);
        }
        let ghost s4 = *self;
        self.nodes.remove(&tk);
        proof {
            assert(self.node_ids() =~= old(self).node_ids().remove(tk));
            assert forall|x: usize, q: usize|
                #![trigger self.parent_edge(x, q)]
                #![trigger old(self).parent_edge(x, q)]
                self.parent_edge(x, q)
                    == (old(self).parent_edge(x, q) && x != tk && q != tk) by {
                assert(self.parents@ == s4.parents@);
                if self.parents@.contains_key(x) {
                    assert(s3.parents@.contains_key(x) && !seq_has_id(kids@, x));
                    assert(self.parents@[x] == s3.parents@[x]);
                }
                assert(s3.parents@ == s2.parents@);
                if x == tk {
                    assert(!s2.parents@.contains_key(tk));
                }
                if x != tk {
                    assert(s2.parent_edge(x, q) == old(self).parent_edge(x, q));
                    assert(seq_has_id(kids@, x) == s2.child_edge(tk, x));
                    assert(s2.child_edge(tk, x) == s2.parent_edge(x, tk));
                }
            }
            assert(self.wf()) by {
                assert forall|k: usize| #[trigger] self.parents@.contains_key(k)
                    implies self.nodes@.contains_key(k)
                        && self.nodes@.contains_key(self.parents@[k].id()) by {
                    if self.parents@.contains_key(k) {
                        assert(self.parent_edge(k, self.parents@[k].id()));
                        assert(old(self).parent_edge(k, self.parents@[k].id()));
                        assert(k != tk && self.parents@[k].id() != tk);
                        assert(old(self).parents@.contains_key(k));
                    }
                }
                assert forall|k: usize| #[trigger] self.childs@.contains_key(k)
                    implies self.nodes@.contains_key(k) && no_dup_ids(self.childs@[k]@) by {
                    if self.childs@.contains_key(k) {
                        assert(self.childs@ == s2.childs@.remove(tk));
                        assert(s2.childs@.contains_key(k) && k != tk);
                        assert(old(self).childs@.contains_key(k));
                    }
                }
                assert forall|p: usize, x: usize|
                    #![trigger self.child_edge(p, x)]
                    #![trigger self.parent_edge(x, p)]
                    self.child_edge(p, x) <==> self.parent_edge(x, p) by {
                    assert(self.childs@ == s2.childs@.remove(tk));
                    if p != tk {
                        assert(self.child_edge(p, x) == s2.child_edge(p, x));
                        assert(s2.child_edge(p, x) == s2.parent_edge(x, p));
                        if x == tk {
                            assert(!s2.parents@.contains_key(tk));
                        }
                        if x != tk && s2.parent_edge(x, p) {
                            assert(seq_has_id(kids@, x) == s2.child_edge(tk, x));
                            assert(self.parent_edge(x, p) == (s2.parent_edge(x, p)
                                && !s2.parent_edge(x, tk)));
                        }
                        if x != tk && self.parent_edge(x, p) {
                            assert(s2.parent_edge(x, p));
                        }
                    } else {
                        assert(!self.childs@.contains_key(tk));
                        assert(!self.parent_edge(x, tk));
                    }
                }
            }
        }
        true
    }

    /// Check whether `parent` is the recorded parent of `this`.
    pub fn is_parent(&self, this: &PinNode<T>, parent: &PinNode<T>) -> (r: bool)
        ensures
            r == self.parent_edge(this.id(), parent.id()),
    {
        match self.parents.get(&this.key()) {
            Some(p) => *p == *parent,
            None => false,
        }
    }

    /// Check whether `child` stands in the recorded child list of `this`.
    pub fn is_child(&self, this: &PinNode<T>, child: &PinNode<T>) -> (r: bool)
        ensures
            r == self.child_edge(this.id(), child.id()),
    {
        match self.childs.get(&this.key()) {
            Some(v) => contains_id(v, child.key()),
            None => false,
        }
    }

    /// Look up the recorded parent of `this`, if any.
    pub fn get_parent(&self, this: &PinNode<T>) -> (r: Option<&PinNode<T>>)
        ensures
            r matches Some(p) ==> self.parent_edge(this.id(), p.id()),
            r is None <==> !self.has_parent(this.id()),
    {
        self.parents.get(&this.key())
    }

    /// The recorded children of `this`, as owned clones. The order of the
    /// returned handles carries no meaning.
    pub fn get_childs(&self, this: &PinNode<T>) -> (r: Vec<PinNode<T>>)
        requires
            self.wf(),
        ensures
            no_dup_ids(r@),
            forall|c: usize| #[trigger] seq_has_id(r@, c) == self.child_edge(this.id(), c),
    {
        let r = match self.childs.get(&this.key()) {
            Some(v) => clone_nodes(v),
            None => Vec::new(),
        };
        proof {
            if !self.childs@.contains_key(this.id()) {
                assert(forall|c: usize| !(#[trigger] seq_has_id(r@, c)));
            }
        }
        r
    }
}

/// Remove the handle with identity `id` from the list, if present.
fn remove_id<T>(v: &mut Vec<PinNode<T>>, id: usize) -> (r: bool)
    requires
        no_dup_ids(old(v)@),
    ensures
        no_dup_ids(final(v)@),
        r == seq_has_id(old(v)@, id),
        forall|c: usize| #[trigger] seq_has_id(final(v)@, c)
            == (seq_has_id(old(v)@, c) && c != id),
{
    let mut i: usize = 0;
    while i < v.len()
        invariant
            i <= v.len(),
            v@ == old(v)@,
            no_dup_ids(v@),
            forall|j: int| 0 <= j < i ==> (#[trigger] v@[j]).id() != id,
        decreases v.len() - i,
    {
        if v[i].key() == id {
            let ghost pre = v@;
            v.remove(i);
            proof {
                assert(pre[i as int].id() == id);
                assert(seq_has_id(pre, id));
                assert forall|c: usize| #[trigger] seq_has_id(v@, c)
                    == (seq_has_id(pre, c) && c != id) by {
                    if seq_has_id(v@, c) {
                        let j = choose|j: int| 0 <= j < v@.len() && (#[trigger] v@[j]).id() == c;
                        if j < i {
                            assert(pre[j].id() == c);
                        } else {
                            assert(pre[j + 1].id() == c);
                        }
                        assert(seq_has_id(pre, c));
                        assert(c != id);
                    }
                    if seq_has_id(pre, c) && c != id {
                        let j = choose|j: int| 0 <= j < pre.len() && (#[trigger] pre[j]).id() == c;
                        if j < i {
                            assert(v@[j].id() == c);
                        } else {
                            assert(j > i);
                            assert(v@[j - 1].id() == c);
                        }
                        assert(seq_has_id(v@, c));
                    }
                }
            }
            return true;
        }
        i += 1;
    }
    proof {
        assert(!seq_has_id(v@, id));
        assert forall|c: usize| #[trigger] seq_has_id(v@, c)
            == (seq_has_id(old(v)@, c) && c != id) by {
            if seq_has_id(v@, c) && c == id {
                assert(false);
            }
        }
    }
    false
}

/// Whether the list holds a handle with identity `c`.
fn contains_id<T>(v: &Vec<PinNode<T>>, c: usize) -> (r: bool)
    ensures
        r == seq_has_id(v@, c),
{
    let mut i: usize = 0;
    while i < v.len()
        invariant
            i <= v.len(),
            forall|j: int| 0 <= j < i ==> (#[trigger] v@[j]).id() != c,
        decreases v.len() - i,
    {
        if v[i].key() == c {
            proof {
                assert(v@[i as int].id() == c);
            }
            return true;
        }
        i += 1;
    }
    false
}

/// Clone every handle in the list.
fn clone_nodes<T>(v: &Vec<PinNode<T>>) -> (r: Vec<PinNode<T>>)
    ensures
        r@ == v@,
{
    let mut r: Vec<PinNode<T>> = Vec::new();
    let mut i: usize = 0;
    while i < v.len()
        invariant
            i <= v.len(),
            r@ == v@.take(i as int),
        decreases v.len() - i,
    {
        r.push(v[i].clone());
        proof {
            assert(r@ =~= v@.take(i as int + 1));
        }
        i += 1;
    }
    proof {
        assert(v@.take(v@.len() as int) =~= v@);
    }
    r
}

} // verus!
