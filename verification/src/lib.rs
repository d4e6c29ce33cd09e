//! A doubly-linked list with stable, generation-tagged handles.
//!
//! Nodes live in a slot table; forward and backward links are slot indices.
//! `prepend` returns a [`Handle`] to the new node, and `remove_ptr` /
//! `move_to_head` accept such a handle to splice a node out of, or promote it
//! to the front of, the chain in O(1). A handle to a node that has since been
//! removed is detected by its generation tag, so stale-handle use is a checked
//! "not found" outcome rather than undefined behavior.
//!
//! The list is modelled by the sequence of its values in head-to-tail order
//! (the view `self@`), together with a ghost sequence of the slot indices the
//! forward chain visits.

use vstd::prelude::*;

verus! {

/// A node in the list: a payload value, an owning forward link to the next
/// node, and a non-owning back-reference to the previous node. Links are
/// indices into the list's slot table; `None` marks the tail (for `next`)
/// or the head (for `prev`).
pub struct Node<T> {
    pub value: T,
    next: Option<usize>,
    prev: Option<usize>,
}

/// An opaque handle to a node: the node's slot index plus the generation the
/// slot had when the node was created. A handle stays valid exactly until its
/// node is removed; reusing the slot bumps the generation, so a stale handle
/// is recognized instead of silently denoting a different node.
#[derive(Clone, Copy)]
pub struct Handle {
    index: usize,
    generation: u64,
}

/// A list of `T` with O(1) prepend, remove-by-handle and move-to-front.
///
/// Representation: `nodes` is the slot table (`None` marks a free slot),
/// `gens` holds each slot's current generation, `free` lists the free slots
/// available for reuse, and `head` is the slot index of the front node.
/// `order` is ghost state: the slot indices of the live nodes in
/// head-to-tail order, which ties the link structure to the abstract
/// sequence of values.
pub struct OwningList<T> {
    nodes: Vec<Option<Node<T>>>,
    gens: Vec<u64>,
    free: Vec<usize>,
    head: Option<usize>,
    order: Ghost<Seq<usize>>,
}

impl<T> View for OwningList<T> {
    type V = Seq<T>;

    /// The values of the live nodes, in head-to-tail order.
    closed spec fn view(&self) -> Seq<T> {
        Seq::new(self.order@.len(), |i: int| self.nodes@[self.order@[i] as int]->0.value)
    }
}

impl<T> OwningList<T> {
    /// The node stored in slot `k`.
    spec fn node_at(self, k: usize) -> Node<T> {
        self.nodes@[k as int]->0
    }

    /// The node at position `i` of the chain is linked to its true
    /// neighbors: its forward link owns the node at position `i + 1` (or is
    /// absent at the tail), and its back-reference resolves to the node at
    /// position `i - 1` (or is absent at the head).
    spec fn links_ok_at(self, i: int) -> bool {
        let ord = self.order@;
        &&& self.node_at(ord[i]).next == (if i + 1 < ord.len() {
            Some(ord[i + 1])
        } else {
            None::<usize>
        })
        &&& self.node_at(ord[i]).prev == (if i == 0 {
            None::<usize>
        } else {
            Some(ord[i - 1])
        })
    }

    /// Well-formedness: the ghost order lists distinct, in-range slot
    /// indices; a slot is live exactly when the chain visits it; the head
    /// link names the first chained node; every chained node is linked to
    /// its true neighbors; and the free list names distinct dead slots.
    pub closed spec fn wf(self) -> bool {
        let ord = self.order@;
        &&& self.gens@.len() == self.nodes@.len()
        &&& forall|i: int| 0 <= i < ord.len() ==> (#[trigger] ord[i]) < self.nodes@.len()
        &&& forall|i: int, j: int| 0 <= i < j < ord.len() ==> ord[i] != ord[j]
        &&& forall|k: usize|
            k < self.nodes@.len() ==> ((#[trigger] self.nodes@[k as int]) is Some
                <==> ord.contains(k))
        &&& (if ord.len() == 0 {
            self.head is None
        } else {
            self.head == Some(ord[0])
        })
        &&& forall|i: int| 0 <= i < ord.len() ==> #[trigger] self.links_ok_at(i)
        &&& forall|j: int|
            0 <= j < self.free@.len() ==> (#[trigger] self.free@[j]) < self.nodes@.len()
                && self.nodes@[self.free@[j] as int] is None
        &&& forall|j1: int, j2: int|
            0 <= j1 < j2 < self.free@.len() ==> self.free@[j1] != self.free@[j2]
    }

    /// `h` denotes a live node: its slot is on the chain and the slot's
    /// generation still matches the handle's.
    pub closed spec fn valid(self, h: Handle) -> bool {
        &&& self.order@.contains(h.index)
        &&& h.index < self.gens@.len()
        &&& self.gens@[h.index as int] == h.generation
    }

    /// The position (head = 0) of the node `h` denotes.
    pub closed spec fn pos_of(self, h: Handle) -> int {
        choose|i: int| 0 <= i < self.order@.len() && self.order@[i] == h.index
    }

    /// The value stored in the node `h` denotes.
    pub closed spec fn value_of(self, h: Handle) -> T {
        self.node_at(h.index).value
    }

    /// In a well-formed list the chain visits each slot at most once, so a
    /// handle's slot determines its position.
    proof fn lemma_pos(self, h: Handle, i: int)
        requires
            self.wf(),
            0 <= i < self.order@.len(),
            self.order@[i] == h.index,
        ensures
            self.pos_of(h) == i,
            self.order@.contains(h.index),
    {
        assert(self.order@.contains(h.index)) by {
            assert(self.order@[i] == h.index);
        }
        let j = self.pos_of(h);
        assert(0 <= j < self.order@.len() && self.order@[j] == h.index);
        if i < j {
            assert(self.order@[i] != self.order@[j]);
        } else if j < i {
            assert(self.order@[j] != self.order@[i]);
        }
    }

    /// What a valid handle pins down about the representation.
    proof fn lemma_valid_pos(self, h: Handle)
        requires
            self.wf(),
            self.valid(h),
        ensures
            0 <= self.pos_of(h) < self.order@.len(),
            self.order@[self.pos_of(h)] == h.index,
            self.nodes@[h.index as int] is Some,
    {
        let i = choose|i: int| 0 <= i < self.order@.len() && self.order@[i] == h.index;
        self.lemma_pos(h, i);
    }

    /// A valid handle denotes a node at a definite position of the view.
    pub proof fn lemma_handle_position(self, h: Handle)
        requires
            self.wf(),
            self.valid(h),
        ensures
            0 <= self.pos_of(h) < self@.len(),
            self@[self.pos_of(h)] == self.value_of(h),
    {
        self.lemma_valid_pos(h);
    }

    /// Law: forward traversal visits each live node exactly once — two
    /// different valid handles always denote different positions.
    pub proof fn lemma_handles_distinct(self, h1: Handle, h2: Handle)
        requires
            self.wf(),
            self.valid(h1),
            self.valid(h2),
            h1 != h2,
        ensures
            self.pos_of(h1) != self.pos_of(h2),
    {
        self.lemma_valid_pos(h1);
        self.lemma_valid_pos(h2);
        if self.pos_of(h1) == self.pos_of(h2) {
            assert(h1.index == h2.index);
            assert(h1.generation == self.gens@[h1.index as int]);
            assert(h2.generation == self.gens@[h2.index as int]);
        }
    }
}

impl<T> Default for OwningList<T> {
    /// The empty list.
    fn default() -> (l: Self)
        ensures
            l.wf(),
            l@ == Seq::<T>::empty(),
    {
        let l = OwningList {
            nodes: Vec::new(),
            gens: Vec::new(),
            free: Vec::new(),
            head: None,
            order: Ghost(Seq::empty()),
        };
        proof {
            assert(l@ =~= Seq::<T>::empty());
        }
        l
    }
}

impl<T> OwningList<T> {
    /// Insert `value` at the front of the list and return a handle to the
    /// new node. Every handle that was valid before stays valid, denotes the
    /// same value, and moves one position toward the tail.
    pub fn prepend(&mut self, value: T) -> (h: Handle)
        requires
            old(self).wf(),
        ensures
            final(self).wf(),
            final(self)@ == seq![value] + old(self)@,
            final(self).valid(h),
            final(self).pos_of(h) == 0,
            final(self).value_of(h) == value,
            !old(self).valid(h),
            forall|h2: Handle|
                old(self).valid(h2) ==> final(self).valid(h2) && final(self).value_of(h2)
                    == old(self).value_of(h2) && final(self).pos_of(h2) == old(self).pos_of(h2)
                    + 1,
    {
        let node = Node { value, next: self.head, prev: None };
        let idx: usize;
        let hgen: u64;
        match self.free.pop() {
            Some(k) => {
                idx = k;
                let g = self.gens[k];
                hgen = if g == u64::MAX {
                    0
                } else {
                    g + 1
                };
                self.gens[k] = hgen;
                proof {
                    assert(!old(self).order@.contains(k));
                    assert forall|j: int| 0 <= j < self.free@.len() implies (#[trigger] self.free@[j])
                        != k by {
                        assert(self.free@[j] == old(self).free@[j]);
                        assert(old(self).free@[j] != old(self).free@[old(self).free@.len() - 1]);
                    }
                }
                self.nodes[k] = Some(node);
            },
            None => {
                idx = self.nodes.len();
                hgen = 0;
                proof {
                    assert forall|j: int| 0 <= j < self.free@.len() implies (#[trigger] self.free@[j])
                        != idx by {
                        assert(old(self).free@[j] < old(self).nodes@.len());
                    }
                }
                self.nodes.push(Some(node));
                self.gens.push(0);
            },
        }
        proof {
            assert(!old(self).order@.contains(idx));
        }
        if let Some(oh) = self.head {
            proof {
                assert(old(self).order@.len() > 0);
                assert(old(self).order@[0] == oh);
                assert(old(self).links_ok_at(0));
            }
            let mut old_head = self.nodes[oh].take().unwrap();
            old_head.prev = Some(idx);
            self.nodes[oh] = Some(old_head);
        }
        self.head = Some(idx);
        proof {
            self.order@ = seq![idx] + old(self).order@;
        }
        let h = Handle { index: idx, generation: hgen };
        proof {
            self.lemma_prepend(*old(self), h, value);
        }
        h
    }

    /// The facts `prepend` promises, proved from the state it builds.
    proof fn lemma_prepend(self, pre: Self, h: Handle, value: T)
        requires
            pre.wf(),
            self.order@ == seq![h.index] + pre.order@,
            !pre.order@.contains(h.index),
            h.index < self.nodes@.len(),
            self.gens@.len() == self.nodes@.len(),
            self.gens@ == if h.index < pre.gens@.len() {
                pre.gens@.update(h.index as int, h.generation)
            } else {
                pre.gens@.push(h.generation)
            },
            self.free@ == pre.free@ || (pre.free@.len() > 0 && self.free@
                == pre.free@.drop_last()),
            forall|j: int| 0 <= j < self.free@.len() ==> (#[trigger] self.free@[j]) != h.index,
            self.nodes@.len() == if h.index < pre.nodes@.len() {
                pre.nodes@.len() as int
            } else {
                pre.nodes@.len() + 1 as int
            },
            self.nodes@[h.index as int] is Some,
            self.node_at(h.index).value == value,
            self.node_at(h.index).prev is None,
            self.node_at(h.index).next == pre.head,
            forall|k: int|
                0 <= k < pre.nodes@.len() && k != h.index as int && (pre.order@.len() == 0 || k
                    != pre.order@[0] as int) ==> self.nodes@[k] == pre.nodes@[k],
            pre.order@.len() > 0 ==> {
                let oh = pre.order@[0];
                &&& self.nodes@[oh as int] is Some
                &&& self.node_at(oh).value == pre.node_at(oh).value
                &&& self.node_at(oh).next == pre.node_at(oh).next
                &&& self.node_at(oh).prev == Some(h.index)
            },
            self.head == Some(h.index),
        ensures
            self.wf(),
            self@ == seq![value] + pre@,
            self.valid(h),
            self.pos_of(h) == 0,
            self.value_of(h) == value,
            !pre.valid(h),
            forall|h2: Handle|
                pre.valid(h2) ==> self.valid(h2) && self.value_of(h2) == pre.value_of(h2)
                    && self.pos_of(h2) == pre.pos_of(h2) + 1,
    {
        let ord = self.order@;
        let pord = pre.order@;
        assert(ord.len() == pord.len() + 1);
        assert(ord[0] == h.index);
        assert(forall|i: int| 1 <= i < ord.len() ==> ord[i] == pord[i - 1]);

        // membership in the new order
        assert(forall|k: usize| #[trigger] ord.contains(k) <==> (k == h.index || pord.contains(k)))
            by {
            assert forall|k: usize|
                #[trigger] ord.contains(k) <==> (k == h.index || pord.contains(k)) by {
                if ord.contains(k) {
                    let i = choose|i: int| 0 <= i < ord.len() && ord[i] == k;
                    if i == 0 {
                        assert(k == h.index);
                    } else {
                        assert(pord[i - 1] == k);
                        assert(pord.contains(k));
                    }
                }
                if k == h.index {
                    assert(ord[0] == k);
                    assert(ord.contains(k));
                }
                if pord.contains(k) {
                    let i = choose|i: int| 0 <= i < pord.len() && pord[i] == k;
                    assert(ord[i + 1] == k);
                    assert(ord.contains(k));
                }
            }
        }

        // wf, clause by clause
        assert(forall|i: int| 0 <= i < ord.len() ==> (#[trigger] ord[i]) < self.nodes@.len());
        assert(forall|i: int, j: int| 0 <= i < j < ord.len() ==> ord[i] != ord[j]) by {
            assert forall|i: int, j: int| 0 <= i < j < ord.len() implies ord[i] != ord[j] by {
                if i == 0 {
                    assert(pord.contains(ord[j]));
                } else {
                    assert(pord[i - 1] != pord[j - 1]);
                }
            }
        }
        assert(forall|k: usize|
            k < self.nodes@.len() ==> ((#[trigger] self.nodes@[k as int]) is Some <==> ord.contains(
                k,
            ))) by {
            assert forall|k: usize|
                k < self.nodes@.len() implies ((#[trigger] self.nodes@[k as int]) is Some
                <==> ord.contains(k)) by {
                if k == h.index {
                } else if pord.len() > 0 && k == pord[0] {
                } else {
                    assert(k < pre.nodes@.len());
                    assert(self.nodes@[k as int] == pre.nodes@[k as int]);
                }
            }
        }
        assert forall|i: int| 0 <= i < ord.len() implies #[trigger] self.links_ok_at(i) by {
            if i == 0 {
                if pord.len() == 0 {
                    assert(self.node_at(ord[0]).next is None);
                } else {
                    assert(self.node_at(ord[0]).next == Some(pord[0]));
                    assert(ord[1] == pord[0]);
                }
            } else if i == 1 {
                let oh = pord[0];
                assert(pre.links_ok_at(0));
                assert(self.node_at(oh).next == pre.node_at(oh).next);
            } else {
                let k = ord[i];
                assert(k == pord[i - 1]);
                assert(pre.links_ok_at(i - 1));
                assert(k != h.index);
                assert(pord[i - 1] != pord[0]);
                assert(self.nodes@[k as int] == pre.nodes@[k as int]);
            }
        }
        assert(forall|j: int|
            0 <= j < self.free@.len() ==> (#[trigger] self.free@[j]) < self.nodes@.len()
                && self.nodes@[self.free@[j] as int] is None) by {
            assert forall|j: int|
                0 <= j < self.free@.len() implies (#[trigger] self.free@[j]) < self.nodes@.len()
                && self.nodes@[self.free@[j] as int] is None by {
                assert(self.free@[j] == pre.free@[j]);
                assert(self.free@[j] != h.index);
                if pord.len() > 0 && self.free@[j] == pord[0] {
                    assert(pre.nodes@[pord[0] as int] is Some);
                    assert(pre.nodes@[pre.free@[j] as int] is None);
                }
                assert(self.nodes@[self.free@[j] as int] == pre.nodes@[self.free@[j] as int]);
            }
        }
        assert(self.wf());

        // the view grew by `value` at the front
        assert(self@ =~= seq![value] + pre@) by {
            assert forall|i: int| 0 <= i < self@.len() implies self@[i] == (seq![value]
                + pre@)[i] by {
                if i > 0 {
                    let k = pord[i - 1];
                    assert(pre.nodes@[k as int] is Some);
                    if pord.len() > 0 && k == pord[0] {
                    } else {
                        assert(self.nodes@[k as int] == pre.nodes@[k as int]);
                    }
                }
            }
        }

        // the new handle
        assert(ord[0] == h.index);
        self.lemma_pos(h, 0);
        assert(self.valid(h));

        // handles that were valid before
        assert forall|h2: Handle| pre.valid(h2) implies self.valid(h2) && self.value_of(h2)
            == pre.value_of(h2) && self.pos_of(h2) == pre.pos_of(h2) + 1 by {
            pre.lemma_valid_pos(h2);
            let q = pre.pos_of(h2);
            assert(ord[q + 1] == h2.index);
            self.lemma_pos(h2, q + 1);
            assert(h2.index != h.index);
            assert(self.gens@[h2.index as int] == pre.gens@[h2.index as int]);
            if pord.len() > 0 && h2.index == pord[0] {
            } else {
                assert(self.nodes@[h2.index as int] == pre.nodes@[h2.index as int]);
            }
        }
    }
}

impl<T> OwningList<T> {
    /// Remove the node `h` denotes and return its value. A stale or foreign
    /// handle is detected (its slot is out of range, free, or of another
    /// generation) and leaves the list untouched. On success the handle
    /// becomes stale; every other handle stays valid, denotes the same
    /// value, and handles behind the removed node move one position toward
    /// the head.
    pub fn remove_ptr(&mut self, h: Handle) -> (r: Option<T>)
        requires
            old(self).wf(),
        ensures
            final(self).wf(),
            r is Some <==> old(self).valid(h),
            old(self).valid(h) ==> {
                &&& r == Some(old(self).value_of(h))
                &&& final(self)@ == old(self)@.remove(old(self).pos_of(h))
                &&& !final(self).valid(h)
                &&& forall|h2: Handle|
                    old(self).valid(h2) && h2 != h ==> final(self).valid(h2)
                        && final(self).value_of(h2) == old(self).value_of(h2)
                        && final(self).pos_of(h2) == (if old(self).pos_of(h2) < old(self).pos_of(h) {
                        old(self).pos_of(h2)
                    } else {
                        old(self).pos_of(h2) - 1
                    })
            },
            !old(self).valid(h) ==> *final(self) == *old(self) && r is None,
    {
        if h.index >= self.nodes.len() {
            return None;
        }
        if self.nodes[h.index].is_none() {
            proof {
                assert(!old(self).order@.contains(h.index));
            }
            return None;
        }
        if self.gens[h.index] != h.generation {
            return None;
        }
        proof {
            assert(old(self).valid(h));
            old(self).lemma_valid_pos(h);
        }
        let ghost p = old(self).pos_of(h);
        let node = self.nodes[h.index].take().unwrap();
        let Node { value, next, prev } = node;
        proof {
            assert(old(self).links_ok_at(p));
        }
        match prev {
            None => {
                proof {
                    assert(p == 0);
                }
                self.head = next;
                if let Some(nx) = next {
                    proof {
                        assert(nx == old(self).order@[p + 1]);
                        assert(nx != h.index);
                    }
                    let mut n = self.nodes[nx].take().unwrap();
                    n.prev = None;
                    self.nodes[nx] = Some(n);
                }
            },
            Some(pv) => {
                proof {
                    assert(p > 0);
                    assert(pv == old(self).order@[p - 1]);
                    assert(pv != h.index);
                }
                let mut pn = self.nodes[pv].take().unwrap();
                pn.next = next;
                self.nodes[pv] = Some(pn);
                if let Some(nx) = next {
                    proof {
                        assert(nx == old(self).order@[p + 1]);
                        assert(nx != h.index && nx != pv);
                    }
                    let mut n = self.nodes[nx].take().unwrap();
                    n.prev = Some(pv);
                    self.nodes[nx] = Some(n);
                }
            },
        }
        self.free.push(h.index);
        proof {
            self.order@ = old(self).order@.remove(p);
            self.lemma_remove(*old(self), h, p);
        }
        Some(value)
    }

    /// Move the node `h` denotes to the front of the list, rewiring links
    /// only: no node is created or destroyed, and every handle — `h`
    /// included — stays valid and denotes the same value. If `h` already
    /// denotes the head, or is stale or foreign, the list is untouched.
    pub fn move_to_head(&mut self, h: Handle)
        requires
            old(self).wf(),
        ensures
            final(self).wf(),
            old(self).valid(h) ==> {
                &&& final(self)@ == seq![old(self).value_of(h)] + old(self)@.remove(
                    old(self).pos_of(h),
                )
                &&& forall|h2: Handle|
                    old(self).valid(h2) ==> final(self).valid(h2) && final(self).value_of(h2)
                        == old(self).value_of(h2) && final(self).pos_of(h2) == (if h2 == h {
                        0
                    } else if old(self).pos_of(h2) < old(self).pos_of(h) {
                        old(self).pos_of(h2) + 1
                    } else {
                        old(self).pos_of(h2)
                    })
            },
            old(self).valid(h) && old(self).pos_of(h) == 0 ==> *final(self) == *old(self),
            !old(self).valid(h) ==> *final(self) == *old(self),
    {
        if h.index >= self.nodes.len() {
            return;
        }
        if self.nodes[h.index].is_none() {
            proof {
                assert(!old(self).order@.contains(h.index));
            }
            return;
        }
        if self.gens[h.index] != h.generation {
            return;
        }
        proof {
            assert(old(self).valid(h));
            old(self).lemma_valid_pos(h);
        }
        let ghost p = old(self).pos_of(h);
        if let Some(hd) = self.head {
            if hd == h.index {
                // already the head: avoid a needless relink
                proof {
                    old(self).lemma_pos(h, 0);
                }
                return;
            }
        }
        proof {
            assert(old(self).order@.len() > 0);
            if p == 0 {
                assert(old(self).head == Some(old(self).order@[0]));
                assert(false);
            }
            assert(old(self).links_ok_at(p));
        }
        // detach the node from its place in the chain, as a removal would
        let node = self.nodes[h.index].take().unwrap();
        let Node { value, next, prev } = node;
        let pv = prev.unwrap();
        proof {
            assert(pv == old(self).order@[p - 1]);
            assert(pv != h.index);
        }
        let mut pn = self.nodes[pv].take().unwrap();
        pn.next = next;
        self.nodes[pv] = Some(pn);
        if let Some(nx) = next {
            proof {
                assert(nx == old(self).order@[p + 1]);
                assert(nx != h.index && nx != pv);
            }
            let mut n = self.nodes[nx].take().unwrap();
            n.prev = Some(pv);
            self.nodes[nx] = Some(n);
        }
        proof {
            self.order@ = old(self).order@.remove(p);
        }
        let ghost mid = *self;
        proof {
            mid.lemma_remove(*old(self), h, p);
        }
        // reattach it as the new head, as a prepend would, reusing its slot
        let oh = self.head.unwrap();
        proof {
            assert(oh == old(self).order@[0]);
            assert(oh == mid.order@[0]);
            assert(mid.nodes@[oh as int] is Some) by {
                assert(mid.order@.contains(oh)) by {
                    assert(mid.order@[0] == oh);
                }
            }
        }
        let mut ohn = self.nodes[oh].take().unwrap();
        ohn.prev = Some(h.index);
        self.nodes[oh] = Some(ohn);
        self.nodes[h.index] = Some(Node { value, next: Some(oh), prev: None });
        self.head = Some(h.index);
        proof {
            self.order@ = seq![h.index] + mid.order@;
            assert(self.gens@ == mid.gens@.update(h.index as int, h.generation)) by {
                assert(mid.gens@[h.index as int] == h.generation);
                assert(mid.gens@.update(h.index as int, h.generation) =~= mid.gens@);
            }
            assert forall|j: int| 0 <= j < self.free@.len() implies (#[trigger] self.free@[j])
                != h.index by {
                assert(self.free@[j] == old(self).free@[j]);
                assert(old(self).nodes@[old(self).free@[j] as int] is None);
                assert(old(self).nodes@[h.index as int] is Some);
            }
            assert(!mid.order@.contains(h.index));
            self.lemma_prepend(mid, h, value);
            // chain the two steps into facts about the original list
            assert(value == old(self).value_of(h));
            assert forall|h2: Handle| old(self).valid(h2) implies final(self).valid(h2)
                && final(self).value_of(h2) == old(self).value_of(h2)
                && final(self).pos_of(h2) == (if h2 == h {
                0
            } else if old(self).pos_of(h2) < p {
                old(self).pos_of(h2) + 1
            } else {
                old(self).pos_of(h2)
            }) by {
                if h2 == h {
                    assert(final(self).pos_of(h) == 0);
                } else {
                    assert(mid.valid(h2));
                }
            }
        }
    }

    /// The facts `remove_ptr` promises on success, proved from the state it
    /// builds: the chain with position `p` spliced out, the slot freed, and
    /// the two neighbors relinked to each other.
    proof fn lemma_remove(self, pre: Self, h: Handle, p: int)
        requires
            pre.wf(),
            pre.valid(h),
            0 <= p < pre.order@.len(),
            pre.order@[p] == h.index,
            self.order@ == pre.order@.remove(p),
            self.gens@ == pre.gens@,
            self.free@ == pre.free@.push(h.index) || self.free@ == pre.free@,
            self.nodes@.len() == pre.nodes@.len(),
            self.nodes@[h.index as int] is None,
            p + 1 < pre.order@.len() ==> {
                let nx = pre.order@[p + 1];
                &&& self.nodes@[nx as int] is Some
                &&& self.node_at(nx).value == pre.node_at(nx).value
                &&& self.node_at(nx).next == pre.node_at(nx).next
                &&& self.node_at(nx).prev == (if p == 0 {
                    None::<usize>
                } else {
                    Some(pre.order@[p - 1])
                })
            },
            p > 0 ==> {
                let pv = pre.order@[p - 1];
                &&& self.nodes@[pv as int] is Some
                &&& self.node_at(pv).value == pre.node_at(pv).value
                &&& self.node_at(pv).prev == pre.node_at(pv).prev
                &&& self.node_at(pv).next == (if p + 1 < pre.order@.len() {
                    Some(pre.order@[p + 1])
                } else {
                    None::<usize>
                })
            },
            forall|k: int|
                0 <= k < pre.nodes@.len() && k != h.index as int && (p == 0 || k != pre.order@[p
                    - 1] as int) && (p + 1 >= pre.order@.len() || k != pre.order@[p + 1] as int)
                    ==> self.nodes@[k] == pre.nodes@[k],
            self.head == (if p > 0 {
                pre.head
            } else if p + 1 < pre.order@.len() {
                Some(pre.order@[p + 1])
            } else {
                None::<usize>
            }),
        ensures
            self.wf(),
            self@ == pre@.remove(p),
            !self.valid(h),
            forall|h2: Handle|
                pre.valid(h2) && h2 != h ==> self.valid(h2) && self.value_of(h2) == pre.value_of(
                    h2,
                ) && self.pos_of(h2) == (if pre.pos_of(h2) < p {
                    pre.pos_of(h2)
                } else {
                    pre.pos_of(h2) - 1
                }),
    {
        let ord = self.order@;
        let pord = pre.order@;
        let n = pord.len();
        assert(ord.len() == n - 1);
        assert(forall|i: int| 0 <= i < p ==> ord[i] == pord[i]);
        assert(forall|i: int| p <= i < n - 1 ==> ord[i] == pord[i + 1]);

        // membership in the new order
        assert(forall|k: usize| #[trigger] ord.contains(k) <==> (pord.contains(k) && k != h.index))
            by {
            assert forall|k: usize|
                #[trigger] ord.contains(k) <==> (pord.contains(k) && k != h.index) by {
                if ord.contains(k) {
                    let i = choose|i: int| 0 <= i < ord.len() && ord[i] == k;
                    if i < p {
                        assert(pord[i] == k);
                        assert(pord[i] != pord[p]);
                        assert(pord.contains(k));
                    } else {
                        assert(pord[i + 1] == k);
                        assert(pord[i + 1] != pord[p]);
                        assert(pord.contains(k));
                    }
                }
                if pord.contains(k) && k != h.index {
                    let i = choose|i: int| 0 <= i < pord.len() && pord[i] == k;
                    assert(i != p);
                    if i < p {
                        assert(ord[i] == k);
                    } else {
                        assert(ord[i - 1] == k);
                    }
                    assert(ord.contains(k));
                }
            }
        }

        // wf, clause by clause
        assert(forall|i: int| 0 <= i < ord.len() ==> (#[trigger] ord[i]) < self.nodes@.len());
        assert(forall|i: int, j: int| 0 <= i < j < ord.len() ==> ord[i] != ord[j]) by {
            assert forall|i: int, j: int| 0 <= i < j < ord.len() implies ord[i] != ord[j] by {
                let i2: int = if i < p {
                    i
                } else {
                    i + 1
                };
                let j2: int = if j < p {
                    j
                } else {
                    j + 1
                };
                assert(ord[i] == pord[i2] && ord[j] == pord[j2]);
                assert(pord[i2] != pord[j2]);
            }
        }
        assert(forall|k: usize|
            k < self.nodes@.len() ==> ((#[trigger] self.nodes@[k as int]) is Some <==> ord.contains(
                k,
            ))) by {
            assert forall|k: usize|
                k < self.nodes@.len() implies ((#[trigger] self.nodes@[k as int]) is Some
                <==> ord.contains(k)) by {
                if k == h.index {
                } else if p > 0 && k == pord[p - 1] {
                    assert(pord.contains(k)) by {
                        assert(pord[p - 1] == k);
                    }
                } else if p + 1 < n && k == pord[p + 1] {
                    assert(pord.contains(k)) by {
                        assert(pord[p + 1] == k);
                    }
                } else {
                    assert(self.nodes@[k as int] == pre.nodes@[k as int]);
                }
            }
        }
        assert(if ord.len() == 0 {
            self.head is None
        } else {
            self.head == Some(ord[0])
        }) by {
            if ord.len() > 0 {
                if p > 0 {
                    assert(ord[0] == pord[0]);
                } else {
                    assert(ord[0] == pord[1]);
                }
            }
        }
        assert forall|i: int| 0 <= i < ord.len() implies #[trigger] self.links_ok_at(i) by {
            let k = ord[i];
            let i2: int = if i < p {
                i
            } else {
                i + 1
            };
            assert(k == pord[i2]);
            assert(pre.links_ok_at(i2));
            assert(k != h.index);
            if p > 0 && k == pord[p - 1] {
                assert(i2 == p - 1);
                assert(i == p - 1);
                // next was relinked to skip the removed node
                if i + 1 < ord.len() {
                    assert(ord[i + 1] == pord[p + 1]);
                }
                if i > 0 {
                    assert(ord[i - 1] == pord[i - 1]);
                    assert(self.node_at(k).prev == pre.node_at(k).prev);
                }
            } else if p + 1 < n && k == pord[p + 1] {
                assert(i2 == p + 1);
                assert(i == p);
                // prev was relinked to skip the removed node
                if i > 0 {
                    assert(ord[i - 1] == pord[p - 1]);
                }
                if i + 1 < ord.len() {
                    assert(ord[i + 1] == pord[p + 2]);
                    assert(self.node_at(k).next == pre.node_at(k).next);
                }
            } else {
                assert(self.nodes@[k as int] == pre.nodes@[k as int]);
                if i + 1 < ord.len() {
                    let k2: int = if i + 1 < p {
                        i + 1
                    } else {
                        i + 2
                    };
                    assert(ord[i + 1] == pord[k2]);
                    if i + 1 == p {
                        assert(i2 == i);
                        assert(pord[i2] == pord[p - 1]);
                        assert(false);
                    }
                    assert(i2 + 1 == k2);
                }
                if i > 0 {
                    let k0: int = if i - 1 < p {
                        i - 1
                    } else {
                        i
                    };
                    assert(ord[i - 1] == pord[k0]);
                    if i - 1 == p - 1 && i >= p {
                        assert(false);
                    }
                    if i == p {
                        assert(i2 == p + 1);
                        assert(false) by {
                            assert(k == pord[p + 1]);
                        }
                    }
                    assert(k0 == i2 - 1);
                }
            }
        }
        assert(forall|j: int|
            0 <= j < self.free@.len() ==> (#[trigger] self.free@[j]) < self.nodes@.len()
                && self.nodes@[self.free@[j] as int] is None) by {
            assert forall|j: int|
                0 <= j < self.free@.len() implies (#[trigger] self.free@[j]) < self.nodes@.len()
                && self.nodes@[self.free@[j] as int] is None by {
                if j >= pre.free@.len() {
                    assert(self.free@[j] == h.index);
                } else {
                    let k = pre.free@[j];
                    assert(pre.nodes@[k as int] is None);
                    assert(!pord.contains(k));
                    assert(k != h.index) by {
                        assert(pord[p] == h.index);
                    }
                    if p > 0 && k == pord[p - 1] {
                        assert(pord.contains(k)) by {
                            assert(pord[p - 1] == k);
                        }
                    }
                    if p + 1 < n && k == pord[p + 1] {
                        assert(pord.contains(k)) by {
                            assert(pord[p + 1] == k);
                        }
                    }
                    assert(self.nodes@[k as int] == pre.nodes@[k as int]);
                }
            }
        }
        assert(forall|j1: int, j2: int|
            0 <= j1 < j2 < self.free@.len() ==> self.free@[j1] != self.free@[j2]) by {
            assert forall|j1: int, j2: int|
                0 <= j1 < j2 < self.free@.len() implies self.free@[j1] != self.free@[j2] by {
                if j2 >= pre.free@.len() {
                    // the slot just freed was live before, so it was not on the free list
                    assert(self.free@[j2] == h.index);
                    let k = pre.free@[j1];
                    assert(pre.nodes@[k as int] is None);
                    assert(pre.nodes@[h.index as int] is Some) by {
                        pre.lemma_valid_pos(h);
                    }
                }
            }
        }
        assert(self.wf());

        // the view lost the value at position p
        assert(self@ =~= pre@.remove(p)) by {
            assert forall|i: int| 0 <= i < self@.len() implies self@[i] == pre@.remove(p)[i] by {
                let k = ord[i];
                let i2: int = if i < p {
                    i
                } else {
                    i + 1
                };
                assert(k == pord[i2]);
                assert(pre@.remove(p)[i] == pre@[i2]);
                if p > 0 && k == pord[p - 1] {
                } else if p + 1 < n && k == pord[p + 1] {
                } else {
                    assert(self.nodes@[k as int] == pre.nodes@[k as int]);
                }
            }
        }

        // the handle itself went stale
        assert(!ord.contains(h.index));

        // every other handle survives, shifted past the gap
        assert forall|h2: Handle| pre.valid(h2) && h2 != h implies self.valid(h2)
            && self.value_of(h2) == pre.value_of(h2) && self.pos_of(h2) == (if pre.pos_of(h2) < p {
            pre.pos_of(h2)
        } else {
            pre.pos_of(h2) - 1
        }) by {
            pre.lemma_valid_pos(h2);
            let q = pre.pos_of(h2);
            assert(h2.index != h.index) by {
                if h2.index == h.index {
                    assert(h2.generation == pre.gens@[h2.index as int]);
                    assert(h.generation == pre.gens@[h.index as int]);
                }
            }
            assert(q != p);
            if q < p {
                assert(ord[q] == pord[q]);
                self.lemma_pos(h2, q);
            } else {
                assert(ord[q - 1] == pord[q]);
                self.lemma_pos(h2, q - 1);
            }
            if p > 0 && h2.index == pord[p - 1] {
            } else if p + 1 < n && h2.index == pord[p + 1] {
            } else {
                assert(self.nodes@[h2.index as int] == pre.nodes@[h2.index as int]);
            }
        }
    }
}

impl<T> OwningList<T> {
    /// A borrowing forward traversal, head to tail. The iterator holds a
    /// shared borrow of the list, so no mutation can run while it is alive;
    /// it can be created again at any time to restart the traversal.
    pub fn iter(&self) -> (it: ListIter<'_, T>)
        requires
            self.wf(),
        ensures
            it.wf(),
            it.src() == *self,
            it.remaining() == self@,
    {
        ListIter::new(self)
    }
}

impl<T> OwningList<T> {
    /// Detach the head node and hand its value out, as the first step of a
    /// consuming traversal.
    fn pop_head(&mut self) -> (r: Option<T>)
        requires
            old(self).wf(),
        ensures
            final(self).wf(),
            old(self)@.len() == 0 ==> r is None && *final(self) == *old(self),
            old(self)@.len() > 0 ==> r == Some(old(self)@[0]) && final(self)@ == old(self)@.skip(
                1,
            ),
    {
        match self.head {
            None => None,
            Some(hd) => {
                proof {
                    assert(old(self).order@.len() > 0);
                    assert(old(self).order@[0] == hd);
                }
                let h = Handle { index: hd, generation: self.gens[hd] };
                proof {
                    old(self).lemma_pos(h, 0);
                    assert(old(self).valid(h));
                }
                let r = self.remove_ptr(h);
                proof {
                    assert(old(self)@.remove(0) =~= old(self)@.skip(1));
                    assert(old(self)@[0] == old(self).value_of(h));
                }
                r
            },
        }
    }

    /// A consuming forward traversal, head to tail: the list is given up to
    /// the iterator, which destroys each node as it yields its value.
    pub fn into_iter(self) -> (it: ListIntoIter<T>)
        requires
            self.wf(),
        ensures
            it.wf(),
            it.src() == self,
            it.remaining() == self@,
    {
        ListIntoIter::new(self)
    }
}

/// A consuming iterator over an [`OwningList`]: it owns the list and pops
/// the head node on each step, so it yields each value exactly once and
/// cannot be restarted.
pub struct ListIntoIter<T> {
    list: OwningList<T>,
}

impl<T> ListIntoIter<T> {
    /// The list being consumed, in its current state.
    pub closed spec fn src(self) -> OwningList<T> {
        self.list
    }

    /// The traversal owns a well-formed list.
    pub closed spec fn wf(self) -> bool {
        self.list.wf()
    }

    /// The values not yet yielded, in the order they will be yielded.
    pub closed spec fn remaining(self) -> Seq<T> {
        self.list@
    }

    /// A fresh consuming traversal that takes `list` over.
    pub fn new(list: OwningList<T>) -> (it: Self)
        requires
            list.wf(),
        ensures
            it.wf(),
            it.src() == list,
            it.remaining() == list@,
    {
        ListIntoIter { list }
    }

    /// Yield the next value, destroying its node; `None` exactly when every
    /// value has been yielded.
    pub fn next(&mut self) -> (r: Option<T>)
        requires
            old(self).wf(),
        ensures
            final(self).wf(),
            match r {
                Some(v) => old(self).remaining().len() > 0 && v == old(self).remaining()[0]
                    && final(self).remaining() == old(self).remaining().skip(1),
                None => old(self).remaining().len() == 0 && *final(self) == *old(self),
            },
    {
        self.list.pop_head()
    }
}

/// Law: a borrowing traversal and a consuming traversal of the same list
/// yield exactly the same values in the same order — consuming the list
/// hands out what iterating over it would have shown just before.
pub proof fn lemma_round_trip<'list, T>(bi: ListIter<'list, T>, ci: ListIntoIter<T>)
    requires
        bi.wf(),
        ci.wf(),
        bi.at_start(),
        bi.src() == ci.src(),
    ensures
        bi.remaining() == ci.remaining(),
{
    assert(bi.remaining() =~= bi.src()@);
}

/// A borrowing iterator over an [`OwningList`]: a shared borrow of the list
/// plus the slot index of the next node to visit (`None` once past the
/// tail).
pub struct ListIter<'list, T> {
    list: &'list OwningList<T>,
    cur: Option<usize>,
    pos: Ghost<int>,
}

impl<'list, T> ListIter<'list, T> {
    /// The list being traversed.
    pub closed spec fn src(self) -> OwningList<T> {
        *self.list
    }

    /// The traversal sits on a position of the list's chain, and `cur`
    /// names the slot at that position (or nothing, past the tail).
    pub closed spec fn wf(self) -> bool {
        &&& self.list.wf()
        &&& 0 <= self.pos@ <= self.list.order@.len()
        &&& self.cur == (if self.pos@ < self.list.order@.len() {
            Some(self.list.order@[self.pos@])
        } else {
            None::<usize>
        })
    }

    /// No value has been yielded yet.
    pub closed spec fn at_start(self) -> bool {
        self.pos@ == 0
    }

    /// The values not yet yielded, in the order they will be yielded.
    pub closed spec fn remaining(self) -> Seq<T> {
        self.list@.skip(self.pos@)
    }

    /// A fresh traversal of `list`, sitting on its head.
    pub fn new(list: &'list OwningList<T>) -> (it: Self)
        requires
            list.wf(),
        ensures
            it.wf(),
            it.at_start(),
            it.src() == *list,
            it.remaining() == list@,
    {
        let it = ListIter { list, cur: list.head, pos: Ghost(0) };
        proof {
            assert(it.remaining() =~= list@);
        }
        it
    }

    /// Yield a reference to the next value, advancing the traversal; `None`
    /// exactly when every value has been yielded.
    pub fn next(&mut self) -> (r: Option<&'list T>)
        requires
            old(self).wf(),
        ensures
            final(self).wf(),
            final(self).src() == old(self).src(),
            match r {
                Some(v) => old(self).remaining().len() > 0 && *v == old(self).remaining()[0]
                    && final(self).remaining() == old(self).remaining().skip(1),
                None => old(self).remaining().len() == 0 && *final(self) == *old(self),
            },
    {
        match self.cur {
            None => None,
            Some(k) => {
                let ghost p = self.pos@;
                proof {
                    assert(self.list.order@.contains(k)) by {
                        assert(self.list.order@[p] == k);
                    }
                    assert(self.list.links_ok_at(p));
                }
                let node = self.list.nodes[k].as_ref().unwrap();
                self.cur = node.next;
                proof {
                    self.pos@ = p + 1;
                    assert(final(self).remaining() =~= old(self).remaining().skip(1));
                    assert(old(self).remaining()[0] == old(self).src()@[p]);
                }
                Some(&node.value)
            },
        }
    }
}

} // verus!
