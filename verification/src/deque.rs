//! A doubly-linked list with O(1) access to both ends.
//!
//! Nodes live in a flat arena (`Vec` of slots) and refer to their neighbours
//! by slot index, so the two-way linkage carries no ownership cycle, and
//! dropping the list frees the whole arena iteratively: teardown never
//! recurses along the chain, however long it is.

use vstd::prelude::*;

verus! {

/// One element together with its two neighbour links. A link is the arena
/// index of the previous or next node, absent at an end of the list.
struct Node<T> {
    elem: T,
    prev: Option<usize>,
    next: Option<usize>,
}

/// A doubly-linked list. `head` and `tail` are the arena indices of the
/// first and last node; every unoccupied arena slot is recorded in `free`.
///
/// The abstract value (the view) is the sequence of elements from head to
/// tail. The ghost `order` field records which slot holds each position.
pub struct List<T> {
    nodes: Vec<Option<Node<T>>>,
    free: Vec<usize>,
    head: Option<usize>,
    tail: Option<usize>,
    order: Ghost<Seq<usize>>,
}

impl<T> Node<T> {
    /// A fresh node holding `elem`, linked to nothing yet.
    fn new(elem: T) -> (n: Self)
        ensures
            n.elem == elem,
            n.prev is None,
            n.next is None,
    {
        Node { elem, prev: None, next: None }
    }
}

impl<T> View for List<T> {
    type V = Seq<T>;

    /// The elements in list order, head first.
    closed spec fn view(&self) -> Seq<T> {
        Seq::new(self.order@.len(), |k: int| self.nodes@[self.order@[k] as int]->0.elem)
    }
}

impl<T> List<T> {
    /// The node at position `k` of the list sits in a valid, occupied slot,
    /// and its two links point at the neighbouring positions: `prev` at
    /// position `k - 1` and `next` at position `k + 1`, each absent exactly
    /// at the corresponding end. Following `next` from the head therefore
    /// visits the positions in order, and following `prev` from the tail
    /// visits them in reverse: the two traversals are mirror images.
    spec fn link_ok(self, k: int) -> bool {
        let ord = self.order@;
        let i = ord[k] as int;
        &&& i < self.nodes@.len()
        &&& self.nodes@[i] is Some
        &&& self.nodes@[i]->0.prev == (if k == 0 {
            Option::<usize>::None
        } else {
            Some(ord[k - 1])
        })
        &&& self.nodes@[i]->0.next == (if k == ord.len() - 1 {
            Option::<usize>::None
        } else {
            Some(ord[k + 1])
        })
    }

    /// Entry `k` of the free list names a valid arena slot that holds no node.
    spec fn free_ok(self, k: int) -> bool {
        let i = self.free@[k] as int;
        &&& i < self.nodes@.len()
        &&& self.nodes@[i] is None
    }

    /// Structural invariant.
    ///
    /// - each position's links are consistent (`link_ok`);
    /// - no slot appears at two positions: list membership is never shared;
    /// - `head` and `tail` name the first and last position, and are absent
    ///   together exactly when the list is empty;
    /// - the free list names unoccupied slots, none of them twice;
    /// - every arena slot is accounted for: occupied positions and free
    ///   entries together exhaust the arena, so the arena holds exactly one
    ///   node per element of the list.
    pub closed spec fn wf(self) -> bool {
        let ord = self.order@;
        &&& forall|k: int| 0 <= k < ord.len() ==> #[trigger] self.link_ok(k)
        &&& forall|j: int, k: int| 0 <= j < k < ord.len() ==> ord[j] != ord[k]
        &&& self.head == (if ord.len() == 0 {
            Option::<usize>::None
        } else {
            Some(ord[0])
        })
        &&& self.tail == (if ord.len() == 0 {
            Option::<usize>::None
        } else {
            Some(ord[ord.len() - 1])
        })
        &&& forall|k: int| 0 <= k < self.free@.len() ==> #[trigger] self.free_ok(k)
        &&& forall|j: int, k: int|
            0 <= j < k < self.free@.len() ==> self.free@[j] != self.free@[k]
        &&& ord.len() + self.free@.len() == self.nodes@.len()
    }

    /// Place `node` in an unoccupied arena slot (reusing a free one when
    /// there is one) and return its index. The list structure and every
    /// occupied slot are untouched; the chosen slot held no list position.
    fn place_node(&mut self, node: Node<T>) -> (i: usize)
        requires
            old(self).wf(),
        ensures
            final(self).order@ == old(self).order@,
            final(self).head == old(self).head,
            final(self).tail == old(self).tail,
            i < final(self).nodes@.len(),
            old(self).nodes@.len() <= final(self).nodes@.len(),
            final(self).nodes@[i as int] == (Some(node)),
            !old(self).order@.contains(i),
            forall|j: int|
                0 <= j < final(self).nodes@.len() && j != i ==> 0 <= j < old(self).nodes@.len()
                    && final(self).nodes@[j] == old(self).nodes@[j],
            forall|k: int|
                0 <= k < final(self).free@.len() ==> ((#[trigger] final(self).free@[k]) as int)
                    < final(self).nodes@.len() && final(self).nodes@[final(self).free@[k] as int]
                    is None,
            forall|j: int, k: int|
                0 <= j < k < final(self).free@.len()
                    ==> final(self).free@[j] != final(self).free@[k],
            final(self).order@.len() + final(self).free@.len() + 1 == final(self).nodes@.len(),
    {
        proof {
            if old(self).order@.len() > 0 {
                assert(old(self).link_ok(0));
            }
        }
        match self.free.pop() {
            Some(i) => {
                proof {
                    let last = old(self).free@.len() - 1;
                    assert(old(self).free_ok(last));
                    if old(self).order@.contains(i) {
                        let k = choose|k: int|
                            0 <= k < old(self).order@.len() && old(self).order@[k] == i;
                        assert(old(self).link_ok(k));
                    }
                }
                self.nodes[i] = Some(node);
                proof {
                    assert forall|k: int|
                        0 <= k < self.free@.len() implies ((#[trigger] self.free@[k]) as int)
                        < self.nodes@.len() && self.nodes@[self.free@[k] as int] is None by {
                        assert(old(self).free_ok(k));
                        assert(old(self).free@[k] != old(self).free@[old(self).free@.len() - 1]);
                    };
                }
                i
            },
            None => {
                let i = self.nodes.len();
                proof {
                    if old(self).order@.contains(i) {
                        let k = choose|k: int|
                            0 <= k < old(self).order@.len() && old(self).order@[k] == i;
                        assert(old(self).link_ok(k));
                    }
                }
                self.nodes.push(Some(node));
                proof {
                    assert forall|k: int|
                        0 <= k < self.free@.len() implies ((#[trigger] self.free@[k]) as int)
                        < self.nodes@.len() && self.nodes@[self.free@[k] as int] is None by {
                        assert(old(self).free_ok(k));
                    };
                }
                i
            },
        }
    }

    /// Point the `prev` link of the node in slot `i` at `p`; nothing else
    /// changes.
    fn set_prev(&mut self, i: usize, p: Option<usize>)
        requires
            i < old(self).nodes@.len(),
            old(self).nodes@[i as int] is Some,
        ensures
            final(self).nodes@ == old(self).nodes@.update(
                i as int,
                Some(
                    (Node {
                        elem: old(self).nodes@[i as int]->0.elem,
                        prev: p,
                        next: old(self).nodes@[i as int]->0.next,
                    }),
                ),
            ),
            final(self).free@ == old(self).free@,
            final(self).head == old(self).head,
            final(self).tail == old(self).tail,
            final(self).order@ == old(self).order@,
    {
        let slot = &mut self.nodes[i];
        match slot {
            Some(n) => {
                n.prev = p;
            },
            None => {},
        }
    }

    /// Point the `next` link of the node in slot `i` at `p`; nothing else
    /// changes.
    fn set_next(&mut self, i: usize, p: Option<usize>)
        requires
            i < old(self).nodes@.len(),
            old(self).nodes@[i as int] is Some,
        ensures
            final(self).nodes@ == old(self).nodes@.update(
                i as int,
                Some(
                    (Node {
                        elem: old(self).nodes@[i as int]->0.elem,
                        prev: old(self).nodes@[i as int]->0.prev,
                        next: p,
                    }),
                ),
            ),
            final(self).free@ == old(self).free@,
            final(self).head == old(self).head,
            final(self).tail == old(self).tail,
            final(self).order@ == old(self).order@,
    {
        let slot = &mut self.nodes[i];
        match slot {
            Some(n) => {
                n.next = p;
            },
            None => {},
        }
    }

    /// Replacing the element at position `p` — and nothing else — keeps the
    /// list well-formed and updates position `p` of the view.
    proof fn lemma_elem_update(pre: Self, post: Self, p: int, v: T)
        requires
            pre.wf(),
            0 <= p < pre.order@.len(),
            post.nodes@ == pre.nodes@.update(
                pre.order@[p] as int,
                Some(
                    (Node {
                        elem: v,
                        prev: pre.nodes@[pre.order@[p] as int]->0.prev,
                        next: pre.nodes@[pre.order@[p] as int]->0.next,
                    }),
                ),
            ),
            post.free@ == pre.free@,
            post.head == pre.head,
            post.tail == pre.tail,
            post.order@ == pre.order@,
        ensures
            post.wf(),
            post@ == pre@.update(p, v),
    {
        let ord = pre.order@;
        assert(pre.link_ok(p));
        assert forall|k: int| 0 <= k < ord.len() implies #[trigger] post.link_ok(k) by {
            assert(pre.link_ok(k));
            if k != p {
                assert(ord[k] != ord[p]);
            }
        };
        assert forall|k: int| 0 <= k < post.free@.len() implies #[trigger] post.free_ok(k) by {
            assert(pre.free_ok(k));
        };
        assert(post@ =~= pre@.update(p, v)) by {
            assert forall|k: int| 0 <= k < ord.len() implies post@[k] == pre@.update(p, v)[k] by {
                assert(pre.link_ok(k));
                if k != p {
                    assert(ord[k] != ord[p]);
                }
            };
        };
    }

    /// Borrow the element at position `p` (held in slot `i`) for writing.
    /// Whatever the caller writes through the borrow becomes the element at
    /// position `p`; the structure of the list does not change.
    fn elem_mut(&mut self, i: usize, Ghost(p): Ghost<int>) -> (r: &mut T)
        requires
            old(self).wf(),
            0 <= p < old(self).order@.len(),
            i == old(self).order@[p],
        ensures
            final(self).wf(),
            *r == old(self)@[p],
            final(self)@ == old(self)@.update(p, *final(r)),
            final(self).order@ == old(self).order@,
    {
        proof {
            assert(old(self).link_ok(p));
        }
        let slot = &mut self.nodes[i];
        match slot {
            Some(n) => {
                let r0 = &mut n.elem;
                proof {
                    Self::lemma_elem_update(*old(self), after_borrow(*self), p, *final(r0));
                }
                r0
            },
            None => unreached(),
        }
    }

    /// An empty list.
    pub fn new() -> (l: Self)
        ensures
            l.wf(),
            l@ == Seq::<T>::empty(),
    {
        List {
            nodes: Vec::new(),
            free: Vec::new(),
            head: None,
            tail: None,
            order: Ghost(Seq::empty()),
        }
    }

    /// Insert `elem` as the new first element, in constant time.
    pub fn push_front(&mut self, elem: T)
        requires
            old(self).wf(),
        ensures
            final(self).wf(),
            final(self)@ == seq![elem] + old(self)@,
    {
        let mut node = Node::new(elem);
        node.next = self.head;
        let i = self.place_node(node);
        match self.head {
            Some(h) => {
                proof {
                    assert(old(self).link_ok(0));
                    assert(old(self).order@[0] != i) by {
                        if old(self).order@[0] == i {
                            assert(old(self).order@.contains(i));
                        }
                    };
                }
                self.set_prev(h, Some(i));
            },
            None => {
                self.tail = Some(i);
            },
        }
        self.head = Some(i);
        proof {
            self.order@ = seq![i] + self.order@;
            let ord0 = old(self).order@;
            let ord1 = self.order@;
            if ord0.len() > 0 {
                assert(old(self).link_ok(0));
                assert(ord0[0] != i) by {
                    if ord0[0] == i {
                        assert(ord0.contains(i));
                    }
                };
            }
            assert forall|k: int| 0 <= k < ord1.len() implies #[trigger] self.link_ok(k) by {
                if k > 0 {
                    assert(old(self).link_ok(k - 1));
                    assert(ord0[k - 1] != i) by {
                        if ord0[k - 1] == i {
                            assert(ord0.contains(i));
                        }
                    };
                    if k - 1 > 0 {
                        assert(ord0[0] != ord0[k - 1]);
                    }
                }
            };
            assert forall|j: int, k: int| 0 <= j < k < ord1.len() implies ord1[j] != ord1[k] by {
                if j > 0 {
                    assert(ord0[j - 1] != ord0[k - 1]);
                } else {
                    assert(ord0[k - 1] != i) by {
                        if ord0[k - 1] == i {
                            assert(ord0.contains(i));
                        }
                    };
                }
            };
            assert forall|k: int| 0 <= k < self.free@.len() implies #[trigger] self.free_ok(k) by {
                if ord0.len() > 0 {
                    assert(old(self).link_ok(0));
                }
            };
            assert(self@ =~= seq![elem] + old(self)@) by {
                assert forall|k: int| 0 <= k < ord1.len() implies self@[k] == (seq![elem] + old(
                    self,
                )@)[k] by {
                    if k > 0 {
                        assert(old(self).link_ok(k - 1));
                        assert(ord0[k - 1] != i) by {
                            if ord0[k - 1] == i {
                                assert(ord0.contains(i));
                            }
                        };
                        if ord0.len() > 0 {
                            assert(ord0[k - 1] == ord1[k]);
                        }
                    }
                };
            };
        }
    }

    /// Insert `elem` as the new last element, in constant time.
    pub fn push_back(&mut self, elem: T)
        requires
            old(self).wf(),
        ensures
            final(self).wf(),
            final(self)@ == old(self)@.push(elem),
    {
        let mut node = Node::new(elem);
        node.prev = self.tail;
        let i = self.place_node(node);
        match self.tail {
            Some(t) => {
                proof {
                    assert(old(self).link_ok(old(self).order@.len() - 1));
                    assert(old(self).order@[old(self).order@.len() - 1] != i) by {
                        if old(self).order@[old(self).order@.len() - 1] == i {
                            assert(old(self).order@.contains(i));
                        }
                    };
                }
                self.set_next(t, Some(i));
            },
            None => {
                self.head = Some(i);
            },
        }
        self.tail = Some(i);
        proof {
            self.order@ = self.order@.push(i);
            let ord0 = old(self).order@;
            let ord1 = self.order@;
            let last = ord0.len() - 1;
            if ord0.len() > 0 {
                assert(old(self).link_ok(last));
                assert(ord0[last] != i) by {
                    if ord0[last] == i {
                        assert(ord0.contains(i));
                    }
                };
            }
            assert forall|k: int| 0 <= k < ord1.len() implies #[trigger] self.link_ok(k) by {
                if k < last {
                    assert(old(self).link_ok(k));
                    assert(ord0[k] != i) by {
                        if ord0[k] == i {
                            assert(ord0.contains(i));
                        }
                    };
                    assert(ord0[k] != ord0[last]);
                } else if k == last {
                    assert(old(self).link_ok(k));
                }
            };
            assert forall|j: int, k: int| 0 <= j < k < ord1.len() implies ord1[j] != ord1[k] by {
                if k < ord0.len() {
                    assert(ord0[j] != ord0[k]);
                } else {
                    assert(ord0[j] != i) by {
                        if ord0[j] == i {
                            assert(ord0.contains(i));
                        }
                    };
                }
            };
            assert forall|k: int| 0 <= k < self.free@.len() implies #[trigger] self.free_ok(k) by {
                if ord0.len() > 0 {
                    assert(old(self).link_ok(last));
                }
            };
            assert(self@ =~= old(self)@.push(elem)) by {
                assert forall|k: int| 0 <= k < ord1.len() implies self@[k] == old(self)@.push(
                    elem,
                )[k] by {
                    if k < ord0.len() {
                        assert(old(self).link_ok(k));
                        assert(ord0[k] != i) by {
                            if ord0[k] == i {
                                assert(ord0.contains(i));
                            }
                        };
                        assert(ord0[k] == ord1[k]);
                    }
                };
            };
        }
    }

    /// Remove and return the first element, in constant time. On an empty
    /// list nothing changes and the call signals the absence with `None`.
    pub fn pop_front(&mut self) -> (r: Option<T>)
        requires
            old(self).wf(),
        ensures
            final(self).wf(),
            old(self)@.len() == 0 ==> r is None && final(self)@ == old(self)@,
            old(self)@.len() > 0 ==> r == Some(old(self)@[0]) && final(self)@ == old(
                self,
            )@.drop_first(),
    {
        let ghost ord0 = old(self).order@;
        match self.head {
            None => None,
            Some(h) => {
                proof {
                    assert(old(self).link_ok(0));
                }
                let nxt = match &self.nodes[h] {
                    Some(n) => n.next,
                    None => None,
                };
                match nxt {
                    Some(nx) => {
                        proof {
                            assert(old(self).link_ok(1));
                            assert(ord0[0] != ord0[1]);
                        }
                        self.set_prev(nx, None);
                        self.head = Some(nx);
                    },
                    None => {
                        self.head = None;
                        self.tail = None;
                    },
                }
                let slot = &mut self.nodes[h];
                let taken = slot.take();
                self.free.push(h);
                proof {
                    self.order@ = self.order@.drop_first();
                    let ord1 = self.order@;
                    assert forall|k: int| 0 <= k < ord1.len() implies #[trigger] self.link_ok(
                        k,
                    ) by {
                        assert(old(self).link_ok(k + 1));
                        assert(ord0[0] != ord0[k + 1]);
                        if k > 0 {
                            assert(ord0[1] != ord0[k + 1]);
                        }
                    };
                    if ord1.len() > 0 {
                        assert(old(self).link_ok(ord0.len() - 1));
                    }
                    assert forall|k: int|
                        0 <= k < self.free@.len() implies #[trigger] self.free_ok(k) by {
                        if k < old(self).free@.len() {
                            assert(old(self).free_ok(k));
                        }
                    };
                    assert forall|j: int, k: int|
                        0 <= j < k < self.free@.len() implies self.free@[j] != self.free@[k] by {
                        if k < old(self).free@.len() {
                            assert(old(self).free@[j] != old(self).free@[k]);
                        } else {
                            assert(old(self).free_ok(j));
                        }
                    };
                    assert(self@ =~= old(self)@.drop_first()) by {
                        assert forall|k: int|
                            0 <= k < ord1.len() implies self@[k] == old(self)@.drop_first()[k] by {
                            assert(old(self).link_ok(k + 1));
                            assert(ord0[0] != ord0[k + 1]);
                            if k > 0 {
                                assert(ord0[1] != ord0[k + 1]);
                            }
                        };
                    };
                }
                match taken {
                    Some(n) => Some(n.elem),
                    None => None,
                }
            },
        }
    }

    /// Remove and return the last element, in constant time. On an empty
    /// list nothing changes and the call signals the absence with `None`.
    pub fn pop_back(&mut self) -> (r: Option<T>)
        requires
            old(self).wf(),
        ensures
            final(self).wf(),
            old(self)@.len() == 0 ==> r is None && final(self)@ == old(self)@,
            old(self)@.len() > 0 ==> r == Some(old(self)@.last()) && final(self)@ == old(
                self,
            )@.drop_last(),
    {
        let ghost ord0 = old(self).order@;
        let ghost last = ord0.len() - 1;
        match self.tail {
            None => None,
            Some(t) => {
                proof {
                    assert(old(self).link_ok(last));
                }
                let prv = match &self.nodes[t] {
                    Some(n) => n.prev,
                    None => None,
                };
                match prv {
                    Some(pv) => {
                        proof {
                            assert(old(self).link_ok(last - 1));
                            assert(ord0[last - 1] != ord0[last]);
                        }
                        self.set_next(pv, None);
                        self.tail = Some(pv);
                    },
                    None => {
                        self.head = None;
                        self.tail = None;
                    },
                }
                let slot = &mut self.nodes[t];
                let taken = slot.take();
                self.free.push(t);
                proof {
                    self.order@ = self.order@.drop_last();
                    let ord1 = self.order@;
                    assert forall|k: int| 0 <= k < ord1.len() implies #[trigger] self.link_ok(
                        k,
                    ) by {
                        assert(old(self).link_ok(k));
                        assert(ord0[k] != ord0[last]);
                        if k < last - 1 {
                            assert(ord0[k] != ord0[last - 1]);
                        }
                    };
                    if ord1.len() > 0 {
                        assert(old(self).link_ok(0));
                    }
                    assert forall|k: int|
                        0 <= k < self.free@.len() implies #[trigger] self.free_ok(k) by {
                        if k < old(self).free@.len() {
                            assert(old(self).free_ok(k));
                        }
                    };
                    assert forall|j: int, k: int|
                        0 <= j < k < self.free@.len() implies self.free@[j] != self.free@[k] by {
                        if k < old(self).free@.len() {
                            assert(old(self).free@[j] != old(self).free@[k]);
                        } else {
                            assert(old(self).free_ok(j));
                        }
                    };
                    assert(self@ =~= old(self)@.drop_last()) by {
                        assert forall|k: int|
                            0 <= k < ord1.len() implies self@[k] == old(self)@.drop_last()[k] by {
                            assert(old(self).link_ok(k));
                            assert(ord0[k] != ord0[last]);
                            if k < last - 1 {
                                assert(ord0[k] != ord0[last - 1]);
                            }
                        };
                    };
                }
                match taken {
                    Some(n) => Some(n.elem),
                    None => None,
                }
            },
        }
    }

    /// Borrow the first element read-only; `None` exactly on an empty list.
    pub fn peek_front(&self) -> (r: Option<&T>)
        requires
            self.wf(),
        ensures
            match r {
                None => self@.len() == 0,
                Some(e) => self@.len() > 0 && *e == self@[0],
            },
    {
        proof {
            if self.order@.len() > 0 {
                assert(self.link_ok(0));
            }
        }
        match self.head {
            None => None,
            Some(h) => match &self.nodes[h] {
                Some(n) => Some(&n.elem),
                None => None,
            },
        }
    }

    /// Borrow the last element read-only; `None` exactly on an empty list.
    pub fn peek_back(&self) -> (r: Option<&T>)
        requires
            self.wf(),
        ensures
            match r {
                None => self@.len() == 0,
                Some(e) => self@.len() > 0 && *e == self@.last(),
            },
    {
        proof {
            if self.order@.len() > 0 {
                assert(self.link_ok(self.order@.len() - 1));
            }
        }
        match self.tail {
            None => None,
            Some(t) => match &self.nodes[t] {
                Some(n) => Some(&n.elem),
                None => None,
            },
        }
    }

    /// Borrow the first element for writing; `None` exactly on an empty
    /// list. While the borrow lives, the borrow rules keep every other
    /// access out; whatever is written through it becomes the new first
    /// element, and nothing else about the list changes.
    pub fn peek_front_mut(&mut self) -> (r: Option<&mut T>)
        requires
            old(self).wf(),
        ensures
            final(self).wf(),
            old(self)@.len() == 0 ==> r is None && final(self)@ == old(self)@,
            old(self)@.len() > 0 ==> r is Some && *r.unwrap() == old(self)@[0] && final(self)@
                == old(self)@.update(0, *final(r.unwrap())),
    {
        match self.head {
            None => None,
            Some(h) => Some(self.elem_mut(h, Ghost(0))),
        }
    }

    /// Borrow the last element for writing; `None` exactly on an empty
    /// list. While the borrow lives, the borrow rules keep every other
    /// access out; whatever is written through it becomes the new last
    /// element, and nothing else about the list changes.
    pub fn peek_back_mut(&mut self) -> (r: Option<&mut T>)
        requires
            old(self).wf(),
        ensures
            final(self).wf(),
            old(self)@.len() == 0 ==> r is None && final(self)@ == old(self)@,
            old(self)@.len() > 0 ==> r is Some && *r.unwrap() == old(self)@.last()
                && final(self)@ == old(self)@.update(old(self)@.len() - 1, *final(r.unwrap())),
    {
        match self.tail {
            None => None,
            Some(t) => Some(self.elem_mut(t, Ghost(old(self).order@.len() - 1))),
        }
    }

    /// Pushing at the front and then popping the front are inverses when
    /// nothing intervenes: `seq![x] + pre` is the view `push_front(x)`
    /// leaves behind a list viewing `pre`; popping it returns `x` and
    /// restores `pre`.
    pub proof fn lemma_push_front_pop_front(pre: Seq<T>, x: T)
        ensures
            (seq![x] + pre).len() > 0,
            (seq![x] + pre)[0] == x,
            (seq![x] + pre).drop_first() == pre,
    {
        assert((seq![x] + pre).drop_first() =~= pre);
    }

    /// Pushing at the back and then popping the back are inverses when
    /// nothing intervenes: `pre.push(x)` is the view `push_back(x)` leaves
    /// behind a list viewing `pre`; popping it returns `x` and restores
    /// `pre`.
    pub proof fn lemma_push_back_pop_back(pre: Seq<T>, x: T)
        ensures
            pre.push(x).len() > 0,
            pre.push(x).last() == x,
            pre.push(x).drop_last() == pre,
    {
        assert(pre.push(x).drop_last() =~= pre);
    }

    /// Consecutive pushes at the front drain from the front in
    /// last-pushed-first order: after `push_front(x)` then `push_front(y)`,
    /// the first pop returns `y`, the next returns `x`, and the prior
    /// elements follow unchanged.
    pub proof fn lemma_front_pushes_pop_lifo(pre: Seq<T>, x: T, y: T)
        ensures
            (seq![y] + (seq![x] + pre))[0] == y,
            (seq![y] + (seq![x] + pre)).drop_first() == seq![x] + pre,
            (seq![x] + pre)[0] == x,
            (seq![x] + pre).drop_first() == pre,
    {
        assert((seq![y] + (seq![x] + pre)).drop_first() =~= seq![x] + pre);
        assert((seq![x] + pre).drop_first() =~= pre);
    }

    /// Consecutive pushes at the back drain from the back in
    /// last-pushed-first order: after `push_back(x)` then `push_back(y)`,
    /// the first pop returns `y`, the next returns `x`, and the prior
    /// elements precede unchanged.
    pub proof fn lemma_back_pushes_pop_lifo(pre: Seq<T>, x: T, y: T)
        ensures
            pre.push(x).push(y).last() == y,
            pre.push(x).push(y).drop_last() == pre.push(x),
            pre.push(x).last() == x,
            pre.push(x).drop_last() == pre,
    {
        assert(pre.push(x).push(y).drop_last() =~= pre.push(x));
        assert(pre.push(x).drop_last() =~= pre);
    }

    /// After a push, the peek at the same end sees exactly the element just
    /// pushed: it is the first element after `push_front(x)` and the last
    /// after `push_back(x)`.
    pub proof fn lemma_push_then_peek(pre: Seq<T>, x: T)
        ensures
            (seq![x] + pre).len() > 0,
            (seq![x] + pre)[0] == x,
            pre.push(x).len() > 0,
            pre.push(x).last() == x,
    {
    }

    /// What is written through a write-borrow of an end is what the next
    /// peek at that end sees: updating an end position of the view makes
    /// the written value that end's element, and moves no other element.
    pub proof fn lemma_write_then_peek(pre: Seq<T>, v: T)
        requires
            pre.len() > 0,
        ensures
            pre.update(0, v).len() == pre.len(),
            pre.update(0, v)[0] == v,
            pre.update(pre.len() - 1, v).len() == pre.len(),
            pre.update(pre.len() - 1, v).last() == v,
            forall|k: int| 0 < k < pre.len() ==> pre.update(0, v)[k] == pre[k],
            forall|k: int| 0 <= k < pre.len() - 1 ==> pre.update(pre.len() - 1, v)[k] == pre[k],
    {
    }
}

} // verus!

