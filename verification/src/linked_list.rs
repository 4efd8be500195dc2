//! A doubly-linked sequence container.
//!
//! Nodes live in an arena: a growable table of slots addressed by stable
//! indices, with a free list for reclaimed slots. The forward and backward
//! links of a node are slot indices rather than pointers, which keeps every
//! link update O(1) while staying in safe code. A ghost sequence records the
//! slot indices of the live nodes in head-to-tail order; the well-formedness
//! invariant ties the links, the anchors and the length to that sequence.

use vstd::prelude::*;

verus! {

/// One arena slot: the element it owns (`None` when the slot is free) and
/// the slot indices of the two neighbouring nodes.
struct Node<T> {
    element: Option<T>,
    next: Option<usize>,
    prev: Option<usize>,
}

impl<T> Node<T> {
    fn new(element: T) -> (node: Node<T>)
        ensures
            node.element == Some(element),
            node.next is None,
            node.prev is None,
    {
        Node { element: Some(element), next: None, prev: None }
    }
}

/// The backward link a well-formed node at position `k` of the chain holds.
spec fn prev_link(ord: Seq<usize>, k: int) -> Option<usize> {
    if k == 0 {
        None
    } else {
        Some(ord[k - 1])
    }
}

/// The forward link a well-formed node at position `k` of the chain holds.
spec fn next_link(ord: Seq<usize>, k: int) -> Option<usize> {
    if k == ord.len() - 1 {
        None
    } else {
        Some(ord[k + 1])
    }
}

/// The anchor for the first position of the chain, if any.
spec fn head_link(ord: Seq<usize>) -> Option<usize> {
    if ord.len() == 0 {
        None
    } else {
        Some(ord[0])
    }
}

/// The anchor for the last position of the chain, if any.
spec fn tail_link(ord: Seq<usize>) -> Option<usize> {
    if ord.len() == 0 {
        None
    } else {
        Some(ord[ord.len() - 1])
    }
}

/// The error conditions the index-based operations can report instead of
/// aborting: the requested index lies beyond the current length.
#[derive(Clone, Copy, Debug, PartialEq, Eq, Structural)]
pub enum ListError {
    IndexOutOfBounds,
}

/// A sequence container with O(1) insertion and removal at both ends and
/// O(index) insertion and removal at an arbitrary position.
pub struct LinkedList<T> {
    nodes: Vec<Node<T>>,
    free: Vec<usize>,
    head: Option<usize>,
    tail: Option<usize>,
    length: usize,
    order: Ghost<Seq<usize>>,
}

impl<T> View for LinkedList<T> {
    type V = Seq<T>;

    closed spec fn view(&self) -> Seq<T> {
        Seq::new(self.order@.len(), |k: int| self.nodes@[self.order@[k] as int].element->0)
    }
}

impl<T> LinkedList<T> {
    /// The slot of the node at position `k` of the chain.
    spec fn node_at(&self, k: int) -> Node<T> {
        self.nodes@[self.order@[k] as int]
    }

    /// Well-formedness: the live slots hold elements and are linked to each
    /// other exactly as the ghost order says, so following `next` from the
    /// head visits exactly `length` nodes, and following `prev` from the
    /// tail visits the same nodes in reverse order; the free slots are the
    /// remaining slots of the table and hold no element.
    pub closed spec fn wf(&self) -> bool {
        let ord = self.order@;
        let n = self.nodes@.len();
        &&& self.length == ord.len()
        &&& ord.len() + self.free@.len() == n
        &&& forall|k: int| 0 <= k < ord.len() ==> (#[trigger] ord[k]) < n
        &&& forall|j: int, k: int| 0 <= j < k < ord.len() ==> ord[j] != ord[k]
        &&& forall|k: int|
            0 <= k < ord.len() ==> (#[trigger] self.node_at(k)).element is Some
        &&& forall|k: int| 0 <= k < ord.len() ==> (#[trigger] self.node_at(k)).prev == prev_link(ord, k)
        &&& forall|k: int| 0 <= k < ord.len() ==> (#[trigger] self.node_at(k)).next == next_link(ord, k)
        &&& self.head == head_link(ord)
        &&& self.tail == tail_link(ord)
        &&& forall|j: int| 0 <= j < self.free@.len() ==> (#[trigger] self.free@[j]) < n
        &&& forall|i: int, j: int|
            0 <= i < j < self.free@.len() ==> self.free@[i] != self.free@[j]
        &&& forall|i: int, j: int|
            0 <= i < ord.len() && 0 <= j < self.free@.len() ==> ord[i] != self.free@[j]
        &&& forall|j: int|
            0 <= j < self.free@.len() ==> self.nodes@[#[trigger] self.free@[j] as int].element is None
    }

    /// Returns an empty list.
    pub fn new() -> (list: LinkedList<T>)
        ensures
            list.wf(),
            list@ == Seq::<T>::empty(),
    {
        let list = LinkedList {
            nodes: Vec::new(),
            free: Vec::new(),
            head: None,
            tail: None,
            length: 0,
            order: Ghost(Seq::empty()),
        };
        proof {
            assert(list@ =~= Seq::<T>::empty());
        }
        list
    }

    /// Returns the number of elements currently stored.
    pub fn len(&self) -> (n: usize)
        requires
            self.wf(),
        ensures
            n == self@.len(),
    {
        self.length
    }

    /// Returns true exactly when the list holds no element.
    pub fn is_empty(&self) -> (empty: bool)
        requires
            self.wf(),
        ensures
            empty == (self@.len() == 0),
    {
        self.head.is_none()
    }

    /// Claims a slot for a fresh unlinked node holding `element`, reusing a
    /// free slot when one exists and growing the table otherwise. The chain
    /// itself is untouched; the claimed slot sits outside both the chain and
    /// the free list until the caller links it in.
    fn take_slot(&mut self, element: T) -> (idx: usize)
        requires
            old(self).wf(),
        ensures
            final(self).head == old(self).head,
            final(self).tail == old(self).tail,
            final(self).length == old(self).length,
            final(self).order@ == old(self).order@,
            idx < final(self).nodes@.len(),
            old(self).nodes@.len() <= final(self).nodes@.len(),
            final(self).nodes@[idx as int].element == Some(element),
            final(self).nodes@[idx as int].prev is None,
            final(self).nodes@[idx as int].next is None,
            forall|j: int|
                0 <= j < final(self).nodes@.len() && j != idx
                    ==> final(self).nodes@[j] == old(self).nodes@[j],
            forall|k: int| 0 <= k < old(self).order@.len() ==> old(self).order@[k] != idx,
            final(self).order@.len() + final(self).free@.len() + 1 == final(self).nodes@.len(),
            forall|j: int|
                0 <= j < final(self).free@.len()
                    ==> (#[trigger] final(self).free@[j]) < final(self).nodes@.len(),
            forall|i: int, j: int|
                0 <= i < j < final(self).free@.len()
                    ==> final(self).free@[i] != final(self).free@[j],
            forall|i: int, j: int|
                0 <= i < final(self).order@.len() && 0 <= j < final(self).free@.len()
                    ==> final(self).order@[i] != final(self).free@[j],
            forall|j: int|
                0 <= j < final(self).free@.len()
                    ==> final(self).nodes@[#[trigger] final(self).free@[j] as int].element is None,
            forall|j: int| 0 <= j < final(self).free@.len() ==> final(self).free@[j] != idx,
    {
        match self.free.pop() {
            Some(f) => {
                self.nodes[f] = Node::new(element);
                f
            },
            None => {
                let idx = self.nodes.len();
                self.nodes.push(Node::new(element));
                idx
            },
        }
    }

    /// Inserts `element` as the new first element.
    pub fn push_front(&mut self, element: T)
        requires
            old(self).wf(),
        ensures
            final(self).wf(),
            final(self)@ == old(self)@.insert(0, element),
    {
        let idx = self.take_slot(element);
        self.nodes[idx].next = self.head;
        match self.head {
            None => {
                self.tail = Some(idx);
            },
            Some(h) => {
                self.nodes[h].prev = Some(idx);
            },
        }
        self.head = Some(idx);
        proof {
            assert(self.length < self.nodes.len());
        }
        self.length = self.length + 1;
        self.order = Ghost(self.order@.insert(0, idx));
        proof {
            let old_ord = old(self).order@;
            let ord = self.order@;
            assert forall|k: int| 0 <= k < ord.len() implies {
                &&& (#[trigger] self.node_at(k)).element is Some
                &&& self.node_at(k).prev == prev_link(ord, k)
                &&& self.node_at(k).next == next_link(ord, k)
            } by {
                if k > 0 {
                    assert(ord[k] == old_ord[k - 1]);
                    assert(old(self).node_at(k - 1) == old(self).nodes@[old_ord[k - 1] as int]);
                }
            }
            assert(self@ =~= old(self)@.insert(0, element)) by {
                assert forall|k: int| 0 <= k < self@.len() implies self@[k] == old(self)@.insert(
                    0,
                    element,
                )[k] by {
                    if k > 0 {
                        assert(old(self).node_at(k - 1) == old(self).nodes@[old_ord[k - 1] as int]);
                        assert(self.nodes@[ord[k] as int].element == old(self).nodes@[old_ord[k
                            - 1] as int].element);
                    }
                }
            }
        }
    }

    /// Inserts `element` as the new last element.
    pub fn push_back(&mut self, element: T)
        requires
            old(self).wf(),
        ensures
            final(self).wf(),
            final(self)@ == old(self)@.push(element),
    {
        let idx = self.take_slot(element);
        self.nodes[idx].prev = self.tail;
        match self.tail {
            None => {
                self.head = Some(idx);
            },
            Some(t) => {
                self.nodes[t].next = Some(idx);
            },
        }
        self.tail = Some(idx);
        proof {
            assert(self.length < self.nodes.len());
        }
        self.length = self.length + 1;
        self.order = Ghost(self.order@.push(idx));
        proof {
            let old_ord = old(self).order@;
            let ord = self.order@;
            assert forall|k: int| 0 <= k < ord.len() implies {
                &&& (#[trigger] self.node_at(k)).element is Some
                &&& self.node_at(k).prev == prev_link(ord, k)
                &&& self.node_at(k).next == next_link(ord, k)
            } by {
                if k < ord.len() - 1 {
                    assert(ord[k] == old_ord[k]);
                    assert(old(self).node_at(k) == old(self).nodes@[old_ord[k] as int]);
                }
            }
            assert(self@ =~= old(self)@.push(element)) by {
                assert forall|k: int| 0 <= k < self@.len() implies self@[k] == old(self)@.push(
                    element,
                )[k] by {
                    if k < self@.len() - 1 {
                        assert(old(self).node_at(k) == old(self).nodes@[old_ord[k] as int]);
                        assert(self.nodes@[ord[k] as int].element == old(self).nodes@[old_ord[k] as int].element);
                    }
                }
            }
        }
    }

    /// Removes and returns the first element, or `None` when the list is
    /// empty.
    pub fn pop_front(&mut self) -> (r: Option<T>)
        requires
            old(self).wf(),
        ensures
            final(self).wf(),
            old(self)@.len() == 0 ==> r is None && final(self)@ == old(self)@,
            old(self)@.len() > 0 ==> r == Some(old(self)@[0]) && final(self)@ == old(self)@.remove(
                0,
            ),
    {
        match self.head {
            None => None,
            Some(h) => {
                let e = self.nodes[h].element.take();
                let nxt = self.nodes[h].next;
                match nxt {
                    None => {
                        self.head = None;
                        self.tail = None;
                    },
                    Some(h2) => {
                        self.nodes[h2].prev = None;
                        self.head = Some(h2);
                    },
                }
                self.free.push(h);
                self.length = self.length - 1;
                self.order = Ghost(self.order@.remove(0));
                proof {
                    let old_ord = old(self).order@;
                    let ord = self.order@;
                    assert forall|k: int| 0 <= k < ord.len() implies {
                        &&& (#[trigger] self.node_at(k)).element is Some
                        &&& self.node_at(k).prev == prev_link(ord, k)
                        &&& self.node_at(k).next == next_link(ord, k)
                    } by {
                        assert(ord[k] == old_ord[k + 1]);
                        assert(old(self).node_at(k + 1) == old(self).nodes@[old_ord[k + 1] as int]);
                    }
                    assert(self@ =~= old(self)@.remove(0)) by {
                        assert forall|k: int| 0 <= k < self@.len() implies self@[k] == old(
                            self,
                        )@.remove(0)[k] by {
                            assert(old(self).node_at(k + 1) == old(self).nodes@[old_ord[k
                                + 1] as int]);
                            assert(self.nodes@[ord[k] as int].element == old(self).nodes@[old_ord[k
                                + 1] as int].element);
                        }
                    }
                    assert(old(self).node_at(0) == old(self).nodes@[old_ord[0] as int]);
                }
                e
            },
        }
    }

    /// Removes and returns the last element, or `None` when the list is
    /// empty.
    pub fn pop_back(&mut self) -> (r: Option<T>)
        requires
            old(self).wf(),
        ensures
            final(self).wf(),
            old(self)@.len() == 0 ==> r is None && final(self)@ == old(self)@,
            old(self)@.len() > 0 ==> r == Some(old(self)@.last()) && final(self)@ == old(
                self,
            )@.drop_last(),
    {
        match self.tail {
            None => None,
            Some(t) => {
                proof {
                    let ord0 = self.order@;
                    assert(self.node_at(ord0.len() - 1) == self.nodes@[ord0[ord0.len()
                        - 1] as int]);
                    if ord0.len() > 1 {
                        assert(self.node_at(ord0.len() - 2) == self.nodes@[ord0[ord0.len()
                            - 2] as int]);
                    }
                }
                let e = self.nodes[t].element.take();
                let prv = self.nodes[t].prev;
                match prv {
                    None => {
                        self.head = None;
                        self.tail = None;
                    },
                    Some(t2) => {
                        self.nodes[t2].next = None;
                        self.tail = Some(t2);
                    },
                }
                self.free.push(t);
                self.length = self.length - 1;
                self.order = Ghost(self.order@.drop_last());
                proof {
                    let old_ord = old(self).order@;
                    let ord = self.order@;
                    assert forall|k: int| 0 <= k < ord.len() implies {
                        &&& (#[trigger] self.node_at(k)).element is Some
                        &&& self.node_at(k).prev == prev_link(ord, k)
                        &&& self.node_at(k).next == next_link(ord, k)
                    } by {
                        assert(ord[k] == old_ord[k]);
                        assert(old(self).node_at(k) == old(self).nodes@[old_ord[k] as int]);
                    }
                    assert(self@ =~= old(self)@.drop_last()) by {
                        assert forall|k: int| 0 <= k < self@.len() implies self@[k] == old(
                            self,
                        )@.drop_last()[k] by {
                            assert(old(self).node_at(k) == old(self).nodes@[old_ord[k] as int]);
                            assert(self.nodes@[ord[k] as int].element == old(
                                self,
                            ).nodes@[old_ord[k] as int].element);
                        }
                    }
                    assert(old(self).node_at(old_ord.len() - 1) == old(self).nodes@[old_ord[old_ord.len()
                        - 1] as int]);
                }
                e
            },
        }
    }

    /// Walks `index` steps along the `next` links from the head and returns
    /// the slot of the node occupying that position.
    fn node_index(&self, index: usize) -> (idx: usize)
        requires
            self.wf(),
            index < self@.len(),
        ensures
            idx == self.order@[index as int],
    {
        let mut cur: usize = self.head.unwrap();
        let mut k: usize = 0;
        while k < index
            invariant
                self.wf(),
                k <= index,
                index < self.order@.len(),
                cur == self.order@[k as int],
            decreases index - k,
        {
            proof {
                assert(self.node_at(k as int) == self.nodes@[self.order@[k as int] as int]);
            }
            cur = self.nodes[cur].next.unwrap();
            k = k + 1;
        }
        cur
    }

    /// Inserts `element` so that it occupies position `index`, shifting the
    /// elements from that position on one place towards the back. `index`
    /// must not exceed the current length.
    pub fn push_at(&mut self, element: T, index: usize)
        requires
            old(self).wf(),
            index <= old(self)@.len(),
        ensures
            final(self).wf(),
            final(self)@ == old(self)@.insert(index as int, element),
    {
        if index == 0 || self.head.is_none() {
            self.push_front(element);
            proof {
                assert(old(self)@.insert(0, element) =~= old(self)@.insert(index as int, element));
            }
        } else if index == self.length {
            self.push_back(element);
            proof {
                assert(old(self)@.push(element) =~= old(self)@.insert(index as int, element));
            }
        } else {
            let cur = self.node_index(index);
            proof {
                assert(self.node_at(index as int) == self.nodes@[self.order@[index as int] as int]);
                assert(self.node_at(index as int - 1) == self.nodes@[self.order@[index as int
                    - 1] as int]);
            }
            let idx = self.take_slot(element);
            let p = self.nodes[cur].prev.unwrap();
            self.nodes[idx].prev = Some(p);
            self.nodes[idx].next = Some(cur);
            self.nodes[p].next = Some(idx);
            self.nodes[cur].prev = Some(idx);
            proof {
                assert(self.length < self.nodes.len());
            }
            self.length = self.length + 1;
            self.order = Ghost(self.order@.insert(index as int, idx));
            proof {
                let old_ord = old(self).order@;
                let ord = self.order@;
                let i = index as int;
                assert forall|k: int| 0 <= k < ord.len() implies {
                    &&& (#[trigger] self.node_at(k)).element is Some
                    &&& self.node_at(k).prev == prev_link(ord, k)
                    &&& self.node_at(k).next == next_link(ord, k)
                } by {
                    if k < i {
                        assert(ord[k] == old_ord[k]);
                        assert(old(self).node_at(k) == old(self).nodes@[old_ord[k] as int]);
                    } else if k > i {
                        assert(ord[k] == old_ord[k - 1]);
                        assert(old(self).node_at(k - 1) == old(self).nodes@[old_ord[k - 1] as int]);
                    }
                }
                assert(self@ =~= old(self)@.insert(i, element)) by {
                    assert forall|k: int| 0 <= k < self@.len() implies self@[k] == old(
                        self,
                    )@.insert(i, element)[k] by {
                        if k < i {
                            assert(old(self).node_at(k) == old(self).nodes@[old_ord[k] as int]);
                            assert(self.nodes@[ord[k] as int].element == old(
                                self,
                            ).nodes@[old_ord[k] as int].element);
                        } else if k > i {
                            assert(old(self).node_at(k - 1) == old(self).nodes@[old_ord[k
                                - 1] as int]);
                            assert(self.nodes@[ord[k] as int].element == old(self).nodes@[old_ord[k
                                - 1] as int].element);
                        }
                    }
                }
            }
        }
    }

    /// Removes and returns the element at position `index`, shifting the
    /// later elements one place towards the front; `index` equal to the
    /// length takes the last element instead, so the call returns `None`
    /// only on an empty list. `index` must not exceed the current length.
    pub fn pop_at(&mut self, index: usize) -> (r: Option<T>)
        requires
            old(self).wf(),
            index <= old(self)@.len(),
        ensures
            final(self).wf(),
            old(self)@.len() == 0 ==> r is None && final(self)@ == old(self)@,
            index < old(self)@.len() ==> r == Some(old(self)@[index as int]) && final(self)@ == old(
                self,
            )@.remove(index as int),
            old(self)@.len() > 0 && index == old(self)@.len() ==> r == Some(old(self)@.last())
                && final(self)@ == old(self)@.drop_last(),
    {
        if index == 0 || self.head.is_none() {
            let r = self.pop_front();
            proof {
                if old(self)@.len() > 0 {
                    assert(old(self)@.remove(0) =~= old(self)@.remove(index as int));
                }
            }
            r
        } else if index == self.length {
            let r = self.pop_back();
            r
        } else {
            let cur = self.node_index(index);
            proof {
                assert(self.node_at(index as int) == self.nodes@[self.order@[index as int] as int]);
                assert(self.node_at(index as int - 1) == self.nodes@[self.order@[index as int
                    - 1] as int]);
                if index as int + 1 < self.order@.len() {
                    assert(self.node_at(index as int + 1) == self.nodes@[self.order@[index as int
                        + 1] as int]);
                }
            }
            let e = self.nodes[cur].element.take();
            let p = self.nodes[cur].prev.unwrap();
            let nx = self.nodes[cur].next;
            self.nodes[p].next = nx;
            match nx {
                Some(n2) => {
                    self.nodes[n2].prev = Some(p);
                },
                None => {
                    self.tail = Some(p);
                },
            }
            self.free.push(cur);
            self.length = self.length - 1;
            self.order = Ghost(self.order@.remove(index as int));
            proof {
                let old_ord = old(self).order@;
                let ord = self.order@;
                let i = index as int;
                assert forall|k: int| 0 <= k < ord.len() implies {
                    &&& (#[trigger] self.node_at(k)).element is Some
                    &&& self.node_at(k).prev == prev_link(ord, k)
                    &&& self.node_at(k).next == next_link(ord, k)
                } by {
                    if k < i {
                        assert(ord[k] == old_ord[k]);
                        assert(old(self).node_at(k) == old(self).nodes@[old_ord[k] as int]);
                    } else {
                        assert(ord[k] == old_ord[k + 1]);
                        assert(old(self).node_at(k + 1) == old(self).nodes@[old_ord[k + 1] as int]);
                    }
                }
                assert(self@ =~= old(self)@.remove(i)) by {
                    assert forall|k: int| 0 <= k < self@.len() implies self@[k] == old(
                        self,
                    )@.remove(i)[k] by {
                        if k < i {
                            assert(old(self).node_at(k) == old(self).nodes@[old_ord[k] as int]);
                            assert(self.nodes@[ord[k] as int].element == old(
                                self,
                            ).nodes@[old_ord[k] as int].element);
                        } else {
                            assert(old(self).node_at(k + 1) == old(self).nodes@[old_ord[k
                                + 1] as int]);
                            assert(self.nodes@[ord[k] as int].element == old(self).nodes@[old_ord[k
                                + 1] as int].element);
                        }
                    }
                }
            }
            e
        }
    }

    /// Like `push_at`, but reports an out-of-bounds index as a recoverable
    /// error and leaves the list untouched in that case.
    pub fn try_push_at(&mut self, element: T, index: usize) -> (r: Result<(), ListError>)
        requires
            old(self).wf(),
        ensures
            final(self).wf(),
            index <= old(self)@.len() ==> r is Ok && final(self)@ == old(self)@.insert(
                index as int,
                element,
            ),
            index > old(self)@.len() ==> r == Err::<(), ListError>(ListError::IndexOutOfBounds)
                && final(self)@ == old(self)@,
    {
        if index <= self.length {
            self.push_at(element, index);
            Ok(())
        } else {
            Err(ListError::IndexOutOfBounds)
        }
    }

    /// Like `pop_at`, but reports an out-of-bounds index as a recoverable
    /// error and leaves the list untouched in that case.
    pub fn try_pop_at(&mut self, index: usize) -> (r: Result<Option<T>, ListError>)
        requires
            old(self).wf(),
        ensures
            final(self).wf(),
            index > old(self)@.len() ==> r == Err::<Option<T>, ListError>(
                ListError::IndexOutOfBounds,
            ) && final(self)@ == old(self)@,
            old(self)@.len() == 0 && index == 0 ==> r == Ok::<Option<T>, ListError>(None)
                && final(self)@ == old(self)@,
            index < old(self)@.len() ==> r == Ok::<Option<T>, ListError>(
                Some(old(self)@[index as int]),
            ) && final(self)@ == old(self)@.remove(index as int),
            old(self)@.len() > 0 && index == old(self)@.len() ==> r == Ok::<Option<T>, ListError>(
                Some(old(self)@.last()),
            ) && final(self)@ == old(self)@.drop_last(),
    {
        if index <= self.length {
            Ok(self.pop_at(index))
        } else {
            Err(ListError::IndexOutOfBounds)
        }
    }
}

impl<T: Copy> LinkedList<T> {
    /// Returns the elements in head-to-tail order by following the `next`
    /// links from the head: a read-only traversal that changes neither the
    /// links nor the length.
    pub fn to_vec(&self) -> (r: Vec<T>)
        requires
            self.wf(),
        ensures
            r@ == self@,
    {
        let mut r: Vec<T> = Vec::new();
        let mut link = self.head;
        let ghost mut k: int = 0;
        proof {
            assert(r@ =~= self@.subrange(0, 0));
        }
        while link.is_some()
            invariant
                self.wf(),
                0 <= k <= self@.len(),
                r@ == self@.subrange(0, k),
                link == (if k == self@.len() {
                    None::<usize>
                } else {
                    Some(self.order@[k])
                }),
            decreases self@.len() - k,
        {
            let idx = link.unwrap();
            proof {
                assert(self.node_at(k) == self.nodes@[self.order@[k] as int]);
            }
            let element = self.nodes[idx].element.unwrap();
            link = self.nodes[idx].next;
            r.push(element);
            proof {
                assert(r@ =~= self@.subrange(0, k + 1));
                k = k + 1;
            }
        }
        proof {
            assert(self@.subrange(0, self@.len() as int) =~= self@);
        }
        r
    }
}

/// Inserting an element at a valid position and removing at that same
/// position straight after returns the inserted element and restores the
/// sequence of elements that stood before the pair of operations — the round
/// trip `push_at(x, i)` then `pop_at(i)` promises.
pub proof fn lemma_push_at_pop_at_round_trip<T>(s: Seq<T>, x: T, i: int)
    requires
        0 <= i <= s.len(),
    ensures
        s.insert(i, x)[i] == x,
        s.insert(i, x).remove(i) == s,
{
    assert(s.insert(i, x).remove(i) =~= s);
}

/// Elements pushed at the back leave at the front in insertion order: after
/// pushing `a`, `b`, `c` at the back of an empty list, three pops at the
/// front return `a`, `b`, `c` and leave the list empty.
pub proof fn lemma_fifo_round_trip<T>(a: T, b: T, c: T)
    ensures
        ({
            let s = Seq::<T>::empty().push(a).push(b).push(c);
            &&& s[0] == a
            &&& s.remove(0)[0] == b
            &&& s.remove(0).remove(0)[0] == c
            &&& s.remove(0).remove(0).remove(0) == Seq::<T>::empty()
        }),
{
    let s = Seq::<T>::empty().push(a).push(b).push(c);
    assert(s.remove(0) =~= Seq::<T>::empty().push(b).push(c));
    assert(s.remove(0).remove(0) =~= Seq::<T>::empty().push(c));
    assert(s.remove(0).remove(0).remove(0) =~= Seq::<T>::empty());
}

/// Elements pushed at the front leave at the front in reverse insertion
/// order: after pushing `a`, `b`, `c` at the front of an empty list, three
/// pops at the front return `c`, `b`, `a` and leave the list empty.
pub proof fn lemma_lifo_round_trip<T>(a: T, b: T, c: T)
    ensures
        ({
            let s = Seq::<T>::empty().insert(0, a).insert(0, b).insert(0, c);
            &&& s[0] == c
            &&& s.remove(0)[0] == b
            &&& s.remove(0).remove(0)[0] == a
            &&& s.remove(0).remove(0).remove(0) == Seq::<T>::empty()
        }),
{
    let s = Seq::<T>::empty().insert(0, a).insert(0, b).insert(0, c);
    assert(s.remove(0) =~= Seq::<T>::empty().insert(0, a).insert(0, b));
    assert(s.remove(0).remove(0) =~= Seq::<T>::empty().insert(0, a));
    assert(s.remove(0).remove(0).remove(0) =~= Seq::<T>::empty());
}

} // verus!
