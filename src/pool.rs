//! The pool itself: an arena of nodes threaded into a free list.
use vstd::prelude::*;

use crate::model::PoolModel;

verus! {

/// The state of the free list's head.
///
/// `Locked` is the sentinel published while a node is being detached; it is
/// a state of its own and never names a node.
#[derive(Clone, Copy, Debug, PartialEq, Eq, Structural)]
pub enum Head {
    Empty,
    Locked,
    Node(usize),
}

/// The head, or link, that points at the node at position `i` of `free`,
/// or `Empty` past its end.
pub open spec fn link_at(free: Seq<nat>, i: int) -> Head {
    if 0 <= i < free.len() {
        Head::Node(free[i] as usize)
    } else {
        Head::Empty
    }
}

/// A pool of values of type `T`, built on demand by `create`.
///
/// Operations take the pool by `&mut`, so each runs with the list to itself:
/// the head is locked only inside an acquisition, and no operation ever
/// meets it locked. Threads that share a pool hold it behind a lock.
pub struct Pool<T, F> {
    create: F,
    head: Head,
    /// The link of each node; meaningful while the node is free.
    next: Vec<Head>,
    /// The value of each node while it is free.
    slots: Vec<Option<T>>,
    /// Whether each node is out in a guard.
    in_use: Vec<bool>,
    /// The free list, read from the head.
    free: Ghost<Seq<nat>>,
}

/// Exclusive use of one pooled value, taken from a pool by [`Pool::get`] and
/// handed back by [`Pool::put`].
pub struct PoolGuard<T> {
    node: usize,
    value: T,
}

impl<T> PoolGuard<T> {
    /// The node this guard holds.
    pub closed spec fn node(&self) -> nat {
        self.node as nat
    }

    /// The value this guard carries.
    pub closed spec fn value(&self) -> T {
        self.value
    }

    /// The index of the node this guard holds.
    pub fn node_id(&self) -> (r: usize)
        ensures
            r as nat == self.node(),
    {
        self.node
    }
}

impl<T> core::ops::Deref for PoolGuard<T> {
    type Target = T;

    fn deref(&self) -> (r: &T)
        ensures
            *r == self.value(),
    {
        &self.value
    }
}

impl<T> core::ops::DerefMut for PoolGuard<T> {
    fn deref_mut(&mut self) -> (r: &mut T)
        ensures
            *r == old(self).value(),
            final(self).node() == old(self).node(),
            final(self).value() == *final(r),
    {
        &mut self.value
    }
}

impl<T, F: Fn() -> T> Pool<T, F> {
    /// The construction function.
    pub closed spec fn creator(&self) -> F {
        self.create
    }

    /// The abstract state: the free list, the held nodes, how many nodes
    /// were built, and the value kept by each free node.
    pub closed spec fn view(&self) -> PoolModel<T> {
        PoolModel {
            free: self.free@,
            held: Set::new(|k: nat| k < self.in_use@.len() && self.in_use@[k as int]),
            count: self.slots@.len(),
            stored: Map::new(|k: nat| self.free@.contains(k), |k: nat| self.slots@[k as int]->Some_0),
        }
    }

    /// The arena and the free list agree with each other.
    pub closed spec fn wf(&self) -> bool {
        &&& self.next@.len() == self.slots@.len()
        &&& self.in_use@.len() == self.slots@.len()
        &&& self.head == link_at(self.free@, 0)
        &&& forall|i: int|
            0 <= i < self.free@.len() ==> #[trigger] self.next@[self.free@[i] as int] == link_at(
                self.free@,
                i + 1,
            )
        &&& forall|k: int|
            0 <= k < self.slots@.len() ==> (#[trigger] self.slots@[k] is Some <==> !self.in_use@[k])
        &&& self.view().wf()
        &&& self.create.requires(())
    }

    /// An empty pool that builds its values with `create`.
    pub fn new(create: F) -> (p: Pool<T, F>)
        requires
            create.requires(()),
        ensures
            p.wf(),
            p.creator() == create,
            p@.free.len() == 0,
            p@.held.is_empty(),
            p@.count == 0,
    {
        let p = Pool {
            create,
            head: Head::Empty,
            next: Vec::new(),
            slots: Vec::new(),
            in_use: Vec::new(),
            free: Ghost(Seq::empty()),
        };
        assert(p@.held =~= Set::empty());
        assert(p@.stored.dom() =~= p@.free.to_set());
        p
    }

    /// Takes a value out of the pool: the node at the head of the free
    /// list, or a node built with the construction function when the list
    /// is empty.
    pub fn get(&mut self) -> (g: PoolGuard<T>)
        requires
            old(self).wf(),
        ensures
            final(self).wf(),
            final(self).creator() == old(self).creator(),
            final(self)@ == old(self)@.after_acquire(),
            g.node() == old(self)@.acquired_node(),
            old(self)@.free.len() > 0 ==> g.value() == old(self)@.reused_value(),
            old(self)@.free.len() == 0 ==> old(self).creator().ensures((), g.value()),
    {
        proof {
            crate::model::lemma_acquire_unique(self@);
        }
        let ghost pre = self@;
        let count = self.slots.len();
        let observed = self.head;
        match observed {
            Head::Node(n) => {
                assert(self.free@[0] == n as nat);
                // Detach the head node: lock the list, read the node's link
                // while nobody else can move the head, then unlock it by
                // publishing that link as the new head.
                self.head = Head::Locked;
                let next = self.next[n];
                self.head = next;
                let value = self.slots[n].take().unwrap();
                self.in_use.set(n, true);
                self.free = Ghost(self.free@.drop_first());
                assert forall|i: int| 0 <= i < self.free@.len() implies #[trigger] self.next@[
                    self.free@[i] as int
                ] == link_at(self.free@, i + 1) by {
                    assert(self.free@[i] == pre.free[i + 1]);
                }
                assert(self@.held =~= pre.held.insert(n as nat));
                assert(self@.stored =~= pre.stored.remove(n as nat));
                PoolGuard { node: n, value }
            },
            _ => {
                // The list is empty: `wf` rules out a locked head between
                // operations. Build a fresh node; the free list is untouched.
                let value = (self.create)();
                let n = count;
                self.next.push(Head::Empty);
                self.slots.push(None);
                self.in_use.push(true);
                assert(self@.held =~= pre.held.insert(n as nat));
                assert(self@.stored =~= pre.stored);
                PoolGuard { node: n, value }
            },
        }
    }

    /// Hands a guard's value back: its node becomes the new head of the
    /// free list.
    pub fn put(&mut self, g: PoolGuard<T>)
        requires
            old(self).wf(),
            old(self)@.held.contains(g.node()),
        ensures
            final(self).wf(),
            final(self).creator() == old(self).creator(),
            final(self)@ == old(self)@.after_release(g.node(), g.value()),
    {
        proof {
            crate::model::lemma_release_keeps_wf(self@, g.node(), g.value());
        }
        let ghost pre = self@;
        let PoolGuard { node, value } = g;
        let observed = self.head;
        // Link the node to the head we saw, then publish it as the head.
        self.next.set(node, observed);
        self.slots.set(node, Some(value));
        self.in_use.set(node, false);
        self.head = Head::Node(node);
        self.free = Ghost(seq![node as nat].add(self.free@));
        assert forall|i: int| 0 <= i < self.free@.len() implies #[trigger] self.next@[
            self.free@[i] as int
        ] == link_at(self.free@, i + 1) by {
            if i > 0 {
                assert(self.free@[i] == pre.free[i - 1]);
                assert(pre.free[i - 1] != node);
            }
        }
        assert(self@.held =~= pre.held.remove(node as nat));
        assert(self@.stored =~= pre.stored.insert(node as nat, value));
    }

    /// How many nodes the pool has built.
    pub fn node_count(&self) -> (r: usize)
        requires
            self.wf(),
        ensures
            r == self@.count,
    {
        self.slots.len()
    }

    /// Whether `g` holds a node that this pool has out in a guard, so that
    /// [`Pool::put`] can take it.
    pub fn holds(&self, g: &PoolGuard<T>) -> (r: bool)
        requires
            self.wf(),
        ensures
            r == self@.held.contains(g.node()),
    {
        g.node < self.in_use.len() && self.in_use[g.node]
    }

    /// The length of the free list, counted by walking it from the head.
    pub fn free_len(&self) -> (r: usize)
        requires
            self.wf(),
        ensures
            r == self@.free.len(),
    {
        proof {
            crate::model::lemma_teardown_frees_all(self@);
        }
        let len = self.slots.len();
        let mut cur = self.head;
        let mut n: usize = 0;
        while cur != Head::Empty
            invariant
                self.wf(),
                n <= self.free@.len(),
                self.free@.len() <= len,
                self.slots@.len() == len,
                cur == link_at(self.free@, n as int),
            decreases self.free@.len() - n,
        {
            match cur {
                Head::Node(k) => {
                    assert(self.free@[n as int] < self.slots@.len());
                    cur = self.next[k];
                    n = n + 1;
                },
                _ => {
                    assert(false);
                },
            }
        }
        n
    }

    /// Tears the pool down, walking the free list from its head and
    /// dropping the value of each node on it; returns how many it dropped.
    pub fn destroy(self) -> (n: usize)
        requires
            self.wf(),
        ensures
            n == self@.free.len(),
    {
        proof {
            crate::model::lemma_teardown_frees_all(self@);
        }
        let ghost free = self.free@;
        let Pool { create: _, head, next, slots, in_use: _, free: _ } = self;
        let mut slots = slots;
        let mut cur = head;
        let mut n: usize = 0;
        let len = slots.len();
        while cur != Head::Empty
            invariant
                n <= free.len(),
                free.len() <= slots@.len(),
                slots@.len() == len,
                slots@.len() == next@.len(),
                cur == link_at(free, n as int),
                forall|i: int| 0 <= i < free.len() ==> #[trigger] next@[free[i] as int] == link_at(free, i + 1),
                forall|i: int| 0 <= i < free.len() ==> #[trigger] free[i] < slots@.len(),
            decreases free.len() - n,
        {
            match cur {
                Head::Node(k) => {
                    assert(free[n as int] < slots@.len());
                    // Overwriting the slot drops the node's value.
                    slots.set(k, None);
                    cur = next[k];
                    n = n + 1;
                },
                _ => {
                    assert(false);
                },
            }
        }
        n
    }
}

} // verus!
