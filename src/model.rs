//! The abstract state of a pool, and the laws its operations obey.
use vstd::prelude::*;

verus! {

/// What a pool holds, seen mathematically.
///
/// Nodes are numbered `0 .. count` in the order they were built. `free` is
/// the free list read from its head; `held` are the nodes out in guards;
/// `stored` maps each free node to the value it keeps.
pub struct PoolModel<T> {
    pub free: Seq<nat>,
    pub held: Set<nat>,
    pub count: nat,
    pub stored: Map<nat, T>,
}

impl<T> PoolModel<T> {
    /// Every node is on the free list exactly once or held, never both and
    /// never neither; only free nodes keep a value in the pool.
    pub open spec fn wf(self) -> bool {
        &&& self.free.no_duplicates()
        &&& forall|i: int| 0 <= i < self.free.len() ==> #[trigger] self.free[i] < self.count
        &&& forall|k: nat| #[trigger] self.held.contains(k) ==> k < self.count
        &&& forall|k: nat| k < self.count ==> (#[trigger] self.held.contains(k) <==> !self.free.contains(k))
        &&& self.stored.dom() == self.free.to_set()
    }

    /// The node that the next acquisition hands out.
    pub open spec fn acquired_node(self) -> nat {
        if self.free.len() > 0 {
            self.free[0]
        } else {
            self.count
        }
    }

    /// The value a guard carries when the next acquisition reuses a node.
    pub open spec fn reused_value(self) -> T
        recommends
            self.free.len() > 0,
    {
        self.stored[self.free[0]]
    }

    /// The pool after one acquisition: the head of the free list is taken
    /// out, or a new node is built when the list is empty.
    pub open spec fn after_acquire(self) -> PoolModel<T> {
        if self.free.len() > 0 {
            PoolModel {
                free: self.free.drop_first(),
                held: self.held.insert(self.free[0]),
                count: self.count,
                stored: self.stored.remove(self.free[0]),
            }
        } else {
            PoolModel {
                free: self.free,
                held: self.held.insert(self.count),
                count: self.count + 1,
                stored: self.stored,
            }
        }
    }

    /// The pool after a guard of `node` that carries `value` is released:
    /// the node becomes the new head of the free list.
    pub open spec fn after_release(self, node: nat, value: T) -> PoolModel<T> {
        PoolModel {
            free: seq![node].add(self.free),
            held: self.held.remove(node),
            count: self.count,
            stored: self.stored.insert(node, value),
        }
    }

    /// The pool after one acquisition and the immediate release of the
    /// acquired node for each value in `values`, in order.
    pub open spec fn cycled(self, values: Seq<T>) -> PoolModel<T>
        decreases values.len(),
    {
        if values.len() == 0 {
            self
        } else {
            self.after_acquire().after_release(self.acquired_node(), values[0]).cycled(
                values.drop_first(),
            )
        }
    }
}

/// One operation on a pool: an acquisition, or the release of a guard of a
/// node that carries a value.
pub enum PoolOp<T> {
    Acquire,
    Release(nat, T),
}

impl<T> PoolModel<T> {
    /// The pool after one operation.
    pub open spec fn step(self, op: PoolOp<T>) -> PoolModel<T> {
        match op {
            PoolOp::Acquire => self.after_acquire(),
            PoolOp::Release(node, value) => self.after_release(node, value),
        }
    }

    /// The pool after a sequence of operations, in order.
    pub open spec fn run(self, ops: Seq<PoolOp<T>>) -> PoolModel<T>
        decreases ops.len(),
    {
        if ops.len() == 0 {
            self
        } else {
            self.step(ops[0]).run(ops.drop_first())
        }
    }

    /// Each release in `ops` hands back a node that is held at that point.
    pub open spec fn allows(self, ops: Seq<PoolOp<T>>) -> bool
        decreases ops.len(),
    {
        ops.len() == 0 || ((ops[0] is Release ==> self.held.contains(ops[0]->Release_0))
            && self.step(ops[0]).allows(ops.drop_first()))
    }
}

/// An acquisition never hands out a node that a guard already holds: the
/// node it returns was not held, is held afterwards, and the pool stays well
/// formed.
pub proof fn lemma_acquire_unique<T>(m: PoolModel<T>)
    requires
        m.wf(),
    ensures
        !m.held.contains(m.acquired_node()),
        m.after_acquire().held.contains(m.acquired_node()),
        m.after_acquire().wf(),
        m.after_acquire().held == m.held.insert(m.acquired_node()),
{
    let a = m.after_acquire();
    if m.free.len() > 0 {
        let n = m.free[0];
        assert(m.free.contains(n));
        assert forall|k: nat| a.free.contains(k) <==> m.free.contains(k) && k != n by {
            if m.free.contains(k) && k != n {
                let j = choose|j: int| 0 <= j < m.free.len() && m.free[j] == k;
                assert(a.free[j - 1] == k);
            }
        }
        assert(a.stored.dom() =~= a.free.to_set());
    } else {
        assert forall|k: nat| !a.free.contains(k) by {}
    }
}

/// Releasing a held node keeps the pool well formed, and the node is free
/// again and no longer held.
pub proof fn lemma_release_keeps_wf<T>(m: PoolModel<T>, node: nat, value: T)
    requires
        m.wf(),
        m.held.contains(node),
    ensures
        m.after_release(node, value).wf(),
        !m.after_release(node, value).held.contains(node),
        m.after_release(node, value).free[0] == node,
{
    let r = m.after_release(node, value);
    assert forall|k: nat| r.free.contains(k) <==> m.free.contains(k) || k == node by {
        if m.free.contains(k) {
            let j = choose|j: int| 0 <= j < m.free.len() && m.free[j] == k;
            assert(r.free[j + 1] == k);
        }
        if k == node {
            assert(r.free[0] == k);
        }
    }
    assert forall|i: int, j: int| 0 <= i < j < r.free.len() implies r.free[i] != r.free[j] by {
        if i == 0 {
            assert(m.free[j - 1] == r.free[j]);
        }
    }
    assert(r.stored.dom() =~= r.free.to_set());
}

/// After any sequence of acquisitions and releases, the pool is well formed
/// and the next acquisition hands out a node that no outstanding guard
/// holds: no two outstanding guards ever share a node.
pub proof fn lemma_runs_keep_guards_unique<T>(m: PoolModel<T>, ops: Seq<PoolOp<T>>)
    requires
        m.wf(),
        m.allows(ops),
    ensures
        m.run(ops).wf(),
        !m.run(ops).held.contains(m.run(ops).acquired_node()),
    decreases ops.len(),
{
    if ops.len() == 0 {
        lemma_acquire_unique(m);
    } else {
        match ops[0] {
            PoolOp::Acquire => lemma_acquire_unique(m),
            PoolOp::Release(node, value) => lemma_release_keeps_wf(m, node, value),
        }
        lemma_runs_keep_guards_unique(m.step(ops[0]), ops.drop_first());
    }
}

/// Acquiring and at once releasing, any number of times, loses no node and
/// duplicates none: the free list ends as it began, or, when it began
/// empty, holds the one node built by the first acquisition.
pub proof fn lemma_cycles_keep_free_list<T>(m: PoolModel<T>, values: Seq<T>)
    requires
        m.wf(),
        values.len() > 0,
    ensures
        m.cycled(values).wf(),
        m.cycled(values).held == m.held,
        m.free.len() > 0 ==> m.cycled(values).free == m.free,
        m.free.len() > 0 ==> m.cycled(values).count == m.count,
        m.free.len() == 0 ==> m.cycled(values).free == seq![m.count],
        m.free.len() == 0 ==> m.cycled(values).count == m.count + 1,
    decreases values.len(),
{
    let n = m.acquired_node();
    let a = m.after_acquire();
    let c = a.after_release(n, values[0]);
    lemma_acquire_unique(m);
    lemma_release_keeps_wf(a, n, values[0]);
    assert(c.held =~= m.held);
    if m.free.len() > 0 {
        assert(c.free =~= m.free);
    } else {
        assert(c.free =~= seq![m.count]);
    }
    assert(m.cycled(values) == c.cycled(values.drop_first()));
    if values.len() > 1 {
        lemma_cycles_keep_free_list(c, values.drop_first());
    } else {
        assert(c.cycled(values.drop_first()) == c);
    }
}

/// An acquisition builds a new node exactly when the free list is empty:
/// the number of nodes grows by one then, and by none otherwise.
pub proof fn lemma_lazy_growth<T>(m: PoolModel<T>)
    requires
        m.wf(),
    ensures
        m.free.len() == 0 ==> m.after_acquire().count == m.count + 1,
        m.free.len() > 0 ==> m.after_acquire().count == m.count,
        m.free.len() > 0 ==> m.acquired_node() < m.count,
        m.free.len() == 0 ==> m.acquired_node() == m.count,
{
}

/// Releasing a guard and acquiring again hands out the same node with the
/// value the guard carried, and builds nothing.
pub proof fn lemma_reuse<T>(m: PoolModel<T>, node: nat, value: T)
    requires
        m.wf(),
        m.held.contains(node),
    ensures
        m.after_release(node, value).free.len() > 0,
        m.after_release(node, value).acquired_node() == node,
        m.after_release(node, value).reused_value() == value,
        m.after_release(node, value).after_acquire().count == m.count,
{
}

/// The free list never holds more nodes than were built, and when no guard
/// is out it holds every one of them: tearing down a pool with no
/// outstanding guard releases exactly the `count` nodes it built.
pub proof fn lemma_teardown_frees_all<T>(m: PoolModel<T>)
    requires
        m.wf(),
    ensures
        m.free.len() <= m.count,
        m.held.is_empty() ==> m.free.len() == m.count,
{
    broadcast use vstd::seq_lib::seq_to_set_is_finite;

    let all = Seq::new(m.count, |i: int| i as nat);
    assert(all.no_duplicates());
    assert forall|k: nat| #[trigger] all.to_set().contains(k) <==> k < m.count by {
        if k < m.count {
            assert(all[k as int] == k);
        }
    }
    assert forall|k: nat| m.free.to_set().contains(k) implies all.to_set().contains(k) by {
        let j = choose|j: int| 0 <= j < m.free.len() && m.free[j] == k;
    }
    m.free.unique_seq_to_set();
    all.unique_seq_to_set();
    vstd::set_lib::lemma_len_subset(m.free.to_set(), all.to_set());
    if m.held.is_empty() {
        assert forall|k: nat| all.to_set().contains(k) implies m.free.to_set().contains(k) by {
            assert(!m.held.contains(k));
        }
        assert(all.to_set() =~= m.free.to_set());
    }
}

} // verus!
