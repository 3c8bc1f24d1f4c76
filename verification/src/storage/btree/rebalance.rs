//! Workload analysis for B+Tree rebalancing: a sliding window over the most
//! recent operations decides how eagerly under-full nodes should merge.
//!
//! Ratios are compared in integers: `d / t > 0.6` is `10 d > 6 t`, and
//! `d / t > 0.5` is `2 d > t`.
use vstd::prelude::*;
use std::collections::VecDeque;

verus! {

/// Rebalancing strategy
#[derive(Debug, Clone, Copy, PartialEq, Eq, Structural)]
pub enum RebalanceStrategy {
    /// Standard 50% threshold
    Standard,
    /// Aggressive (60-70% threshold) for delete-heavy workloads
    Aggressive,
    /// Conservative (40-50% threshold) for mixed workloads
    Conservative,
    /// Adaptive - adjusts based on workload
    Adaptive,
}

/// Operation type
#[derive(Debug, Clone, Copy, PartialEq, Eq, Structural)]
pub enum Operation {
    /// An insert
    Insert,
    /// A delete
    Delete,
    /// An update
    Update,
}

/// How many times an operation occurs in a sequence.
pub open spec fn count_op(ops: Seq<Operation>, op: Operation) -> nat
    decreases ops.len(),
{
    if ops.len() == 0 {
        0
    } else {
        count_op(ops.drop_last(), op) + if ops.last() == op { 1nat } else { 0nat }
    }
}

proof fn lemma_count_push(ops: Seq<Operation>, x: Operation, op: Operation)
    ensures
        count_op(ops.push(x), op) == count_op(ops, op) + if x == op { 1nat } else { 0nat },
{
    assert(ops.push(x).drop_last() =~= ops);
}

proof fn lemma_count_drop_first(ops: Seq<Operation>, op: Operation)
    requires
        ops.len() > 0,
    ensures
        count_op(ops, op) == count_op(ops.drop_first(), op) + if ops[0] == op { 1nat } else { 0nat },
    decreases ops.len(),
{
    if ops.len() > 1 {
        lemma_count_drop_first(ops.drop_last(), op);
        assert(ops.drop_last().drop_first() =~= ops.drop_first().drop_last());
    } else {
        assert(ops.drop_first() =~= Seq::<Operation>::empty());
        assert(ops.drop_last() =~= Seq::<Operation>::empty());
    }
}

proof fn lemma_count_bound(ops: Seq<Operation>)
    ensures
        count_op(ops, Operation::Insert) + count_op(ops, Operation::Delete) + count_op(ops, Operation::Update)
            == ops.len(),
    decreases ops.len(),
{
    if ops.len() > 0 {
        lemma_count_bound(ops.drop_last());
    }
}

/// The strategy for a window with these counts: more than 60% deletes is
/// delete-heavy, more than 60% inserts is insert-heavy, and the rest is
/// mixed.
pub open spec fn strategy_for(inserts: nat, deletes: nat, updates: nat) -> RebalanceStrategy {
    let total = inserts + deletes + updates;
    if total == 0 {
        RebalanceStrategy::Standard
    } else if deletes * 10 > total * 6 {
        RebalanceStrategy::Aggressive
    } else if inserts * 10 > total * 6 {
        RebalanceStrategy::Conservative
    } else {
        RebalanceStrategy::Standard
    }
}

/// The window after recording an operation: it is appended, and the oldest
/// leaves once there are more than `max` of them.
pub open spec fn slide(ops: Seq<Operation>, op: Operation, max: nat) -> Seq<Operation> {
    let pushed = ops.push(op);
    if pushed.len() > max { pushed.drop_first() } else { pushed }
}

/// The analyzer's strategy after recording `op`: the strategy is
/// re-evaluated whenever the window's length is a multiple of 100, from the
/// counts of the window without the operation just recorded.
pub open spec fn strategy_after(ops: Seq<Operation>, op: Operation, max: nat, current: RebalanceStrategy) -> RebalanceStrategy {
    let w = slide(ops, op, max);
    if w.len() % 100 == 0 {
        strategy_for(
            (count_op(w, Operation::Insert) - if op == Operation::Insert { 1int } else { 0int }) as nat,
            (count_op(w, Operation::Delete) - if op == Operation::Delete { 1int } else { 0int }) as nat,
            (count_op(w, Operation::Update) - if op == Operation::Update { 1int } else { 0int }) as nat,
        )
    } else {
        current
    }
}

/// Workload analyzer
#[derive(Debug)]
pub struct WorkloadAnalyzer {
    /// Recent operation history (limited window)
    recent_ops: VecDeque<Operation>,
    /// Maximum history size
    max_history: usize,
    /// Insert count in current window
    insert_count: u64,
    /// Delete count in current window
    delete_count: u64,
    /// Update count in current window
    update_count: u64,
    /// Current recommended strategy
    current_strategy: RebalanceStrategy,
}

/// Workload statistics
#[derive(Debug, Clone)]
pub struct WorkloadStats {
    /// Inserts in the window
    pub insert_count: u64,
    /// Deletes in the window
    pub delete_count: u64,
    /// Updates in the window
    pub update_count: u64,
    /// The recommended strategy
    pub strategy: RebalanceStrategy,
}

impl WorkloadAnalyzer {
    /// The operations in the window, oldest first.
    pub closed spec fn window(&self) -> Seq<Operation> {
        self.recent_ops@
    }

    /// The largest number of operations the window holds.
    pub closed spec fn capacity(&self) -> nat {
        self.max_history as nat
    }

    /// The recommended strategy.
    pub closed spec fn strategy(&self) -> RebalanceStrategy {
        self.current_strategy
    }

    /// The analyzer's invariant: the window holds at most its capacity, and
    /// the counters count its operations.
    pub closed spec fn wf(&self) -> bool {
        &&& self.max_history == 1000
        &&& self.recent_ops@.len() <= self.max_history
        &&& self.insert_count == count_op(self.recent_ops@, Operation::Insert)
        &&& self.delete_count == count_op(self.recent_ops@, Operation::Delete)
        &&& self.update_count == count_op(self.recent_ops@, Operation::Update)
    }

    /// A well-formed analyzer's window holds at most 1000 operations, its
    /// capacity, and the three counts add up to the window's length.
    pub proof fn lemma_wf_window(&self)
        requires
            self.wf(),
        ensures
            self.capacity() == 1000,
            self.window().len() <= 1000,
            count_op(self.window(), Operation::Insert) + count_op(self.window(), Operation::Delete)
                + count_op(self.window(), Operation::Update) == self.window().len(),
    {
        lemma_count_bound(self.recent_ops@);
    }

    /// Recording an operation in a well-formed analyzer leaves a window of
    /// the most recent operations, one longer up to 1000; while the window
    /// is not full, the operation's count grows by one and the others stay.
    pub proof fn law_record_window(a0: WorkloadAnalyzer, a1: WorkloadAnalyzer, op: Operation)
        requires
            a0.wf(),
            a1.window() == slide(a0.window(), op, a0.capacity()),
        ensures
            a1.window().len() == if a0.window().len() + 1 <= 1000 { a0.window().len() + 1 } else { 1000 },
            a0.window().len() < 1000 ==> forall|o: Operation| #[trigger] count_op(a1.window(), o)
                == count_op(a0.window(), o) + if o == op { 1nat } else { 0nat },
    {
        a0.lemma_wf_window();
        assert forall|o: Operation| #[trigger] count_op(a0.window().push(op), o)
            == count_op(a0.window(), o) + if o == op { 1nat } else { 0nat } by {
            lemma_count_push(a0.window(), op, o);
        }
    }

    /// Create a new workload analyzer with an empty window of 1000
    pub fn new() -> (a: Self)
        ensures
            a.wf(),
            a.window().len() == 0,
            a.capacity() == 1000,
            a.strategy() == RebalanceStrategy::Standard,
    {
        WorkloadAnalyzer {
            recent_ops: VecDeque::new(),
            max_history: 1000,
            insert_count: 0,
            delete_count: 0,
            update_count: 0,
            current_strategy: RebalanceStrategy::Standard,
        }
    }

    /// Record an insert operation
    pub fn record_insert(&mut self)
        requires
            old(self).wf(),
        ensures
            final(self).wf(),
            final(self).capacity() == old(self).capacity(),
            final(self).window() == slide(old(self).window(), Operation::Insert, old(self).capacity()),
            final(self).strategy() == strategy_after(
                old(self).window(),
                Operation::Insert,
                old(self).capacity(),
                old(self).strategy(),
            ),
    {
        self.record_operation(Operation::Insert);
        self.insert_count = self.insert_count + 1;
    }

    /// Record a delete operation
    pub fn record_delete(&mut self)
        requires
            old(self).wf(),
        ensures
            final(self).wf(),
            final(self).capacity() == old(self).capacity(),
            final(self).window() == slide(old(self).window(), Operation::Delete, old(self).capacity()),
            final(self).strategy() == strategy_after(
                old(self).window(),
                Operation::Delete,
                old(self).capacity(),
                old(self).strategy(),
            ),
    {
        self.record_operation(Operation::Delete);
        self.delete_count = self.delete_count + 1;
    }

    /// Record an update operation
    pub fn record_update(&mut self)
        requires
            old(self).wf(),
        ensures
            final(self).wf(),
            final(self).capacity() == old(self).capacity(),
            final(self).window() == slide(old(self).window(), Operation::Update, old(self).capacity()),
            final(self).strategy() == strategy_after(
                old(self).window(),
                Operation::Update,
                old(self).capacity(),
                old(self).strategy(),
            ),
    {
        self.record_operation(Operation::Update);
        self.update_count = self.update_count + 1;
    }

    /// Record an operation in the window; its own counter is left for the
    /// caller to raise.
    fn record_operation(&mut self, op: Operation)
        requires
            old(self).wf(),
        ensures
            final(self).max_history == old(self).max_history,
            final(self).recent_ops@ == slide(old(self).recent_ops@, op, old(self).max_history as nat),
            final(self).recent_ops@.len() <= final(self).max_history,
            final(self).insert_count + (if op == Operation::Insert { 1int } else { 0int }) == count_op(
                final(self).recent_ops@,
                Operation::Insert,
            ),
            final(self).delete_count + (if op == Operation::Delete { 1int } else { 0int }) == count_op(
                final(self).recent_ops@,
                Operation::Delete,
            ),
            final(self).update_count + (if op == Operation::Update { 1int } else { 0int }) == count_op(
                final(self).recent_ops@,
                Operation::Update,
            ),
            final(self).current_strategy == strategy_after(
                old(self).recent_ops@,
                op,
                old(self).max_history as nat,
                old(self).current_strategy,
            ),
            final(self).insert_count + final(self).delete_count + final(self).update_count < 1000,
    {
        let ghost ops0 = self.recent_ops@;
        proof {
            lemma_count_push(ops0, op, Operation::Insert);
            lemma_count_push(ops0, op, Operation::Delete);
            lemma_count_push(ops0, op, Operation::Update);
        }
        self.recent_ops.push_back(op);
        if self.recent_ops.len() > self.max_history {
            let ghost pushed = self.recent_ops@;
            proof {
                lemma_count_drop_first(pushed, Operation::Insert);
                lemma_count_drop_first(pushed, Operation::Delete);
                lemma_count_drop_first(pushed, Operation::Update);
            }
            if let Some(old_op) = self.recent_ops.pop_front() {
                match old_op {
                    Operation::Insert => self.insert_count = self.insert_count - 1,
                    Operation::Delete => self.delete_count = self.delete_count - 1,
                    Operation::Update => self.update_count = self.update_count - 1,
                }
            }
        }
        proof {
            lemma_count_bound(self.recent_ops@);
        }
        if self.recent_ops.len() % 100 == 0 {
            self.update_strategy();
        }
    }

    /// Update the recommended strategy from the counters
    fn update_strategy(&mut self)
        requires
            old(self).insert_count + old(self).delete_count + old(self).update_count < 1000,
        ensures
            final(self).current_strategy == strategy_for(
                old(self).insert_count as nat,
                old(self).delete_count as nat,
                old(self).update_count as nat,
            ),
            final(self).recent_ops == old(self).recent_ops,
            final(self).max_history == old(self).max_history,
            final(self).insert_count == old(self).insert_count,
            final(self).delete_count == old(self).delete_count,
            final(self).update_count == old(self).update_count,
    {
        let total = self.insert_count + self.delete_count + self.update_count;
        if total == 0 {
            self.current_strategy = RebalanceStrategy::Standard;
            return;
        }
        if self.delete_count * 10 > total * 6 {
            self.current_strategy = RebalanceStrategy::Aggressive;
        } else if self.insert_count * 10 > total * 6 {
            self.current_strategy = RebalanceStrategy::Conservative;
        } else {
            self.current_strategy = RebalanceStrategy::Standard;
        }
    }

    /// Get the current recommended strategy
    pub fn get_strategy(&self) -> (s: RebalanceStrategy)
        ensures
            s == self.strategy(),
    {
        self.current_strategy
    }

    /// Whether more than half of the window's operations are deletes
    pub fn is_delete_heavy(&self) -> (b: bool)
        requires
            self.wf(),
        ensures
            b == (self.window().len() > 0 && 2 * count_op(self.window(), Operation::Delete) > self.window().len()),
    {
        proof {
            lemma_count_bound(self.recent_ops@);
        }
        let total = self.insert_count + self.delete_count + self.update_count;
        if total == 0 {
            return false;
        }
        self.delete_count * 2 > total
    }

    /// Whether more than half of the window's operations are inserts
    pub fn is_insert_heavy(&self) -> (b: bool)
        requires
            self.wf(),
        ensures
            b == (self.window().len() > 0 && 2 * count_op(self.window(), Operation::Insert) > self.window().len()),
    {
        proof {
            lemma_count_bound(self.recent_ops@);
        }
        let total = self.insert_count + self.delete_count + self.update_count;
        if total == 0 {
            return false;
        }
        self.insert_count * 2 > total
    }

    /// Get workload statistics
    pub fn get_stats(&self) -> (s: WorkloadStats)
        requires
            self.wf(),
        ensures
            s.insert_count == count_op(self.window(), Operation::Insert),
            s.delete_count == count_op(self.window(), Operation::Delete),
            s.update_count == count_op(self.window(), Operation::Update),
            s.strategy == self.strategy(),
    {
        WorkloadStats {
            insert_count: self.insert_count,
            delete_count: self.delete_count,
            update_count: self.update_count,
            strategy: self.current_strategy,
        }
    }
}

impl Default for WorkloadAnalyzer {
    fn default() -> (a: Self)
        ensures
            a.wf(),
            a.window().len() == 0,
            a.capacity() == 1000,
            a.strategy() == RebalanceStrategy::Standard,
    {
        Self::new()
    }
}

} // verus!
