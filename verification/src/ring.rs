//! The turn ring coordinator: per-worker permission flags arranged in a
//! fixed cycle, with a budget of turns for each worker.
//!
//! A worker may act only while its own flag is set; acting consumes one unit
//! of its budget and hands the flag to the next worker in the cycle. The
//! coordinator state below is the synchronized core of the protocol: a host
//! program wraps it in a lock, parks each worker until its flag comes up,
//! and performs the observable action (a message, simulated work) before
//! calling [`DiningPhilosophers::take_turn`].

use vstd::prelude::*;

verus! {

/// The successor of slot `i` in a ring of `n` slots: the fixed cycle
/// `0 -> 1 -> ... -> n - 1 -> 0`.
pub open spec fn next_slot(i: int, n: int) -> int {
    if i + 1 == n {
        0
    } else {
        i + 1
    }
}

/// Total number of turns remaining over all workers.
pub open spec fn budget_sum(b: Seq<u64>) -> int
    decreases b.len(),
{
    if b.len() == 0 {
        0
    } else {
        b[0] + budget_sum(b.drop_first())
    }
}

pub proof fn lemma_budget_sum_nonneg(b: Seq<u64>)
    ensures
        budget_sum(b) >= 0,
    decreases b.len(),
{
    if b.len() > 0 {
        lemma_budget_sum_nonneg(b.drop_first());
    }
}

pub proof fn lemma_budget_sum_update(b: Seq<u64>, i: int, v: u64)
    requires
        0 <= i < b.len(),
    ensures
        budget_sum(b.update(i, v)) == budget_sum(b) - b[i] + v,
    decreases b.len(),
{
    if i == 0 {
        assert(b.update(0, v).drop_first() =~= b.drop_first());
    } else {
        assert(b.update(i, v).drop_first() =~= b.drop_first().update(i - 1, v));
        lemma_budget_sum_update(b.drop_first(), i - 1, v);
    }
}

/// The sequence of worker positions that act, starting from budgets `b` with
/// the permission token at slot `t`: the token holder acts while it has
/// budget left, then hands the token to the next slot; a token that reaches
/// a slot with no budget left rests there and the run ends.
pub open spec fn turn_sequence(b: Seq<u64>, t: int) -> Seq<int>
    decreases budget_sum(b),
{
    if 0 <= t < b.len() && b[t] > 0 {
        proof {
            lemma_budget_sum_update(b, t, (b[t] - 1) as u64);
            lemma_budget_sum_nonneg(b.update(t, (b[t] - 1) as u64));
        }
        seq![t] + turn_sequence(b.update(t, (b[t] - 1) as u64), next_slot(t, b.len() as int))
    } else {
        Seq::empty()
    }
}

/// Construction failure: a ring of zero workers is undefined.
#[derive(Clone, Copy, Debug, PartialEq, Eq, Structural)]
pub enum RingError {
    ConfigurationInvalid,
}

/// The coordinator: one budget and one permission flag per worker slot.
///
/// The flags realize mutual exclusion: a well-formed coordinator has exactly
/// one flag set, and only that slot's worker may act.
pub struct DiningPhilosophers {
    /// Remaining turn budget per slot.
    pub budgets: Vec<u64>,
    /// Permission flag per slot; the worker at a flagged slot may act.
    pub flags: Vec<bool>,
}

impl DiningPhilosophers {
    /// Number of worker slots in the ring.
    pub open spec fn n(&self) -> int {
        self.budgets@.len() as int
    }

    /// Remaining turn budget of each slot.
    pub open spec fn budget_seq(&self) -> Seq<u64> {
        self.budgets@
    }

    /// Whether slot `i` currently holds the permission flag.
    pub open spec fn flag(&self, i: int) -> bool {
        self.flags@[i]
    }

    /// Well-formedness: the ring is nonempty, every slot has a flag, and
    /// exactly one flag is set (the permission token is conserved: never
    /// duplicated, never lost).
    pub open spec fn wf(&self) -> bool {
        &&& self.flags@.len() == self.budgets@.len()
        &&& self.n() >= 1
        &&& exists|i: int| 0 <= i < self.n() && self.flag(i)
        &&& forall|i: int, j: int|
            (0 <= i < self.n() && 0 <= j < self.n() && self.flag(i) && self.flag(j)) ==> i == j
    }

    /// The slot that currently holds the permission token.
    pub open spec fn token(&self) -> int {
        choose|i: int| 0 <= i < self.n() && self.flag(i)
    }

    /// The schedule of the coordinator from its current state: the worker
    /// positions that act, in order, until the token rests at a slot with no
    /// budget left.
    pub open spec fn schedule(&self) -> Seq<int> {
        turn_sequence(self.budget_seq(), self.token())
    }

    /// Builds a ring of `worker_count` slots, each with `iterations` turns
    /// of budget, with the permission token at slot 0. A ring of zero
    /// workers is rejected.
    pub fn new(iterations: u64, worker_count: usize) -> (r: Result<DiningPhilosophers, RingError>)
        ensures
            (worker_count == 0) <==> (r matches Err(e) && e == RingError::ConfigurationInvalid),
            (r matches Ok(c) ==> {
                &&& c.wf()
                &&& c.n() == worker_count
                &&& c.budget_seq() == Seq::new(worker_count as nat, |j: int| iterations)
                &&& (forall|j: int| 0 <= j < c.n() ==> (c.flag(j) <==> j == 0))
                &&& c.token() == 0
            }),
    {
        if worker_count == 0 {
            return Err(RingError::ConfigurationInvalid);
        }
        let mut budgets: Vec<u64> = Vec::new();
        let mut flags: Vec<bool> = Vec::new();
        let mut i: usize = 0;
        while i < worker_count
            invariant
                i <= worker_count,
                budgets@.len() == i,
                flags@.len() == i,
                forall|j: int| 0 <= j < i ==> budgets@[j] == iterations,
                forall|j: int| 0 <= j < i ==> (flags@[j] <==> j == 0),
            decreases worker_count - i,
        {
            budgets.push(iterations);
            flags.push(i == 0);
            i = i + 1;
        }
        let c = DiningPhilosophers { budgets, flags };
        proof {
            assert(c.budget_seq() =~= Seq::new(worker_count as nat, |j: int| iterations));
            assert(c.flag(0));
            lemma_token_unique(c);
        }
        Ok(c)
    }

    /// Builds a ring with an explicit, possibly uneven, turn budget per
    /// slot, with the permission token at slot 0. An empty budget list is
    /// rejected: a ring of zero workers is undefined.
    pub fn new_with_budgets(budgets: Vec<u64>) -> (r: Result<DiningPhilosophers, RingError>)
        ensures
            (budgets@.len() == 0) <==> (r matches Err(e) && e == RingError::ConfigurationInvalid),
            (r matches Ok(c) ==> {
                &&& c.wf()
                &&& c.n() == budgets@.len()
                &&& c.budget_seq() == budgets@
                &&& (forall|j: int| 0 <= j < c.n() ==> (c.flag(j) <==> j == 0))
                &&& c.token() == 0
            }),
    {
        let n = budgets.len();
        if n == 0 {
            return Err(RingError::ConfigurationInvalid);
        }
        let mut flags: Vec<bool> = Vec::new();
        let mut i: usize = 0;
        while i < n
            invariant
                i <= n,
                flags@.len() == i,
                forall|j: int| 0 <= j < i ==> (flags@[j] <==> j == 0),
            decreases n - i,
        {
            flags.push(i == 0);
            i = i + 1;
        }
        let c = DiningPhilosophers { budgets, flags };
        proof {
            assert(c.flag(0));
            lemma_token_unique(c);
        }
        Ok(c)
    }

    /// Number of worker slots.
    pub fn worker_count(&self) -> (n: usize)
        requires
            self.wf(),
        ensures
            n == self.n(),
    {
        self.budgets.len()
    }

    /// Whether the worker at `position` currently holds the permission flag.
    pub fn can_act(&self, position: usize) -> (b: bool)
        requires
            self.wf(),
            position < self.n(),
        ensures
            b == self.flag(position as int),
    {
        self.flags[position]
    }

    /// Remaining turn budget of the worker at `position`.
    pub fn remaining(&self, position: usize) -> (b: u64)
        requires
            self.wf(),
            position < self.n(),
        ensures
            b == self.budget_seq()[position as int],
    {
        self.budgets[position]
    }

    /// The slot that currently holds the permission token.
    pub fn token_position(&self) -> (p: usize)
        requires
            self.wf(),
        ensures
            p == self.token(),
            p < self.n(),
            self.flag(p as int),
    {
        let n = self.flags.len();
        let mut i: usize = 0;
        while i < n
            invariant
                self.wf(),
                n == self.flags@.len(),
                i <= n,
                forall|j: int| 0 <= j < i ==> !self.flag(j),
            decreases n - i,
        {
            if self.flags[i] {
                proof {
                    lemma_token_unique(*self);
                    assert(self.flag(i as int));
                }
                return i;
            }
            i = i + 1;
        }
        proof {
            let w = self.token();
            assert(self.flag(w));
            assert(false);
        }
        0
    }

    /// One turn of the protocol: the worker at `position`, which holds the
    /// permission token and has budget left, consumes one unit of budget and
    /// hands the token to the next slot in the cycle. Returns that next
    /// slot. (In a ring of one the worker hands the token to itself.)
    pub fn take_turn(&mut self, position: usize) -> (next: usize)
        requires
            old(self).wf(),
            position < old(self).n(),
            old(self).flag(position as int),
            old(self).budget_seq()[position as int] > 0,
        ensures
            final(self).wf(),
            final(self).n() == old(self).n(),
            next == next_slot(position as int, old(self).n()),
            final(self).budget_seq() == old(self).budget_seq().update(
                position as int,
                (old(self).budget_seq()[position as int] - 1) as u64,
            ),
            forall|i: int|
                0 <= i < final(self).n() ==> (final(self).flag(i) <==> i == next),
            final(self).token() == next,
    {
        proof {
            lemma_token_unique(*old(self));
            assert(old(self).token() == position as int);
        }
        let len = self.budgets.len();
        let next: usize = if position + 1 == len {
            0
        } else {
            position + 1
        };
        let b = self.budgets[position];
        self.budgets.set(position, b - 1);
        self.flags.set(position, false);
        self.flags.set(next, true);
        proof {
            assert(self.flag(next as int));
            assert forall|i: int| 0 <= i < self.n() implies (self.flag(i) <==> i == next as int) by {
                assert(old(self).flag(i) <==> i == position as int);
            };
            assert(self.wf());
            lemma_token_unique(*self);
        }
        next
    }

    /// Plays the whole protocol out from the current state and returns the
    /// order in which the workers act. Handoffs totally order the actions,
    /// so a concurrent run of the ring emits its actions in exactly this
    /// order; the run ends when the token rests at a slot whose budget is
    /// exhausted.
    pub fn run_schedule(&mut self) -> (actions: Vec<usize>)
        requires
            old(self).wf(),
        ensures
            final(self).wf(),
            final(self).n() == old(self).n(),
            actions@.map_values(|p: usize| p as int) == old(self).schedule(),
            final(self).budget_seq()[final(self).token()] == 0,
    {
        let ghost b0 = self.budget_seq();
        let ghost t0 = self.token();
        let mut actions: Vec<usize> = Vec::new();
        let mut pos: usize = self.token_position();
        while self.budgets[pos] > 0
            invariant
                self.wf(),
                self.n() == b0.len(),
                pos < self.n(),
                pos == self.token(),
                turn_sequence(b0, t0) == actions@.map_values(|p: usize| p as int)
                    + turn_sequence(self.budget_seq(), pos as int),
            decreases budget_sum(self.budget_seq()),
        {
            let ghost b_here = self.budget_seq();
            let ghost a_here = actions@;
            actions.push(pos);
            let next = self.take_turn(pos);
            proof {
                lemma_budget_sum_update(
                    b_here,
                    pos as int,
                    (b_here[pos as int] - 1) as u64,
                );
                lemma_budget_sum_nonneg(self.budget_seq());
                assert(turn_sequence(b_here, pos as int) == seq![pos as int]
                    + turn_sequence(self.budget_seq(), next as int));
                assert(actions@.map_values(|p: usize| p as int) =~= a_here.map_values(
                    |p: usize| p as int,
                ) + seq![pos as int]);
                assert(turn_sequence(b0, t0) =~= actions@.map_values(|p: usize| p as int)
                    + turn_sequence(self.budget_seq(), next as int));
            }
            pos = next;
        }
        proof {
            assert(turn_sequence(self.budget_seq(), pos as int) =~= Seq::<int>::empty());
            assert(turn_sequence(b0, t0) =~= actions@.map_values(|p: usize| p as int));
        }
        actions
    }
}

/// In a well-formed ring the token slot is the one and only flagged slot.
pub proof fn lemma_token_unique(c: DiningPhilosophers)
    requires
        c.wf(),
    ensures
        0 <= c.token() < c.n(),
        c.flag(c.token()),
        forall|i: int| 0 <= i < c.n() ==> (c.flag(i) <==> i == c.token()),
{
    assert(0 <= c.token() < c.n() && c.flag(c.token()));
    assert forall|i: int| 0 <= i < c.n() implies (c.flag(i) <==> i == c.token()) by {
        if c.flag(i) {
            assert(i == c.token());
        }
    }
}

} // verus!
