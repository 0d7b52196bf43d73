//! Protocol-level guarantees of the turn ring, proved once and for all:
//! mutual exclusion, termination, determinism, the exact round-robin order
//! of the actions, and the behaviour of single-worker and starved rings.

use vstd::prelude::*;

use crate::ring::DiningPhilosophers;
use crate::ring::budget_sum;
use crate::ring::lemma_budget_sum_nonneg;
use crate::ring::lemma_budget_sum_update;
use crate::ring::next_slot;
use crate::ring::turn_sequence;

verus! {

/// Mutual exclusion: in a well-formed ring at most one slot holds the
/// permission flag, so at most one worker can be acting at any instant.
pub proof fn lemma_mutual_exclusion(c: DiningPhilosophers)
    requires
        c.wf(),
    ensures
        forall|i: int, j: int|
            (0 <= i < c.n() && 0 <= j < c.n() && c.flag(i) && c.flag(j)) ==> i == j,
{
}

/// Termination: every run of the ring is finite. The schedule can be no
/// longer than the total remaining budget, so each worker's loop bound is
/// honored and every worker call returns.
pub proof fn lemma_run_is_finite(b: Seq<u64>, t: int)
    ensures
        turn_sequence(b, t).len() <= budget_sum(b),
    decreases budget_sum(b),
{
    lemma_budget_sum_nonneg(b);
    if 0 <= t < b.len() && b[t] > 0 {
        let b2 = b.update(t, (b[t] - 1) as u64);
        lemma_budget_sum_update(b, t, (b[t] - 1) as u64);
        lemma_budget_sum_nonneg(b2);
        lemma_run_is_finite(b2, next_slot(t, b.len() as int));
    }
}

/// Determinism: the schedule depends on the budgets and the token position
/// alone, so re-running a ring with the same configuration always yields
/// the same ordered sequence of worker identities.
pub proof fn lemma_deterministic(c1: DiningPhilosophers, c2: DiningPhilosophers)
    requires
        c1.budget_seq() == c2.budget_seq(),
        c1.token() == c2.token(),
    ensures
        c1.schedule() == c2.schedule(),
{
}

/// The round-robin cycle of worker positions: `len` slots starting at `t`
/// and stepping through the fixed cycle of a ring of `n` slots.
pub open spec fn cycle_from(n: int, t: int, len: nat) -> Seq<int>
    decreases len,
{
    if len == 0 {
        Seq::empty()
    } else {
        seq![t] + cycle_from(n, next_slot(t, n), (len - 1) as nat)
    }
}

/// Equal budgets: each of `n` slots holds `iterations` turns.
pub open spec fn uniform_budgets(n: nat, iterations: u64) -> Seq<u64> {
    Seq::new(n, |j: int| iterations)
}

pub proof fn lemma_cycle_from_len(n: int, t: int, len: nat)
    ensures
        cycle_from(n, t, len).len() == len,
    decreases len,
{
    if len > 0 {
        lemma_cycle_from_len(n, next_slot(t, n), (len - 1) as nat);
    }
}

/// The budgets midway through one round of a uniform ring with `c` rounds
/// left: slots before `t` have taken their turn of the current round,
/// slots from `t` on have not.
spec fn pass_state(n: int, c: u64, t: int) -> Seq<u64> {
    Seq::new(n as nat, |j: int| if j < t { (c - 1) as u64 } else { c })
}

proof fn lemma_uniform_pass(n: int, c: u64, t: int)
    requires
        1 <= n,
        1 <= c,
        0 <= t < n,
    ensures
        turn_sequence(pass_state(n, c, t), t) == cycle_from(n, t, (n * c - t) as nat),
    decreases n * c - t,
{
    assert(n * c >= n) by (nonlinear_arith)
        requires 1 <= n && 1 <= c;
    let b = pass_state(n, c, t);
    let b2 = b.update(t, (c - 1) as u64);
    let len: nat = (n * c - t) as nat;
    assert(b[t] == c);
    if t + 1 < n {
        assert(b2 =~= pass_state(n, c, t + 1));
        lemma_uniform_pass(n, c, t + 1);
        assert(turn_sequence(b, t) == cycle_from(n, t, len));
    } else {
        assert(next_slot(t, n) == 0);
        if c == 1 {
            assert(len == 1);
            assert(b2[0] == 0);
            assert(turn_sequence(b2, 0) == Seq::<int>::empty());
            assert(cycle_from(n, next_slot(t, n), 0) == Seq::<int>::empty());
            assert(turn_sequence(b, t) == cycle_from(n, t, len));
        } else {
            assert(b2 =~= pass_state(n, (c - 1) as u64, 0));
            assert(n * ((c - 1) as int) == n * c - n) by (nonlinear_arith);
            lemma_uniform_pass(n, (c - 1) as u64, 0);
            assert(turn_sequence(b, t) == cycle_from(n, t, len));
        }
    }
}

/// Round-robin order: with equal budgets the schedule from slot 0 is the
/// fixed cycle `0, 1, ..., n - 1`, repeated `iterations` times, exactly
/// `n * iterations` actions in all.
pub proof fn lemma_round_robin_schedule(n: int, iterations: u64)
    requires
        1 <= n,
    ensures
        turn_sequence(uniform_budgets(n as nat, iterations), 0) == cycle_from(
            n,
            0,
            (n * iterations) as nat,
        ),
        turn_sequence(uniform_budgets(n as nat, iterations), 0).len() == n * iterations,
{
    assert(n * iterations >= 0) by (nonlinear_arith)
        requires 1 <= n && 0 <= iterations;
    if iterations == 0 {
        assert(uniform_budgets(n as nat, 0)[0] == 0);
        assert(turn_sequence(uniform_budgets(n as nat, 0), 0) == Seq::<int>::empty());
        assert(cycle_from(n, 0, 0) == Seq::<int>::empty());
    } else {
        assert(uniform_budgets(n as nat, iterations) =~= pass_state(n, iterations, 0));
        lemma_uniform_pass(n, iterations, 0);
    }
    lemma_cycle_from_len(n, 0, (n * iterations) as nat);
}

/// The `k`-th position of the round-robin cycle starting at `t` is
/// `(t + k) % n`.
pub proof fn lemma_cycle_from_index(n: int, t: int, len: nat, k: int)
    requires
        1 <= n,
        0 <= t < n,
        0 <= k < len,
    ensures
        cycle_from(n, t, len)[k] == (t + k) % n,
    decreases len,
{
    let rest = cycle_from(n, next_slot(t, n), (len - 1) as nat);
    lemma_cycle_from_len(n, next_slot(t, n), (len - 1) as nat);
    assert(cycle_from(n, t, len) == seq![t] + rest);
    if k == 0 {
        assert((seq![t] + rest)[0] == t);
        vstd::arithmetic::div_mod::lemma_small_mod(t as nat, n as nat);
    } else {
        lemma_cycle_from_index(n, next_slot(t, n), (len - 1) as nat, k - 1);
        assert((seq![t] + rest)[k] == rest[k - 1]);
        if t + 1 == n {
            vstd::arithmetic::div_mod::lemma_mod_add_multiples_vanish(k - 1, n);
        }
    }
}

/// Round-robin order, pointwise: with equal budgets the worker that takes
/// the `k`-th action is worker `k % n`.
pub proof fn lemma_round_robin_index(n: int, iterations: u64, k: int)
    requires
        1 <= n,
        0 <= k < n * iterations,
    ensures
        turn_sequence(uniform_budgets(n as nat, iterations), 0)[k] == k % n,
{
    lemma_round_robin_schedule(n, iterations);
    lemma_cycle_from_index(n, 0, (n * iterations) as nat, k);
}

/// A ring of zero-budget workers emits no actions: every worker returns
/// immediately.
pub proof fn lemma_zero_iterations(n: int)
    requires
        1 <= n,
    ensures
        turn_sequence(uniform_budgets(n as nat, 0), 0) == Seq::<int>::empty(),
{
    assert(uniform_budgets(n as nat, 0)[0] == 0);
}

/// A ring of one: the single worker is its own successor, so it always
/// holds its own token, hands off to itself, and acts `iterations` times
/// in a row.
pub proof fn lemma_single_worker(iterations: u64)
    ensures
        next_slot(0, 1) == 0,
        turn_sequence(uniform_budgets(1, iterations), 0).len() == iterations,
        forall|k: int|
            0 <= k < iterations ==> turn_sequence(uniform_budgets(1, iterations), 0)[k] == 0,
{
    lemma_round_robin_schedule(1, iterations);
    assert forall|k: int|
        0 <= k < iterations implies turn_sequence(uniform_budgets(1, iterations), 0)[k] == 0 by {
        lemma_round_robin_index(1, iterations, k);
        assert(k % 1 == 0);
    };
}

/// A token handed to a worker whose own budget is already exhausted is
/// never consumed: the run ends with the token resting at that slot.
pub proof fn lemma_exhausted_token_rests(b: Seq<u64>, t: int)
    requires
        0 <= t < b.len(),
        b[t] == 0,
    ensures
        turn_sequence(b, t) == Seq::<int>::empty(),
{
}

/// Budgets for a ring whose last slot is given no turns at all.
pub open spec fn last_slot_starved(n: int, iterations: u64) -> Seq<u64> {
    Seq::new(n as nat, |j: int| if j == n - 1 { 0u64 } else { iterations })
}

/// The budgets after the first `t` slots of a starved ring have acted once.
spec fn starved_mid(n: int, it: u64, t: int) -> Seq<u64> {
    Seq::new(
        n as nat,
        |j: int|
            if j == n - 1 {
                0u64
            } else if j < t {
                (it - 1) as u64
            } else {
                it
            },
    )
}

proof fn lemma_starved_pass(n: int, it: u64, t: int)
    requires
        2 <= n,
        1 <= it,
        0 <= t < n - 1,
    ensures
        turn_sequence(starved_mid(n, it, t), t) == cycle_from(n, t, (n - 1 - t) as nat),
    decreases n - 1 - t,
{
    let b = starved_mid(n, it, t);
    let b2 = b.update(t, (it - 1) as u64);
    assert(b[t] == it);
    assert(next_slot(t, n) == t + 1);
    if t + 1 < n - 1 {
        assert(b2 =~= starved_mid(n, it, t + 1));
        lemma_starved_pass(n, it, t + 1);
        assert(turn_sequence(b, t) == cycle_from(n, t, (n - 1 - t) as nat));
    } else {
        assert(b2[n - 1] == 0);
        assert(turn_sequence(b2, t + 1) == Seq::<int>::empty());
        assert(cycle_from(n, next_slot(t, n), 0) == Seq::<int>::empty());
        assert(turn_sequence(b, t) == cycle_from(n, t, (n - 1 - t) as nat));
    }
}

/// If the last worker's budget is exhausted before the others start, the
/// first pass hands it a token it never consumes: workers `0 .. n - 2` each
/// act once, in ring order, and the run ends with the token resting at the
/// last slot — the workers that already returned are unaffected.
pub proof fn lemma_starved_tail(n: int, iterations: u64)
    requires
        2 <= n,
        1 <= iterations,
    ensures
        turn_sequence(last_slot_starved(n, iterations), 0) == cycle_from(n, 0, (n - 1) as nat),
{
    assert(last_slot_starved(n, iterations) =~= starved_mid(n, iterations, 0));
    lemma_starved_pass(n, iterations, 0);
}

} // verus!
