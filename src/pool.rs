//! The round-robin choice of worker for each submitted task.
use vstd::prelude::*;
use vstd::arithmetic::div_mod::lemma_fundamental_div_mod_converse;

verus! {

/// The cursor of a pool of `workers` workers: the index of the worker that
/// receives the next task.
#[derive(Debug, Clone, Copy)]
pub struct RoundRobin {
    pub cursor: usize,
    pub workers: usize,
}

impl RoundRobin {
    /// The pool has a worker and the cursor names one.
    pub open spec fn wf(&self) -> bool {
        0 < self.workers && self.cursor < self.workers
    }

    /// A cursor over `workers` workers, at the first.
    pub fn new(workers: usize) -> (r: RoundRobin)
        requires
            workers > 0,
        ensures
            r.wf(),
            r.workers == workers,
            r.cursor == 0,
    {
        RoundRobin { cursor: 0, workers }
    }

    /// The worker for the next task; the cursor then moves on, wrapping at the end.
    pub fn next(&mut self) -> (r: usize)
        requires
            old(self).wf(),
        ensures
            r == old(self).cursor,
            final(self).wf(),
            final(self).workers == old(self).workers,
            final(self).cursor == step(old(self).cursor as int, old(self).workers as int),
    {
        let r = self.cursor;
        self.cursor = self.cursor + 1;
        if self.cursor >= self.workers {
            self.cursor = 0;
        }
        r
    }
}

/// Where the cursor goes after handing out one task.
pub open spec fn step(c: int, n: int) -> int {
    if c + 1 < n {
        c + 1
    } else {
        0
    }
}

/// The cursor after `t` tasks, from `c`.
pub open spec fn cursor_after(c: int, n: int, t: nat) -> int
    decreases t,
{
    if t == 0 {
        c
    } else {
        step(cursor_after(c, n, (t - 1) as nat), n)
    }
}

/// How many times the cursor wrapped round in `t` tasks from `c`.
pub open spec fn laps(c: int, n: int, t: nat) -> int
    decreases t,
{
    if t == 0 {
        0
    } else if cursor_after(c, n, (t - 1) as nat) + 1 < n {
        laps(c, n, (t - 1) as nat)
    } else {
        laps(c, n, (t - 1) as nat) + 1
    }
}

proof fn lemma_laps(c: int, n: int, t: nat)
    requires
        0 <= c < n,
    ensures
        0 <= cursor_after(c, n, t) < n,
        c + t == laps(c, n, t) * n + cursor_after(c, n, t),
    decreases t,
{
    if t > 0 {
        lemma_laps(c, n, (t - 1) as nat);
        let l = laps(c, n, (t - 1) as nat);
        assert((l + 1) * n == l * n + n) by (nonlinear_arith);
    }
}

/// The task handed out `t` tasks after the cursor stood at `c` goes to
/// worker `(c + t) % n`.
pub proof fn lemma_cursor_after(c: int, n: int, t: nat)
    requires
        0 <= c < n,
    ensures
        cursor_after(c, n, t) == (c + t) % n,
{
    lemma_laps(c, n, t);
    lemma_fundamental_div_mod_converse(c + t, n, laps(c, n, t), cursor_after(c, n, t));
}

/// The number of the task that is worker `w`'s task number `j`, in a pool of
/// `n` workers.
pub open spec fn nth_task(n: int, j: int, w: int) -> int {
    j * n + w
}

/// Of `k * n` tasks handed out from a fresh pool of `n` workers, task `t`
/// goes to worker `t % n` as that worker's task number `t / n`: each worker
/// receives exactly `k` tasks, tasks `w, n + w, 2n + w, ...`, in the order
/// they were submitted.
pub proof fn lemma_round_robin_fair(n: int, k: int)
    requires
        n > 0,
        k >= 0,
    ensures
        forall|t: int|
            0 <= t < k * n ==> #[trigger] cursor_after(0, n, t as nat) == t % n && t / n < k && t == (t
                / n) * n + t % n,
        forall|j: int, w: int|
            0 <= j < k && 0 <= w < n ==> 0 <= #[trigger] nth_task(n, j, w) < k * n && cursor_after(
                0,
                n,
                nth_task(n, j, w) as nat,
            ) == w,
{
    assert forall|t: int| 0 <= t < k * n implies #[trigger] cursor_after(0, n, t as nat) == t % n && t / n
        < k && t == (t / n) * n + t % n by {
        lemma_cursor_after(0, n, t as nat);
        lemma_laps(0, n, t as nat);
        let q = laps(0, n, t as nat);
        let r = cursor_after(0, n, t as nat);
        lemma_fundamental_div_mod_converse(t, n, q, r);
        assert(q < k) by (nonlinear_arith)
            requires
                t == q * n + r,
                0 <= r < n,
                t < k * n,
                n > 0,
        ;
    }
    assert forall|j: int, w: int| 0 <= j < k && 0 <= w < n implies 0 <= #[trigger] nth_task(n, j, w) < k
        * n && cursor_after(0, n, nth_task(n, j, w) as nat) == w by {
        assert(0 <= j * n + w < k * n) by (nonlinear_arith)
            requires
                0 <= j < k,
                0 <= w < n,
        ;
        lemma_cursor_after(0, n, (j * n + w) as nat);
        lemma_fundamental_div_mod_converse(j * n + w, n, j, w);
    }
}

} // verus!
