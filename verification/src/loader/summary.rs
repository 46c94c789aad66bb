//! What came back.

use vstd::prelude::*;

verus! {

/// What became of a request.
#[derive(Clone, Copy, Debug, PartialEq, Eq, Structural)]
pub enum Outcome {
    /// Let through.
    Allowed,
    /// Over the limit.
    Over,
    /// Neither.
    Fail,
}

/// What the codes of the rate limit service stand for.
pub const CODE_OK: i32 = 1;

pub const CODE_OVER_LIMIT: i32 = 2;

/// What an answer of the rate limit service says.
pub fn classify_code(overall_code: i32) -> (outcome: Outcome)
    ensures
        outcome == if overall_code == CODE_OK {
            Outcome::Allowed
        } else if overall_code == CODE_OVER_LIMIT {
            Outcome::Over
        } else {
            Outcome::Fail
        },
{
    if overall_code == CODE_OK {
        Outcome::Allowed
    } else if overall_code == CODE_OVER_LIMIT {
        Outcome::Over
    } else {
        Outcome::Fail
    }
}

/// The outcomes of a window, counted.
#[derive(Clone, Copy, Debug, PartialEq, Eq, Structural)]
pub struct Counters {
    ok: u64,
    over: u64,
    fail: u64,
}

impl Counters {
    /// Let through, over the limit, neither.
    pub closed spec fn view(&self) -> (u64, u64, u64) {
        (self.ok, self.over, self.fail)
    }

    pub fn new() -> (counters: Counters)
        ensures
            counters@ == (0u64, 0u64, 0u64),
    {
        Counters { ok: 0, over: 0, fail: 0 }
    }

    /// Counts an outcome.
    pub fn add(&mut self, outcome: Outcome)
        ensures
            ({
                let (ok, over, fail) = old(self)@;
                final(self)@ == match outcome {
                    Outcome::Allowed => (ok.wrapping_add(1), over, fail),
                    Outcome::Over => (ok, over.wrapping_add(1), fail),
                    Outcome::Fail => (ok, over, fail.wrapping_add(1)),
                }
            }),
    {
        match outcome {
            Outcome::Allowed => {
                self.ok = self.ok.wrapping_add(1);
            },
            Outcome::Over => {
                self.over = self.over.wrapping_add(1);
            },
            Outcome::Fail => {
                self.fail = self.fail.wrapping_add(1);
            },
        }
    }

    pub fn snapshot(&self) -> (counts: (u64, u64, u64))
        ensures
            counts == self@,
    {
        (self.ok, self.over, self.fail)
    }
}

/// All windows together.
#[derive(Clone, Copy, Debug, PartialEq, Eq, Structural)]
pub struct Totals {
    pub ok: u64,
    pub over: u64,
    pub fail: u64,
    pub attempts: u64,
}

pub open spec fn capped(sum: int) -> u64 {
    if sum <= u64::MAX {
        sum as u64
    } else {
        u64::MAX
    }
}

/// The counts of all windows, added up: let through, over, neither.
pub open spec fn added(counters: Seq<Counters>) -> (nat, nat, nat)
    decreases counters.len(),
{
    if counters.len() == 0 {
        (0, 0, 0)
    } else {
        let (ok, over, fail) = added(counters.drop_last());
        let last = counters.last()@;
        (ok + last.0 as nat, over + last.1 as nat, fail + last.2 as nat)
    }
}

/// Adds up all windows. Tenants that failed altogether count as failures.
pub fn total(counters: &Vec<Counters>, task_failures: u64) -> (totals: Totals)
    ensures
        ({
            let (ok, over, fail) = added(counters@);
            &&& totals.ok == capped(ok as int)
            &&& totals.over == capped(over as int)
            &&& totals.fail == capped(fail + task_failures)
            &&& totals.attempts == capped(ok + over + fail + task_failures)
        }),
{
    let mut ok: u64 = 0;
    let mut over: u64 = 0;
    let mut fail: u64 = task_failures;
    let mut i: usize = 0;
    assert(counters@.take(0) =~= Seq::<Counters>::empty());
    while i < counters.len()
        invariant
            i <= counters@.len(),
            ok == capped(added(counters@.take(i as int)).0 as int),
            over == capped(added(counters@.take(i as int)).1 as int),
            fail == capped(added(counters@.take(i as int)).2 + task_failures),
        decreases counters@.len() - i,
    {
        assert(counters@.take(i + 1).drop_last() =~= counters@.take(i as int));
        let (o, v, f) = counters[i].snapshot();
        ok = ok.saturating_add(o);
        over = over.saturating_add(v);
        fail = fail.saturating_add(f);
        i = i + 1;
    }
    assert(counters@.take(i as int) =~= counters@);
    Totals { ok, over, fail, attempts: ok.saturating_add(over).saturating_add(fail) }
}

} // verus!
