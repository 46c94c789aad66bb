//! Peer sampling: a small deterministic generator and a partial shuffle.

use vstd::prelude::*;

verus! {

pub const GAMMA: u64 = 0x9E37_79B9_7F4A_7C15;

pub const MIX_A: u64 = 0xBF58_476D_1CE4_E5B9;

pub const MIX_B: u64 = 0x94D0_49BB_1331_11EB;

/// The state that follows `state`.
pub open spec fn next_state(state: u64) -> u64 {
    state.wrapping_add(GAMMA)
}

/// The number that a state gives.
pub open spec fn output(state: u64) -> u64 {
    let a = (state ^ (state >> 30u64)).wrapping_mul(MIX_A);
    let b = (a ^ (a >> 27u64)).wrapping_mul(MIX_B);
    b ^ (b >> 31u64)
}

/// The number that a state gives.
pub(crate) fn mixed(state: u64) -> (number: u64)
    ensures
        number == output(state),
{
    let a: u64 = (state ^ (state >> 30u64)).wrapping_mul(MIX_A);
    let b: u64 = (a ^ (a >> 27u64)).wrapping_mul(MIX_B);
    b ^ (b >> 31u64)
}

/// SplitMix64: small, fast, deterministic. Good enough to sample peers, and for
/// nothing that needs secrecy.
#[derive(Debug)]
pub struct SplitMix64(u64);

impl SplitMix64 {
    pub closed spec fn view(&self) -> u64 {
        self.0
    }

    pub fn new(seed: u64) -> (rng: SplitMix64)
        ensures
            rng@ == seed.wrapping_add(GAMMA),
    {
        SplitMix64(seed.wrapping_add(GAMMA))
    }

    pub fn next_u64(&mut self) -> (number: u64)
        ensures
            final(self)@ == next_state(old(self)@),
            number == output(final(self)@),
    {
        self.0 = self.0.wrapping_add(GAMMA);
        mixed(self.0)
    }
}

pub open spec fn swapped<A>(items: Seq<A>, i: int, j: int) -> Seq<A> {
    items.update(i, items[j]).update(j, items[i])
}

/// Where the item for place `i` comes from: one of the places from `i` on.
pub open spec fn picked_index(state: u64, i: int, n: int) -> int {
    i + (output(state) as usize) as int % (n - i)
}

/// A partial Fisher-Yates shuffle: the first `k` places drawn one after the
/// other from what is left, and the generator's state then.
pub open spec fn shuffled<A>(items: Seq<A>, state: u64, k: nat) -> (Seq<A>, u64)
    decreases k,
{
    if k == 0 {
        (items, state)
    } else {
        let (before, state) = shuffled(items, state, (k - 1) as nat);
        let next = next_state(state);
        let i = k - 1;
        (swapped(before, i, picked_index(next, i, before.len() as int)), next)
    }
}

/// Shuffles the first `count` places.
pub fn shuffle_front<A: Copy>(items: &mut Vec<A>, rng: &mut SplitMix64, count: usize)
    requires
        count <= old(items)@.len(),
    ensures
        (final(items)@, final(rng)@) == shuffled(old(items)@, old(rng)@, count as nat),
        final(items)@.len() == old(items)@.len(),
{
    let ghost start = items@;
    let ghost seed = rng@;
    let n: usize = items.len();
    let mut i: usize = 0;
    while i < count
        invariant
            i <= count <= n == items@.len(),
            n == start.len(),
            (items@, rng@) == shuffled(start, seed, i as nat),
        decreases count - i,
    {
        let ghost before = items@;
        #[verifier::truncate]
        let draw: usize = rng.next_u64() as usize;
        let j: usize = i + draw % (n - i);
        let a: A = items[i];
        let b: A = items[j];
        items.set(i, b);
        items.set(j, a);
        assert(items@ =~= swapped(before, i as int, j as int));
        i = i + 1;
    }
}

/// Drawing is without replacement: the shuffled items are the same items, each
/// as often as before, so that no peer is drawn twice.
pub proof fn lemma_draws_without_replacement<A>(items: Seq<A>, state: u64, k: nat)
    requires
        k <= items.len(),
    ensures
        shuffled(items, state, k).0.len() == items.len(),
        shuffled(items, state, k).0.to_multiset() == items.to_multiset(),
        items.no_duplicates() ==> shuffled(items, state, k).0.no_duplicates(),
    decreases k,
{
    if k > 0 {
        lemma_draws_without_replacement(items, state, (k - 1) as nat);
        let (before, s) = shuffled(items, state, (k - 1) as nat);
        let next = next_state(s);
        let i = k - 1;
        let n = before.len() as int;
        let r = (output(next) as usize) as int % (n - i);
        let j = i + r;
        assert(0 <= r < n - i) by (nonlinear_arith)
            requires
                r == (output(next) as usize) as int % (n - i),
                n - i > 0,
        ;
        lemma_swap_keeps(before, i, j);
    }
}

proof fn lemma_swap_keeps<A>(items: Seq<A>, i: int, j: int)
    requires
        0 <= i < items.len(),
        0 <= j < items.len(),
    ensures
        swapped(items, i, j).len() == items.len(),
        swapped(items, i, j).to_multiset() == items.to_multiset(),
        items.no_duplicates() ==> swapped(items, i, j).no_duplicates(),
{
    let once = items.update(i, items[j]);
    let twice = once.update(j, items[i]);
    vstd::seq_lib::to_multiset_update(items, i, items[j]);
    vstd::seq_lib::to_multiset_update(once, j, items[i]);
    vstd::seq_lib::to_multiset_contains(items, items[i]);
    vstd::seq_lib::to_multiset_contains(items, items[j]);
    assert(once[j] == items[j]);
    assert(twice.to_multiset() =~= items.to_multiset());
    if items.no_duplicates() {
        assert forall|a: int, b: int|
            0 <= a < twice.len() && 0 <= b < twice.len() && a != b implies twice[a] != twice[b] by {
            let pa = if a == i {
                j
            } else if a == j {
                i
            } else {
                a
            };
            let pb = if b == i {
                j
            } else if b == j {
                i
            } else {
                b
            };
            assert(twice[a] == items[pa] && twice[b] == items[pb]);
            assert(pa != pb);
        }
    }
}

/// Every draw takes one number of the generator, and its remainder by how many are
/// left says which of them is drawn: it changes places with the first of them, and no
/// other moves.
pub proof fn lemma_number_decides_draw<A>(items: Seq<A>, state: u64, k: nat)
    requires
        k < items.len(),
    ensures
        ({
            let (before, drawn) = shuffled(items, state, k);
            let (after, then) = shuffled(items, state, k + 1);
            let number = output(then) as usize;
            let j = k + number as int % (items.len() - k);
            &&& then == drawn.wrapping_add(0x9E37_79B9_7F4A_7C15)
            &&& k <= j < items.len()
            &&& before.len() == items.len()
            &&& after.len() == items.len()
            &&& after[k as int] == before[j]
            &&& after[j] == before[k as int]
            &&& forall|i: int|
                0 <= i < items.len() && i != k && i != j ==> #[trigger] after[i] == before[i]
        }),
{
    lemma_draws_without_replacement(items, state, k);
    let left = items.len() - k;
    let (before, drawn) = shuffled(items, state, k);
    let number = output(next_state(drawn)) as usize;
    assert(0 <= number as int % left < left) by (nonlinear_arith)
        requires
            left > 0,
    ;
}

} // verus!
