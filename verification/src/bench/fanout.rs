//! How many packets a tick sends that has something to send.
//!
//! The number is a ratio, kept as its two parts. Ratios are put in order without
//! dividing.

use super::headline::{quantile_rank, TickSnapshot};
use vstd::prelude::*;

verus! {

/// Packets sent, and ticks that had something to send.
#[derive(Clone, Copy, Debug, PartialEq, Eq, Structural)]
pub struct Fanout {
    pub packets: u64,
    pub dirty_ticks: u64,
}

// -- model ------------------------------------------------------------------

/// Whether `a` is fewer packets per tick than `b`.
pub open spec fn fewer(a: Fanout, b: Fanout) -> bool {
    a.packets * b.dirty_ticks < b.packets * a.dirty_ticks
}

pub open spec fn grown(from: u64, to: u64) -> u64 {
    if from < to {
        (to - from) as u64
    } else {
        0
    }
}

/// The fanout between two samples, if any tick had something to send.
pub open spec fn fanout_between(from: TickSnapshot, to: TickSnapshot) -> Option<Fanout> {
    let dirty_ticks = grown(from.dirty_ticks_total, to.dirty_ticks_total);
    if dirty_ticks == 0 {
        None
    } else {
        Some(
            Fanout {
                packets: grown(from.packets_sent_total, to.packets_sent_total),
                dirty_ticks,
            },
        )
    }
}

/// The fanouts between neighbouring samples, in order.
pub open spec fn fanouts(samples: Seq<TickSnapshot>) -> Seq<Fanout>
    decreases samples.len(),
{
    if samples.len() < 2 {
        Seq::empty()
    } else {
        let before = fanouts(samples.drop_last());
        match fanout_between(samples[samples.len() - 2], samples.last()) {
            Some(fanout) => before.push(fanout),
            None => before,
        }
    }
}

/// Whether fanouts are in order, and each has a tick.
pub open spec fn in_order(s: Seq<Fanout>) -> bool {
    &&& forall|i: int| 0 <= i < s.len() ==> (#[trigger] s[i]).dirty_ticks > 0
    &&& forall|i: int, j: int|
        0 <= i < j < s.len() ==> !fewer(#[trigger] s[j], #[trigger] s[i])
}

/// Whether `q` is what stands at the place of a quantile once the fanouts are in
/// order; none of no fanouts.
pub open spec fn is_fanout_quantile(
    all: Seq<Fanout>,
    numerator: nat,
    denominator: nat,
    q: Option<Fanout>,
) -> bool {
    exists|ordered: Seq<Fanout>|
        {
            &&& #[trigger] in_order(ordered)
            &&& ordered.to_multiset() == all.to_multiset()
            &&& q == if ordered.len() == 0 {
                None
            } else {
                Some(ordered[quantile_rank(ordered.len(), numerator, denominator) as int])
            }
        }
}

// -- code -------------------------------------------------------------------

fn is_fewer(a: Fanout, b: Fanout) -> (yes: bool)
    ensures
        yes == fewer(a, b),
{
    proof {
        assert(a.packets * b.dirty_ticks <= u64::MAX * u64::MAX) by (nonlinear_arith)
            requires
                a.packets <= u64::MAX,
                b.dirty_ticks <= u64::MAX,
        ;
        assert(b.packets * a.dirty_ticks <= u64::MAX * u64::MAX) by (nonlinear_arith)
            requires
                b.packets <= u64::MAX,
                a.dirty_ticks <= u64::MAX,
        ;
    }
    (a.packets as u128) * (b.dirty_ticks as u128) < (b.packets as u128) * (a.dirty_ticks as u128)
}

/// What is fewer than something is fewer than what that does not exceed.
proof fn lemma_fewer_through(a: Fanout, b: Fanout, c: Fanout)
    requires
        fewer(a, b),
        !fewer(c, b),
        a.dirty_ticks > 0,
        b.dirty_ticks > 0,
        c.dirty_ticks > 0,
    ensures
        fewer(a, c),
{
    let (ap, ad) = (a.packets as int, a.dirty_ticks as int);
    let (bp, bd) = (b.packets as int, b.dirty_ticks as int);
    let (cp, cd) = (c.packets as int, c.dirty_ticks as int);
    assert(ap * cd < cp * ad) by (nonlinear_arith)
        requires
            ap * bd < bp * ad,
            bp * cd <= cp * bd,
            ad > 0,
            bd > 0,
            cd > 0,
    {
        assert((ap * bd) * cd < (bp * ad) * cd) by (nonlinear_arith)
            requires
                ap * bd < bp * ad,
                cd > 0,
        ;
        assert((bp * cd) * ad <= (cp * bd) * ad) by (nonlinear_arith)
            requires
                bp * cd <= cp * bd,
                ad > 0,
        ;
        assert((ap * cd) * bd < (cp * ad) * bd) by (nonlinear_arith)
            requires
                (ap * bd) * cd < (bp * ad) * cd,
                (bp * cd) * ad <= (cp * bd) * ad,
        ;
        if ap * cd >= cp * ad {
            assert((ap * cd) * bd >= (cp * ad) * bd) by (nonlinear_arith)
                requires
                    ap * cd >= cp * ad,
                    bd > 0,
            ;
        }
    }
}

/// Puts a fanout where it belongs.
fn insert_ordered(list: &mut Vec<Fanout>, fanout: Fanout)
    requires
        in_order(old(list)@),
        fanout.dirty_ticks > 0,
    ensures
        in_order(final(list)@),
        final(list)@.to_multiset() == old(list)@.to_multiset().insert(fanout),
{
    let ghost before = list@;
    let n: usize = list.len();
    let mut i: usize = 0;
    while i < n && !is_fewer(fanout, list[i])
        invariant
            i <= n == list@.len(),
            list@ == before,
            forall|j: int| 0 <= j < i ==> !fewer(fanout, #[trigger] before[j]),
        decreases n - i,
    {
        i = i + 1;
    }
    list.insert(i, fanout);
    proof {
        let after = list@;
        assert(after =~= before.insert(i as int, fanout));
        assert forall|j: int, k: int| 0 <= j < k < after.len() implies !fewer(
            #[trigger] after[k],
            #[trigger] after[j],
        ) by {
            if j == i {
                if k > i + 1 {
                    assert(!fewer(before[k - 1], before[i as int]));
                    lemma_fewer_through(fanout, before[i as int], before[k - 1]);
                }
            } else if k != i {
                let x = if j < i {
                    j
                } else {
                    j - 1
                };
                let y = if k < i {
                    k
                } else {
                    k - 1
                };
                assert(!fewer(before[y], before[x]));
            } else {
                assert(after[j] == before[j]);
            }
        }
        vstd::seq_lib::to_multiset_insert(before, i as int, fanout);
    }
}

/// The fanouts between neighbouring samples, from few packets to many.
fn order_fanouts(samples: &Vec<TickSnapshot>) -> (ordered: Vec<Fanout>)
    ensures
        in_order(ordered@),
        ordered@.to_multiset() == fanouts(samples@).to_multiset(),
{
    let mut ordered: Vec<Fanout> = Vec::new();
    if samples.len() < 2 {
        assert(ordered@ =~= fanouts(samples@));
        return ordered;
    }
    let mut i: usize = 1;
    assert(samples@.take(1).len() == 1);
    assert(ordered@ =~= fanouts(samples@.take(1)));
    while i < samples.len()
        invariant
            1 <= i <= samples@.len(),
            in_order(ordered@),
            ordered@.to_multiset() == fanouts(samples@.take(i as int)).to_multiset(),
        decreases samples@.len() - i,
    {
        let (from, to) = (&samples[i - 1], &samples[i]);
        let dirty_ticks: u64 = to.dirty_ticks_total.saturating_sub(from.dirty_ticks_total);
        let ghost known = fanouts(samples@.take(i as int));
        proof {
            let seen = samples@.take(i + 1);
            assert(seen.drop_last() =~= samples@.take(i as int));
            assert(seen[seen.len() - 2] == *from && seen.last() == *to);
        }
        if dirty_ticks > 0 {
            let packets: u64 = to.packets_sent_total.saturating_sub(from.packets_sent_total);
            let fanout = Fanout { packets, dirty_ticks };
            insert_ordered(&mut ordered, fanout);
            proof {
                assert(fanouts(samples@.take(i + 1)) == known.push(fanout));
                vstd::seq_lib::to_multiset_build(known, fanout);
            }
        }
        i = i + 1;
    }
    assert(samples@.take(i as int) =~= samples@);
    ordered
}

fn pick(ordered: &Vec<Fanout>, numerator: u64, denominator: u64) -> (q: Option<Fanout>)
    requires
        0 < denominator,
        numerator <= denominator,
    ensures
        q == if ordered@.len() == 0 {
            None
        } else {
            Some(
                ordered@[quantile_rank(
                    ordered@.len(),
                    numerator as nat,
                    denominator as nat,
                ) as int],
            )
        },
{
    if ordered.len() == 0 {
        return None;
    }
    let len: u128 = ordered.len() as u128;
    proof {
        let l = len as int;
        let n = numerator as int;
        assert(0 <= l * n <= u64::MAX * u64::MAX) by (nonlinear_arith)
            requires
                0 <= l <= u64::MAX,
                0 <= n <= u64::MAX,
        ;
    }
    let place: u128 = (len * numerator as u128) / denominator as u128;
    let rank: usize = if place < len { place as usize } else { ordered.len() - 1 };
    Some(ordered[rank])
}

/// The median of the fanouts between neighbouring samples, and the one that all
/// but one in twenty keep to. None if no tick had anything to send.
pub fn effective_fanout_quantiles(samples: &Vec<TickSnapshot>) -> (quantiles: (
    Option<Fanout>,
    Option<Fanout>,
))
    ensures
        is_fanout_quantile(fanouts(samples@), 1, 2, quantiles.0),
        is_fanout_quantile(fanouts(samples@), 19, 20, quantiles.1),
{
    let ordered = order_fanouts(samples);
    assert(in_order(ordered@));
    (pick(&ordered, 1, 2), pick(&ordered, 19, 20))
}

} // verus!
