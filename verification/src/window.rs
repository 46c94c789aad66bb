//! Sliding-window arithmetic for rejected requests.
//!
//! A key's total is the sum of its counts over the last `live_buckets` buckets.
//! Bucket `b` ages out at `(b + live_buckets) * bucket_millis`. A rejected
//! request of weight `hits` would succeed at the first such time by which enough
//! hits have aged out.

use crate::crdt::BucketEpoch;
use vstd::prelude::*;

verus! {

pub open spec fn one_if_zero(v: int) -> int {
    if v == 0 {
        1
    } else {
        v
    }
}

/// How many hits must age out before the request fits.
pub open spec fn hits_in_excess(limit: u64, total: u64, hits: u64) -> int {
    let sum = if total + hits <= u64::MAX {
        total + hits
    } else {
        u64::MAX as int
    };
    if sum <= limit {
        0
    } else {
        sum - limit
    }
}

/// The bucket of a time. Bucket numbers are 32 bits wide.
pub open spec fn bucket_of(now_millis: u64, bucket_millis: u64) -> u32 {
    (now_millis as int / one_if_zero(bucket_millis as int)) as u32
}

/// The oldest bucket that still counts.
pub open spec fn oldest_bucket(now_millis: u64, bucket_millis: u64, live_buckets: u32) -> int {
    let current = bucket_of(now_millis, bucket_millis) as int;
    let span = one_if_zero(live_buckets as int) - 1;
    if current < span {
        0
    } else {
        current - span
    }
}

/// Milliseconds from `now_millis` until `bucket` ages out, zero if it has; the
/// time itself is capped at `u64::MAX`.
pub open spec fn until_aged_out(
    now_millis: u64,
    bucket_millis: u64,
    live_buckets: u32,
    bucket: int,
) -> int {
    let fall_off = (bucket + one_if_zero(live_buckets as int)) * one_if_zero(bucket_millis as int);
    let capped = if fall_off <= u64::MAX {
        fall_off
    } else {
        u64::MAX as int
    };
    if capped < now_millis {
        0
    } else {
        capped - now_millis
    }
}

/// Sum of counts.
pub open spec fn sum(counts: Seq<u64>) -> int
    decreases counts.len(),
{
    if counts.len() == 0 {
        0
    } else {
        sum(counts.drop_last()) + counts.last()
    }
}

/// Whether looking at exactly the counts `seen`, oldest bucket first, settles
/// how long `need` hits take to age out: either the last bucket looked at is the
/// first by which they have, or the whole window was looked at and they never
/// do.
pub open spec fn settled(seen: Seq<u64>, need: int, buckets: int) -> bool {
    &&& 1 <= seen.len() <= buckets
    &&& sum(seen.drop_last()) < need
    &&& sum(seen) >= need || seen.len() == buckets
}

/// Whether `count_for` can have given these counts, from bucket `oldest` on, and
/// they fall short of `need`.
pub open spec fn falls_short<F: Fn(BucketEpoch) -> u64>(
    count_for: F,
    oldest: int,
    seen: Seq<u64>,
    need: int,
) -> bool {
    &&& sum(seen) < need
    &&& forall|i: int|
        0 <= i < seen.len() ==> call_ensures(
            count_for,
            ((oldest + i) as u32,),
            #[trigger] seen[i],
        )
}

/// Whether there is a reason to ask for a bucket of the live window: hits are in
/// excess, and the counts of all older buckets of the window fall short of them.
pub open spec fn worth_asking<F: Fn(BucketEpoch) -> u64>(
    count_for: F,
    oldest: int,
    current: int,
    need: int,
    bucket: BucketEpoch,
) -> bool {
    &&& need > 0
    &&& oldest <= bucket <= current
    &&& exists|seen: Seq<u64>|
        seen.len() == bucket - oldest && #[trigger] falls_short(count_for, oldest, seen, need)
}

proof fn lemma_sum_nonnegative(counts: Seq<u64>)
    ensures
        0 <= sum(counts),
    decreases counts.len(),
{
    if counts.len() > 0 {
        lemma_sum_nonnegative(counts.drop_last());
    }
}

/// Milliseconds until a request of weight `hits` would be admitted, given the
/// current counts. `count_for` is asked for buckets of the live window only,
/// oldest first, and for none once enough hits have been found. Zero if the request fits already; the
/// time at which the newest bucket ages out if waiting for the counts it was
/// given would not be enough.
pub fn time_until_admit_millis<F: Fn(BucketEpoch) -> u64>(
    now_millis: u64,
    bucket_millis: u64,
    live_buckets: u32,
    limit: u64,
    total: u64,
    hits: u64,
    count_for: F,
) -> (delay: u64)
    requires
        forall|bucket: BucketEpoch|
            worth_asking(
                count_for,
                oldest_bucket(now_millis, bucket_millis, live_buckets),
                bucket_of(now_millis, bucket_millis) as int,
                hits_in_excess(limit, total, hits),
                bucket,
            ) ==> #[trigger] call_requires(count_for, (bucket,)),
    ensures
        ({
            let need = hits_in_excess(limit, total, hits);
            let current = bucket_of(now_millis, bucket_millis) as int;
            let oldest = oldest_bucket(now_millis, bucket_millis, live_buckets);
            if need == 0 {
                delay == 0
            } else {
                exists|seen: Seq<u64>|
                    #![trigger settled(seen, need, current - oldest + 1)]
                    {
                        &&& settled(seen, need, current - oldest + 1)
                        &&& forall|i: int|
                            0 <= i < seen.len() ==> call_ensures(
                                count_for,
                                ((oldest + i) as u32,),
                                #[trigger] seen[i],
                            )
                        &&& delay == until_aged_out(
                            now_millis,
                            bucket_millis,
                            live_buckets,
                            if sum(seen) >= need {
                                oldest + seen.len() - 1
                            } else {
                                current
                            },
                        )
                    }
            }
        }),
{
    let bm: u64 = if bucket_millis == 0 { 1 } else { bucket_millis };
    let live: u32 = if live_buckets == 0 { 1 } else { live_buckets };
    let need: u64 = total.saturating_add(hits).saturating_sub(limit);
    if need == 0 {
        return 0;
    }
    let current: u32 = #[verifier::truncate]
    ((now_millis / bm) as u32);
    let oldest: u32 = current.saturating_sub(live - 1);
    let ghost first = oldest_bucket(now_millis, bucket_millis, live_buckets);
    let ghost mut seen = Seq::<u64>::empty();
    let mut aged_off: u64 = 0;
    let mut bucket: u32 = oldest;
    loop
        invariant_except_break
            seen.len() == bucket - oldest,
            sum(seen) < need,
            aged_off == sum(seen),
            forall|i: int|
                0 <= i < seen.len() ==> call_ensures(
                    count_for,
                    ((first + i) as u32,),
                    #[trigger] seen[i],
                ),
        invariant
            forall|b: BucketEpoch|
                worth_asking(
                    count_for,
                    oldest_bucket(now_millis, bucket_millis, live_buckets),
                    bucket_of(now_millis, bucket_millis) as int,
                    hits_in_excess(limit, total, hits),
                    b,
                ) ==> #[trigger] call_requires(count_for, (b,)),
            bm == one_if_zero(bucket_millis as int),
            live == one_if_zero(live_buckets as int),
            need == hits_in_excess(limit, total, hits),
            need > 0,
            current == bucket_of(now_millis, bucket_millis),
            oldest == first,
            first == oldest_bucket(now_millis, bucket_millis, live_buckets),
            oldest <= bucket <= current,
        ensures
            bucket == current,
            seen.len() == current - oldest + 1,
            sum(seen) < need,
            sum(seen.drop_last()) < need,
            forall|i: int|
                0 <= i < seen.len() ==> call_ensures(
                    count_for,
                    ((first + i) as u32,),
                    #[trigger] seen[i],
                ),
        decreases current - bucket,
    {
        assert(falls_short(count_for, first, seen, need as int));
        let count: u64 = count_for(bucket);
        let ghost before = seen;
        proof {
            seen = seen.push(count);
            assert(seen.drop_last() =~= before);
            lemma_sum_nonnegative(before);
        }
        aged_off = aged_off.saturating_add(count);
        if aged_off >= need {
            assert(settled(seen, need as int, current - oldest + 1));
            return delay_until(now_millis, bm, live, bucket);
        }
        if bucket == current {
            break;
        }
        bucket = bucket + 1;
    }
    assert(settled(seen, need as int, current - oldest + 1));
    delay_until(now_millis, bm, live, current)
}

fn delay_until(now_millis: u64, bucket_millis: u64, live_buckets: u32, bucket: u32) -> (delay: u64)
    requires
        bucket_millis >= 1,
        live_buckets >= 1,
    ensures
        delay == until_aged_out(now_millis, bucket_millis, live_buckets, bucket as int),
{
    let end: u64 = bucket as u64 + live_buckets as u64;
    let fall_off: u64 = match end.checked_mul(bucket_millis) {
        Some(t) => t,
        None => u64::MAX,
    };
    fall_off.saturating_sub(now_millis)
}

/// Waiting is enough and no longer than needed: once the buckets looked at have
/// aged out the request fits, and with any of them still counting it does not.
/// `total` may count more than the buckets show, but not overflow with `hits`.
pub proof fn lemma_wait_is_least(
    seen: Seq<u64>,
    limit: u64,
    total: u64,
    hits: u64,
    buckets: int,
)
    requires
        total + hits <= u64::MAX,
        hits_in_excess(limit, total, hits) > 0,
        settled(seen, hits_in_excess(limit, total, hits), buckets),
        sum(seen) >= hits_in_excess(limit, total, hits),
    ensures
        total - sum(seen) + hits <= limit,
        total - sum(seen.drop_last()) + hits > limit,
{
}

/// Milliseconds until the next bucket begins: a whole bucket if one begins now.
/// A zero width is read as one millisecond.
pub fn time_until_next_bucket_boundary_millis(now_millis: u64, bucket_millis: u64) -> (delay: u64)
    ensures
        delay == one_if_zero(bucket_millis as int) - now_millis as int % one_if_zero(
            bucket_millis as int,
        ),
        1 <= delay,
        (now_millis + delay) % one_if_zero(bucket_millis as int) == 0,
{
    let bm: u64 = if bucket_millis == 0 { 1 } else { bucket_millis };
    proof {
        let m = bm as int;
        let n = now_millis as int;
        vstd::arithmetic::div_mod::lemma_fundamental_div_mod(n, m);
        vstd::arithmetic::div_mod::lemma_mod_multiples_basic(n / m + 1, m);
        assert(n + (m - n % m) == (n / m + 1) * m) by (nonlinear_arith)
            requires
                n == m * (n / m) + n % m,
        ;
    }
    bm - now_millis % bm
}

/// `Retry-After` in seconds, rounded up and at least one, so that a client
/// which waits that long is not early.
pub fn retry_after_seconds(delta_millis: u64) -> (seconds: u64)
    ensures
        seconds >= 1,
        seconds * 1000 >= delta_millis,
        seconds > 1 ==> (seconds - 1) * 1000 < delta_millis,
{
    let whole: u64 = delta_millis / 1_000;
    let seconds: u64 = if delta_millis % 1_000 == 0 { whole } else { whole + 1 };
    if seconds == 0 {
        1
    } else {
        seconds
    }
}

/// `X-RateLimit-Reset` in unix seconds: the current second plus the
/// `Retry-After` of the same delay, capped at `u64::MAX`.
pub fn reset_unix_seconds(now_millis: u64, delta_millis: u64) -> (seconds: u64)
    ensures
        exists|wait: u64|
            #![trigger wait * 1000]
            {
                &&& wait >= 1
                &&& wait * 1000 >= delta_millis
                &&& wait > 1 ==> (wait - 1) * 1000 < delta_millis
                &&& seconds == if now_millis / 1000 + wait <= u64::MAX {
                    now_millis / 1000 + wait
                } else {
                    u64::MAX as int
                }
            },
{
    let wait: u64 = retry_after_seconds(delta_millis);
    assert(wait * 1000 >= delta_millis);
    (now_millis / 1_000).saturating_add(wait)
}

/// `X-RateLimit-Remaining`: what is left of the limit, never below zero.
pub fn limit_remaining(limit: u64, total: u64) -> (remaining: u64)
    ensures
        remaining == if total <= limit {
            limit - total
        } else {
            0
        },
{
    limit.saturating_sub(total)
}

// -- laws -------------------------------------------------------------------

/// What is in excess is exactly what must go for the request to fit; nothing is
/// if it fits.
pub proof fn lemma_excess_is_what_must_go(limit: u64, total: u64, hits: u64)
    requires
        total + hits <= u64::MAX,
    ensures
        total + hits <= limit ==> hits_in_excess(limit, total, hits) == 0,
        total + hits > limit ==> total + hits - hits_in_excess(limit, total, hits) == limit,
{
}

/// A moment lies in its bucket, and the buckets that count then are as many as
/// are live, up to that one. Bucket numbers must still fit their 32 bits.
pub proof fn lemma_live_window(now_millis: u64, bucket_millis: u64, live_buckets: u32)
    requires
        bucket_millis > 0,
        live_buckets > 0,
        now_millis / bucket_millis <= u32::MAX,
    ensures
        ({
            let current = bucket_of(now_millis, bucket_millis);
            let oldest = oldest_bucket(now_millis, bucket_millis, live_buckets);
            &&& current * bucket_millis <= now_millis < (current + 1) * bucket_millis
            &&& 0 <= oldest <= current
            &&& current + 1 >= live_buckets ==> current - oldest + 1 == live_buckets
            &&& current + 1 < live_buckets ==> oldest == 0
        }),
{
    let n = now_millis as int;
    let b = bucket_millis as int;
    let q = n / b;
    assert(q * b <= n < (q + 1) * b) by (nonlinear_arith)
        requires
            q == n / b,
            b > 0,
            n >= 0,
    ;
}

/// Waiting until a bucket ages out is waiting until it no longer counts, and no
/// longer: it counts at every moment before, and at none from then on. Bucket
/// numbers must still fit their 32 bits.
pub proof fn lemma_wait_until_aged_out(
    now_millis: u64,
    bucket_millis: u64,
    live_buckets: u32,
    bucket: u32,
    at: u64,
)
    requires
        bucket_millis > 0,
        live_buckets > 0,
        now_millis <= at < u64::MAX,
        at / bucket_millis <= u32::MAX,
        bucket <= now_millis / bucket_millis,
    ensures
        bucket < oldest_bucket(at, bucket_millis, live_buckets) <==> at >= now_millis
            + until_aged_out(now_millis, bucket_millis, live_buckets, bucket as int),
{
    let n = at as int;
    let b = bucket_millis as int;
    let live = live_buckets as int;
    let k = bucket as int;
    assert((k + live) * b <= n <==> k + live <= n / b) by (nonlinear_arith)
        requires
            b > 0,
            n >= 0,
    ;
}

proof fn lemma_sum_folds(counts: Seq<u64>)
    ensures
        sum(counts) == counts.fold_left(0int, |a: int, c: u64| a + c),
    decreases counts.len(),
{
    if counts.len() > 0 {
        lemma_sum_folds(counts.drop_last());
    }
}

/// The wait for counts that settle it is the least: by then the buckets that no
/// longer count held enough for the request to fit, and those that no longer
/// count at any moment before did not.
pub proof fn lemma_admitted_at_last(
    seen: Seq<u64>,
    limit: u64,
    total: u64,
    hits: u64,
    buckets: int,
    gone: int,
)
    requires
        total + hits <= u64::MAX,
        total + hits > limit,
        settled(seen, hits_in_excess(limit, total, hits), buckets),
        0 <= gone <= seen.len(),
    ensures
        ({
            let aged = seen.take(gone).fold_left(0int, |a: int, c: u64| a + c);
            &&& gone < seen.len() ==> total - aged + hits > limit
            &&& gone == seen.len() && gone < buckets ==> total - aged + hits <= limit
        }),
{
    lemma_sum_folds(seen.take(gone));
    if gone < seen.len() {
        lemma_sum_grows(seen.drop_last(), gone);
        assert(seen.drop_last().take(gone) =~= seen.take(gone));
    } else {
        assert(seen.take(gone) =~= seen);
    }
}

proof fn lemma_sum_grows(counts: Seq<u64>, n: int)
    requires
        0 <= n <= counts.len(),
    ensures
        sum(counts.take(n)) <= sum(counts),
    decreases counts.len(),
{
    if n < counts.len() {
        lemma_sum_grows(counts.drop_last(), n);
        assert(counts.drop_last().take(n) =~= counts.take(n));
    } else {
        assert(counts.take(n) =~= counts);
    }
}

/// Sums that do not fit are the largest that does, and widths and windows of zero
/// are read as one.
pub proof fn lemma_window_extremes(limit: u64, total: u64, hits: u64, now_millis: u64, bucket: int)
    ensures
        total + hits > u64::MAX ==> hits_in_excess(limit, total, hits) == u64::MAX - limit,
        bucket_of(now_millis, 0) == bucket_of(now_millis, 1),
        forall|width: u64| #[trigger]
            oldest_bucket(now_millis, width, 0) == oldest_bucket(now_millis, width, 1),
        forall|live: u32| #[trigger]
            oldest_bucket(now_millis, 0, live) == oldest_bucket(now_millis, 1, live),
        forall|width: u64| #[trigger]
            until_aged_out(now_millis, width, 0, bucket) == until_aged_out(
                now_millis,
                width,
                1,
                bucket,
            ),
        forall|live: u32| #[trigger]
            until_aged_out(now_millis, 0, live, bucket) == until_aged_out(
                now_millis,
                1,
                live,
                bucket,
            ),
{
}

} // verus!
