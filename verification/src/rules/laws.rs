//! What keys tell apart, and what rates come to.

use super::{
    at_least_one, buckets_in, descriptor_input, descriptors_input, domain_input, key_input,
    period_of, rate_mark, rate_of, resolved, rule_input, RateResolveError, RuleId,
};
use crate::bytes::{le, lemma_le_injective, lemma_le_len, lemma_pow256_values};
use crate::text::{decimal_u64, pair_at};
use crate::time::Duration;
use vstd::prelude::*;
use vstd::utf8::encode_utf8;

verus! {

// -- keys -------------------------------------------------------------------

/// Whether a text is written without the bytes that keep texts apart.
pub open spec fn plain(text: Seq<char>) -> bool {
    !encode_utf8(text).contains(0u8) && !encode_utf8(text).contains(0xffu8)
}

/// Whether all keys and values are.
pub open spec fn all_plain(pairs: Seq<(Seq<char>, Seq<char>)>) -> bool {
    forall|i: int| 0 <= i < pairs.len() ==> plain((#[trigger] pairs[i]).0) && plain(pairs[i].1)
}

proof fn lemma_texts_differ(a: Seq<char>, b: Seq<char>)
    requires
        encode_utf8(a) == encode_utf8(b),
    ensures
        a == b,
{
    vstd::utf8::encode_utf8_decode_utf8(a);
    vstd::utf8::encode_utf8_decode_utf8(b);
}

/// What stands before the first mark is the same if the whole is.
proof fn lemma_cut(a: Seq<u8>, x: Seq<u8>, b: Seq<u8>, y: Seq<u8>, mark: u8)
    requires
        !a.contains(mark),
        !b.contains(mark),
        a + seq![mark] + x == b + seq![mark] + y,
    ensures
        a == b,
        x == y,
{
    let whole = a + seq![mark] + x;
    let other = b + seq![mark] + y;
    assert(whole[a.len() as int] == mark);
    assert(other[b.len() as int] == mark);
    if a.len() < b.len() {
        assert(other[a.len() as int] == b[a.len() as int]);
        assert(b.contains(mark));
    }
    if b.len() < a.len() {
        assert(whole[b.len() as int] == a[b.len() as int]);
        assert(a.contains(mark));
    }
    assert(a =~= whole.take(a.len() as int));
    assert(b =~= other.take(b.len() as int));
    assert(x =~= whole.skip(a.len() as int + 1));
    assert(y =~= other.skip(b.len() as int + 1));
}

proof fn lemma_pairs_unroll(pairs: Seq<(Seq<char>, Seq<char>)>)
    requires
        pairs.len() > 0,
    ensures
        descriptors_input(pairs) == descriptor_input(pairs[0].0, pairs[0].1) + descriptors_input(
            pairs.skip(1),
        ),
    decreases pairs.len(),
{
    if pairs.len() == 1 {
        assert(pairs.drop_last() =~= Seq::empty());
        assert(pairs.skip(1) =~= Seq::empty());
        reveal_with_fuel(descriptors_input, 2);
        assert(descriptors_input(pairs) =~= descriptor_input(pairs[0].0, pairs[0].1)
            + descriptors_input(pairs.skip(1)));
    } else {
        lemma_pairs_unroll(pairs.drop_last());
        assert(pairs.drop_last().skip(1) =~= pairs.skip(1).drop_last());
        assert(descriptors_input(pairs) =~= descriptor_input(pairs[0].0, pairs[0].1)
            + descriptors_input(pairs.skip(1)));
    }
}

proof fn lemma_pairs_apart(
    a: Seq<(Seq<char>, Seq<char>)>,
    b: Seq<(Seq<char>, Seq<char>)>,
)
    requires
        all_plain(a),
        all_plain(b),
        descriptors_input(a) == descriptors_input(b),
    ensures
        a == b,
    decreases a.len() + b.len(),
{
    if a.len() > 0 {
        lemma_pairs_unroll(a);
        assert(descriptors_input(a).len() > 0);
    }
    if b.len() > 0 {
        lemma_pairs_unroll(b);
        assert(descriptors_input(b).len() > 0);
    }
    if a.len() > 0 && b.len() > 0 {
        let (ak, av) = (encode_utf8(a[0].0), encode_utf8(a[0].1));
        let (bk, bv) = (encode_utf8(b[0].0), encode_utf8(b[0].1));
        let ar = descriptors_input(a.skip(1));
        let br = descriptors_input(b.skip(1));
        let ax = av + seq![0xffu8] + ar;
        let bx = bv + seq![0xffu8] + br;
        assert(descriptors_input(a) =~= ak + seq![0u8] + ax);
        assert(descriptors_input(b) =~= bk + seq![0u8] + bx);
        lemma_cut(ak, ax, bk, bx, 0u8);
        lemma_cut(av, ar, bv, br, 0xffu8);
        lemma_texts_differ(a[0].0, b[0].0);
        lemma_texts_differ(a[0].1, b[0].1);
        assert forall|i: int| 0 <= i < a.skip(1).len() implies plain(
            (#[trigger] a.skip(1)[i]).0,
        ) && plain(a.skip(1)[i].1) by {
            assert(a.skip(1)[i] == a[i + 1]);
        }
        assert forall|i: int| 0 <= i < b.skip(1).len() implies plain(
            (#[trigger] b.skip(1)[i]).0,
        ) && plain(b.skip(1)[i].1) by {
            assert(b.skip(1)[i] == b[i + 1]);
        }
        lemma_pairs_apart(a.skip(1), b.skip(1));
        assert(a =~= seq![a[0]] + a.skip(1));
        assert(b =~= seq![b[0]] + b.skip(1));
    } else {
        assert(a =~= b);
    }
}

/// A key tells everything apart that a request is counted by: its rule, its
/// domain, and each of its keys and values. What is hashed for two requests is the
/// same only if all of these are.
pub proof fn lemma_keys_apart(
    rule_a: RuleId,
    domain_a: Seq<char>,
    pairs_a: Seq<(Seq<char>, Seq<char>)>,
    rule_b: RuleId,
    domain_b: Seq<char>,
    pairs_b: Seq<(Seq<char>, Seq<char>)>,
)
    requires
        plain(domain_a),
        plain(domain_b),
        all_plain(pairs_a),
        all_plain(pairs_b),
        key_input(rule_a, domain_a, pairs_a) == key_input(rule_b, domain_b, pairs_b),
    ensures
        rule_a == rule_b,
        domain_a == domain_b,
        pairs_a == pairs_b,
{
    let head = encode_utf8("gabion.key.v1"@) + seq![0u8];
    let n = head.len() as int;
    let whole = key_input(rule_a, domain_a, pairs_a);
    let other = key_input(rule_b, domain_b, pairs_b);
    lemma_le_len(rule_a as nat, 8);
    lemma_le_len(rule_b as nat, 8);
    let ax = encode_utf8(domain_a) + seq![0u8] + descriptors_input(pairs_a);
    let bx = encode_utf8(domain_b) + seq![0u8] + descriptors_input(pairs_b);
    assert(whole =~= head + le(rule_a as nat, 8) + ax);
    assert(other =~= head + le(rule_b as nat, 8) + bx);
    assert(whole.subrange(n, n + 8) =~= le(rule_a as nat, 8));
    assert(other.subrange(n, n + 8) =~= le(rule_b as nat, 8));
    lemma_pow256_values();
    lemma_le_injective(rule_a as nat, rule_b as nat, 8);
    assert(whole.skip(n + 8) =~= ax);
    assert(other.skip(n + 8) =~= bx);
    lemma_cut(
        encode_utf8(domain_a),
        descriptors_input(pairs_a),
        encode_utf8(domain_b),
        descriptors_input(pairs_b),
        0u8,
    );
    lemma_texts_differ(domain_a, domain_b);
    lemma_pairs_apart(pairs_a, pairs_b);
}

/// A fingerprint tells rules apart by domain, keys and values.
pub proof fn lemma_fingerprints_apart(
    domain_a: Seq<char>,
    pairs_a: Seq<(Seq<char>, Seq<char>)>,
    domain_b: Seq<char>,
    pairs_b: Seq<(Seq<char>, Seq<char>)>,
)
    requires
        plain(domain_a),
        plain(domain_b),
        all_plain(pairs_a),
        all_plain(pairs_b),
        rule_input(domain_a, pairs_a) == rule_input(domain_b, pairs_b),
    ensures
        domain_a == domain_b,
        pairs_a == pairs_b,
{
    let head = encode_utf8("gabion.rule.v1"@) + seq![0u8];
    let n = head.len() as int;
    let whole = rule_input(domain_a, pairs_a);
    let other = rule_input(domain_b, pairs_b);
    let ax = encode_utf8(domain_a) + seq![0u8] + descriptors_input(pairs_a);
    let bx = encode_utf8(domain_b) + seq![0u8] + descriptors_input(pairs_b);
    assert(whole =~= head + ax);
    assert(other =~= head + bx);
    assert(whole.skip(n) =~= ax);
    assert(other.skip(n) =~= bx);
    lemma_cut(
        encode_utf8(domain_a),
        descriptors_input(pairs_a),
        encode_utf8(domain_b),
        descriptors_input(pairs_b),
        0u8,
    );
    lemma_texts_differ(domain_a, domain_b);
    lemma_pairs_apart(pairs_a, pairs_b);
}

/// What is hashed for two domains is the same only if they are.
pub proof fn lemma_domains_apart(a: Seq<char>, b: Seq<char>)
    requires
        domain_input(a) == domain_input(b),
    ensures
        a == b,
{
    let head = encode_utf8("gabion.domain.v1"@) + seq![0u8];
    assert(domain_input(a).skip(head.len() as int) =~= encode_utf8(a));
    assert(domain_input(b).skip(head.len() as int) =~= encode_utf8(b));
    lemma_texts_differ(a, b);
}

// -- windows ----------------------------------------------------------------

/// A rule has as many buckets as cover its window, and not one more.
pub proof fn lemma_buckets_cover(window_millis: u64, bucket_millis: u64)
    requires
        window_millis > 0,
        bucket_millis > 0,
    ensures
        buckets_in(window_millis, bucket_millis) >= 1,
        buckets_in(window_millis, bucket_millis) * bucket_millis >= window_millis,
        (buckets_in(window_millis, bucket_millis) - 1) * bucket_millis < window_millis,
{
    let w = window_millis as int;
    let b = bucket_millis as int;
    let whole = w / b;
    let left = w % b;
    vstd::arithmetic::div_mod::lemma_fundamental_div_mod(w, b);
    vstd::arithmetic::div_mod::lemma_mod_bound(w, b);
    assert(b * whole == whole * b) by (nonlinear_arith);
    assert(0 <= whole && whole <= whole * b) by (nonlinear_arith)
        requires
            whole == w / b,
            b >= 1,
            w > 0,
    ;
    if left != 0 {
        assert((whole + 1) * b == whole * b + b) by (nonlinear_arith);
        assert((whole + 1 - 1) * b == whole * b);
    } else {
        assert((whole - 1) * b == whole * b - b) by (nonlinear_arith);
        assert(whole >= 1) by (nonlinear_arith)
            requires
                whole * b == w,
                w > 0,
                b > 0,
        ;
    }
}

// -- rates ------------------------------------------------------------------

/// A rate resolves to a limit that allows as many per window as the rate does per
/// period, in whole milliseconds and rounded down, and to the window and bucket it
/// was given; without a bucket, that is the window. It is refused exactly where it
/// says nothing of use: no window, one shorter than the period, no bucket, or a
/// limit that 64 bits do not hold.
pub proof fn lemma_rate_resolves(
    rate_count: u64,
    period: Duration,
    window: Duration,
    bucket: Option<Duration>,
)
    requires
        period.total_nanos() >= 1_000_000,
        window.total_nanos() / 1_000_000 <= u64::MAX,
        period.total_nanos() / 1_000_000 <= u64::MAX,
        bucket matches Some(b) ==> b.total_nanos() / 1_000_000 <= u64::MAX,
    ensures
        ({
            let window_millis = window.total_nanos() / 1_000_000;
            let period_millis = period.total_nanos() / 1_000_000;
            match resolved(rate_count, period, Some(window), bucket) {
                Ok(rate) => {
                    &&& window.total_nanos() >= period.total_nanos()
                    &&& bucket matches Some(b) ==> b.total_nanos() > 0
                    &&& rate.window_millis == window_millis
                    &&& rate.bucket_millis == match bucket {
                        Some(b) => b.total_nanos() / 1_000_000,
                        None => window_millis,
                    }
                    &&& rate.limit * period_millis <= rate_count * window_millis
                    &&& rate_count * window_millis < (rate.limit + 1) * period_millis
                },
                Err(RateResolveError::ZeroWindow) => window.total_nanos() == 0,
                Err(RateResolveError::WindowShorterThanPeriod) => 0 < window.total_nanos()
                    < period.total_nanos(),
                Err(RateResolveError::ZeroBucket) => bucket matches Some(b) && b.total_nanos() == 0
                    && window.total_nanos() >= period.total_nanos(),
                Err(RateResolveError::LimitOverflow) => rate_count * window_millis > u64::MAX
                    && window.total_nanos() >= period.total_nanos(),
            }
        }),
        resolved(rate_count, period, None, bucket) == resolved(
            rate_count,
            period,
            Some(period),
            bucket,
        ),
{
    let product = rate_count * (window.total_nanos() / 1_000_000);
    let pm = (period.total_nanos() / 1_000_000) as int;
    assert(pm >= 1);
    let limit = product / pm;
    assert(0 <= limit <= product && limit * pm <= product < (limit + 1) * pm)
        by (nonlinear_arith)
        requires
            limit == product / pm,
            pm >= 1,
            product >= 0,
    ;
}

/// A rate is what stands before its mark, per what stands behind it. The units of
/// one letter are a second, a minute, an hour and a day.
pub proof fn lemma_rate_reads(digits: Seq<char>, count: u64, unit: char)
    requires
        decimal_u64(digits) == Some(count),
        count > 0,
        unit == 's' || unit == 'm' || unit == 'h' || unit == 'd',
    ensures
        rate_of(digits + seq!['r', '/', unit]) == Ok::<(u64, Duration), Seq<char>>(
            (
                count,
                Duration {
                    secs: if unit == 's' {
                        1
                    } else if unit == 'm' {
                        60
                    } else if unit == 'h' {
                        3_600
                    } else {
                        86_400
                    },
                    nanos: 0,
                },
            ),
        ),
{
    let text = digits + seq!['r', '/', unit];
    let n = digits.len() as int;
    assert(pair_at(text, n, 'r', '/'));
    assert forall|j: int| 0 <= j < n implies !#[trigger] pair_at(text, j, 'r', '/') by {
        if pair_at(text, j, 'r', '/') {
            assert(digits[j] == 'r');
            let rest = if digits.len() > 0 && digits[0] == '+' {
                digits.skip(1)
            } else {
                digits
            };
            if digits[0] == '+' {
                assert(rest[j - 1] == 'r');
            } else {
                assert(rest[j] == 'r');
            }
        }
    }
    let mark = rate_mark(text)->0;
    assert(mark == n) by {
        if mark < n {
            assert(!pair_at(text, mark, 'r', '/'));
        }
        if n < mark {
            assert(!pair_at(text, n, 'r', '/'));
        }
    }
    assert(text.take(n) =~= digits);
    assert(text.skip(n + 2) =~= seq![unit]);
    lemma_units_of_one_letter(unit);
}

proof fn lemma_units_of_one_letter(unit: char)
    requires
        unit == 's' || unit == 'm' || unit == 'h' || unit == 'd',
    ensures
        period_of(seq![unit]) == Some(
            Duration {
                secs: if unit == 's' {
                    1
                } else if unit == 'm' {
                    60
                } else if unit == 'h' {
                    3_600
                } else {
                    86_400
                },
                nanos: 0,
            },
        ),
{
    reveal_strlit("s");
    reveal_strlit("m");
    reveal_strlit("h");
    reveal_strlit("d");
    assert(seq![unit][0] == unit);
    assert("s"@[0] == 's' && "m"@[0] == 'm' && "h"@[0] == 'h' && "d"@[0] == 'd');
    if unit == 's' {
        assert(seq![unit] =~= "s"@);
    } else if unit == 'm' {
        assert(seq![unit] =~= "m"@);
    } else if unit == 'h' {
        assert(seq![unit] =~= "h"@);
    } else {
        assert(seq![unit] =~= "d"@);
    }
}

/// A number that is missing or zero, or a period of no length, is no rate.
pub proof fn lemma_no_rate(text: Seq<char>, i: int)
    requires
        pair_at(text, i, 'r', '/'),
        forall|j: int| 0 <= j < i ==> !#[trigger] pair_at(text, j, 'r', '/'),
        decimal_u64(text.take(i)) is None || decimal_u64(text.take(i)) == Some(0u64) || (match
            period_of(text.skip(i + 2)) {
            None => true,
            Some(period) => period.secs == 0 && period.nanos == 0,
        }),
    ensures
        rate_of(text) is Err,
{
    let mark = rate_mark(text)->0;
    assert(mark == i) by {
        if mark < i {
            assert(!pair_at(text, mark, 'r', '/'));
        }
        if i < mark {
            assert(!pair_at(text, i, 'r', '/'));
        }
    }
}

/// Zero widths are read as one millisecond, and no others.
pub proof fn lemma_at_least_one(v: u64)
    ensures
        at_least_one(v) == vstd::math::max(v as int, 1),
{
}

} // verus!
