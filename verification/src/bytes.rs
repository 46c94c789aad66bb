//! Little-endian integers as byte sequences.
//!
//! Every integer on the wire is fixed-width little-endian. [`le`] writes a
//! number, [`value`] reads one, and [`column`] lays equal-width numbers side by
//! side. The lemmas say that writing and reading undo each other.

use vstd::prelude::*;

verus! {

/// `256` to the `width`: one past the largest number `width` bytes can hold.
pub open spec fn pow256(width: nat) -> nat
    decreases width,
{
    if width == 0 {
        1
    } else {
        256 * pow256((width - 1) as nat)
    }
}

/// The `width` low bytes of `v`, least significant first.
pub open spec fn le(v: nat, width: nat) -> Seq<u8>
    decreases width,
{
    if width == 0 {
        Seq::empty()
    } else {
        seq![(v % 256) as u8] + le(v / 256, (width - 1) as nat)
    }
}

/// The number whose little-endian bytes are `s`.
pub open spec fn value(s: Seq<u8>) -> nat
    decreases s.len(),
{
    if s.len() == 0 {
        0
    } else {
        s[0] as nat + 256 * value(s.subrange(1, s.len() as int))
    }
}

/// The number stored in the `width` bytes of `s` that start at `at`.
pub open spec fn le_at(s: Seq<u8>, at: int, width: nat) -> nat {
    value(s.subrange(at, at + width))
}

/// Equal-width numbers side by side.
pub open spec fn column(vals: Seq<nat>, width: nat) -> Seq<u8>
    decreases vals.len(),
{
    if vals.len() == 0 {
        Seq::empty()
    } else {
        column(vals.drop_last(), width) + le(vals.last(), width)
    }
}

pub proof fn lemma_le_len(v: nat, width: nat)
    ensures
        le(v, width).len() == width,
    decreases width,
{
    if width > 0 {
        lemma_le_len(v / 256, (width - 1) as nat);
    }
}

/// Reading what was written gives the number back, if it fits.
pub proof fn lemma_value_of_le(v: nat, width: nat)
    requires
        v < pow256(width),
    ensures
        value(le(v, width)) == v,
    decreases width,
{
    if width > 0 {
        let rest = (width - 1) as nat;
        lemma_le_len(v / 256, rest);
        lemma_value_of_le(v / 256, rest);
        assert(le(v, width).subrange(1, width as int) =~= le(v / 256, rest));
    }
}

/// Writing what was read gives the bytes back.
pub proof fn lemma_le_of_value(s: Seq<u8>)
    ensures
        le(value(s), s.len()) == s,
        value(s) < pow256(s.len()),
    decreases s.len(),
{
    if s.len() > 0 {
        let rest = s.subrange(1, s.len() as int);
        lemma_le_of_value(rest);
        assert(value(s) == s[0] as nat + 256 * value(rest));
        assert(value(s) % 256 == s[0] as nat && value(s) / 256 == value(rest));
        assert(le(value(s), s.len()) =~= seq![s[0]] + le(value(rest), rest.len()));
        assert(seq![s[0]] + rest =~= s);
    }
}

/// Two numbers with the same `width` bytes are the same number.
pub proof fn lemma_le_injective(a: nat, b: nat, width: nat)
    requires
        a < pow256(width),
        b < pow256(width),
        le(a, width) == le(b, width),
    ensures
        a == b,
{
    lemma_value_of_le(a, width);
    lemma_value_of_le(b, width);
}

pub proof fn lemma_pow256_values()
    ensures
        pow256(1) == 0x100,
        pow256(2) == 0x1_0000,
        pow256(4) == 0x1_0000_0000,
        pow256(8) == 0x1_0000_0000_0000_0000,
        pow256(16) == 0x1_0000_0000_0000_0000_0000_0000_0000_0000,
{
    reveal_with_fuel(pow256, 17);
}

pub proof fn lemma_pow256_monotone(a: nat, b: nat)
    requires
        a <= b,
    ensures
        pow256(a) <= pow256(b),
    decreases b,
{
    if a < b {
        lemma_pow256_monotone(a, (b - 1) as nat);
    }
}

pub proof fn lemma_column_len(vals: Seq<nat>, width: nat)
    ensures
        column(vals, width).len() == vals.len() * width,
    decreases vals.len(),
{
    if vals.len() > 0 {
        lemma_column_len(vals.drop_last(), width);
        lemma_le_len(vals.last(), width);
        assert(vals.len() * width == (vals.len() - 1) * width + width) by (nonlinear_arith);
    } else {
        assert(0 * width == 0) by (nonlinear_arith);
    }
}

/// The bytes of a column between two entry boundaries are that entry.
pub proof fn lemma_column_entry(vals: Seq<nat>, width: nat, i: int)
    requires
        0 <= i < vals.len(),
    ensures
        0 <= i * width,
        i * width + width <= column(vals, width).len(),
        column(vals, width).subrange(i * width, i * width + width) == le(vals[i], width),
    decreases vals.len(),
{
    let head = column(vals.drop_last(), width);
    let last = le(vals.last(), width);
    lemma_column_len(vals, width);
    lemma_column_len(vals.drop_last(), width);
    lemma_le_len(vals.last(), width);
    assert(0 <= i * width) by (nonlinear_arith)
        requires
            0 <= i,
            0 <= width,
    ;
    assert(i * width + width <= vals.len() * width) by (nonlinear_arith)
        requires
            i + 1 <= vals.len(),
            0 <= width,
    ;
    if i == vals.len() - 1 {
        assert(column(vals, width).subrange(i * width, i * width + width) =~= last);
    } else {
        lemma_column_entry(vals.drop_last(), width, i);
        assert(column(vals, width).subrange(i * width, i * width + width) =~= head.subrange(
            i * width,
            i * width + width,
        ));
    }
}

/// Byte sections one after the other.
pub open spec fn joined(parts: Seq<Seq<u8>>) -> Seq<u8>
    decreases parts.len(),
{
    if parts.len() == 0 {
        Seq::empty()
    } else {
        joined(parts.drop_last()) + parts.last()
    }
}

/// Where section `k` starts in the joined bytes.
pub open spec fn start(parts: Seq<Seq<u8>>, k: int) -> int {
    joined(parts.take(k)).len() as int
}

pub proof fn lemma_joined_push(parts: Seq<Seq<u8>>, part: Seq<u8>)
    ensures
        joined(parts.push(part)) == joined(parts) + part,
{
    assert(parts.push(part).drop_last() =~= parts);
}

pub proof fn lemma_start_step(parts: Seq<Seq<u8>>, k: int)
    requires
        0 <= k < parts.len(),
    ensures
        start(parts, 0) == 0,
        start(parts, k + 1) == start(parts, k) + parts[k].len(),
        joined(parts.take(k + 1)) == joined(parts.take(k)) + parts[k],
{
    assert(parts.take(k + 1).drop_last() =~= parts.take(k));
    assert(parts.take(0) =~= Seq::<Seq<u8>>::empty());
}

pub proof fn lemma_start_end(parts: Seq<Seq<u8>>)
    ensures
        start(parts, parts.len() as int) == joined(parts).len(),
{
    assert(parts.take(parts.len() as int) =~= parts);
}

/// A window of a section is the same window of the joined bytes, moved by the
/// section's start.
pub proof fn lemma_joined_window(parts: Seq<Seq<u8>>, k: int, lo: int, hi: int)
    requires
        0 <= k < parts.len(),
        0 <= lo <= hi <= parts[k].len(),
    ensures
        0 <= start(parts, k),
        start(parts, k) + hi <= joined(parts).len(),
        joined(parts).subrange(start(parts, k) + lo, start(parts, k) + hi) == parts[k].subrange(
            lo,
            hi,
        ),
    decreases parts.len(),
{
    let head = joined(parts.drop_last());
    if k == parts.len() - 1 {
        assert(parts.take(k) =~= parts.drop_last());
        assert(joined(parts).subrange(head.len() + lo, head.len() + hi) =~= parts[k].subrange(
            lo,
            hi,
        ));
    } else {
        lemma_joined_window(parts.drop_last(), k, lo, hi);
        assert(parts.drop_last().take(k) =~= parts.take(k));
        let at = start(parts, k);
        assert(joined(parts).subrange(at + lo, at + hi) =~= head.subrange(at + lo, at + hi));
    }
}

/// A number written as a section of its own is read back at the section's
/// start.
pub proof fn lemma_joined_number(parts: Seq<Seq<u8>>, k: int, v: nat, width: nat)
    requires
        0 <= k < parts.len(),
        parts[k] == le(v, width),
        v < pow256(width),
    ensures
        0 <= start(parts, k),
        start(parts, k) + width <= joined(parts).len(),
        le_at(joined(parts), start(parts, k), width) == v,
{
    lemma_le_len(v, width);
    lemma_value_of_le(v, width);
    lemma_joined_window(parts, k, 0, width as int);
    assert(parts[k].subrange(0, width as int) =~= parts[k]);
}

/// Entry `i` of a column section is read back at its place.
pub proof fn lemma_joined_column(
    parts: Seq<Seq<u8>>,
    k: int,
    vals: Seq<nat>,
    width: nat,
    i: int,
)
    requires
        0 <= k < parts.len(),
        parts[k] == column(vals, width),
        0 <= i < vals.len(),
        vals[i] < pow256(width),
    ensures
        0 <= start(parts, k),
        0 <= i * width,
        start(parts, k) + i * width + width <= joined(parts).len(),
        le_at(joined(parts), start(parts, k) + i * width, width) == vals[i],
{
    lemma_column_entry(vals, width, i);
    lemma_value_of_le(vals[i], width);
    lemma_joined_window(parts, k, i * width, i * width + width);
}

/// A one-byte number is the byte.
pub proof fn lemma_le_at_byte(s: Seq<u8>, at: int)
    requires
        0 <= at < s.len(),
    ensures
        le_at(s, at, 1) == s[at] as nat,
{
    let one = s.subrange(at, at + 1);
    assert(one.subrange(1, 1).len() == 0);
    assert(value(one.subrange(1, 1)) == 0);
}

/// Appends the `width` low bytes of `v`.
pub fn push_le(out: &mut Vec<u8>, v: u128, width: usize)
    ensures
        final(out)@ == old(out)@ + le(v as nat, width as nat),
{
    let mut rest: u128 = v;
    let mut left: usize = width;
    assert(out@ + le(v as nat, width as nat) =~= old(out)@ + le(v as nat, width as nat));
    while left > 0
        invariant
            out@ + le(rest as nat, left as nat) == old(out)@ + le(v as nat, width as nat),
        decreases left,
    {
        let ghost before = out@;
        let ghost tail = le((rest / 256) as nat, (left - 1) as nat);
        out.push((rest % 256) as u8);
        proof {
            assert(le(rest as nat, left as nat) == seq![(rest as nat % 256) as u8] + le(
                rest as nat / 256,
                (left - 1) as nat,
            ));
            assert(out@ + tail =~= before + (seq![(rest % 256) as u8] + tail));
        }
        rest = rest / 256;
        left = left - 1;
    }
    assert(out@ + le(rest as nat, 0) =~= out@);
}

/// Reads the `width` bytes of `src` that start at `at`.
pub fn read_le(src: &[u8], at: usize, width: usize) -> (v: u128)
    requires
        width <= 16,
        at + width <= src@.len(),
    ensures
        v as nat == le_at(src@, at as int, width as nat),
        (v as nat) < pow256(width as nat),
{
    let end: usize = src.len();
    let mut v: u128 = 0;
    let mut left: usize = width;
    proof {
        lemma_le_of_value(src@.subrange(at as int, at + width));
        lemma_pow256_values();
        lemma_pow256_monotone(width as nat, 16);
        assert(src@.subrange(at + width, at + width).len() == 0);
    }
    while left > 0
        invariant
            left <= width <= 16,
            at + width <= end == src@.len(),
            v as nat == value(src@.subrange(at + left, at + width)),
        decreases left,
    {
        proof {
            let s = src@.subrange(at + left - 1, at + width);
            assert(s.subrange(1, s.len() as int) =~= src@.subrange(at + left, at + width));
            lemma_le_of_value(s);
            lemma_pow256_values();
            lemma_pow256_monotone(s.len(), 16);
            assert(s[0] == src@[at + left - 1]);
        }
        left = left - 1;
        v = v * 256 + src[at + left] as u128;
    }
    v
}

/// The 64 bits of a signed number in two's complement, as an unsigned one.
pub open spec fn signed_bits(v: i64) -> u64 {
    if v >= 0 {
        v as u64
    } else {
        (v + 0x1_0000_0000_0000_0000) as u64
    }
}

/// The signed number of 64 bits in two's complement.
pub open spec fn signed_of(bits: u64) -> i64 {
    if bits < 0x8000_0000_0000_0000 {
        bits as i64
    } else {
        (bits - 0x1_0000_0000_0000_0000) as i64
    }
}

pub proof fn lemma_signed_roundtrip(v: i64)
    ensures
        signed_of(signed_bits(v)) == v,
{
}

pub fn bits_of(v: i64) -> (bits: u64)
    ensures
        bits == signed_bits(v),
{
    if v >= 0 {
        v as u64
    } else {
        (v as i128 + 0x1_0000_0000_0000_0000) as u64
    }
}

pub fn of_bits(bits: u64) -> (v: i64)
    ensures
        v == signed_of(bits),
{
    if bits < 0x8000_0000_0000_0000 {
        bits as i64
    } else {
        (bits as i128 - 0x1_0000_0000_0000_0000) as i64
    }
}

// -- laws -------------------------------------------------------------------

/// The bytes of a number are its digits to the base 256, the least first.
pub proof fn lemma_le_digits(v: nat, width: nat, i: nat)
    requires
        i < width,
    ensures
        le(v, width).len() == width,
        le(v, width)[i as int] == (v as int / vstd::arithmetic::power::pow(256, i)) % 256,
    decreases width,
{
    lemma_le_len(v, width);
    let rest = (width - 1) as nat;
    lemma_le_len(v / 256, rest);
    if i == 0 {
        vstd::arithmetic::power::lemma_pow0(256);
    } else {
        let j = (i - 1) as nat;
        lemma_le_digits(v / 256, rest, j);
        assert(le(v, width)[i as int] == le(v / 256, rest)[j as int]);
        reveal(vstd::arithmetic::power::pow);
        vstd::arithmetic::power::lemma_pow_positive(256, j);
        vstd::arithmetic::div_mod::lemma_div_denominator(
            v as int,
            256,
            vstd::arithmetic::power::pow(256, j),
        );
    }
}

/// Sections stand one after the other, and so do the numbers of a column.
pub proof fn lemma_side_by_side(parts: Seq<Seq<u8>>, vals: Seq<nat>, width: nat)
    ensures
        joined(parts) == parts.flatten_alt(),
        column(vals, width) == vals.map_values(|v: nat| le(v, width)).flatten_alt(),
    decreases parts.len() + vals.len(),
{
    let f = |v: nat| le(v, width);
    if parts.len() > 0 {
        lemma_side_by_side(parts.drop_last(), vals, width);
    }
    if vals.len() > 0 {
        lemma_side_by_side(parts, vals.drop_last(), width);
        assert(vals.map_values(f).drop_last() =~= vals.drop_last().map_values(f));
    }
}

} // verus!
