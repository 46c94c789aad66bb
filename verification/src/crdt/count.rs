//! Counter widths. A cluster agrees on one width; the codec refuses frames
//! that declare another.

use crate::bytes::{lemma_pow256_values, pow256};
use vstd::prelude::*;

verus! {

/// An unsigned counter of a fixed byte width.
pub trait Count: Copy + Sized {
    /// Bytes the counter takes on the wire.
    spec fn width() -> nat;

    /// The number the counter holds.
    spec fn value(self) -> nat;

    /// The counter nearest to `v`: `v` itself, or the maximum.
    spec fn of(v: nat) -> Self;

    proof fn lemma_width()
        ensures
            1 <= Self::width() <= 8,
    ;

    proof fn lemma_value(self)
        ensures
            self.value() < pow256(Self::width()),
            self.value() <= u64::MAX,
            Self::of(self.value()) == self,
    ;

    proof fn lemma_of(v: nat)
        ensures
            Self::of(v).value() == if v < pow256(Self::width()) {
                v
            } else {
                (pow256(Self::width()) - 1) as nat
            },
    ;

    fn width_bytes() -> (w: usize)
        ensures
            w == Self::width(),
            1 <= w <= 8,
    ;

    fn get(self) -> (v: u64)
        ensures
            v as nat == self.value(),
    ;

    fn saturating_from_u64(v: u64) -> (c: Self)
        ensures
            c == Self::of(v as nat),
    ;
}

impl Count for u16 {
    open spec fn width() -> nat {
        2
    }

    open spec fn value(self) -> nat {
        self as nat
    }

    open spec fn of(v: nat) -> u16 {
        if v < 0x1_0000 {
            v as u16
        } else {
            u16::MAX
        }
    }

    proof fn lemma_width() {
    }

    proof fn lemma_value(self) {
        lemma_pow256_values();
    }

    proof fn lemma_of(v: nat) {
        lemma_pow256_values();
    }

    fn width_bytes() -> (w: usize) {
        2
    }

    fn get(self) -> (v: u64) {
        self as u64
    }

    fn saturating_from_u64(v: u64) -> (c: u16) {
        if v <= u16::MAX as u64 {
            v as u16
        } else {
            u16::MAX
        }
    }
}

impl Count for u32 {
    open spec fn width() -> nat {
        4
    }

    open spec fn value(self) -> nat {
        self as nat
    }

    open spec fn of(v: nat) -> u32 {
        if v < 0x1_0000_0000 {
            v as u32
        } else {
            u32::MAX
        }
    }

    proof fn lemma_width() {
    }

    proof fn lemma_value(self) {
        lemma_pow256_values();
    }

    proof fn lemma_of(v: nat) {
        lemma_pow256_values();
    }

    fn width_bytes() -> (w: usize) {
        4
    }

    fn get(self) -> (v: u64) {
        self as u64
    }

    fn saturating_from_u64(v: u64) -> (c: u32) {
        if v <= u32::MAX as u64 {
            v as u32
        } else {
            u32::MAX
        }
    }
}

impl Count for u64 {
    open spec fn width() -> nat {
        8
    }

    open spec fn value(self) -> nat {
        self as nat
    }

    open spec fn of(v: nat) -> u64 {
        if v < 0x1_0000_0000_0000_0000 {
            v as u64
        } else {
            u64::MAX
        }
    }

    proof fn lemma_width() {
    }

    proof fn lemma_value(self) {
        lemma_pow256_values();
    }

    proof fn lemma_of(v: nat) {
        lemma_pow256_values();
    }

    fn width_bytes() -> (w: usize) {
        8
    }

    fn get(self) -> (v: u64) {
        self
    }

    fn saturating_from_u64(v: u64) -> (c: u64) {
        v
    }
}

} // verus!
