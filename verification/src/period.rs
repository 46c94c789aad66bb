//! What a text of numbers and time units, like `1h 30m` or `2.5s`, comes to.
//!
//! Only the sum is found here, and only for texts that name a duration: it says
//! whether that duration fits 64 bits of seconds.

use crate::text::{all_digits, digits_value, is_digit, is_space, is_unit_letter, is_white};
use vstd::prelude::*;

verus! {

/// Nanoseconds in the first duration whose seconds do not fit 64 bits.
pub const SPAN_NANOS: u128 = 18_446_744_073_709_551_616_000_000_000;

/// The first number that does not fit 64 bits.
pub const NUMBER_CAP: u128 = 18_446_744_073_709_551_616;

pub const MILLISECOND: u128 = 1_000_000;

pub const SECOND: u128 = 1_000_000_000;

pub const MINUTE: u128 = 60_000_000_000;

/// 30.44 days.
pub const MONTH: u128 = 2_630_016_000_000_000;

/// 365.25 days.
pub const YEAR: u128 = 31_557_600_000_000_000;

/// Nanoseconds in the unit that a letter starts. An `m` stands for minutes
/// unless more letters follow.
pub open spec fn unit_nanos(c: char) -> u128 {
    if c == 'n' {
        1
    } else if c == 'u' || c as u32 == 0xb5 {
        1_000
    } else if c == 's' {
        SECOND
    } else if c == 'm' {
        MINUTE
    } else if c == 'h' {
        3_600_000_000_000
    } else if c == 'd' {
        86_400_000_000_000
    } else if c == 'w' {
        604_800_000_000_000
    } else if c == 'M' {
        MONTH
    } else if c == 'y' {
        YEAR
    } else {
        0
    }
}

fn nanos_of_unit(c: char) -> (nanos: u128)
    ensures
        nanos == unit_nanos(c),
{
    if c == 'n' {
        1
    } else if c == 'u' || c as u32 == 0xb5 {
        1_000
    } else if c == 's' {
        SECOND
    } else if c == 'm' {
        MINUTE
    } else if c == 'h' {
        3_600_000_000_000
    } else if c == 'd' {
        86_400_000_000_000
    } else if c == 'w' {
        604_800_000_000_000
    } else if c == 'M' {
        MONTH
    } else if c == 'y' {
        YEAR
    } else {
        0
    }
}

/// How far a text has been read.
#[derive(Clone, Copy, Debug, PartialEq, Eq, Structural)]
pub struct PeriodScan {
    /// What the numbers before this one come to, at most [`SPAN_NANOS`].
    pub done: u128,
    /// This number, at most [`NUMBER_CAP`].
    pub number: u128,
    /// What stands behind its point, as a fraction.
    pub numerator: u128,
    pub denominator: u128,
    /// Whether its point has been read.
    pub fraction: bool,
    /// Nanoseconds in its unit.
    pub weight: u128,
    /// Whether its unit has begun, and whether it still goes on.
    pub begun: bool,
    pub open: bool,
    /// Whether its unit is an `m` so far.
    pub lone_m: bool,
}

impl PeriodScan {
    pub open spec fn wf(self) -> bool {
        &&& self.done <= SPAN_NANOS
        &&& self.number <= NUMBER_CAP
        &&& self.numerator < self.denominator <= u64::MAX
        &&& self.weight <= YEAR
    }

    pub open spec fn spec_start() -> PeriodScan {
        PeriodScan {
            done: 0,
            number: 0,
            numerator: 0,
            denominator: 1,
            fraction: false,
            weight: 0,
            begun: false,
            open: false,
            lone_m: false,
        }
    }

    /// What has been read so far comes to, at most [`SPAN_NANOS`].
    pub open spec fn total(self) -> u128 {
        let sum = self.done + self.number * self.weight + (self.numerator * self.weight)
            / self.denominator as int;
        if sum < SPAN_NANOS {
            sum as u128
        } else {
            SPAN_NANOS
        }
    }

    /// One more digit. Behind a unit it starts the next number.
    pub open spec fn after_digit(self, digit: u128) -> PeriodScan {
        if self.begun {
            PeriodScan { done: self.total(), number: digit, ..PeriodScan::spec_start() }
        } else if self.fraction {
            if self.denominator * 10 > u64::MAX {
                self
            } else {
                PeriodScan {
                    numerator: (self.numerator * 10 + digit) as u128,
                    denominator: (self.denominator * 10) as u128,
                    ..self
                }
            }
        } else {
            let number = self.number * 10 + digit;
            PeriodScan {
                number: if number < NUMBER_CAP {
                    number as u128
                } else {
                    NUMBER_CAP
                },
                ..self
            }
        }
    }

    /// One more letter of a unit. The first tells most units apart; `ms`,
    /// `msec` and `millis` are milliseconds, and `mo` starts a month.
    pub open spec fn after_letter(self, c: char) -> PeriodScan {
        if !self.begun {
            PeriodScan {
                weight: unit_nanos(c),
                begun: true,
                open: true,
                lone_m: c == 'm',
                ..self
            }
        } else if !self.open {
            self
        } else if (self.lone_m && c == 's') || (self.weight == MINUTE && c == 'l') {
            PeriodScan { weight: MILLISECOND, lone_m: false, ..self }
        } else if self.lone_m && c == 'o' {
            PeriodScan { weight: MONTH, lone_m: false, ..self }
        } else {
            PeriodScan { lone_m: false, ..self }
        }
    }

    pub open spec fn after(self, c: char) -> PeriodScan {
        if is_digit(c) {
            self.after_digit((c as u32 - '0' as u32) as u128)
        } else if is_unit_letter(c) {
            self.after_letter(c)
        } else if c == '.' && !self.begun {
            PeriodScan { fraction: true, ..self }
        } else if is_space(c) && self.begun {
            PeriodScan { open: false, ..self }
        } else {
            self
        }
    }

    fn start() -> (scan: PeriodScan)
        ensures
            scan == PeriodScan::spec_start(),
            scan.wf(),
    {
        PeriodScan {
            done: 0,
            number: 0,
            numerator: 0,
            denominator: 1,
            fraction: false,
            weight: 0,
            begun: false,
            open: false,
            lone_m: false,
        }
    }

    fn sum(&self) -> (sum: u128)
        requires
            self.wf(),
        ensures
            sum == self.total(),
            sum <= SPAN_NANOS,
    {
        let (number, numerator, weight): (u128, u128, u128) = (
            self.number,
            self.numerator,
            self.weight,
        );
        assert(number * weight <= 18_446_744_073_709_551_616 * 31_557_600_000_000_000)
            by (nonlinear_arith)
            requires
                number <= 18_446_744_073_709_551_616,
                weight <= 31_557_600_000_000_000,
        ;
        assert(numerator * weight <= 18_446_744_073_709_551_616 * 31_557_600_000_000_000)
            by (nonlinear_arith)
            requires
                numerator <= 18_446_744_073_709_551_616,
                weight <= 31_557_600_000_000_000,
        ;
        let whole: u128 = number * weight;
        let product: u128 = numerator * weight;
        let part: u128 = product / self.denominator;
        proof {
            vstd::arithmetic::div_mod::lemma_div_is_ordered_by_denominator(
                product as int,
                1,
                self.denominator as int,
            );
            vstd::arithmetic::div_mod::lemma_div_basics(product as int);
        }
        let sum: u128 = self.done + whole + part;
        if sum < SPAN_NANOS {
            sum
        } else {
            SPAN_NANOS
        }
    }

    fn push_digit(&mut self, digit: u128)
        requires
            old(self).wf(),
            digit < 10,
        ensures
            final(self).wf(),
            *final(self) == old(self).after_digit(digit),
    {
        if self.begun {
            let done: u128 = self.sum();
            let mut next = PeriodScan::start();
            next.done = done;
            next.number = digit;
            *self = next;
        } else if self.fraction {
            if self.denominator * 10 <= u64::MAX as u128 {
                self.numerator = self.numerator * 10 + digit;
                self.denominator = self.denominator * 10;
            }
        } else {
            let number: u128 = self.number * 10 + digit;
            self.number = if number < NUMBER_CAP { number } else { NUMBER_CAP };
        }
    }

    fn push_letter(&mut self, c: char)
        requires
            old(self).wf(),
        ensures
            final(self).wf(),
            *final(self) == old(self).after_letter(c),
    {
        if !self.begun {
            self.weight = nanos_of_unit(c);
            self.begun = true;
            self.open = true;
            self.lone_m = c == 'm';
        } else if self.open {
            if (self.lone_m && c == 's') || (self.weight == MINUTE && c == 'l') {
                self.weight = MILLISECOND;
            } else if self.lone_m && c == 'o' {
                self.weight = MONTH;
            }
            self.lone_m = false;
        }
    }

    fn push(&mut self, c: char)
        requires
            old(self).wf(),
        ensures
            final(self).wf(),
            *final(self) == old(self).after(c),
    {
        if '0' <= c && c <= '9' {
            self.push_digit((c as u32 - '0' as u32) as u128);
        } else if ('a' <= c && c <= 'z') || ('A' <= c && c <= 'Z') || c as u32 == 0xb5 {
            self.push_letter(c);
        } else if c == '.' && !self.begun {
            self.fraction = true;
        } else if is_white(c) && self.begun {
            self.open = false;
        }
    }
}

pub open spec fn scanned(text: Seq<char>) -> PeriodScan
    decreases text.len(),
{
    if text.len() == 0 {
        PeriodScan::spec_start()
    } else {
        scanned(text.drop_last()).after(text.last())
    }
}

/// The nanoseconds that a text comes to, at most [`SPAN_NANOS`].
pub open spec fn period_nanos(text: Seq<char>) -> u128 {
    scanned(text).total()
}

/// The nanoseconds that a text comes to, at most [`SPAN_NANOS`].
pub fn measure_period(text: &str) -> (nanos: u128)
    ensures
        nanos == period_nanos(text@),
{
    let n: usize = text.unicode_len();
    let mut scan = PeriodScan::start();
    let mut i: usize = 0;
    assert(text@.take(0) =~= Seq::<char>::empty());
    while i < n
        invariant
            i <= n == text@.len(),
            scan.wf(),
            scan == scanned(text@.take(i as int)),
        decreases n - i,
    {
        assert(text@.take(i + 1).drop_last() =~= text@.take(i as int));
        scan.push(text.get_char(i));
        i = i + 1;
    }
    assert(text@.take(n as int) =~= text@);
    scan.sum()
}

/// A number and the letter of its unit come to that many units, as long as they
/// fit.
pub proof fn lemma_one_period(digits: Seq<char>, unit: char)
    requires
        digits.len() > 0,
        all_digits(digits),
        digits_value(digits) <= u64::MAX,
    ensures
        ({
            let n = digits_value(digits) as int;
            let nanos = period_nanos(digits.push(unit));
            &&& unit == 's' ==> nanos == vstd::math::min(n * 1_000_000_000, SPAN_NANOS as int)
            &&& unit == 'm' ==> nanos == vstd::math::min(n * 60_000_000_000, SPAN_NANOS as int)
            &&& unit == 'h' ==> nanos == vstd::math::min(n * 3_600_000_000_000, SPAN_NANOS as int)
            &&& unit == 'd' ==> nanos == vstd::math::min(n * 86_400_000_000_000, SPAN_NANOS as int)
            &&& unit == 'w' ==> nanos == vstd::math::min(n * 604_800_000_000_000, SPAN_NANOS as int)
            &&& unit == 'M' ==> nanos == vstd::math::min(
                n * 2_630_016_000_000_000,
                SPAN_NANOS as int,
            )
            &&& unit == 'y' ==> nanos == vstd::math::min(
                n * 31_557_600_000_000_000,
                SPAN_NANOS as int,
            )
        }),
{
    lemma_number_scanned(digits);
    let text = digits.push(unit);
    assert(text.drop_last() =~= digits);
    let scan = scanned(text);
    if unit == 's' || unit == 'm' || unit == 'h' || unit == 'd' || unit == 'w' || unit == 'M'
        || unit == 'y' {
        assert(!is_digit(unit) && is_unit_letter(unit));
        assert(scan.numerator * scan.weight == 0) by (nonlinear_arith)
            requires
                scan.numerator == 0,
        ;
    }
}

/// Units of two letters are told apart: milliseconds, microseconds and nanoseconds.
pub proof fn lemma_two_letter_period(digits: Seq<char>)
    requires
        digits.len() > 0,
        all_digits(digits),
        digits_value(digits) <= u64::MAX,
    ensures
        period_nanos(digits.push('m').push('s')) == vstd::math::min(
            digits_value(digits) as int * 1_000_000,
            SPAN_NANOS as int,
        ),
        period_nanos(digits.push('u').push('s')) == vstd::math::min(
            digits_value(digits) as int * 1_000,
            SPAN_NANOS as int,
        ),
        period_nanos(digits.push('n').push('s')) == digits_value(digits),
{
    lemma_number_scanned(digits);
    assert forall|c: char, d: char| #[trigger]
        scanned(digits.push(c).push(d)) == scanned(digits).after(c).after(d) by {
        assert(digits.push(c).push(d).drop_last() =~= digits.push(c));
        assert(digits.push(c).drop_last() =~= digits);
        assert(scanned(digits.push(c)) == scanned(digits).after(c));
    }
    let ms = scanned(digits.push('m').push('s'));
    let us = scanned(digits.push('u').push('s'));
    let ns = scanned(digits.push('n').push('s'));
    assert(ms.numerator == 0 && us.numerator == 0 && ns.numerator == 0);
}

proof fn lemma_number_scanned(digits: Seq<char>)
    requires
        all_digits(digits),
        digits_value(digits) <= u64::MAX,
    ensures
        scanned(digits) == (PeriodScan {
            number: digits_value(digits) as u128,
            ..PeriodScan::spec_start()
        }),
    decreases digits.len(),
{
    if digits.len() > 0 {
        let front = digits.drop_last();
        assert forall|i: int| 0 <= i < front.len() implies is_digit(#[trigger] front[i]) by {
            assert(front[i] == digits[i]);
        }
        assert(is_digit(digits.last()));
        lemma_number_scanned(front);
    }
}

/// What stands behind a unit is added to what stands before it: a text of two
/// durations comes to both of them, as long as they fit.
pub proof fn lemma_periods_add_up(first: Seq<char>, then: Seq<char>)
    requires
        first.len() > 0,
        is_unit_letter(first.last()),
        then.len() > 0,
        is_digit(then[0]),
    ensures
        period_nanos(first + then) == vstd::math::min(
            period_nanos(first) + period_nanos(then),
            SPAN_NANOS as int,
        ),
{
    lemma_goes_on(first, then);
}

/// What this number comes to, with its unit.
spec fn number_nanos(scan: PeriodScan) -> int {
    scan.number * scan.weight + (scan.numerator * scan.weight) / scan.denominator as int
}

proof fn lemma_total(scan: PeriodScan)
    requires
        scan.denominator > 0,
    ensures
        number_nanos(scan) >= 0,
        scan.total() == vstd::math::min(scan.done + number_nanos(scan), SPAN_NANOS as int),
{
    let whole = scan.number * scan.weight;
    let product = scan.numerator * scan.weight;
    assert(whole >= 0 && product >= 0) by (nonlinear_arith)
        requires
            whole == scan.number * scan.weight,
            product == scan.numerator * scan.weight,
    ;
    vstd::arithmetic::div_mod::lemma_div_pos_is_pos(product, scan.denominator as int);
}

proof fn lemma_scan_bounded(text: Seq<char>)
    ensures
        scanned(text).done <= SPAN_NANOS,
        scanned(text).denominator > 0,
    decreases text.len(),
{
    if text.len() > 0 {
        lemma_scan_bounded(text.drop_last());
        lemma_total(scanned(text.drop_last()));
    }
}

proof fn lemma_goes_on(first: Seq<char>, then: Seq<char>)
    requires
        first.len() > 0,
        is_unit_letter(first.last()),
        then.len() > 0,
        is_digit(then[0]),
    ensures
        scanned(first + then) == (PeriodScan {
            done: vstd::math::min(
                period_nanos(first) + scanned(then).done,
                SPAN_NANOS as int,
            ) as u128,
            ..scanned(then)
        }),
        period_nanos(first + then) == vstd::math::min(
            period_nanos(first) + period_nanos(then),
            SPAN_NANOS as int,
        ),
    decreases then.len(),
{
    let whole = first + then;
    assert(whole.drop_last() =~= first + then.drop_last());
    lemma_scan_bounded(first);
    lemma_total(scanned(first));
    if then.len() == 1 {
        assert(first + then.drop_last() =~= first);
        assert(then.drop_last() =~= Seq::<char>::empty());
        assert(!is_digit(first.last()));
        assert(scanned(first).begun);
        assert(whole.last() == then[0]);
    } else {
        lemma_goes_on(first, then.drop_last());
        assert(whole.last() == then.last());
        lemma_scan_bounded(then.drop_last());
        lemma_total(scanned(then.drop_last()));
    }
    lemma_scan_bounded(then);
    lemma_total(scanned(then));
    lemma_scan_bounded(whole);
    lemma_total(scanned(whole));
}

} // verus!
