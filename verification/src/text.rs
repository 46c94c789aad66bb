//! Text scanning: trimming, searching and decimal numbers.

use crate::seqs::{first_where, lemma_first_where_at, lemma_first_where_none};
use vstd::prelude::*;

verus! {

/// Whether a character has the Unicode `White_Space` property: the space, tab to
/// carriage return, next line, the no-break spaces, the spaces of various widths
/// and the line and paragraph separators.
pub open spec fn is_space(c: char) -> bool {
    let n = c as u32;
    ||| n == 0x20
    ||| 0x09 <= n <= 0x0d
    ||| n == 0x85
    ||| n == 0xa0
    ||| n == 0x1680
    ||| 0x2000 <= n <= 0x200a
    ||| n == 0x2028
    ||| n == 0x2029
    ||| n == 0x202f
    ||| n == 0x205f
    ||| n == 0x3000
}

/// Whether a character has the Unicode `White_Space` property.
pub(crate) fn is_white(c: char) -> (white: bool)
    ensures
        white == is_space(c),
{
    let n: u32 = c as u32;
    n == 0x20 || (0x09 <= n && n <= 0x0d) || n == 0x85 || n == 0xa0 || n == 0x1680 || (0x2000 <= n
        && n <= 0x200a) || n == 0x2028 || n == 0x2029 || n == 0x202f || n == 0x205f || n == 0x3000
}

/// `s` without leading whitespace.
pub open spec fn front_trimmed(s: Seq<char>) -> Seq<char>
    decreases s.len(),
{
    if s.len() > 0 && is_space(s[0]) {
        front_trimmed(s.skip(1))
    } else {
        s
    }
}

/// `s` without trailing whitespace.
pub open spec fn back_trimmed(s: Seq<char>) -> Seq<char>
    decreases s.len(),
{
    if s.len() > 0 && is_space(s.last()) {
        back_trimmed(s.drop_last())
    } else {
        s
    }
}

/// `s` without leading and trailing whitespace.
pub open spec fn trimmed(s: Seq<char>) -> Seq<char> {
    back_trimmed(front_trimmed(s))
}

/// A text without the whitespace around it.
pub(crate) fn trim(s: &str) -> (t: &str)
    ensures
        t@ == trimmed(s@),
{
    let n: usize = s.unicode_len();
    let mut from: usize = 0;
    assert(s@.skip(0) =~= s@);
    while from < n && is_white(s.get_char(from))
        invariant
            n == s@.len(),
            from <= n,
            front_trimmed(s@.skip(from as int)) == front_trimmed(s@),
        decreases n - from,
    {
        assert(s@.skip(from as int).skip(1) =~= s@.skip(from + 1));
        from = from + 1;
    }
    let ghost front = s@.skip(from as int);
    assert(front == front_trimmed(s@));
    let mut to: usize = n;
    assert(s@.subrange(from as int, n as int) =~= front);
    while to > from && is_white(s.get_char(to - 1))
        invariant
            n == s@.len(),
            from <= to <= n,
            back_trimmed(s@.subrange(from as int, to as int)) == back_trimmed(front),
        decreases to,
    {
        assert(s@.subrange(from as int, to as int).drop_last() =~= s@.subrange(
            from as int,
            to - 1,
        ));
        to = to - 1;
    }
    s.substring_char(from, to)
}

/// Whether two texts are the same.
pub fn same_text(a: &str, b: &str) -> (same: bool)
    ensures
        same == (a@ == b@),
{
    a.to_owned() == b.to_owned()
}

pub open spec fn is_digit(c: char) -> bool {
    '0' <= c <= '9'
}

/// The number that a run of digits spells.
pub open spec fn digits_value(s: Seq<char>) -> nat
    decreases s.len(),
{
    if s.len() == 0 {
        0
    } else {
        10 * digits_value(s.drop_last()) + (s.last() as nat - '0' as nat) as nat
    }
}

pub open spec fn all_digits(s: Seq<char>) -> bool {
    forall|i: int| 0 <= i < s.len() ==> is_digit(#[trigger] s[i])
}

/// The number that `s` spells: an optional `+`, then digits and nothing else.
pub open spec fn decimal_u64(s: Seq<char>) -> Option<u64> {
    let digits = if s.len() > 0 && s[0] == '+' {
        s.skip(1)
    } else {
        s
    };
    if digits.len() > 0 && all_digits(digits) && digits_value(digits) <= u64::MAX {
        Some(digits_value(digits) as u64)
    } else {
        None
    }
}

/// More digits never spell a smaller number.
proof fn lemma_digits_grow(s: Seq<char>, k: int)
    requires
        0 <= k <= s.len(),
        all_digits(s),
    ensures
        digits_value(s.take(k)) <= digits_value(s),
    decreases s.len() - k,
{
    if k < s.len() {
        lemma_digits_grow(s, k + 1);
        assert(s.take(k + 1).drop_last() =~= s.take(k));
    } else {
        assert(s.take(k) =~= s);
    }
}

/// Reads a decimal number.
pub fn parse_u64(text: &str) -> (number: Option<u64>)
    ensures
        number == decimal_u64(text@),
{
    let n: usize = text.unicode_len();
    let start: usize = if n > 0 && text.get_char(0) == '+' { 1 } else { 0 };
    let ghost digits = text@.skip(start as int);
    proof {
        assert(start == 0 ==> digits =~= text@);
    }
    if n == start {
        return None;
    }
    let mut number: u64 = 0;
    let mut i: usize = start;
    assert(digits.take(0) =~= Seq::<char>::empty());
    while i < n
        invariant
            n == text@.len(),
            start <= i <= n,
            start < n,
            digits == text@.skip(start as int),
            digits == (if text@.len() > 0 && text@[0] == '+' {
                text@.skip(1)
            } else {
                text@
            }),
            forall|j: int| 0 <= j < i - start ==> is_digit(#[trigger] digits[j]),
            number as nat == digits_value(digits.take(i - start)),
        decreases n - i,
    {
        let c: char = text.get_char(i);
        assert(c == digits[i - start]);
        if c < '0' || c > '9' {
            return None;
        }
        proof {
            assert(digits.take(i + 1 - start).drop_last() =~= digits.take(i - start));
        }
        let digit: u64 = c as u64 - '0' as u64;
        if number > (u64::MAX - digit) / 10 {
            proof {
                if all_digits(digits) {
                    lemma_digits_grow(digits, i + 1 - start);
                }
            }
            return None;
        }
        number = number * 10 + digit;
        i = i + 1;
    }
    assert(digits.take(i - start) =~= digits);
    Some(number)
}

/// A digit as text.
pub open spec fn digit_char(d: nat) -> char {
    if d == 0 {
        '0'
    } else if d == 1 {
        '1'
    } else if d == 2 {
        '2'
    } else if d == 3 {
        '3'
    } else if d == 4 {
        '4'
    } else if d == 5 {
        '5'
    } else if d == 6 {
        '6'
    } else if d == 7 {
        '7'
    } else if d == 8 {
        '8'
    } else {
        '9'
    }
}

/// A number in decimal digits, without leading zeros.
pub open spec fn decimal_digits(n: nat) -> Seq<char>
    decreases n,
{
    if n < 10 {
        seq![digit_char(n)]
    } else {
        decimal_digits(n / 10).push(digit_char(n % 10))
    }
}

/// A number's digits spell it.
pub proof fn lemma_decimal_roundtrip(n: u64)
    ensures
        decimal_u64(decimal_digits(n as nat)) == Some(n),
{
    lemma_digits_spell(n as nat);
}

proof fn lemma_digits_spell(n: nat)
    ensures
        decimal_digits(n).len() > 0,
        all_digits(decimal_digits(n)),
        digits_value(decimal_digits(n)) == n,
    decreases n,
{
    let text = decimal_digits(n);
    if n < 10 {
        assert(text.drop_last() =~= Seq::<char>::empty());
        assert(digits_value(text.drop_last()) == 0);
    } else {
        lemma_digits_spell(n / 10);
        assert(text.drop_last() =~= decimal_digits(n / 10));
    }
}

fn digit_text(d: u64) -> (text: &'static str)
    requires
        d < 10,
    ensures
        text@ == seq![digit_char(d as nat)],
{
    proof {
        reveal_strlit("0");
        reveal_strlit("1");
        reveal_strlit("2");
        reveal_strlit("3");
        reveal_strlit("4");
        reveal_strlit("5");
        reveal_strlit("6");
        reveal_strlit("7");
        reveal_strlit("8");
        reveal_strlit("9");
    }
    let text: &'static str = match d {
        0 => "0",
        1 => "1",
        2 => "2",
        3 => "3",
        4 => "4",
        5 => "5",
        6 => "6",
        7 => "7",
        8 => "8",
        _ => "9",
    };
    assert(text@ =~= seq![digit_char(d as nat)]);
    text
}

/// Writes a decimal number.
pub fn decimal_text(n: u64) -> (text: String)
    ensures
        text@ == decimal_digits(n as nat),
    decreases n,
{
    if n < 10 {
        digit_text(n).to_owned()
    } else {
        let mut text: String = decimal_text(n / 10);
        text.append(digit_text(n % 10));
        assert(text@ =~= decimal_digits(n as nat));
        text
    }
}

/// Whether a character can be part of a time unit: an ASCII letter, or the micro
/// sign.
pub open spec fn is_unit_letter(c: char) -> bool {
    'a' <= c <= 'z' || 'A' <= c <= 'Z' || c as u32 == 0xb5
}

/// Whether the two characters stand at position `i` of `s`.
pub open spec fn pair_at(s: Seq<char>, i: int, a: char, b: char) -> bool {
    0 <= i && i + 1 < s.len() && s[i] == a && s[i + 1] == b
}

/// The first position at which `a` is followed by `b`.
pub fn find_pair(text: &str, a: char, b: char) -> (at: Option<usize>)
    ensures
        match at {
            Some(i) => pair_at(text@, i as int, a, b) && forall|j: int|
                0 <= j < i ==> !#[trigger] pair_at(text@, j, a, b),
            None => forall|j: int| !#[trigger] pair_at(text@, j, a, b),
        },
{
    let n: usize = text.unicode_len();
    let mut i: usize = 0;
    while i < n && i + 1 < n
        invariant
            n == text@.len(),
            i <= n,
            forall|j: int| 0 <= j < i ==> !#[trigger] pair_at(text@, j, a, b),
        decreases n - i,
    {
        if text.get_char(i) == a && text.get_char(i + 1) == b {
            return Some(i);
        }
        i = i + 1;
    }
    None
}

pub open spec fn is_char(wanted: char) -> spec_fn(char) -> bool {
    |c: char| c == wanted
}

/// The first place of a character.
pub fn find_char(text: &str, wanted: char) -> (at: Option<usize>)
    ensures
        match first_where(text@, is_char(wanted)) {
            Some(i) => at is Some && at->0 == i && 0 <= i < text@.len(),
            None => at is None,
        },
{
    let n: usize = text.unicode_len();
    let mut i: usize = 0;
    while i < n
        invariant
            n == text@.len(),
            i <= n,
            forall|j: int| 0 <= j < i ==> !is_char(wanted)(#[trigger] text@[j]),
        decreases n - i,
    {
        if text.get_char(i) == wanted {
            proof {
                lemma_first_where_at(text@, is_char(wanted), i as int);
            }
            return Some(i);
        }
        i = i + 1;
    }
    proof {
        lemma_first_where_none(text@, is_char(wanted));
    }
    None
}

/// The last place of a character.
pub open spec fn last_place(s: Seq<char>, wanted: char) -> Option<int>
    decreases s.len(),
{
    if s.len() == 0 {
        None
    } else if s.last() == wanted {
        Some(s.len() - 1)
    } else {
        last_place(s.drop_last(), wanted)
    }
}

/// The last place of a character.
pub fn find_last_char(text: &str, wanted: char) -> (at: Option<usize>)
    ensures
        match last_place(text@, wanted) {
            Some(i) => at is Some && at->0 == i && 0 <= i < text@.len(),
            None => at is None,
        },
{
    let n: usize = text.unicode_len();
    let mut end: usize = n;
    assert(text@.take(n as int) =~= text@);
    while end > 0
        invariant
            n == text@.len(),
            end <= n,
            last_place(text@, wanted) == last_place(text@.take(end as int), wanted),
        decreases end,
    {
        assert(text@.take(end as int).drop_last() =~= text@.take(end - 1));
        if text.get_char(end - 1) == wanted {
            return Some(end - 1);
        }
        end = end - 1;
    }
    None
}

/// Whether `part` stands at place `i` of `s`.
pub open spec fn stands_at(s: Seq<char>, part: Seq<char>, i: int) -> bool {
    0 <= i && i + part.len() <= s.len() && s.subrange(i, i + part.len()) == part
}

/// The first place at or after `from` where `part` stands.
pub open spec fn place_from(s: Seq<char>, part: Seq<char>, from: int) -> Option<int>
    decreases s.len() - from + 1,
{
    if from > s.len() || from < 0 {
        None
    } else if stands_at(s, part, from) {
        Some(from)
    } else {
        place_from(s, part, from + 1)
    }
}

/// Whether `part` stands at place `i`.
pub fn is_at(text: &str, part: &str, i: usize) -> (yes: bool)
    ensures
        yes == stands_at(text@, part@, i as int),
{
    let n: usize = text.unicode_len();
    let m: usize = part.unicode_len();
    if i > n || n - i < m {
        return false;
    }
    let mut k: usize = 0;
    while k < m
        invariant
            n == text@.len(),
            m == part@.len(),
            k <= m,
            i + m <= n,
            forall|j: int| 0 <= j < k ==> text@[i + j] == #[trigger] part@[j],
        decreases m - k,
    {
        if text.get_char(i + k) != part.get_char(k) {
            assert(text@.subrange(i as int, i + m)[k as int] != part@[k as int]);
            return false;
        }
        k = k + 1;
    }
    assert(text@.subrange(i as int, i + m) =~= part@);
    true
}

/// The first place where `part` stands.
pub fn find_text(text: &str, part: &str) -> (at: Option<usize>)
    ensures
        match place_from(text@, part@, 0) {
            Some(i) => at is Some && at->0 == i && 0 <= i && i + part@.len() <= text@.len()
                <= usize::MAX,
            None => at is None,
        },
{
    let n: usize = text.unicode_len();
    let mut i: usize = 0;
    while i < n
        invariant
            n == text@.len(),
            i <= n,
            place_from(text@, part@, 0) == place_from(text@, part@, i as int),
        decreases n - i,
    {
        if is_at(text, part, i) {
            return Some(i);
        }
        i = i + 1;
    }
    if is_at(text, part, n) {
        return Some(n);
    }
    assert(place_from(text@, part@, n + 1) is None);
    None
}

/// A character's number, capital letters of ASCII taken as small ones.
pub open spec fn small(c: char) -> u32 {
    if 'A' <= c <= 'Z' {
        (c as u32 + 32) as u32
    } else {
        c as u32
    }
}

/// Whether two texts are the same but for ASCII capitals.
pub open spec fn same_but_case(a: Seq<char>, b: Seq<char>) -> bool {
    &&& a.len() == b.len()
    &&& forall|i: int| 0 <= i < a.len() ==> small(#[trigger] a[i]) == small(b[i])
}

fn make_small(c: char) -> (n: u32)
    ensures
        n == small(c),
{
    if 'A' <= c && c <= 'Z' {
        c as u32 + 32
    } else {
        c as u32
    }
}

/// Whether two texts are the same but for ASCII capitals.
pub fn alike(a: &str, b: &str) -> (yes: bool)
    ensures
        yes == same_but_case(a@, b@),
{
    let n: usize = a.unicode_len();
    if n != b.unicode_len() {
        return false;
    }
    let mut i: usize = 0;
    while i < n
        invariant
            n == a@.len() == b@.len(),
            i <= n,
            forall|j: int| 0 <= j < i ==> small(#[trigger] a@[j]) == small(b@[j]),
        decreases n - i,
    {
        if make_small(a.get_char(i)) != make_small(b.get_char(i)) {
            assert(small(a@[i as int]) != small(b@[i as int]));
            return false;
        }
        i = i + 1;
    }
    true
}

// -- laws -------------------------------------------------------------------

proof fn lemma_front_trimmed(s: Seq<char>)
    ensures
        exists|i: int|
            0 <= i <= s.len() && front_trimmed(s) == #[trigger] s.skip(i) && forall|k: int|
                0 <= k < i ==> is_space(#[trigger] s[k]),
        front_trimmed(s).len() > 0 ==> !is_space(front_trimmed(s)[0]),
    decreases s.len(),
{
    if s.len() > 0 && is_space(s[0]) {
        let rest = s.skip(1);
        lemma_front_trimmed(rest);
        let i = choose|i: int|
            0 <= i <= rest.len() && front_trimmed(rest) == #[trigger] rest.skip(i) && forall|k: int|
                0 <= k < i ==> is_space(#[trigger] rest[k]);
        assert(s.skip(i + 1) =~= rest.skip(i));
        assert forall|k: int| 0 <= k < i + 1 implies is_space(#[trigger] s[k]) by {
            if k > 0 {
                assert(rest[k - 1] == s[k]);
            }
        }
    } else {
        assert(s.skip(0) =~= s);
    }
}

proof fn lemma_back_trimmed(s: Seq<char>)
    ensures
        exists|j: int|
            0 <= j <= s.len() && back_trimmed(s) == #[trigger] s.take(j) && forall|k: int|
                j <= k < s.len() ==> is_space(#[trigger] s[k]),
        back_trimmed(s).len() > 0 ==> !is_space(back_trimmed(s).last()),
    decreases s.len(),
{
    if s.len() > 0 && is_space(s.last()) {
        let rest = s.drop_last();
        lemma_back_trimmed(rest);
        let j = choose|j: int|
            0 <= j <= rest.len() && back_trimmed(rest) == #[trigger] rest.take(j) && forall|k: int|
                j <= k < rest.len() ==> is_space(#[trigger] rest[k]);
        assert(s.take(j) =~= rest.take(j));
        assert forall|k: int| j <= k < s.len() implies is_space(#[trigger] s[k]) by {
            if k < rest.len() {
                assert(rest[k] == s[k]);
            }
        }
    } else {
        assert(s.take(s.len() as int) =~= s);
    }
}

/// A text is trimmed of all spaces at its ends, and of nothing else.
pub proof fn lemma_trimmed_of_spaces(s: Seq<char>)
    ensures
        exists|i: int, j: int|
            0 <= i <= j <= s.len() && trimmed(s) == #[trigger] s.subrange(i, j) && (forall|k: int|
                0 <= k < i ==> is_space(#[trigger] s[k])) && (forall|k: int|
                j <= k < s.len() ==> is_space(#[trigger] s[k])),
        trimmed(s).len() > 0 ==> !is_space(trimmed(s)[0]) && !is_space(trimmed(s).last()),
{
    lemma_front_trimmed(s);
    let i = choose|i: int|
        0 <= i <= s.len() && front_trimmed(s) == #[trigger] s.skip(i) && forall|k: int|
            0 <= k < i ==> is_space(#[trigger] s[k]);
    let front = s.skip(i);
    lemma_back_trimmed(front);
    let n = choose|n: int|
        0 <= n <= front.len() && back_trimmed(front) == #[trigger] front.take(n) && forall|k: int|
            n <= k < front.len() ==> is_space(#[trigger] front[k]);
    assert(s.subrange(i, i + n) =~= front.take(n));
    assert forall|k: int| i + n <= k < s.len() implies is_space(#[trigger] s[k]) by {
        assert(front[k - i] == s[k]);
    }
    if n > 0 {
        assert(trimmed(s)[0] == front[0]);
    }
}

/// Digits are read from the left, ten times what stands before each; zeros in
/// front count for nothing, and neither does a plus.
pub proof fn lemma_digits_read(s: Seq<char>)
    requires
        forall|i: int| 0 <= i < s.len() ==> '0' <= #[trigger] s[i] <= '9',
        s.len() > 0,
    ensures
        digits_value(seq!['0'] + s) == digits_value(s),
        decimal_u64(seq!['+'] + s) == decimal_u64(s),
        decimal_u64(seq!['0'] + s) == decimal_u64(s),
        decimal_u64(s) is Some <==> digits_value(s) <= u64::MAX,
    decreases s.len(),
{
    let zero = seq!['0'] + s;
    assert(zero.drop_last() =~= seq!['0'] + s.drop_last());
    if s.len() > 1 {
        assert forall|i: int| 0 <= i < s.drop_last().len() implies '0'
            <= #[trigger] s.drop_last()[i] <= '9' by {
            assert(s.drop_last()[i] == s[i]);
        }
        lemma_digits_read(s.drop_last());
    } else {
        assert(seq!['0'] + s.drop_last() =~= seq!['0']);
        assert(seq!['0'].drop_last() =~= Seq::<char>::empty());
        assert(s.drop_last() =~= Seq::<char>::empty());
        reveal_with_fuel(digits_value, 2);
        assert(digits_value(seq!['0']) == 0);
    }
    assert((seq!['+'] + s).skip(1) =~= s);
    assert('0' <= s[0] <= '9');
    assert(all_digits(s));
    assert forall|i: int| 0 <= i < zero.len() implies is_digit(#[trigger] zero[i]) by {
        if i > 0 {
            assert(zero[i] == s[i - 1]);
        }
    }
}

/// Nothing but digits, with at most a plus in front, is a number.
pub proof fn lemma_no_number(s: Seq<char>, i: int)
    requires
        0 <= i < s.len(),
        !('0' <= s[i] <= '9'),
        i > 0 || s[0] != '+',
    ensures
        decimal_u64(s) is None,
{
    if s[0] == '+' {
        assert(s.skip(1)[i - 1] == s[i]);
        assert(!is_digit(s.skip(1)[i - 1]));
    } else {
        assert(!is_digit(s[i]));
    }
}

/// The last place of a character is one, and none comes after it.
pub proof fn lemma_last_place(s: Seq<char>, wanted: char)
    ensures
        match last_place(s, wanted) {
            Some(i) => 0 <= i < s.len() && s[i] == wanted && forall|j: int|
                i < j < s.len() ==> #[trigger] s[j] != wanted,
            None => forall|j: int| 0 <= j < s.len() ==> #[trigger] s[j] != wanted,
        },
    decreases s.len(),
{
    if s.len() > 0 {
        let front = s.drop_last();
        lemma_last_place(front, wanted);
        assert forall|j: int| 0 <= j < front.len() implies front[j] == #[trigger] s[j] by {}
    }
}

/// The first place of a text in another, from some place on, is one, and none comes
/// before it.
pub proof fn lemma_first_place(s: Seq<char>, part: Seq<char>, from: int)
    requires
        0 <= from,
    ensures
        match place_from(s, part, from) {
            Some(i) => {
                &&& from <= i <= i + part.len() <= s.len()
                &&& s.subrange(i, i + part.len()) == part
                &&& forall|j: int|
                    from <= j < i ==> !(j + part.len() <= s.len() && #[trigger] s.subrange(
                        j,
                        j + part.len(),
                    ) == part)
            },
            None => forall|j: int|
                from <= j ==> !(j + part.len() <= s.len() && #[trigger] s.subrange(
                    j,
                    j + part.len(),
                ) == part),
        },
    decreases s.len() - from + 1,
{
    if from <= s.len() && !stands_at(s, part, from) {
        lemma_first_place(s, part, from + 1);
    }
}

/// Texts that are the same but for case are if their small letters are; only the
/// letters that have one are written small.
pub proof fn lemma_small_letters(c: char)
    ensures
        'A' <= c <= 'Z' ==> small(c) == c as u32 + 32,
        !('A' <= c <= 'Z') ==> small(c) == c as u32,
{
}

} // verus!
