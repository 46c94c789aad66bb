//! Downstream stores of cluster-wide counts.
//!
//! A store folds what changed: deltas first, then expirations. What has counted
//! down to zero takes no room.

use crate::crdt::{AggregateKey, Count, DeltaSink, ExpirationSink};
use crate::seqs::{first_where, lemma_first_where, lemma_first_where_at, lemma_first_where_none};
use vstd::prelude::*;

verus! {

/// A store that the rows of each event are applied to.
pub trait AggregateStore<C: Count>: Sized {
    /// What applying rows makes of a store.
    spec fn took(
        before: Self,
        after: Self,
        deltas: Seq<(AggregateKey, C)>,
        expirations: Seq<(AggregateKey, C)>,
    ) -> bool;

    fn apply(&mut self, deltas: &DeltaSink<C>, expirations: &ExpirationSink<C>)
        requires
            deltas.wf(),
            expirations.wf(),
        ensures
            Self::took(*old(self), *final(self), deltas@, expirations@),
    ;
}

/// A key and its count.
pub type TotalRow = (AggregateKey, u64);

pub open spec fn row_of(key: AggregateKey) -> spec_fn(TotalRow) -> bool {
    |row: TotalRow| row.0 == key
}

pub open spec fn capped(sum: int) -> u64 {
    if sum <= u64::MAX {
        sum as u64
    } else {
        u64::MAX
    }
}

/// A count raised by a delta.
pub open spec fn raised(rows: Seq<TotalRow>, key: AggregateKey, delta: nat) -> Seq<TotalRow> {
    match first_where(rows, row_of(key)) {
        Some(i) => rows.update(i, (key, capped(rows[i].1 + delta))),
        None => rows.push((key, capped(delta as int))),
    }
}

/// A count lowered by what expired; at zero its row goes.
pub open spec fn lowered(rows: Seq<TotalRow>, key: AggregateKey, count: nat) -> Seq<TotalRow> {
    match first_where(rows, row_of(key)) {
        Some(i) => if rows[i].1 <= count {
            rows.remove(i)
        } else {
            rows.update(i, (key, (rows[i].1 - count) as u64))
        },
        None => rows,
    }
}

pub open spec fn all_raised<C: Count>(
    rows: Seq<TotalRow>,
    deltas: Seq<(AggregateKey, C)>,
) -> Seq<TotalRow>
    decreases deltas.len(),
{
    if deltas.len() == 0 {
        rows
    } else {
        raised(
            all_raised(rows, deltas.drop_last()),
            deltas.last().0,
            deltas.last().1.value(),
        )
    }
}

pub open spec fn all_lowered<C: Count>(
    rows: Seq<TotalRow>,
    expirations: Seq<(AggregateKey, C)>,
) -> Seq<TotalRow>
    decreases expirations.len(),
{
    if expirations.len() == 0 {
        rows
    } else {
        lowered(
            all_lowered(rows, expirations.drop_last()),
            expirations.last().0,
            expirations.last().1.value(),
        )
    }
}

/// Rows applied: deltas, then expirations.
pub open spec fn applied<C: Count>(
    rows: Seq<TotalRow>,
    deltas: Seq<(AggregateKey, C)>,
    expirations: Seq<(AggregateKey, C)>,
) -> Seq<TotalRow> {
    all_lowered(all_raised(rows, deltas), expirations)
}

/// The sum of all counts.
pub open spec fn sum_of(rows: Seq<TotalRow>) -> nat
    decreases rows.len(),
{
    if rows.len() == 0 {
        0
    } else {
        sum_of(rows.drop_last()) + rows.last().1 as nat
    }
}

/// The sum of a rule's counts.
pub open spec fn rule_sum(rows: Seq<TotalRow>, rule: u128) -> nat
    decreases rows.len(),
{
    if rows.len() == 0 {
        0
    } else {
        rule_sum(rows.drop_last(), rule) + if rows.last().0.rule_fingerprint == rule {
            rows.last().1 as nat
        } else {
            0
        }
    }
}

fn find(rows: &Vec<TotalRow>, key: AggregateKey) -> (place: Option<usize>)
    ensures
        match place {
            Some(i) => first_where(rows@, row_of(key)) == Some(i as int) && i < rows@.len(),
            None => first_where(rows@, row_of(key)) is None,
        },
{
    let ghost p = row_of(key);
    let mut i: usize = 0;
    while i < rows.len()
        invariant
            i <= rows@.len(),
            p == row_of(key),
            forall|j: int| 0 <= j < i ==> !p(#[trigger] rows@[j]),
        decreases rows@.len() - i,
    {
        if rows[i].0 == key {
            proof {
                lemma_first_where_at(rows@, p, i as int);
            }
            return Some(i);
        }
        i = i + 1;
    }
    proof {
        lemma_first_where_none(rows@, p);
    }
    None
}

fn raise(rows: &mut Vec<TotalRow>, key: AggregateKey, delta: u64)
    ensures
        final(rows)@ == raised(old(rows)@, key, delta as nat),
{
    match find(rows, key) {
        Some(i) => {
            let count: u64 = rows[i].1;
            rows.set(i, (key, count.saturating_add(delta)));
        },
        None => {
            rows.push((key, delta));
        },
    }
}

fn lower(rows: &mut Vec<TotalRow>, key: AggregateKey, count: u64)
    ensures
        final(rows)@ == lowered(old(rows)@, key, count as nat),
{
    match find(rows, key) {
        Some(i) => {
            let have: u64 = rows[i].1;
            if have <= count {
                let _gone = rows.remove(i);
            } else {
                rows.set(i, (key, have - count));
            }
        },
        None => {},
    }
}

fn apply_rows<C: Count>(
    rows: &mut Vec<TotalRow>,
    deltas: &DeltaSink<C>,
    expirations: &ExpirationSink<C>,
)
    requires
        deltas.wf(),
        expirations.wf(),
    ensures
        final(rows)@ == applied(old(rows)@, deltas@, expirations@),
{
    let ghost before = rows@;
    let n: usize = deltas.len();
    let mut i: usize = 0;
    assert(deltas@.take(0) =~= Seq::<(AggregateKey, C)>::empty());
    while i < n
        invariant
            i <= n == deltas@.len(),
            deltas.wf(),
            rows@ == all_raised(before, deltas@.take(i as int)),
        decreases n - i,
    {
        assert(deltas@.take(i + 1).drop_last() =~= deltas@.take(i as int));
        raise(rows, deltas.keys[i], deltas.deltas[i].get());
        i = i + 1;
    }
    assert(deltas@.take(n as int) =~= deltas@);
    let ghost middle = rows@;
    let n: usize = expirations.len();
    let mut i: usize = 0;
    assert(expirations@.take(0) =~= Seq::<(AggregateKey, C)>::empty());
    while i < n
        invariant
            i <= n == expirations@.len(),
            expirations.wf(),
            rows@ == all_lowered(middle, expirations@.take(i as int)),
        decreases n - i,
    {
        assert(expirations@.take(i + 1).drop_last() =~= expirations@.take(i as int));
        lower(rows, expirations.keys[i], expirations.last_counts[i].get());
        i = i + 1;
    }
    assert(expirations@.take(n as int) =~= expirations@);
}

/// An in-memory store that remembers how much each call brought.
#[derive(Debug)]
pub struct InMemoryAggregateStore {
    rows: Vec<TotalRow>,
    apply_calls: Vec<(usize, usize)>,
}

impl InMemoryAggregateStore {
    pub closed spec fn view(&self) -> Seq<TotalRow> {
        self.rows@
    }

    /// How many deltas and expirations each call brought.
    pub closed spec fn calls(&self) -> Seq<(usize, usize)> {
        self.apply_calls@
    }

    pub fn new() -> (store: InMemoryAggregateStore)
        ensures
            store@ == Seq::<TotalRow>::empty(),
            store.calls() == Seq::<(usize, usize)>::empty(),
    {
        InMemoryAggregateStore { rows: Vec::new(), apply_calls: Vec::new() }
    }

    /// How many deltas and expirations each call brought.
    pub fn apply_call_lens(&self) -> (lens: &Vec<(usize, usize)>)
        ensures
            lens@ == self.calls(),
    {
        &self.apply_calls
    }

    /// The counts, in order of first appearance.
    pub fn snapshot(&self) -> (rows: &Vec<TotalRow>)
        ensures
            rows@ == self@,
    {
        &self.rows
    }
}

impl<C: Count> AggregateStore<C> for InMemoryAggregateStore {
    open spec fn took(
        before: Self,
        after: Self,
        deltas: Seq<(AggregateKey, C)>,
        expirations: Seq<(AggregateKey, C)>,
    ) -> bool {
        &&& after@ == applied(before@, deltas, expirations)
        &&& after.calls() == before.calls().push(
            (deltas.len() as usize, expirations.len() as usize),
        )
    }

    fn apply(&mut self, deltas: &DeltaSink<C>, expirations: &ExpirationSink<C>) {
        self.apply_calls.push((deltas.len(), expirations.len()));
        apply_rows(&mut self.rows, deltas, expirations);
    }
}

/// An in-memory store that counts its calls.
#[derive(Debug)]
pub struct BenchAggregateStore {
    rows: Vec<TotalRow>,
    apply_calls: u64,
}

impl BenchAggregateStore {
    pub closed spec fn view(&self) -> Seq<TotalRow> {
        self.rows@
    }

    pub closed spec fn calls(&self) -> u64 {
        self.apply_calls
    }

    pub fn new() -> (store: BenchAggregateStore)
        ensures
            store@ == Seq::<TotalRow>::empty(),
            store.calls() == 0,
    {
        BenchAggregateStore { rows: Vec::new(), apply_calls: 0 }
    }

    /// The sum of all counts, capped at `u64::MAX`.
    pub fn total(&self) -> (total: u64)
        ensures
            total == capped(sum_of(self@) as int),
    {
        let mut total: u64 = 0;
        let mut i: usize = 0;
        assert(self.rows@.take(0) =~= Seq::<TotalRow>::empty());
        while i < self.rows.len()
            invariant
                i <= self.rows@.len(),
                total == capped(sum_of(self.rows@.take(i as int)) as int),
            decreases self.rows@.len() - i,
        {
            assert(self.rows@.take(i + 1).drop_last() =~= self.rows@.take(i as int));
            total = total.saturating_add(self.rows[i].1);
            i = i + 1;
        }
        assert(self.rows@.take(i as int) =~= self.rows@);
        total
    }

    /// The sum of a rule's counts, capped at `u64::MAX`.
    pub fn total_for_rule(&self, rule: u128) -> (total: u64)
        ensures
            total == capped(rule_sum(self@, rule) as int),
    {
        let mut total: u64 = 0;
        let mut i: usize = 0;
        assert(self.rows@.take(0) =~= Seq::<TotalRow>::empty());
        while i < self.rows.len()
            invariant
                i <= self.rows@.len(),
                total == capped(rule_sum(self.rows@.take(i as int), rule) as int),
            decreases self.rows@.len() - i,
        {
            assert(self.rows@.take(i + 1).drop_last() =~= self.rows@.take(i as int));
            if self.rows[i].0.rule_fingerprint == rule {
                total = total.saturating_add(self.rows[i].1);
            }
            i = i + 1;
        }
        assert(self.rows@.take(i as int) =~= self.rows@);
        total
    }

    pub fn apply_calls(&self) -> (calls: u64)
        ensures
            calls == self.calls(),
    {
        self.apply_calls
    }

    /// Number of counts that are not zero.
    pub fn rows(&self) -> (rows: usize)
        ensures
            rows == self@.len(),
    {
        self.rows.len()
    }
}

impl<C: Count> AggregateStore<C> for BenchAggregateStore {
    open spec fn took(
        before: Self,
        after: Self,
        deltas: Seq<(AggregateKey, C)>,
        expirations: Seq<(AggregateKey, C)>,
    ) -> bool {
        &&& after@ == applied(before@, deltas, expirations)
        &&& after.calls() == capped(before.calls() + 1)
    }

    fn apply(&mut self, deltas: &DeltaSink<C>, expirations: &ExpirationSink<C>) {
        self.apply_calls = self.apply_calls.saturating_add(1);
        apply_rows(&mut self.rows, deltas, expirations);
    }
}

/// A count that is raised and then expires in full leaves the counts as they
/// were, if it was not there before.
pub proof fn lemma_raise_then_expire(rows: Seq<TotalRow>, key: AggregateKey, count: nat)
    requires
        first_where(rows, row_of(key)) is None,
        count <= u64::MAX,
    ensures
        lowered(raised(rows, key, count), key, count) == rows,
{
    let with = raised(rows, key, count);
    lemma_first_where(rows, row_of(key));
    assert forall|j: int| 0 <= j < rows.len() implies !row_of(key)(#[trigger] with[j]) by {
        assert(!row_of(key)(rows[j]));
    }
    lemma_first_where_at(with, row_of(key), rows.len() as int);
    assert(with.remove(rows.len() as int) =~= rows);
}

// -- totals by rule ---------------------------------------------------------

/// Whether some row is of a rule.
pub open spec fn has_rule(rows: Seq<TotalRow>, rule: u128) -> bool {
    exists|i: int| 0 <= i < rows.len() && (#[trigger] rows[i]).0.rule_fingerprint == rule
}

/// The totals of some rules, each capped at `u64::MAX`, together.
pub open spec fn sum_by_rule(rows: Seq<TotalRow>, rules: Seq<u128>) -> nat
    decreases rules.len(),
{
    if rules.len() == 0 {
        0
    } else {
        sum_by_rule(rows, rules.drop_last()) + capped(rule_sum(rows, rules.last()) as int) as nat
    }
}

proof fn lemma_rule_sum_bounded(rows: Seq<TotalRow>, rule: u128)
    ensures
        rule_sum(rows, rule) <= sum_of(rows),
    decreases rows.len(),
{
    if rows.len() > 0 {
        lemma_rule_sum_bounded(rows.drop_last(), rule);
    }
}

/// A rule without rows has the total zero.
pub proof fn lemma_rule_without_rows(rows: Seq<TotalRow>, rule: u128)
    requires
        !has_rule(rows, rule),
    ensures
        rule_sum(rows, rule) == 0,
    decreases rows.len(),
{
    if rows.len() > 0 {
        assert(rows[rows.len() - 1].0.rule_fingerprint != rule);
        assert forall|i: int| 0 <= i < rows.len() - 1 implies (
        #[trigger] rows.drop_last()[i]).0.rule_fingerprint != rule by {
            assert(rows[i].0.rule_fingerprint != rule);
        }
        lemma_rule_without_rows(rows.drop_last(), rule);
    }
}

/// One more row adds its count to the total of its rule.
proof fn lemma_sum_by_rule_step(rows: Seq<TotalRow>, rules: Seq<u128>)
    requires
        rows.len() > 0,
        rules.no_duplicates(),
        sum_of(rows) <= u64::MAX,
    ensures
        sum_by_rule(rows, rules) == sum_by_rule(rows.drop_last(), rules) + if rules.contains(
            rows.last().0.rule_fingerprint,
        ) {
            rows.last().1 as nat
        } else {
            0
        },
    decreases rules.len(),
{
    if rules.len() > 0 {
        let front = rules.drop_last();
        let rule = rows.last().0.rule_fingerprint;
        assert forall|i: int, j: int| 0 <= i < j < front.len() implies front[i] != front[j] by {
            assert(rules[i] != rules[j]);
        }
        lemma_sum_by_rule_step(rows, front);
        lemma_rule_sum_bounded(rows, rules.last());
        lemma_rule_sum_bounded(rows.drop_last(), rules.last());
        if front.contains(rule) {
            let i = choose|i: int| 0 <= i < front.len() && front[i] == rule;
            assert(rules[i] == rule);
            assert(rules[i] != rules[rules.len() - 1]);
        } else if rules.contains(rule) {
            let i = choose|i: int| 0 <= i < rules.len() && rules[i] == rule;
            assert(i == rules.len() - 1 || front[i] == rule);
        } else {
            assert(rules[rules.len() - 1] != rule);
        }
    }
}

proof fn lemma_sum_by_rule_empty(rows: Seq<TotalRow>, rules: Seq<u128>)
    requires
        rows.len() == 0,
    ensures
        sum_by_rule(rows, rules) == 0,
    decreases rules.len(),
{
    if rules.len() > 0 {
        lemma_sum_by_rule_empty(rows, rules.drop_last());
    }
}

/// The totals of all rules, each named once, come to the total of all counts,
/// as long as that fits 64 bits.
pub proof fn lemma_rules_sum_to_total(rows: Seq<TotalRow>, rules: Seq<u128>)
    requires
        rules.no_duplicates(),
        forall|i: int|
            0 <= i < rows.len() ==> rules.contains((#[trigger] rows[i]).0.rule_fingerprint),
        sum_of(rows) <= u64::MAX,
    ensures
        sum_by_rule(rows, rules) == sum_of(rows) == capped(sum_of(rows) as int),
    decreases rows.len(),
{
    if rows.len() == 0 {
        lemma_sum_by_rule_empty(rows, rules);
    } else {
        let front = rows.drop_last();
        assert forall|i: int| 0 <= i < front.len() implies rules.contains(
            (#[trigger] front[i]).0.rule_fingerprint,
        ) by {
            assert(rules.contains(rows[i].0.rule_fingerprint));
        }
        lemma_rules_sum_to_total(front, rules);
        assert(rules.contains(rows[rows.len() - 1].0.rule_fingerprint));
        lemma_sum_by_rule_step(rows, rules);
    }
}

proof fn lemma_raised_rules(rows: Seq<TotalRow>, key: AggregateKey, delta: nat, rule: u128)
    requires
        !has_rule(rows, rule),
        key.rule_fingerprint != rule,
    ensures
        !has_rule(raised(rows, key, delta), rule),
{
    lemma_first_where(rows, row_of(key));
    let after = raised(rows, key, delta);
    assert forall|i: int| 0 <= i < after.len() implies (#[trigger] after[i]).0.rule_fingerprint
        != rule by {
        if i < rows.len() {
            assert(rows[i].0.rule_fingerprint != rule);
        }
    }
}

proof fn lemma_lowered_rules(rows: Seq<TotalRow>, key: AggregateKey, count: nat, rule: u128)
    requires
        !has_rule(rows, rule),
    ensures
        !has_rule(lowered(rows, key, count), rule),
{
    lemma_first_where(rows, row_of(key));
    let after = lowered(rows, key, count);
    assert forall|i: int| 0 <= i < after.len() implies (#[trigger] after[i]).0.rule_fingerprint
        != rule by {
        assert(rows[i].0.rule_fingerprint != rule);
        if after.len() < rows.len() {
            assert(rows[i + 1].0.rule_fingerprint != rule);
        }
    }
}

proof fn lemma_all_raised_rules<C: Count>(
    rows: Seq<TotalRow>,
    deltas: Seq<(AggregateKey, C)>,
    rule: u128,
)
    requires
        !has_rule(rows, rule),
        forall|i: int|
            0 <= i < deltas.len() ==> (#[trigger] deltas[i]).0.rule_fingerprint != rule,
    ensures
        !has_rule(all_raised(rows, deltas), rule),
    decreases deltas.len(),
{
    if deltas.len() > 0 {
        let front = deltas.drop_last();
        assert forall|i: int| 0 <= i < front.len() implies (
        #[trigger] front[i]).0.rule_fingerprint != rule by {
            assert(deltas[i].0.rule_fingerprint != rule);
        }
        lemma_all_raised_rules(rows, front, rule);
        assert(deltas[deltas.len() - 1].0.rule_fingerprint != rule);
        lemma_raised_rules(
            all_raised(rows, front),
            deltas.last().0,
            deltas.last().1.value(),
            rule,
        );
    }
}

proof fn lemma_all_lowered_rules<C: Count>(
    rows: Seq<TotalRow>,
    expirations: Seq<(AggregateKey, C)>,
    rule: u128,
)
    requires
        !has_rule(rows, rule),
    ensures
        !has_rule(all_lowered(rows, expirations), rule),
    decreases expirations.len(),
{
    if expirations.len() > 0 {
        let front = expirations.drop_last();
        lemma_all_lowered_rules(rows, front, rule);
        lemma_lowered_rules(
            all_lowered(rows, front),
            expirations.last().0,
            expirations.last().1.value(),
            rule,
        );
    }
}

/// A rule that nothing was ever applied for has the total zero.
pub proof fn lemma_rule_never_applied<C: Count>(
    rows: Seq<TotalRow>,
    deltas: Seq<(AggregateKey, C)>,
    expirations: Seq<(AggregateKey, C)>,
    rule: u128,
)
    requires
        !has_rule(rows, rule),
        forall|i: int|
            0 <= i < deltas.len() ==> (#[trigger] deltas[i]).0.rule_fingerprint != rule,
    ensures
        !has_rule(applied(rows, deltas, expirations), rule),
        rule_sum(applied(rows, deltas, expirations), rule) == 0,
{
    lemma_all_raised_rules(rows, deltas, rule);
    lemma_all_lowered_rules(all_raised(rows, deltas), expirations, rule);
    lemma_rule_without_rows(applied(rows, deltas, expirations), rule);
}

/// Whether every key has one row.
pub open spec fn distinct_keys(rows: Seq<TotalRow>) -> bool {
    forall|i: int, j: int|
        0 <= i < j < rows.len() ==> (#[trigger] rows[i]).0 != (#[trigger] rows[j]).0
}

proof fn lemma_raised_distinct(rows: Seq<TotalRow>, key: AggregateKey, delta: nat)
    requires
        distinct_keys(rows),
    ensures
        distinct_keys(raised(rows, key, delta)),
{
    lemma_first_where(rows, row_of(key));
    let after = raised(rows, key, delta);
    if first_where(rows, row_of(key)) is None {
        assert forall|i: int, j: int| 0 <= i < j < after.len() implies (#[trigger] after[i]).0 != (
        #[trigger] after[j]).0 by {
            assert(!row_of(key)(rows[i]));
            if j < rows.len() {
                assert(rows[i].0 != rows[j].0);
            }
        }
    } else {
        let p = first_where(rows, row_of(key))->0;
        assert(row_of(key)(rows[p]));
        assert forall|i: int, j: int| 0 <= i < j < after.len() implies (#[trigger] after[i]).0 != (
        #[trigger] after[j]).0 by {
            assert(rows[i].0 != rows[j].0);
        }
    }
}

/// What a lowered count leaves: the rows of other keys, and one of its key only
/// if the count was not used up.
proof fn lemma_lowered_rows(rows: Seq<TotalRow>, key: AggregateKey, count: nat)
    requires
        distinct_keys(rows),
    ensures
        distinct_keys(lowered(rows, key, count)),
        forall|i: int|
            0 <= i < lowered(rows, key, count).len() ==> came_from(
                #[trigger] lowered(rows, key, count)[i],
                rows,
                key,
                count,
            ),
{
    lemma_first_where(rows, row_of(key));
    let after = lowered(rows, key, count);
    match first_where(rows, row_of(key)) {
        None => {
            assert forall|i: int| 0 <= i < after.len() implies came_from(
                #[trigger] after[i],
                rows,
                key,
                count,
            ) by {
                assert(!row_of(key)(rows[i]));
                assert(at_row(rows, i, after[i], key, count));
            }
        },
        Some(p) => {
            assert(row_of(key)(rows[p]));
            let gone = rows[p].1 <= count;
            assert forall|i: int, j: int| 0 <= i < j < after.len() implies (
            #[trigger] after[i]).0 != (#[trigger] after[j]).0 by {
                let a = if gone && i >= p { i + 1 } else { i };
                let b = if gone && j >= p { j + 1 } else { j };
                assert(rows[a].0 != rows[b].0);
            }
            assert forall|i: int| 0 <= i < after.len() implies came_from(
                #[trigger] after[i],
                rows,
                key,
                count,
            ) by {
                let a = if gone && i >= p { i + 1 } else { i };
                if a < p {
                    assert(rows[a].0 != rows[p].0);
                } else if a > p {
                    assert(rows[p].0 != rows[a].0);
                }
                assert(at_row(rows, a, after[i], key, count));
            }
        },
    }
}

/// Whether a row is what is left of row `i`.
pub open spec fn at_row(
    rows: Seq<TotalRow>,
    i: int,
    row: TotalRow,
    key: AggregateKey,
    count: nat,
) -> bool {
    &&& 0 <= i < rows.len()
    &&& rows[i].0 == row.0
    &&& row.1 <= rows[i].1
    &&& row.0 == key ==> rows[i].1 > count
}

pub open spec fn came_from(
    row: TotalRow,
    rows: Seq<TotalRow>,
    key: AggregateKey,
    count: nat,
) -> bool {
    exists|i: int| #[trigger] at_row(rows, i, row, key, count)
}

/// Whether a row is what expirations leave of one that none of them used up.
pub open spec fn outlived<C: Count>(
    row: TotalRow,
    rows: Seq<TotalRow>,
    expirations: Seq<(AggregateKey, C)>,
) -> bool {
    exists|i: int|
        0 <= i < rows.len() && (#[trigger] rows[i]).0 == row.0 && row.1 <= rows[i].1
            && none_covers(rows[i], expirations)
}

/// Whether no expiration uses up a row.
pub open spec fn none_covers<C: Count>(
    row: TotalRow,
    expirations: Seq<(AggregateKey, C)>,
) -> bool {
    forall|j: int|
        0 <= j < expirations.len() && (#[trigger] expirations[j]).0 == row.0
            ==> expirations[j].1.value() < row.1
}

proof fn lemma_all_lowered_rows<C: Count>(
    rows: Seq<TotalRow>,
    expirations: Seq<(AggregateKey, C)>,
)
    requires
        distinct_keys(rows),
    ensures
        distinct_keys(all_lowered(rows, expirations)),
        forall|i: int|
            0 <= i < all_lowered(rows, expirations).len() ==> outlived(
                #[trigger] all_lowered(rows, expirations)[i],
                rows,
                expirations,
            ),
    decreases expirations.len(),
{
    let after = all_lowered(rows, expirations);
    if expirations.len() == 0 {
        assert forall|i: int| 0 <= i < after.len() implies outlived(
            #[trigger] after[i],
            rows,
            expirations,
        ) by {
            assert(none_covers(rows[i], expirations));
        }
    } else {
        let front = expirations.drop_last();
        let (key, count) = (expirations.last().0, expirations.last().1.value());
        lemma_all_lowered_rows(rows, front);
        let before = all_lowered(rows, front);
        lemma_lowered_rows(before, key, count);
        assert forall|i: int| 0 <= i < after.len() implies outlived(
            #[trigger] after[i],
            rows,
            expirations,
        ) by {
            assert(came_from(after[i], before, key, count));
            let k = choose|k: int| #[trigger] at_row(before, k, after[i], key, count);
            assert(outlived(before[k], rows, front));
            let m = choose|m: int|
                0 <= m < rows.len() && (#[trigger] rows[m]).0 == before[k].0 && before[k].1
                    <= rows[m].1 && none_covers(rows[m], front);
            assert forall|j: int|
                0 <= j < expirations.len() && (#[trigger] expirations[j]).0
                    == rows[m].0 implies expirations[j].1.value() < rows[m].1 by {
                if j < front.len() {
                    assert(front[j] == expirations[j]);
                }
            }
            assert(none_covers(rows[m], expirations));
        }
    }
}

proof fn lemma_all_raised_distinct<C: Count>(
    rows: Seq<TotalRow>,
    deltas: Seq<(AggregateKey, C)>,
)
    requires
        distinct_keys(rows),
    ensures
        distinct_keys(all_raised(rows, deltas)),
    decreases deltas.len(),
{
    if deltas.len() > 0 {
        lemma_all_raised_distinct(rows, deltas.drop_last());
        lemma_raised_distinct(
            all_raised(rows, deltas.drop_last()),
            deltas.last().0,
            deltas.last().1.value(),
        );
    }
}

/// A store never holds a key twice.
pub proof fn lemma_applied_distinct<C: Count>(
    rows: Seq<TotalRow>,
    deltas: Seq<(AggregateKey, C)>,
    expirations: Seq<(AggregateKey, C)>,
)
    requires
        distinct_keys(rows),
    ensures
        distinct_keys(applied(rows, deltas, expirations)),
{
    lemma_all_raised_distinct(rows, deltas);
    lemma_all_lowered_rows(all_raised(rows, deltas), expirations);
}

/// A rule all of whose counts have expired has the total zero.
pub proof fn lemma_rule_all_expired<C: Count>(
    rows: Seq<TotalRow>,
    deltas: Seq<(AggregateKey, C)>,
    expirations: Seq<(AggregateKey, C)>,
    rule: u128,
)
    requires
        distinct_keys(rows),
        forall|i: int|
            0 <= i < all_raised(rows, deltas).len() && (#[trigger] all_raised(
                rows,
                deltas,
            )[i]).0.rule_fingerprint == rule ==> !none_covers(
                all_raised(rows, deltas)[i],
                expirations,
            ),
    ensures
        !has_rule(applied(rows, deltas, expirations), rule),
        rule_sum(applied(rows, deltas, expirations), rule) == 0,
{
    let middle = all_raised(rows, deltas);
    lemma_all_raised_distinct(rows, deltas);
    lemma_all_lowered_rows(middle, expirations);
    let after = applied(rows, deltas, expirations);
    if has_rule(after, rule) {
        let i = choose|i: int| 0 <= i < after.len() && (#[trigger] after[i]).0.rule_fingerprint
            == rule;
        assert(outlived(after[i], middle, expirations));
        let m = choose|m: int|
            0 <= m < middle.len() && (#[trigger] middle[m]).0 == after[i].0 && after[i].1
                <= middle[m].1 && none_covers(middle[m], expirations);
        assert(middle[m].0.rule_fingerprint == rule);
    }
    lemma_rule_without_rows(after, rule);
}

// -- what is held -----------------------------------------------------------

pub open spec fn is_for(key: AggregateKey) -> spec_fn(TotalRow) -> bool {
    |row: TotalRow| row.0 == key
}

pub open spec fn added() -> spec_fn(int, TotalRow) -> int {
    |sum: int, row: TotalRow| sum + row.1
}

/// What the rows hold of a key.
pub open spec fn held(rows: Seq<TotalRow>, key: AggregateKey) -> int {
    rows.filter(is_for(key)).fold_left(0int, added())
}

proof fn lemma_held_step(rows: Seq<TotalRow>, key: AggregateKey)
    ensures
        held(rows, key) >= 0,
        rows.len() > 0 ==> held(rows, key) == held(rows.drop_last(), key) + if rows.last().0 == key {
            rows.last().1 as int
        } else {
            0
        },
    decreases rows.len(),
{
    reveal(Seq::filter);
    let p = is_for(key);
    if rows.len() > 0 {
        let front = rows.drop_last();
        lemma_held_step(front, key);
        if p(rows.last()) {
            assert(rows.filter(p).drop_last() =~= front.filter(p));
        }
    }
}

proof fn lemma_held_none(rows: Seq<TotalRow>, key: AggregateKey)
    requires
        forall|i: int| 0 <= i < rows.len() ==> (#[trigger] rows[i]).0 != key,
    ensures
        held(rows, key) == 0,
    decreases rows.len(),
{
    lemma_held_step(rows, key);
    if rows.len() > 0 {
        let front = rows.drop_last();
        assert forall|i: int| 0 <= i < front.len() implies (#[trigger] front[i]).0 != key by {
            assert(front[i] == rows[i]);
        }
        lemma_held_none(front, key);
        assert(rows[rows.len() - 1].0 != key);
    } else {
        reveal(Seq::filter);
    }
}

proof fn lemma_held_updated(rows: Seq<TotalRow>, i: int, row: TotalRow, key: AggregateKey)
    requires
        0 <= i < rows.len(),
    ensures
        held(rows.update(i, row), key) + if rows[i].0 == key {
            rows[i].1 as int
        } else {
            0
        } == held(rows, key) + if row.0 == key {
            row.1 as int
        } else {
            0
        },
    decreases rows.len(),
{
    let after = rows.update(i, row);
    lemma_held_step(rows, key);
    lemma_held_step(after, key);
    if i == rows.len() - 1 {
        assert(after.drop_last() =~= rows.drop_last());
    } else {
        lemma_held_updated(rows.drop_last(), i, row, key);
        assert(after.drop_last() =~= rows.drop_last().update(i, row));
    }
}

proof fn lemma_held_removed(rows: Seq<TotalRow>, i: int, key: AggregateKey)
    requires
        0 <= i < rows.len(),
    ensures
        held(rows.remove(i), key) + if rows[i].0 == key {
            rows[i].1 as int
        } else {
            0
        } == held(rows, key),
    decreases rows.len(),
{
    lemma_held_step(rows, key);
    if i == rows.len() - 1 {
        assert(rows.remove(i) =~= rows.drop_last());
    } else {
        let after = rows.remove(i);
        lemma_held_step(after, key);
        lemma_held_removed(rows.drop_last(), i, key);
        assert(after.drop_last() =~= rows.drop_last().remove(i));
    }
}

/// Raising a key adds to what is held of it, and to nothing else.
pub proof fn lemma_raise_adds(rows: Seq<TotalRow>, key: AggregateKey, delta: nat)
    requires
        held(rows, key) + delta <= u64::MAX,
    ensures
        held(raised(rows, key, delta), key) == held(rows, key) + delta,
        forall|other: AggregateKey|
            other != key ==> #[trigger] held(raised(rows, key, delta), other) == held(rows, other),
{
    let after = raised(rows, key, delta);
    lemma_first_where(rows, row_of(key));
    match first_where(rows, row_of(key)) {
        Some(i) => {
            lemma_held_at_least(rows, i, key);
            lemma_held_updated(rows, i, after[i], key);
            assert forall|other: AggregateKey| other != key implies #[trigger] held(after, other)
                == held(rows, other) by {
                lemma_held_updated(rows, i, after[i], other);
            }
        },
        None => {
            assert(after.drop_last() =~= rows);
            lemma_held_none(rows, key);
            lemma_held_step(after, key);
            assert forall|other: AggregateKey| other != key implies #[trigger] held(after, other)
                == held(rows, other) by {
                lemma_held_step(after, other);
            }
        },
    }
}

proof fn lemma_held_at_least(rows: Seq<TotalRow>, i: int, key: AggregateKey)
    requires
        0 <= i < rows.len(),
        rows[i].0 == key,
    ensures
        held(rows, key) >= rows[i].1,
{
    lemma_held_removed(rows, i, key);
    lemma_held_step(rows.remove(i), key);
}

/// Lowering a key takes from what is held of it, as much as there is, and from
/// nothing else; a key of which nothing is left has no row.
pub proof fn lemma_lower_takes(rows: Seq<TotalRow>, key: AggregateKey, count: nat)
    requires
        distinct_keys(rows),
    ensures
        held(lowered(rows, key, count), key) == vstd::math::max(held(rows, key) - count, 0),
        forall|other: AggregateKey|
            other != key ==> #[trigger] held(lowered(rows, key, count), other) == held(rows, other),
        held(rows, key) <= count ==> forall|i: int|
            0 <= i < lowered(rows, key, count).len() ==> (#[trigger] lowered(rows, key, count)[i]).0
                != key,
{
    let after = lowered(rows, key, count);
    lemma_first_where(rows, row_of(key));
    match first_where(rows, row_of(key)) {
        Some(i) => {
            let rest = rows.remove(i);
            assert forall|j: int| 0 <= j < rest.len() implies (#[trigger] rest[j]).0 != key by {
                if j < i {
                    assert(rest[j] == rows[j]);
                } else {
                    assert(rest[j] == rows[j + 1]);
                }
            }
            lemma_held_none(rest, key);
            lemma_held_removed(rows, i, key);
            if rows[i].1 <= count {
                assert forall|other: AggregateKey| other != key implies #[trigger] held(
                    after,
                    other,
                ) == held(rows, other) by {
                    lemma_held_removed(rows, i, other);
                }
            } else {
                lemma_held_updated(rows, i, after[i], key);
                assert forall|other: AggregateKey| other != key implies #[trigger] held(
                    after,
                    other,
                ) == held(rows, other) by {
                    lemma_held_updated(rows, i, after[i], other);
                }
            }
        },
        None => {
            assert forall|j: int| 0 <= j < rows.len() implies (#[trigger] rows[j]).0 != key by {
                assert(!row_of(key)(rows[j]));
            }
            lemma_held_none(rows, key);
        },
    }
}

/// Changes are applied one after the other: all rises first, then all that leaves.
pub proof fn lemma_applied_in_turn<C: Count>(
    rows: Seq<TotalRow>,
    deltas: Seq<(AggregateKey, C)>,
    more: Seq<(AggregateKey, C)>,
)
    ensures
        all_raised(rows, deltas + more) == all_raised(all_raised(rows, deltas), more),
        all_lowered(rows, deltas + more) == all_lowered(all_lowered(rows, deltas), more),
        deltas.len() == 1 ==> all_raised(rows, deltas) == raised(
            rows,
            deltas[0].0,
            deltas[0].1.value(),
        ),
        deltas.len() == 1 ==> all_lowered(rows, deltas) == lowered(
            rows,
            deltas[0].0,
            deltas[0].1.value(),
        ),
        applied(rows, deltas, more) == all_lowered(all_raised(rows, deltas), more),
    decreases more.len(),
{
    if more.len() > 0 {
        lemma_applied_in_turn(rows, deltas, more.drop_last());
        assert((deltas + more).drop_last() =~= deltas + more.drop_last());
    } else {
        assert(deltas + more =~= deltas);
    }
    if deltas.len() == 1 {
        reveal_with_fuel(all_raised, 2);
        reveal_with_fuel(all_lowered, 2);
        assert(deltas.drop_last() =~= Seq::<(AggregateKey, C)>::empty());
    }
}

/// The total is of all rows, and a rule's is of all of its rows.
pub proof fn lemma_totals_are_sums(rows: Seq<TotalRow>, rule: u128)
    ensures
        sum_of(rows) == rows.fold_left(0int, |sum: int, row: TotalRow| sum + row.1),
        rule_sum(rows, rule) == rows.filter(
            |row: TotalRow| row.0.rule_fingerprint == rule,
        ).fold_left(0int, |sum: int, row: TotalRow| sum + row.1),
    decreases rows.len(),
{
    reveal(Seq::filter);
    let p = |row: TotalRow| row.0.rule_fingerprint == rule;
    if rows.len() > 0 {
        lemma_totals_are_sums(rows.drop_last(), rule);
        if p(rows.last()) {
            assert(rows.filter(p).drop_last() =~= rows.drop_last().filter(p));
        }
    }
}

/// Every application is noted: a recording store keeps how many rows came, and a
/// counting one goes up by one, as far as it can.
pub proof fn lemma_applications_noted<C: Count>(
    recording: (InMemoryAggregateStore, InMemoryAggregateStore),
    counting: (BenchAggregateStore, BenchAggregateStore),
    deltas: Seq<(AggregateKey, C)>,
    expirations: Seq<(AggregateKey, C)>,
)
    requires
        deltas.len() <= usize::MAX,
        expirations.len() <= usize::MAX,
        <InMemoryAggregateStore as AggregateStore<C>>::took(recording.0, recording.1, deltas, expirations),
        <BenchAggregateStore as AggregateStore<C>>::took(counting.0, counting.1, deltas, expirations),
    ensures
        recording.1.calls().len() == recording.0.calls().len() + 1,
        recording.0.calls().is_prefix_of(recording.1.calls()),
        recording.1.calls().last().0 == deltas.len(),
        recording.1.calls().last().1 == expirations.len(),
        counting.1.calls() == vstd::math::min(counting.0.calls() + 1, u64::MAX as int),
        recording.0@ == counting.0@ ==> recording.1@ == counting.1@,
{
}

} // verus!
