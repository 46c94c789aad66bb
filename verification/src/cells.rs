//! Counter cells of the digest-based gossip protocol: a bounded table merged
//! by maximum, the ring of recent changes, and shard digests.
//!
//! - A cell is identified by rule, key, bucket, origin node and origin
//!   incarnation.
//! - Merging never lowers a stored count, and is idempotent, commutative and
//!   associative.
//! - The ring of changes is bounded and reports overflow instead of growing.

use crate::bytes::{
    bits_of, le, lemma_le_injective, lemma_pow256_values, lemma_signed_roundtrip, push_le,
    signed_bits,
};
use crate::crdt::KeyHash;
use crate::engine::{capped_sum, told, LocalEngine};
use crate::seqs::{first_where, lemma_first_where, lemma_first_where_at, lemma_first_where_none};
use std::collections::hash_map::DefaultHasher;
use std::hash::Hasher;
use vstd::prelude::*;
use vstd::std_specs::hash::DefaultHasherAdditionalSpecFns;

verus! {

/// Position of a cell in its table.
pub type CellId = usize;

/// Process-local rule number.
pub type RuleId = u32;

/// Cluster-wide node identifier, in two halves.
#[derive(Clone, Copy, Debug, PartialEq, Eq, Hash, Structural)]
pub struct NodeId {
    pub hi: u64,
    pub lo: u64,
}

impl NodeId {
    pub open spec fn spec_from_u128(id: u128) -> NodeId {
        NodeId { hi: (id / 0x1_0000_0000_0000_0000) as u64, lo: (id % 0x1_0000_0000_0000_0000) as u64 }
    }

    pub fn from_u128(id: u128) -> (node: NodeId)
        ensures
            node == Self::spec_from_u128(id),
    {
        NodeId { hi: (id / 0x1_0000_0000_0000_0000) as u64, lo: (id % 0x1_0000_0000_0000_0000) as u64 }
    }
}

/// One origin's count for one key in one bucket.
#[derive(Clone, Copy, Debug, PartialEq, Eq, Hash, Structural)]
pub struct CounterCell {
    pub rule_id: RuleId,
    pub key_hash_hi: u64,
    pub key_hash_lo: u64,
    pub bucket_start_millis: i64,
    pub origin_node_id: NodeId,
    pub origin_incarnation: u64,
    pub count: u64,
    pub last_update_millis: u64,
    pub sequence: u64,
}

/// What makes two cells the same cell.
#[derive(Clone, Copy, Debug, PartialEq, Eq, Structural)]
pub struct CellIdentity {
    pub rule_id: RuleId,
    pub key_hash_hi: u64,
    pub key_hash_lo: u64,
    pub bucket_start_millis: i64,
    pub origin_node_id: NodeId,
    pub origin_incarnation: u64,
}

impl CounterCell {
    pub open spec fn spec_identity(self) -> CellIdentity {
        CellIdentity {
            rule_id: self.rule_id,
            key_hash_hi: self.key_hash_hi,
            key_hash_lo: self.key_hash_lo,
            bucket_start_millis: self.bucket_start_millis,
            origin_node_id: self.origin_node_id,
            origin_incarnation: self.origin_incarnation,
        }
    }

    pub open spec fn spec_key_hash(self) -> KeyHash {
        KeyHash((self.key_hash_hi as nat * 0x1_0000_0000_0000_0000 + self.key_hash_lo as nat) as u128)
    }

    /// The key hash, put together from its halves.
    pub fn key_hash(self) -> (hash: KeyHash)
        ensures
            hash == self.spec_key_hash(),
    {
        KeyHash(self.key_hash_hi as u128 * 0x1_0000_0000_0000_0000 + self.key_hash_lo as u128)
    }

    fn same_identity(self, other: CounterCell) -> (same: bool)
        ensures
            same == (self.spec_identity() == other.spec_identity()),
    {
        self.rule_id == other.rule_id && self.key_hash_hi == other.key_hash_hi && self.key_hash_lo
            == other.key_hash_lo && self.bucket_start_millis == other.bucket_start_millis
            && self.origin_node_id == other.origin_node_id && self.origin_incarnation
            == other.origin_incarnation
    }
}

// -- ring of changes --------------------------------------------------------

/// A change: which cell, and the table's sequence number of the change.
#[derive(Clone, Copy, Debug, PartialEq, Eq, Structural)]
pub struct DirtyEntry {
    pub cell_id: CellId,
    pub sequence: u64,
}

/// The most recent changes, in a ring of fixed size.
pub struct DirtyRing {
    entries: Vec<DirtyEntry>,
    capacity: usize,
    next: usize,
    overflowed: bool,
}

impl DirtyRing {
    /// The kept changes, oldest first.
    pub closed spec fn view(&self) -> Seq<DirtyEntry> {
        Seq::new(
            self.entries@.len(),
            |i: int| self.entries@[(self.next + i) % self.entries@.len() as int],
        )
    }

    pub closed spec fn spec_capacity(&self) -> nat {
        self.capacity as nat
    }

    /// Whether a change has been lost.
    pub closed spec fn spec_overflowed(&self) -> bool {
        self.overflowed
    }

    pub closed spec fn wf(&self) -> bool {
        &&& self.entries@.len() <= self.capacity
        &&& self.entries@.len() < self.capacity || self.capacity == 0 ==> self.next == 0
        &&& self.capacity > 0 ==> self.next < self.capacity
    }

    /// The ring is bounded.
    pub proof fn lemma_bounded(&self)
        requires
            self.wf(),
        ensures
            self@.len() <= self.spec_capacity(),
    {
    }

    pub fn with_capacity(capacity: usize) -> (ring: DirtyRing)
        ensures
            ring.wf(),
            ring@ == Seq::<DirtyEntry>::empty(),
            ring.spec_capacity() == capacity,
            !ring.spec_overflowed(),
    {
        let ring = DirtyRing { entries: Vec::new(), capacity, next: 0, overflowed: false };
        assert(ring@ =~= Seq::<DirtyEntry>::empty());
        ring
    }

    /// Notes a change. A full ring forgets its oldest one and says so.
    pub fn push(&mut self, entry: DirtyEntry)
        requires
            old(self).wf(),
        ensures
            final(self).wf(),
            final(self).spec_capacity() == old(self).spec_capacity(),
            final(self)@ == pushed(old(self)@, old(self).spec_capacity(), entry),
            final(self).spec_overflowed() == (old(self).spec_overflowed() || old(self)@.len()
                == old(self).spec_capacity()),
    {
        let ghost before = self@;
        if self.capacity == 0 {
            self.overflowed = true;
            assert(self@ =~= before);
            return;
        }
        let len: usize = self.entries.len();
        if len == self.capacity {
            self.overflowed = true;
            let at: usize = self.next;
            self.entries.set(at, entry);
            self.next = if at + 1 == self.capacity { 0 } else { at + 1 };
            proof {
                let n = len as int;
                assert forall|i: int| 0 <= i < n implies #[trigger] self@[i] == pushed(
                    before,
                    self.capacity as nat,
                    entry,
                )[i] by {
                    let j = (self.next + i) % n;
                    if i < n - 1 {
                        lemma_ring_step(at as int, i, n);
                        assert(j == (at + (i + 1)) % n);
                        assert(j != at) by {
                            lemma_ring_distinct(at as int, i + 1, n);
                        }
                        assert(before[i + 1] == old(self).entries@[(at + (i + 1)) % n]);
                    } else {
                        lemma_ring_step(at as int, i, n);
                        lemma_ring_wrap(at as int, n);
                        assert(j == at);
                    }
                }
                assert(self@ =~= pushed(before, self.capacity as nat, entry));
            }
        } else {
            self.entries.push(entry);
            proof {
                let n = len as int;
                assert forall|i: int| 0 <= i < n implies #[trigger] before[i] == self.entries@[i] by {
                    vstd::arithmetic::div_mod::lemma_small_mod(i as nat, n as nat);
                }
                assert forall|i: int| 0 <= i <= n implies #[trigger] self@[i] == self.entries@[i] by {
                    vstd::arithmetic::div_mod::lemma_small_mod(i as nat, (n + 1) as nat);
                }
                assert(self@ =~= before.push(entry));
            }
        }
    }

    /// Whether a change has been lost.
    pub fn overflowed(&self) -> (overflowed: bool)
        ensures
            overflowed == self.spec_overflowed(),
    {
        self.overflowed
    }

    /// The kept changes, oldest first.
    pub fn iter(&self) -> (entries: Vec<DirtyEntry>)
        requires
            self.wf(),
        ensures
            entries@ == self@,
    {
        let mut out: Vec<DirtyEntry> = Vec::new();
        let n: usize = self.entries.len();
        let mut i: usize = 0;
        while i < n
            invariant
                self.wf(),
                n == self.entries@.len(),
                i <= n,
                out@.len() == i,
                forall|j: int| 0 <= j < i ==> out@[j] == self@[j],
            decreases n - i,
        {
            let at: usize = if self.next < n - i { self.next + i } else { self.next - (n - i) };
            proof {
                lemma_ring_index(self.next as int, i as int, n as int);
                assert(self@[i as int] == self.entries@[at as int]);
            }
            out.push(self.entries[at]);
            i = i + 1;
        }
        assert(out@ =~= self@);
        out
    }

    /// Number of kept changes.
    pub fn len(&self) -> (len: usize)
        ensures
            len == self@.len(),
    {
        self.entries.len()
    }

    pub fn is_empty(&self) -> (empty: bool)
        ensures
            empty == (self@.len() == 0),
    {
        self.entries.len() == 0
    }
}

/// A bounded queue after a push: the newest `capacity` entries.
pub open spec fn pushed(ring: Seq<DirtyEntry>, capacity: nat, entry: DirtyEntry) -> Seq<
    DirtyEntry,
> {
    if capacity == 0 {
        ring
    } else if ring.len() == capacity {
        ring.drop_first().push(entry)
    } else {
        ring.push(entry)
    }
}

proof fn lemma_ring_step(at: int, i: int, n: int)
    requires
        0 <= at < n,
        0 <= i < n,
    ensures
        ((if at + 1 == n { 0 } else { at + 1 }) + i) % n == (at + (i + 1)) % n,
{
    if at + 1 == n {
        vstd::arithmetic::div_mod::lemma_mod_add_multiples_vanish(i, n);
        assert(n + i == at + (i + 1));
    }
}

proof fn lemma_ring_wrap(at: int, n: int)
    requires
        0 <= at < n,
    ensures
        (at + n) % n == at,
{
    vstd::arithmetic::div_mod::lemma_mod_add_multiples_vanish(at, n);
    vstd::arithmetic::div_mod::lemma_small_mod(at as nat, n as nat);
}

proof fn lemma_ring_index(at: int, i: int, n: int)
    requires
        0 <= at < n,
        0 <= i < n,
    ensures
        (at + i) % n == if at < n - i {
            at + i
        } else {
            at - (n - i)
        },
{
    if at < n - i {
        vstd::arithmetic::div_mod::lemma_small_mod((at + i) as nat, n as nat);
    } else {
        vstd::arithmetic::div_mod::lemma_mod_add_multiples_vanish(at + i - n, n);
        vstd::arithmetic::div_mod::lemma_small_mod((at + i - n) as nat, n as nat);
    }
}

proof fn lemma_ring_distinct(at: int, i: int, n: int)
    requires
        0 <= at < n,
        0 < i < n,
    ensures
        (at + i) % n != at,
{
    lemma_ring_index(at, i, n);
}

// -- table ------------------------------------------------------------------

/// What a merge did.
#[derive(Clone, Copy, Debug, PartialEq, Eq, Structural)]
pub struct MergeOutcome {
    pub cell_id: CellId,
    /// By how much the stored count grew.
    pub delta: u64,
    pub changed: bool,
}

/// The table has no room for another cell.
#[derive(Clone, Copy, Debug, PartialEq, Eq, Structural)]
pub struct CellTableFull;

pub open spec fn is_cell(id: CellIdentity) -> spec_fn(CounterCell) -> bool {
    |cell: CounterCell| cell.spec_identity() == id
}

/// A table's contents.
#[verifier::ext_equal]
pub struct TableState {
    pub cells: Seq<CounterCell>,
    pub capacity: nat,
    pub sequence: u64,
    pub dirty: Seq<DirtyEntry>,
    pub dirty_capacity: nat,
    pub overflowed: bool,
}

impl TableState {
    pub open spec fn position(self, id: CellIdentity) -> Option<int> {
        first_where(self.cells, is_cell(id))
    }

    /// No two cells are the same cell, nothing outgrows its capacity, and the
    /// ring of changes points at cells that are there.
    pub open spec fn valid(self) -> bool {
        &&& self.cells.len() <= self.capacity
        &&& self.dirty.len() <= self.dirty_capacity
        &&& forall|i: int, j: int|
            0 <= i < j < self.cells.len() ==> (#[trigger] self.cells[i]).spec_identity() != (
            #[trigger] self.cells[j]).spec_identity()
        &&& forall|i: int|
            0 <= i < self.dirty.len() ==> (#[trigger] self.dirty[i]).cell_id < self.cells.len()
    }

    /// A cell written at `i`, with the change noted.
    pub open spec fn written(self, i: int, cell: CounterCell) -> TableState {
        let cell = CounterCell { sequence: capped_sum(self.sequence, 1), ..cell };
        TableState {
            cells: if i < self.cells.len() {
                self.cells.update(i, cell)
            } else {
                self.cells.push(cell)
            },
            sequence: cell.sequence,
            dirty: pushed(
                self.dirty,
                self.dirty_capacity,
                DirtyEntry { cell_id: i as usize, sequence: cell.sequence },
            ),
            overflowed: self.overflowed || self.dirty.len() == self.dirty_capacity,
            ..self
        }
    }

    /// A local count added to the stored one.
    pub open spec fn upserted(self, cell: CounterCell) -> Result<(TableState, int), CellTableFull> {
        match self.position(cell.spec_identity()) {
            Some(i) => {
                let stored = self.cells[i];
                Ok(
                    (
                        self.written(
                            i,
                            CounterCell {
                                count: capped_sum(stored.count, cell.count),
                                last_update_millis: cell.last_update_millis,
                                ..stored
                            },
                        ),
                        i,
                    ),
                )
            },
            None => if self.cells.len() < self.capacity {
                Ok((self.written(self.cells.len() as int, cell), self.cells.len() as int))
            } else {
                Err(CellTableFull)
            },
        }
    }

    /// A cell heard of, merged by maximum.
    pub open spec fn merged(self, cell: CounterCell) -> Result<
        (TableState, MergeOutcome),
        CellTableFull,
    > {
        match self.position(cell.spec_identity()) {
            Some(i) => {
                let stored = self.cells[i];
                if cell.count > stored.count {
                    Ok(
                        (
                            self.written(
                                i,
                                CounterCell {
                                    count: cell.count,
                                    last_update_millis: cell.last_update_millis,
                                    ..stored
                                },
                            ),
                            MergeOutcome {
                                cell_id: i as usize,
                                delta: (cell.count - stored.count) as u64,
                                changed: true,
                            },
                        ),
                    )
                } else {
                    Ok((self, MergeOutcome { cell_id: i as usize, delta: 0, changed: false }))
                }
            },
            None => if self.cells.len() < self.capacity {
                Ok(
                    (
                        self.written(self.cells.len() as int, cell),
                        MergeOutcome {
                            cell_id: self.cells.len() as usize,
                            delta: cell.count,
                            changed: cell.count != 0,
                        },
                    ),
                )
            } else {
                Err(CellTableFull)
            },
        }
    }

    /// The count stored of each cell.
    pub open spec fn counts(self) -> Map<CellIdentity, u64> {
        Map::new(
            |id: CellIdentity| self.position(id) is Some,
            |id: CellIdentity| self.cells[self.position(id)->0].count,
        )
    }
}

/// Start of a bucket as an unsigned time.
pub open spec fn bucket_time(bucket_start_millis: i64) -> u64 {
    if bucket_start_millis < 0 {
        0
    } else {
        bucket_start_millis as u64
    }
}

/// A bounded table of cells.
pub struct CellTable {
    cells: Vec<CounterCell>,
    capacity: usize,
    sequence: u64,
    dirty: DirtyRing,
    dirty_capacity: usize,
}

impl CellTable {
    pub closed spec fn view(&self) -> TableState {
        TableState {
            cells: self.cells@,
            capacity: self.capacity as nat,
            sequence: self.sequence,
            dirty: self.dirty@,
            dirty_capacity: self.dirty_capacity as nat,
            overflowed: self.dirty.spec_overflowed(),
        }
    }

    pub closed spec fn wf(&self) -> bool {
        &&& self.dirty.wf()
        &&& self.dirty.spec_capacity() == self.dirty_capacity
        &&& self@.valid()
    }

    pub proof fn lemma_valid(&self)
        requires
            self.wf(),
        ensures
            self@.valid(),
            self@.capacity <= usize::MAX,
    {
    }

    /// An empty table with room for `max_cells` cells.
    pub fn with_capacity(max_cells: usize, dirty_capacity: usize) -> (table: CellTable)
        ensures
            table.wf(),
            table@ == (TableState {
                cells: Seq::empty(),
                capacity: max_cells as nat,
                sequence: 0,
                dirty: Seq::empty(),
                dirty_capacity: dirty_capacity as nat,
                overflowed: false,
            }),
    {
        CellTable {
            cells: Vec::new(),
            capacity: max_cells,
            sequence: 0,
            dirty: DirtyRing::with_capacity(dirty_capacity),
            dirty_capacity,
        }
    }

    /// Number of stored cells.
    pub fn active_cell_count(&self) -> (count: usize)
        ensures
            count == self@.cells.len(),
    {
        self.cells.len()
    }

    /// Whether a change has been forgotten.
    pub fn dirty_overflowed(&self) -> (overflowed: bool)
        ensures
            overflowed == self@.overflowed,
    {
        self.dirty.overflowed()
    }

    /// Number of remembered changes.
    pub fn dirty_len(&self) -> (len: usize)
        ensures
            len == self@.dirty.len(),
    {
        self.dirty.len()
    }

    /// The stored cells, each with its place.
    pub fn cells(&self) -> (cells: Vec<(CellId, CounterCell)>)
        ensures
            cells@ == Seq::new(
                self@.cells.len(),
                |i: int| (i as usize, self@.cells[i]),
            ),
    {
        let mut out: Vec<(CellId, CounterCell)> = Vec::new();
        let mut i: usize = 0;
        while i < self.cells.len()
            invariant
                i <= self.cells@.len(),
                out@.len() == i,
                forall|j: int| 0 <= j < i ==> #[trigger] out@[j] == (j as usize, self.cells@[j]),
            decreases self.cells@.len() - i,
        {
            out.push((i, self.cells[i]));
            i = i + 1;
        }
        assert(out@ =~= Seq::new(self@.cells.len(), |i: int| (i as usize, self@.cells[i])));
        out
    }

    /// The cells of the remembered changes, oldest change first.
    pub fn dirty_cells(&self) -> (cells: Vec<CounterCell>)
        requires
            self.wf(),
        ensures
            cells@ == Seq::new(
                self@.dirty.len(),
                |i: int| self@.cells[self@.dirty[i].cell_id as int],
            ),
    {
        let entries = self.dirty.iter();
        let mut out: Vec<CounterCell> = Vec::new();
        let mut i: usize = 0;
        while i < entries.len()
            invariant
                self.wf(),
                entries@ == self.dirty@,
                i <= entries@.len(),
                out@.len() == i,
                forall|j: int|
                    0 <= j < i ==> #[trigger] out@[j] == self.cells@[entries@[j].cell_id as int],
            decreases entries@.len() - i,
        {
            assert(self@.dirty[i as int].cell_id < self.cells@.len());
            out.push(self.cells[entries[i].cell_id]);
            i = i + 1;
        }
        assert(out@ =~= Seq::new(
            self@.dirty.len(),
            |i: int| self@.cells[self@.dirty[i].cell_id as int],
        ));
        out
    }

    /// Number of cells there is room for.
    pub fn capacity(&self) -> (capacity: usize)
        ensures
            capacity == self@.capacity,
    {
        self.capacity
    }

    fn find_cell(&self, incoming: CounterCell) -> (place: Option<usize>)
        ensures
            match place {
                Some(i) => self@.position(incoming.spec_identity()) == Some(i as int) && i
                    < self@.cells.len(),
                None => self@.position(incoming.spec_identity()) is None,
            },
    {
        let ghost p = is_cell(incoming.spec_identity());
        let mut i: usize = 0;
        while i < self.cells.len()
            invariant
                i <= self.cells@.len(),
                p == is_cell(incoming.spec_identity()),
                forall|j: int| 0 <= j < i ==> !p(#[trigger] self.cells@[j]),
            decreases self.cells@.len() - i,
        {
            if self.cells[i].same_identity(incoming) {
                proof {
                    lemma_first_where_at(self.cells@, p, i as int);
                }
                return Some(i);
            }
            i = i + 1;
        }
        proof {
            lemma_first_where_none(self.cells@, p);
        }
        None
    }

    fn write(&mut self, i: usize, cell: CounterCell)
        requires
            old(self).wf(),
            i <= old(self)@.cells.len(),
            i < old(self)@.capacity,
            i < old(self)@.cells.len() ==> cell.spec_identity()
                == old(self)@.cells[i as int].spec_identity(),
            i == old(self)@.cells.len() ==> old(self)@.position(cell.spec_identity()) is None,
        ensures
            final(self).wf(),
            final(self)@ == old(self)@.written(i as int, cell),
    {
        let ghost before = self@;
        let mut cell = cell;
        self.sequence = self.sequence.saturating_add(1);
        cell.sequence = self.sequence;
        if i < self.cells.len() {
            self.cells.set(i, cell);
        } else {
            self.cells.push(cell);
        }
        self.dirty.push(DirtyEntry { cell_id: i, sequence: self.sequence });
        proof {
            assert(self@ =~= before.written(i as int, cell));
            lemma_written_valid(before, i as int, cell);
        }
    }

    /// Adds a local count to the stored one, saturating. Fails only if the cell
    /// is new and the table full.
    pub fn upsert_local(&mut self, cell: CounterCell) -> (outcome: Result<CellId, CellTableFull>)
        requires
            old(self).wf(),
        ensures
            final(self).wf(),
            match old(self)@.upserted(cell) {
                Ok((state, i)) => final(self)@ == state && outcome == Ok::<CellId, CellTableFull>(
                    i as usize,
                ),
                Err(full) => final(self)@ == old(self)@ && outcome == Err::<CellId, CellTableFull>(
                    full,
                ),
            },
    {
        match self.find_cell(cell) {
            Some(i) => {
                let mut stored = self.cells[i];
                proof {
                    lemma_first_where(self.cells@, is_cell(cell.spec_identity()));
                }
                stored.count = stored.count.saturating_add(cell.count);
                stored.last_update_millis = cell.last_update_millis;
                self.write(i, stored);
                Ok(i)
            },
            None => {
                let i: usize = self.cells.len();
                if i < self.capacity {
                    self.write(i, cell);
                    Ok(i)
                } else {
                    Err(CellTableFull)
                }
            },
        }
    }

    fn merge(&mut self, incoming: CounterCell) -> (outcome: Result<MergeOutcome, CellTableFull>)
        requires
            old(self).wf(),
        ensures
            final(self).wf(),
            match old(self)@.merged(incoming) {
                Ok((state, merged)) => final(self)@ == state && outcome == Ok::<
                    MergeOutcome,
                    CellTableFull,
                >(merged),
                Err(full) => final(self)@ == old(self)@ && outcome == Err::<
                    MergeOutcome,
                    CellTableFull,
                >(full),
            },
    {
        match self.find_cell(incoming) {
            Some(i) => {
                let mut stored = self.cells[i];
                proof {
                    lemma_first_where(self.cells@, is_cell(incoming.spec_identity()));
                }
                if incoming.count > stored.count {
                    let delta: u64 = incoming.count - stored.count;
                    stored.count = incoming.count;
                    stored.last_update_millis = incoming.last_update_millis;
                    self.write(i, stored);
                    Ok(MergeOutcome { cell_id: i, delta, changed: true })
                } else {
                    Ok(MergeOutcome { cell_id: i, delta: 0, changed: false })
                }
            },
            None => {
                let i: usize = self.cells.len();
                if i < self.capacity {
                    self.write(i, incoming);
                    Ok(
                        MergeOutcome {
                            cell_id: i,
                            delta: incoming.count,
                            changed: incoming.count != 0,
                        },
                    )
                } else {
                    Err(CellTableFull)
                }
            },
        }
    }

    /// Merges a cell heard of by maximum, and hands the growth to a limiter as
    /// an estimate. Fails only if the cell is new and the table full.
    pub fn merge_remote(
        &mut self,
        incoming: CounterCell,
        engine: Option<&mut LocalEngine>,
        now_millis: u64,
    ) -> (outcome: Result<MergeOutcome, CellTableFull>)
        requires
            old(self).wf(),
            engine matches Some(e) ==> e.wf(),
        ensures
            final(self).wf(),
            match old(self)@.merged(incoming) {
                Ok((state, merged)) => final(self)@ == state && outcome == Ok::<
                    MergeOutcome,
                    CellTableFull,
                >(merged),
                Err(full) => final(self)@ == old(self)@ && outcome == Err::<
                    MergeOutcome,
                    CellTableFull,
                >(full),
            },
            engine matches Some(e) ==> {
                &&& final(e).wf()
                &&& final(e).spec_rules() == e.spec_rules()
                &&& match old(self)@.merged(incoming) {
                    Ok((_, merged)) => if merged.delta == 0 {
                        final(e)@ == e@
                    } else {
                        final(e)@ == told(
                            e@,
                            e.spec_rules(),
                            incoming.rule_id,
                            incoming.spec_key_hash(),
                            bucket_time(incoming.bucket_start_millis),
                            now_millis,
                            merged.delta,
                        )
                    },
                    Err(_) => final(e)@ == e@,
                }
            },
    {
        let outcome = match self.merge(incoming) {
            Ok(outcome) => outcome,
            Err(full) => {
                return Err(full);
            },
        };
        if outcome.delta == 0 {
            return Ok(outcome);
        }
        match engine {
            Some(engine) => {
                let bucket: u64 = if incoming.bucket_start_millis < 0 {
                    0
                } else {
                    incoming.bucket_start_millis as u64
                };
                engine.add_remote_estimate(
                    incoming.rule_id,
                    incoming.key_hash(),
                    bucket,
                    now_millis,
                    outcome.delta,
                );
            },
            None => {},
        }
        Ok(outcome)
    }

    /// The digest of a shard of the stored cells.
    pub fn digest(&self, shard_id: u16, shard_count: u16) -> (digest: ShardDigest)
        ensures
            digest == digested(self@.cells, shard_id, shard_count),
    {
        digest_cells(self.cells.as_slice(), shard_id, shard_count)
    }
}

proof fn lemma_written_valid(before: TableState, i: int, cell: CounterCell)
    requires
        before.valid(),
        before.capacity <= usize::MAX,
        0 <= i <= before.cells.len(),
        i < before.capacity,
        i < before.cells.len() ==> cell.spec_identity() == before.cells[i].spec_identity(),
        i == before.cells.len() ==> before.position(cell.spec_identity()) is None,
    ensures
        before.written(i, cell).valid(),
{
    let after = before.written(i, cell);
    assert forall|j: int, k: int| 0 <= j < k < after.cells.len() implies (
    #[trigger] after.cells[j]).spec_identity() != (#[trigger] after.cells[k]).spec_identity() by {
        if i == before.cells.len() {
            lemma_first_where(before.cells, is_cell(cell.spec_identity()));
            if k == i {
                assert(!is_cell(cell.spec_identity())(before.cells[j]));
            } else {
                assert(before.cells[j].spec_identity() != before.cells[k].spec_identity());
            }
        } else {
            assert(before.cells[j].spec_identity() != before.cells[k].spec_identity());
        }
    }
    assert forall|j: int| 0 <= j < after.dirty.len() implies (#[trigger] after.dirty[j]).cell_id
        < after.cells.len() by {
        if before.dirty.len() == before.dirty_capacity && before.dirty_capacity > 0 {
            if j < after.dirty.len() - 1 {
                assert(after.dirty[j] == before.dirty[j + 1]);
            }
        } else if before.dirty_capacity > 0 && j < before.dirty.len() {
            assert(after.dirty[j] == before.dirty[j]);
        }
    }
}

// -- merge laws -------------------------------------------------------------

pub open spec fn larger_count(a: u64, b: u64) -> u64 {
    if a < b {
        b
    } else {
        a
    }
}

/// Counts with one more cell merged in.
pub open spec fn with_cell(counts: Map<CellIdentity, u64>, cell: CounterCell) -> Map<
    CellIdentity,
    u64,
> {
    let id = cell.spec_identity();
    counts.insert(
        id,
        if counts.dom().contains(id) {
            larger_count(counts[id], cell.count)
        } else {
            cell.count
        },
    )
}

/// Counts with a run of cells merged in, one after the other.
pub open spec fn with_cells(counts: Map<CellIdentity, u64>, cells: Seq<CounterCell>) -> Map<
    CellIdentity,
    u64,
>
    decreases cells.len(),
{
    if cells.len() == 0 {
        counts
    } else {
        with_cell(with_cells(counts, cells.drop_last()), cells.last())
    }
}

/// Two tables' counts joined: the larger count of each cell.
pub open spec fn joined_counts(a: Map<CellIdentity, u64>, b: Map<CellIdentity, u64>) -> Map<
    CellIdentity,
    u64,
> {
    Map::new(
        |id: CellIdentity| a.dom().contains(id) || b.dom().contains(id),
        |id: CellIdentity|
            if !a.dom().contains(id) {
                b[id]
            } else if !b.dom().contains(id) {
                a[id]
            } else {
                larger_count(a[id], b[id])
            },
    )
}

/// Merging a cell into a table takes the larger of the two counts, and touches
/// no other cell. It never lowers a count.
pub proof fn lemma_merge_takes_larger(state: TableState, cell: CounterCell)
    requires
        state.valid(),
        state.capacity <= usize::MAX,
    ensures
        state.merged(cell) matches Ok((after, outcome)) ==> {
            &&& after.valid()
            &&& after.counts() == with_cell(state.counts(), cell)
            &&& forall|id: CellIdentity|
                #![trigger after.counts()[id]]
                state.counts().dom().contains(id) ==> after.counts().dom().contains(id)
                    && after.counts()[id] >= state.counts()[id]
        },
        state.merged(cell) is Err <==> state.position(cell.spec_identity()) is None
            && state.cells.len() == state.capacity,
{
    let id = cell.spec_identity();
    lemma_first_where(state.cells, is_cell(id));
    if let Ok((after, outcome)) = state.merged(cell) {
        match state.position(id) {
            Some(i) => {
                if cell.count > state.cells[i].count {
                    let raised = CounterCell {
                        count: cell.count,
                        last_update_millis: cell.last_update_millis,
                        ..state.cells[i]
                    };
                    lemma_written_valid(state, i, raised);
                    assert forall|other: CellIdentity| true implies after.position(other)
                        == state.position(other) by {
                        lemma_same_positions(state.cells, after.cells, other);
                    }
                    assert forall|other: CellIdentity| state.position(other) is Some implies (
                    #[trigger] after.cells[after.position(other)->0]).count == if other == id {
                        cell.count
                    } else {
                        state.cells[state.position(other)->0].count
                    } by {
                        lemma_first_where(state.cells, is_cell(other));
                    }
                }
            },
            None => {
                let n = state.cells.len() as int;
                lemma_written_valid(state, n, cell);
                assert forall|other: CellIdentity| true implies after.position(other) == if other
                    == id {
                    Some(n)
                } else {
                    state.position(other)
                } by {
                    assert(after.cells.drop_last() =~= state.cells);
                }
                assert forall|other: CellIdentity| state.position(other) is Some implies (
                #[trigger] after.cells[state.position(other)->0])
                    == state.cells[state.position(other)->0] by {
                    lemma_first_where(state.cells, is_cell(other));
                }
            },
        }
        assert(after.counts() =~= with_cell(state.counts(), cell));
        assert forall|other: CellIdentity| state.counts().dom().contains(other) implies
            after.counts().dom().contains(other) && #[trigger] after.counts()[other]
            >= state.counts()[other] by {
            assert(with_cell(state.counts(), cell).dom().contains(other));
        }
    }
}

proof fn lemma_same_positions(a: Seq<CounterCell>, b: Seq<CounterCell>, id: CellIdentity)
    requires
        a.len() == b.len(),
        forall|i: int|
            0 <= i < a.len() ==> (#[trigger] a[i]).spec_identity() == b[i].spec_identity(),
    ensures
        first_where(a, is_cell(id)) == first_where(b, is_cell(id)),
{
    lemma_first_where(a, is_cell(id));
    match first_where(a, is_cell(id)) {
        Some(i) => {
            assert forall|j: int| 0 <= j < i implies !is_cell(id)(#[trigger] b[j]) by {
                assert(!is_cell(id)(a[j]));
            }
            lemma_first_where_at(b, is_cell(id), i);
        },
        None => {
            assert forall|j: int| 0 <= j < b.len() implies !is_cell(id)(#[trigger] b[j]) by {
                assert(!is_cell(id)(a[j]));
            }
            lemma_first_where_none(b, is_cell(id));
        },
    }
}

/// Merging a cell twice is merging it once.
pub proof fn lemma_merge_idempotent(counts: Map<CellIdentity, u64>, cell: CounterCell)
    ensures
        with_cell(with_cell(counts, cell), cell) == with_cell(counts, cell),
{
    assert(with_cell(with_cell(counts, cell), cell) =~= with_cell(counts, cell));
}

/// The order in which two cells are merged does not matter.
pub proof fn lemma_merge_commutative(
    counts: Map<CellIdentity, u64>,
    a: CounterCell,
    b: CounterCell,
)
    ensures
        with_cell(with_cell(counts, a), b) == with_cell(with_cell(counts, b), a),
{
    assert(with_cell(with_cell(counts, a), b) =~= with_cell(with_cell(counts, b), a));
}

/// Merging a run of cells is joining their own counts: how the cells are
/// grouped, ordered or repeated does not matter, as joining is associative,
/// commutative and idempotent.
pub proof fn lemma_merge_is_join(counts: Map<CellIdentity, u64>, cells: Seq<CounterCell>)
    ensures
        with_cells(counts, cells) == joined_counts(counts, with_cells(Map::empty(), cells)),
    decreases cells.len(),
{
    if cells.len() == 0 {
        assert(joined_counts(counts, Map::empty()) =~= counts);
    } else {
        lemma_merge_is_join(counts, cells.drop_last());
        assert(with_cells(counts, cells) =~= joined_counts(
            counts,
            with_cells(Map::empty(), cells),
        ));
    }
}

/// Joining counts is associative, commutative and idempotent.
pub proof fn lemma_join_laws(
    a: Map<CellIdentity, u64>,
    b: Map<CellIdentity, u64>,
    c: Map<CellIdentity, u64>,
)
    ensures
        joined_counts(joined_counts(a, b), c) == joined_counts(a, joined_counts(b, c)),
        joined_counts(a, b) == joined_counts(b, a),
        joined_counts(a, a) == a,
{
    assert(joined_counts(joined_counts(a, b), c) =~= joined_counts(a, joined_counts(b, c)));
    assert(joined_counts(a, b) =~= joined_counts(b, a));
    assert(joined_counts(a, a) =~= a);
}

// -- digests ----------------------------------------------------------------

/// A fingerprint of the cells of one shard.
#[derive(Clone, Copy, Debug, PartialEq, Eq, Structural)]
pub struct ShardDigest {
    pub shard_id: u16,
    pub active_cell_count: u32,
    pub max_sequence: u64,
    pub checksum: u64,
}

/// The shard a cell belongs to.
pub open spec fn shard_of(cell: CounterCell, shard_count: u16) -> u16 {
    if shard_count == 0 {
        0
    } else {
        ((cell.key_hash_hi ^ cell.key_hash_lo) as u16) % shard_count
    }
}

fn shard_for(cell: CounterCell, shard_count: u16) -> (shard: u16)
    ensures
        shard == shard_of(cell, shard_count),
{
    if shard_count == 0 {
        return 0;
    }
    let bits: u64 = cell.key_hash_hi ^ cell.key_hash_lo;
    #[verifier::truncate]
    let low: u16 = bits as u16;
    low % shard_count
}

/// What of a cell goes into its checksum: its identity and its count, field by
/// field.
pub open spec fn checksum_input(cell: CounterCell) -> Seq<Seq<u8>> {
    seq![
        le(cell.rule_id as nat, 4),
        le(cell.key_hash_hi as nat, 8),
        le(cell.key_hash_lo as nat, 8),
        le(signed_bits(cell.bucket_start_millis) as nat, 8),
        le(cell.origin_node_id.hi as nat, 8),
        le(cell.origin_node_id.lo as nat, 8),
        le(cell.origin_incarnation as nat, 8),
        le(cell.count as nat, 8),
    ]
}

pub open spec fn checksum_of(cell: CounterCell) -> u64 {
    DefaultHasher::spec_finish(checksum_input(cell))
}

fn hash_number(hasher: &mut DefaultHasher, v: u64, width: usize)
    ensures
        final(hasher)@ == old(hasher)@.push(le(v as nat, width as nat)),
{
    let mut bytes: Vec<u8> = Vec::new();
    push_le(&mut bytes, v as u128, width);
    assert(bytes@ =~= le(v as nat, width as nat));
    hasher.write(bytes.as_slice());
}

fn cell_checksum(cell: CounterCell) -> (checksum: u64)
    ensures
        checksum == checksum_of(cell),
{
    let mut hasher = DefaultHasher::new();
    hash_number(&mut hasher, cell.rule_id as u64, 4);
    hash_number(&mut hasher, cell.key_hash_hi, 8);
    hash_number(&mut hasher, cell.key_hash_lo, 8);
    hash_number(&mut hasher, bits_of(cell.bucket_start_millis), 8);
    hash_number(&mut hasher, cell.origin_node_id.hi, 8);
    hash_number(&mut hasher, cell.origin_node_id.lo, 8);
    hash_number(&mut hasher, cell.origin_incarnation, 8);
    hash_number(&mut hasher, cell.count, 8);
    assert(hasher@ =~= checksum_input(cell));
    hasher.finish()
}

/// The digest of the cells of one shard: how many there are, their highest
/// sequence number, and their checksums folded by exclusive or.
pub open spec fn digested(cells: Seq<CounterCell>, shard_id: u16, shard_count: u16) -> ShardDigest
    decreases cells.len(),
{
    if cells.len() == 0 {
        ShardDigest { shard_id, active_cell_count: 0, max_sequence: 0, checksum: 0 }
    } else {
        let before = digested(cells.drop_last(), shard_id, shard_count);
        let cell = cells.last();
        if shard_of(cell, shard_count) != shard_id {
            before
        } else {
            ShardDigest {
                shard_id,
                active_cell_count: if before.active_cell_count == u32::MAX {
                    u32::MAX
                } else {
                    (before.active_cell_count + 1) as u32
                },
                max_sequence: larger_count(before.max_sequence, cell.sequence),
                checksum: before.checksum ^ checksum_of(cell),
            }
        }
    }
}

/// The digest of the cells of one shard.
pub fn digest_cells(cells: &[CounterCell], shard_id: u16, shard_count: u16) -> (digest:
    ShardDigest)
    ensures
        digest == digested(cells@, shard_id, shard_count),
{
    let mut digest = ShardDigest {
        shard_id,
        active_cell_count: 0,
        max_sequence: 0,
        checksum: 0,
    };
    let mut i: usize = 0;
    assert(cells@.take(0) =~= Seq::<CounterCell>::empty());
    while i < cells.len()
        invariant
            i <= cells@.len(),
            digest == digested(cells@.take(i as int), shard_id, shard_count),
        decreases cells@.len() - i,
    {
        let cell = cells[i];
        assert(cells@.take(i + 1).drop_last() =~= cells@.take(i as int));
        if shard_for(cell, shard_count) == shard_id {
            digest = ShardDigest {
                shard_id,
                active_cell_count: digest.active_cell_count.saturating_add(1),
                max_sequence: if digest.max_sequence < cell.sequence {
                    cell.sequence
                } else {
                    digest.max_sequence
                },
                checksum: digest.checksum ^ cell_checksum(cell),
            };
        }
        i = i + 1;
    }
    assert(cells@.take(i as int) =~= cells@);
    digest
}

// -- what merging reports ---------------------------------------------------

/// What a merge reports is what it did: the cell it speaks of holds the larger of
/// both counts, and rose by what is reported; a count that is not larger changes
/// nothing. Only a new cell for which there is no room is refused.
pub proof fn lemma_merge_reports_rise(state: TableState, cell: CounterCell)
    requires
        state.valid(),
        state.capacity <= usize::MAX,
        state.sequence < u64::MAX,
    ensures
        ({
            let known = exists|i: int|
                0 <= i < state.cells.len() && (#[trigger] state.cells[i]).spec_identity()
                    == cell.spec_identity();
            match state.merged(cell) {
                Ok((after, outcome)) => {
                    let i = outcome.cell_id as int;
                    let held = if i < state.cells.len() {
                        state.cells[i].count
                    } else {
                        0
                    };
                    &&& 0 <= i < after.cells.len()
                    &&& after.cells[i].spec_identity() == cell.spec_identity()
                    &&& after.cells[i].count == vstd::math::max(held as int, cell.count as int)
                    &&& outcome.delta == after.cells[i].count - held
                    &&& outcome.changed <==> outcome.delta > 0
                    &&& known ==> after.cells.len() == state.cells.len()
                    &&& !known ==> i == state.cells.len() && after.cells.len() == i + 1
                    &&& known && !outcome.changed ==> after == state
                    &&& after != state ==> after.cells[i].last_update_millis
                        == cell.last_update_millis && after.cells[i].sequence == state.sequence + 1
                        && after.sequence == state.sequence + 1
                    &&& forall|j: int|
                        0 <= j < state.cells.len() && j != i ==> after.cells[j]
                            == #[trigger] state.cells[j]
                },
                Err(_) => !known && state.cells.len() == state.capacity,
            }
        }),
{
    lemma_first_where(state.cells, is_cell(cell.spec_identity()));
    if let Some(i) = state.position(cell.spec_identity()) {
        assert(state.cells[i].spec_identity() == cell.spec_identity());
    }
}

/// Counting adds: a cell holds what it held and what was counted, as far as 64 bits
/// hold it, and no other cell changes. Only a new cell for which there is no room is
/// refused.
pub proof fn lemma_upsert_adds(state: TableState, cell: CounterCell)
    requires
        state.valid(),
        state.capacity <= usize::MAX,
        state.sequence < u64::MAX,
    ensures
        ({
            let known = exists|i: int|
                0 <= i < state.cells.len() && (#[trigger] state.cells[i]).spec_identity()
                    == cell.spec_identity();
            match state.upserted(cell) {
                Ok((after, i)) => {
                    let held = if i < state.cells.len() {
                        state.cells[i].count
                    } else {
                        0
                    };
                    &&& 0 <= i < after.cells.len()
                    &&& after.cells[i].spec_identity() == cell.spec_identity()
                    &&& after.cells[i].count == vstd::math::min(
                        held + cell.count,
                        u64::MAX as int,
                    )
                    &&& after.cells[i].last_update_millis == cell.last_update_millis
                    &&& after.cells[i].sequence == state.sequence + 1
                    &&& after.sequence == state.sequence + 1
                    &&& known ==> after.cells.len() == state.cells.len()
                    &&& !known ==> i == state.cells.len() && after.cells.len() == i + 1
                    &&& forall|j: int|
                        0 <= j < state.cells.len() && j != i ==> after.cells[j]
                            == #[trigger] state.cells[j]
                },
                Err(_) => !known && state.cells.len() == state.capacity,
            }
        }),
{
    lemma_first_where(state.cells, is_cell(cell.spec_identity()));
    if let Some(i) = state.position(cell.spec_identity()) {
        assert(state.cells[i].spec_identity() == cell.spec_identity());
    }
}

/// A cell that is written is the last of the changes that are remembered, and that
/// some were forgotten is remembered, too.
pub proof fn lemma_write_noted(state: TableState, i: int, cell: CounterCell)
    requires
        state.valid(),
        0 < state.dirty_capacity,
        0 <= i <= state.cells.len(),
        i <= usize::MAX,
        state.sequence < u64::MAX,
    ensures
        ({
            let after = state.written(i, cell);
            &&& after.dirty.len() > 0
            &&& after.dirty.last().cell_id == i
            &&& after.dirty.last().sequence == state.sequence + 1
            &&& after.dirty.drop_last().is_suffix_of(state.dirty)
            &&& state.dirty.len() < state.dirty_capacity ==> after.dirty.len() == state.dirty.len()
                + 1
            &&& after.overflowed <==> state.overflowed || state.dirty.len() == state.dirty_capacity
        }),
{
}

// -- digests ----------------------------------------------------------------

/// A digest counts the cells of its shard and knows the latest of their changes.
pub proof fn lemma_digest_counts(cells: Seq<CounterCell>, shard_id: u16, shard_count: u16)
    requires
        cells.len() <= u32::MAX,
    ensures
        ({
            let digest = digested(cells, shard_id, shard_count);
            &&& digest.shard_id == shard_id
            &&& digest.active_cell_count == cells.filter(
                |cell: CounterCell| shard_of(cell, shard_count) == shard_id,
            ).len()
            &&& digest.active_cell_count <= cells.len()
            &&& forall|i: int|
                0 <= i < cells.len() && shard_of(#[trigger] cells[i], shard_count) == shard_id
                    ==> cells[i].sequence <= digest.max_sequence
            &&& digest.max_sequence > 0 ==> exists|i: int|
                0 <= i < cells.len() && shard_of(#[trigger] cells[i], shard_count) == shard_id
                    && cells[i].sequence == digest.max_sequence
        }),
    decreases cells.len(),
{
    reveal(Seq::filter);
    if cells.len() > 0 {
        let front = cells.drop_last();
        lemma_digest_counts(front, shard_id, shard_count);
        let was = digested(front, shard_id, shard_count);
        let digest = digested(cells, shard_id, shard_count);
        assert(cells[cells.len() - 1] == cells.last());
        assert forall|i: int| 0 <= i < cells.len() && shard_of(
            #[trigger] cells[i],
            shard_count,
        ) == shard_id implies cells[i].sequence <= digest.max_sequence by {
            if i < front.len() {
                assert(front[i] == cells[i]);
            }
        }
        if digest.max_sequence > 0 {
            if digest.max_sequence == was.max_sequence {
                let i = choose|i: int|
                    0 <= i < front.len() && shard_of(#[trigger] front[i], shard_count) == shard_id
                        && front[i].sequence == was.max_sequence;
                assert(cells[i] == front[i]);
            }
        }
    }
}

/// Digests of two lots of cells make up that of both: the checksum is that of the
/// one and the other, in whichever order they come.
pub proof fn lemma_digests_combine(
    a: Seq<CounterCell>,
    b: Seq<CounterCell>,
    shard_id: u16,
    shard_count: u16,
)
    ensures
        digested(a + b, shard_id, shard_count).checksum == digested(
            a,
            shard_id,
            shard_count,
        ).checksum ^ digested(b, shard_id, shard_count).checksum,
        digested(a + b, shard_id, shard_count).checksum == digested(
            b + a,
            shard_id,
            shard_count,
        ).checksum,
{
    lemma_checksums_combine(a, b, shard_id, shard_count);
    lemma_checksums_combine(b, a, shard_id, shard_count);
    let x = digested(a, shard_id, shard_count).checksum;
    let y = digested(b, shard_id, shard_count).checksum;
    assert(x ^ y == y ^ x) by (bit_vector);
}

proof fn lemma_checksums_combine(
    a: Seq<CounterCell>,
    b: Seq<CounterCell>,
    shard_id: u16,
    shard_count: u16,
)
    ensures
        digested(a + b, shard_id, shard_count).checksum == digested(
            a,
            shard_id,
            shard_count,
        ).checksum ^ digested(b, shard_id, shard_count).checksum,
    decreases b.len(),
{
    let x = digested(a, shard_id, shard_count).checksum;
    if b.len() == 0 {
        assert(a + b =~= a);
        assert(x ^ 0 == x) by (bit_vector);
    } else {
        lemma_checksums_combine(a, b.drop_last(), shard_id, shard_count);
        assert((a + b).drop_last() =~= a + b.drop_last());
        let y = digested(b.drop_last(), shard_id, shard_count).checksum;
        let z = checksum_of(b.last());
        assert((x ^ y) ^ z == x ^ (y ^ z)) by (bit_vector);
    }
}

/// The checksum of one cell is its own, and no cell of another shard has a part in
/// it.
pub proof fn lemma_checksum_of_one(cell: CounterCell, shard_id: u16, shard_count: u16)
    ensures
        digested(seq![cell], shard_id, shard_count).checksum == if shard_of(cell, shard_count)
            == shard_id {
            checksum_of(cell)
        } else {
            0
        },
{
    reveal_with_fuel(digested, 2);
    assert(seq![cell].drop_last() =~= Seq::<CounterCell>::empty());
    let z = checksum_of(cell);
    assert(0 ^ z == z) by (bit_vector);
}

/// What is hashed for two cells is the same only if they are the same cell with the
/// same count.
pub proof fn lemma_checksums_apart(a: CounterCell, b: CounterCell)
    requires
        checksum_input(a) == checksum_input(b),
    ensures
        a.spec_identity() == b.spec_identity(),
        a.count == b.count,
{
    let (x, y) = (checksum_input(a), checksum_input(b));
    lemma_pow256_values();
    assert(x[0] == y[0] && x[1] == y[1] && x[2] == y[2] && x[3] == y[3] && x[4] == y[4] && x[5]
        == y[5] && x[6] == y[6] && x[7] == y[7]);
    lemma_le_injective(a.rule_id as nat, b.rule_id as nat, 4);
    lemma_le_injective(a.key_hash_hi as nat, b.key_hash_hi as nat, 8);
    lemma_le_injective(a.key_hash_lo as nat, b.key_hash_lo as nat, 8);
    lemma_le_injective(
        signed_bits(a.bucket_start_millis) as nat,
        signed_bits(b.bucket_start_millis) as nat,
        8,
    );
    lemma_signed_roundtrip(a.bucket_start_millis);
    lemma_signed_roundtrip(b.bucket_start_millis);
    lemma_le_injective(a.origin_node_id.hi as nat, b.origin_node_id.hi as nat, 8);
    lemma_le_injective(a.origin_node_id.lo as nat, b.origin_node_id.lo as nat, 8);
    lemma_le_injective(a.origin_incarnation as nat, b.origin_incarnation as nat, 8);
    lemma_le_injective(a.count as nat, b.count as nat, 8);
}

/// All cells of a key are of the same shard, which is one of those there are.
pub proof fn lemma_shards(a: CounterCell, b: CounterCell, shard_count: u16)
    ensures
        shard_count > 0 ==> shard_of(a, shard_count) < shard_count,
        shard_count <= 1 ==> shard_of(a, shard_count) == 0,
        a.key_hash_hi == b.key_hash_hi && a.key_hash_lo == b.key_hash_lo ==> shard_of(
            a,
            shard_count,
        ) == shard_of(b, shard_count),
{
}

/// A node's number is its two halves, and so is a key's.
pub proof fn lemma_halves(id: u128, cell: CounterCell)
    ensures
        NodeId::spec_from_u128(id).hi * 0x1_0000_0000_0000_0000 + NodeId::spec_from_u128(id).lo
            == id,
        cell.spec_key_hash().0 == cell.key_hash_hi * 0x1_0000_0000_0000_0000 + cell.key_hash_lo,
{
}

} // verus!
