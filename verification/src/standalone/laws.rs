//! What a tick of the standalone runtime comes to, step by step.

use super::{
    as_sent, chosen_cells, config_for, count_true, deduplicated, frame_header, frame_merged,
    frame_read, frame_taken, frames_taken, heeds, merged_cells, resyncs, send_reason, targets,
    tick_sent, unexpired, with_departed, with_recent, GossipSendReason, GossipState, InboundFrame,
    RecentPeer, StandaloneGossipConfig, TickState,
};
use crate::cells::{CounterCell, TableState};
use crate::config::GossipConfig;
use crate::discovery::Peer;
use crate::engine::{told, EngineState, LocalCell, LocalRule};
use crate::messages::{DecodeError, DecodedMessageSummary, GossipHeader, GossipMetrics};
use vstd::prelude::*;

verus! {

// -- whom to listen to ------------------------------------------------------

/// A peer that left is listened to until its time has passed, and no longer.
pub proof fn lemma_unexpired_stay(recent: Seq<RecentPeer>, now: u64)
    ensures
        unexpired(recent, now) == recent.filter(|r: RecentPeer| r.expires_millis > now),
    decreases recent.len(),
{
    reveal(Seq::filter);
    if recent.len() > 0 {
        lemma_unexpired_stay(recent.drop_last(), now);
    }
}

/// Of each peer one is kept, at its first place.
pub proof fn lemma_kept_once(peers: Seq<Peer>)
    ensures
        deduplicated(peers).no_duplicates(),
        forall|peer: Peer| #[trigger] deduplicated(peers).contains(peer) <==> peers.contains(peer),
        peers.no_duplicates() ==> deduplicated(peers) == peers,
    decreases peers.len(),
{
    if peers.len() > 0 {
        let front = peers.drop_last();
        let last = peers.last();
        lemma_kept_once(front);
        let before = deduplicated(front);
        let after = deduplicated(peers);
        assert(peers[peers.len() - 1] == last);
        assert forall|peer: Peer| #[trigger] after.contains(peer) <==> peers.contains(peer) by {
            assert(before.contains(peer) <==> front.contains(peer));
            if front.contains(peer) {
                let k = choose|k: int| 0 <= k < front.len() && front[k] == peer;
                assert(peers[k] == peer);
            }
            if before.contains(peer) {
                let k = choose|k: int| 0 <= k < before.len() && before[k] == peer;
                assert(after[k] == peer);
            }
            if after.contains(peer) {
                let k = choose|k: int| 0 <= k < after.len() && after[k] == peer;
                if k < before.len() {
                    assert(before[k] == peer);
                }
            }
            if peers.contains(peer) {
                let k = choose|k: int| 0 <= k < peers.len() && peers[k] == peer;
                if k < front.len() {
                    assert(front[k] == peer);
                }
            }
            if !before.contains(last) {
                assert(after.last() == last);
            }
        }
        if peers.no_duplicates() {
            assert(front.no_duplicates());
            if before.contains(last) {
                let k = choose|k: int| 0 <= k < front.len() && front[k] == last;
                assert(peers[k] == last);
            }
            assert(after =~= peers);
        }
    }
}

/// A peer that leaves is remembered, with the time until which it is listened to,
/// unless it is already; if there is no room, one is forgotten for it.
pub proof fn lemma_departure_remembered(
    recent: Seq<RecentPeer>,
    capacity: nat,
    peer: Peer,
    expires_millis: u64,
)
    requires
        recent.len() <= capacity,
        0 < capacity,
    ensures
        ({
            let after = with_recent(recent, capacity, peer, expires_millis);
            let known = exists|i: int|
                0 <= i < recent.len() && (#[trigger] recent[i]).peer == peer;
            &&& known ==> after == recent
            &&& !known ==> {
                &&& after.last() == (RecentPeer { peer, expires_millis })
                &&& after.len() == vstd::math::min((recent.len() + 1) as int, capacity as int)
                &&& recent.len() < capacity ==> after.drop_last() == recent
                &&& forall|i: int|
                    1 <= i < recent.len() - 1 && i < after.len() - 1 ==> after[i]
                        == #[trigger] recent[i]
            }
        }),
{
    if recent.len() < capacity {
        assert(recent.push(RecentPeer { peer, expires_millis }).drop_last() =~= recent);
    }
}

/// Departures are remembered one after the other, and who is still there has not
/// departed.
pub proof fn lemma_departures_in_turn(
    recent: Seq<RecentPeer>,
    capacity: nat,
    first: Seq<Peer>,
    then: Seq<Peer>,
    peers: Seq<Peer>,
    expires_millis: u64,
)
    ensures
        with_departed(recent, capacity, first + then, peers, expires_millis) == with_departed(
            with_departed(recent, capacity, first, peers, expires_millis),
            capacity,
            then,
            peers,
            expires_millis,
        ),
        first.len() == 1 && peers.contains(first[0]) ==> with_departed(
            recent,
            capacity,
            first,
            peers,
            expires_millis,
        ) == recent,
        first.len() == 1 && !peers.contains(first[0]) ==> with_departed(
            recent,
            capacity,
            first,
            peers,
            expires_millis,
        ) == with_recent(recent, capacity, first[0], expires_millis),
    decreases then.len(),
{
    if then.len() > 0 {
        lemma_departures_in_turn(
            recent,
            capacity,
            first,
            then.drop_last(),
            peers,
            expires_millis,
        );
        assert((first + then).drop_last() =~= first + then.drop_last());
    } else {
        assert(first + then =~= first);
    }
    if first.len() == 1 {
        reveal_with_fuel(with_departed, 2);
        assert(first.drop_last() =~= Seq::<Peer>::empty());
    }
}

// -- whether and what to send -----------------------------------------------

/// A tick sends only if there are peers, and then exactly if a full send is owed,
/// changes were forgotten, or there are changes and either no room for more or the
/// last send was long enough ago. The reason is the first of these.
pub proof fn lemma_send_reason(
    config: StandaloneGossipConfig,
    state: GossipState,
    engine: EngineState,
    peers: nat,
    now: u64,
)
    requires
        engine.dirty.len() <= usize::MAX,
        engine.dirty_capacity <= usize::MAX,
    ensures
        ({
            let owed = state.force_resync || engine.overflowed;
            let changes = engine.dirty.len() > 0;
            let full = engine.dirty.len() >= engine.dirty_capacity;
            let due = now >= state.last_send_millis + config.send_policy.linger_ms;
            let reason = send_reason(config, state, engine, peers, now);
            &&& reason == Some(GossipSendReason::DirtyOverflow) <==> peers > 0 && owed
            &&& reason == Some(GossipSendReason::DirtyPressure) <==> peers > 0 && !owed && changes
                && full
            &&& reason == Some(GossipSendReason::Linger) <==> peers > 0 && !owed && changes
                && !full && due
            &&& reason is None <==> peers == 0 || !owed && (!changes || !full && !due)
        }),
{
}

/// What is sent are the changed cells, or all cells where a full send is owed, in
/// order, as many as a frame may hold.
pub proof fn lemma_cells_chosen(
    config: StandaloneGossipConfig,
    state: GossipState,
    engine: EngineState,
    i: int,
)
    requires
        engine.bounded(),
    ensures
        ({
            let chosen = chosen_cells(config, state, engine);
            let all = engine.overflowed || state.force_resync;
            let count = if all {
                engine.slots.len()
            } else {
                engine.dirty.len()
            };
            &&& chosen.len() == vstd::math::min(count as int, config.max_cells_per_frame as int)
            &&& 0 <= i < chosen.len() && all ==> chosen[i] == as_sent(engine.slots[i].cell)
            &&& 0 <= i < chosen.len() && !all ==> chosen[i] == as_sent(
                engine.slots[engine.dirty[i].cell_id as int].cell,
            )
        }),
{
}

/// A cell is sent as it is: its rule, its bucket, where it comes from, and its
/// count.
pub proof fn lemma_sent_as_it_is(cell: LocalCell)
    ensures
        ({
            let sent = as_sent(cell);
            &&& sent.rule_id == cell.rule_id
            &&& cell.bucket_start_millis <= i64::MAX ==> sent.bucket_start_millis
                == cell.bucket_start_millis
            &&& sent.origin_node_id.hi * 0x1_0000_0000_0000_0000 + sent.origin_node_id.lo
                == cell.origin_node_id.0
            &&& sent.key_hash_hi * 0x1_0000_0000_0000_0000 + sent.key_hash_lo == cell.key_hash.0
            &&& sent.origin_incarnation == cell.origin_incarnation
            &&& sent.count == cell.count
            &&& sent.last_update_millis == cell.last_update_millis
            &&& sent.sequence == cell.sequence
        }),
{
}

/// A frame goes to the first peers, as many as it was set to.
pub proof fn lemma_targets(config: StandaloneGossipConfig, peers: Seq<Peer>)
    ensures
        targets(config, peers).is_prefix_of(peers),
        targets(config, peers).len() == vstd::math::min(peers.len() as int, config.fanout as int),
{
}

/// Peers sent to are those that the transport took the frame for.
pub proof fn lemma_sends_counted(outcomes: Seq<bool>)
    ensures
        count_true(outcomes) == outcomes.filter(|sent: bool| sent).len(),
        count_true(outcomes) <= outcomes.len(),
    decreases outcomes.len(),
{
    reveal(Seq::filter);
    if outcomes.len() > 0 {
        lemma_sends_counted(outcomes.drop_last());
    }
}

// -- what comes in ----------------------------------------------------------

/// A frame is heeded if it is of this cluster and of another node.
pub proof fn lemma_heeded(config: StandaloneGossipConfig, header: GossipHeader)
    ensures
        heeds(config, header) <==> {
            &&& header.cluster_id_hash == config.cluster_id_hash % 0x1_0000_0000_0000_0000
            &&& header.sender_node_id != config.sender_node_id
        },
{
}

/// Cells are merged one after the other; what rises is told to the limiter, and
/// what has no room is left out.
pub proof fn lemma_cells_merged_in_turn(
    remote: TableState,
    engine: EngineState,
    rules: Seq<LocalRule>,
    first: Seq<CounterCell>,
    then: Seq<CounterCell>,
    now: u64,
)
    ensures
        ({
            let a = merged_cells(remote, engine, rules, first, now);
            let b = merged_cells(a.remote, a.engine, rules, then, now);
            let both = merged_cells(remote, engine, rules, first + then, now);
            &&& both.remote == b.remote
            &&& both.engine == b.engine
            &&& both.changed == a.changed + b.changed
            &&& both.full == (a.full || b.full)
        }),
    decreases then.len(),
{
    if then.len() > 0 {
        lemma_cells_merged_in_turn(remote, engine, rules, first, then.drop_last(), now);
        assert((first + then).drop_last() =~= first + then.drop_last());
    } else {
        assert(first + then =~= first);
    }
}

/// One cell is merged as the table says; what it rose by, if it did, is what the
/// limiter is told of its key and bucket.
pub proof fn lemma_cell_merged(
    remote: TableState,
    engine: EngineState,
    rules: Seq<LocalRule>,
    cell: CounterCell,
    now: u64,
)
    requires
        cell.bucket_start_millis >= 0,
    ensures
        ({
            let one = merged_cells(remote, engine, rules, seq![cell], now);
            match remote.merged(cell) {
                Ok((after, outcome)) => {
                    &&& one.remote == after
                    &&& one.changed == 1 <==> outcome.changed
                    &&& one.changed <= 1
                    &&& !one.full
                    &&& outcome.delta == 0 ==> one.engine == engine
                    &&& outcome.delta > 0 ==> one.engine == told(
                        engine,
                        rules,
                        cell.rule_id,
                        cell.spec_key_hash(),
                        cell.bucket_start_millis as u64,
                        now,
                        outcome.delta,
                    )
                },
                Err(_) => one.remote == remote && one.engine == engine && one.changed == 0
                    && one.full,
            }
        }),
{
    reveal_with_fuel(merged_cells, 2);
    assert(seq![cell].drop_last() =~= Seq::<CounterCell>::empty());
}

/// A frame is counted as what it was: one that cannot be read, or has cells that
/// there is no room for, is an error, and a wrong tag is counted as such, too. A
/// digest that differs from what is then held asks for a full send.
pub proof fn lemma_frame_counted(
    config: StandaloneGossipConfig,
    state: GossipState,
    engine: EngineState,
    rules: Seq<LocalRule>,
    bytes: Seq<u8>,
    now: u64,
)
    ensures
        ({
            let read = frame_read(config, bytes);
            let merged = merged_cells(state.remote, engine, rules, read.cells, now);
            let (after, told, changed) = frame_merged(config, state, engine, rules, bytes, now);
            let m = state.metrics;
            let differs = read.digests.len() > 0 && crate::cells::digested(
                after.remote.cells,
                read.digests.last().shard_id,
                1,
            ) != read.digests.last();
            &&& after.remote == merged.remote
            &&& told == merged.engine
            &&& changed == merged.changed
            &&& after.force_resync <==> state.force_resync || differs
            &&& m.decode_errors < u64::MAX ==> after.metrics.decode_errors == m.decode_errors + if
                read.result is Err || merged.full {
                1int
            } else {
                0
            }
            &&& m.auth_failures < u64::MAX ==> after.metrics.auth_failures == m.auth_failures + if
                read.result == Err::<DecodedMessageSummary, DecodeError>(
                DecodeError::AuthenticationFailed,
            ) {
                1int
            } else {
                0
            }
            &&& m.digest_mismatch < u64::MAX ==> after.metrics.digest_mismatch == m.digest_mismatch
                + if differs {
                1int
            } else {
                0
            }
            &&& m.merge_cells + merged.changed <= u64::MAX ==> after.metrics.merge_cells
                == m.merge_cells + merged.changed
            &&& after.metrics.send_bytes == m.send_bytes && after.metrics.recv_bytes
                == m.recv_bytes && after.metrics.truncated == m.truncated
                && after.metrics.dirty_overflow == m.dirty_overflow
            &&& after.listening == state.listening && after.last_send_millis
                == state.last_send_millis
        }),
{
}

/// Bytes that go out and come in are added up, and frames that were cut are
/// counted.
pub proof fn lemma_bytes_counted(metrics: GossipMetrics, bytes: usize, cut: bool)
    requires
        metrics.send_bytes + bytes <= u64::MAX,
        metrics.recv_bytes + bytes <= u64::MAX,
        metrics.truncated < u64::MAX,
    ensures
        metrics.sent(bytes, cut) == (GossipMetrics {
            send_bytes: (metrics.send_bytes + bytes) as u64,
            truncated: (metrics.truncated + if cut {
                1int
            } else {
                0
            }) as u64,
            ..metrics
        }),
        metrics.received(bytes) == (GossipMetrics {
            recv_bytes: (metrics.recv_bytes + bytes) as u64,
            ..metrics
        }),
{
}

/// Frames are taken one after the other.
pub proof fn lemma_frames_in_turn(
    config: StandaloneGossipConfig,
    tick: TickState,
    rules: Seq<LocalRule>,
    first: Seq<InboundFrame>,
    then: Seq<InboundFrame>,
    now: u64,
)
    ensures
        frames_taken(config, tick, rules, first + then, now) == frames_taken(
            config,
            frames_taken(config, tick, rules, first, now),
            rules,
            then,
            now,
        ),
        first.len() == 1 ==> frames_taken(config, tick, rules, first, now) == frame_taken(
            config,
            tick,
            rules,
            first[0].peer,
            first[0].payload@,
            now,
        ),
    decreases then.len(),
{
    if then.len() > 0 {
        lemma_frames_in_turn(config, tick, rules, first, then.drop_last(), now);
        assert((first + then).drop_last() =~= first + then.drop_last());
    } else {
        assert(first + then =~= first);
    }
    if first.len() == 1 {
        reveal_with_fuel(frames_taken, 2);
        assert(first.drop_last() =~= Seq::<InboundFrame>::empty());
    }
}

/// A full send is owed once changes were forgotten or a digest differed.
pub proof fn lemma_full_send_owed(state: GossipState, engine: EngineState)
    ensures
        resyncs(state, engine) <==> engine.overflowed || state.force_resync,
{
}

// -- a tick as a whole ------------------------------------------------------

/// A tick reports how many peers there are, whether there are none, and whether
/// they may be out of date. Without a reason to send, nothing is reported as sent,
/// and nothing but whom to listen to changes.
pub proof fn lemma_tick_reports(
    config: StandaloneGossipConfig,
    state: GossipState,
    engine: EngineState,
    peers: Seq<Peer>,
    stale: bool,
    now: u64,
    outcomes: Seq<bool>,
)
    requires
        peers.len() <= usize::MAX,
        outcomes.len() <= usize::MAX,
    ensures
        ({
            let after = tick_sent(config, state, engine, peers, stale, now, outcomes);
            let chosen = chosen_cells(config, state, engine).len();
            &&& after.engine == engine
            &&& after.summary.peers_seen == peers.len()
            &&& after.summary.local_only <==> peers.len() == 0
            &&& after.summary.discovery_stale == stale
            &&& after.summary.frames_received == 0
            &&& after.summary.cells_merged == 0
            &&& after.summary.peer_rejected == 0
            &&& after.gossip.remote == state.remote
            &&& peers.len() == 0 ==> after.summary.send_reason is None
            &&& after.summary.send_reason is None ==> {
                &&& after.summary.cells_sent == 0
                &&& after.summary.peers_sent == 0
                &&& after.summary.send_failures == 0
                &&& after.gossip.last_send_millis == state.last_send_millis
                &&& after.gossip.metrics == state.metrics
                &&& after.gossip.force_resync == state.force_resync
            }
            &&& after.summary.send_reason is Some ==> {
                &&& chosen <= usize::MAX ==> after.summary.cells_sent == chosen
                &&& after.summary.peers_sent == outcomes.filter(|sent: bool| sent).len()
                &&& after.summary.peers_sent + after.summary.send_failures == outcomes.len()
                &&& after.gossip.last_send_millis == now
                &&& !after.gossip.force_resync
                &&& after.gossip.metrics.dirty_overflow == vstd::math::min(
                    state.metrics.dirty_overflow + if engine.overflowed || state.force_resync {
                        1int
                    } else {
                        0int
                    },
                    u64::MAX as int,
                )
                &&& after.gossip.metrics.recv_bytes == state.metrics.recv_bytes
                &&& after.gossip.metrics.merge_cells == state.metrics.merge_cells
            }
        }),
{
    lemma_true_ones(outcomes);
}

proof fn lemma_true_ones(outcomes: Seq<bool>)
    ensures
        count_true(outcomes) == outcomes.filter(|sent: bool| sent).len(),
        count_true(outcomes) <= outcomes.len(),
    decreases outcomes.len(),
{
    reveal(Seq::filter);
    if outcomes.len() > 0 {
        lemma_true_ones(outcomes.drop_last());
    }
}

/// A frame says of which cluster it is, in 64 bits, and of which node.
pub proof fn lemma_frame_names_sender(config: StandaloneGossipConfig)
    ensures
        frame_header(config).cluster_id_hash == config.cluster_id_hash % 0x1_0000_0000_0000_0000,
        frame_header(config).sender_node_id == config.sender_node_id,
        frame_header(config).sender_incarnation == config.sender_incarnation,
        frame_header(config).flags == 0,
{
}

/// Part in the gossip is taken as configured, with a fanout and cells per frame of
/// at least one, and room for a header.
pub proof fn lemma_part_as_configured(config: GossipConfig, remote_cell_capacity: usize)
    ensures
        ({
            let part = config_for(config, remote_cell_capacity);
            &&& part.cluster_id_hash == config.cluster_id_hash
            &&& part.fanout == vstd::math::max(config.fanout as int, 1)
            &&& part.max_cells_per_frame == vstd::math::max(config.max_cells_per_frame as int, 1)
            &&& part.max_payload_bytes == vstd::math::max(config.max_payload_bytes as int, 68)
            &&& part.remote_cell_capacity == remote_cell_capacity
            &&& part.remote_dirty_capacity == remote_cell_capacity
            &&& part.auth_key is None
            &&& part.send_policy.linger_ms == config.linger_ms
            &&& part.max_peers == 128
            &&& part.recent_peer_grace_millis == 30_000
        }),
{
}

} // verus!
