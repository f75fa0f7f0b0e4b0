//! Per-shard connection bookkeeping: stage, readiness time, restart counter and
//! the aggregate number of connected shards.
use std::collections::HashMap;
use vstd::prelude::*;

verus! {

broadcast use vstd::std_specs::hash::group_hash_axioms;

/// Connection lifecycle stage of one gateway shard.
#[derive(Clone, Copy, Debug, PartialEq, Eq, Structural)]
pub enum ConnectionStage {
    Connected,
    Connecting,
    Disconnected,
    Handshake,
    Identifying,
    Resuming,
    /// A stage the transport reports that carries no behaviour of its own here.
    Unknown,
}

/// What is known about one shard.
#[derive(Clone, Copy, Debug, PartialEq, Eq, Structural)]
pub struct ShardStats {
    pub shard_id: u32,
    pub stage: ConnectionStage,
    /// Milliseconds since the Unix epoch at which the shard last became ready.
    pub ready_at: Option<i64>,
    pub restarts: u64,
}

impl ShardStats {
    pub open spec fn fresh(shard_id: u32, stage: ConnectionStage) -> ShardStats {
        ShardStats { shard_id, stage, ready_at: None, restarts: 0 }
    }

    pub fn new(shard_id: u32, stage: ConnectionStage) -> (r: ShardStats)
        ensures
            r == ShardStats::fresh(shard_id, stage),
    {
        ShardStats { shard_id, stage, ready_at: None, restarts: 0 }
    }
}

/// One stage-change notification for a shard.
#[derive(Clone, Copy, Debug, PartialEq, Eq, Structural)]
pub struct StageChange {
    pub old: ConnectionStage,
    pub new: ConnectionStage,
    /// Milliseconds since the Unix epoch at which the notification arrived.
    pub at: i64,
}

/// Abstract state of a tracker: the per-shard entries and the aggregate count.
pub struct TrackerView {
    pub shards: Map<u32, ShardStats>,
    pub connected: int,
}

/// The state after one notification. Leaving `Connected` clears the ready time and lowers
/// the count. Reaching `Connected` sets the ready time, raises the count only where no ready
/// time was recorded or the shard is new (the transport does not report every transition, so
/// this is a heuristic against counting twice), and counts a restart where a known shard
/// comes from another stage; a repeated `Connected` notification adds no restart.
pub open spec fn stage_update_spec(v: TrackerView, shard_id: u32, ev: StageChange) -> TrackerView {
    let is_new = !v.shards.contains_key(shard_id);
    let prev = if is_new {
        ShardStats::fresh(shard_id, ev.new)
    } else {
        v.shards[shard_id]
    };
    if ev.old == ConnectionStage::Connected && ev.new != ConnectionStage::Connected {
        TrackerView {
            shards: v.shards.insert(
                shard_id,
                ShardStats { shard_id, stage: ev.new, ready_at: None, restarts: prev.restarts },
            ),
            connected: v.connected - 1,
        }
    } else if ev.new == ConnectionStage::Connected {
        let counts = prev.ready_at is None || is_new;
        let restarts = if !is_new && ev.old != ConnectionStage::Connected {
            (prev.restarts + 1) as u64
        } else {
            prev.restarts
        };
        TrackerView {
            shards: v.shards.insert(
                shard_id,
                ShardStats { shard_id, stage: ev.new, ready_at: Some(ev.at), restarts },
            ),
            connected: if counts { v.connected + 1 } else { v.connected },
        }
    } else {
        TrackerView {
            shards: v.shards.insert(
                shard_id,
                ShardStats { shard_id, stage: ev.new, ready_at: prev.ready_at, restarts: prev.restarts },
            ),
            connected: v.connected,
        }
    }
}

/// Whether applying `ev` to `v` stays within the machine counters.
pub open spec fn stage_update_fits(v: TrackerView, shard_id: u32) -> bool {
    &&& i64::MIN < v.connected < i64::MAX
    &&& v.shards.contains_key(shard_id) ==> v.shards[shard_id].restarts < u64::MAX
}

/// Every entry is stored under its own shard identifier.
pub open spec fn tracker_wf(v: TrackerView) -> bool {
    forall|id: u32| #[trigger] v.shards.contains_key(id) ==> v.shards[id].shard_id == id
}

/// Tracks the connection state of every shard seen so far.
pub struct ShardTracker {
    shards: HashMap<u32, ShardStats>,
    connected: i64,
}

impl View for ShardTracker {
    type V = TrackerView;

    closed spec fn view(&self) -> TrackerView {
        TrackerView { shards: self.shards@, connected: self.connected as int }
    }
}

impl ShardTracker {
    pub fn new() -> (r: ShardTracker)
        ensures
            r@.shards == Map::<u32, ShardStats>::empty(),
            r@.connected == 0,
            tracker_wf(r@),
    {
        ShardTracker { shards: HashMap::new(), connected: 0 }
    }

    /// The aggregate number of connected shards.
    pub fn connected_shards(&self) -> (r: i64)
        ensures
            r as int == self@.connected,
    {
        self.connected
    }

    /// The entry of one shard, if it was ever seen.
    pub fn shard(&self, shard_id: u32) -> (r: Option<ShardStats>)
        ensures
            r == (if self@.shards.contains_key(shard_id) {
                Some(self@.shards[shard_id])
            } else {
                None
            }),
    {
        match self.shards.get(&shard_id) {
            Some(s) => Some(*s),
            None => None,
        }
    }

    /// Applies one stage-change notification for `shard_id`.
    pub fn shard_stage_update(&mut self, shard_id: u32, ev: StageChange)
        requires
            stage_update_fits(old(self)@, shard_id),
        ensures
            final(self)@ == stage_update_spec(old(self)@, shard_id, ev),
            tracker_wf(old(self)@) ==> tracker_wf(final(self)@),
    {
        let is_new = !self.shards.contains_key(&shard_id);
        let prev = match self.shards.get(&shard_id) {
            Some(s) => *s,
            None => ShardStats::new(shard_id, ev.new),
        };
        let mut entry = prev;
        entry.shard_id = shard_id;
        entry.stage = ev.new;
        if ev.old == ConnectionStage::Connected && ev.new != ConnectionStage::Connected {
            entry.ready_at = None;
            self.connected = self.connected - 1;
        } else if ev.new == ConnectionStage::Connected {
            if entry.ready_at.is_none() || is_new {
                self.connected = self.connected + 1;
            }
            if !is_new && ev.old != ConnectionStage::Connected {
                entry.restarts = entry.restarts + 1;
            }
            entry.ready_at = Some(ev.at);
        }
        self.shards.insert(shard_id, entry);
    }
}

/// The tracker state after the notifications `evs` for one shard, in order.
pub open spec fn replay(v: TrackerView, shard_id: u32, evs: Seq<StageChange>) -> TrackerView
    decreases evs.len(),
{
    if evs.len() == 0 {
        v
    } else {
        stage_update_spec(replay(v, shard_id, evs.drop_last()), shard_id, evs.last())
    }
}

/// The notifications of one shard leave nothing out: the first does not report leaving
/// `Connected`, and each later one starts from the stage the one before reached.
pub open spec fn gap_free(evs: Seq<StageChange>) -> bool {
    &&& evs.len() > 0 ==> !(evs[0].old == ConnectionStage::Connected && evs[0].new
        != ConnectionStage::Connected)
    &&& forall|i: int| 1 <= i < evs.len() ==> #[trigger] evs[i].old == evs[i - 1].new
}

/// Number of times the shard enters `Connected`: the first notification if it reports
/// `Connected`, and every later one that reports `Connected` coming from another stage.
pub open spec fn connections(evs: Seq<StageChange>) -> int
    decreases evs.len(),
{
    if evs.len() == 0 {
        0
    } else {
        let e = evs.last();
        connections(evs.drop_last()) + if e.new == ConnectionStage::Connected && (evs.len() == 1 || e.old
            != ConnectionStage::Connected) {
            1int
        } else {
            0int
        }
    }
}

/// Number of notifications that report leaving `Connected`.
pub open spec fn disconnections(evs: Seq<StageChange>) -> int
    decreases evs.len(),
{
    if evs.len() == 0 {
        0
    } else {
        let e = evs.last();
        disconnections(evs.drop_last()) + if e.old == ConnectionStage::Connected && e.new
            != ConnectionStage::Connected {
            1int
        } else {
            0int
        }
    }
}

/// Number of notifications after the first that report `Connected` coming from another stage.
pub open spec fn reconnections(evs: Seq<StageChange>) -> int
    decreases evs.len(),
{
    if evs.len() <= 1 {
        0
    } else {
        let e = evs.last();
        reconnections(evs.drop_last()) + if e.new == ConnectionStage::Connected && e.old
            != ConnectionStage::Connected {
            1int
        } else {
            0int
        }
    }
}

proof fn lemma_gap_free_drop_last(evs: Seq<StageChange>)
    requires
        gap_free(evs),
        evs.len() > 0,
    ensures
        gap_free(evs.drop_last()),
{
    let t = evs.drop_last();
    assert forall|i: int| 1 <= i < t.len() implies #[trigger] t[i].old == t[i - 1].new by {
        assert(t[i] == evs[i] && t[i - 1] == evs[i - 1]);
    }
    if t.len() > 0 {
        assert(t[0] == evs[0]);
    }
}

/// Connected counting: for a shard first seen through a gap-free run of notifications,
/// duplicates of `Connected` included, the count moves up once per entry into `Connected`
/// and down once per exit; its net change is one exactly while the shard is connected.
pub proof fn lemma_connected_count(v: TrackerView, shard_id: u32, evs: Seq<StageChange>)
    requires
        !v.shards.contains_key(shard_id),
        gap_free(evs),
    ensures
        replay(v, shard_id, evs).connected - v.connected == connections(evs) - disconnections(evs),
        replay(v, shard_id, evs).connected - v.connected == if evs.len() > 0 && evs.last().new
            == ConnectionStage::Connected {
            1int
        } else {
            0int
        },
        evs.len() > 0 ==> {
            let e = replay(v, shard_id, evs).shards[shard_id];
            &&& replay(v, shard_id, evs).shards.contains_key(shard_id)
            &&& e.stage == evs.last().new
            &&& (e.ready_at is Some <==> e.stage == ConnectionStage::Connected)
        },
    decreases evs.len(),
{
    if evs.len() > 0 {
        let t = evs.drop_last();
        lemma_gap_free_drop_last(evs);
        lemma_connected_count(v, shard_id, t);
        if t.len() > 0 {
            assert(evs[evs.len() - 1].old == evs[evs.len() - 2].new);
            assert(t.last() == evs[evs.len() - 2]);
        } else {
            assert(evs.last() == evs[0]);
        }
    }
}

/// Restart counting: for a shard first seen through `evs`, the restart counter ends at the
/// number of notifications after the first that report `Connected` coming from another stage;
/// the first notification never counts as a restart.
pub proof fn lemma_restart_count(v: TrackerView, shard_id: u32, evs: Seq<StageChange>)
    requires
        !v.shards.contains_key(shard_id),
        evs.len() <= u64::MAX,
    ensures
        evs.len() > 0 ==> replay(v, shard_id, evs).shards.contains_key(shard_id)
            && replay(v, shard_id, evs).shards[shard_id].restarts == reconnections(evs),
        reconnections(evs) < evs.len() || evs.len() == 0,
    decreases evs.len(),
{
    if evs.len() > 0 {
        let t = evs.drop_last();
        lemma_restart_count(v, shard_id, t);
    }
}

/// One notification, step by step: the entry of `shard_id` exists afterwards, carries its
/// identifier and the new stage; no other entry changes; the count moves by at most one; a
/// shard seen for the first time has no restart; a known shard gains one restart exactly when
/// it reaches `Connected` from another stage; and a repeated `Connected` notification for a
/// ready shard changes neither the count nor the presence of a ready time.
pub proof fn lemma_stage_update_step(v: TrackerView, shard_id: u32, ev: StageChange)
    requires
        stage_update_fits(v, shard_id),
    ensures
        ({
            let w = stage_update_spec(v, shard_id, ev);
            &&& w.shards.contains_key(shard_id)
            &&& w.shards[shard_id].shard_id == shard_id
            &&& w.shards[shard_id].stage == ev.new
            &&& forall|s: u32|
                s != shard_id ==> (#[trigger] w.shards.contains_key(s) == v.shards.contains_key(s)) && (
                v.shards.contains_key(s) ==> w.shards[s] == v.shards[s])
            &&& -1 <= w.connected - v.connected <= 1
            &&& !v.shards.contains_key(shard_id) ==> w.shards[shard_id].restarts == 0
            &&& v.shards.contains_key(shard_id) ==> w.shards[shard_id].restarts == if ev.old
                != ConnectionStage::Connected && ev.new == ConnectionStage::Connected {
                v.shards[shard_id].restarts + 1
            } else {
                v.shards[shard_id].restarts as int
            }
            &&& (v.shards.contains_key(shard_id) && v.shards[shard_id].ready_at is Some && ev.old
                == ConnectionStage::Connected && ev.new == ConnectionStage::Connected) ==> w.connected
                == v.connected && w.shards[shard_id].ready_at is Some
        }),
{
}

} // verus!
