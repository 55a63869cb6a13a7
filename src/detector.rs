//! Heartbeat-driven failure detection and the cache of peer loads.
use crate::messages::NodeId;
use std::collections::{HashMap, HashSet};
use vstd::prelude::*;

verus! {

broadcast use vstd::std_specs::hash::group_hash_axioms;

/// Every peer sends a heartbeat this often.
pub const HEARTBEAT_INTERVAL_MS: u64 = 2000;

/// The detector scans this often.
pub const DETECTOR_INTERVAL_MS: u64 = 3000;

/// A peer silent for longer than this is believed failed.
pub const HEARTBEAT_TIMEOUT_MS: u64 = 10000;

/// No peer is believed failed before the detector has run this long.
pub const STARTUP_GRACE_MS: u64 = 15000;

/// Load figures a peer last reported, and when they arrived.
#[derive(Clone, Copy, Debug, PartialEq, Eq, Structural)]
pub struct CachedLoadInfo {
    pub load: u64,
    pub processed_count: u64,
    pub timestamp_ms: u64,
}

/// A peer last heard from at `last` (never, when `None`) counts as failed at
/// `now`, for a detector started at `started`: only once the startup grace
/// has passed, and then when it was never heard from or has been silent for
/// longer than the heartbeat timeout.
pub open spec fn silent_too_long(last: Option<u64>, started: u64, now: u64) -> bool {
    &&& now as int - started as int >= STARTUP_GRACE_MS as int
    &&& match last {
        Some(t) => now as int - t as int > HEARTBEAT_TIMEOUT_MS as int,
        None => true,
    }
}

pub open spec fn heard_at(m: Map<NodeId, u64>, p: NodeId) -> Option<u64> {
    if m.contains_key(p) {
        Some(m[p])
    } else {
        None
    }
}

/// The peers of `peers`, in order, that a scan at `now` newly believes failed.
pub open spec fn newly_failed(
    peers: Seq<NodeId>,
    heard: Map<NodeId, u64>,
    failed: Set<NodeId>,
    started: u64,
    now: u64,
) -> Seq<NodeId>
    decreases peers.len(),
{
    if peers.len() == 0 {
        Seq::empty()
    } else {
        let rest = newly_failed(peers.drop_last(), heard, failed, started, now);
        let p = peers.last();
        if !failed.contains(p) && !rest.contains(p) && silent_too_long(
            heard_at(heard, p),
            started,
            now,
        ) {
            rest.push(p)
        } else {
            rest
        }
    }
}

/// Liveness table, failed set and load cache of one peer.
pub struct FailureDetector {
    pub started_ms: u64,
    pub last_heartbeat: HashMap<NodeId, u64>,
    pub failed_nodes: HashSet<NodeId>,
    pub peer_load_cache: HashMap<NodeId, CachedLoadInfo>,
}

impl FailureDetector {
    pub fn new(started_ms: u64) -> (r: Self)
        ensures
            r.started_ms == started_ms,
            r.last_heartbeat@ == Map::<NodeId, u64>::empty(),
            r.failed_nodes@ == Set::<NodeId>::empty(),
            r.peer_load_cache@ == Map::<NodeId, CachedLoadInfo>::empty(),
    {
        FailureDetector {
            started_ms,
            last_heartbeat: HashMap::new(),
            failed_nodes: HashSet::new(),
            peer_load_cache: HashMap::new(),
        }
    }

    /// A heartbeat, or its acknowledgement, from `from`: it is alive now, with
    /// these figures.
    pub fn record_heartbeat(&mut self, from: NodeId, load: u64, processed_count: u64, now_ms: u64)
        ensures
            final(self).started_ms == old(self).started_ms,
            final(self).last_heartbeat@ == old(self).last_heartbeat@.insert(from, now_ms),
            final(self).peer_load_cache@ == old(self).peer_load_cache@.insert(
                from,
                CachedLoadInfo { load, processed_count, timestamp_ms: now_ms },
            ),
            final(self).failed_nodes@ == old(self).failed_nodes@.remove(from),
    {
        self.last_heartbeat.insert(from, now_ms);
        self.peer_load_cache.insert(
            from,
            CachedLoadInfo { load, processed_count, timestamp_ms: now_ms },
        );
        self.failed_nodes.remove(&from);
    }

    /// Peer `p` is believed failed.
    pub fn is_failed(&self, p: NodeId) -> (r: bool)
        ensures
            r == self.failed_nodes@.contains(p),
    {
        self.failed_nodes.contains(&p)
    }

    /// The last figures cached for `p`, if any.
    pub fn cached_load(&self, p: NodeId) -> (r: Option<CachedLoadInfo>)
        ensures
            r == (if self.peer_load_cache@.contains_key(p) {
                Some(self.peer_load_cache@[p])
            } else {
                None
            }),
    {
        match self.peer_load_cache.get(&p) {
            Some(c) => Some(*c),
            None => None,
        }
    }

    /// One detector tick at `now_ms`: each peer of `peers` that has been
    /// silent too long, and is not failed already, is marked failed. Returns
    /// those peers, in the order of `peers`.
    pub fn scan(&mut self, peers: &Vec<NodeId>, now_ms: u64) -> (r: Vec<NodeId>)
        ensures
            r@ == newly_failed(
                peers@,
                old(self).last_heartbeat@,
                old(self).failed_nodes@,
                old(self).started_ms,
                now_ms,
            ),
            final(self).failed_nodes@ == old(self).failed_nodes@.union(r@.to_set()),
            final(self).started_ms == old(self).started_ms,
            final(self).last_heartbeat@ == old(self).last_heartbeat@,
            final(self).peer_load_cache@ == old(self).peer_load_cache@,
    {
        let ghost heard = self.last_heartbeat@;
        let ghost failed0 = self.failed_nodes@;
        let mut out: Vec<NodeId> = Vec::new();
        let mut i: usize = 0;
        assert(out@.to_set() =~= Set::<NodeId>::empty());
        assert(failed0.union(Set::<NodeId>::empty()) =~= failed0);
        while i < peers.len()
            invariant
                i <= peers.len(),
                heard == self.last_heartbeat@,
                heard == old(self).last_heartbeat@,
                failed0 == old(self).failed_nodes@,
                self.started_ms == old(self).started_ms,
                self.peer_load_cache@ == old(self).peer_load_cache@,
                out@ == newly_failed(
                    peers@.subrange(0, i as int),
                    heard,
                    failed0,
                    self.started_ms,
                    now_ms,
                ),
                self.failed_nodes@ == failed0.union(out@.to_set()),
            decreases peers.len() - i,
        {
            let p = peers[i];
            let ghost before = out@;
            assert(peers@.subrange(0, i + 1).drop_last() =~= peers@.subrange(0, i as int));
            let silent = now_ms >= self.started_ms && now_ms - self.started_ms >= STARTUP_GRACE_MS
                && match self.last_heartbeat.get(&p) {
                Some(t) => now_ms > *t && now_ms - *t > HEARTBEAT_TIMEOUT_MS,
                None => true,
            };
            assert(silent == silent_too_long(heard_at(heard, p), self.started_ms, now_ms));
            if !self.failed_nodes.contains(&p) && silent {
                assert(!before.contains(p));
                out.push(p);
                self.failed_nodes.insert(p);
                assert(self.failed_nodes@ =~= failed0.union(out@.to_set())) by {
                    assert forall|x: NodeId|
                        out@.to_set().contains(x) <==> before.to_set().insert(p).contains(x) by {
                        if out@.contains(x) {
                            let k = choose|k: int| 0 <= k < out@.len() && out@[k] == x;
                            if k < before.len() {
                                assert(before[k] == x);
                            }
                        }
                        if before.contains(x) {
                            let k = choose|k: int| 0 <= k < before.len() && before[k] == x;
                            assert(out@[k] == x);
                        }
                        if x == p {
                            assert(out@[before.len() as int] == x);
                        }
                    }
                    assert(out@.to_set() =~= before.to_set().insert(p));
                }
            } else {
                proof {
                    if !failed0.contains(p) && silent {
                        assert(self.failed_nodes@.contains(p));
                        assert(before.to_set().contains(p));
                    }
                }
            }
            i += 1;
        }
        assert(peers@.subrange(0, peers.len() as int) =~= peers@);
        out
    }
}

/// A scan marks only peers it was asked about.
pub proof fn lemma_newly_failed_within(
    peers: Seq<NodeId>,
    heard: Map<NodeId, u64>,
    failed: Set<NodeId>,
    started: u64,
    now: u64,
)
    ensures
        forall|x: NodeId|
            #[trigger] newly_failed(peers, heard, failed, started, now).contains(x)
                ==> peers.contains(x),
    decreases peers.len(),
{
    if peers.len() > 0 {
        let rest = peers.drop_last();
        lemma_newly_failed_within(rest, heard, failed, started, now);
        let r = newly_failed(rest, heard, failed, started, now);
        assert forall|x: NodeId|
            #[trigger] newly_failed(peers, heard, failed, started, now).contains(x)
                implies peers.contains(x) by {
            if r.contains(x) {
                let j = choose|j: int| 0 <= j < rest.len() && rest[j] == x;
                assert(peers[j] == x);
            } else {
                let s = newly_failed(peers, heard, failed, started, now);
                let k = choose|k: int| 0 <= k < s.len() && s[k] == x;
                if k < r.len() {
                    assert(r[k] == x);
                } else {
                    assert(peers[peers.len() - 1] == x);
                }
            }
        }
    }
}

/// A heartbeat clears a failure at once: after `from` is heard from, it is
/// not failed, and a scan at the same instant does not mark it failed again.
pub proof fn lemma_heartbeat_clears(
    peers: Seq<NodeId>,
    heard: Map<NodeId, u64>,
    failed: Set<NodeId>,
    started: u64,
    from: NodeId,
    now: u64,
)
    ensures
        !failed.remove(from).contains(from),
        !newly_failed(peers, heard.insert(from, now), failed.remove(from), started, now).contains(
            from,
        ),
    decreases peers.len(),
{
    if peers.len() > 0 {
        lemma_heartbeat_clears(peers.drop_last(), heard, failed, started, from, now);
        assert(heard_at(heard.insert(from, now), from) == Some(now));
    }
}

} // verus!
