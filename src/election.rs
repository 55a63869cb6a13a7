//! Coordinator election by lowest load, with hysteresis.
use crate::messages::{Message, NodeId};
use std::collections::HashMap;
use vstd::prelude::*;
use vstd::std_specs::iter::IteratorSpec;

verus! {

broadcast use vstd::std_specs::hash::group_hash_axioms;

/// Candidate `a` beats candidate `b`: lower load, or equal load and lower id.
pub open spec fn beats(a: (NodeId, u64), b: (NodeId, u64)) -> bool {
    a.1 < b.1 || (a.1 == b.1 && a.0 < b.0)
}

/// The candidate of lowest load, the lowest id among equals.
pub open spec fn lowest(loads: Seq<(NodeId, u64)>) -> (NodeId, u64)
    decreases loads.len(),
{
    if loads.len() <= 1 {
        loads[0]
    } else {
        let rest = lowest(loads.drop_last());
        if beats(loads.last(), rest) {
            loads.last()
        } else {
            rest
        }
    }
}

/// The load reported for `id`; a later report replaces an earlier one.
pub open spec fn load_of(loads: Seq<(NodeId, u64)>, id: NodeId) -> Option<u64>
    decreases loads.len(),
{
    if loads.len() == 0 {
        None
    } else if loads.last().0 == id {
        Some(loads.last().1)
    } else {
        load_of(loads.drop_last(), id)
    }
}

/// Hysteresis: the winner replaces the current coordinator only when there is
/// none, when the current one did not report, or when the winner's load is
/// lower by more than a fifth of the current one's,
/// `(current - winner) / max(current, 0.01) > 0.20`.
pub open spec fn should_replace(
    current: Option<NodeId>,
    loads: Seq<(NodeId, u64)>,
    winner: (NodeId, u64),
) -> bool {
    match current {
        None => true,
        Some(c) => {
            if c == winner.0 {
                false
            } else {
                match load_of(loads, c) {
                    None => true,
                    Some(cl) => 5 * (cl as int - winner.1 as int) > cl as int,
                }
            }
        },
    }
}

/// The winner is one of the candidates, and none beats it.
pub proof fn lemma_lowest_is_least(loads: Seq<(NodeId, u64)>)
    requires
        loads.len() > 0,
    ensures
        loads.contains(lowest(loads)),
        forall|i: int| 0 <= i < loads.len() ==> !beats(#[trigger] loads[i], lowest(loads)),
    decreases loads.len(),
{
    if loads.len() > 1 {
        let rest = loads.drop_last();
        lemma_lowest_is_least(rest);
        let j = choose|j: int| 0 <= j < rest.len() && rest[j] == lowest(rest);
        assert(loads[j] == lowest(rest));
        assert forall|i: int| 0 <= i < loads.len() implies !beats(
            #[trigger] loads[i],
            lowest(loads),
        ) by {
            if i < loads.len() - 1 {
                assert(loads[i] == rest[i]);
            }
        }
        if beats(loads.last(), lowest(rest)) {
            assert(loads[loads.len() - 1] == lowest(loads));
        }
    } else {
        assert(loads[0] == lowest(loads));
    }
}

/// Pick the candidate of lowest load, the lowest id among equals.
pub fn choose_winner(loads: &Vec<(NodeId, u64)>) -> (r: (NodeId, u64))
    requires
        loads@.len() > 0,
    ensures
        r == lowest(loads@),
        loads@.contains(r),
        forall|i: int| 0 <= i < loads@.len() ==> !beats(#[trigger] loads@[i], r),
{
    proof {
        lemma_lowest_is_least(loads@);
    }
    let mut best = loads[0];
    let mut i: usize = 1;
    assert(loads@.subrange(0, 1) =~= seq![loads@[0]]);
    while i < loads.len()
        invariant
            1 <= i <= loads.len(),
            best == lowest(loads@.subrange(0, i as int)),
        decreases loads.len() - i,
    {
        let c = loads[i];
        assert(loads@.subrange(0, i + 1).drop_last() =~= loads@.subrange(0, i as int));
        if c.1 < best.1 || (c.1 == best.1 && c.0 < best.0) {
            best = c;
        }
        i += 1;
    }
    assert(loads@.subrange(0, loads.len() as int) =~= loads@);
    best
}

fn lookup_load(loads: &Vec<(NodeId, u64)>, id: NodeId) -> (r: Option<u64>)
    ensures
        r == load_of(loads@, id),
{
    let mut i: usize = loads.len();
    assert(loads@.subrange(0, loads.len() as int) =~= loads@);
    while i > 0
        invariant
            i <= loads.len(),
            load_of(loads@, id) == load_of(loads@.subrange(0, i as int), id),
        decreases i,
    {
        assert(loads@.subrange(0, i as int).drop_last() =~= loads@.subrange(0, i - 1));
        if loads[i - 1].0 == id {
            return Some(loads[i - 1].1);
        }
        i -= 1;
    }
    assert(loads@.subrange(0, 0) =~= Seq::<(NodeId, u64)>::empty());
    None
}

/// The ids of `addresses` other than `me`, each once.
pub fn other_peers(addresses: &HashMap<NodeId, String>, me: NodeId) -> (r: Vec<NodeId>)
    ensures
        r@.no_duplicates(),
        forall|x: NodeId| r@.contains(x) <==> addresses@.contains_key(x) && x != me,
{
    let mut out: Vec<NodeId> = Vec::new();
    let ghost all: Seq<NodeId> = vstd::std_specs::hash::spec_keys_iter(addresses).remaining().map_values(
        |k: &NodeId| *k,
    );
    let ghost mut seen: int = 0;
    proof {
        vstd::std_specs::hash::axiom_spec_keys_iter(addresses);
        assert(all.to_set() =~= addresses@.dom()) by {
            assert forall|x: NodeId| all.to_set().contains(x) <==> addresses@.dom().contains(x) by {
                let r = vstd::std_specs::hash::spec_keys_iter(addresses).remaining();
                if all.to_set().contains(x) {
                    let j = choose|j: int| 0 <= j < all.len() && all[j] == x;
                    assert(r.unref()[j] == x);
                    assert(r.unref().to_set().contains(x));
                }
                if addresses@.dom().contains(x) {
                    assert(r.unref().to_set().contains(x));
                    let j = choose|j: int| 0 <= j < r.unref().len() && r.unref()[j] == x;
                    assert(all[j] == x);
                }
            }
        }
        assert(all.no_duplicates()) by {
            let r = vstd::std_specs::hash::spec_keys_iter(addresses).remaining();
            assert forall|i: int, j: int| 0 <= i < all.len() && 0 <= j < all.len() && i != j
                implies all[i] != all[j] by {
                assert(r[i] != r[j]);
            }
        }
    }
    for k in it: addresses.keys()
        invariant
            it.seq() == vstd::std_specs::hash::spec_keys_iter(addresses).remaining(),
            all == it.seq().map_values(|k: &NodeId| *k),
            all.to_set() == addresses@.dom(),
            all.no_duplicates(),
            seen == it.index(),
            out@.no_duplicates(),
            forall|x: NodeId|
                out@.contains(x) <==> x != me && exists|j: int| 0 <= j < seen && all[j] == x,
    {
        let ghost before = out@;
        proof {
            assert(all[seen] == *k);
            assert forall|j: int| 0 <= j < seen implies all[j] != *k by {
                assert(all[j] != all[seen]);
            }
            assert(!before.contains(*k));
        }
        if *k != me {
            out.push(*k);
        }
        proof {
            assert forall|x: NodeId|
                out@.contains(x) <==> x != me && exists|j: int| 0 <= j < seen + 1 && all[j] == x by {
                if out@.contains(x) && x != *k {
                    assert(before.contains(x));
                }
                if x != me && exists|j: int| 0 <= j < seen + 1 && all[j] == x {
                    let j = choose|j: int| 0 <= j < seen + 1 && all[j] == x;
                    if j < seen {
                        assert(before.contains(x));
                        let idx = choose|idx: int| 0 <= idx < before.len() && before[idx] == x;
                        assert(out@[idx] == x);
                    } else {
                        assert(out@[out@.len() - 1] == x);
                    }
                }
            }
            seen = seen + 1;
        }
    }
    proof {
        assert forall|x: NodeId| out@.contains(x) <==> addresses@.contains_key(x) && x != me by {
            if addresses@.contains_key(x) && x != me {
                assert(all.to_set().contains(x));
                let j = choose|j: int| 0 <= j < all.len() && all[j] == x;
            }
        }
    }
    out
}

/// This peer's view of who coordinates the cluster.
pub struct ElectionManager {
    pub node_id: NodeId,
    pub node_addresses: HashMap<NodeId, String>,
    pub current_coordinator: Option<NodeId>,
}

/// Each message of `out` goes to a distinct peer of `addresses` other than
/// `me`, every such peer gets one, and each one satisfies `what`.
pub open spec fn to_each_other_peer(
    out: Seq<(NodeId, Message)>,
    addresses: Map<NodeId, String>,
    me: NodeId,
    what: spec_fn(Message) -> bool,
) -> bool {
    &&& out.map_values(|m: (NodeId, Message)| m.0).no_duplicates()
    &&& forall|x: NodeId|
        out.map_values(|m: (NodeId, Message)| m.0).contains(x) <==> addresses.contains_key(x) && x
            != me
    &&& forall|i: int| 0 <= i < out.len() ==> what(#[trigger] out[i].1)
}

/// The outcome of concluding an election from the loads gathered.
pub open spec fn election_outcome(
    current: Option<NodeId>,
    loads: Seq<(NodeId, u64)>,
) -> Option<NodeId> {
    if should_replace(current, loads, lowest(loads)) {
        Some(lowest(loads).0)
    } else {
        current
    }
}

impl ElectionManager {
    pub fn new(node_id: NodeId, node_addresses: HashMap<NodeId, String>) -> (r: Self)
        ensures
            r.node_id == node_id,
            r.node_addresses@ == node_addresses@,
            r.current_coordinator is None,
    {
        ElectionManager { node_id, node_addresses, current_coordinator: None }
    }

    /// This peer believes it is the coordinator.
    pub fn is_coordinator(&self) -> (r: bool)
        ensures
            r == (self.current_coordinator == Some(self.node_id)),
    {
        match self.current_coordinator {
            Some(c) => c == self.node_id,
            None => false,
        }
    }

    pub fn get_coordinator(&self) -> (r: Option<NodeId>)
        ensures
            r == self.current_coordinator,
    {
        self.current_coordinator
    }

    /// Adopts the coordinator announced by a peer.
    pub fn update_coordinator(&mut self, coordinator_id: NodeId, load: u64)
        ensures
            final(self).current_coordinator == Some(coordinator_id),
            final(self).node_id == old(self).node_id,
            final(self).node_addresses@ == old(self).node_addresses@,
    {
        self.current_coordinator = Some(coordinator_id);
    }

    fn broadcast(&self, message_for: NodeId, load: u64) -> (r: Vec<(NodeId, Message)>)
        ensures
            to_each_other_peer(
                r@,
                self.node_addresses@,
                self.node_id,
                |m: Message| m == Message::Coordinator { node_id: message_for, load },
            ),
    {
        let peers = other_peers(&self.node_addresses, self.node_id);
        let mut out: Vec<(NodeId, Message)> = Vec::new();
        let mut i: usize = 0;
        while i < peers.len()
            invariant
                i <= peers.len(),
                out@.len() == i,
                forall|j: int|
                    0 <= j < i ==> #[trigger] out@[j] == (
                        peers@[j],
                        Message::Coordinator { node_id: message_for, load },
                    ),
            decreases peers.len() - i,
        {
            out.push((peers[i], Message::Coordinator { node_id: message_for, load }));
            i += 1;
        }
        assert(out@.map_values(|m: (NodeId, Message)| m.0) =~= peers@);
        out
    }

    /// Takes the coordinator role and tells every other peer.
    pub fn announce_coordinator(&mut self, load: u64) -> (r: Vec<(NodeId, Message)>)
        ensures
            final(self).current_coordinator == Some(old(self).node_id),
            final(self).node_id == old(self).node_id,
            final(self).node_addresses@ == old(self).node_addresses@,
            to_each_other_peer(
                r@,
                old(self).node_addresses@,
                old(self).node_id,
                |m: Message| m == Message::Coordinator { node_id: old(self).node_id, load },
            ),
    {
        self.current_coordinator = Some(self.node_id);
        self.broadcast(self.node_id, load)
    }

    /// The messages that open an election: an `Election` to every other peer.
    pub fn start_election(&self) -> (r: Vec<(NodeId, Message)>)
        ensures
            to_each_other_peer(
                r@,
                self.node_addresses@,
                self.node_id,
                |m: Message| m == Message::Election { from_node: self.node_id },
            ),
    {
        let peers = other_peers(&self.node_addresses, self.node_id);
        let mut out: Vec<(NodeId, Message)> = Vec::new();
        let mut i: usize = 0;
        while i < peers.len()
            invariant
                i <= peers.len(),
                out@.len() == i,
                forall|j: int|
                    0 <= j < i ==> #[trigger] out@[j] == (
                        peers@[j],
                        Message::Election { from_node: self.node_id },
                    ),
            decreases peers.len() - i,
        {
            out.push((peers[i], Message::Election { from_node: self.node_id }));
            i += 1;
        }
        assert(out@.map_values(|m: (NodeId, Message)| m.0) =~= peers@);
        out
    }

    /// The answer to an election opened by `from_node`: an acknowledgement
    /// that this peer is alive, then its load.
    pub fn handle_election_message(&self, from_node: NodeId, my_load: u64, processed: u64) -> (r: Vec<
        (NodeId, Message),
    >)
        ensures
            r@ == seq![
                (from_node, Message::ElectionAck { from_node: self.node_id }),
                (
                    from_node,
                    Message::LoadResponse {
                        node_id: self.node_id,
                        load: my_load,
                        queue_length: my_load,
                        processed_count: processed,
                    },
                ),
            ],
    {
        let mut out: Vec<(NodeId, Message)> = Vec::new();
        out.push((from_node, Message::ElectionAck { from_node: self.node_id }));
        out.push(
            (
                from_node,
                Message::LoadResponse {
                    node_id: self.node_id,
                    load: my_load,
                    queue_length: my_load,
                    processed_count: processed,
                },
            ),
        );
        assert(out@ =~= seq![
            (from_node, Message::ElectionAck { from_node: self.node_id }),
            (
                from_node,
                Message::LoadResponse {
                    node_id: self.node_id,
                    load: my_load,
                    queue_length: my_load,
                    processed_count: processed,
                },
            ),
        ]);
        out
    }

    /// Concludes an election from the loads gathered (this peer's own among
    /// them). The winner has the lowest load, the lowest id among equals; it
    /// replaces the current coordinator as the hysteresis rule says, and a
    /// replacement is broadcast to every other peer.
    pub fn conclude_election(&mut self, loads: &Vec<(NodeId, u64)>) -> (r: (
        ElectionResult,
        Vec<(NodeId, Message)>,
    ))
        requires
            loads@.len() > 0,
        ensures
            final(self).current_coordinator == election_outcome(
                old(self).current_coordinator,
                loads@,
            ),
            final(self).node_id == old(self).node_id,
            final(self).node_addresses@ == old(self).node_addresses@,
            r.0.coordinator_id == lowest(loads@).0,
            r.0.load == lowest(loads@).1,
            r.0.all_loads@ == loads@,
            should_replace(old(self).current_coordinator, loads@, lowest(loads@))
                ==> to_each_other_peer(
                r.1@,
                old(self).node_addresses@,
                old(self).node_id,
                |m: Message|
                    m == Message::Coordinator {
                        node_id: lowest(loads@).0,
                        load: lowest(loads@).1,
                    },
            ),
            !should_replace(old(self).current_coordinator, loads@, lowest(loads@)) ==> r.1@.len()
                == 0,
    {
        let winner = choose_winner(loads);
        let replace = match self.current_coordinator {
            None => true,
            Some(c) => {
                if c == winner.0 {
                    false
                } else {
                    match lookup_load(loads, c) {
                        None => true,
                        Some(cl) => {
                            let gap: i128 = cl as i128 - winner.1 as i128;
                            5 * gap > cl as i128
                        },
                    }
                }
            },
        };
        let mut all_loads: Vec<(NodeId, u64)> = Vec::new();
        let mut i: usize = 0;
        while i < loads.len()
            invariant
                i <= loads.len(),
                all_loads@ == loads@.subrange(0, i as int),
            decreases loads.len() - i,
        {
            all_loads.push(loads[i]);
            i += 1;
        }
        assert(loads@.subrange(0, loads.len() as int) =~= loads@);
        let result = ElectionResult::new(winner.0, winner.1, all_loads);
        if !replace {
            return (result, Vec::new());
        }
        if winner.0 == self.node_id {
            let out = self.announce_coordinator(winner.1);
            (result, out)
        } else {
            self.update_coordinator(winner.0, winner.1);
            let out = self.broadcast(winner.0, winner.1);
            (result, out)
        }
    }
}

/// The result of one election: the winner and every load gathered.
#[derive(Debug, Clone)]
pub struct ElectionResult {
    pub coordinator_id: NodeId,
    pub load: u64,
    pub all_loads: Vec<(NodeId, u64)>,
}

impl ElectionResult {
    pub fn new(coordinator_id: NodeId, load: u64, all_loads: Vec<(NodeId, u64)>) -> (r: Self)
        ensures
            r.coordinator_id == coordinator_id,
            r.load == load,
            r.all_loads@ == all_loads@,
    {
        ElectionResult { coordinator_id, load, all_loads }
    }
}

/// After the coordinator fails, an election among the live peers converges.
/// The failed coordinator cannot report, so the winner always replaces it;
/// the winner is one of the live peers and has the lowest load among them,
/// the lowest id among equals; and every live peer that adopts the broadcast
/// `Coordinator` message believes the same coordinator.
pub proof fn lemma_failover_converges(
    loads: Seq<(NodeId, u64)>,
    live: Set<NodeId>,
    failed_coordinator: NodeId,
    beliefs: Seq<Option<NodeId>>,
)
    requires
        loads.len() > 0,
        forall|i: int| 0 <= i < loads.len() ==> live.contains(#[trigger] loads[i].0),
        !live.contains(failed_coordinator),
    ensures
        should_replace(Some(failed_coordinator), loads, lowest(loads)),
        election_outcome(Some(failed_coordinator), loads) == Some(lowest(loads).0),
        live.contains(lowest(loads).0),
        forall|i: int| 0 <= i < loads.len() ==> lowest(loads).1 <= (#[trigger] loads[i]).1,
        forall|i: int|
            0 <= i < beliefs.len() ==> #[trigger] adopt(beliefs[i], lowest(loads).0) == Some(
                lowest(loads).0,
            ),
{
    lemma_lowest_is_least(loads);
    let j = choose|j: int| 0 <= j < loads.len() && loads[j] == lowest(loads);
    assert(live.contains(loads[j].0));
    lemma_load_of_absent(loads, failed_coordinator, live);
}

proof fn lemma_load_of_absent(loads: Seq<(NodeId, u64)>, id: NodeId, live: Set<NodeId>)
    requires
        forall|i: int| 0 <= i < loads.len() ==> live.contains(#[trigger] loads[i].0),
        !live.contains(id),
    ensures
        load_of(loads, id) is None,
    decreases loads.len(),
{
    if loads.len() > 0 {
        assert(live.contains(loads[loads.len() - 1].0));
        let rest = loads.drop_last();
        assert forall|i: int| 0 <= i < rest.len() implies live.contains(#[trigger] rest[i].0) by {
            assert(rest[i] == loads[i]);
        }
        lemma_load_of_absent(rest, id, live);
    }
}

/// A peer's belief after it takes a `Coordinator` announcement for `winner`.
pub open spec fn adopt(belief: Option<NodeId>, winner: NodeId) -> Option<NodeId> {
    Some(winner)
}

} // verus!
