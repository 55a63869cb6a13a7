//! One peer of the cluster: its state, and the router that decides, for
//! each logical message, what the peer does. The peer performs no I/O; the
//! caller sends what it is told to send and reports back.
use crate::balancer::{best_scored, pick_lowest_score, total_processed};
use crate::chunking::{
    bytes_of, chunk_count, chunk_count_fits, chunk_effect, fragment_view, select_chunks, views_of, ChunkCache,
    ChunkReassembler, ChunkView, ChunkedMessage, PendingView,
};
use crate::detector::{lemma_newly_failed_within, newly_failed, CachedLoadInfo, FailureDetector};
use crate::election::{
    election_outcome, lemma_lowest_is_least, lowest, other_peers, should_replace, to_each_other_peer, ElectionManager,
    ElectionResult,
};
use crate::messages::{Message, NodeId, NodeState, ReceivedImageInfo};
use crate::store::{
    deliver_all, info_of, register_step, view_error_text, view_step, viewable, ImageStore, SessionRegistry,
    StoredImageView, ViewError,
};
use crate::chunking::{CHUNK_CACHE_TTL_MS, REASSEMBLY_TIMEOUT_MS};
use crate::table::{is_expired, KeyedTable};
use std::collections::HashMap;
use vstd::prelude::*;

verus! {

broadcast use vstd::std_specs::hash::group_hash_axioms;

/// What the peer does after taking a message.
#[derive(Debug)]
pub enum Action {
    /// Nothing goes out.
    Drop,
    /// This reply goes to the sender of the message.
    Reply(Message),
    /// These messages go to the peers named.
    SendToPeers(Vec<(NodeId, Message)>),
    /// The encryption runs here; its reply goes to `client_address` when one
    /// is given, else back to the sender. `finish_encryption` follows.
    EncryptLocally {
        request_id: String,
        image_data: Vec<u8>,
        usernames: Vec<String>,
        quota: u32,
        client_address: Option<String>,
    },
    /// The request goes on to peer `target`, whose reply is relayed to the
    /// sender. `finish_encryption` follows.
    Forward { target: NodeId, request: Message },
    /// The decryption runs here and its reply goes to the sender.
    DecryptLocally { request_id: String, encrypted_image: Vec<u8> },
}

/// What the peer does with one datagram under the chunk framing.
#[derive(Debug)]
pub enum ChunkOutcome {
    Nothing,
    /// A complete logical message arrived.
    Deliver(Vec<u8>),
    /// These cached chunks go back to the sender.
    Resend(Vec<ChunkedMessage>),
}

/// Figures a peer reports about itself.
#[derive(Debug, Clone, Copy)]
pub struct NodeStats {
    pub id: NodeId,
    pub state: NodeState,
    pub load: u64,
    pub queue_length: u64,
    pub processed_requests: u64,
    pub is_coordinator: bool,
}

/// The mathematical state of a peer.
pub struct PeerView {
    pub id: NodeId,
    pub address: Seq<char>,
    pub peer_ids: Seq<NodeId>,
    pub state: NodeState,
    pub active_requests: u64,
    pub processed_requests: u64,
    pub node_addresses: Map<NodeId, String>,
    pub coordinator: Option<NodeId>,
    pub started_ms: u64,
    pub last_heartbeat: Map<NodeId, u64>,
    pub failed: Set<NodeId>,
    pub load_cache: Map<NodeId, CachedLoadInfo>,
    pub sessions: Map<Seq<char>, Seq<char>>,
    pub inbox: Map<Seq<char>, Seq<StoredImageView>>,
    pub in_flight: Set<Seq<char>>,
    pub reassembly: Map<Seq<char>, PendingView>,
    pub chunk_cache: Map<Seq<char>, (Seq<ChunkView>, u64)>,
}

/// One more, saturating at `u64::MAX`.
pub open spec fn sat_inc(a: u64) -> u64 {
    if a < u64::MAX {
        (a + 1) as u64
    } else {
        a
    }
}

/// One fewer, saturating at zero.
pub open spec fn sat_dec(a: u64) -> u64 {
    if a > 0 {
        (a - 1) as u64
    } else {
        0
    }
}

/// The coordinator a peer believes in, itself when it knows none.
pub open spec fn coordinator_or_self(v: PeerView) -> NodeId {
    match v.coordinator {
        Some(c) => c,
        None => v.id,
    }
}

/// How peer `p` is scored: its cached figures, or, lacking them, this peer's
/// load and no work done.
pub open spec fn peer_candidate(v: PeerView, p: NodeId) -> (NodeId, u64, u64) {
    if v.load_cache.contains_key(p) {
        (p, v.load_cache[p].load, v.load_cache[p].processed_count)
    } else {
        (p, v.active_requests, 0)
    }
}

/// The peers of `peers` that are not failed, scored.
pub open spec fn live_candidates(v: PeerView, peers: Seq<NodeId>) -> Seq<(NodeId, u64, u64)>
    decreases peers.len(),
{
    if peers.len() == 0 {
        Seq::empty()
    } else {
        let rest = live_candidates(v, peers.drop_last());
        if v.failed.contains(peers.last()) {
            rest
        } else {
            rest.push(peer_candidate(v, peers.last()))
        }
    }
}

/// Every candidate the load balancer weighs: this peer first, then each live peer.
pub open spec fn load_candidates(v: PeerView) -> Seq<(NodeId, u64, u64)> {
    seq![(v.id, v.active_requests, v.processed_requests)] + live_candidates(
        v,
        v.peer_ids,
    )
}

/// The peer the load balancer picks.
pub open spec fn lowest_load_node(v: PeerView) -> NodeId {
    best_scored(load_candidates(v), total_processed(load_candidates(v))).0
}

/// Some peer of the table listens at `source`.
pub open spec fn is_peer_address(v: PeerView, source: Seq<char>) -> bool {
    exists|i: int|
        0 <= i < v.peer_ids.len() && v.node_addresses.contains_key(v.peer_ids[i])
            && v.node_addresses[v.peer_ids[i]]@ == source
}

/// A non-forwarded request whose id is in flight is a duplicate.
pub open spec fn is_duplicate(v: PeerView, id: Seq<char>, forwarded: bool) -> bool {
    v.in_flight.contains(id) && !forwarded
}

/// The state once a request is accepted: its id is in flight and one more
/// request is active.
pub open spec fn accept_view(v: PeerView, id: Seq<char>) -> PeerView {
    PeerView { in_flight: v.in_flight.insert(id), active_requests: sat_inc(v.active_requests), ..v }
}

/// The state once a request is finished: its id leaves the in-flight set,
/// one request fewer is active, and a computation done here counts.
pub open spec fn finish_view(v: PeerView, id: Seq<char>, computed_here: bool) -> PeerView {
    PeerView {
        in_flight: v.in_flight.remove(id),
        active_requests: sat_dec(v.active_requests),
        processed_requests: if computed_here {
            sat_inc(v.processed_requests)
        } else {
            v.processed_requests
        },
        ..v
    }
}

pub open spec fn heard_view(v: PeerView, from: NodeId, load: u64, processed: u64, now: u64) -> PeerView {
    PeerView {
        last_heartbeat: v.last_heartbeat.insert(from, now),
        load_cache: v.load_cache.insert(
            from,
            CachedLoadInfo { load, processed_count: processed, timestamp_ms: now },
        ),
        failed: v.failed.remove(from),
        ..v
    }
}

pub open spec fn opt_view(o: Option<String>) -> Option<Seq<char>> {
    match o {
        Some(s) => Some(s@),
        None => None,
    }
}

/// Where a non-coordinator sends the client's address: the one the request
/// carries, else the sender's own address unless the sender is a peer.
pub open spec fn captured_address(v: PeerView, carried: Option<String>, source: Seq<char>) -> Option<
    Seq<char>,
> {
    match carried {
        Some(a) => Some(a@),
        None => if is_peer_address(v, source) {
            None
        } else {
            Some(source)
        },
    }
}

/// How the router handles an encryption request that `v` accepted.
pub open spec fn routes_encryption(
    v: PeerView,
    request_id: String,
    client_username: String,
    image_data: Vec<u8>,
    usernames: Vec<String>,
    quota: u32,
    forwarded: bool,
    client_address: Option<String>,
    source: Seq<char>,
    r: Action,
) -> bool {
    if forwarded {
        r == Action::EncryptLocally { request_id, image_data, usernames, quota, client_address }
    } else if coordinator_or_self(v) != v.id {
        r matches Action::Forward {
            target,
            request: Message::EncryptionRequest {
                request_id: rid,
                client_username: cu,
                image_data: img,
                usernames: us,
                quota: q,
                forwarded: fw,
                client_address: ca,
            },
        } && target == coordinator_or_self(v) && rid == request_id && cu == client_username && img
            == image_data && us == usernames && q == quota && !fw && opt_view(ca)
            == captured_address(v, client_address, source)
    } else if lowest_load_node(v) == v.id {
        r == Action::EncryptLocally {
            request_id,
            image_data,
            usernames,
            quota,
            client_address: None,
        }
    } else {
        r == Action::Forward {
            target: lowest_load_node(v),
            request: Message::EncryptionRequest {
                request_id,
                client_username,
                image_data,
                usernames,
                quota,
                forwarded: true,
                client_address,
            },
        }
    }
}

/// The router: for a peer in state `old` that is not failed, taking `msg`
/// from `source` leads to state `new` and action `r`.
pub open spec fn routed(
    old: PeerView,
    msg: Message,
    source: Seq<char>,
    now_ms: u64,
    now_ts: i64,
    new: PeerView,
    r: Action,
) -> bool {
    match msg {
        Message::SessionRegister { client_id, username } => {
            let (sessions, ok) = register_step(old.sessions, username@, client_id@);
            &&& new == PeerView { sessions, ..old }
            &&& r matches Action::Reply(Message::SessionRegisterResponse { success, error })
            &&& success == ok
            &&& ok ==> error is None
            &&& !ok ==> (error matches Some(t) && t@ == "username in use"@)
        },
        Message::SessionUnregister { username, .. } => {
            &&& new == PeerView { sessions: old.sessions.remove(username@), ..old }
            &&& r is Drop
        },
        Message::CheckUsernameAvailable { username } => {
            &&& new == old
            &&& r matches Action::Reply(
                Message::CheckUsernameAvailableResponse { username: u, is_available },
            )
            &&& u@ == username@
            &&& is_available == !old.sessions.contains_key(username@)
        },
        Message::SendImage { from_username, to_usernames, encrypted_image, max_views, image_id } => {
            &&& new == PeerView {
                inbox: deliver_all(
                    old.inbox,
                    to_usernames@.map_values(|u: String| u@),
                    StoredImageView {
                        image_id: image_id@,
                        from_username: from_username@,
                        encrypted_data: encrypted_image@,
                        remaining_views: max_views,
                        max_views,
                        timestamp: now_ts,
                    },
                ),
                ..old
            }
            &&& r matches Action::Reply(
                Message::SendImageResponse { success, image_id: i, error },
            )
            &&& success
            &&& i@ == image_id@
            &&& error is None
        },
        Message::QueryReceivedImages { username } => {
            &&& new == old
            &&& r matches Action::Reply(Message::QueryReceivedImagesResponse { images })
            &&& images@.map_values(|i: ReceivedImageInfo| i@) == (if old.inbox.contains_key(
                username@,
            ) {
                viewable(old.inbox[username@])
            } else {
                Seq::empty()
            }).map_values(|i: StoredImageView| info_of(i))
        },
        Message::ViewImage { username, image_id } => {
            let (inbox, outcome) = view_step(old.inbox, username@, image_id@);
            &&& new == PeerView { inbox, ..old }
            &&& r matches Action::Reply(
                Message::ViewImageResponse { success, image_data, remaining_views, error },
            )
            &&& match outcome {
                Ok((data, left)) => success && bytes_of(image_data) == Some(data) && remaining_views
                    == Some(left) && error is None,
                Err(e) => !success && image_data is None && (error matches Some(t) && t@
                    == view_error_text(e)) && remaining_views == (if e
                    == ViewError::QuotaExhausted {
                    Some(0u32)
                } else {
                    None
                }),
            }
        },
        Message::Heartbeat { from_node, load, processed_count } => {
            &&& new == heard_view(old, from_node, load, processed_count, now_ms)
            &&& r == Action::Reply(
                Message::HeartbeatAck {
                    from_node: old.id,
                    load: old.active_requests,
                    processed_count: old.processed_requests,
                },
            )
        },
        Message::HeartbeatAck { from_node, load, processed_count } => {
            &&& new == heard_view(old, from_node, load, processed_count, now_ms)
            &&& r is Drop
        },
        Message::Election { from_node } => {
            &&& new == old
            &&& r matches Action::SendToPeers(out)
            &&& out@ == seq![
                (from_node, Message::ElectionAck { from_node: old.id }),
                (
                    from_node,
                    Message::LoadResponse {
                        node_id: old.id,
                        load: old.active_requests,
                        queue_length: old.active_requests,
                        processed_count: old.processed_requests,
                    },
                ),
            ]
        },
        Message::LoadQuery { .. } => {
            &&& new == old
            &&& r == Action::Reply(
                Message::LoadResponse {
                    node_id: old.id,
                    load: old.active_requests,
                    queue_length: old.active_requests,
                    processed_count: old.processed_requests,
                },
            )
        },
        Message::Coordinator { node_id, .. } => {
            &&& new == PeerView { coordinator: Some(node_id), ..old }
            &&& r is Drop
        },
        Message::StateSync { .. } => {
            &&& new == old
            &&& r matches Action::Reply(
                Message::StateSyncResponse { coordinator_id, load_metrics, timestamp },
            )
            &&& coordinator_id == coordinator_or_self(old)
            &&& load_metrics@.len() == 0
            &&& timestamp == now_ts
        },
        Message::CoordinatorQuery => {
            &&& new == old
            &&& r matches Action::Reply(Message::CoordinatorQueryResponse { coordinator_address })
            &&& coordinator_address@ == (if old.node_addresses.contains_key(
                coordinator_or_self(old),
            ) {
                old.node_addresses[coordinator_or_self(old)]@
            } else {
                old.address
            })
        },
        Message::EncryptionRequest {
            request_id,
            client_username,
            image_data,
            usernames,
            quota,
            forwarded,
            client_address,
        } => {
            if is_duplicate(old, request_id@, forwarded) {
                new == old && r is Drop
            } else {
                &&& new == accept_view(old, request_id@)
                &&& routes_encryption(
                    new,
                    request_id,
                    client_username,
                    image_data,
                    usernames,
                    quota,
                    forwarded,
                    client_address,
                    source,
                    r,
                )
            }
        },
        Message::DecryptionRequest { request_id, encrypted_image, .. } => {
            &&& new == old
            &&& r == Action::DecryptLocally { request_id, encrypted_image }
        },
        _ => new == old && r is Drop,
    }
}

/// One peer: configuration, liveness, load figures and the state of every
/// component. Nothing here is shared; the caller serialises access.
pub struct CloudNode {
    pub id: NodeId,
    pub address: String,
    pub peer_ids: Vec<NodeId>,
    pub state: NodeState,
    pub active_requests: u64,
    pub processed_requests: u64,
    pub election_manager: ElectionManager,
    pub detector: FailureDetector,
    pub active_sessions: SessionRegistry,
    pub stored_images: ImageStore,
    pub in_flight_requests: KeyedTable<()>,
    pub chunk_reassembler: ChunkReassembler,
    pub chunk_cache: ChunkCache,
}

impl View for CloudNode {
    type V = PeerView;

    open spec fn view(&self) -> PeerView {
        PeerView {
            id: self.id,
            address: self.address@,
            peer_ids: self.peer_ids@,
            state: self.state,
            active_requests: self.active_requests,
            processed_requests: self.processed_requests,
            node_addresses: self.election_manager.node_addresses@,
            coordinator: self.election_manager.current_coordinator,
            started_ms: self.detector.started_ms,
            last_heartbeat: self.detector.last_heartbeat@,
            failed: self.detector.failed_nodes@,
            load_cache: self.detector.peer_load_cache@,
            sessions: self.active_sessions@,
            inbox: self.stored_images@,
            in_flight: self.in_flight_requests@.dom(),
            reassembly: self.chunk_reassembler@,
            chunk_cache: self.chunk_cache@,
        }
    }
}

impl CloudNode {
    pub open spec fn wf(&self) -> bool {
        &&& self.election_manager.node_id == self.id
        &&& self.peer_ids@.no_duplicates()
        &&& forall|x: NodeId|
            self.peer_ids@.contains(x) <==> self.election_manager.node_addresses@.contains_key(x)
                && x != self.id
        &&& forall|x: NodeId|
            #[trigger] self.detector.failed_nodes@.contains(x) ==> self.peer_ids@.contains(x)
        &&& self.active_sessions.wf()
        &&& self.stored_images.wf()
        &&& self.in_flight_requests.wf()
        &&& self.chunk_reassembler.wf()
        &&& self.chunk_cache.wf()
    }

    /// A peer with id `id` listening at `address`, knowing the peers of
    /// `peer_addresses`, started at `now_ms`: active, idle, with no
    /// coordinator yet and nothing stored.
    pub fn new(id: NodeId, address: String, peer_addresses: HashMap<NodeId, String>, now_ms: u64) -> (r:
        Self)
        ensures
            r.wf(),
            r@.id == id,
            r@.address == address@,
            r@.node_addresses == peer_addresses@,
            r@.state == NodeState::Active,
            r@.active_requests == 0,
            r@.processed_requests == 0,
            r@.coordinator is None,
            r@.started_ms == now_ms,
            r@.last_heartbeat == Map::<NodeId, u64>::empty(),
            r@.failed == Set::<NodeId>::empty(),
            r@.load_cache == Map::<NodeId, CachedLoadInfo>::empty(),
            r@.sessions == Map::<Seq<char>, Seq<char>>::empty(),
            r@.inbox == Map::<Seq<char>, Seq<StoredImageView>>::empty(),
            r@.in_flight == Set::<Seq<char>>::empty(),
            r@.reassembly == Map::<Seq<char>, PendingView>::empty(),
            r@.chunk_cache == Map::<Seq<char>, (Seq<ChunkView>, u64)>::empty(),
    {
        let peer_ids = other_peers(&peer_addresses, id);
        let in_flight: KeyedTable<()> = KeyedTable::new();
        proof {
            assert(in_flight@.dom() =~= Set::<Seq<char>>::empty());
        }
        CloudNode {
            id,
            address,
            peer_ids,
            state: NodeState::Active,
            active_requests: 0,
            processed_requests: 0,
            election_manager: ElectionManager::new(id, peer_addresses),
            detector: FailureDetector::new(now_ms),
            active_sessions: SessionRegistry::new(),
            stored_images: ImageStore::new(),
            in_flight_requests: in_flight,
            chunk_reassembler: ChunkReassembler::new(),
            chunk_cache: ChunkCache::new(),
        }
    }

    /// The figures this peer reports about itself.
    pub fn get_stats(&self) -> (r: NodeStats)
        requires
            self.wf(),
        ensures
            r.id == self.id,
            r.state == self.state,
            r.load == self.active_requests,
            r.queue_length == self.active_requests,
            r.processed_requests == self.processed_requests,
            r.is_coordinator == (self.election_manager.current_coordinator == Some(self.id)),
    {
        NodeStats {
            id: self.id,
            state: self.state,
            load: self.active_requests,
            queue_length: self.active_requests,
            processed_requests: self.processed_requests,
            is_coordinator: self.election_manager.is_coordinator(),
        }
    }

    /// The peer stops: from now on it drops every datagram and sends nothing.
    pub fn fail(&mut self)
        ensures
            final(self)@ == (PeerView { state: NodeState::Failed, ..old(self)@ }),
    {
        self.state = NodeState::Failed;
    }

    /// A failed peer starts to recover: it takes datagrams again, but does not
    /// stand for coordinator.
    pub fn begin_recovery(&mut self)
        ensures
            old(self)@.state == NodeState::Failed ==> final(self)@ == (PeerView {
                state: NodeState::Recovering,
                ..old(self)@
            }),
            old(self)@.state != NodeState::Failed ==> final(self)@ == old(self)@,
    {
        if self.state == NodeState::Failed {
            self.state = NodeState::Recovering;
        }
    }

    /// A recovering peer, having synchronised with the coordinator, is active again.
    pub fn finish_recovery(&mut self)
        ensures
            old(self)@.state == NodeState::Recovering ==> final(self)@ == (PeerView {
                state: NodeState::Active,
                ..old(self)@
            }),
            old(self)@.state != NodeState::Recovering ==> final(self)@ == old(self)@,
    {
        if self.state == NodeState::Recovering {
            self.state = NodeState::Active;
        }
    }

    fn is_peer_source(&self, source: &String) -> (r: bool)
        requires
            self.wf(),
        ensures
            r == is_peer_address(self@, source@),
    {
        let mut i: usize = 0;
        while i < self.peer_ids.len()
            invariant
                i <= self.peer_ids.len(),
                forall|j: int|
                    0 <= j < i ==> !(self@.node_addresses.contains_key(self.peer_ids@[j])
                        && self@.node_addresses[self.peer_ids@[j]]@ == source@),
            decreases self.peer_ids.len() - i,
        {
            match self.election_manager.node_addresses.get(&self.peer_ids[i]) {
                Some(a) => {
                    if *a == *source {
                        let ghost k = i as int;
                        assert(0 <= k < self@.peer_ids.len() && self@.node_addresses.contains_key(
                            self@.peer_ids[k],
                        ) && self@.node_addresses[self@.peer_ids[k]]@ == source@);
                        assert(is_peer_address(self@, source@));
                        return true;
                    }
                },
                None => {},
            }
            i += 1;
        }
        false
    }

    fn load_candidates_exec(&self) -> (r: Vec<(NodeId, u64, u64)>)
        requires
            self.wf(),
        ensures
            r@ == load_candidates(self@),
            r@.len() <= self.peer_ids@.len() + 1,
    {
        let mut out: Vec<(NodeId, u64, u64)> = Vec::new();
        out.push((self.id, self.active_requests, self.processed_requests));
        let mut i: usize = 0;
        while i < self.peer_ids.len()
            invariant
                i <= self.peer_ids.len(),
                out@ == seq![
                    (self.id, self.active_requests, self.processed_requests),
                ] + live_candidates(self@, self.peer_ids@.subrange(0, i as int)),
                out@.len() <= i + 1,
            decreases self.peer_ids.len() - i,
        {
            let p = self.peer_ids[i];
            assert(self.peer_ids@.subrange(0, i + 1).drop_last() =~= self.peer_ids@.subrange(
                0,
                i as int,
            ));
            if !self.detector.is_failed(p) {
                let c = match self.detector.cached_load(p) {
                    Some(info) => (p, info.load, info.processed_count),
                    None => (p, self.active_requests, 0),
                };
                out.push(c);
            }
            i += 1;
        }
        assert(self.peer_ids@.subrange(0, self.peer_ids.len() as int) =~= self.peer_ids@);
        out
    }

    /// The peer that should run the next request: the best score among this
    /// peer and every peer not believed failed.
    pub fn find_lowest_load_node(&self) -> (r: NodeId)
        requires
            self.wf(),
        ensures
            r == lowest_load_node(self@),
    {
        let cands = self.load_candidates_exec();
        pick_lowest_score(&cands)
    }

    /// Takes one logical message from `source` at `now_ms` (Unix time
    /// `now_ts`) and says what the peer does. A failed peer absorbs it.
    pub fn handle_message(&mut self, msg: Message, source: &String, now_ms: u64, now_ts: i64) -> (r:
        Action)
        requires
            old(self).wf(),
        ensures
            final(self).wf(),
            old(self)@.state == NodeState::Failed ==> final(self)@ == old(self)@ && r is Drop,
            old(self)@.state != NodeState::Failed ==> routed(
                old(self)@,
                msg,
                source@,
                now_ms,
                now_ts,
                final(self)@,
                r,
            ),
    {
        if self.state == NodeState::Failed {
            return Action::Drop;
        }
        match msg {
            Message::SessionRegister { client_id, username } => {
                let ok = self.active_sessions.register(client_id, username);
                let error = if ok {
                    None
                } else {
                    Some("username in use".to_owned())
                };
                Action::Reply(Message::SessionRegisterResponse { success: ok, error })
            },
            Message::SessionUnregister { username, .. } => {
                self.active_sessions.unregister(&username);
                Action::Drop
            },
            Message::CheckUsernameAvailable { username } => {
                let is_available = self.active_sessions.is_available(&username);
                Action::Reply(Message::CheckUsernameAvailableResponse { username, is_available })
            },
            Message::SendImage { from_username, to_usernames, encrypted_image, max_views, image_id } => {
                self.stored_images.send_image(
                    &from_username,
                    &to_usernames,
                    &encrypted_image,
                    max_views,
                    &image_id,
                    now_ts,
                );
                Action::Reply(Message::SendImageResponse { success: true, image_id, error: None })
            },
            Message::QueryReceivedImages { username } => {
                let images = self.stored_images.query_received(&username);
                Action::Reply(Message::QueryReceivedImagesResponse { images })
            },
            Message::ViewImage { username, image_id } => {
                match self.stored_images.view_image(&username, &image_id) {
                    Ok((data, left)) => Action::Reply(
                        Message::ViewImageResponse {
                            success: true,
                            image_data: Some(data),
                            remaining_views: Some(left),
                            error: None,
                        },
                    ),
                    Err(e) => {
                        let remaining_views = match e {
                            ViewError::QuotaExhausted => Some(0u32),
                            _ => None,
                        };
                        Action::Reply(
                            Message::ViewImageResponse {
                                success: false,
                                image_data: None,
                                remaining_views,
                                error: Some(e.describe().to_owned()),
                            },
                        )
                    },
                }
            },
            Message::Heartbeat { from_node, load, processed_count } => {
                self.detector.record_heartbeat(from_node, load, processed_count, now_ms);
                Action::Reply(
                    Message::HeartbeatAck {
                        from_node: self.id,
                        load: self.active_requests,
                        processed_count: self.processed_requests,
                    },
                )
            },
            Message::HeartbeatAck { from_node, load, processed_count } => {
                self.detector.record_heartbeat(from_node, load, processed_count, now_ms);
                Action::Drop
            },
            Message::Election { from_node } => {
                let out = self.election_manager.handle_election_message(
                    from_node,
                    self.active_requests,
                    self.processed_requests,
                );
                Action::SendToPeers(out)
            },
            Message::LoadQuery { .. } => Action::Reply(
                Message::LoadResponse {
                    node_id: self.id,
                    load: self.active_requests,
                    queue_length: self.active_requests,
                    processed_count: self.processed_requests,
                },
            ),
            Message::Coordinator { node_id, load } => {
                self.election_manager.update_coordinator(node_id, load);
                Action::Drop
            },
            Message::StateSync { .. } => {
                let coordinator_id = self.coordinator_or_self();
                Action::Reply(
                    Message::StateSyncResponse {
                        coordinator_id,
                        load_metrics: Vec::new(),
                        timestamp: now_ts,
                    },
                )
            },
            Message::CoordinatorQuery => {
                let c = self.coordinator_or_self();
                let coordinator_address = match self.election_manager.node_addresses.get(&c) {
                    Some(a) => a.clone(),
                    None => self.address.clone(),
                };
                Action::Reply(Message::CoordinatorQueryResponse { coordinator_address })
            },
            Message::EncryptionRequest {
                request_id,
                client_username,
                image_data,
                usernames,
                quota,
                forwarded,
                client_address,
            } => {
                if !self.accept_request(&request_id, forwarded) {
                    return Action::Drop;
                }
                self.route_request(
                    request_id,
                    client_username,
                    image_data,
                    usernames,
                    quota,
                    forwarded,
                    client_address,
                    source,
                )
            },
            Message::DecryptionRequest { request_id, encrypted_image, .. } => {
                Action::DecryptLocally { request_id, encrypted_image }
            },
            _ => Action::Drop,
        }
    }

    fn coordinator_or_self(&self) -> (r: NodeId)
        ensures
            r == coordinator_or_self(self@),
    {
        match self.election_manager.get_coordinator() {
            Some(c) => c,
            None => self.id,
        }
    }

    /// Dedup and accounting on arrival: a duplicate that was not forwarded is
    /// refused; anything else is accepted, marked in flight and counted active.
    fn accept_request(&mut self, request_id: &String, forwarded: bool) -> (r: bool)
        requires
            old(self).wf(),
        ensures
            final(self).wf(),
            r == !is_duplicate(old(self)@, request_id@, forwarded),
            r ==> final(self)@ == accept_view(old(self)@, request_id@),
            !r ==> final(self)@ == old(self)@,
    {
        let known = self.in_flight_requests.contains_key(request_id);
        if known && !forwarded {
            return false;
        }
        if !known {
            self.in_flight_requests.insert(request_id.clone(), ());
        }
        self.active_requests = if self.active_requests < u64::MAX {
            self.active_requests + 1
        } else {
            self.active_requests
        };
        assert(self@.in_flight =~= old(self)@.in_flight.insert(request_id@));
        true
    }

    fn route_request(
        &self,
        request_id: String,
        client_username: String,
        image_data: Vec<u8>,
        usernames: Vec<String>,
        quota: u32,
        forwarded: bool,
        client_address: Option<String>,
        source: &String,
    ) -> (r: Action)
        requires
            self.wf(),
        ensures
            routes_encryption(
                self@,
                request_id,
                client_username,
                image_data,
                usernames,
                quota,
                forwarded,
                client_address,
                source@,
                r,
            ),
    {
        if forwarded {
            return Action::EncryptLocally {
                request_id,
                image_data,
                usernames,
                quota,
                client_address,
            };
        }
        let coordinator = self.coordinator_or_self();
        if coordinator != self.id {
            let client_addr = match client_address {
                Some(a) => Some(a),
                None => {
                    if self.is_peer_source(source) {
                        None
                    } else {
                        Some(source.clone())
                    }
                },
            };
            return Action::Forward {
                target: coordinator,
                request: Message::EncryptionRequest {
                    request_id,
                    client_username,
                    image_data,
                    usernames,
                    quota,
                    forwarded: false,
                    client_address: client_addr,
                },
            };
        }
        let target = self.find_lowest_load_node();
        if target == self.id {
            Action::EncryptLocally { request_id, image_data, usernames, quota, client_address: None }
        } else {
            Action::Forward {
                target,
                request: Message::EncryptionRequest {
                    request_id,
                    client_username,
                    image_data,
                    usernames,
                    quota,
                    forwarded: true,
                    client_address,
                },
            }
        }
    }

    /// The request `request_id` got its final reply: it leaves the in-flight
    /// set and one request fewer is active; `computed_here` says that this
    /// peer ran the encryption successfully.
    pub fn finish_encryption(&mut self, request_id: &String, computed_here: bool)
        requires
            old(self).wf(),
        ensures
            final(self).wf(),
            final(self)@ == finish_view(old(self)@, request_id@, computed_here),
    {
        let _ = self.in_flight_requests.remove(request_id);
        assert(self@.in_flight =~= old(self)@.in_flight.remove(request_id@));
        self.active_requests = if self.active_requests > 0 {
            self.active_requests - 1
        } else {
            0
        };
        if computed_here {
            self.processed_requests = if self.processed_requests < u64::MAX {
                self.processed_requests + 1
            } else {
                self.processed_requests
            };
        }
    }

    /// The heartbeats this peer sends on each beat: one to every other peer,
    /// none while failed.
    pub fn heartbeats(&self) -> (r: Vec<(NodeId, Message)>)
        requires
            self.wf(),
        ensures
            self.state == NodeState::Failed ==> r@.len() == 0,
            self.state != NodeState::Failed ==> r@.len() == self.peer_ids@.len() && forall|i: int|
                0 <= i < r@.len() ==> #[trigger] r@[i] == (
                    self.peer_ids@[i],
                    Message::Heartbeat {
                        from_node: self.id,
                        load: self.active_requests,
                        processed_count: self.processed_requests,
                    },
                ),
    {
        let mut out: Vec<(NodeId, Message)> = Vec::new();
        if self.state == NodeState::Failed {
            return out;
        }
        let mut i: usize = 0;
        while i < self.peer_ids.len()
            invariant
                i <= self.peer_ids.len(),
                out@.len() == i,
                forall|j: int|
                    0 <= j < i ==> #[trigger] out@[j] == (
                        self.peer_ids@[j],
                        Message::Heartbeat {
                            from_node: self.id,
                            load: self.active_requests,
                            processed_count: self.processed_requests,
                        },
                    ),
            decreases self.peer_ids.len() - i,
        {
            out.push(
                (
                    self.peer_ids[i],
                    Message::Heartbeat {
                        from_node: self.id,
                        load: self.active_requests,
                        processed_count: self.processed_requests,
                    },
                ),
            );
            i += 1;
        }
        out
    }

    /// One failure-detector tick at `now_ms`. Returns whether the believed
    /// coordinator was newly found failed, in which case an election follows.
    pub fn detector_tick(&mut self, now_ms: u64) -> (r: bool)
        requires
            old(self).wf(),
        ensures
            final(self).wf(),
            final(self)@ == (PeerView {
                failed: old(self)@.failed.union(
                    newly_failed(
                        old(self)@.peer_ids,
                        old(self)@.last_heartbeat,
                        old(self)@.failed,
                        old(self)@.started_ms,
                        now_ms,
                    ).to_set(),
                ),
                ..old(self)@
            }),
            r == (old(self)@.coordinator matches Some(c) && newly_failed(
                old(self)@.peer_ids,
                old(self)@.last_heartbeat,
                old(self)@.failed,
                old(self)@.started_ms,
                now_ms,
            ).contains(c)),
    {
        let newly = self.detector.scan(&self.peer_ids, now_ms);
        proof {
            lemma_newly_failed_within(
                old(self)@.peer_ids,
                old(self)@.last_heartbeat,
                old(self)@.failed,
                old(self)@.started_ms,
                now_ms,
            );
        }
        match self.election_manager.get_coordinator() {
            None => false,
            Some(c) => contains_id(&newly, c),
        }
    }

    /// The peers to ask for their load in an election: every other peer not
    /// believed failed, in table order; none while this peer is failed.
    pub fn election_targets(&self) -> (r: Vec<NodeId>)
        requires
            self.wf(),
        ensures
            self.state == NodeState::Failed ==> r@.len() == 0,
            self.state != NodeState::Failed ==> r@ == self.peer_ids@.filter(
                |p: NodeId| !self.detector.failed_nodes@.contains(p),
            ),
    {
        let mut out: Vec<NodeId> = Vec::new();
        if self.state == NodeState::Failed {
            return out;
        }
        let mut i: usize = 0;
        while i < self.peer_ids.len()
            invariant
                i <= self.peer_ids.len(),
                out@ == self.peer_ids@.subrange(0, i as int).filter(
                    |p: NodeId| !self.detector.failed_nodes@.contains(p),
                ),
            decreases self.peer_ids.len() - i,
        {
            let p = self.peer_ids[i];
            proof {
                let s = self.peer_ids@.subrange(0, i + 1);
                assert(s.drop_last() =~= self.peer_ids@.subrange(0, i as int));
                reveal(Seq::filter);
            }
            if !self.detector.is_failed(p) {
                out.push(p);
            }
            i += 1;
        }
        assert(self.peer_ids@.subrange(0, self.peer_ids.len() as int) =~= self.peer_ids@);
        out
    }

    /// Concludes an election from the loads that peers reported. Reports of
    /// peers believed failed are ignored, and this peer stands with its own
    /// load only while active; a failed peer, or one with no candidate at
    /// all, changes nothing. A new coordinator is never one believed failed.
    pub fn conclude_election(&mut self, responses: &Vec<(NodeId, u64)>) -> (r: Option<
        (ElectionResult, Vec<(NodeId, Message)>),
    >)
        requires
            old(self).wf(),
        ensures
            final(self).wf(),
            ({
                let cands = election_candidates(old(self)@, responses@);
                if old(self)@.state == NodeState::Failed || cands.len() == 0 {
                    r is None && final(self)@ == old(self)@
                } else {
                    &&& r matches Some((result, out))
                    &&& final(self)@ == (PeerView {
                        coordinator: election_outcome(old(self)@.coordinator, cands),
                        ..old(self)@
                    })
                    &&& result.coordinator_id == lowest(cands).0
                    &&& should_replace(old(self)@.coordinator, cands, lowest(cands))
                        ==> to_each_other_peer(
                        out@,
                        old(self)@.node_addresses,
                        old(self)@.id,
                        |m: Message|
                            m == Message::Coordinator {
                                node_id: lowest(cands).0,
                                load: lowest(cands).1,
                            },
                    )
                    &&& !should_replace(old(self)@.coordinator, cands, lowest(cands)) ==> out@.len()
                        == 0
                    &&& final(self)@.coordinator != old(self)@.coordinator
                        ==> (final(self)@.coordinator matches Some(c)
                        && !old(self)@.failed.contains(c))
                }
            }),
    {
        if self.state == NodeState::Failed {
            return None;
        }
        let mut cands: Vec<(NodeId, u64)> = Vec::new();
        if self.state == NodeState::Active {
            cands.push((self.id, self.active_requests));
        }
        let mut i: usize = 0;
        let ghost start = cands@;
        while i < responses.len()
            invariant
                i <= responses.len(),
                cands@ == start + live_reports(self@, responses@.subrange(0, i as int)),
            decreases responses.len() - i,
        {
            assert(responses@.subrange(0, i + 1).drop_last() =~= responses@.subrange(0, i as int));
            if !self.detector.is_failed(responses[i].0) {
                let ghost before = cands@;
                cands.push(responses[i]);
                assert(cands@ =~= start + live_reports(self@, responses@.subrange(0, i + 1)));
            } else {
                assert(cands@ =~= start + live_reports(self@, responses@.subrange(0, i + 1)));
            }
            i += 1;
        }
        assert(responses@.subrange(0, responses.len() as int) =~= responses@);
        assert(cands@ =~= election_candidates(old(self)@, responses@));
        if cands.len() == 0 {
            return None;
        }
        proof {
            let cs = cands@;
            lemma_lowest_is_least(cs);
            lemma_live_reports_live(self@, responses@);
            assert(!self@.failed.contains(self.id)) by {
                if self@.failed.contains(self.id) {
                    assert(self.peer_ids@.contains(self.id));
                }
            }
            assert forall|i: int| 0 <= i < cs.len() implies !self@.failed.contains(
                (#[trigger] cs[i]).0,
            ) by {
                if self.state == NodeState::Active && i > 0 {
                    assert(cs[i] == live_reports(self@, responses@)[i - 1]);
                } else if self.state != NodeState::Active {
                    assert(cs[i] == live_reports(self@, responses@)[i]);
                }
            }
            let j = choose|j: int| 0 <= j < cs.len() && cs[j] == lowest(cs);
            assert(!self@.failed.contains(cs[j].0));
        }
        Some(self.election_manager.conclude_election(&cands))
    }

    /// Takes one datagram under the chunk framing at `now_ms`. A failed peer
    /// absorbs it; a retransmission request is answered from the chunk cache;
    /// anything else goes to the reassembler.
    pub fn handle_chunk(&mut self, chunk: ChunkedMessage, now_ms: u64) -> (r: ChunkOutcome)
        requires
            old(self).wf(),
        ensures
            final(self).wf(),
            old(self)@.state == NodeState::Failed ==> final(self)@ == old(self)@ && r is Nothing,
            old(self)@.state != NodeState::Failed ==> match chunk@ {
                ChunkView::Retransmit { chunk_id, missing_indices } => {
                    &&& final(self)@ == old(self)@
                    &&& old(self)@.chunk_cache.contains_key(chunk_id) ==> (r matches ChunkOutcome::Resend(
                        v,
                    ) && views_of(v@) == select_chunks(
                        old(self)@.chunk_cache[chunk_id].0,
                        missing_indices,
                    ))
                    &&& !old(self)@.chunk_cache.contains_key(chunk_id) ==> r is Nothing
                },
                _ => {
                    &&& final(self)@ == (PeerView { reassembly: final(self)@.reassembly, ..old(self)@ })
                    &&& chunk_effect(
                        old(self)@.reassembly,
                        chunk@,
                        now_ms,
                        final(self)@.reassembly,
                        match r {
                            ChunkOutcome::Deliver(b) => Some(b@),
                            _ => None,
                        },
                    )
                    &&& !(r is Resend)
                },
            },
    {
        if self.state == NodeState::Failed {
            return ChunkOutcome::Nothing;
        }
        match chunk {
            ChunkedMessage::RetransmitRequest { chunk_id, missing_indices } => {
                match self.chunk_cache.retransmit(&chunk_id, &missing_indices) {
                    Some(v) => ChunkOutcome::Resend(v),
                    None => ChunkOutcome::Nothing,
                }
            },
            other => {
                match self.chunk_reassembler.process_chunk(other, now_ms) {
                    Some(b) => ChunkOutcome::Deliver(b),
                    None => ChunkOutcome::Nothing,
                }
            },
        }
    }

    /// Drops incomplete payloads older than the reassembly timeout and cached
    /// replies older than the cache lifetime, at `now_ms`.
    pub fn expire_buffers(&mut self, now_ms: u64)
        requires
            old(self).wf(),
        ensures
            final(self).wf(),
            final(self)@ == (PeerView {
                reassembly: final(self)@.reassembly,
                chunk_cache: final(self)@.chunk_cache,
                ..old(self)@
            }),
            forall|k: Seq<char>|
                #[trigger] final(self)@.reassembly.contains_key(k) <==> old(self)@.reassembly.contains_key(k)
                    && !is_expired(
                    old(self)@.reassembly[k].first_seen_ms,
                    now_ms,
                    REASSEMBLY_TIMEOUT_MS,
                ),
            forall|k: Seq<char>|
                #[trigger] final(self)@.reassembly.contains_key(k) ==> final(self)@.reassembly[k]
                    == old(self)@.reassembly[k],
            forall|k: Seq<char>|
                #[trigger] final(self)@.chunk_cache.contains_key(k) <==> old(self)@.chunk_cache.contains_key(k)
                    && !is_expired(old(self)@.chunk_cache[k].1, now_ms, CHUNK_CACHE_TTL_MS),
            forall|k: Seq<char>|
                #[trigger] final(self)@.chunk_cache.contains_key(k) ==> final(self)@.chunk_cache[k]
                    == old(self)@.chunk_cache[k],
    {
        self.chunk_reassembler.cleanup_expired(now_ms);
        self.chunk_cache.evict_expired(now_ms);
    }

    /// The chunks that carry reply `payload` at `now_ms`; a multi-chunk reply
    /// is also kept for retransmission. A payload too large to number its
    /// chunks in `u32` gives no chunks.
    pub fn prepare_reply(&mut self, payload: Vec<u8>, now_ms: u64) -> (r: Vec<ChunkedMessage>)
        requires
            old(self).wf(),
        ensures
            final(self).wf(),
            chunk_count(payload@.len()) > u32::MAX ==> r@.len() == 0 && final(self)@ == old(self)@,
            chunk_count(payload@.len()) <= u32::MAX ==> exists|id: Seq<char>|
                {
                    &&& views_of(r@) == fragment_view(payload@, id)
                    &&& final(self)@ == (PeerView {
                        chunk_cache: if r@.len() > 0 && r@[0]@ is Multi {
                            old(self)@.chunk_cache.insert(id, (views_of(r@), now_ms))
                        } else {
                            old(self)@.chunk_cache
                        },
                        ..old(self)@
                    })
                },
    {
        let fits = chunk_count_fits(payload.len());
        if !fits {
            return Vec::new();
        }
        let chunks = ChunkedMessage::fragment(payload);
        let ghost id = choose|id: Seq<char>| views_of(chunks@) == fragment_view(payload@, id);
        self.chunk_cache.store(&chunks, now_ms);
        proof {
            if chunks@.len() > 0 && chunks@[0]@ is Multi {
                assert(views_of(chunks@)[0] == chunks@[0]@);
                assert(chunks@[0]@->Multi_chunk_id == id);
            }
        }
        chunks
    }
}

/// The candidates of an election at peer `v`: itself while active, then
/// each response in order.
pub open spec fn election_candidates(v: PeerView, responses: Seq<(NodeId, u64)>) -> Seq<
    (NodeId, u64),
> {
    if v.state == NodeState::Active {
        seq![(v.id, v.active_requests)] + live_reports(v, responses)
    } else {
        live_reports(v, responses)
    }
}

/// The reports of peers that `v` does not believe failed, in order.
pub open spec fn live_reports(v: PeerView, responses: Seq<(NodeId, u64)>) -> Seq<(NodeId, u64)>
    decreases responses.len(),
{
    if responses.len() == 0 {
        Seq::empty()
    } else {
        let rest = live_reports(v, responses.drop_last());
        if v.failed.contains(responses.last().0) {
            rest
        } else {
            rest.push(responses.last())
        }
    }
}

proof fn lemma_live_reports_live(v: PeerView, responses: Seq<(NodeId, u64)>)
    ensures
        forall|i: int|
            0 <= i < live_reports(v, responses).len() ==> !v.failed.contains(
                (#[trigger] live_reports(v, responses)[i]).0,
            ),
    decreases responses.len(),
{
    if responses.len() > 0 {
        let rest = live_reports(v, responses.drop_last());
        lemma_live_reports_live(v, responses.drop_last());
        assert forall|i: int| 0 <= i < live_reports(v, responses).len() implies !v.failed.contains(
            (#[trigger] live_reports(v, responses)[i]).0,
        ) by {
            if i < rest.len() {
                assert(live_reports(v, responses)[i] == rest[i]);
            }
        }
    }
}

fn contains_id(v: &Vec<NodeId>, c: NodeId) -> (r: bool)
    ensures
        r == v@.contains(c),
{
    let mut i: usize = 0;
    while i < v.len()
        invariant
            i <= v.len(),
            forall|j: int| 0 <= j < i ==> v@[j] != c,
        decreases v.len() - i,
    {
        if v[i] == c {
            assert(v@[i as int] == c);
            return true;
        }
        i += 1;
    }
    false
}

/// Every accepted request leaves the active count as it found it: accepting
/// counts it once, finishing uncounts it once (below the saturation point),
/// and the in-flight set returns to what it was when the id was new.
pub proof fn lemma_request_nets_zero(v: PeerView, id: Seq<char>, computed_here: bool)
    requires
        v.active_requests < u64::MAX,
    ensures
        accept_view(v, id).active_requests == v.active_requests + 1,
        finish_view(accept_view(v, id), id, computed_here).active_requests == v.active_requests,
        !v.in_flight.contains(id) ==> finish_view(accept_view(v, id), id, computed_here).in_flight
            == v.in_flight,
{
    if !v.in_flight.contains(id) {
        assert(v.in_flight.insert(id).remove(id) =~= v.in_flight);
    }
}

/// The same request sent twice without the forwarded mark is run at most
/// once by a peer: once the first is accepted, the second is a duplicate
/// until the first is finished.
pub proof fn lemma_duplicate_refused(v: PeerView, id: Seq<char>)
    ensures
        is_duplicate(accept_view(v, id), id, false),
        !is_duplicate(finish_view(accept_view(v, id), id, false), id, false),
{
}

} // verus!
