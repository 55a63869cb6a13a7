//! Application-level fragmentation of payloads into datagram-sized chunks,
//! their reassembly, and the cache that serves retransmissions.
use crate::table::{is_expired, KeyedTable, Stamped};
use std::collections::HashMap;
use vstd::prelude::*;

verus! {

broadcast use vstd::std_specs::hash::group_hash_axioms;

/// Largest payload slice carried by one chunk; its base64 text plus the JSON
/// envelope stays under the datagram limit.
pub const CHUNK_SIZE: usize = 45000;

/// A partly received message older than this is discarded.
pub const REASSEMBLY_TIMEOUT_MS: u64 = 30000;

/// A receiver missing chunks of a payload asks for them again after this long.
pub const RETRANSMIT_WAIT_MS: u64 = 500;

/// Outbound chunks are kept this long for retransmission.
pub const CHUNK_CACHE_TTL_MS: u64 = 60000;

/// The padded standard-alphabet base64 text of a byte string.
pub uninterp spec fn base64_of(b: Seq<u8>) -> Seq<char>;

#[verifier::external_type_specification]
#[verifier::external_body]
pub struct ExDecodeError(base64::DecodeError);

/// Relies on base64's `engine::general_purpose::STANDARD.encode`: the padded
/// standard-alphabet text of the bytes. It panics only when the length of
/// that text overflows `usize`.
#[verifier::external_body]
fn encode_base64(b: &[u8]) -> (r: String)
    requires
        b@.len() <= usize::MAX / 2,
    ensures
        r@ == base64_of(b@),
{
    base64::Engine::encode(&base64::engine::general_purpose::STANDARD, b)
}

/// Relies on base64's `engine::general_purpose::STANDARD.decode`: padding must
/// be canonical and trailing bits are refused, so it accepts exactly the texts
/// that `encode` produces and gives back the bytes they encode.
#[verifier::external_body]
fn decode_base64(s: &String) -> (r: Result<Vec<u8>, base64::DecodeError>)
    ensures
        r is Err ==> forall|b: Seq<u8>| #[trigger] base64_of(b) != s@,
        r matches Ok(v) ==> base64_of(v@) == s@ && forall|b: Seq<u8>|
            #[trigger] base64_of(b) == s@ ==> v@ == b,
{
    base64::Engine::decode(&base64::engine::general_purpose::STANDARD, s)
}

/// Relies on uuid's `Uuid::new_v4`, printed in hyphenated form: a random
/// identifier, of which nothing is promised here.
#[verifier::external_body]
fn fresh_chunk_id() -> (r: String) {
    uuid::Uuid::new_v4().to_string()
}

/// What a datagram carries under the chunk framing.
#[derive(Debug, Clone)]
pub enum ChunkedMessage {
    /// A whole payload, base64 encoded.
    SinglePacket(String),
    /// One slice of a larger payload.
    MultiPacket { chunk_id: String, chunk_index: u32, total_chunks: u32, data: String },
    /// A receiver asks for the listed slices of a payload again.
    RetransmitRequest { chunk_id: String, missing_indices: Vec<u32> },
}

/// The mathematical content of a `ChunkedMessage`.
pub enum ChunkView {
    Single(Seq<char>),
    Multi { chunk_id: Seq<char>, chunk_index: u32, total_chunks: u32, data: Seq<char> },
    Retransmit { chunk_id: Seq<char>, missing_indices: Seq<u32> },
}

impl View for ChunkedMessage {
    type V = ChunkView;

    open spec fn view(&self) -> ChunkView {
        match self {
            ChunkedMessage::SinglePacket(s) => ChunkView::Single(s@),
            ChunkedMessage::MultiPacket { chunk_id, chunk_index, total_chunks, data } => {
                ChunkView::Multi {
                    chunk_id: chunk_id@,
                    chunk_index: *chunk_index,
                    total_chunks: *total_chunks,
                    data: data@,
                }
            },
            ChunkedMessage::RetransmitRequest { chunk_id, missing_indices } => {
                ChunkView::Retransmit { chunk_id: chunk_id@, missing_indices: missing_indices@ }
            },
        }
    }
}

impl ChunkedMessage {
    /// A copy with the same content.
    pub fn duplicate(&self) -> (r: ChunkedMessage)
        ensures
            r@ == self@,
    {
        match self {
            ChunkedMessage::SinglePacket(s) => ChunkedMessage::SinglePacket(s.clone()),
            ChunkedMessage::MultiPacket { chunk_id, chunk_index, total_chunks, data } => {
                ChunkedMessage::MultiPacket {
                    chunk_id: chunk_id.clone(),
                    chunk_index: *chunk_index,
                    total_chunks: *total_chunks,
                    data: data.clone(),
                }
            },
            ChunkedMessage::RetransmitRequest { chunk_id, missing_indices } => {
                let m = missing_indices.clone();
                assert(m@ =~= missing_indices@);
                ChunkedMessage::RetransmitRequest { chunk_id: chunk_id.clone(), missing_indices: m }
            },
        }
    }
}

/// Number of chunks a payload of `len` bytes is split into, when it is split.
pub open spec fn chunk_count(len: nat) -> nat {
    if len % (CHUNK_SIZE as nat) == 0 {
        len / (CHUNK_SIZE as nat)
    } else {
        len / (CHUNK_SIZE as nat) + 1
    }
}

/// The `i`-th slice of `p`: `CHUNK_SIZE` bytes from `i * CHUNK_SIZE`, or what is left.
pub open spec fn piece(p: Seq<u8>, i: int) -> Seq<u8> {
    let start = i * (CHUNK_SIZE as int);
    if start + CHUNK_SIZE <= p.len() {
        p.subrange(start, start + CHUNK_SIZE)
    } else {
        p.subrange(start, p.len() as int)
    }
}

/// The chunks that carry payload `p` under chunk id `id`.
pub open spec fn fragment_view(p: Seq<u8>, id: Seq<char>) -> Seq<ChunkView> {
    if p.len() <= CHUNK_SIZE {
        seq![ChunkView::Single(base64_of(p))]
    } else {
        let n = chunk_count(p.len());
        Seq::new(
            n,
            |i: int|
                ChunkView::Multi {
                    chunk_id: id,
                    chunk_index: i as u32,
                    total_chunks: n as u32,
                    data: base64_of(piece(p, i)),
                },
        )
    }
}

pub open spec fn views_of(s: Seq<ChunkedMessage>) -> Seq<ChunkView> {
    s.map_values(|c: ChunkedMessage| c@)
}

proof fn lemma_chunk_bounds(len: nat, k: nat)
    requires
        len > CHUNK_SIZE,
        k < chunk_count(len),
    ensures
        k * (CHUNK_SIZE as nat) < len,
        chunk_count(len) >= 2,
        chunk_count(len) * (CHUNK_SIZE as nat) >= len,
{
    let c = CHUNK_SIZE as nat;
    let q = len / c;
    let r = len % c;
    assert(len == q * c + r && 0 <= r < c) by (nonlinear_arith)
        requires
            c == 45000,
            q == len / c,
            r == len % c,
    ;
    if r == 0 {
        assert(k * c < len) by (nonlinear_arith)
            requires
                k < q,
                len == q * c + r,
                r == 0,
                c > 0,
        ;
    } else {
        assert(k * c < len) by (nonlinear_arith)
            requires
                k <= q,
                len == q * c + r,
                r > 0,
        ;
    }
    assert(q >= 1) by (nonlinear_arith)
        requires
            len == q * c + r,
            r < c,
            len > c,
    ;
    if r == 0 {
        assert(q * c >= len) by (nonlinear_arith)
            requires
                len == q * c + r,
                r == 0,
        ;
    } else {
        assert((q + 1) * c >= len) by (nonlinear_arith)
            requires
                len == q * c + r,
                r < c,
        ;
    }
    if r == 0 {
        assert(q >= 2) by (nonlinear_arith)
            requires
                len == q * c,
                len > c,
                c > 0,
        ;
    }
}

/// A payload of `len` bytes can be numbered in chunks with `u32` indices.
pub fn chunk_count_fits(len: usize) -> (r: bool)
    ensures
        r == (chunk_count(len as nat) <= u32::MAX),
{
    let q = len / CHUNK_SIZE;
    let count = if len % CHUNK_SIZE == 0 {
        q
    } else {
        q + 1
    };
    count <= 0xffff_ffff
}

impl ChunkedMessage {
    /// Splits `data` into the chunks that carry it, under the given chunk id.
    pub fn fragment_with_id(data: Vec<u8>, chunk_id: String) -> (r: Vec<ChunkedMessage>)
        requires
            chunk_count(data@.len()) <= u32::MAX,
        ensures
            views_of(r@) == fragment_view(data@, chunk_id@),
    {
        let data_len = data.len();
        if data_len <= CHUNK_SIZE {
            let encoded = encode_base64(data.as_slice());
            let mut single: Vec<ChunkedMessage> = Vec::new();
            single.push(ChunkedMessage::SinglePacket(encoded));
            assert(views_of(single@) =~= fragment_view(data@, chunk_id@));
            return single;
        }
        let total: usize = if data_len % CHUNK_SIZE == 0 {
            data_len / CHUNK_SIZE
        } else {
            data_len / CHUNK_SIZE + 1
        };
        assert(total == chunk_count(data_len as nat));
        let total_chunks = total as u32;
        let ghost expected = fragment_view(data@, chunk_id@);
        let mut chunks: Vec<ChunkedMessage> = Vec::new();
        let mut k: usize = 0;
        while k < total
            invariant
                data_len == data@.len(),
                data_len > CHUNK_SIZE,
                total == chunk_count(data_len as nat),
                total_chunks == total,
                total <= u32::MAX,
                expected == fragment_view(data@, chunk_id@),
                k <= total,
                chunks@.len() == k,
                forall|i: int| 0 <= i < k ==> #[trigger] chunks@[i]@ == expected[i],
            decreases total - k,
        {
            proof {
                lemma_chunk_bounds(data_len as nat, k as nat);
            }
            let start = k * CHUNK_SIZE;
            let end = if data_len - start > CHUNK_SIZE {
                start + CHUNK_SIZE
            } else {
                data_len
            };
            let slice = vstd::slice::slice_subrange(data.as_slice(), start, end);
            assert(slice@ == piece(data@, k as int));
            let encoded = encode_base64(slice);
            chunks.push(
                ChunkedMessage::MultiPacket {
                    chunk_id: chunk_id.clone(),
                    chunk_index: k as u32,
                    total_chunks,
                    data: encoded,
                },
            );
            k += 1;
        }
        assert(views_of(chunks@) =~= expected);
        chunks
    }

    /// Splits `data` into the chunks that carry it, under a freshly drawn chunk id.
    pub fn fragment(data: Vec<u8>) -> (r: Vec<ChunkedMessage>)
        requires
            chunk_count(data@.len()) <= u32::MAX,
        ensures
            exists|id: Seq<char>| views_of(r@) == fragment_view(data@, id),
    {
        let chunk_id = if data.len() <= CHUNK_SIZE {
            String::new()
        } else {
            fresh_chunk_id()
        };
        let ghost id = chunk_id@;
        let r = Self::fragment_with_id(data, chunk_id);
        assert(views_of(r@) == fragment_view(data@, id));
        r
    }
}

/// Every chunk a reassembler holding `m` keeps, as the pair of its payload's
/// chunk id and its index; an index received twice counts once.
pub open spec fn held_chunks(m: Map<Seq<char>, PendingView>) -> Set<(Seq<char>, u32)> {
    Set::new(|p: (Seq<char>, u32)| m.contains_key(p.0) && m[p.0].parts.contains_key(p.1))
}

/// What has arrived of one payload that travels in several chunks.
pub struct PendingView {
    pub total_chunks: u32,
    pub first_seen_ms: u64,
    pub parts: Map<u32, Seq<u8>>,
}

/// Every index below `total` has arrived.
pub open spec fn all_present(parts: Map<u32, Seq<u8>>, total: u32) -> bool {
    forall|i: u32| i < total ==> #[trigger] parts.contains_key(i)
}

/// The parts `0..n` concatenated in index order.
pub open spec fn joined(parts: Map<u32, Seq<u8>>, n: nat) -> Seq<u8>
    decreases n,
{
    if n == 0 {
        Seq::empty()
    } else {
        joined(parts, (n - 1) as nat) + parts[(n - 1) as u32]
    }
}

/// The indices below `n` that have not arrived, in increasing order.
pub open spec fn missing_upto(parts: Map<u32, Seq<u8>>, n: nat) -> Seq<u32>
    decreases n,
{
    if n == 0 {
        Seq::empty()
    } else {
        let rest = missing_upto(parts, (n - 1) as nat);
        if parts.contains_key((n - 1) as u32) {
            rest
        } else {
            rest.push((n - 1) as u32)
        }
    }
}

/// A reassembler holding `m` takes slice `index` of `total` of payload `id`,
/// whose bytes are `bytes`, at instant `now`. It returns the new state and
/// the payload when this slice completes it.
///
/// A slice whose total disagrees with the slices already held for `id`
/// changes nothing. Any other slice is stored under its index, an index at or
/// above the total included; a later copy of an index replaces the earlier
/// one. The payload is delivered once every index below the total is held.
pub open spec fn accept_part(
    m: Map<Seq<char>, PendingView>,
    id: Seq<char>,
    index: u32,
    total: u32,
    bytes: Seq<u8>,
    now: u64,
) -> (Map<Seq<char>, PendingView>, Option<Seq<u8>>) {
    if m.contains_key(id) && m[id].total_chunks != total {
        (m, None)
    } else {
        let prev = if m.contains_key(id) {
            m[id]
        } else {
            PendingView { total_chunks: total, first_seen_ms: now, parts: Map::empty() }
        };
        let parts = prev.parts.insert(index, bytes);
        if all_present(parts, total) {
            (m.remove(id), Some(joined(parts, total as nat)))
        } else {
            (
                m.insert(
                    id,
                    PendingView { total_chunks: total, first_seen_ms: prev.first_seen_ms, parts },
                ),
                None,
            )
        }
    }
}

pub open spec fn bytes_of(r: Option<Vec<u8>>) -> Option<Seq<u8>> {
    match r {
        Some(v) => Some(v@),
        None => None,
    }
}

/// What taking `chunk` at `now` does to a reassembler holding `m`: it ends
/// holding `m2` and delivers `out`. Text that is not base64 is dropped.
pub open spec fn chunk_effect(
    m: Map<Seq<char>, PendingView>,
    chunk: ChunkView,
    now: u64,
    m2: Map<Seq<char>, PendingView>,
    out: Option<Seq<u8>>,
) -> bool {
    match chunk {
        ChunkView::Single(text) => {
            &&& m2 == m
            &&& forall|b: Seq<u8>| #[trigger] base64_of(b) == text ==> out == Some(b)
            &&& (forall|b: Seq<u8>| #[trigger] base64_of(b) != text) ==> out is None
        },
        ChunkView::Multi { chunk_id, chunk_index, total_chunks, data } => {
            &&& forall|b: Seq<u8>| #[trigger]
                base64_of(b) == data ==> (m2, out) == accept_part(
                    m,
                    chunk_id,
                    chunk_index,
                    total_chunks,
                    b,
                    now,
                )
            &&& (forall|b: Seq<u8>| #[trigger] base64_of(b) != data) ==> m2 == m && out is None
        },
        ChunkView::Retransmit { .. } => m2 == m && out is None,
    }
}

/// The slices of one payload received so far.
pub struct PendingMessage {
    total_chunks: u32,
    first_seen_ms: u64,
    parts: HashMap<u32, Vec<u8>>,
}

impl View for PendingMessage {
    type V = PendingView;

    closed spec fn view(&self) -> PendingView {
        PendingView {
            total_chunks: self.total_chunks,
            first_seen_ms: self.first_seen_ms,
            parts: self.parts@.map_values(|v: Vec<u8>| v@),
        }
    }
}

impl Stamped for PendingMessage {
    closed spec fn stamp_spec(&self) -> u64 {
        self.first_seen_ms
    }

    fn stamp(&self) -> (r: u64) {
        self.first_seen_ms
    }
}

impl PendingMessage {
    fn all_received(&self) -> (r: bool)
        ensures
            r == all_present(self@.parts, self.total_chunks),
    {
        let mut i: u32 = 0;
        while i < self.total_chunks
            invariant
                forall|j: u32| j < i ==> #[trigger] self@.parts.contains_key(j),
            decreases self.total_chunks - i,
        {
            if !self.parts.contains_key(&i) {
                assert(!self@.parts.contains_key(i));
                return false;
            }
            i += 1;
        }
        true
    }

    fn assemble(&self) -> (r: Vec<u8>)
        requires
            all_present(self@.parts, self.total_chunks),
        ensures
            r@ == joined(self@.parts, self.total_chunks as nat),
    {
        let mut out: Vec<u8> = Vec::new();
        let mut i: u32 = 0;
        while i < self.total_chunks
            invariant
                i <= self.total_chunks,
                all_present(self@.parts, self.total_chunks),
                out@ == joined(self@.parts, i as nat),
            decreases self.total_chunks - i,
        {
            assert(self@.parts.contains_key(i));
            match self.parts.get(&i) {
                Some(part) => {
                    let ghost before = out@;
                    out.extend_from_slice(part.as_slice());
                    assert(out@ =~= before + part@);
                },
                None => {},
            }
            i += 1;
        }
        out
    }
}

/// Reassembles payloads that arrive as several chunks.
pub struct ChunkReassembler {
    incomplete: KeyedTable<PendingMessage>,
}

impl View for ChunkReassembler {
    type V = Map<Seq<char>, PendingView>;

    closed spec fn view(&self) -> Map<Seq<char>, PendingView> {
        self.incomplete@.map_values(|p: PendingMessage| p@)
    }
}

impl ChunkReassembler {
    pub closed spec fn wf(&self) -> bool {
        self.incomplete.wf()
    }

    closed spec fn held_upto(&self, n: nat) -> Set<(Seq<char>, u32)> {
        Set::new(
            |p: (Seq<char>, u32)|
                exists|i: int|
                    0 <= i < n && self.incomplete.key_at(i) == p.0 && (
                    #[trigger] self.incomplete.value_at(i))@.parts.contains_key(p.1),
        )
    }

    proof fn lemma_held_upto(&self, n: nat)
        requires
            self.wf(),
            n <= self.incomplete.count(),
        ensures
            self.held_upto(n).finite(),
            self.held_upto(n).len() == self.parts_upto(n),
        decreases n,
    {
        self.incomplete.lemma_positions();
        if n == 0 {
            assert(self.held_upto(0) =~= Set::<(Seq<char>, u32)>::empty());
        } else {
            let m = (n - 1) as nat;
            self.lemma_held_upto(m);
            let k = self.incomplete.key_at(m as int);
            let v = self.incomplete.value_at(m as int);
            let d = v@.parts.dom();
            vstd::std_specs::hash::axiom_hashmap_view_finite_dom(v.parts);
            assert(d =~= v.parts@.dom());
            let f = |j: u32| (k, j);
            let t = d.map(f);
            assert(vstd::relations::injective_on(f, d));
            vstd::set_lib::lemma_map_size(d, t, f);
            let prev = self.held_upto(m);
            assert forall|p: (Seq<char>, u32)|
                #[trigger] self.held_upto(n).contains(p) <==> (prev + t).contains(p) by {
                if self.held_upto(n).contains(p) {
                    let i = choose|i: int|
                        0 <= i < n && self.incomplete.key_at(i) == p.0 && (
                        #[trigger] self.incomplete.value_at(i))@.parts.contains_key(p.1);
                    if i == m {
                        assert(d.contains(p.1) && f(p.1) == p);
                    } else {
                        assert(prev.contains(p));
                    }
                }
                if t.contains(p) {
                    let j = choose|j: u32| d.contains(j) && f(j) == p;
                    assert(self.incomplete.value_at(m as int)@.parts.contains_key(p.1));
                }
                if prev.contains(p) {
                    let i = choose|i: int|
                        0 <= i < m && self.incomplete.key_at(i) == p.0 && (
                        #[trigger] self.incomplete.value_at(i))@.parts.contains_key(p.1);
                    assert(self.incomplete.value_at(i)@.parts.contains_key(p.1));
                }
            }
            assert(self.held_upto(n) =~= prev + t);
            assert forall|p: (Seq<char>, u32)| prev.contains(p) implies !t.contains(p) by {
                let i = choose|i: int|
                    0 <= i < m && self.incomplete.key_at(i) == p.0 && (
                    #[trigger] self.incomplete.value_at(i))@.parts.contains_key(p.1);
                assert(self.incomplete.key_at(i) != self.incomplete.key_at(m as int));
            }
            assert(prev.disjoint(t));
            vstd::set_lib::lemma_set_disjoint_lens(prev, t);
        }
    }

    proof fn lemma_held_chunks(&self)
        requires
            self.wf(),
        ensures
            held_chunks(self@).finite(),
            held_chunks(self@).len() == self.parts_upto(self.incomplete.count()),
    {
        self.incomplete.lemma_positions();
        let n = self.incomplete.count();
        self.lemma_held_upto(n);
        assert forall|p: (Seq<char>, u32)|
            #[trigger] held_chunks(self@).contains(p) <==> self.held_upto(n).contains(p) by {
            if held_chunks(self@).contains(p) {
                assert(self.incomplete@.contains_key(p.0));
                let i = choose|i: int| 0 <= i < n && self.incomplete.key_at(i) == p.0;
                assert(self.incomplete@.contains_key(self.incomplete.key_at(i)));
                assert(self.incomplete.value_at(i)@.parts.contains_key(p.1));
            }
            if self.held_upto(n).contains(p) {
                let i = choose|i: int|
                    0 <= i < n && self.incomplete.key_at(i) == p.0 && (
                    #[trigger] self.incomplete.value_at(i))@.parts.contains_key(p.1);
                assert(self.incomplete@.contains_key(self.incomplete.key_at(i)));
            }
        }
        assert(held_chunks(self@) =~= self.held_upto(n));
    }

    closed spec fn parts_upto(&self, n: nat) -> nat
        decreases n,
    {
        if n == 0 {
            0
        } else {
            self.parts_upto((n - 1) as nat) + self.incomplete.value_at(n - 1)@.parts.dom().len()
        }
    }

    pub fn new() -> (r: Self)
        ensures
            r.wf(),
            r@ == Map::<Seq<char>, PendingView>::empty(),
    {
        let r = ChunkReassembler { incomplete: KeyedTable::new() };
        assert(r@ =~= Map::<Seq<char>, PendingView>::empty());
        r
    }

    fn accept(&mut self, chunk_id: String, index: u32, total: u32, bytes: Vec<u8>, now_ms: u64) -> (r:
        Option<Vec<u8>>)
        requires
            old(self).wf(),
        ensures
            final(self).wf(),
            (final(self)@, bytes_of(r)) == accept_part(
                old(self)@,
                chunk_id@,
                index,
                total,
                bytes@,
                now_ms,
            ),
    {
        let ghost m0 = self@;
        let ghost t0 = self.incomplete@;
        let ghost id = chunk_id@;
        let mut pending = match self.incomplete.remove(&chunk_id) {
            Some(p) => {
                if p.total_chunks != total {
                    self.incomplete.insert(chunk_id, p);
                    assert(self.incomplete@ =~= t0);
                    return None;
                }
                p
            },
            None => PendingMessage { total_chunks: total, first_seen_ms: now_ms, parts: HashMap::new() },
        };
        let ghost prev = pending@;
        assert(prev == (if m0.contains_key(id) {
            m0[id]
        } else {
            PendingView { total_chunks: total, first_seen_ms: now_ms, parts: Map::empty() }
        })) by {
            if !m0.contains_key(id) {
                assert(prev.parts =~= Map::<u32, Seq<u8>>::empty());
            }
        }
        pending.parts.insert(index, bytes);
        assert(pending@.parts =~= prev.parts.insert(index, bytes@));
        if pending.all_received() {
            let out = pending.assemble();
            assert(self@ =~= m0.remove(id));
            Some(out)
        } else {
            let ghost pv = pending@;
            self.incomplete.insert(chunk_id, pending);
            assert(self@ =~= m0.insert(id, pv));
            None
        }
    }

    /// Takes one chunk. A whole payload, or the last missing slice of one,
    /// is delivered; anything else is kept, or dropped when its text is not
    /// base64 or it does not fit what is held.
    pub fn process_chunk(&mut self, chunk: ChunkedMessage, now_ms: u64) -> (r: Option<Vec<u8>>)
        requires
            old(self).wf(),
        ensures
            final(self).wf(),
            chunk_effect(old(self)@, chunk@, now_ms, final(self)@, bytes_of(r)),
    {
        match chunk {
            ChunkedMessage::SinglePacket(text) => {
                match decode_base64(&text) {
                    Ok(bytes) => Some(bytes),
                    Err(_) => None,
                }
            },
            ChunkedMessage::MultiPacket { chunk_id, chunk_index, total_chunks, data } => {
                match decode_base64(&data) {
                    Ok(bytes) => {
                        let r = self.accept(chunk_id, chunk_index, total_chunks, bytes, now_ms);
                        r
                    },
                    Err(_) => None,
                }
            },
            ChunkedMessage::RetransmitRequest { .. } => None,
        }
    }

    /// The indices still missing from payload `chunk_id`, if any of it is held.
    pub fn missing_indices(&self, chunk_id: &String) -> (r: Option<Vec<u32>>)
        requires
            self.wf(),
        ensures
            match r {
                Some(v) => self@.contains_key(chunk_id@) && v@ == missing_upto(
                    self@[chunk_id@].parts,
                    self@[chunk_id@].total_chunks as nat,
                ),
                None => !self@.contains_key(chunk_id@),
            },
    {
        match self.incomplete.get(chunk_id) {
            None => None,
            Some(p) => {
                let mut missing: Vec<u32> = Vec::new();
                let mut i: u32 = 0;
                while i < p.total_chunks
                    invariant
                        i <= p.total_chunks,
                        missing@ == missing_upto(p@.parts, i as nat),
                    decreases p.total_chunks - i,
                {
                    assert(p@.parts.contains_key(i) == p.parts@.contains_key(i));
                    if !p.parts.contains_key(&i) {
                        missing.push(i);
                    }
                    i += 1;
                }
                assert(self@[chunk_id@] == p@);
                Some(missing)
            },
        }
    }

    /// The retransmission requests a receiver sends at `now_ms`: one for each
    /// incomplete payload first seen more than `wait_ms` before, asking for
    /// every index still missing.
    pub fn retransmit_requests(&self, now_ms: u64, wait_ms: u64) -> (r: Vec<ChunkedMessage>)
        requires
            self.wf(),
        ensures
            forall|i: int|
                0 <= i < r@.len() ==> ((#[trigger] r@[i])@ matches ChunkView::Retransmit {
                    chunk_id,
                    missing_indices,
                } && self@.contains_key(chunk_id) && is_expired(
                    self@[chunk_id].first_seen_ms,
                    now_ms,
                    wait_ms,
                ) && missing_indices == missing_upto(
                    self@[chunk_id].parts,
                    self@[chunk_id].total_chunks as nat,
                )),
            forall|id: Seq<char>|
                #[trigger] self@.contains_key(id) && is_expired(
                    self@[id].first_seen_ms,
                    now_ms,
                    wait_ms,
                ) ==> exists|i: int|
                    0 <= i < r@.len() && (r@[i])@ is Retransmit && (r@[i])@->Retransmit_chunk_id
                        == id,
    {
        proof {
            self.incomplete.lemma_positions();
        }
        let n = self.incomplete.len();
        let mut out: Vec<ChunkedMessage> = Vec::new();
        let mut k: usize = 0;
        while k < n
            invariant
                self.wf(),
                n == self.incomplete.count(),
                k <= n,
                forall|i: int|
                    0 <= i < self.incomplete.count() ==> #[trigger] self.incomplete@.contains_key(
                        self.incomplete.key_at(i),
                    ) && self.incomplete@[self.incomplete.key_at(i)] == self.incomplete.value_at(i),
                forall|i: int|
                    0 <= i < out@.len() ==> ((#[trigger] out@[i])@ matches ChunkView::Retransmit {
                        chunk_id,
                        missing_indices,
                    } && self@.contains_key(chunk_id) && is_expired(
                        self@[chunk_id].first_seen_ms,
                        now_ms,
                        wait_ms,
                    ) && missing_indices == missing_upto(
                        self@[chunk_id].parts,
                        self@[chunk_id].total_chunks as nat,
                    )),
                forall|j: int|
                    0 <= j < k && is_expired(
                        (#[trigger] self.incomplete.value_at(j))@.first_seen_ms,
                        now_ms,
                        wait_ms,
                    ) ==> exists|i: int|
                        0 <= i < out@.len() && (out@[i])@ is Retransmit
                            && (out@[i])@->Retransmit_chunk_id == self.incomplete.key_at(j),
            decreases n - k,
        {
            let p = self.incomplete.value_at_index(k);
            let id = self.incomplete.key_at_index(k);
            let ghost before = out@;
            assert(self.incomplete@.contains_key(self.incomplete.key_at(k as int)));
            assert(self@[id@] == p@);
            if now_ms > p.first_seen_ms && now_ms - p.first_seen_ms > wait_ms {
                match self.missing_indices(id) {
                    Some(missing) => {
                        out.push(
                            ChunkedMessage::RetransmitRequest { chunk_id: id.clone(), missing_indices: missing },
                        );
                        proof {
                            assert forall|j: int|
                                0 <= j < k + 1 && is_expired(
                                    (#[trigger] self.incomplete.value_at(j))@.first_seen_ms,
                                    now_ms,
                                    wait_ms,
                                ) implies exists|i: int|
                                0 <= i < out@.len() && (out@[i])@ is Retransmit
                                    && (out@[i])@->Retransmit_chunk_id == self.incomplete.key_at(j) by {
                                if j < k {
                                    let i = choose|i: int|
                                        0 <= i < before.len() && (before[i])@ is Retransmit
                                            && (before[i])@->Retransmit_chunk_id
                                            == self.incomplete.key_at(j);
                                    assert(out@[i] == before[i]);
                                } else {
                                    assert(out@[before.len() as int]@->Retransmit_chunk_id
                                        == self.incomplete.key_at(j));
                                }
                            }
                        }
                    },
                    None => {},
                }
            }
            k += 1;
        }
        proof {
            assert forall|id: Seq<char>|
                #[trigger] self@.contains_key(id) && is_expired(
                    self@[id].first_seen_ms,
                    now_ms,
                    wait_ms,
                ) implies exists|i: int|
                0 <= i < out@.len() && (out@[i])@ is Retransmit && (out@[i])@->Retransmit_chunk_id
                    == id by {
                assert(self.incomplete@.contains_key(id));
                let j = choose|j: int| 0 <= j < self.incomplete.count() && self.incomplete.key_at(j) == id;
                assert(self.incomplete.value_at(j)@ == self@[id]);
            }
        }
        out
    }

    /// Drops every incomplete payload first seen more than the reassembly
    /// timeout before `now_ms`.
    pub fn cleanup_expired(&mut self, now_ms: u64)
        requires
            old(self).wf(),
        ensures
            final(self).wf(),
            forall|k: Seq<char>|
                #[trigger] final(self)@.contains_key(k) <==> old(self)@.contains_key(k)
                    && !is_expired(old(self)@[k].first_seen_ms, now_ms, REASSEMBLY_TIMEOUT_MS),
            forall|k: Seq<char>|
                #[trigger] final(self)@.contains_key(k) ==> final(self)@[k] == old(self)@[k],
    {
        self.incomplete.retain_fresh(now_ms, REASSEMBLY_TIMEOUT_MS);
    }

    /// The number of incomplete payloads, and the number of chunks held for
    /// them (saturating at `usize::MAX`).
    pub fn stats(&self) -> (r: (usize, usize))
        requires
            self.wf(),
        ensures
            r.0 == self@.dom().len(),
            r.1 == if held_chunks(self@).len() <= usize::MAX {
                held_chunks(self@).len()
            } else {
                usize::MAX as nat
            },
    {
        let n = self.incomplete.len();
        let mut total: usize = 0;
        let mut i: usize = 0;
        while i < n
            invariant
                n == self.incomplete.count(),
                i <= n,
                total == if self.parts_upto(i as nat) <= usize::MAX {
                    self.parts_upto(i as nat)
                } else {
                    usize::MAX as nat
                },
            decreases n - i,
        {
            let p = self.incomplete.value_at_index(i);
            assert(p.parts@.dom() =~= p@.parts.dom());
            total = total.saturating_add(p.parts.len());
            i += 1;
        }
        proof {
            self.incomplete.lemma_count_is_len();
            assert(self@.dom() =~= self.incomplete@.dom());
            self.lemma_held_chunks();
        }
        (n, total)
    }
}

/// The prefix of a payload's slices, `0..k`, as the parts map a reassembler holds.
pub open spec fn prefix_parts(p: Seq<u8>, k: nat) -> Map<u32, Seq<u8>> {
    Map::new(|i: u32| (i as nat) < k, |i: u32| piece(p, i as int))
}

/// The state a reassembler reaches from `m` after taking the first `k`
/// slices of `p`, in index order, under chunk id `id`.
pub open spec fn feed_pieces(
    m: Map<Seq<char>, PendingView>,
    id: Seq<char>,
    p: Seq<u8>,
    k: nat,
    now: u64,
) -> Map<Seq<char>, PendingView>
    decreases k,
{
    if k == 0 {
        m
    } else {
        accept_part(
            feed_pieces(m, id, p, (k - 1) as nat, now),
            id,
            (k - 1) as u32,
            chunk_count(p.len()) as u32,
            piece(p, k - 1),
            now,
        ).0
    }
}

proof fn lemma_joined_prefix(p: Seq<u8>, j: nat)
    requires
        p.len() > CHUNK_SIZE,
        j <= chunk_count(p.len()),
        chunk_count(p.len()) <= u32::MAX,
    ensures
        joined(prefix_parts(p, chunk_count(p.len())), j) == p.subrange(
            0,
            if j * CHUNK_SIZE <= p.len() {
                j * CHUNK_SIZE
            } else {
                p.len() as int
            },
        ),
    decreases j,
{
    let n = chunk_count(p.len());
    if j == 0 {
        assert(p.subrange(0, 0) =~= Seq::<u8>::empty());
    } else {
        lemma_joined_prefix(p, (j - 1) as nat);
        lemma_chunk_bounds(p.len(), (j - 1) as nat);
        let q = prefix_parts(p, n);
        assert(q.contains_key((j - 1) as u32));
        assert(q[(j - 1) as u32] == piece(p, j - 1));
        let lo = (j - 1) * CHUNK_SIZE;
        assert(lo == (j - 1) * (CHUNK_SIZE as int));
        assert(j * CHUNK_SIZE == lo + CHUNK_SIZE);
        if j * CHUNK_SIZE <= p.len() {
            assert(p.subrange(0, lo) + p.subrange(lo, lo + CHUNK_SIZE) =~= p.subrange(
                0,
                lo + CHUNK_SIZE,
            ));
        } else {
            assert(p.subrange(0, lo) + p.subrange(lo, p.len() as int) =~= p.subrange(
                0,
                p.len() as int,
            ));
        }
    }
}

proof fn lemma_feed_prefix(p: Seq<u8>, id: Seq<char>, m: Map<Seq<char>, PendingView>, now: u64, k: nat)
    requires
        p.len() > CHUNK_SIZE,
        chunk_count(p.len()) <= u32::MAX,
        !m.contains_key(id),
        k < chunk_count(p.len()),
    ensures
        feed_pieces(m, id, p, k, now) == if k == 0 {
            m
        } else {
            m.insert(
                id,
                PendingView {
                    total_chunks: chunk_count(p.len()) as u32,
                    first_seen_ms: now,
                    parts: prefix_parts(p, k),
                },
            )
        },
    decreases k,
{
    let n = chunk_count(p.len());
    if k > 0 {
        lemma_feed_prefix(p, id, m, now, (k - 1) as nat);
        let s = feed_pieces(m, id, p, (k - 1) as nat, now);
        let parts = if k == 1 {
            Map::<u32, Seq<u8>>::empty()
        } else {
            prefix_parts(p, (k - 1) as nat)
        };
        assert(parts.insert((k - 1) as u32, piece(p, k - 1)) =~= prefix_parts(p, k));
        assert(!prefix_parts(p, k).contains_key(k as u32));
        assert(!all_present(prefix_parts(p, k), n as u32));
        if k == 1 {
            assert(s == m);
        } else {
            assert(s.contains_key(id));
            assert(m.insert(id, s[id]).insert(
                id,
                PendingView { total_chunks: n as u32, first_seen_ms: now, parts: prefix_parts(p, k) },
            ) =~= m.insert(
                id,
                PendingView { total_chunks: n as u32, first_seen_ms: now, parts: prefix_parts(p, k) },
            ));
        }
    }
}

/// The pieces that `fragment` carries rebuild the payload: concatenated in
/// index order, the slices of a payload larger than one chunk give it back.
pub proof fn lemma_pieces_rebuild_payload(p: Seq<u8>)
    requires
        p.len() > CHUNK_SIZE,
        chunk_count(p.len()) <= u32::MAX,
    ensures
        joined(prefix_parts(p, chunk_count(p.len())), chunk_count(p.len())) == p,
{
    let n = chunk_count(p.len());
    lemma_chunk_bounds(p.len(), 0);
    lemma_joined_prefix(p, n);
    assert(p.subrange(0, p.len() as int) =~= p);
}

/// Reassembly inverts fragmentation. A payload that fits one chunk travels
/// whole, as its base64 text. A larger one travels as `chunk_count` slices
/// that carry the base64 text of consecutive pieces; a reassembler that holds
/// nothing under the chunk id, fed those pieces in index order, delivers
/// nothing before the last and then exactly the payload, and ends holding
/// what it held before.
pub proof fn lemma_fragment_then_reassemble(
    p: Seq<u8>,
    id: Seq<char>,
    m: Map<Seq<char>, PendingView>,
    now: u64,
)
    requires
        chunk_count(p.len()) <= u32::MAX,
        !m.contains_key(id),
    ensures
        p.len() <= CHUNK_SIZE ==> fragment_view(p, id) == seq![ChunkView::Single(base64_of(p))],
        p.len() > CHUNK_SIZE ==> {
            let n = chunk_count(p.len());
            &&& fragment_view(p, id).len() == n
            &&& forall|i: int|
                0 <= i < n ==> #[trigger] fragment_view(p, id)[i] == (ChunkView::Multi {
                    chunk_id: id,
                    chunk_index: i as u32,
                    total_chunks: n as u32,
                    data: base64_of(piece(p, i)),
                })
            &&& forall|k: nat|
                k + 1 < n ==> (#[trigger] accept_part(
                    feed_pieces(m, id, p, k, now),
                    id,
                    k as u32,
                    n as u32,
                    piece(p, k as int),
                    now,
                )).1 is None
            &&& accept_part(
                feed_pieces(m, id, p, (n - 1) as nat, now),
                id,
                (n - 1) as u32,
                n as u32,
                piece(p, n - 1),
                now,
            ) == (m, Some(p))
        },
{
    if p.len() > CHUNK_SIZE {
        let n = chunk_count(p.len());
        lemma_chunk_bounds(p.len(), 0);
        assert forall|k: nat| k + 1 < n implies (#[trigger] accept_part(
            feed_pieces(m, id, p, k, now),
            id,
            k as u32,
            n as u32,
            piece(p, k as int),
            now,
        )).1 is None by {
            lemma_feed_prefix(p, id, m, now, k);
            let parts = if k == 0 {
                Map::<u32, Seq<u8>>::empty()
            } else {
                prefix_parts(p, k)
            };
            assert(parts.insert(k as u32, piece(p, k as int)) =~= prefix_parts(p, k + 1));
            assert(!prefix_parts(p, k + 1).contains_key((k + 1) as u32));
            assert(!all_present(prefix_parts(p, k + 1), n as u32));
        }
        let last = (n - 1) as nat;
        lemma_feed_prefix(p, id, m, now, last);
        let s = feed_pieces(m, id, p, last, now);
        assert(s.contains_key(id));
        assert(prefix_parts(p, last).insert(last as u32, piece(p, last as int)) =~= prefix_parts(
            p,
            n,
        ));
        assert(all_present(prefix_parts(p, n), n as u32));
        lemma_joined_prefix(p, n);
        assert(p.subrange(0, p.len() as int) =~= p);
        assert(s.remove(id) =~= m);
    }
}

/// The state a reassembler reaches from `m` after taking the slices of `p`
/// whose indices are `order[0..k]`, in that order, under chunk id `id`.
pub open spec fn feed_in_order(
    m: Map<Seq<char>, PendingView>,
    id: Seq<char>,
    p: Seq<u8>,
    order: Seq<u32>,
    k: nat,
    now: u64,
) -> Map<Seq<char>, PendingView>
    decreases k,
{
    if k == 0 {
        m
    } else {
        accept_part(
            feed_in_order(m, id, p, order, (k - 1) as nat, now),
            id,
            order[k - 1],
            chunk_count(p.len()) as u32,
            piece(p, order[k - 1] as int),
            now,
        ).0
    }
}

/// The slices of `p` named by `order[0..k]`, as the parts map a reassembler holds.
pub open spec fn seen_parts(p: Seq<u8>, order: Seq<u32>, k: nat) -> Map<u32, Seq<u8>> {
    Map::new(|i: u32| exists|j: int| 0 <= j < k && order[j] == i, |i: u32| piece(p, i as int))
}

/// `order` lists every index of `0..n` exactly once.
pub open spec fn is_permutation(order: Seq<u32>, n: nat) -> bool {
    &&& order.len() == n
    &&& order.no_duplicates()
    &&& forall|j: int| 0 <= j < order.len() ==> (#[trigger] order[j] as nat) < n
    &&& forall|i: u32| (i as nat) < n ==> #[trigger] order.contains(i)
}

proof fn lemma_feed_in_order(
    p: Seq<u8>,
    id: Seq<char>,
    m: Map<Seq<char>, PendingView>,
    now: u64,
    order: Seq<u32>,
    k: nat,
)
    requires
        p.len() > CHUNK_SIZE,
        chunk_count(p.len()) <= u32::MAX,
        !m.contains_key(id),
        is_permutation(order, chunk_count(p.len())),
        k < chunk_count(p.len()),
    ensures
        feed_in_order(m, id, p, order, k, now) == if k == 0 {
            m
        } else {
            m.insert(
                id,
                PendingView {
                    total_chunks: chunk_count(p.len()) as u32,
                    first_seen_ms: now,
                    parts: seen_parts(p, order, k),
                },
            )
        },
        accept_part(
            feed_in_order(m, id, p, order, k, now),
            id,
            order[k as int],
            chunk_count(p.len()) as u32,
            piece(p, order[k as int] as int),
            now,
        ).0 == feed_in_order(m, id, p, order, k + 1, now),
    decreases k,
{
    let n = chunk_count(p.len());
    if k > 0 {
        lemma_feed_in_order(p, id, m, now, order, (k - 1) as nat);
        let prev = if k == 1 {
            Map::<u32, Seq<u8>>::empty()
        } else {
            seen_parts(p, order, (k - 1) as nat)
        };
        assert(prev.insert(order[k - 1], piece(p, order[k - 1] as int)) =~= seen_parts(p, order, k))
            by {
            assert forall|i: u32| #[trigger] seen_parts(p, order, k).contains_key(i) implies prev.insert(
                order[k - 1],
                piece(p, order[k - 1] as int),
            ).contains_key(i) by {
                let j = choose|j: int| 0 <= j < k && order[j] == i;
                if j < k - 1 {
                    assert(seen_parts(p, order, (k - 1) as nat).contains_key(i));
                }
            }
            assert forall|i: u32| #[trigger] prev.contains_key(i) implies seen_parts(
                p,
                order,
                k,
            ).contains_key(i) by {
                let j = choose|j: int| 0 <= j < k - 1 && order[j] == i;
            }
            assert(seen_parts(p, order, k).contains_key(order[k - 1]));
        }
        // The slice at `order[k]` has not arrived yet, so the payload is incomplete.
        assert(!seen_parts(p, order, k).contains_key(order[k as int])) by {
            if seen_parts(p, order, k).contains_key(order[k as int]) {
                let j = choose|j: int| 0 <= j < k && order[j] == order[k as int];
                assert(order[j] != order[k as int]);
            }
        }
        assert(!all_present(seen_parts(p, order, k), n as u32));
        if k > 1 {
            let s = feed_in_order(m, id, p, order, (k - 1) as nat, now);
            assert(s.contains_key(id));
            assert(m.insert(id, s[id]).insert(
                id,
                PendingView { total_chunks: n as u32, first_seen_ms: now, parts: seen_parts(p, order, k) },
            ) =~= m.insert(
                id,
                PendingView { total_chunks: n as u32, first_seen_ms: now, parts: seen_parts(p, order, k) },
            ));
        }
    }
}

/// Reassembly does not depend on arrival order: fed the slices of `p` in the
/// order of any permutation of their indices, a reassembler that holds
/// nothing under the chunk id delivers nothing before the last slice, then
/// exactly `p`, and ends holding what it held before.
pub proof fn lemma_reassemble_any_order(
    p: Seq<u8>,
    id: Seq<char>,
    m: Map<Seq<char>, PendingView>,
    now: u64,
    order: Seq<u32>,
)
    requires
        p.len() > CHUNK_SIZE,
        chunk_count(p.len()) <= u32::MAX,
        !m.contains_key(id),
        is_permutation(order, chunk_count(p.len())),
    ensures
        forall|k: nat|
            k + 1 < chunk_count(p.len()) ==> (#[trigger] accept_part(
                feed_in_order(m, id, p, order, k, now),
                id,
                order[k as int],
                chunk_count(p.len()) as u32,
                piece(p, order[k as int] as int),
                now,
            )).1 is None,
        accept_part(
            feed_in_order(m, id, p, order, (chunk_count(p.len()) - 1) as nat, now),
            id,
            order[chunk_count(p.len()) - 1],
            chunk_count(p.len()) as u32,
            piece(p, order[chunk_count(p.len()) - 1] as int),
            now,
        ) == (m, Some(p)),
{
    let n = chunk_count(p.len());
    lemma_chunk_bounds(p.len(), 0);
    assert forall|k: nat| k + 1 < n implies (#[trigger] accept_part(
        feed_in_order(m, id, p, order, k, now),
        id,
        order[k as int],
        n as u32,
        piece(p, order[k as int] as int),
        now,
    )).1 is None by {
        lemma_feed_in_order(p, id, m, now, order, k);
        lemma_feed_in_order(p, id, m, now, order, k + 1);
        let parts = if k == 0 {
            Map::<u32, Seq<u8>>::empty()
        } else {
            seen_parts(p, order, k)
        };
        assert(parts.insert(order[k as int], piece(p, order[k as int] as int)) =~= seen_parts(
            p,
            order,
            k + 1,
        ));
    }
    let last = (n - 1) as nat;
    lemma_feed_in_order(p, id, m, now, order, last);
    let s = feed_in_order(m, id, p, order, last, now);
    assert(s.contains_key(id));
    let all = seen_parts(p, order, last).insert(order[last as int], piece(p, order[last as int] as int));
    assert(all =~= prefix_parts(p, n)) by {
        assert forall|i: u32| #[trigger] all.contains_key(i) <==> prefix_parts(p, n).contains_key(i) by {
            if (i as nat) < n {
                assert(order.contains(i));
                let j = choose|j: int| 0 <= j < order.len() && order[j] == i;
                if j < last {
                    assert(seen_parts(p, order, last).contains_key(i));
                }
            }
            if seen_parts(p, order, last).contains_key(i) {
                let j = choose|j: int| 0 <= j < last && order[j] == i;
                assert((order[j] as nat) < n);
            }
            assert((order[last as int] as nat) < n);
        }
    }
    assert(all_present(prefix_parts(p, n), n as u32));
    lemma_joined_prefix(p, n);
    assert(p.subrange(0, p.len() as int) =~= p);
    assert(s.remove(id) =~= m);
}

/// Outbound chunks of one payload, kept for retransmission.
pub struct CachedChunks {
    chunks: Vec<ChunkedMessage>,
    stored_at_ms: u64,
}

impl Stamped for CachedChunks {
    closed spec fn stamp_spec(&self) -> u64 {
        self.stored_at_ms
    }

    fn stamp(&self) -> (r: u64) {
        self.stored_at_ms
    }
}

/// The cached chunks, in order, that a retransmission request for the
/// indices `idx` is answered with: each index in range, in the order asked.
pub open spec fn select_chunks(c: Seq<ChunkView>, idx: Seq<u32>) -> Seq<ChunkView>
    decreases idx.len(),
{
    if idx.len() == 0 {
        Seq::empty()
    } else {
        let rest = select_chunks(c, idx.drop_last());
        if (idx.last() as int) < c.len() {
            rest.push(c[idx.last() as int])
        } else {
            rest
        }
    }
}

/// Outbound multi-chunk payloads by chunk id, with the instant each was stored.
pub struct ChunkCache {
    entries: KeyedTable<CachedChunks>,
}

impl View for ChunkCache {
    type V = Map<Seq<char>, (Seq<ChunkView>, u64)>;

    closed spec fn view(&self) -> Map<Seq<char>, (Seq<ChunkView>, u64)> {
        self.entries@.map_values(|c: CachedChunks| (views_of(c.chunks@), c.stored_at_ms))
    }
}

fn duplicate_all(chunks: &Vec<ChunkedMessage>) -> (r: Vec<ChunkedMessage>)
    ensures
        views_of(r@) == views_of(chunks@),
{
    let mut out: Vec<ChunkedMessage> = Vec::new();
    let mut i: usize = 0;
    while i < chunks.len()
        invariant
            i <= chunks.len(),
            out@.len() == i,
            forall|j: int| 0 <= j < i ==> #[trigger] out@[j]@ == chunks@[j]@,
        decreases chunks.len() - i,
    {
        out.push(chunks[i].duplicate());
        i += 1;
    }
    assert(views_of(out@) =~= views_of(chunks@));
    out
}

impl ChunkCache {
    pub closed spec fn wf(&self) -> bool {
        self.entries.wf()
    }

    pub fn new() -> (r: Self)
        ensures
            r.wf(),
            r@ == Map::<Seq<char>, (Seq<ChunkView>, u64)>::empty(),
    {
        let r = ChunkCache { entries: KeyedTable::new() };
        assert(r@ =~= Map::<Seq<char>, (Seq<ChunkView>, u64)>::empty());
        r
    }

    /// Keeps a copy of the chunks of a multi-chunk payload under its chunk id.
    /// A single-packet payload is not kept.
    pub fn store(&mut self, chunks: &Vec<ChunkedMessage>, now_ms: u64)
        requires
            old(self).wf(),
        ensures
            final(self).wf(),
            chunks@.len() > 0 && chunks@[0]@ is Multi ==> final(self)@ == old(self)@.insert(
                chunks@[0]@->Multi_chunk_id,
                (views_of(chunks@), now_ms),
            ),
            !(chunks@.len() > 0 && chunks@[0]@ is Multi) ==> final(self)@ == old(self)@,
    {
        if chunks.len() == 0 {
            return;
        }
        match &chunks[0] {
            ChunkedMessage::MultiPacket { chunk_id, .. } => {
                let copy = duplicate_all(chunks);
                let ghost m0 = self.entries@;
                let entry = CachedChunks { chunks: copy, stored_at_ms: now_ms };
                self.entries.insert(chunk_id.clone(), entry);
                assert(self@ =~= old(self)@.insert(
                    chunks@[0]@->Multi_chunk_id,
                    (views_of(chunks@), now_ms),
                ));
            },
            _ => {},
        }
    }

    /// The cached chunks of `chunk_id` at the requested indices, in the order
    /// asked; `None` when nothing is cached under that id.
    pub fn retransmit(&self, chunk_id: &String, missing: &Vec<u32>) -> (r: Option<
        Vec<ChunkedMessage>,
    >)
        requires
            self.wf(),
        ensures
            match r {
                Some(v) => self@.contains_key(chunk_id@) && views_of(v@) == select_chunks(
                    self@[chunk_id@].0,
                    missing@,
                ),
                None => !self@.contains_key(chunk_id@),
            },
    {
        match self.entries.get(chunk_id) {
            None => None,
            Some(cached) => {
                let ghost c = views_of(cached.chunks@);
                let mut out: Vec<ChunkedMessage> = Vec::new();
                let mut i: usize = 0;
                while i < missing.len()
                    invariant
                        i <= missing.len(),
                        c == views_of(cached.chunks@),
                        views_of(out@) == select_chunks(c, missing@.subrange(0, i as int)),
                    decreases missing.len() - i,
                {
                    let idx = missing[i];
                    let ghost before = out@;
                    assert(missing@.subrange(0, i + 1).drop_last() =~= missing@.subrange(
                        0,
                        i as int,
                    ));
                    if (idx as usize) < cached.chunks.len() {
                        out.push(cached.chunks[idx as usize].duplicate());
                        assert(views_of(out@) =~= views_of(before).push(c[idx as int]));
                    }
                    i += 1;
                }
                assert(missing@.subrange(0, missing@.len() as int) =~= missing@);
                Some(out)
            },
        }
    }

    /// Drops every entry stored more than the cache lifetime before `now_ms`.
    pub fn evict_expired(&mut self, now_ms: u64)
        requires
            old(self).wf(),
        ensures
            final(self).wf(),
            forall|k: Seq<char>|
                #[trigger] final(self)@.contains_key(k) <==> old(self)@.contains_key(k)
                    && !is_expired(old(self)@[k].1, now_ms, CHUNK_CACHE_TTL_MS),
            forall|k: Seq<char>|
                #[trigger] final(self)@.contains_key(k) ==> final(self)@[k] == old(self)@[k],
    {
        self.entries.retain_fresh(now_ms, CHUNK_CACHE_TTL_MS);
    }
}

} // verus!
