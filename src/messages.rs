//! Messages exchanged between peers and clients.
use vstd::prelude::*;

verus! {

/// Identity of a peer: a small integer, fixed at startup.
pub type NodeId = u32;

/// The id of the peer listed at `position` (from 0) in a peer list that
/// leaves out `node_id` itself: ids count from 1 and skip `node_id`.
pub fn peer_id_for_position(position: u32, node_id: NodeId) -> (r: Option<NodeId>)
    ensures
        match r {
            Some(id) => id == (if position + 1 >= node_id {
                position + 2
            } else {
                position + 1
            }),
            None => position + 2 > u32::MAX,
        },
{
    if position > u32::MAX - 2 {
        return None;
    }
    let id = position + 1;
    if id >= node_id {
        Some(id + 1)
    } else {
        Some(id)
    }
}

/// What a recipient is told about one image stored for them.
#[derive(Debug, Clone)]
pub struct ReceivedImageInfo {
    pub image_id: String,
    pub from_username: String,
    pub remaining_views: u32,
    pub timestamp: i64,
}

pub struct ReceivedInfoView {
    pub image_id: Seq<char>,
    pub from_username: Seq<char>,
    pub remaining_views: u32,
    pub timestamp: i64,
}

impl View for ReceivedImageInfo {
    type V = ReceivedInfoView;

    open spec fn view(&self) -> ReceivedInfoView {
        ReceivedInfoView {
            image_id: self.image_id@,
            from_username: self.from_username@,
            remaining_views: self.remaining_views,
            timestamp: self.timestamp,
        }
    }
}

/// Liveness state of a peer. A peer in `Failed` drops every datagram.
#[derive(Debug, Clone, Copy, PartialEq, Eq, Structural)]
pub enum NodeState {
    Active,
    Failed,
    Recovering,
}

impl NodeState {
    /// The upper-case name used in logs and status displays.
    pub fn name(&self) -> (r: &'static str)
        ensures
            *self == NodeState::Active ==> r@ == "ACTIVE"@,
            *self == NodeState::Failed ==> r@ == "FAILED"@,
            *self == NodeState::Recovering ==> r@ == "RECOVERING"@,
    {
        match self {
            NodeState::Active => "ACTIVE",
            NodeState::Failed => "FAILED",
            NodeState::Recovering => "RECOVERING",
        }
    }
}

/// Largest payload of one datagram.
pub const MAX_DATAGRAM_PAYLOAD: usize = 65507;

/// Largest encoded message that travels whole when its kind may be chunked.
pub const CHUNKING_THRESHOLD: usize = 45000;

/// How an encoded message goes out.
#[derive(Debug, Clone, Copy, PartialEq, Eq, Structural)]
pub enum Framing {
    /// As one datagram, unframed.
    Whole,
    /// Fragmented under the chunk framing.
    Chunked,
    /// It cannot be sent: too large for a datagram and not of a kind that is chunked.
    TooLarge,
}

/// The tagged union of logical messages. A load is the number of requests
/// a peer is handling.
#[derive(Debug, Clone)]
pub enum Message {
    Election { from_node: NodeId },
    /// A peer answers an election: it is alive.
    ElectionAck { from_node: NodeId },
    Coordinator { node_id: NodeId, load: u64 },
    SessionRegister { client_id: String, username: String },
    SessionRegisterResponse { success: bool, error: Option<String> },
    SessionUnregister { client_id: String, username: String },
    EncryptionRequest {
        request_id: String,
        client_username: String,
        image_data: Vec<u8>,
        usernames: Vec<String>,
        quota: u32,
        forwarded: bool,
        client_address: Option<String>,
    },
    EncryptionResponse {
        request_id: String,
        encrypted_image: Vec<u8>,
        success: bool,
        error: Option<String>,
    },
    DecryptionRequest {
        request_id: String,
        client_username: String,
        encrypted_image: Vec<u8>,
        usernames: Vec<String>,
        quota: u32,
    },
    DecryptionResponse {
        request_id: String,
        decrypted_image: Vec<u8>,
        success: bool,
        error: Option<String>,
    },
    LoadQuery { from_node: NodeId },
    LoadResponse { node_id: NodeId, load: u64, queue_length: u64, processed_count: u64 },
    StateSync { from_node: NodeId },
    StateSyncResponse { coordinator_id: NodeId, load_metrics: Vec<(NodeId, u64)>, timestamp: i64 },
    CoordinatorQuery,
    CoordinatorQueryResponse { coordinator_address: String },
    Heartbeat { from_node: NodeId, load: u64, processed_count: u64 },
    HeartbeatAck { from_node: NodeId, load: u64, processed_count: u64 },
    SendImage {
        from_username: String,
        to_usernames: Vec<String>,
        encrypted_image: Vec<u8>,
        max_views: u32,
        image_id: String,
    },
    SendImageResponse { success: bool, image_id: String, error: Option<String> },
    QueryReceivedImages { username: String },
    QueryReceivedImagesResponse { images: Vec<ReceivedImageInfo> },
    ViewImage { username: String, image_id: String },
    ViewImageResponse {
        success: bool,
        image_data: Option<Vec<u8>>,
        remaining_views: Option<u32>,
        error: Option<String>,
    },
    CheckUsernameAvailable { username: String },
    CheckUsernameAvailableResponse { username: String, is_available: bool },
}

impl Message {
    /// How many times a message of this kind is sent before its peer is
    /// given up as unreachable: load queries and election traffic are
    /// retried, everything else is sent once.
    pub fn max_attempts(&self) -> (r: u32)
        ensures
            r == (if self is LoadQuery || self is Election || self is Coordinator {
                3u32
            } else {
                1u32
            }),
    {
        match self {
            Message::LoadQuery { .. } => 3,
            Message::Election { .. } => 3,
            Message::Coordinator { .. } => 3,
            _ => 1,
        }
    }

    /// How long, in milliseconds, a sender waits for the reply to a message
    /// of this kind.
    pub fn reply_timeout_ms(&self) -> (r: u64)
        ensures
            r == (if self is EncryptionRequest || self is DecryptionRequest {
                30000u64
            } else if self is LoadQuery {
                3000u64
            } else if self is Election || self is Coordinator {
                2000u64
            } else {
                1000u64
            }),
    {
        match self {
            Message::EncryptionRequest { .. } => 30000,
            Message::DecryptionRequest { .. } => 30000,
            Message::LoadQuery { .. } => 3000,
            Message::Election { .. } => 2000,
            Message::Coordinator { .. } => 2000,
            _ => 1000,
        }
    }

    /// Milliseconds to wait before attempt `attempt + 1`, after attempt
    /// `attempt` (from 1) went unanswered.
    pub fn retry_backoff_ms(attempt: u32) -> (r: u64)
        ensures
            r == 100 * attempt,
    {
        100 * (attempt as u64)
    }

    /// The reply to an encryption request that ran here: the encrypted image,
    /// or the reason it failed with no image.
    pub fn encryption_result(request_id: String, result: Result<Vec<u8>, String>) -> (r: Message)
        ensures
            match result {
                Ok(b) => r == Message::EncryptionResponse {
                    request_id,
                    encrypted_image: b,
                    success: true,
                    error: None,
                },
                Err(e) => r matches Message::EncryptionResponse {
                    request_id: id,
                    encrypted_image,
                    success,
                    error,
                } && id == request_id && encrypted_image@.len() == 0 && !success && error == Some(e),
            },
    {
        match result {
            Ok(b) => Message::EncryptionResponse {
                request_id,
                encrypted_image: b,
                success: true,
                error: None,
            },
            Err(e) => Message::EncryptionResponse {
                request_id,
                encrypted_image: Vec::new(),
                success: false,
                error: Some(e),
            },
        }
    }

    /// The reply to an encryption request whose next peer could not be
    /// reached: a failure carrying the reason.
    pub fn unreachable_response(request_id: String, reason: String) -> (r: Message)
        ensures
            r matches Message::EncryptionResponse { request_id: id, encrypted_image, success, error }
                && id == request_id && encrypted_image@.len() == 0 && !success && error == Some(reason),
    {
        Message::encryption_result(request_id, Err(reason))
    }

    /// How this message goes out once encoded in `encoded_len` bytes:
    /// requests and replies that carry images are chunked beyond the
    /// threshold; anything else travels whole when it fits a datagram.
    pub fn framing(&self, encoded_len: usize) -> (r: Framing)
        ensures
            r == (if (self is EncryptionRequest || self is EncryptionResponse
                || self is DecryptionRequest || self is DecryptionResponse) && encoded_len
                > CHUNKING_THRESHOLD {
                Framing::Chunked
            } else if encoded_len > MAX_DATAGRAM_PAYLOAD {
                Framing::TooLarge
            } else {
                Framing::Whole
            }),
    {
        let carries_image = match self {
            Message::EncryptionRequest { .. } => true,
            Message::EncryptionResponse { .. } => true,
            Message::DecryptionRequest { .. } => true,
            Message::DecryptionResponse { .. } => true,
            _ => false,
        };
        if carries_image && encoded_len > CHUNKING_THRESHOLD {
            Framing::Chunked
        } else if encoded_len > MAX_DATAGRAM_PAYLOAD {
            Framing::TooLarge
        } else {
            Framing::Whole
        }
    }

    /// Replies of these kinds may carry image bytes and travel fragmented.
    pub fn needs_chunking(&self) -> (r: bool)
        ensures
            r == (self is EncryptionResponse || self is DecryptionResponse
                || self is ViewImageResponse),
    {
        match self {
            Message::EncryptionResponse { .. } => true,
            Message::DecryptionResponse { .. } => true,
            Message::ViewImageResponse { .. } => true,
            _ => false,
        }
    }
}

} // verus!
