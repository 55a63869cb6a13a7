//! A client of the cluster: the peers it knows, and how it reads their replies.
use crate::messages::{Message, ReceivedImageInfo};
use vstd::prelude::*;

verus! {

/// A client that sends requests to the peers at `cloud_addresses`.
pub struct Client {
    pub id: usize,
    pub cloud_addresses: Vec<String>,
}

/// How a client reads a reply to a session registration.
pub open spec fn registered(resp: Message) -> Option<Option<Seq<char>>> {
    match resp {
        Message::SessionRegisterResponse { success, error } => if success {
            Some(None)
        } else {
            Some(
                Some(
                    match error {
                        Some(e) => e@,
                        None => "Registration failed"@,
                    },
                ),
            )
        },
        _ => None,
    }
}

pub open spec fn unit_outcome(r: Result<(), String>) -> Option<Seq<char>> {
    match r {
        Ok(()) => None,
        Err(e) => Some(e@),
    }
}

impl Client {
    pub fn new(id: usize, cloud_addresses: Vec<String>) -> (r: Self)
        ensures
            r.id == id,
            r.cloud_addresses@ == cloud_addresses@,
    {
        Client { id, cloud_addresses }
    }

    /// The outcome of a registration, read from the reply: success, the
    /// refusal the peer gave, or an unexpected reply.
    pub fn register_outcome(resp: Message) -> (r: Result<(), String>)
        ensures
            registered(resp) matches Some(o) ==> unit_outcome(r) == o,
            registered(resp) is None ==> r is Err,
    {
        proof {
            reveal_strlit("Registration failed");
        }
        match resp {
            Message::SessionRegisterResponse { success, error } => {
                if success {
                    Ok(())
                } else {
                    match error {
                        Some(e) => Err(e),
                        None => Err("Registration failed".to_owned()),
                    }
                }
            },
            _ => Err("Unexpected response from server".to_owned()),
        }
    }

    /// Whether the username is free, read from the reply.
    pub fn availability_outcome(resp: Message) -> (r: Result<bool, String>)
        ensures
            resp matches Message::CheckUsernameAvailableResponse { is_available, .. } ==> r
                == Ok::<bool, String>(is_available),
            !(resp is CheckUsernameAvailableResponse) ==> r is Err,
    {
        match resp {
            Message::CheckUsernameAvailableResponse { is_available, .. } => Ok(is_available),
            _ => Err("Unexpected response from server".to_owned()),
        }
    }

    /// The id of the image stored, or why storing failed, read from the reply.
    pub fn send_image_outcome(resp: Message) -> (r: Result<String, String>)
        ensures
            resp matches Message::SendImageResponse { success, image_id, .. } ==> (success <==> r
                is Ok) && (r matches Ok(id) ==> id@ == image_id@),
            resp matches Message::SendImageResponse { success, error: Some(e), .. } ==> (!success
                ==> (r matches Err(m) && m@ == e@)),
            !(resp is SendImageResponse) ==> r is Err,
    {
        match resp {
            Message::SendImageResponse { success, image_id, error } => {
                if success {
                    Ok(image_id)
                } else {
                    match error {
                        Some(e) => Err(e),
                        None => Err("Send failed".to_owned()),
                    }
                }
            },
            _ => Err("Unexpected response from server".to_owned()),
        }
    }

    /// The images listed in the reply to a query.
    pub fn query_outcome(resp: Message) -> (r: Result<Vec<ReceivedImageInfo>, String>)
        ensures
            resp matches Message::QueryReceivedImagesResponse { images } ==> r == Ok::<
                Vec<ReceivedImageInfo>,
                String,
            >(images),
            !(resp is QueryReceivedImagesResponse) ==> r is Err,
    {
        match resp {
            Message::QueryReceivedImagesResponse { images } => Ok(images),
            _ => Err("Unexpected response from server".to_owned()),
        }
    }

    /// The encrypted image and the views left, read from the reply to a view;
    /// a success without both is refused.
    pub fn view_outcome(resp: Message) -> (r: Result<(Vec<u8>, u32), String>)
        ensures
            resp matches Message::ViewImageResponse { success, image_data, remaining_views, .. }
                ==> ((success && image_data is Some && remaining_views is Some) <==> r is Ok) && (
            r matches Ok((d, n)) ==> Some(d) == image_data && Some(n) == remaining_views),
            resp matches Message::ViewImageResponse { success, error: Some(e), .. } ==> (!success
                ==> (r matches Err(m) && m@ == e@)),
            !(resp is ViewImageResponse) ==> r is Err,
    {
        match resp {
            Message::ViewImageResponse { success, image_data, remaining_views, error } => {
                if success {
                    match (image_data, remaining_views) {
                        (Some(d), Some(n)) => Ok((d, n)),
                        (None, _) => Err("No image data returned".to_owned()),
                        (_, None) => Err("No view count returned".to_owned()),
                    }
                } else {
                    match error {
                        Some(e) => Err(e),
                        None => Err("View failed".to_owned()),
                    }
                }
            },
            _ => Err("Unexpected response from server".to_owned()),
        }
    }
}

} // verus!
