use distributed_image_cloud::messages::Message;
use distributed_image_cloud::node::{Action, CloudNode};
use distributed_image_cloud::store::{ImageStore, SessionRegistry, ViewError};

fn s(x: &str) -> String {
    x.to_string()
}

#[test]
fn send_then_view_until_exhausted() {
    let mut store = ImageStore::new();
    store.send_image(&s("alice"), &vec![s("bob")], &vec![1, 2, 3], 2, &s("img1"), 100);

    let listed = store.query_received(&s("bob"));
    assert_eq!(listed.len(), 1);
    assert_eq!(listed[0].image_id, "img1");
    assert_eq!(listed[0].from_username, "alice");
    assert_eq!(listed[0].remaining_views, 2);
    assert_eq!(listed[0].timestamp, 100);

    assert_eq!(store.view_image(&s("bob"), &s("img1")), Ok((vec![1, 2, 3], 1)));
    assert_eq!(store.view_image(&s("bob"), &s("img1")), Ok((vec![1, 2, 3], 0)));
    assert_eq!(store.view_image(&s("bob"), &s("img1")), Err(ViewError::QuotaExhausted));

    assert!(store.query_received(&s("bob")).is_empty());
    assert_eq!(store.view_image(&s("bob"), &s("img1")), Err(ViewError::QuotaExhausted));
}

#[test]
fn zero_quota_fails_first_view() {
    let mut store = ImageStore::new();
    store.send_image(&s("alice"), &vec![s("bob")], &vec![5], 0, &s("img0"), 0);
    assert_eq!(store.view_image(&s("bob"), &s("img0")), Err(ViewError::QuotaExhausted));
    assert!(store.query_received(&s("bob")).is_empty());
}

#[test]
fn view_errors_distinguish_causes() {
    let mut store = ImageStore::new();
    assert_eq!(store.view_image(&s("nobody"), &s("x")), Err(ViewError::InboxEmpty));
    store.send_image(&s("alice"), &vec![s("bob")], &vec![5], 1, &s("img"), 0);
    assert_eq!(store.view_image(&s("bob"), &s("other")), Err(ViewError::ImageNotFound));
    assert_eq!(ViewError::InboxEmpty.describe(), "No images for this user");
    assert_eq!(ViewError::ImageNotFound.describe(), "Image not found");
    assert_eq!(ViewError::QuotaExhausted.describe(), "No views remaining");
}

#[test]
fn each_recipient_gets_own_quota() {
    let mut store = ImageStore::new();
    store.send_image(&s("alice"), &vec![s("bob"), s("carol")], &vec![4, 4], 1, &s("img"), 7);
    assert_eq!(store.view_image(&s("bob"), &s("img")), Ok((vec![4, 4], 0)));
    assert_eq!(store.view_image(&s("carol"), &s("img")), Ok((vec![4, 4], 0)));
    assert_eq!(store.view_image(&s("bob"), &s("img")), Err(ViewError::QuotaExhausted));
}

#[test]
fn query_lists_only_viewable_in_order() {
    let mut store = ImageStore::new();
    store.send_image(&s("a"), &vec![s("bob")], &vec![1], 1, &s("first"), 1);
    store.send_image(&s("a"), &vec![s("bob")], &vec![2], 3, &s("second"), 2);
    store.view_image(&s("bob"), &s("first")).unwrap();
    let listed = store.query_received(&s("bob"));
    assert_eq!(listed.len(), 1);
    assert_eq!(listed[0].image_id, "second");
    assert_eq!(listed[0].remaining_views, 3);
    assert!(store.query_received(&s("carol")).is_empty());
}

#[test]
fn register_same_name_twice_on_one_peer() {
    let mut reg = SessionRegistry::new();
    assert!(reg.register(s("c1"), s("alice")));
    assert!(!reg.register(s("c2"), s("alice")));
    assert!(!reg.is_available(&s("alice")));
    reg.unregister(&s("alice"));
    assert!(reg.is_available(&s("alice")));
    assert!(reg.register(s("c2"), s("alice")));
}

#[test]
fn register_same_name_on_two_peers() {
    let mut peer1 = SessionRegistry::new();
    let mut peer2 = SessionRegistry::new();
    assert!(peer1.register(s("c1"), s("alice")));
    assert!(peer2.register(s("c2"), s("alice")));
}

#[test]
fn view_refusals_carry_distinct_messages() {
    let mut n = CloudNode::new(1, "127.0.0.1:8001".to_string(), std::collections::HashMap::new(), 0);
    let src = "10.0.0.1:9".to_string();
    let view = |u: &str, id: &str| Message::ViewImage { username: u.to_string(), image_id: id.to_string() };
    let mut texts = Vec::new();
    let send = Message::SendImage {
        from_username: s("alice"),
        to_usernames: vec![s("bob")],
        encrypted_image: vec![1, 2, 3],
        max_views: 0,
        image_id: s("img0"),
    };
    n.handle_message(send, &src, 0, 0);
    for (u, id, left) in [("nobody", "x", None), ("bob", "other", None), ("bob", "img0", Some(0u32))] {
        match n.handle_message(view(u, id), &src, 0, 0) {
            Action::Reply(Message::ViewImageResponse {
                success: false,
                image_data: None,
                remaining_views,
                error: Some(e),
            }) => {
                assert_eq!(remaining_views, left);
                texts.push(e);
            }
            other => panic!("unexpected {:?}", other),
        }
    }
    assert_eq!(texts, vec![s("No images for this user"), s("Image not found"), s("No views remaining")]);
}
