use messageiro::dispatch::{Core, Delivery};
use messageiro::registry::Shared;
use messageiro::types::{Request, Response, Status, Type};

fn request(kind: Type, path: &str, body: Option<Vec<u8>>) -> Request {
    Request {
        kind,
        path: path.to_string(),
        headers: Vec::new(),
        body,
    }
}

fn setup_two_peers() -> (Core, Shared, u128, u128) {
    let core = Core::new();
    let mut shared = Shared::new();
    let a: u128 = 1;
    let b: u128 = 2;
    shared.insert(a);
    shared.insert(b);
    (core, shared, a, b)
}

#[test]
fn generic_request_acknowledged() {
    let (mut core, shared, a, _) = setup_two_peers();
    let (resp, deliveries): (Response, Vec<Delivery>) = core.handle_request(
        &shared,
        request(Type::Generic, "/", Some(b"Hello, world!".to_vec())),
        a,
    );
    assert_eq!(resp.status, Status::Okay);
    assert_eq!(resp.path, Some("/".to_string()));
    assert_eq!(resp.kind, Type::Generic);
    assert!(resp.body.is_none());
    assert!(deliveries.is_empty());
}

#[test]
fn subscribe_then_publish_delivers() {
    let (mut core, shared, a, b) = setup_two_peers();
    let (resp, deliveries) = core.handle_request(&shared, request(Type::Subscribe, "/topic", None), a);
    assert_eq!(resp.status, Status::Okay);
    assert_eq!(resp.kind, Type::Subscribe);
    assert_eq!(resp.path, Some("/topic".to_string()));
    assert!(deliveries.is_empty());

    let body = b"Hello, world!".to_vec();
    let (resp, deliveries) = core.handle_request(
        &shared,
        request(Type::Publish, "/topic", Some(body.clone())),
        b,
    );
    assert_eq!(resp.status, Status::Okay);
    assert_eq!(resp.kind, Type::Publish);
    assert_eq!(resp.path, Some("/topic".to_string()));
    assert!(resp.body.is_none());
    assert_eq!(deliveries.len(), 1);
    assert_eq!(deliveries[0].target, a);
    assert_eq!(deliveries[0].response.kind, Type::Message);
    assert_eq!(deliveries[0].response.status, Status::Okay);
    assert_eq!(deliveries[0].response.path, Some("/topic".to_string()));
    assert_eq!(deliveries[0].response.body, Some(body));
}

#[test]
fn one_delivery_per_subscription_entry() {
    let (mut core, shared, a, b) = setup_two_peers();
    core.handle_request(&shared, request(Type::Subscribe, "/topic", None), a);
    core.handle_request(&shared, request(Type::Subscribe, "/topic", None), a);
    let (_, deliveries) = core.handle_request(
        &shared,
        request(Type::Publish, "/topic", Some(vec![7u8])),
        b,
    );
    assert_eq!(deliveries.len(), 2);
    assert!(deliveries.iter().all(|d| d.target == a));
}

#[test]
fn unsubscribe_removes_all_entries() {
    let (mut core, shared, a, b) = setup_two_peers();
    core.handle_request(&shared, request(Type::Subscribe, "/topic", None), a);
    core.handle_request(&shared, request(Type::Subscribe, "/topic", None), a);
    core.handle_request(&shared, request(Type::Subscribe, "/topic", None), a);
    let (resp, deliveries) = core.handle_request(&shared, request(Type::Unsubscribe, "/topic", None), a);
    assert_eq!(resp.status, Status::Okay);
    assert_eq!(resp.kind, Type::Unsubscribe);
    assert!(deliveries.is_empty());
    let (_, deliveries) = core.handle_request(
        &shared,
        request(Type::Publish, "/topic", Some(vec![1u8])),
        b,
    );
    assert!(deliveries.is_empty());
}

#[test]
fn double_subscribe_single_unsubscribe_keeps_one_entry() {
    // Unsubscribe removes every entry at once, so after two subscribes and
    // one unsubscribe nothing is left; a fresh subscribe delivers once.
    let (mut core, shared, a, b) = setup_two_peers();
    core.handle_request(&shared, request(Type::Subscribe, "/topic", None), a);
    core.handle_request(&shared, request(Type::Subscribe, "/topic", None), a);
    core.handle_request(&shared, request(Type::Unsubscribe, "/topic", None), a);
    core.handle_request(&shared, request(Type::Subscribe, "/topic", None), a);
    let (_, deliveries) = core.handle_request(
        &shared,
        request(Type::Publish, "/topic", Some(vec![9u8])),
        b,
    );
    assert_eq!(deliveries.len(), 1);
    assert_eq!(deliveries[0].target, a);
}

#[test]
fn publish_never_delivers_to_requester() {
    let (mut core, shared, a, b) = setup_two_peers();
    core.handle_request(&shared, request(Type::Subscribe, "/topic", None), a);
    core.handle_request(&shared, request(Type::Subscribe, "/topic", None), b);
    let (_, deliveries) = core.handle_request(
        &shared,
        request(Type::Publish, "/topic", Some(vec![3u8])),
        a,
    );
    assert_eq!(deliveries.len(), 1);
    assert_eq!(deliveries[0].target, b);
}

#[test]
fn generic_does_not_mutate_state() {
    let (mut core, shared, a, b) = setup_two_peers();
    core.handle_request(&shared, request(Type::Subscribe, "/topic", None), a);
    let (resp, deliveries) = core.handle_request(
        &shared,
        request(Type::Generic, "/anything", Some(vec![1, 2, 3])),
        b,
    );
    assert_eq!(resp.status, Status::Okay);
    assert_eq!(resp.path, Some("/anything".to_string()));
    assert!(deliveries.is_empty());
    // The subscription table is untouched: the earlier subscription still
    // delivers exactly once.
    let (_, deliveries) = core.handle_request(
        &shared,
        request(Type::Publish, "/topic", Some(vec![4u8])),
        b,
    );
    assert_eq!(deliveries.len(), 1);
}

#[test]
fn message_kind_is_bad_request() {
    let (mut core, shared, a, _) = setup_two_peers();
    let (resp, deliveries) = core.handle_request(
        &shared,
        request(Type::Message, "/topic", Some(vec![1u8])),
        a,
    );
    assert_eq!(resp.status, Status::BadRequest);
    assert_eq!(resp.kind, Type::Generic);
    assert_eq!(resp.path, Some("/topic".to_string()));
    assert!(deliveries.is_empty());
}

#[test]
fn unregistered_subscriber_is_skipped() {
    let mut core = Core::new();
    let mut shared = Shared::new();
    let a: u128 = 1;
    let b: u128 = 2;
    shared.insert(b);
    // `a` subscribed but was never registered (or its registration is gone):
    // the publish resolves nothing for it and delivers only to `b`.
    core.handle_request(&shared, request(Type::Subscribe, "/t", None), a);
    core.handle_request(&shared, request(Type::Subscribe, "/t", None), b);
    let publisher: u128 = 3;
    let (resp, deliveries) = core.handle_request(
        &shared,
        request(Type::Publish, "/t", Some(vec![5u8])),
        publisher,
    );
    assert_eq!(resp.status, Status::Okay);
    assert_eq!(deliveries.len(), 1);
    assert_eq!(deliveries[0].target, b);
}

#[test]
fn topics_are_independent() {
    let (mut core, shared, a, b) = setup_two_peers();
    core.handle_request(&shared, request(Type::Subscribe, "/one", None), a);
    core.handle_request(&shared, request(Type::Subscribe, "/two", None), b);
    let publisher: u128 = 99;
    let (_, deliveries) = core.handle_request(
        &shared,
        request(Type::Publish, "/one", Some(vec![1u8])),
        publisher,
    );
    assert_eq!(deliveries.len(), 1);
    assert_eq!(deliveries[0].target, a);
    let (_, deliveries) = core.handle_request(
        &shared,
        request(Type::Publish, "/missing", Some(vec![1u8])),
        publisher,
    );
    assert!(deliveries.is_empty());
}
