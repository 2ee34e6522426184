use siphonophore::client::{ClientActor, ControlAction, ControlMessage, Inbound, Phase};
use siphonophore::payload::encode_with_doc_id;
use siphonophore::registry::Root;

#[test]
fn solo_join() {
    let mut root = Root::new();
    let mut client = ClientActor::new();
    let mut frame = vec![4u8];
    frame.extend_from_slice(b"docA");
    frame.extend_from_slice(&[0, 0, 1, 0]);
    match client.route_binary(&frame) {
        Inbound::Join { doc_id, payload_start } => {
            assert_eq!(doc_id, "docA");
            assert_eq!(payload_start, 5);
            assert_eq!(&frame[payload_start..], &[0u8, 0, 1, 0][..]);
            let (doc, created) = root.request_doc(&doc_id, 42);
            assert!(created);
            assert!(client.subscribed(&doc_id, doc));
        }
        other => panic!("unexpected {:?}", other),
    }
    assert_eq!(root.len(), 1);
    match client.route_binary(&frame) {
        Inbound::Forward { doc, payload_start } => {
            assert_eq!(doc, 42);
            assert_eq!(payload_start, 5);
        }
        other => panic!("unexpected {:?}", other),
    }
    let reply = encode_with_doc_id("docA", &[0, 1, 0]);
    assert_eq!(&reply[..5], &frame[..5]);
}

#[test]
fn leave_control() {
    let mut client = ClientActor::new();
    assert!(client.subscribed("x", 1));
    assert!(client.subscribed("y", 2));
    let action = client.control(&ControlMessage::Leave { doc: "x".to_string() });
    assert_eq!(action, ControlAction::Disconnect(1));
    assert_eq!(client.doc_for("x"), None);
    assert_eq!(client.doc_for("y"), Some(2));
    let frame = encode_with_doc_id("y", &[0, 2]);
    match client.route_binary(&frame) {
        Inbound::Forward { doc, .. } => assert_eq!(doc, 2),
        other => panic!("unexpected {:?}", other),
    }
}

#[test]
fn leave_unknown_doc_is_ignored() {
    let mut client = ClientActor::new();
    client.subscribed("y", 2);
    let action = client.control(&ControlMessage::Leave { doc: "x".to_string() });
    assert_eq!(action, ControlAction::Ignore);
    assert_eq!(client.doc_count(), 1);
}

#[test]
fn save_control() {
    let mut client = ClientActor::new();
    client.subscribed("x", 5);
    assert_eq!(client.control(&ControlMessage::Save { doc: "x".to_string() }), ControlAction::Persist(5));
    assert_eq!(client.control(&ControlMessage::Save { doc: "z".to_string() }), ControlAction::Ignore);
    assert_eq!(client.doc_count(), 1);
}

#[test]
fn malformed_frame() {
    let root = Root::new();
    let client = ClientActor::new();
    assert!(matches!(client.route_binary(&[0xFF, 0x41]), Inbound::Malformed));
    assert!(matches!(client.route_binary(&[]), Inbound::Malformed));
    assert_eq!(client.phase(), Phase::Open);
    assert_eq!(root.len(), 0);
}

#[test]
fn subscribed_twice_keeps_first() {
    let mut client = ClientActor::new();
    assert!(client.subscribed("x", 1));
    assert!(!client.subscribed("x", 2));
    assert_eq!(client.doc_for("x"), Some(1));
}

#[test]
fn link_death_drops_subscriptions() {
    let mut client = ClientActor::new();
    client.subscribed("a", 1);
    client.subscribed("b", 2);
    client.subscribed("c", 1);
    client.link_died(1);
    assert_eq!(client.doc_count(), 1);
    assert_eq!(client.doc_for("b"), Some(2));
    assert_eq!(client.doc_for("a"), None);
}

#[test]
fn close_disconnects_everything() {
    let mut client = ClientActor::new();
    client.subscribed("a", 1);
    client.subscribed("b", 2);
    assert_eq!(client.close(), vec![1, 2]);
    assert_eq!(client.phase(), Phase::Closing);
    assert_eq!(client.doc_count(), 0);
    let frame = encode_with_doc_id("a", &[0]);
    assert!(matches!(client.route_binary(&frame), Inbound::Ignore));
    assert_eq!(client.control(&ControlMessage::Save { doc: "a".to_string() }), ControlAction::Ignore);
    client.finish_close();
    assert_eq!(client.phase(), Phase::Closed);
}
