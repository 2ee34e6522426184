use siphonophore::document::{classify, Document, IdleDecision, MessageKind, PersistStatus, Timing};
use siphonophore::registry::Root;

fn timing(t_persist: u64, t_idle: u64) -> Timing {
    Timing { t_persist, t_idle, t_persist_max: 1000 }
}

#[test]
fn classify_by_first_byte() {
    assert_eq!(classify(&[0, 1, 2]), MessageKind::Sync);
    assert_eq!(classify(&[1, 0]), MessageKind::Awareness);
    assert_eq!(classify(&[2]), MessageKind::Unknown);
    assert_eq!(classify(&[]), MessageKind::Unknown);
}

#[test]
fn new_document_is_clean_and_idle_armed() {
    let d = Document::new("docA".to_string(), timing(100, 50), 7);
    assert_eq!(d.doc_id(), "docA");
    assert_eq!(d.status(), PersistStatus::Clean);
    assert_eq!(d.persist_deadline(), None);
    assert_eq!(d.idle_deadline(), Some(57));
    assert_eq!(d.subscriber_count(), 0);
}

#[test]
fn connect_cancels_idle_and_dedups() {
    let mut d = Document::new("d".to_string(), timing(100, 50), 0);
    d.connect_client(1, 5);
    d.connect_client(1, 6);
    assert_eq!(d.subscriber_count(), 1);
    assert!(d.is_subscribed(1));
    assert_eq!(d.idle_deadline(), None);
}

#[test]
fn two_client_echo() {
    let mut d = Document::new("d".to_string(), timing(100, 50), 0);
    d.connect_client(10, 0);
    d.connect_client(20, 0);
    assert_eq!(classify(&[0, 2, 1]), MessageKind::Sync);
    d.sync_applied(true, 1);
    assert_eq!(d.recipients(Some(10)), vec![20]);
    assert_eq!(d.recipients(Some(20)), vec![10]);
    assert_eq!(d.recipients(None), vec![10, 20]);
}

#[test]
fn no_self_echo_for_lone_client() {
    let mut d = Document::new("d".to_string(), timing(100, 50), 0);
    d.connect_client(10, 0);
    assert!(d.recipients(Some(10)).is_empty());
}

#[test]
fn persistence_debounce() {
    let mut d = Document::new("docA".to_string(), timing(100, 30_000), 0);
    d.connect_client(1, 0);
    d.sync_applied(true, 0);
    assert_eq!(d.status(), PersistStatus::Dirty { since: 0 });
    assert!(!d.persist_due(50));
    d.sync_applied(true, 30);
    assert!(!d.persist_due(120));
    d.sync_applied(true, 60);
    assert_eq!(d.persist_deadline(), Some(160));
    assert!(!d.persist_due(159));
    assert!(d.persist_due(160));
    assert_eq!(d.status(), PersistStatus::Persisting { redirtied: false });
    assert!(!d.persist_due(400));
    d.persist_finished(true, 170);
    assert_eq!(d.status(), PersistStatus::Clean);
    assert_eq!(d.persist_deadline(), None);
    assert!(!d.persist_due(1000));
}

#[test]
fn unchanged_apply_stays_clean() {
    let mut d = Document::new("d".to_string(), timing(100, 50), 0);
    d.connect_client(1, 0);
    d.sync_applied(false, 3);
    assert_eq!(d.status(), PersistStatus::Clean);
    assert_eq!(d.persist_deadline(), None);
}

#[test]
fn change_during_persist_rearms() {
    let mut d = Document::new("d".to_string(), timing(100, 50), 0);
    d.connect_client(1, 0);
    d.sync_applied(true, 0);
    assert!(d.persist_now());
    d.sync_applied(true, 10);
    assert_eq!(d.status(), PersistStatus::Persisting { redirtied: true });
    assert_eq!(d.persist_deadline(), None);
    d.persist_finished(true, 20);
    assert_eq!(d.status(), PersistStatus::Dirty { since: 20 });
    assert_eq!(d.persist_deadline(), Some(120));
}

#[test]
fn failed_persist_backs_off() {
    let mut d = Document::new("d".to_string(), Timing { t_persist: 100, t_idle: 50, t_persist_max: 300 }, 0);
    d.connect_client(1, 0);
    d.sync_applied(true, 0);
    assert!(d.persist_due(100));
    d.persist_finished(false, 110);
    assert_eq!(d.status(), PersistStatus::Dirty { since: 110 });
    assert_eq!(d.persist_deadline(), Some(210));
    assert!(d.persist_due(210));
    d.persist_finished(false, 220);
    assert_eq!(d.persist_deadline(), Some(420));
    assert!(d.persist_due(420));
    d.persist_finished(false, 430);
    assert_eq!(d.persist_deadline(), Some(730));
    assert!(d.persist_due(730));
    d.persist_finished(true, 740);
    assert_eq!(d.status(), PersistStatus::Clean);
}

#[test]
fn persist_now_on_clean_does_nothing() {
    let mut d = Document::new("d".to_string(), timing(100, 50), 0);
    assert!(!d.persist_now());
    assert_eq!(d.status(), PersistStatus::Clean);
}

#[test]
fn idle_unload() {
    let mut root = Root::new();
    assert_eq!(root.request_doc("docA", 3), (3, true));
    let mut d = Document::new("docA".to_string(), timing(100, 50), 0);
    d.connect_client(1, 0);
    d.sync_applied(true, 5);
    d.disconnect_client(1, 10);
    assert_eq!(d.subscriber_count(), 0);
    assert_eq!(d.idle_deadline(), Some(60));
    assert_eq!(d.idle_due(59), IdleDecision::Stay);
    assert_eq!(d.idle_due(60), IdleDecision::Persist);
    assert!(d.persist_now());
    assert_eq!(d.idle_due(60), IdleDecision::Stay);
    d.persist_finished(true, 70);
    assert_eq!(d.idle_due(70), IdleDecision::Unload);
    assert!(root.document_stopped("docA", 3));
    assert_eq!(root.len(), 0);
}

#[test]
fn idle_clean_document_unloads_after_window() {
    let d = Document::new("d".to_string(), timing(100, 50), 0);
    assert_eq!(d.idle_due(49), IdleDecision::Stay);
    assert_eq!(d.idle_due(50), IdleDecision::Unload);
}

#[test]
fn subscribed_document_never_idles() {
    let mut d = Document::new("d".to_string(), timing(100, 50), 0);
    d.connect_client(1, 0);
    assert_eq!(d.idle_due(u64::MAX), IdleDecision::Stay);
}

#[test]
fn veto_rearms_idle() {
    let mut d = Document::new("d".to_string(), timing(100, 50), 0);
    assert_eq!(d.idle_due(50), IdleDecision::Unload);
    d.unload_vetoed(50);
    assert_eq!(d.idle_deadline(), Some(100));
    assert_eq!(d.idle_due(99), IdleDecision::Stay);
}

#[test]
fn server_update_while_idle_resets_timer() {
    let mut d = Document::new("d".to_string(), timing(100, 50), 0);
    d.sync_applied(true, 40);
    assert_eq!(d.idle_deadline(), Some(90));
}

#[test]
fn idle_deadline_saturates() {
    let d = Document::new("d".to_string(), timing(100, 50), u64::MAX - 10);
    assert_eq!(d.idle_deadline(), Some(u64::MAX));
}

#[test]
fn awareness_gc_on_disconnect() {
    let mut d = Document::new("d".to_string(), timing(100, 50), 0);
    d.connect_client(1, 0);
    d.connect_client(2, 0);
    assert!(d.awareness_update(1, &vec![100, 101], 1));
    assert!(d.awareness_update(2, &vec![200], 2));
    assert!(!d.awareness_update(3, &vec![300], 3));
    let mut purged = d.disconnect_client(1, 4);
    purged.sort();
    assert_eq!(purged, vec![100, 101]);
    assert!(d.disconnect_client(1, 5).is_empty());
    assert_eq!(d.disconnect_client(2, 6), vec![200]);
}

#[test]
fn awareness_entry_changes_owner() {
    let mut d = Document::new("d".to_string(), timing(100, 50), 0);
    d.connect_client(1, 0);
    d.connect_client(2, 0);
    d.awareness_update(1, &vec![7], 1);
    d.awareness_update(2, &vec![7], 2);
    assert!(d.disconnect_client(1, 3).is_empty());
    assert_eq!(d.disconnect_client(2, 4), vec![7]);
}

#[test]
fn disconnect_leaves_others() {
    let mut d = Document::new("d".to_string(), timing(100, 50), 0);
    d.connect_client(1, 0);
    d.connect_client(2, 0);
    d.disconnect_client(1, 5);
    assert!(!d.is_subscribed(1));
    assert!(d.is_subscribed(2));
    assert_eq!(d.idle_deadline(), None);
    assert_eq!(d.recipients(None), vec![2]);
}
