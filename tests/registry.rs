use siphonophore::registry::Root;

#[test]
fn request_doc_spawns_once() {
    let mut root = Root::new();
    assert_eq!(root.request_doc("docA", 1), (1, true));
    assert_eq!(root.request_doc("docA", 2), (1, false));
    assert_eq!(root.len(), 1);
    assert_eq!(root.lookup("docA"), Some(1));
    assert_eq!(root.lookup("docB"), None);
}

#[test]
fn ids_are_case_sensitive() {
    let mut root = Root::new();
    root.request_doc("doc", 1);
    assert_eq!(root.request_doc("Doc", 2), (2, true));
    assert_eq!(root.len(), 2);
}

#[test]
fn register_refuses_second_document() {
    let mut root = Root::new();
    assert!(root.register("x", 3));
    assert!(!root.register("x", 4));
    assert_eq!(root.lookup("x"), Some(3));
}

#[test]
fn stopped_removes_only_matching_handle() {
    let mut root = Root::new();
    root.request_doc("x", 1);
    assert!(!root.document_stopped("x", 9));
    assert_eq!(root.lookup("x"), Some(1));
    assert!(root.document_stopped("x", 1));
    assert_eq!(root.len(), 0);
    assert_eq!(root.request_doc("x", 2), (2, true));
}

#[test]
fn stopped_unknown_id_is_noop() {
    let mut root = Root::new();
    root.request_doc("a", 1);
    assert!(!root.document_stopped("b", 1));
    assert_eq!(root.len(), 1);
}
