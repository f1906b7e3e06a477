use mock_server::command::HttpMethod;
use mock_server::endpoint::EndpointStore;

#[test]
fn test_add_endpoint() {
    let mut store = EndpointStore::default();
    let was_update = store.add(HttpMethod::Get, b"/users", b"[]".to_vec());

    assert!(!was_update);
    assert!(store.get(HttpMethod::Get, b"/users").is_some());
}

#[test]
fn test_add_updates_existing() {
    let mut store = EndpointStore::default();
    store.add(HttpMethod::Get, b"/users", b"[]".to_vec());
    let was_update = store.add(HttpMethod::Get, b"/users", b"[1,2,3]".to_vec());

    assert!(was_update);
    assert_eq!(
        store.get(HttpMethod::Get, b"/users").unwrap().as_slice(),
        b"[1,2,3]"
    );
}

#[test]
fn test_different_methods_same_path() {
    let mut store = EndpointStore::default();
    store.add(HttpMethod::Get, b"/users", b"get".to_vec());
    store.add(HttpMethod::Post, b"/users", b"post".to_vec());

    assert_eq!(store.get(HttpMethod::Get, b"/users").unwrap().as_slice(), b"get");
    assert_eq!(
        store.get(HttpMethod::Post, b"/users").unwrap().as_slice(),
        b"post"
    );
}

#[test]
fn test_get_nonexistent() {
    let store = EndpointStore::default();
    assert!(store.get(HttpMethod::Get, b"/nothing").is_none());
}

#[test]
fn test_get_wrong_method() {
    let mut store = EndpointStore::default();
    store.add(HttpMethod::Get, b"/users", b"[]".to_vec());

    assert!(store.get(HttpMethod::Post, b"/users").is_none());
}

#[test]
fn test_nested_paths() {
    let mut store = EndpointStore::default();
    store.add(HttpMethod::Get, b"/users/123/posts", b"[]".to_vec());

    assert!(store.get(HttpMethod::Get, b"/users/123/posts").is_some());
    assert!(store.get(HttpMethod::Get, b"/users/123").is_none());
    assert!(store.get(HttpMethod::Get, b"/users").is_none());
}

#[test]
fn test_delete_existing() {
    let mut store = EndpointStore::default();
    store.add(HttpMethod::Get, b"/users", b"[]".to_vec());

    let removed = store.delete(HttpMethod::Get, b"/users");
    assert!(removed.is_some());
    assert!(store.get(HttpMethod::Get, b"/users").is_none());
}

#[test]
fn test_delete_nonexistent() {
    let mut store = EndpointStore::default();
    let removed = store.delete(HttpMethod::Get, b"/nothing");
    assert!(removed.is_none());
}

#[test]
fn test_delete_prunes_empty_nodes() {
    let mut store = EndpointStore::default();
    store.add(HttpMethod::Get, b"/a/b/c", b"deep".to_vec());
    store.delete(HttpMethod::Get, b"/a/b/c");

    // Method root should be pruned since no endpoints remain
    assert!(store.is_empty());
}

#[test]
fn test_delete_preserves_siblings() {
    let mut store = EndpointStore::default();
    store.add(HttpMethod::Get, b"/users/1", b"one".to_vec());
    store.add(HttpMethod::Get, b"/users/2", b"two".to_vec());
    store.delete(HttpMethod::Get, b"/users/1");

    assert!(store.get(HttpMethod::Get, b"/users/1").is_none());
    assert!(store.get(HttpMethod::Get, b"/users/2").is_some());
}

#[test]
fn test_path_normalization() {
    let mut store = EndpointStore::default();
    store.add(HttpMethod::Get, b"users", b"[]".to_vec());

    assert!(store.get(HttpMethod::Get, b"/users").is_some());
    assert!(store.get(HttpMethod::Get, b"users").is_some());
    assert!(store.get(HttpMethod::Get, b"/users/").is_some());
}

#[test]
fn test_root_path() {
    let mut store = EndpointStore::default();
    store.add(HttpMethod::Get, b"/", b"root".to_vec());

    assert_eq!(store.get(HttpMethod::Get, b"/").unwrap().as_slice(), b"root");
}
