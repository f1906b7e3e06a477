use mock_server::command::HttpMethod;
use mock_server::dispatch::handle_request;
use mock_server::endpoint::EndpointStore;
use mock_server::server::ServerState;

#[test]
fn normalized_forms_return_same_body() {
    let forms: [&[u8]; 3] = [b"users", b"/users", b"/users/"];
    for add_form in forms.iter() {
        for get_form in forms.iter() {
            let mut store = EndpointStore::default();
            store.add(HttpMethod::Get, add_form, b"body".to_vec());
            assert_eq!(
                store.get(HttpMethod::Get, get_form).unwrap().as_slice(),
                b"body"
            );
        }
    }
}

#[test]
fn second_add_reports_update_and_replaces() {
    let mut store = EndpointStore::default();
    let first = store.add(HttpMethod::Get, b"/a", b"B".to_vec());
    let second = store.add(HttpMethod::Get, b"/a", b"C".to_vec());

    assert!(!first);
    assert!(second);
    assert_eq!(store.get(HttpMethod::Get, b"/a").unwrap().as_slice(), b"C");
}

#[test]
fn deleting_one_method_leaves_other() {
    let mut store = EndpointStore::default();
    store.add(HttpMethod::Get, b"/a", b"get".to_vec());
    store.add(HttpMethod::Post, b"/a", b"post".to_vec());

    store.delete(HttpMethod::Post, b"/a");

    assert_eq!(store.get(HttpMethod::Get, b"/a").unwrap().as_slice(), b"get");
    assert!(store.get(HttpMethod::Post, b"/a").is_none());
}

#[test]
fn deleting_only_entry_removes_method_from_enumeration() {
    let mut store = EndpointStore::default();
    store.add(HttpMethod::Get, b"/only", b"x".to_vec());

    assert!(!store.is_empty());
    store.delete(HttpMethod::Get, b"/only");

    assert!(store.is_empty());
    assert!(store.entries(None).is_empty());
}

#[test]
fn deleting_missing_path_keeps_enumeration_bytes() {
    let mut store = EndpointStore::default();
    store.add(HttpMethod::Get, b"/users/1", b"one".to_vec());
    store.add(HttpMethod::Post, b"/p", b"two".to_vec());

    let before = store.entries(None);
    let removed = store.delete(HttpMethod::Get, b"/users/2");
    let after = store.entries(None);

    assert!(removed.is_none());
    assert_eq!(before, after);
}

#[test]
fn root_and_single_segment_are_independent() {
    let mut store = EndpointStore::default();
    store.add(HttpMethod::Get, b"/", b"root".to_vec());
    store.add(HttpMethod::Get, b"/x", b"leaf".to_vec());

    assert_eq!(store.get(HttpMethod::Get, b"/").unwrap().as_slice(), b"root");
    assert_eq!(store.get(HttpMethod::Get, b"/x").unwrap().as_slice(), b"leaf");

    store.delete(HttpMethod::Get, b"/x");
    assert_eq!(store.get(HttpMethod::Get, b"/").unwrap().as_slice(), b"root");
    assert!(store.get(HttpMethod::Get, b"/x").is_none());
}

#[test]
fn enumeration_is_sorted_and_renders_paths() {
    let mut store = EndpointStore::default();
    store.add(HttpMethod::Get, b"/users/2", b"two".to_vec());
    store.add(HttpMethod::Get, b"/users/1", b"one".to_vec());
    store.add(HttpMethod::Get, b"/b", b"bee".to_vec());
    store.add(HttpMethod::Get, b"/", b"root".to_vec());
    store.add(HttpMethod::Post, b"/a", b"ay".to_vec());

    let listing = store.entries(None);
    assert_eq!(listing.len(), 2);
    assert_eq!(listing[0].0, HttpMethod::Get);
    assert_eq!(listing[1].0, HttpMethod::Post);

    let get_entries: Vec<(&[u8], &[u8])> = listing[0]
        .1
        .iter()
        .map(|(p, b)| (p.as_slice(), b.as_slice()))
        .collect();
    let expected: Vec<(&[u8], &[u8])> = vec![
        (b"/", b"root"),
        (b"/b", b"bee"),
        (b"/users/1", b"one"),
        (b"/users/2", b"two"),
    ];
    assert_eq!(get_entries, expected);

    let filtered = store.entries(Some(&HttpMethod::Post));
    assert_eq!(filtered.len(), 1);
    assert_eq!(filtered[0].0, HttpMethod::Post);
    assert_eq!(filtered[0].1[0].0.as_slice(), b"/a");
}

#[test]
fn end_to_end_add_serve_delete() {
    let state = ServerState::new();
    state
        .add_endpoint(HttpMethod::Get, b"/users", b"[]".to_vec())
        .unwrap();

    let reply = handle_request(&state, HttpMethod::Get, b"/users");
    assert_eq!(reply.status, 200);
    assert_eq!(reply.body.as_slice(), b"[]");

    state.delete_endpoint(HttpMethod::Get, b"/users").unwrap();

    let reply = handle_request(&state, HttpMethod::Get, b"/users");
    assert_eq!(reply.status, 404);
    assert_eq!(
        reply.body.as_slice(),
        br#"{"error":"not found","path":"/users"}"#.as_slice()
    );
}

#[test]
fn health_endpoint_is_always_served() {
    let state = ServerState::new();

    let reply = handle_request(&state, HttpMethod::Get, b"/api/health");
    assert_eq!(reply.status, 200);
    assert_eq!(reply.body.as_slice(), b"OK");

    // An operator-registered route at the reserved path is unreachable.
    state
        .add_endpoint(HttpMethod::Get, b"/api/health", b"shadow".to_vec())
        .unwrap();
    let reply = handle_request(&state, HttpMethod::Get, b"/api/health");
    assert_eq!(reply.status, 200);
    assert_eq!(reply.body.as_slice(), b"OK");

    // Other methods at that path fall through to the table.
    let reply = handle_request(&state, HttpMethod::Post, b"/api/health");
    assert_eq!(reply.status, 404);
}

#[test]
fn not_found_body_escapes_path() {
    let state = ServerState::new();
    let reply = handle_request(&state, HttpMethod::Get, b"/we\"ird\\path\n");
    assert_eq!(reply.status, 404);
    assert_eq!(
        reply.body.as_slice(),
        b"{\"error\":\"not found\",\"path\":\"/we\\\"ird\\\\path\\n\"}".as_slice()
    );
}
