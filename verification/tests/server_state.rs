use mock_server::command::HttpMethod;
use mock_server::server::ServerState;
use mock_server::util::InternalError;

#[test]
fn mod_test_add_endpoint() {
    let state = ServerState::new();
    state
        .add_endpoint(HttpMethod::Get, b"/test", b"response".to_vec())
        .unwrap();

    state
        .add_endpoint(HttpMethod::Get, b"no_leading_slash", b"still_valid".to_vec())
        .unwrap();

    assert_eq!(
        state.get_endpoint(HttpMethod::Get, b"/test").unwrap(),
        Some(b"response".to_vec())
    );
    assert_eq!(
        state
            .get_endpoint(HttpMethod::Get, b"/no_leading_slash")
            .unwrap(),
        Some(b"still_valid".to_vec())
    );
}

#[test]
fn test_delete_endpoint() {
    let state = ServerState::new();
    state
        .add_endpoint(HttpMethod::Get, b"/test/nested", b"'{id: 123456}'".to_vec())
        .unwrap();
    state
        .delete_endpoint(HttpMethod::Get, b"/test/nested")
        .unwrap();

    assert!(state
        .get_endpoint(HttpMethod::Get, b"/test/nested")
        .unwrap()
        .is_none());
}

#[test]
fn test_delete_nonexistent_endpoint() {
    let state = ServerState::new();
    let result = state.delete_endpoint(HttpMethod::Get, b"/nonexistent");

    assert!(matches!(result, Err(InternalError::EndpointNotFound(_))));
}
