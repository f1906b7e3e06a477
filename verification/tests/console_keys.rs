use mock_server::command::{EndpointAction, HttpMethod};
use mock_server::console::{run_action, ActionOutcome, ConsoleState, InputMode, KeyAction, KeyInput};
use mock_server::server::ServerState;
use mock_server::util::InternalError;

fn type_line(console: &mut ConsoleState, line: &str) {
    for c in line.chars() {
        assert_eq!(console.handle_key(KeyInput::Char(c)), KeyAction::NoAction);
    }
}

#[test]
fn modes_and_exit() {
    let mut console = ConsoleState::new();
    assert_eq!(console.mode, InputMode::Normal);

    // Typing in Normal mode edits nothing.
    console.handle_key(KeyInput::Char('x'));
    assert!(console.input.is_empty());

    console.handle_key(KeyInput::Char('i'));
    assert_eq!(console.mode, InputMode::Insert);

    console.handle_key(KeyInput::Esc);
    assert_eq!(console.mode, InputMode::Normal);
    assert!(!console.exit);

    console.handle_key(KeyInput::Char('q'));
    assert!(console.exit);
}

#[test]
fn editing_keys() {
    let mut console = ConsoleState::new();
    console.handle_key(KeyInput::Char('i'));
    type_line(&mut console, "ab cd");

    console.handle_key(KeyInput::Backspace);
    let s: String = console.input.iter().collect();
    assert_eq!(s, "ab c");

    console.handle_key(KeyInput::CtrlW);
    let s: String = console.input.iter().collect();
    assert_eq!(s, "ab ");

    console.handle_key(KeyInput::CtrlW);
    let s: String = console.input.iter().collect();
    assert_eq!(s, "");

    type_line(&mut console, "only");
    console.handle_key(KeyInput::CtrlU);
    assert!(console.input.is_empty());
}

#[test]
fn history_navigation() {
    let mut console = ConsoleState::new();
    console.handle_key(KeyInput::Char('i'));

    type_line(&mut console, "first");
    assert_eq!(console.handle_key(KeyInput::Enter), KeyAction::Submit);
    let line: String = console.take_submitted().iter().collect();
    assert_eq!(line, "first");
    assert!(console.input.is_empty());

    type_line(&mut console, "second");
    assert_eq!(console.handle_key(KeyInput::Enter), KeyAction::Submit);
    let line: String = console.take_submitted().iter().collect();
    assert_eq!(line, "second");

    console.handle_key(KeyInput::Up);
    let s: String = console.input.iter().collect();
    assert_eq!(s, "second");

    console.handle_key(KeyInput::Up);
    let s: String = console.input.iter().collect();
    assert_eq!(s, "first");

    // Stepping past the oldest entry stays there.
    console.handle_key(KeyInput::Up);
    let s: String = console.input.iter().collect();
    assert_eq!(s, "first");

    console.handle_key(KeyInput::Down);
    let s: String = console.input.iter().collect();
    assert_eq!(s, "second");

    // Stepping past the newest entry clears the line.
    console.handle_key(KeyInput::Down);
    assert!(console.input.is_empty());
}

#[test]
fn actions_reach_the_table() {
    let state = ServerState::new();

    let added = run_action(
        &state,
        EndpointAction::Add {
            method: HttpMethod::Get,
            path: b"/users".to_vec(),
            response: b"[]".to_vec(),
        },
    )
    .unwrap();
    assert!(matches!(added, ActionOutcome::Added { updated: false }));

    let listed = run_action(&state, EndpointAction::List { method: None }).unwrap();
    match listed {
        ActionOutcome::Listed(groups) => {
            assert_eq!(groups.len(), 1);
            assert_eq!(groups[0].0, HttpMethod::Get);
            assert_eq!(groups[0].1[0].0.as_slice(), b"/users");
            assert_eq!(groups[0].1[0].1.as_slice(), b"[]");
        }
        _ => panic!("expected a listing"),
    }

    let deleted = run_action(
        &state,
        EndpointAction::Delete { method: HttpMethod::Get, path: b"/users".to_vec() },
    )
    .unwrap();
    assert!(matches!(deleted, ActionOutcome::Deleted));

    let missing = run_action(
        &state,
        EndpointAction::Delete { method: HttpMethod::Get, path: b"/users".to_vec() },
    );
    match missing {
        Err(InternalError::EndpointNotFound(p)) => assert_eq!(p.as_slice(), b"/users"),
        _ => panic!("expected EndpointNotFound"),
    }
}
