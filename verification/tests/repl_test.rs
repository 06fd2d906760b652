use wasdb::repl::{handle_key, initial_state, KeyInput};

#[test]
fn keys_edit_the_line_and_enter_logs_it() {
    let mut state = initial_state("db.file");
    assert_eq!(state.logs, vec!["Connected to database at: db.file".to_string()]);
    for c in "SELECT".chars() {
        assert!(!handle_key(&mut state, KeyInput::Char(c)));
    }
    assert!(!handle_key(&mut state, KeyInput::Backspace));
    assert_eq!(state.input, "SELEC");
    assert!(!handle_key(&mut state, KeyInput::Other));
    assert!(!handle_key(&mut state, KeyInput::Enter));
    assert_eq!(state.input, "");
    assert_eq!(state.logs[1], "Executing: SELEC");
    assert_eq!(state.logs[2], "Success. (0 rows affected)");
    assert!(!handle_key(&mut state, KeyInput::Backspace));
    assert_eq!(state.input, "");
}

#[test]
fn exit_and_quit_leave_white_space_aside() {
    let mut state = initial_state("x");
    for c in "  quit \t".chars() {
        handle_key(&mut state, KeyInput::Char(c));
    }
    assert!(handle_key(&mut state, KeyInput::Enter));
    let mut state = initial_state("x");
    for c in "exits".chars() {
        handle_key(&mut state, KeyInput::Char(c));
    }
    assert!(!handle_key(&mut state, KeyInput::Enter));
    assert!(handle_key(&mut state, KeyInput::Esc));
}
