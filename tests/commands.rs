use deet::debugger_command::DebuggerCommand;

#[test]
fn break_takes_its_target() {
    match DebuggerCommand::from_tokens(&vec!["b", "main"]) {
        Some(DebuggerCommand::Breakpoint(t)) => assert_eq!(t, "main"),
        _ => panic!("expected a breakpoint command"),
    }
    match DebuggerCommand::from_tokens(&vec!["break", "*0x401000"]) {
        Some(DebuggerCommand::Breakpoint(t)) => assert_eq!(t, "*0x401000"),
        _ => panic!("expected a breakpoint command"),
    }
}

#[test]
fn break_without_target_is_rejected() {
    assert!(DebuggerCommand::from_tokens(&vec!["break"]).is_none());
}

#[test]
fn verbs_and_their_abbreviations() {
    for w in ["bt", "back", "backtrace"] {
        assert!(matches!(DebuggerCommand::from_tokens(&vec![w]), Some(DebuggerCommand::Backtrace)));
    }
    for w in ["c", "cont", "continue"] {
        assert!(matches!(DebuggerCommand::from_tokens(&vec![w]), Some(DebuggerCommand::Continue)));
    }
    for w in ["q", "quit"] {
        assert!(matches!(DebuggerCommand::from_tokens(&vec![w]), Some(DebuggerCommand::Quit)));
    }
}

#[test]
fn run_takes_every_further_word() {
    match DebuggerCommand::from_tokens(&vec!["r", "a", "bc"]) {
        Some(DebuggerCommand::Run(args)) => assert_eq!(args, vec!["a".to_string(), "bc".to_string()]),
        _ => panic!("expected a run command"),
    }
    match DebuggerCommand::from_tokens(&vec!["run"]) {
        Some(DebuggerCommand::Run(args)) => assert!(args.is_empty()),
        _ => panic!("expected a run command"),
    }
}

#[test]
fn unknown_or_empty_input_is_rejected() {
    assert!(DebuggerCommand::from_tokens(&vec!["step"]).is_none());
    assert!(DebuggerCommand::from_tokens(&Vec::new()).is_none());
    assert!(DebuggerCommand::from_tokens(&vec!["Break", "main"]).is_none());
}
