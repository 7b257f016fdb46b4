use deet::debugger::{report_of, ContinueReport, Debugger, Planting};
use deet::inferior::{entry_stopped, status_from, Status, TraceError};
use deet::process::Process;
use deet::symbols::{FunctionSymbol, LineSymbol, SymbolTable};
use deet::target::{parse_address, resolve_target, ResolutionError};
use deet::trace::WaitEvent;
use nix::sys::signal::Signal;

fn function(name: &str, address: usize, end: usize) -> FunctionSymbol {
    FunctionSymbol { name: name.to_string(), address, end }
}

fn line(file: &str, number: usize, address: usize) -> LineSymbol {
    LineSymbol { file: file.to_string(), number, address }
}

fn sample_symbols() -> SymbolTable {
    SymbolTable {
        primary_file: "prog.c".to_string(),
        functions: vec![
            function("f1", 0x0f00, 0x0f80),
            function("main", 0x1000, 0x1080),
            function("helper", 0x1080, 0x1100),
        ],
        lines: vec![
            line("prog.c", 3, 0x0f00),
            line("prog.c", 10, 0x1000),
            line("prog.c", 11, 0x1008),
            line("prog.c", 14, 0x1020),
            line("util.c", 5, 0x1080),
        ],
    }
}

#[test]
fn addresses_parse_in_hex_with_or_without_prefix() {
    assert_eq!(parse_address("0x1000"), Some(0x1000));
    assert_eq!(parse_address("0X1a2B"), Some(0x1a2b));
    assert_eq!(parse_address("ff"), Some(0xff));
    assert_eq!(parse_address("+10"), Some(0x10));
    assert_eq!(parse_address("0x"), None);
    assert_eq!(parse_address(""), None);
    assert_eq!(parse_address("12g"), None);
    assert_eq!(parse_address("-1"), None);
    assert_eq!(parse_address("ffffffffffffffff"), Some(usize::MAX));
    assert_eq!(parse_address("10000000000000000"), None);
}

#[test]
fn function_name_and_raw_address_resolve_alike() {
    let symbols = sample_symbols();
    assert_eq!(resolve_target("main", &symbols), Ok(0x1000));
    assert_eq!(resolve_target("*0x1000", &symbols), Ok(0x1000));
    assert_eq!(resolve_target("main", &symbols), resolve_target("*0x1000", &symbols));
}

#[test]
fn line_numbers_resolve_in_the_primary_file() {
    let symbols = sample_symbols();
    assert_eq!(resolve_target("11", &symbols), Ok(0x1008));
    assert_eq!(resolve_target("12", &symbols), Ok(0x1020));
    assert_eq!(resolve_target("5", &symbols), Ok(0x1000));
    assert_eq!(resolve_target("99", &symbols), Err(ResolutionError::UnknownLine(99)));
}

#[test]
fn unresolvable_targets_are_errors() {
    let symbols = sample_symbols();
    assert_eq!(resolve_target("nosuch", &symbols), Err(ResolutionError::UnknownFunction));
    assert_eq!(resolve_target("*zz", &symbols), Err(ResolutionError::BadAddress));
    assert_eq!(resolve_target("*", &symbols), Err(ResolutionError::BadAddress));
}

#[test]
fn symbol_lookups_by_address() {
    let symbols = sample_symbols();
    assert_eq!(symbols.function_at(0x1010), Some(1));
    assert_eq!(symbols.function_name_at(0x1090).map(|s| s.as_str()), Some("helper"));
    assert_eq!(symbols.function_at(0x2000), None);
    assert_eq!(symbols.line_at(0x1001), Some(1));
    assert_eq!(symbols.line_at(0x1008), Some(2));
    assert_eq!(symbols.line_at(0x0e00), None);
    assert_eq!(symbols.addr_for_function("f1"), Some(0x0f00));
    assert_eq!(symbols.addr_for_line(4), Some(0x1000));
}

#[test]
fn wait_events_classify_into_statuses() {
    assert!(matches!(status_from(WaitEvent::Exited(7), 0), Ok(Status::Exited(7))));
    assert!(matches!(
        status_from(WaitEvent::Signaled(Signal::SIGKILL), 0),
        Ok(Status::Signaled(Signal::SIGKILL))
    ));
    assert!(matches!(
        status_from(WaitEvent::Stopped(Signal::SIGTRAP), 0x1001),
        Ok(Status::Stopped(Signal::SIGTRAP, 0x1001))
    ));
    assert!(matches!(status_from(WaitEvent::Other, 0), Err(TraceError::UnexpectedStatus)));
}

#[test]
fn breakpoints_without_inferior_are_pending() {
    let mut debugger = Debugger::new("./prog", sample_symbols());
    let first = debugger.set_breakpoint("main").unwrap();
    assert_eq!((first.index, first.addr), (0, 0x1000));
    assert!(matches!(first.planting, Planting::Pending));
    let second = debugger.set_breakpoint("*0x1008").unwrap();
    assert_eq!((second.index, second.addr), (1, 0x1008));
    let again = debugger.set_breakpoint("*0x1000").unwrap();
    assert_eq!((again.index, again.addr), (0, 0x1000));
    assert_eq!(debugger.breakpoints().len(), 2);
    assert_eq!(debugger.breakpoints().slot(0), (0x1000, None));
    assert_eq!(debugger.breakpoints().lookup(0x1000), None);
    assert_eq!(debugger.set_breakpoint("nosuch").err(), Some(ResolutionError::UnknownFunction));
    assert_eq!(debugger.breakpoints().len(), 2);
}

#[test]
fn commands_without_inferior_do_nothing() {
    let mut debugger = Debugger::new("./prog", sample_symbols());
    assert!(!debugger.has_inferior());
    assert!(matches!(debugger.continue_inferior(), ContinueReport::NoInferior));
    assert!(debugger.backtrace().is_none());
    assert!(debugger.stop_inferior().is_none());
    assert!(debugger.quit().is_none());
    assert_eq!(debugger.target(), "./prog");
}

#[test]
fn process_keeps_its_fields() {
    let p = Process::new(42, 1, "sleep".to_string());
    assert_eq!((p.pid, p.ppid, p.command.as_str()), (42, 1, "sleep"));
}

#[test]
fn reports_follow_the_status() {
    let symbols = sample_symbols();
    assert!(matches!(report_of(Ok(Status::Exited(7)), &symbols), ContinueReport::Exited(7)));
    assert!(matches!(
        report_of(Ok(Status::Signaled(Signal::SIGSEGV)), &symbols),
        ContinueReport::Signaled(Signal::SIGSEGV)
    ));
    match report_of(Ok(Status::Stopped(Signal::SIGTRAP, 0x1009)), &symbols) {
        ContinueReport::Stopped { signal, ip, line } => {
            assert_eq!(signal, Signal::SIGTRAP);
            assert_eq!(ip, 0x1009);
            assert_eq!(line, Some(2));
        }
        _ => panic!("expected a stop"),
    }
    match report_of(Ok(Status::Stopped(Signal::SIGTRAP, 0x10)), &symbols) {
        ContinueReport::Stopped { line, .. } => assert_eq!(line, None),
        _ => panic!("expected a stop"),
    }
    assert!(matches!(
        report_of(Err(TraceError::UnexpectedStatus), &symbols),
        ContinueReport::Failed(TraceError::UnexpectedStatus)
    ));
}

#[test]
fn only_a_stop_counts_as_entry() {
    assert!(entry_stopped(&Ok(Status::Stopped(Signal::SIGTRAP, 0x1000))));
    assert!(!entry_stopped(&Ok(Status::Exited(0))));
    assert!(!entry_stopped(&Ok(Status::Signaled(Signal::SIGKILL))));
    assert!(!entry_stopped(&Err(TraceError::UnexpectedStatus)));
}

#[test]
fn no_pid_without_inferior() {
    let debugger = Debugger::new("./prog", sample_symbols());
    assert!(debugger.pid().is_none());
}

#[test]
fn open_files_pair_descriptors_with_records() {
    let p = Process::new(42, 1, "cat".to_string());
    let listed = p.list_open_files(Some(vec![0, 1, 5]), vec![Some("tty"), Some("pipe"), Some("log")]);
    assert_eq!(listed, Some(vec![(0, "tty"), (1, "pipe"), (5, "log")]));
    assert_eq!(p.list_open_files(Some(vec![0, 1]), vec![Some("tty"), None]), None);
    assert_eq!(p.list_open_files::<&str>(None, Vec::new()), None);
    assert_eq!(p.list_open_files::<&str>(Some(Vec::new()), Vec::new()), Some(Vec::new()));
}
