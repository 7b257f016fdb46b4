//! Commands of the debugger, as read from one line of user input.
use crate::text::str_eq;
use vstd::prelude::*;

verus! {

/// A command of the debugger.
pub enum DebuggerCommand {
    Quit,
    /// Start the target afresh with these arguments.
    Run(Vec<String>),
    Continue,
    Backtrace,
    /// Set a breakpoint at this target: `*<hex>` for an address, a decimal
    /// for a source line, anything else for a function name.
    Breakpoint(String),
}

/// The words that name each command.
pub open spec fn is_break_verb(w: Seq<char>) -> bool {
    w == "b"@ || w == "break"@
}

pub open spec fn is_backtrace_verb(w: Seq<char>) -> bool {
    w == "bt"@ || w == "back"@ || w == "backtrace"@
}

pub open spec fn is_continue_verb(w: Seq<char>) -> bool {
    w == "c"@ || w == "cont"@ || w == "continue"@
}

pub open spec fn is_quit_verb(w: Seq<char>) -> bool {
    w == "q"@ || w == "quit"@
}

pub open spec fn is_run_verb(w: Seq<char>) -> bool {
    w == "r"@ || w == "run"@
}

fn to_strings(tokens: &Vec<&str>, from: usize) -> (r: Vec<String>)
    requires
        from <= tokens@.len(),
    ensures
        r@.len() == tokens@.len() - from,
        forall|i: int| 0 <= i < r@.len() ==> (#[trigger] r@[i])@ == tokens@[i + from]@,
{
    let mut r: Vec<String> = Vec::new();
    let mut i = from;
    while i < tokens.len()
        invariant
            from <= i <= tokens@.len(),
            r@.len() == i - from,
            forall|k: int| 0 <= k < r@.len() ==> (#[trigger] r@[k])@ == tokens@[k + from]@,
        decreases tokens@.len() - i,
    {
        r.push(tokens[i].to_owned());
        i = i + 1;
    }
    r
}

impl DebuggerCommand {
    /// Reads a command from the words of one input line. The first word
    /// names the command; `break` takes the target as second word, and `run`
    /// takes every further word as an argument. Returns `None` for an empty
    /// line, an unknown command, or a `break` without a target.
    pub fn from_tokens(tokens: &Vec<&str>) -> (r: Option<DebuggerCommand>)
        ensures
            tokens@.len() == 0 ==> r is None,
            tokens@.len() > 0 ==> {
                let w = tokens@[0]@;
                if is_break_verb(w) {
                    if tokens@.len() >= 2 {
                        (r matches Some(DebuggerCommand::Breakpoint(t)) && t@ == tokens@[1]@)
                    } else {
                        r is None
                    }
                } else if is_backtrace_verb(w) {
                    (r matches Some(DebuggerCommand::Backtrace))
                } else if is_continue_verb(w) {
                    (r matches Some(DebuggerCommand::Continue))
                } else if is_quit_verb(w) {
                    (r matches Some(DebuggerCommand::Quit))
                } else if is_run_verb(w) {
                    (r matches Some(DebuggerCommand::Run(args)) && args@.len() == tokens@.len() - 1
                        && forall|i: int|
                        0 <= i < args@.len() ==> (#[trigger] args@[i])@ == tokens@[i + 1]@)
                } else {
                    r is None
                }
            },
    {
        if tokens.len() == 0 {
            return None;
        }
        let w = tokens[0];
        if str_eq(w, "b") || str_eq(w, "break") {
            if tokens.len() >= 2 {
                Some(DebuggerCommand::Breakpoint(tokens[1].to_owned()))
            } else {
                None
            }
        } else if str_eq(w, "bt") || str_eq(w, "back") || str_eq(w, "backtrace") {
            Some(DebuggerCommand::Backtrace)
        } else if str_eq(w, "c") || str_eq(w, "cont") || str_eq(w, "continue") {
            Some(DebuggerCommand::Continue)
        } else if str_eq(w, "q") || str_eq(w, "quit") {
            Some(DebuggerCommand::Quit)
        } else if str_eq(w, "r") || str_eq(w, "run") {
            Some(DebuggerCommand::Run(to_strings(tokens, 1)))
        } else {
            None
        }
    }
}

} // verus!
