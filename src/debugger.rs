//! The debugging session: one target, its breakpoints, and at most one live
//! inferior.
//!
//! The session's trace is every tracing call made on every inferior it has
//! held, in order; the contracts say what each command adds to it.
use crate::breakpoints::{
    all_pending, installed_at, lemma_all_pending_idempotent, slot_index, BreakpointTable, Slot,
};
use crate::inferior::{
    added, attempted, backtrace_trace, continue_trace, entry_stopped, extends, installs_pending, planted,
    wait_len, wait_result, wait_shape, write_len, write_result, write_shape, Frame, Inferior,
    Status, TraceError, TraceOp, TRAP_OPCODE,
};
use crate::symbols::{line_index, SymbolTable};
use crate::target::{resolve_target, target_address, ResolutionError};
use nix::errno::Errno;
use nix::sys::signal::Signal;
use nix::unistd::Pid;
use vstd::prelude::*;

verus! {

/// How a new breakpoint stands towards the live inferior.
pub enum Planting {
    /// No inferior is alive: the breakpoint waits for the next run.
    Pending,
    /// The trap is in the inferior's memory.
    Installed,
    /// The inferior's memory could not be patched: the breakpoint stays
    /// pending.
    Failed(Errno),
}

/// What setting a breakpoint did.
pub struct BreakpointReport {
    /// Position of the breakpoint in the session's table.
    pub index: usize,
    /// Its address.
    pub addr: usize,
    pub planting: Planting,
}

/// What a continue ended in.
pub enum ContinueReport {
    /// No inferior is alive.
    NoInferior,
    /// A tracing operation failed; the inferior is kept.
    Failed(TraceError),
    /// The inferior exited with this status code.
    Exited(i32),
    /// The inferior was terminated by this signal.
    Signaled(Signal),
    /// The inferior stopped on `signal` at `ip`; `line` is the position of
    /// the line row that holds `ip`, if any.
    Stopped { signal: Signal, ip: usize, line: Option<usize> },
}

/// Position of the line row of `t` that holds `ip`, if any.
pub open spec fn line_slot(t: SymbolTable, ip: usize) -> Option<usize> {
    match line_index(t.lines@, ip) {
        Some(i) => Some(i as usize),
        None => None,
    }
}

/// The report for what continuing the inferior returned.
pub open spec fn report_for(t: SymbolTable, st: Result<Status, TraceError>) -> ContinueReport {
    match st {
        Err(e) => ContinueReport::Failed(e),
        Ok(Status::Exited(c)) => ContinueReport::Exited(c),
        Ok(Status::Signaled(s)) => ContinueReport::Signaled(s),
        Ok(Status::Stopped(s, ip)) => ContinueReport::Stopped { signal: s, ip, line: line_slot(t, ip) },
    }
}

/// The report for what continuing the inferior returned: the status, with
/// the line row that holds a stop's instruction pointer.
pub fn report_of(st: Result<Status, TraceError>, symbols: &SymbolTable) -> (r: ContinueReport)
    ensures
        r == report_for(*symbols, st),
{
    match st {
        Err(e) => ContinueReport::Failed(e),
        Ok(Status::Exited(c)) => ContinueReport::Exited(c),
        Ok(Status::Signaled(s)) => ContinueReport::Signaled(s),
        Ok(Status::Stopped(signal, ip)) => {
            let line = symbols.line_at(ip);
            ContinueReport::Stopped { signal, ip, line }
        },
    }
}

/// How a continue moves the session: with no inferior alive it reports so
/// and changes nothing; otherwise the inferior stays alive exactly when it
/// stopped or an operation failed.
pub open spec fn continue_step(alive: bool, r: ContinueReport, alive_after: bool) -> bool {
    if !alive {
        r is NoInferior && !alive_after
    } else {
        !(r is NoInferior) && alive_after == (r is Stopped || r is Failed)
    }
}

/// The operations of a take-over after the kill of the inferior that was
/// alive, if any.
pub open spec fn after_kill(ops: Seq<TraceOp>, alive: bool) -> Seq<TraceOp> {
    if alive {
        ops.skip(1)
    } else {
        ops
    }
}

/// Length of the trace once a take-over that went from `tr0` to `tr1` has
/// killed the old inferior, if `alive`, and waited for the new child.
pub open spec fn taken_over_at(tr0: Seq<TraceOp>, tr1: Seq<TraceOp>, alive: bool) -> int {
    tr0.len() + (if alive {
        1int
    } else {
        0int
    }) + wait_len(after_kill(added(tr0, tr1), alive))
}

/// A session of the debugger.
pub struct Debugger {
    target: String,
    breakpoints: BreakpointTable,
    inferior: Option<Inferior>,
    symbols: SymbolTable,
    retired: Ghost<Seq<TraceOp>>,
}

impl Debugger {
    /// The breakpoints as a sequence of slots.
    pub closed spec fn table(&self) -> Seq<Slot> {
        self.breakpoints@
    }

    /// The symbol table.
    pub closed spec fn symbol_table(&self) -> SymbolTable {
        self.symbols
    }

    /// Whether an inferior is alive.
    pub closed spec fn alive(&self) -> bool {
        self.inferior is Some
    }

    /// The process id of the live inferior.
    pub closed spec fn inferior_pid(&self) -> Option<Pid> {
        match self.inferior {
            Some(i) => Some(i.id()),
            None => None,
        }
    }

    /// Every tracing call made on the inferiors of this session, in order.
    pub closed spec fn trace(&self) -> Seq<TraceOp> {
        self.retired@ + match self.inferior {
            Some(i) => i.history(),
            None => Seq::empty(),
        }
    }

    /// The path of the target.
    pub closed spec fn target_path(&self) -> Seq<char> {
        self.target@
    }

    /// The session's invariant: the table is well formed, and with no
    /// inferior alive every breakpoint is pending.
    pub open spec fn wf(&self) -> bool {
        &&& self.table_wf()
        &&& !self.alive() ==> self.table() == all_pending(self.table())
    }

    /// The table is well formed.
    pub closed spec fn table_wf(&self) -> bool {
        self.breakpoints.wf()
    }

    /// A session for the target at `target`, with its debug information.
    pub fn new(target: &str, symbols: SymbolTable) -> (r: Debugger)
        ensures
            r.wf(),
            r.target_path() == target@,
            r.symbol_table() == symbols,
            r.table() == Seq::<Slot>::empty(),
            r.trace() == Seq::<TraceOp>::empty(),
            !r.alive(),
    {
        let r = Debugger {
            target: target.to_owned(),
            breakpoints: BreakpointTable::new(),
            inferior: None,
            symbols,
            retired: Ghost(Seq::empty()),
        };
        assert(r.breakpoints@ =~= all_pending(r.breakpoints@));
        assert(r.trace() =~= Seq::<TraceOp>::empty());
        r
    }

    /// The path of the target.
    pub fn target(&self) -> (r: &String)
        ensures
            r@ == self.target_path(),
    {
        &self.target
    }

    /// The breakpoints of the session.
    pub fn breakpoints(&self) -> (r: &BreakpointTable)
        ensures
            r@ == self.table(),
    {
        &self.breakpoints
    }

    /// The debug information of the target.
    pub fn symbols(&self) -> (r: &SymbolTable)
        ensures
            *r == self.symbol_table(),
    {
        &self.symbols
    }

    /// Whether an inferior is alive.
    pub fn has_inferior(&self) -> (r: bool)
        ensures
            r == self.alive(),
    {
        self.inferior.is_some()
    }

    /// The process id of the live inferior, if any.
    pub fn pid(&self) -> (r: Option<Pid>)
        ensures
            r == self.inferior_pid(),
    {
        match &self.inferior {
            Some(i) => Some(i.pid()),
            None => None,
        }
    }

    /// Drops the inferior, keeping its calls in the session's trace; every
    /// breakpoint becomes pending.
    fn retire(&mut self)
        requires
            old(self).table_wf(),
        ensures
            final(self).wf(),
            !final(self).alive(),
            final(self).trace() == old(self).trace(),
            final(self).table() == all_pending(old(self).table()),
            final(self).symbol_table() == old(self).symbol_table(),
            final(self).target_path() == old(self).target_path(),
    {
        self.retired = Ghost(self.trace());
        self.inferior = None;
        self.breakpoints.mark_all_pending();
        proof {
            lemma_all_pending_idempotent(old(self).breakpoints@);
            assert(self.trace() =~= old(self).trace());
        }
    }

    /// Sets a breakpoint at `target`. With an inferior alive the trap is
    /// written at once (unless it is there already); otherwise the
    /// breakpoint stays pending until the next run. A target that does not
    /// resolve sets nothing and makes no call.
    pub fn set_breakpoint(&mut self, target: &str) -> (r: Result<BreakpointReport, ResolutionError>)
        requires
            old(self).wf(),
        ensures
            final(self).wf(),
            final(self).alive() == old(self).alive(),
            final(self).inferior_pid() == old(self).inferior_pid(),
            final(self).symbol_table() == old(self).symbol_table(),
            final(self).target_path() == old(self).target_path(),
            extends(old(self).trace(), final(self).trace()),
            r matches Err(e) ==> target_address(old(self).symbol_table(), target@) == Err::<
                usize,
                ResolutionError,
            >(e) && final(self).table() == old(self).table() && final(self).trace() == old(self).trace(),
            r matches Ok(rep) ==> {
                let t0 = old(self).table();
                let t1 = final(self).table();
                let ops = added(old(self).trace(), final(self).trace());
                &&& target_address(old(self).symbol_table(), target@) == Ok::<
                    usize,
                    ResolutionError,
                >(rep.addr)
                &&& rep.index < t1.len()
                &&& t1[rep.index as int].0 == rep.addr
                &&& slot_index(t0, rep.addr) is None ==> rep.index == t0.len() && t1.len() == t0.len() + 1
                &&& slot_index(t0, rep.addr) matches Some(i) ==> rep.index == i && t1.len() == t0.len()
                &&& forall|k: int| 0 <= k < t0.len() && k != rep.index ==> t1[k] == t0[k]
                &&& if !old(self).alive() {
                    &&& rep.planting is Pending
                    &&& t1[rep.index as int].1 is None
                    &&& ops.len() == 0
                } else if installed_at(t0, rep.addr) is Some {
                    &&& rep.planting is Installed
                    &&& t1 == t0
                    &&& ops.len() == 0
                } else {
                    &&& ops.len() == write_len(ops)
                    &&& write_shape(rep.addr, TRAP_OPCODE, ops)
                    &&& t1[rep.index as int].1 == planted(rep.addr, write_result(rep.addr, ops))
                    &&& write_result(rep.addr, ops) is Ok ==> rep.planting is Installed
                    &&& write_result(rep.addr, ops) matches Err(e) ==> rep.planting == Planting::Failed(e)
                }
            },
    {
        let ghost tr0 = self.trace();
        let addr = match resolve_target(target, &self.breakpoints_symbols()) {
            Ok(a) => a,
            Err(e) => {
                assert(self.trace() =~= tr0);
                return Err(e);
            },
        };
        let index = self.breakpoints.add(addr);
        let planting = match &mut self.inferior {
            None => Planting::Pending,
            Some(inferior) => {
                match self.breakpoints.slot(index).1 {
                    Some(_) => Planting::Installed,
                    None => {
                        let w = inferior.write_byte(addr, TRAP_OPCODE);
                        match w {
                            Ok(orig) => {
                                self.breakpoints.set_installed(index, orig);
                                Planting::Installed
                            },
                            Err(e) => Planting::Failed(e),
                        }
                    },
                }
            },
        };
        proof {
            if !self.alive() {
                assert(self.breakpoints@ =~= all_pending(self.breakpoints@));
            }
            assert(self.trace().take(tr0.len() as int) =~= tr0);
            assert(added(tr0, self.trace()) =~= match self.inferior {
                Some(i) => added(old(self).inferior->Some_0.history(), i.history()),
                None => Seq::empty(),
            });
        }
        Ok(BreakpointReport { index, addr, planting })
    }

    fn breakpoints_symbols(&self) -> (r: &SymbolTable)
        ensures
            *r == self.symbols,
    {
        &self.symbols
    }

    /// Kills the live inferior, if any, and clears the slot: the release
    /// half of a run, which must come before a new child is started. Every
    /// breakpoint becomes pending. Returns `None`, making no call, if no
    /// inferior was alive, else what the kill returned.
    pub fn stop_inferior(&mut self) -> (r: Option<Result<(), Errno>>)
        requires
            old(self).wf(),
        ensures
            final(self).wf(),
            !final(self).alive(),
            r is Some == old(self).alive(),
            r matches Some(k) ==> final(self).trace() == old(self).trace().push(
                TraceOp::Kill { result: k },
            ),
            r is None ==> final(self).trace() == old(self).trace() && final(self).table() == old(self).table(),
            final(self).table() == all_pending(old(self).table()),
            final(self).symbol_table() == old(self).symbol_table(),
            final(self).target_path() == old(self).target_path(),
    {
        let ghost tr0 = self.trace();
        let r = match &mut self.inferior {
            Some(inferior) => Some(inferior.kill()),
            None => None,
        };
        proof {
            if r is Some {
                assert(self.trace() =~= tr0.push(self.inferior->Some_0.history().last()));
            } else {
                assert(self.trace() =~= tr0);
            }
        }
        self.retire();
        r
    }

    /// Takes over the child `pid`, started with tracing enabled: the acquire
    /// half of a run. Any inferior still alive is killed first. If the child
    /// stops at its entry, every breakpoint is planted in it and the child is
    /// continued; otherwise it is dropped and `None` returned.
    #[verifier::spinoff_prover]
    #[verifier::rlimit(80)]
    pub fn attach(&mut self, pid: i32) -> (r: Option<ContinueReport>)
        requires
            old(self).wf(),
        ensures
            final(self).wf(),
            final(self).symbol_table() == old(self).symbol_table(),
            final(self).target_path() == old(self).target_path(),
            extends(old(self).trace(), final(self).trace()),
            old(self).alive() ==> added(old(self).trace(), final(self).trace())[0] is Kill,
            wait_shape(after_kill(added(old(self).trace(), final(self).trace()), old(self).alive())),
            r is Some <==> (wait_result(
                after_kill(added(old(self).trace(), final(self).trace()), old(self).alive()),
            ) matches Ok(Status::Stopped(_, _))),
            r is None ==> after_kill(added(old(self).trace(), final(self).trace()), old(self).alive()).len()
                == wait_len(after_kill(added(old(self).trace(), final(self).trace()), old(self).alive())),
            r is None ==> !final(self).alive(),
            r is None ==> final(self).table() == all_pending(old(self).table()),
            r matches Some(rep) ==> continue_step(true, rep, final(self).alive()),
            r matches Some(rep) ==> exists|tm: Seq<Slot>, j: int, st: Result<Status, TraceError>|
                #![trigger installs_pending(all_pending(old(self).table()), tm, final(self).trace().take(taken_over_at(old(self).trace(), final(self).trace(), old(self).alive())), final(self).trace().take(j)), continue_trace(tm, final(self).trace().skip(j), st)]
                taken_over_at(old(self).trace(), final(self).trace(), old(self).alive()) <= j
                    <= final(self).trace().len() && installs_pending(
                    all_pending(old(self).table()),
                    tm,
                    final(self).trace().take(
                        taken_over_at(old(self).trace(), final(self).trace(), old(self).alive()),
                    ),
                    final(self).trace().take(j),
                ) && continue_trace(tm, final(self).trace().skip(j), st) && rep == report_for(
                    old(self).symbol_table(),
                    st,
                ),
    {
        let ghost tr0 = self.trace();
        let ghost t0 = self.breakpoints@;
        self.stop_inferior();
        let ghost tr1 = self.trace();
        let mut inferior = Inferior::new(pid);
        let st = inferior.start(&mut self.breakpoints);
        let ghost hs = inferior.history();
        if entry_stopped(&st) {
            self.inferior = Some(inferior);
            let ghost tm = self.breakpoints@;
            let ghost tr2 = self.trace();
            let rep = self.continue_inferior();
            proof {
                let tr3 = self.trace();
                let k: int = if old(self).alive() { 1 } else { 0 };
                assert(tr1.len() == tr0.len() + k);
                assert(tr2 =~= tr1 + hs);
                let ops = added(tr0, tr3);
                let w = ops.skip(k);
                assert(tr3.take(tr2.len() as int) =~= tr2);
                assert(w.take(hs.len() as int) =~= hs);
                let n = wait_len(hs);
                assert(w[0] == hs[0]);
                if n == 2 {
                    assert(w[1] == hs[1]);
                }
                let p = tr0.len() + k + n;
                assert(tr3.take(p) =~= tr2.take(p));
                assert(tr3.take(tr2.len() as int) =~= tr2);
                let st2 = choose|st2: Result<Status, TraceError>|
                    continue_trace(tm, added(tr2, tr3), st2) && rep == report_for(self.symbols, st2);
                assert(added(tr2, tr3) =~= tr3.skip(tr2.len() as int));
                assert(tr2.take(p) =~= tr1 + hs.take(tr0.len() + k + n - tr1.len()));
                lemma_installs_shift(all_pending(t0), tm, tr1, hs, n);
                assert(after_kill(ops, old(self).alive()) =~= w);
                assert(taken_over_at(tr0, tr3, old(self).alive()) == p);
                assert(tr3.take(tr2.len() as int) =~= tr2);
                assert(tr2 =~= tr1 + hs);
                assert(installs_pending(all_pending(old(self).table()), tm, tr3.take(p), tr3.take(tr2.len() as int)));
                assert(continue_trace(tm, tr3.skip(tr2.len() as int), st2));
                assert(rep == report_for(old(self).symbol_table(), st2));
                if old(self).alive() {
                    assert(ops[0] == tr1.last());
                }
            }
            Some(rep)
        } else {
            self.retired = Ghost(self.retired@ + inferior.history());
            proof {
                let tr2 = self.trace();
                assert(tr2 =~= tr1 + hs);
                let k: int = if old(self).alive() { 1 } else { 0 };
                let ops = added(tr0, tr2);
                assert(ops.skip(k) =~= hs);
                if old(self).alive() {
                    assert(ops[0] == tr1.last());
                }
            }
            None
        }
    }

    /// Continues the live inferior until it stops or ends. An inferior that
    /// ends is dropped and every breakpoint becomes pending. With no
    /// inferior alive nothing changes and no call is made.
    pub fn continue_inferior(&mut self) -> (r: ContinueReport)
        requires
            old(self).wf(),
        ensures
            final(self).wf(),
            continue_step(old(self).alive(), r, final(self).alive()),
            final(self).symbol_table() == old(self).symbol_table(),
            final(self).target_path() == old(self).target_path(),
            extends(old(self).trace(), final(self).trace()),
            !old(self).alive() ==> final(self).trace() == old(self).trace() && final(self).table()
                == old(self).table(),
            old(self).alive() ==> exists|st: Result<Status, TraceError>|
                continue_trace(old(self).table(), added(old(self).trace(), final(self).trace()), st)
                    && r == report_for(old(self).symbol_table(), st),
            final(self).alive() ==> final(self).table() == old(self).table() && final(self).inferior_pid() == old(self).inferior_pid(),
            !final(self).alive() ==> final(self).table() == all_pending(old(self).table()),
    {
        let ghost tr0 = self.trace();
        let st = match &mut self.inferior {
            None => {
                return ContinueReport::NoInferior;
            },
            Some(inferior) => inferior.continue_exec(&self.breakpoints),
        };
        let ghost gst = st;
        let ghost ops = added(tr0, self.trace());
        proof {
            assert(ops =~= added(
                old(self).inferior->Some_0.history(),
                self.inferior->Some_0.history(),
            ));
        }
        let ended = match &st {
            Ok(Status::Exited(_)) => true,
            Ok(Status::Signaled(_)) => true,
            _ => false,
        };
        let r = report_of(st, &self.symbols);
        if ended {
            self.retire();
        }
        assert(added(tr0, self.trace()) == ops);
        assert(continue_trace(old(self).table(), ops, gst) && r == report_for(old(self).symbol_table(), gst));
        r
    }

    /// The backtrace of the live inferior; `None`, making no call, if none is
    /// alive.
    pub fn backtrace(&mut self) -> (r: Option<Result<Vec<Frame>, Errno>>)
        requires
            old(self).wf(),
        ensures
            final(self).wf(),
            r is None <==> !old(self).alive(),
            final(self).alive() == old(self).alive(),
            final(self).inferior_pid() == old(self).inferior_pid(),
            final(self).table() == old(self).table(),
            final(self).symbol_table() == old(self).symbol_table(),
            final(self).target_path() == old(self).target_path(),
            extends(old(self).trace(), final(self).trace()),
            r is None ==> final(self).trace() == old(self).trace(),
            r matches Some(Ok(fs)) ==> backtrace_trace(
                old(self).symbol_table(),
                fs@,
                added(old(self).trace(), final(self).trace()),
            ),
            r matches Some(Err(e)) ==> added(old(self).trace(), final(self).trace()) == seq![
                TraceOp::GetRegs { result: Err(e) },
            ],
    {
        let ghost tr0 = self.trace();
        let r = match &mut self.inferior {
            None => None,
            Some(inferior) => Some(inferior.backtrace(&self.symbols)),
        };
        proof {
            assert(self.trace().take(tr0.len() as int) =~= tr0);
            if r is Some {
                assert(added(tr0, self.trace()) =~= added(
                    old(self).inferior->Some_0.history(),
                    self.inferior->Some_0.history(),
                ));
            } else {
                assert(self.trace() =~= tr0);
            }
        }
        r
    }

    /// Ends the session: kills the live inferior, if any. Returns `None`,
    /// making no call, if no inferior was alive, else what the kill returned.
    pub fn quit(&mut self) -> (r: Option<Result<(), Errno>>)
        requires
            old(self).wf(),
        ensures
            final(self).wf(),
            !final(self).alive(),
            r is Some == old(self).alive(),
            r matches Some(k) ==> final(self).trace() == old(self).trace().push(
                TraceOp::Kill { result: k },
            ),
            r is None ==> final(self).trace() == old(self).trace(),
    {
        self.stop_inferior()
    }
}

/// Planting recorded in the history `hs` of a fresh inferior, after its wait
/// of `n` operations, reads the same within the session's trace `tr + hs`.
proof fn lemma_installs_shift(before: Seq<Slot>, after: Seq<Slot>, tr: Seq<TraceOp>, hs: Seq<TraceOp>, n: int)
    requires
        0 <= n <= hs.len(),
        installs_pending(before, after, hs.take(n), hs),
    ensures
        installs_pending(before, after, (tr + hs).take(tr.len() + n), tr + hs),
{
    let h = tr + hs;
    let m = tr.len() as int;
    assert(h.take(m + n) =~= tr + hs.take(n));
    assert forall|j: int| m + n <= j < h.len() implies (#[trigger] h[j] is Peek) || h[j] is Poke by {
        assert(h[j] == hs[j - m]);
    }
    assert forall|k: int| 0 <= k < before.len() && before[k].1 is None implies attempted(
        h,
        m + n,
        before[k].0,
        (#[trigger] after[k]).1,
    ) by {
        let j = choose|j: int|
            n <= j && j + write_len(#[trigger] hs.skip(j)) <= hs.len() && write_shape(
                before[k].0,
                TRAP_OPCODE,
                hs.skip(j),
            ) && after[k].1 == planted(before[k].0, write_result(before[k].0, hs.skip(j)));
        assert(h.skip(j + m) =~= hs.skip(j));
    }
}

/// A child that exited or was killed by a signal leaves no inferior behind,
/// so the next continue reports that none is running.
pub proof fn lemma_ended_child_clears_session(
    alive: bool,
    first: ContinueReport,
    alive_after: bool,
    second: ContinueReport,
    alive_last: bool,
)
    requires
        continue_step(alive, first, alive_after),
        first is Exited || first is Signaled,
        continue_step(alive_after, second, alive_last),
    ensures
        !alive_after,
        second is NoInferior,
        !alive_last,
{
}

} // verus!
