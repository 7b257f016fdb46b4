//! One traced child process: memory patching, stop classification, the
//! protocol that steps over a breakpoint without losing it, and the walk of
//! its call stack.
//!
//! Every tracing call goes through a trusted method of `Inferior` that
//! records the call and its result in the inferior's trace. Contracts of the
//! verified methods are stated over that trace.
use crate::breakpoints::{all_pending, installed_at, Breakpoint, BreakpointTable, Slot};
use crate::symbols::{function_index, line_index, SymbolTable};
use crate::text::str_eq;
use crate::trace::{Registers, WaitEvent};
use crate::word::{align_addr_to_word, byte_of, patch_word, with_byte, word_offset, word_start};
use nix::errno::Errno;
use nix::sys::ptrace;
use nix::sys::signal;
use nix::sys::signal::Signal;
use nix::sys::wait::{waitpid, WaitPidFlag, WaitStatus};
use nix::unistd::Pid;
use vstd::prelude::*;

verus! {

/// The single-byte trap instruction (`int3`).
pub const TRAP_OPCODE: u8 = 0xcc;

/// State of the inferior after it stopped or ended.
pub enum Status {
    /// Stopped by this signal, at this instruction pointer.
    Stopped(Signal, usize),
    /// Exited normally with this status code.
    Exited(i32),
    /// Terminated by this signal.
    Signaled(Signal),
}

/// A tracing operation failed.
pub enum TraceError {
    /// The tracing interface reported this error.
    Os(Errno),
    /// The wait primitive reported a state change that a traced process
    /// waited on this way cannot have.
    UnexpectedStatus,
}

/// A call into the tracing interface, with what it returned.
#[allow(inconsistent_fields)]
pub ghost enum TraceOp {
    /// The word at `addr` was read.
    Peek { addr: usize, result: Result<u64, Errno> },
    /// `word` was written at `addr`.
    Poke { addr: usize, word: u64, result: Result<(), Errno> },
    /// The registers were read: instruction and frame pointer.
    GetRegs { result: Result<(usize, usize), Errno> },
    /// The registers were written, with these instruction and frame pointer.
    SetRegs { ip: usize, fp: usize, result: Result<(), Errno> },
    /// The inferior was made to run exactly one instruction.
    Step { result: Result<(), Errno> },
    /// The inferior was resumed.
    Resume { result: Result<(), Errno> },
    /// The inferior was waited on.
    Wait { result: Result<WaitEvent, Errno> },
    /// The inferior was sent SIGKILL.
    Kill { result: Result<(), Errno> },
}

/// Instruction and frame pointer of a register read.
pub open spec fn regs_view(r: Result<Registers, Errno>) -> Result<(usize, usize), Errno> {
    match r {
        Ok(g) => Ok((g.ip, g.frame)),
        Err(e) => Err(e),
    }
}

/// `h1` is `h0` followed by more operations.
pub open spec fn extends(h0: Seq<TraceOp>, h1: Seq<TraceOp>) -> bool {
    h0.len() <= h1.len() && forall|i: int| 0 <= i < h0.len() ==> #[trigger] h1[i] == h0[i]
}

/// The operations of `h1` after those of `h0`.
pub open spec fn added(h0: Seq<TraceOp>, h1: Seq<TraceOp>) -> Seq<TraceOp> {
    h1.skip(h0.len() as int)
}

// A byte write: the aligned word is read; if that succeeds, the word with
// the byte replaced is written back.

/// Number of operations of the byte write that begins `ops`.
pub open spec fn write_len(ops: Seq<TraceOp>) -> int {
    if ops.len() == 0 {
        1
    } else {
        match ops[0] {
            TraceOp::Peek { result: Ok(_), .. } => 2,
            _ => 1,
        }
    }
}

/// `ops` begins with a write of `val` at `addr`.
pub open spec fn write_shape(addr: usize, val: u8, ops: Seq<TraceOp>) -> bool {
    let at = word_start(addr);
    ops.len() >= write_len(ops) && match ops[0] {
        TraceOp::Peek { addr: a, result: Err(_) } => a == at,
        TraceOp::Peek { addr: a, result: Ok(w) } => a == at && match ops[1] {
            TraceOp::Poke { addr: a2, word, .. } => a2 == at && word == with_byte(
                w,
                word_offset(addr),
                val,
            ),
            _ => false,
        },
        _ => false,
    }
}

/// What the byte write at the start of `ops` returns: the byte it displaced,
/// or the error of the read or of the write.
pub open spec fn write_result(addr: usize, ops: Seq<TraceOp>) -> Result<u8, Errno> {
    match ops[0] {
        TraceOp::Peek { result: Err(e), .. } => Err(e),
        TraceOp::Peek { result: Ok(w), .. } => match ops[1] {
            TraceOp::Poke { result: Ok(_), .. } => Ok(byte_of(w, word_offset(addr))),
            TraceOp::Poke { result: Err(e), .. } => Err(e),
            _ => arbitrary(),
        },
        _ => arbitrary(),
    }
}

/// `ops` are exactly a write of `val` at `addr` that returned `r`.
pub open spec fn is_write(addr: usize, val: u8, ops: Seq<TraceOp>, r: Result<u8, Errno>) -> bool {
    ops.len() == write_len(ops) && write_shape(addr, val, ops) && r == write_result(addr, ops)
}

// A wait: the wait primitive is called; on a stop, the registers are read.

/// Number of operations of the wait that begins `ops`.
pub open spec fn wait_len(ops: Seq<TraceOp>) -> int {
    if ops.len() == 0 {
        1
    } else {
        match ops[0] {
            TraceOp::Wait { result: Ok(WaitEvent::Stopped(_)) } => 2,
            _ => 1,
        }
    }
}

/// `ops` begins with a wait.
pub open spec fn wait_shape(ops: Seq<TraceOp>) -> bool {
    &&& ops.len() >= wait_len(ops)
    &&& ops[0] is Wait
    &&& wait_len(ops) == 2 ==> ops[1] is GetRegs
}

/// The status for what the wait primitive reported; `ip` is the instruction
/// pointer, read only for a stop.
pub open spec fn status_of(event: WaitEvent, ip: usize) -> Result<Status, TraceError> {
    match event {
        WaitEvent::Exited(code) => Ok(Status::Exited(code)),
        WaitEvent::Signaled(sig) => Ok(Status::Signaled(sig)),
        WaitEvent::Stopped(sig) => Ok(Status::Stopped(sig, ip)),
        WaitEvent::Other => Err(TraceError::UnexpectedStatus),
    }
}

/// What the wait at the start of `ops` returns.
pub open spec fn wait_result(ops: Seq<TraceOp>) -> Result<Status, TraceError> {
    match ops[0] {
        TraceOp::Wait { result: Err(e) } => Err(TraceError::Os(e)),
        TraceOp::Wait { result: Ok(WaitEvent::Stopped(sig)) } => match ops[1] {
            TraceOp::GetRegs { result: Ok((ip, _)) } => Ok(Status::Stopped(sig, ip)),
            TraceOp::GetRegs { result: Err(e) } => Err(TraceError::Os(e)),
            _ => arbitrary(),
        },
        TraceOp::Wait { result: Ok(ev) } => status_of(ev, 0),
        _ => arbitrary(),
    }
}

/// `ops` are exactly a wait that returned `r`.
pub open spec fn is_wait(ops: Seq<TraceOp>, r: Result<Status, TraceError>) -> bool {
    ops.len() == wait_len(ops) && wait_shape(ops) && r == wait_result(ops)
}

/// Whether the inferior is gone for good.
pub open spec fn is_terminal(s: Status) -> bool {
    s is Exited || s is Signaled
}

/// `ops` are exactly a resume followed, if it succeeded, by a wait; `r` is
/// what the resume's error or the wait gave.
pub open spec fn resume_trace(ops: Seq<TraceOp>, r: Result<Status, TraceError>) -> bool {
    ops.len() >= 1 && match ops[0] {
        TraceOp::Resume { result: Err(e) } => ops.len() == 1 && r == Err::<Status, TraceError>(
            TraceError::Os(e),
        ),
        TraceOp::Resume { result: Ok(_) } => is_wait(ops.drop_first(), r),
        _ => false,
    }
}

/// The operations after the single step over the breakpoint at `a`: a wait;
/// if the inferior is still there, the trap is written back at `a`, and if
/// that succeeds the inferior is resumed. An error, or an end of the
/// inferior, stops the sequence there.
pub open spec fn after_step(a: usize, ops: Seq<TraceOp>, r: Result<Status, TraceError>) -> bool {
    let n = wait_len(ops);
    &&& wait_shape(ops)
    &&& match wait_result(ops) {
        Err(e) => ops.len() == n && r == Err::<Status, TraceError>(e),
        Ok(st) => if is_terminal(st) {
            ops.len() == n && r == Ok::<Status, TraceError>(st)
        } else {
            let o = ops.skip(n);
            let m = write_len(o);
            &&& write_shape(a, TRAP_OPCODE, o)
            &&& match write_result(a, o) {
                Err(e) => o.len() == m && r == Err::<Status, TraceError>(TraceError::Os(e)),
                Ok(_) => resume_trace(o.skip(m), r),
            }
        },
    }
}

/// The step over the breakpoint at `a` whose displaced byte is `b`, with the
/// frame pointer `fp`: the byte is written back, the instruction pointer set
/// to `a`, exactly one instruction run, and the rest as `after_step` says.
/// An error stops the sequence where it occurs.
pub open spec fn step_over_trace(
    a: usize,
    b: u8,
    fp: usize,
    ops: Seq<TraceOp>,
    r: Result<Status, TraceError>,
) -> bool {
    let n = write_len(ops);
    &&& write_shape(a, b, ops)
    &&& match write_result(a, ops) {
        Err(e) => ops.len() == n && r == Err::<Status, TraceError>(TraceError::Os(e)),
        Ok(_) => {
            let o = ops.skip(n);
            &&& o.len() >= 1
            &&& match o[0] {
                TraceOp::SetRegs { ip, fp: f, result: Err(e) } => ip == a && f == fp && o.len() == 1
                    && r == Err::<Status, TraceError>(TraceError::Os(e)),
                TraceOp::SetRegs { ip, fp: f, result: Ok(_) } => ip == a && f == fp && o.len() >= 2
                    && match o[1] {
                    TraceOp::Step { result: Err(e) } => o.len() == 2 && r == Err::<
                        Status,
                        TraceError,
                    >(TraceError::Os(e)),
                    TraceOp::Step { result: Ok(_) } => after_step(a, o.skip(2), r),
                    _ => false,
                },
                _ => false,
            }
        },
    }
}

/// The operations of a continue that returned `r`: the registers are read;
/// one byte past an installed breakpoint the inferior steps over it as
/// `step_over_trace` says; anywhere else it is only resumed and waited on.
pub open spec fn continue_trace(table: Seq<Slot>, ops: Seq<TraceOp>, r: Result<Status, TraceError>) -> bool {
    ops.len() >= 1 && match ops[0] {
        TraceOp::GetRegs { result: Err(e) } => ops.len() == 1 && r == Err::<Status, TraceError>(
            TraceError::Os(e),
        ),
        TraceOp::GetRegs { result: Ok((ip, fp)) } => if ip >= 1 && installed_at(
            table,
            (ip - 1) as usize,
        ) is Some {
            step_over_trace(
                (ip - 1) as usize,
                installed_at(table, (ip - 1) as usize)->Some_0.orig_byte,
                fp,
                ops.drop_first(),
                r,
            )
        } else {
            resume_trace(ops.drop_first(), r)
        },
        _ => false,
    }
}

/// The state of a breakpoint at `addr` after a trap write there returned `r`.
pub open spec fn planted(addr: usize, r: Result<u8, Errno>) -> Option<Breakpoint> {
    match r {
        Ok(b) => Some(Breakpoint { addr, orig_byte: b }),
        Err(_) => None,
    }
}

/// From position `from` on, `h` holds a write of a trap at `addr` that
/// leaves the breakpoint in `state`.
pub open spec fn attempted(h: Seq<TraceOp>, from: int, addr: usize, state: Option<Breakpoint>) -> bool {
    exists|j: int|
        from <= j && j + write_len(#[trigger] h.skip(j)) <= h.len() && write_shape(
            addr,
            TRAP_OPCODE,
            h.skip(j),
        ) && state == planted(addr, write_result(addr, h.skip(j)))
}

/// How planting the pending breakpoints changed a table from `before` to
/// `after` and a trace from `h0` to `h1`: the addresses stay, installed
/// breakpoints stay as they were, a trap write was attempted at each pending
/// one, which is installed over the displaced byte if the write succeeded
/// and stays pending otherwise, and every operation added is a memory
/// access.
pub open spec fn installs_pending(
    before: Seq<Slot>,
    after: Seq<Slot>,
    h0: Seq<TraceOp>,
    h1: Seq<TraceOp>,
) -> bool {
    &&& after.len() == before.len()
    &&& extends(h0, h1)
    &&& forall|j: int| h0.len() <= j < h1.len() ==> (#[trigger] h1[j] is Peek) || h1[j] is Poke
    &&& forall|k: int|
        0 <= k < before.len() ==> {
            &&& (#[trigger] after[k]).0 == before[k].0
            &&& before[k].1 is Some ==> after[k] == before[k]
            &&& before[k].1 is None ==> attempted(h1, h0.len() as int, before[k].0, after[k].1)
        }
}

proof fn lemma_write_prefix(
    addr: usize,
    val: u8,
    w: Seq<TraceOp>,
    rest: Seq<TraceOp>,
    r: Result<u8, Errno>,
)
    requires
        is_write(addr, val, w, r),
    ensures
        write_len(w + rest) == w.len(),
        write_shape(addr, val, w + rest),
        write_result(addr, w + rest) == r,
        (w + rest).skip(w.len() as int) == rest,
{
    assert((w + rest)[0] == w[0]);
    if w.len() == 2 {
        assert((w + rest)[1] == w[1]);
    }
    assert((w + rest).skip(w.len() as int) =~= rest);
}

proof fn lemma_wait_prefix(w: Seq<TraceOp>, rest: Seq<TraceOp>, r: Result<Status, TraceError>)
    requires
        is_wait(w, r),
    ensures
        wait_len(w + rest) == w.len(),
        wait_shape(w + rest),
        wait_result(w + rest) == r,
        (w + rest).skip(w.len() as int) == rest,
{
    assert((w + rest)[0] == w[0]);
    if w.len() == 2 {
        assert((w + rest)[1] == w[1]);
    }
    assert((w + rest).skip(w.len() as int) =~= rest);
}

/// A write recorded in `h` from `j` on stays recorded, with the same result,
/// as `h` grows.
proof fn lemma_attempt_stays(h: Seq<TraceOp>, h2: Seq<TraceOp>, from: int, addr: usize, state: Option<Breakpoint>)
    requires
        attempted(h, from, addr, state),
        0 <= from,
        extends(h, h2),
    ensures
        attempted(h2, from, addr, state),
{
    let j = choose|j: int|
        from <= j && j + write_len(#[trigger] h.skip(j)) <= h.len() && write_shape(
            addr,
            TRAP_OPCODE,
            h.skip(j),
        ) && state == planted(addr, write_result(addr, h.skip(j)));
    assert(h2.skip(j)[0] == h.skip(j)[0]) by {
        assert(h2.take(h.len() as int)[j] == h2[j]);
    }
    if write_len(h.skip(j)) == 2 {
        assert(h2.skip(j)[1] == h.skip(j)[1]) by {
            assert(h2.take(h.len() as int)[j + 1] == h2[j + 1]);
        }
    }
    assert(write_len(h2.skip(j)) == write_len(h.skip(j)));
}

/// Whether the inferior stopped at its entry, the state in which it can be
/// prepared for running.
pub fn entry_stopped(st: &Result<Status, TraceError>) -> (r: bool)
    ensures
        r == (st matches Ok(Status::Stopped(_, _))),
{
    match st {
        Ok(Status::Stopped(_, _)) => true,
        _ => false,
    }
}

/// The status for what the wait primitive reported; `ip` is the instruction
/// pointer, read only for a stop.
pub fn status_from(event: WaitEvent, ip: usize) -> (r: Result<Status, TraceError>)
    ensures
        r == status_of(event, ip),
{
    match event {
        WaitEvent::Exited(code) => Ok(Status::Exited(code)),
        WaitEvent::Signaled(sig) => Ok(Status::Signaled(sig)),
        WaitEvent::Stopped(sig) => Ok(Status::Stopped(sig, ip)),
        WaitEvent::Other => Err(TraceError::UnexpectedStatus),
    }
}

/// One frame of a backtrace: where it executes, its frame pointer, and the
/// positions in the symbol table of its function and of its line row, where
/// known.
pub struct Frame {
    pub ip: usize,
    pub fp: usize,
    pub function: Option<usize>,
    pub line: Option<usize>,
}

/// `f` is labelled from `t`: its function and its line are those that hold
/// its instruction pointer.
pub open spec fn labelled(t: SymbolTable, f: Frame) -> bool {
    &&& (f.function is None <==> function_index(t.functions@, f.ip) is None)
    &&& (f.function matches Some(i) ==> function_index(t.functions@, f.ip) == Some(i as int))
    &&& (f.line is None <==> line_index(t.lines@, f.ip) is None)
    &&& (f.line matches Some(i) ==> line_index(t.lines@, f.ip) == Some(i as int))
}

/// The code at `ip` belongs to the program's entry function `main`.
pub open spec fn main_at(t: SymbolTable, ip: usize) -> bool {
    function_index(t.functions@, ip) matches Some(i) && t.functions@[i].name@ == "main"@
}

/// The walk ends at `f` without reading: `f` is in `main`, or the words
/// above its frame pointer lie past the end of the address space.
pub open spec fn walk_stops_at(t: SymbolTable, f: Frame) -> bool {
    main_at(t, f.ip) || f.fp > usize::MAX - 8
}

/// Instruction and frame pointer of the caller of `f`, given the words read
/// at `fp + 8` (the return address) and at `fp` (the saved frame pointer).
/// There is none if a read failed, or if the saved frame pointer does not lie
/// above both words.
pub open spec fn caller_of(f: Frame, ret: Option<u64>, saved: Option<u64>) -> Option<(usize, usize)> {
    match (ret, saved) {
        (Some(r), Some(s)) => if s as usize >= f.fp + 16 {
            Some((r as usize, s as usize))
        } else {
            None
        },
        _ => None,
    }
}

/// `ret_read` reads the return address of `f` and `saved_read` its saved
/// frame pointer.
pub open spec fn reads_frame(f: Frame, ret_read: TraceOp, saved_read: TraceOp) -> bool {
    &&& ret_read matches TraceOp::Peek { addr, .. } && addr == f.fp + 8
    &&& saved_read matches TraceOp::Peek { addr, .. } && addr == f.fp
}

/// What a read returned, if it succeeded.
pub open spec fn peeked(op: TraceOp) -> Option<u64> {
    match op {
        TraceOp::Peek { result: Ok(w), .. } => Some(w),
        _ => None,
    }
}

/// The walk has produced the frames `fs` with the operations `ops`, and goes
/// on with the frame at `ip`, `fp`: the registers were read first; each
/// frame was followed by the two reads above its frame pointer, which gave
/// the next frame.
#[verifier::opaque]
pub open spec fn walk_so_far(t: SymbolTable, fs: Seq<Frame>, ops: Seq<TraceOp>, ip: usize, fp: usize) -> bool {
    &&& ops.len() == 2 * fs.len() + 1
    &&& ops[0] == (if fs.len() == 0 {
        TraceOp::GetRegs { result: Ok((ip, fp)) }
    } else {
        TraceOp::GetRegs { result: Ok((fs[0].ip, fs[0].fp)) }
    })
    &&& forall|k: int|
        0 <= k < fs.len() ==> {
            &&& labelled(t, #[trigger] fs[k])
            &&& !walk_stops_at(t, fs[k])
            &&& reads_frame(fs[k], ops[2 * k + 1], ops[2 * k + 2])
            &&& caller_of(fs[k], peeked(ops[2 * k + 1]), peeked(ops[2 * k + 2])) == Some(
                if k + 1 < fs.len() {
                    (fs[k + 1].ip, fs[k + 1].fp)
                } else {
                    (ip, fp)
                },
            )
        }
}

/// The operations `ops` of a backtrace that returned `fs`, innermost frame
/// first. The registers are read first and give the innermost frame. Each
/// frame where the walk does not stop is followed by the two reads above its
/// frame pointer; they give the next frame, or end the walk.
#[verifier::opaque]
pub open spec fn backtrace_trace(t: SymbolTable, fs: Seq<Frame>, ops: Seq<TraceOp>) -> bool {
    let n = fs.len() as int;
    &&& n >= 1
    &&& walk_so_far(t, fs.drop_last(), ops.take(2 * n - 1), fs[n - 1].ip, fs[n - 1].fp)
    &&& labelled(t, fs[n - 1])
    &&& if walk_stops_at(t, fs[n - 1]) {
        ops.len() == 2 * n - 1
    } else {
        &&& ops.len() == 2 * n + 1
        &&& reads_frame(fs[n - 1], ops[2 * n - 1], ops[2 * n])
        &&& caller_of(fs[n - 1], peeked(ops[2 * n - 1]), peeked(ops[2 * n])) is None
    }
}

/// One more frame `f` was taken from the walk, whose two reads `ret_read` and
/// `saved_read` gave the next frame at `ip`, `fp`.
/// The walk begins with the registers read.
proof fn lemma_walk_starts(t: SymbolTable, ops: Seq<TraceOp>, ip: usize, fp: usize)
    requires
        ops == seq![TraceOp::GetRegs { result: Ok((ip, fp)) }],
    ensures
        walk_so_far(t, Seq::empty(), ops, ip, fp),
{
    reveal(walk_so_far);
}

proof fn lemma_walk_goes_on(
    t: SymbolTable,
    fs0: Seq<Frame>,
    ops0: Seq<TraceOp>,
    f: Frame,
    ret_read: TraceOp,
    saved_read: TraceOp,
    ip: usize,
    fp: usize,
)
    requires
        walk_so_far(t, fs0, ops0, f.ip, f.fp),
        labelled(t, f),
        !walk_stops_at(t, f),
        reads_frame(f, ret_read, saved_read),
        caller_of(f, peeked(ret_read), peeked(saved_read)) == Some((ip, fp)),
    ensures
        walk_so_far(t, fs0.push(f), ops0.push(ret_read).push(saved_read), ip, fp),
{
    reveal(walk_so_far);
    reveal(backtrace_trace);
    let fs1 = fs0.push(f);
    let ops1 = ops0.push(ret_read).push(saved_read);
    assert forall|k: int| 0 <= k < fs1.len() implies {
        &&& labelled(t, #[trigger] fs1[k])
        &&& !walk_stops_at(t, fs1[k])
        &&& reads_frame(fs1[k], ops1[2 * k + 1], ops1[2 * k + 2])
        &&& caller_of(fs1[k], peeked(ops1[2 * k + 1]), peeked(ops1[2 * k + 2])) == Some(
            if k + 1 < fs1.len() {
                (fs1[k + 1].ip, fs1[k + 1].fp)
            } else {
                (ip, fp)
            },
        )
    } by {
        if k < fs0.len() {
            assert(fs1[k] == fs0[k]);
            assert(ops1[2 * k + 1] == ops0[2 * k + 1]);
            assert(ops1[2 * k + 2] == ops0[2 * k + 2]);
            if k + 1 < fs0.len() {
                assert(fs1[k + 1] == fs0[k + 1]);
            }
        }
    }
}

/// The walk ends with frame `f`, after the operations `ops1`.
proof fn lemma_walk_ends(
    t: SymbolTable,
    fs0: Seq<Frame>,
    ops0: Seq<TraceOp>,
    f: Frame,
    ops1: Seq<TraceOp>,
)
    requires
        walk_so_far(t, fs0, ops0, f.ip, f.fp),
        labelled(t, f),
        ops1.take(ops0.len() as int) == ops0,
        walk_stops_at(t, f) ==> ops1 == ops0,
        !walk_stops_at(t, f) ==> {
            &&& ops1.len() == ops0.len() + 2
            &&& reads_frame(f, ops1[ops0.len() as int], ops1[ops0.len() + 1int])
            &&& caller_of(f, peeked(ops1[ops0.len() as int]), peeked(ops1[ops0.len() + 1int])) is None
        },
    ensures
        backtrace_trace(t, fs0.push(f), ops1),
{
    reveal(walk_so_far);
    reveal(backtrace_trace);
    let fs1 = fs0.push(f);
    assert(fs1.drop_last() =~= fs0);
    assert(ops1.take(2 * fs1.len() - 1) =~= ops0);
}

/// `op`, if it is a read, returned what `mem` holds at its address.
pub open spec fn read_agrees(op: TraceOp, mem: Map<usize, u64>) -> bool {
    match op {
        TraceOp::Peek { addr, result } => mem.contains_key(addr) ==> result == Ok::<u64, Errno>(
            mem[addr],
        ),
        _ => true,
    }
}

/// The frame at `ips[k]`, `fps[k]` is linked in `mem` to the one at
/// `ips[k + 1]`, `fps[k + 1]` by the frame-pointer convention.
pub open spec fn linked(mem: Map<usize, u64>, ips: Seq<usize>, fps: Seq<usize>, k: int) -> bool {
    &&& fps[k] <= usize::MAX - 8
    &&& mem.contains_key((fps[k] + 8) as usize)
    &&& mem[(fps[k] + 8) as usize] as usize == ips[k + 1]
    &&& mem.contains_key(fps[k])
    &&& mem[fps[k]] as usize == fps[k + 1]
    &&& fps[k + 1] >= fps[k] + 16
}

proof fn lemma_walk_does_not_end_at_link(
    t: SymbolTable,
    fs: Seq<Frame>,
    ops: Seq<TraceOp>,
    mem: Map<usize, u64>,
    ips: Seq<usize>,
    fps: Seq<usize>,
    k: int,
)
    requires
        backtrace_trace(t, fs, ops),
        forall|j: int| 0 <= j < ops.len() ==> read_agrees(#[trigger] ops[j], mem),
        0 <= k < fs.len(),
        k + 1 < ips.len(),
        ips.len() == fps.len(),
        fs[k].ip == ips[k],
        fs[k].fp == fps[k],
        !main_at(t, ips[k]),
        linked(mem, ips, fps, k),
    ensures
        k + 1 < fs.len(),
{
    reveal(walk_so_far);
    reveal(backtrace_trace);
    let n = fs.len() as int;
    if k == n - 1 {
        assert(!walk_stops_at(t, fs[k]));
        let ret_read = ops[2 * n - 1];
        let saved_read = ops[2 * n];
        assert(read_agrees(ret_read, mem));
        assert(read_agrees(saved_read, mem));
        assert(peeked(ret_read) == Some(mem[(fps[k] + 8) as usize]));
        assert(peeked(saved_read) == Some(mem[fps[k]]));
    }
}

#[verifier::spinoff_prover]
#[verifier::rlimit(40)]
proof fn lemma_walk_follows_link(
    t: SymbolTable,
    fs: Seq<Frame>,
    ops: Seq<TraceOp>,
    mem: Map<usize, u64>,
    ips: Seq<usize>,
    fps: Seq<usize>,
    k: int,
)
    requires
        backtrace_trace(t, fs, ops),
        forall|j: int| 0 <= j < ops.len() ==> read_agrees(#[trigger] ops[j], mem),
        0 <= k < fs.len() - 1,
        k + 1 < ips.len(),
        ips.len() == fps.len(),
        fs[k].ip == ips[k],
        fs[k].fp == fps[k],
        linked(mem, ips, fps, k),
    ensures
        fs[k + 1].ip == ips[k + 1],
        fs[k + 1].fp == fps[k + 1],
{
    reveal(walk_so_far);
    reveal(backtrace_trace);
    let n = fs.len() as int;
    let pre = fs.drop_last();
    let pops = ops.take(2 * n - 1);
    assert(walk_so_far(t, pre, pops, fs[n - 1].ip, fs[n - 1].fp));
    assert(pre[k] == fs[k]);
    let ret_read = ops[2 * k + 1];
    let saved_read = ops[2 * k + 2];
    assert(pops[2 * k + 1] == ret_read);
    assert(pops[2 * k + 2] == saved_read);
    assert(reads_frame(fs[k], ret_read, saved_read));
    assert(read_agrees(ret_read, mem));
    assert(read_agrees(saved_read, mem));
    assert(peeked(ret_read) == Some(mem[(fps[k] + 8) as usize]));
    assert(peeked(saved_read) == Some(mem[fps[k]]));
    if k + 1 < pre.len() {
        assert(pre[k + 1] == fs[k + 1]);
    }
}

/// A call chain of three functions outside `main` below a frame in `main`
/// (f3 called by f2, called by f1, called by `main`), linked in memory by
/// the frame-pointer convention, gives a backtrace of exactly four frames,
/// innermost first, the last in `main`: provided each read of the walk
/// returned what memory holds.
pub proof fn lemma_backtrace_of_call_chain(
    t: SymbolTable,
    fs: Seq<Frame>,
    ops: Seq<TraceOp>,
    mem: Map<usize, u64>,
    ips: Seq<usize>,
    fps: Seq<usize>,
)
    requires
        backtrace_trace(t, fs, ops),
        forall|j: int| 0 <= j < ops.len() ==> read_agrees(#[trigger] ops[j], mem),
        ips.len() == 4,
        fps.len() == 4,
        ops[0] == (TraceOp::GetRegs { result: Ok((ips[0], fps[0])) }),
        forall|k: int| 0 <= k < 3 ==> !main_at(t, #[trigger] ips[k]),
        forall|k: int| 0 <= k < 3 ==> #[trigger] linked(mem, ips, fps, k),
        main_at(t, ips[3]),
    ensures
        fs.len() == 4,
        forall|k: int| 0 <= k < 4 ==> fs[k].ip == ips[k] && fs[k].fp == fps[k],
        main_at(t, fs[3].ip),
{
    reveal(walk_so_far);
    reveal(backtrace_trace);
    let n = fs.len() as int;
    if n > 1 {
        assert(fs.drop_last()[0] == fs[0]);
    }
    assert(fs[0].ip == ips[0] && fs[0].fp == fps[0]);
    assert(!main_at(t, ips[0]) && linked(mem, ips, fps, 0));
    lemma_walk_does_not_end_at_link(t, fs, ops, mem, ips, fps, 0);
    lemma_walk_follows_link(t, fs, ops, mem, ips, fps, 0);
    assert(!main_at(t, ips[1]) && linked(mem, ips, fps, 1));
    lemma_walk_does_not_end_at_link(t, fs, ops, mem, ips, fps, 1);
    lemma_walk_follows_link(t, fs, ops, mem, ips, fps, 1);
    assert(!main_at(t, ips[2]) && linked(mem, ips, fps, 2));
    lemma_walk_does_not_end_at_link(t, fs, ops, mem, ips, fps, 2);
    lemma_walk_follows_link(t, fs, ops, mem, ips, fps, 2);
    if n > 4 {
        let pre = fs.drop_last();
        assert(pre[3] == fs[3]);
        assert(walk_stops_at(t, pre[3]));
    }
}

/// A breakpoint that was pending when a child was taken over has a trap
/// write at its address in the child's trace, and is installed over the byte
/// that write displaced exactly when the write succeeded; every operation of
/// that take-over after the wait is a memory access, so nothing of the child
/// ran before its breakpoints were planted.
pub proof fn lemma_pending_planted_before_running(
    before: Seq<Slot>,
    after: Seq<Slot>,
    h0: Seq<TraceOp>,
    h1: Seq<TraceOp>,
    k: int,
)
    requires
        installs_pending(all_pending(before), after, h0, h1),
        0 <= k < before.len(),
    ensures
        after[k].0 == before[k].0,
        attempted(h1, h0.len() as int, before[k].0, after[k].1),
        forall|j: int|
            h0.len() <= j < h1.len() ==> !(#[trigger] h1[j] is Step) && !(h1[j] is Resume),
{
    assert(all_pending(before)[k] == (before[k].0, None::<Breakpoint>));
    assert forall|j: int| h0.len() <= j < h1.len() implies !(#[trigger] h1[j] is Step) && !(
    h1[j] is Resume) by {
        assert(h1[j] is Peek || h1[j] is Poke);
    }
}

/// A traced child process.
pub struct Inferior {
    pid: Pid,
    history: Ghost<Seq<TraceOp>>,
}

impl Inferior {
    /// The process id.
    pub closed spec fn id(&self) -> Pid {
        self.pid
    }

    /// The tracing calls made on this inferior so far, with their results.
    pub closed spec fn history(&self) -> Seq<TraceOp> {
        self.history@
    }

    /// Relies on nix::sys::ptrace::read: reads the word at `addr` of the
    /// tracee (PTRACE_PEEKDATA).
    #[verifier::external_body]
    fn peek(&mut self, addr: usize) -> (r: Result<u64, Errno>)
        ensures
            final(self).id() == old(self).id(),
            final(self).history() == old(self).history().push(TraceOp::Peek { addr, result: r }),
    {
        match ptrace::read(self.pid, addr as ptrace::AddressType) {
            Ok(word) => Ok(word as u64),
            Err(e) => Err(e),
        }
    }

    /// Relies on nix::sys::ptrace::write: stores `word` at `addr` of the
    /// tracee (PTRACE_POKEDATA).
    #[verifier::external_body]
    fn poke(&mut self, addr: usize, word: u64) -> (r: Result<(), Errno>)
        ensures
            final(self).id() == old(self).id(),
            final(self).history() == old(self).history().push(
                TraceOp::Poke { addr, word, result: r },
            ),
    {
        ptrace::write(self.pid, addr as ptrace::AddressType, word as nix::libc::c_long)
    }

    /// Relies on nix::sys::ptrace::getregs: reads the tracee's registers
    /// (PTRACE_GETREGS).
    #[verifier::external_body]
    fn get_registers(&mut self) -> (r: Result<Registers, Errno>)
        ensures
            final(self).id() == old(self).id(),
            final(self).history() == old(self).history().push(
                TraceOp::GetRegs { result: regs_view(r) },
            ),
    {
        match ptrace::getregs(self.pid) {
            Ok(raw) => Ok(Registers { ip: raw.rip as usize, frame: raw.rbp as usize, raw }),
            Err(e) => Err(e),
        }
    }

    /// Relies on nix::sys::ptrace::setregs: writes the tracee's registers,
    /// with the instruction and frame pointers taken from `regs`
    /// (PTRACE_SETREGS).
    #[verifier::external_body]
    fn set_registers(&mut self, regs: &Registers) -> (r: Result<(), Errno>)
        ensures
            final(self).id() == old(self).id(),
            final(self).history() == old(self).history().push(
                TraceOp::SetRegs { ip: regs.ip, fp: regs.frame, result: r },
            ),
    {
        let mut raw = regs.raw;
        raw.rip = regs.ip as u64;
        raw.rbp = regs.frame as u64;
        ptrace::setregs(self.pid, raw)
    }

    /// Relies on nix::sys::ptrace::step: runs one instruction of the tracee
    /// (PTRACE_SINGLESTEP), delivering no signal.
    #[verifier::external_body]
    fn single_step(&mut self) -> (r: Result<(), Errno>)
        ensures
            final(self).id() == old(self).id(),
            final(self).history() == old(self).history().push(TraceOp::Step { result: r }),
    {
        ptrace::step(self.pid, None)
    }

    /// Relies on nix::sys::ptrace::cont: resumes the tracee (PTRACE_CONT),
    /// delivering no signal.
    #[verifier::external_body]
    fn resume(&mut self) -> (r: Result<(), Errno>)
        ensures
            final(self).id() == old(self).id(),
            final(self).history() == old(self).history().push(TraceOp::Resume { result: r }),
    {
        ptrace::cont(self.pid, None)
    }

    /// Relies on nix::sys::wait::waitpid: blocks until the process changes
    /// state, and reports how.
    #[verifier::external_body]
    fn wait_event(&mut self, options: Option<WaitPidFlag>) -> (r: Result<WaitEvent, Errno>)
        ensures
            final(self).id() == old(self).id(),
            final(self).history() == old(self).history().push(TraceOp::Wait { result: r }),
    {
        match waitpid(self.pid, options) {
            Ok(WaitStatus::Exited(_, code)) => Ok(WaitEvent::Exited(code)),
            Ok(WaitStatus::Signaled(_, sig, _)) => Ok(WaitEvent::Signaled(sig)),
            Ok(WaitStatus::Stopped(_, sig)) => Ok(WaitEvent::Stopped(sig)),
            Ok(_) => Ok(WaitEvent::Other),
            Err(e) => Err(e),
        }
    }

    /// Relies on nix::sys::signal::kill: sends SIGKILL to the process.
    #[verifier::external_body]
    fn send_kill(&mut self) -> (r: Result<(), Errno>)
        ensures
            final(self).id() == old(self).id(),
            final(self).history() == old(self).history().push(TraceOp::Kill { result: r }),
    {
        signal::kill(self.pid, Signal::SIGKILL)
    }

    /// An inferior for the child `pid`, which was started with tracing
    /// enabled. No call is made yet.
    pub fn new(pid: i32) -> (r: Inferior)
        ensures
            r.history() == Seq::<TraceOp>::empty(),
    {
        Inferior { pid: Pid::from_raw(pid), history: Ghost(Seq::empty()) }
    }

    /// Returns the pid of this inferior.
    pub fn pid(&self) -> (r: Pid)
        ensures
            r == self.id(),
    {
        self.pid
    }

    /// Writes `val` over the byte at `addr` and returns the byte that was
    /// there. The tracing interface moves whole words: the aligned word that
    /// holds `addr` is read, the byte replaced, and the word written back.
    pub fn write_byte(&mut self, addr: usize, val: u8) -> (r: Result<u8, Errno>)
        ensures
            final(self).id() == old(self).id(),
            extends(old(self).history(), final(self).history()),
            is_write(addr, val, added(old(self).history(), final(self).history()), r),
    {
        let ghost h0 = self.history@;
        let aligned = align_addr_to_word(addr);
        let offset = (addr - aligned) as u64;
        let word = match self.peek(aligned) {
            Ok(w) => w,
            Err(e) => {
                assert(added(h0, self.history@) =~= seq![TraceOp::Peek { addr: aligned, result: Err::<u64, Errno>(e) }]);
                return Err(e);
            },
        };
        let (updated, orig) = patch_word(word, offset, val);
        let r = match self.poke(aligned, updated) {
            Ok(()) => Ok(orig),
            Err(e) => Err(e),
        };
        assert(added(h0, self.history@) =~= seq![
            TraceOp::Peek { addr: aligned, result: Ok::<u64, Errno>(word) },
            self.history@.last(),
        ]);
        r
    }

    /// Blocks until the inferior changes state, and classifies the change:
    /// on a stop the registers are read for the instruction pointer, on
    /// anything else they are not.
    pub fn wait(&mut self, options: Option<WaitPidFlag>) -> (r: Result<Status, TraceError>)
        ensures
            final(self).id() == old(self).id(),
            extends(old(self).history(), final(self).history()),
            is_wait(added(old(self).history(), final(self).history()), r),
    {
        let ghost h0 = self.history@;
        let event = match self.wait_event(options) {
            Ok(ev) => ev,
            Err(e) => {
                assert(added(h0, self.history@) =~= seq![self.history@.last()]);
                return Err(TraceError::Os(e));
            },
        };
        let ghost h1 = self.history@;
        match event {
            WaitEvent::Stopped(sig) => {
                let r = match self.get_registers() {
                    Ok(regs) => Ok(Status::Stopped(sig, regs.ip)),
                    Err(e) => Err(TraceError::Os(e)),
                };
                assert(added(h0, self.history@) =~= seq![h1.last(), self.history@.last()]);
                r
            },
            _ => {
                assert(added(h0, self.history@) =~= seq![self.history@.last()]);
                status_from(event, 0)
            },
        }
    }

    /// Resumes the inferior and blocks until it stops or ends. Stopped one
    /// byte past an installed breakpoint, it first steps over that
    /// breakpoint: the displaced byte is written back, the instruction
    /// pointer rewound, exactly one instruction run and, if the inferior is
    /// still there, the trap written again.
    #[verifier::spinoff_prover]
    #[verifier::rlimit(60)]
    pub fn continue_exec(&mut self, breakpoints: &BreakpointTable) -> (r: Result<
        Status,
        TraceError,
    >)
        requires
            breakpoints.wf(),
        ensures
            final(self).id() == old(self).id(),
            extends(old(self).history(), final(self).history()),
            continue_trace(breakpoints@, added(old(self).history(), final(self).history()), r),
    {
        let ghost h0 = self.history@;
        let mut regs = match self.get_registers() {
            Ok(regs) => regs,
            Err(e) => {
                assert(added(h0, self.history@) =~= seq![self.history@.last()]);
                return Err(TraceError::Os(e));
            },
        };
        let ghost h1 = self.history@;
        assert(h1 =~= h0.push(TraceOp::GetRegs { result: Ok((regs.ip, regs.frame)) }));
        let ip = regs.ip;
        let bp = if ip >= 1 {
            breakpoints.lookup(ip - 1)
        } else {
            None
        };
        if let Some(bp) = bp {
            let a = ip - 1;
            let w1 = self.write_byte(a, bp.orig_byte);
            let ghost h2 = self.history@;
            let ghost s1 = added(h1, h2);
            if let Err(e) = w1 {
                proof {
                    lemma_write_prefix(a, bp.orig_byte, s1, Seq::empty(), w1);
                    assert(added(h0, h2) =~= seq![h1.last()] + s1);
                    assert(added(h0, h2).drop_first() =~= s1 + Seq::empty());
                }
                return Err(TraceError::Os(e));
            }
            regs.ip = a;
            let sr = self.set_registers(&regs);
            let ghost h3 = self.history@;
            if let Err(e) = sr {
                proof {
                    lemma_write_prefix(a, bp.orig_byte, s1, seq![h3.last()], w1);
                    assert(added(h0, h3).drop_first() =~= s1 + seq![h3.last()]);
                }
                return Err(TraceError::Os(e));
            }
            let st = self.single_step();
            let ghost h4 = self.history@;
            if let Err(e) = st {
                proof {
                    lemma_write_prefix(a, bp.orig_byte, s1, seq![h3.last(), h4.last()], w1);
                    assert(added(h0, h4).drop_first() =~= s1 + seq![h3.last(), h4.last()]);
                }
                return Err(TraceError::Os(e));
            }
            let wt = self.wait(None);
            let ghost h5 = self.history@;
            let ghost s2 = added(h4, h5);
            let stop = match wt {
                Err(e) => {
                    proof {
                        lemma_write_prefix(a, bp.orig_byte, s1, seq![h3.last(), h4.last()] + s2, w1);
                        lemma_wait_prefix(s2, Seq::empty(), wt);
                        assert(added(h0, h5).drop_first() =~= s1 + (seq![h3.last(), h4.last()] + s2));
                        assert((seq![h3.last(), h4.last()] + s2).skip(2) =~= s2 + Seq::empty());
                    }
                    return Err(e);
                },
                Ok(Status::Exited(c)) => {
                    proof {
                        lemma_write_prefix(a, bp.orig_byte, s1, seq![h3.last(), h4.last()] + s2, w1);
                        lemma_wait_prefix(s2, Seq::empty(), wt);
                        assert(added(h0, h5).drop_first() =~= s1 + (seq![h3.last(), h4.last()] + s2));
                        assert((seq![h3.last(), h4.last()] + s2).skip(2) =~= s2 + Seq::empty());
                    }
                    return Ok(Status::Exited(c));
                },
                Ok(Status::Signaled(s)) => {
                    proof {
                        lemma_write_prefix(a, bp.orig_byte, s1, seq![h3.last(), h4.last()] + s2, w1);
                        lemma_wait_prefix(s2, Seq::empty(), wt);
                        assert(added(h0, h5).drop_first() =~= s1 + (seq![h3.last(), h4.last()] + s2));
                        assert((seq![h3.last(), h4.last()] + s2).skip(2) =~= s2 + Seq::empty());
                    }
                    return Ok(Status::Signaled(s));
                },
                Ok(Status::Stopped(_, _)) => false,
            };
            let w2 = self.write_byte(a, TRAP_OPCODE);
            let ghost h6 = self.history@;
            let ghost s3 = added(h5, h6);
            if let Err(e) = w2 {
                proof {
                    lemma_write_prefix(a, bp.orig_byte, s1, seq![h3.last(), h4.last()] + s2 + s3, w1);
                    lemma_wait_prefix(s2, s3, wt);
                    lemma_write_prefix(a, TRAP_OPCODE, s3, Seq::empty(), w2);
                    assert(added(h0, h6).drop_first() =~= s1 + (seq![h3.last(), h4.last()] + s2 + s3));
                    assert((seq![h3.last(), h4.last()] + s2 + s3).skip(2) =~= s2 + s3);
                }
                return Err(TraceError::Os(e));
            }
            let rs = self.resume();
            let ghost h7 = self.history@;
            if let Err(e) = rs {
                proof {
                    let tail = seq![h7.last()];
                    lemma_write_prefix(a, bp.orig_byte, s1, seq![h3.last(), h4.last()] + s2 + s3 + tail, w1);
                    lemma_wait_prefix(s2, s3 + tail, wt);
                    lemma_write_prefix(a, TRAP_OPCODE, s3, tail, w2);
                    assert(added(h0, h7).drop_first() =~= s1 + (seq![h3.last(), h4.last()] + s2 + s3 + tail));
                    assert((seq![h3.last(), h4.last()] + s2 + s3 + tail).skip(2) =~= s2 + (s3 + tail));
                }
                return Err(TraceError::Os(e));
            }
            let r = self.wait(None);
            proof {
                let h8 = self.history@;
                let s4 = added(h7, h8);
                let tail = seq![h7.last()] + s4;
                lemma_write_prefix(a, bp.orig_byte, s1, seq![h3.last(), h4.last()] + s2 + s3 + tail, w1);
                lemma_wait_prefix(s2, s3 + tail, wt);
                lemma_write_prefix(a, TRAP_OPCODE, s3, tail, w2);
                assert(added(h0, h8).drop_first() =~= s1 + (seq![h3.last(), h4.last()] + s2 + s3 + tail));
                assert((seq![h3.last(), h4.last()] + s2 + s3 + tail).skip(2) =~= s2 + (s3 + tail));
                assert(tail.drop_first() =~= s4);
            }
            return r;
        }
        let rs = self.resume();
        let ghost h2 = self.history@;
        if let Err(e) = rs {
            assert(added(h0, h2).drop_first() =~= seq![h2.last()]);
            return Err(TraceError::Os(e));
        }
        let r = self.wait(None);
        proof {
            let h3 = self.history@;
            assert(added(h0, h3).drop_first() =~= seq![h2.last()] + added(h2, h3));
            assert((seq![h2.last()] + added(h2, h3)).drop_first() =~= added(h2, h3));
        }
        r
    }

    /// Attempts a trap write at every pending breakpoint of `breakpoints`,
    /// in table order. A breakpoint whose write succeeds is installed over
    /// the byte it displaced; one whose write fails stays pending. Nothing is
    /// run meanwhile: every call is a memory access.
    pub fn install_all_pending(&mut self, breakpoints: &mut BreakpointTable)
        requires
            old(breakpoints).wf(),
        ensures
            final(self).id() == old(self).id(),
            final(breakpoints).wf(),
            installs_pending(
                old(breakpoints)@,
                final(breakpoints)@,
                old(self).history(),
                final(self).history(),
            ),
    {
        let ghost start = self.history@;
        let ghost table = breakpoints@;
        let mut i: usize = 0;
        while i < breakpoints.len()
            invariant
                breakpoints.wf(),
                table == old(breakpoints)@,
                start == old(self).history(),
                self.id() == old(self).id(),
                breakpoints@.len() == table.len(),
                i <= table.len(),
                forall|k: int| i <= k < table.len() ==> #[trigger] breakpoints@[k] == table[k],
                extends(start, self.history@),
                forall|j: int|
                    start.len() <= j < self.history@.len() ==> (#[trigger] self.history@[j] is Peek)
                        || self.history@[j] is Poke,
                forall|k: int|
                    0 <= k < i ==> {
                        &&& (#[trigger] breakpoints@[k]).0 == table[k].0
                        &&& table[k].1 is Some ==> breakpoints@[k] == table[k]
                        &&& table[k].1 is None ==> attempted(
                            self.history@,
                            start.len() as int,
                            table[k].0,
                            breakpoints@[k].1,
                        )
                    },
            decreases table.len() - i,
        {
            let ghost h0 = self.history@;
            let ghost b0 = breakpoints@;
            let (addr, state) = breakpoints.slot(i);
            if state.is_none() {
                let w = self.write_byte(addr, TRAP_OPCODE);
                match w {
                    Ok(orig) => {
                        breakpoints.set_installed(i, orig);
                    },
                    Err(_) => {},
                }
                proof {
                    let s = added(h0, self.history@);
                    lemma_write_prefix(addr, TRAP_OPCODE, s, Seq::empty(), w);
                    assert(self.history@.skip(h0.len() as int) =~= s + Seq::empty());
                    assert(attempted(self.history@, start.len() as int, addr, breakpoints@[i as int].1));
                    assert forall|j: int| h0.len() <= j < self.history@.len() implies (
                    #[trigger] self.history@[j] is Peek) || self.history@[j] is Poke by {
                        assert(self.history@[j] == s[j - h0.len()]);
                    }
                }
            }
            proof {
                let h = self.history@;
                assert(h.take(h0.len() as int) =~= h0);
                assert(h.take(start.len() as int) =~= h0.take(start.len() as int));
                assert forall|j: int| start.len() <= j < h.len() implies (#[trigger] h[j] is Peek)
                    || h[j] is Poke by {
                    if j < h0.len() {
                        assert(h[j] == h.take(h0.len() as int)[j]);
                    }
                }
                assert forall|k: int|
                    0 <= k < i && table[k].1 is None implies attempted(
                    h,
                    start.len() as int,
                    table[k].0,
                    (#[trigger] breakpoints@[k]).1,
                ) by {
                    assert(breakpoints@[k] == b0[k]);
                    lemma_attempt_stays(h0, h, start.len() as int, table[k].0, b0[k].1);
                }
            }
            i = i + 1;
        }
    }

    /// Waits for the child to stop at its entry and, if it did, plants
    /// every breakpoint in it (all are pending for a fresh child). Returns
    /// what the wait reported; the table is left as it was unless the child
    /// stopped.
    pub fn start(&mut self, breakpoints: &mut BreakpointTable) -> (r: Result<Status, TraceError>)
        requires
            old(breakpoints).wf(),
        ensures
            final(self).id() == old(self).id(),
            final(breakpoints).wf(),
            extends(old(self).history(), final(self).history()),
            ({
                let ops = added(old(self).history(), final(self).history());
                let n = wait_len(ops);
                &&& wait_shape(ops)
                &&& r == wait_result(ops)
                &&& if r matches Ok(Status::Stopped(_, _)) {
                    installs_pending(
                        all_pending(old(breakpoints)@),
                        final(breakpoints)@,
                        final(self).history().take(old(self).history().len() + n),
                        final(self).history(),
                    )
                } else {
                    ops.len() == n && final(breakpoints)@ == old(breakpoints)@
                }
            }),
    {
        let ghost h0 = self.history@;
        let st = self.wait(None);
        let ghost h1 = self.history@;
        let ghost s1 = added(h0, h1);
        if entry_stopped(&st) {
            breakpoints.mark_all_pending();
            self.install_all_pending(breakpoints);
            proof {
                let h2 = self.history@;
                lemma_wait_prefix(s1, added(h1, h2), st);
                assert(added(h0, h2) =~= s1 + added(h1, h2));
                assert(h2.take((h0.len() + s1.len()) as int) =~= h1);
            }
        } else {
            proof {
                lemma_wait_prefix(s1, Seq::empty(), st);
                assert(s1 + Seq::empty() =~= s1);
            }
        }
        st
    }

    /// Walks the frame-pointer chain of the stopped inferior, innermost
    /// frame first. The caller of a frame with frame pointer `fp` resumes at
    /// the word stored at `fp + 8`, and its frame pointer is the word stored
    /// at `fp`. The walk ends after the first frame in `main`, or where the
    /// chain cannot be followed: a read fails, or the saved frame pointer does
    /// not lie above the two words read.
    #[verifier::spinoff_prover]
    #[verifier::rlimit(60)]
    pub fn backtrace(&mut self, symbols: &SymbolTable) -> (r: Result<Vec<Frame>, Errno>)
        ensures
            final(self).id() == old(self).id(),
            extends(old(self).history(), final(self).history()),
            r matches Err(e) ==> added(old(self).history(), final(self).history()) == seq![
                TraceOp::GetRegs { result: Err(e) },
            ],
            r matches Ok(fs) ==> backtrace_trace(
                *symbols,
                fs@,
                added(old(self).history(), final(self).history()),
            ),
    {
        let ghost start = self.history@;
        let regs = match self.get_registers() {
            Ok(regs) => regs,
            Err(e) => {
                assert(added(start, self.history@) =~= seq![TraceOp::GetRegs { result: Err::<(usize, usize), Errno>(e) }]);
                return Err(e);
            },
        };
        let mut ip = regs.ip;
        let mut fp = regs.frame;
        assert(added(start, self.history@) =~= seq![TraceOp::GetRegs { result: Ok((ip, fp)) }]);
        proof {
            lemma_walk_starts(*symbols, added(start, self.history@), ip, fp);
        }
        let mut frames: Vec<Frame> = Vec::new();
        let mut more = true;
        while more
            invariant
                self.id() == old(self).id(),
                start == old(self).history(),
                extends(start, self.history@),
                more ==> walk_so_far(*symbols, frames@, added(start, self.history@), ip, fp),
                !more ==> backtrace_trace(*symbols, frames@, added(start, self.history@)),
            decreases (if more {
                usize::MAX - fp + 1
            } else {
                0
            }),
        {
            let ghost fs0 = frames@;
            let ghost ops0 = added(start, self.history@);
            let function = symbols.function_at(ip);
            let line = symbols.line_at(ip);
            let frame = Frame { ip, fp, function, line };
            let is_main = match function {
                Some(i) => {
                    proof {
                        reveal_strlit("main");
                    }
                    str_eq(symbols.functions[i].name.as_str(), "main")
                },
                None => false,
            };
            frames.push(frame);
            if is_main || fp > usize::MAX - 8 {
                more = false;
                proof {
                    assert(ops0.take(ops0.len() as int) =~= ops0);
                    lemma_walk_ends(*symbols, fs0, ops0, frame, ops0);
                    assert(frames@ =~= fs0.push(frame));
                }
            } else {
                let ret_addr = fp + 8;
                let ret = match self.peek(ret_addr) {
                    Ok(w) => Some(w),
                    Err(_) => None,
                };
                let saved = match self.peek(fp) {
                    Ok(w) => Some(w),
                    Err(_) => None,
                };
                let ghost ops1 = added(start, self.history@);
                proof {
                    let h = self.history@;
                    assert(ops1 =~= ops0.push(h[h.len() - 2]).push(h.last()));
                    assert(ops1.take(ops0.len() as int) =~= ops0);
                    assert(h.take(start.len() as int) =~= start);
                    assert(frames@ =~= fs0.push(frame));
                }
                let mut go_on = false;
                if let (Some(next_ip), Some(next_fp)) = (ret, saved) {
                    if next_fp as usize > fp && next_fp as usize - fp >= 16 {
                        go_on = true;
                        proof {
                            let h = self.history@;
                            lemma_walk_goes_on(
                                *symbols,
                                fs0,
                                ops0,
                                frame,
                                h[h.len() - 2],
                                h.last(),
                                next_ip as usize,
                                next_fp as usize,
                            );
                        }
                        ip = next_ip as usize;
                        fp = next_fp as usize;
                    }
                }
                if !go_on {
                    more = false;
                    proof {
                        lemma_walk_ends(*symbols, fs0, ops0, frame, ops1);
                    }
                }
            }
        }
        Ok(frames)
    }

    /// Kills the inferior.
    pub fn kill(&mut self) -> (r: Result<(), Errno>)
        ensures
            final(self).id() == old(self).id(),
            final(self).history() == old(self).history().push(TraceOp::Kill { result: r }),
    {
        self.send_kill()
    }
}

} // verus!
