//! A process as listed by the system: its id, its parent's id and its
//! command line.
use vstd::prelude::*;

verus! {

/// A process: its id, its parent's id and its command.
#[derive(Debug, Clone, PartialEq)]
pub struct Process {
    pub pid: usize,
    pub ppid: usize,
    pub command: String,
}

impl Process {
    /// A record of the given fields.
    pub fn new(pid: usize, ppid: usize, command: String) -> (r: Process)
        ensures
            r.pid == pid,
            r.ppid == ppid,
            r.command@ == command@,
    {
        Process { pid, ppid, command }
    }

    /// Pairs each open file descriptor of this process with what is known
    /// of the file it refers to. `fds` is the process's descriptor table,
    /// `None` if it could not be read; `files[i]` is the record for
    /// `fds[i]`, `None` if it could not be read. The result is `None` if
    /// either the table or any record is missing.
    pub fn list_open_files<F>(&self, fds: Option<Vec<usize>>, files: Vec<Option<F>>) -> (r: Option<
        Vec<(usize, F)>,
    >)
        requires
            fds matches Some(v) ==> v@.len() == files@.len(),
        ensures
            fds is None ==> r is None,
            fds matches Some(v) ==> (r is Some <==> forall|i: int|
                0 <= i < files@.len() ==> (#[trigger] files@[i]) is Some),
            r matches Some(out) ==> fds matches Some(v) && out@.len() == v@.len() && forall|i: int|
                0 <= i < out@.len() ==> (#[trigger] out@[i]) == (v@[i], files@[i]->Some_0),
    {
        let ghost all = files@;
        let ghost table = fds;
        let fds = match fds {
            Some(v) => v,
            None => return None,
        };
        let mut rest = files;
        let mut out: Vec<(usize, F)> = Vec::new();
        let mut i: usize = 0;
        while i < fds.len()
            invariant
                table == Some(fds),
                all == files@,
                fds@.len() == all.len(),
                i <= fds@.len(),
                rest@ == all.skip(i as int),
                out@.len() == i,
                forall|k: int| 0 <= k < i ==> (#[trigger] all[k]) is Some,
                forall|k: int| 0 <= k < i ==> (#[trigger] out@[k]) == (fds@[k], all[k]->Some_0),
            decreases fds@.len() - i,
        {
            assert(rest@[0] == all[i as int]);
            let file = rest.remove(0);
            assert(rest@ =~= all.skip(i + 1));
            match file {
                Some(f) => {
                    out.push((fds[i], f));
                },
                None => {
                    assert(all[i as int] is None);
                    return None;
                },
            }
            i = i + 1;
        }
        Some(out)
    }
}

} // verus!
