//! Bookkeeping of breakpoints: which addresses carry one, and which of those
//! are currently planted in the live inferior.
use vstd::prelude::*;

verus! {

/// A breakpoint planted in memory: its address and the byte that the trap
/// instruction displaced there.
#[derive(Clone, Copy, Debug, PartialEq, Eq, Structural)]
pub struct Breakpoint {
    pub addr: usize,
    pub orig_byte: u8,
}

/// One slot of the table: an address, and `Some` breakpoint once the trap is
/// planted in the live inferior (`None` while it is pending).
pub type Slot = (usize, Option<Breakpoint>);

/// Breakpoints of a session, in the order in which they were set.
pub struct BreakpointTable {
    slots: Vec<Slot>,
}

/// Addresses are unique keys, and an installed breakpoint records its own
/// address.
pub open spec fn slots_wf(s: Seq<Slot>) -> bool {
    &&& forall|i: int, j: int| 0 <= i < j < s.len() ==> s[i].0 != s[j].0
    &&& forall|i: int| 0 <= i < s.len() && (#[trigger] s[i]).1 is Some ==> s[i].1->Some_0.addr == s[i].0
}

/// Position of `addr` in `s`, if it holds it.
pub open spec fn slot_index(s: Seq<Slot>, addr: usize) -> Option<int> {
    if exists|i: int| 0 <= i < s.len() && (#[trigger] s[i]).0 == addr {
        Some(choose|i: int| 0 <= i < s.len() && (#[trigger] s[i]).0 == addr)
    } else {
        None
    }
}

/// The installed breakpoint at `addr`, if `addr` holds one that is planted.
pub open spec fn installed_at(s: Seq<Slot>, addr: usize) -> Option<Breakpoint> {
    match slot_index(s, addr) {
        Some(i) => s[i].1,
        None => None,
    }
}

/// `s` with every breakpoint marked pending.
pub open spec fn all_pending(s: Seq<Slot>) -> Seq<Slot> {
    s.map_values(|e: Slot| (e.0, None::<Breakpoint>))
}

/// Marking every breakpoint pending twice is marking it once.
pub proof fn lemma_all_pending_idempotent(s: Seq<Slot>)
    ensures
        all_pending(all_pending(s)) == all_pending(s),
{
    assert(all_pending(all_pending(s)) =~= all_pending(s));
}

impl View for BreakpointTable {
    type V = Seq<Slot>;

    closed spec fn view(&self) -> Seq<Slot> {
        self.slots@
    }
}

impl BreakpointTable {
    /// The table's invariant: see `slots_wf`.
    pub open spec fn wf(&self) -> bool {
        slots_wf(self@)
    }

    /// An empty table.
    pub fn new() -> (r: BreakpointTable)
        ensures
            r.wf(),
            r@ == Seq::<Slot>::empty(),
    {
        BreakpointTable { slots: Vec::new() }
    }

    /// Number of breakpoints set.
    pub fn len(&self) -> (r: usize)
        ensures
            r == self@.len(),
    {
        self.slots.len()
    }

    /// The slot at position `i`.
    pub fn slot(&self, i: usize) -> (r: Slot)
        requires
            i < self@.len(),
        ensures
            r == self@[i as int],
    {
        self.slots[i]
    }

    /// Position of the breakpoint at `addr`, if one is set there.
    pub fn find(&self, addr: usize) -> (r: Option<usize>)
        requires
            self.wf(),
        ensures
            r matches Some(i) ==> slot_index(self@, addr) == Some(i as int),
            r is None ==> slot_index(self@, addr) is None,
    {
        let mut i: usize = 0;
        while i < self.slots.len()
            invariant
                self.wf(),
                i <= self.slots@.len(),
                forall|k: int| 0 <= k < i ==> (#[trigger] self.slots@[k]).0 != addr,
            decreases self.slots@.len() - i,
        {
            if self.slots[i].0 == addr {
                proof {
                    let j = choose|j: int| 0 <= j < self@.len() && (#[trigger] self@[j]).0 == addr;
                    assert(j == i as int);
                }
                return Some(i);
            }
            i = i + 1;
        }
        None
    }

    /// The breakpoint planted at `addr`, if `addr` is set and installed.
    pub fn lookup(&self, addr: usize) -> (r: Option<Breakpoint>)
        requires
            self.wf(),
        ensures
            r == installed_at(self@, addr),
    {
        match self.find(addr) {
            Some(i) => self.slots[i].1,
            None => None,
        }
    }

    /// Sets a breakpoint at `addr`. A new address gets a pending slot at the
    /// end; an address already set keeps its slot. Returns the slot's position.
    pub fn add(&mut self, addr: usize) -> (r: usize)
        requires
            old(self).wf(),
        ensures
            final(self).wf(),
            r < final(self)@.len(),
            final(self)@[r as int].0 == addr,
            slot_index(old(self)@, addr) matches Some(i) ==> r == i && final(self)@ == old(self)@,
            slot_index(old(self)@, addr) is None ==> r == old(self)@.len() && final(self)@
                == old(self)@.push((addr, None)),
    {
        match self.find(addr) {
            Some(i) => i,
            None => {
                let n = self.slots.len();
                self.slots.push((addr, None));
                n
            },
        }
    }

    /// Records that the breakpoint at position `i` is planted, over `orig_byte`.
    pub fn set_installed(&mut self, i: usize, orig_byte: u8)
        requires
            old(self).wf(),
            i < old(self)@.len(),
        ensures
            final(self).wf(),
            final(self)@ == old(self)@.update(
                i as int,
                (old(self)@[i as int].0, Some(Breakpoint { addr: old(self)@[i as int].0, orig_byte })),
            ),
    {
        let addr = self.slots[i].0;
        self.slots.set(i, (addr, Some(Breakpoint { addr, orig_byte })));
    }

    /// Marks every breakpoint pending: no live inferior holds a trap any more.
    pub fn mark_all_pending(&mut self)
        requires
            old(self).wf(),
        ensures
            final(self).wf(),
            final(self)@ == all_pending(old(self)@),
    {
        let ghost start = self@;
        let mut i: usize = 0;
        while i < self.slots.len()
            invariant
                start == old(self)@,
                self.slots@.len() == start.len(),
                i <= start.len(),
                forall|k: int| 0 <= k < i ==> #[trigger] self.slots@[k] == (start[k].0, None::<Breakpoint>),
                forall|k: int| i <= k < start.len() ==> #[trigger] self.slots@[k] == start[k],
            decreases start.len() - i,
        {
            let addr = self.slots[i].0;
            self.slots.set(i, (addr, None));
            i = i + 1;
        }
        assert(self@ =~= all_pending(start));
    }
}

} // verus!
