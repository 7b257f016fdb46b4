//! Debug information as the debugger consumes it: functions with their
//! address ranges, and rows that map addresses to source lines.
use crate::text::str_eq;
use vstd::prelude::*;

verus! {

/// A function of the target: its name and the addresses `address..end` of
/// its code.
pub struct FunctionSymbol {
    pub name: String,
    pub address: usize,
    pub end: usize,
}

/// One row of the line table: code from `address` on belongs to line
/// `number` of `file`.
pub struct LineSymbol {
    pub file: String,
    pub number: usize,
    pub address: usize,
}

/// Debug information of one target. `primary_file` is the translation unit
/// that bare line numbers refer to.
pub struct SymbolTable {
    pub primary_file: String,
    pub functions: Vec<FunctionSymbol>,
    pub lines: Vec<LineSymbol>,
}

/// Position of the first element of `s` that satisfies `p`.
pub open spec fn first_where<A>(s: Seq<A>, p: spec_fn(A) -> bool) -> Option<int> {
    if exists|i: int| 0 <= i < s.len() && #[trigger] p(s[i]) {
        Some(
            choose|i: int|
                0 <= i < s.len() && #[trigger] p(s[i]) && forall|j: int| 0 <= j < i ==> !p(s[j]),
        )
    } else {
        None
    }
}

pub proof fn lemma_first_where<A>(s: Seq<A>, p: spec_fn(A) -> bool, i: int)
    requires
        0 <= i < s.len(),
        p(s[i]),
        forall|j: int| 0 <= j < i ==> !p(#[trigger] s[j]),
    ensures
        first_where(s, p) == Some(i),
{
    let k = choose|k: int|
        0 <= k < s.len() && #[trigger] p(s[k]) && forall|j: int| 0 <= j < k ==> !p(s[j]);
    if k < i {
        assert(!p(s[k]));
    } else if k > i {
        assert(!p(s[i]));
    }
}

pub proof fn lemma_first_where_none<A>(s: Seq<A>, p: spec_fn(A) -> bool)
    requires
        forall|j: int| 0 <= j < s.len() ==> !p(#[trigger] s[j]),
    ensures
        first_where(s, p) is None,
{
}

/// Whether the code of `f` holds `addr`.
pub open spec fn covers(f: FunctionSymbol, addr: usize) -> bool {
    f.address <= addr < f.end
}

pub open spec fn covering(addr: usize) -> spec_fn(FunctionSymbol) -> bool {
    |f: FunctionSymbol| covers(f, addr)
}

pub open spec fn named(name: Seq<char>) -> spec_fn(FunctionSymbol) -> bool {
    |f: FunctionSymbol| f.name@ == name
}

pub open spec fn holding(ls: Seq<LineSymbol>, addr: usize) -> spec_fn(LineSymbol) -> bool {
    |l: LineSymbol| row_holds(ls, l, addr)
}

pub open spec fn from_line(file: Seq<char>, number: usize) -> spec_fn(LineSymbol) -> bool {
    |l: LineSymbol| l.file@ == file && l.number >= number
}

/// Position of the function whose code holds `addr` (the first, should
/// ranges overlap).
pub open spec fn function_index(fs: Seq<FunctionSymbol>, addr: usize) -> Option<int> {
    first_where(fs, covering(addr))
}

/// Entry address of the first function called `name`.
pub open spec fn function_address(fs: Seq<FunctionSymbol>, name: Seq<char>) -> Option<usize> {
    match first_where(fs, named(name)) {
        Some(i) => Some(fs[i].address),
        None => None,
    }
}

/// Whether `l` is the row that holds `addr`: it starts at or before `addr`,
/// and no row of `ls` starts later while still at or before `addr`.
pub open spec fn row_holds(ls: Seq<LineSymbol>, l: LineSymbol, addr: usize) -> bool {
    l.address <= addr && forall|m: int|
        0 <= m < ls.len() && (#[trigger] ls[m]).address <= addr ==> ls[m].address <= l.address
}

/// Position of the row that holds `addr` (the first of equals).
pub open spec fn line_index(ls: Seq<LineSymbol>, addr: usize) -> Option<int> {
    first_where(ls, holding(ls, addr))
}

/// Address of the first row of file `file` at line `number` or later.
pub open spec fn line_address(ls: Seq<LineSymbol>, file: Seq<char>, number: usize) -> Option<usize> {
    match first_where(ls, from_line(file, number)) {
        Some(i) => Some(ls[i].address),
        None => None,
    }
}

impl SymbolTable {
    /// Position in `functions` of the function whose code holds `addr`.
    pub fn function_at(&self, addr: usize) -> (r: Option<usize>)
        ensures
            r is None ==> function_index(self.functions@, addr) is None,
            r matches Some(i) ==> i < self.functions@.len() && function_index(self.functions@, addr)
                == Some(i as int),
    {
        let ghost p = covering(addr);
        let mut i: usize = 0;
        while i < self.functions.len()
            invariant
                i <= self.functions@.len(),
                p == covering(addr),
                forall|j: int| 0 <= j < i ==> !p(#[trigger] self.functions@[j]),
            decreases self.functions@.len() - i,
        {
            let f = &self.functions[i];
            if f.address <= addr && addr < f.end {
                proof {
                    lemma_first_where(self.functions@, p, i as int);
                }
                return Some(i);
            }
            i = i + 1;
        }
        proof {
            lemma_first_where_none(self.functions@, p);
        }
        None
    }

    /// Name of the function whose code holds `addr`.
    pub fn function_name_at(&self, addr: usize) -> (r: Option<&String>)
        ensures
            r is Some == function_index(self.functions@, addr) is Some,
            r is Some ==> r->Some_0@ == self.functions@[function_index(
                self.functions@,
                addr,
            )->Some_0].name@,
    {
        match self.function_at(addr) {
            Some(i) => {
                Some(&self.functions[i].name)
            },
            None => None,
        }
    }

    /// Entry address of the first function called `name`.
    pub fn addr_for_function(&self, name: &str) -> (r: Option<usize>)
        ensures
            r == function_address(self.functions@, name@),
    {
        let ghost p = named(name@);
        let mut i: usize = 0;
        while i < self.functions.len()
            invariant
                i <= self.functions@.len(),
                p == named(name@),
                forall|j: int| 0 <= j < i ==> !p(#[trigger] self.functions@[j]),
            decreases self.functions@.len() - i,
        {
            if str_eq(self.functions[i].name.as_str(), name) {
                proof {
                    lemma_first_where(self.functions@, p, i as int);
                }
                return Some(self.functions[i].address);
            }
            i = i + 1;
        }
        proof {
            lemma_first_where_none(self.functions@, p);
        }
        None
    }

    /// Address of the first row of the primary file at line `number` or
    /// later.
    pub fn addr_for_line(&self, number: usize) -> (r: Option<usize>)
        ensures
            r == line_address(self.lines@, self.primary_file@, number),
    {
        let ghost p = from_line(self.primary_file@, number);
        let mut i: usize = 0;
        while i < self.lines.len()
            invariant
                i <= self.lines@.len(),
                p == from_line(self.primary_file@, number),
                forall|j: int| 0 <= j < i ==> !p(#[trigger] self.lines@[j]),
            decreases self.lines@.len() - i,
        {
            let l = &self.lines[i];
            if l.number >= number && str_eq(l.file.as_str(), self.primary_file.as_str()) {
                proof {
                    lemma_first_where(self.lines@, p, i as int);
                }
                return Some(l.address);
            }
            i = i + 1;
        }
        proof {
            lemma_first_where_none(self.lines@, p);
        }
        None
    }

    /// Position in `lines` of the row that holds `addr`: the row that starts
    /// last at or before `addr`, the first of equals.
    pub fn line_at(&self, addr: usize) -> (r: Option<usize>)
        ensures
            r is None ==> line_index(self.lines@, addr) is None,
            r matches Some(i) ==> i < self.lines@.len() && line_index(self.lines@, addr) == Some(
                i as int,
            ),
    {
        let ghost ls = self.lines@;
        let mut best: Option<usize> = None;
        let mut i: usize = 0;
        while i < self.lines.len()
            invariant
                ls == self.lines@,
                i <= ls.len(),
                best is None ==> forall|j: int| 0 <= j < i ==> (#[trigger] ls[j]).address > addr,
                best matches Some(b) ==> {
                    &&& b < i
                    &&& ls[b as int].address <= addr
                    &&& forall|j: int|
                        0 <= j < i && (#[trigger] ls[j]).address <= addr ==> ls[j].address
                            <= ls[b as int].address
                    &&& forall|j: int|
                        0 <= j < b ==> (#[trigger] ls[j]).address <= addr ==> ls[j].address
                            < ls[b as int].address
                },
            decreases ls.len() - i,
        {
            let a = self.lines[i].address;
            if a <= addr {
                match best {
                    None => {
                        best = Some(i);
                    },
                    Some(b) => {
                        if a > self.lines[b].address {
                            best = Some(i);
                        }
                    },
                }
            }
            i = i + 1;
        }
        let ghost p = holding(ls, addr);
        match best {
            Some(b) => {
                proof {
                    assert forall|j: int| 0 <= j < b implies !p(#[trigger] ls[j]) by {
                        if ls[j].address <= addr {
                            assert(ls[j].address < ls[b as int].address);
                        }
                    }
                    lemma_first_where(ls, p, b as int);
                }
            },
            None => {
                proof {
                    lemma_first_where_none(ls, p);
                }
            },
        }
        best
    }
}

} // verus!
