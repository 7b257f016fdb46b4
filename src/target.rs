//! Resolving a breakpoint target to an address.
use crate::symbols::{function_address, line_address, SymbolTable};
use crate::text::{parse_unsigned, unsigned_value};
use vstd::prelude::*;
use vstd::string::StrSliceExecFns;

verus! {

/// Why a breakpoint target has no address.
#[derive(Clone, Copy, Debug, PartialEq, Eq, Structural)]
pub enum ResolutionError {
    /// `*` is not followed by a hexadecimal address.
    BadAddress,
    /// No code of the primary file is at this line or after it.
    UnknownLine(usize),
    /// No function has this name.
    UnknownFunction,
}

/// `s` without a leading `0x` or `0X`.
pub open spec fn strip_hex_prefix(s: Seq<char>) -> Seq<char> {
    if s.len() >= 2 && s[0] == '0' && (s[1] == 'x' || s[1] == 'X') {
        s.skip(2)
    } else {
        s
    }
}

/// The address that `s` writes in hexadecimal, with an optional `0x`.
pub open spec fn address_value(s: Seq<char>) -> Option<usize> {
    unsigned_value(strip_hex_prefix(s), 16)
}

/// Where a breakpoint target points: `*` and a hexadecimal address; a
/// decimal line of the primary file; or else the name of a function.
pub open spec fn target_address(t: SymbolTable, target: Seq<char>) -> Result<usize, ResolutionError> {
    if target.len() > 0 && target[0] == '*' {
        match address_value(target.drop_first()) {
            Some(a) => Ok(a),
            None => Err(ResolutionError::BadAddress),
        }
    } else {
        match unsigned_value(target, 10) {
            Some(n) => match line_address(t.lines@, t.primary_file@, n) {
                Some(a) => Ok(a),
                None => Err(ResolutionError::UnknownLine(n)),
            },
            None => match function_address(t.functions@, target) {
                Some(a) => Ok(a),
                None => Err(ResolutionError::UnknownFunction),
            },
        }
    }
}

fn address_from(s: &str, start: usize) -> (r: Option<usize>)
    requires
        start <= s@.len(),
    ensures
        r == address_value(s@.skip(start as int)),
{
    let n = s.unicode_len();
    if n - start >= 2 && s.get_char(start) == '0' && (s.get_char(start + 1) == 'x'
        || s.get_char(start + 1) == 'X') {
        assert(s@.skip(start as int).skip(2) =~= s@.skip(start + 2));
        parse_unsigned(s, start + 2, 16)
    } else {
        parse_unsigned(s, start, 16)
    }
}

/// Reads a hexadecimal address, with or without a leading `0x`.
pub fn parse_address(addr: &str) -> (r: Option<usize>)
    ensures
        r == address_value(addr@),
{
    assert(addr@.skip(0) =~= addr@);
    address_from(addr, 0)
}

/// Resolves a breakpoint target to an address.
pub fn resolve_target(target: &str, symbols: &SymbolTable) -> (r: Result<usize, ResolutionError>)
    ensures
        r == target_address(*symbols, target@),
{
    let n = target.unicode_len();
    if n > 0 && target.get_char(0) == '*' {
        assert(target@.skip(1) =~= target@.drop_first());
        match address_from(target, 1) {
            Some(a) => Ok(a),
            None => Err(ResolutionError::BadAddress),
        }
    } else {
        assert(target@.skip(0) =~= target@);
        match parse_unsigned(target, 0, 10) {
            Some(line) => match symbols.addr_for_line(line) {
                Some(a) => Ok(a),
                None => Err(ResolutionError::UnknownLine(line)),
            },
            None => match symbols.addr_for_function(target) {
                Some(a) => Ok(a),
                None => Err(ResolutionError::UnknownFunction),
            },
        }
    }
}

/// In a target whose `main` starts at 0x1000, the targets `main` and
/// `*0x1000` resolve to the same address.
pub proof fn lemma_function_and_address_agree(t: SymbolTable)
    requires
        function_address(t.functions@, "main"@) == Some(0x1000usize),
    ensures
        target_address(t, "main"@) == Ok::<usize, ResolutionError>(0x1000usize),
        target_address(t, "*0x1000"@) == target_address(t, "main"@),
{
    reveal_strlit("main");
    reveal_strlit("*0x1000");
    let h = "*0x1000"@.drop_first();
    let d = strip_hex_prefix(h);
    assert(d =~= seq!['1', '0', '0', '0']);
    assert(d.drop_last() =~= seq!['1', '0', '0']);
    assert(d.drop_last().drop_last() =~= seq!['1', '0']);
    assert(d.drop_last().drop_last().drop_last() =~= seq!['1']);
    assert(d.drop_last().drop_last().drop_last().drop_last() =~= Seq::<char>::empty());
    reveal_with_fuel(crate::text::digits_value, 5);
    assert(crate::text::digits_value(d, 16) == Some(4096nat));
}

} // verus!
