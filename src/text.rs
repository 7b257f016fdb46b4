//! Comparing strings and reading unsigned numbers out of them.
use vstd::prelude::*;
use vstd::string::StrSliceExecFns;

verus! {

/// Whether two strings hold the same characters.
pub fn str_eq(a: &str, b: &str) -> (r: bool)
    ensures
        r == (a@ == b@),
{
    let n = a.unicode_len();
    if n != b.unicode_len() {
        return false;
    }
    let mut i: usize = 0;
    while i < n
        invariant
            n == a@.len(),
            n == b@.len(),
            i <= n,
            forall|k: int| 0 <= k < i ==> a@[k] == b@[k],
        decreases n - i,
    {
        if a.get_char(i) != b.get_char(i) {
            return false;
        }
        i = i + 1;
    }
    assert(a@ =~= b@);
    true
}

/// Value of the digit `c` in base `radix` (10 or 16; letters in either case).
pub open spec fn digit_value(c: char, radix: nat) -> Option<nat> {
    if '0' <= c <= '9' && (c as int) - ('0' as int) < radix {
        Some(((c as int) - ('0' as int)) as nat)
    } else if radix == 16 && 'a' <= c <= 'f' {
        Some(((c as int) - ('a' as int) + 10) as nat)
    } else if radix == 16 && 'A' <= c <= 'F' {
        Some(((c as int) - ('A' as int) + 10) as nat)
    } else {
        None
    }
}

/// Value of a string of digits in base `radix`, most significant first;
/// `None` if a character is no digit. The empty string has the value 0.
pub open spec fn digits_value(s: Seq<char>, radix: nat) -> Option<nat>
    decreases s.len(),
{
    if s.len() == 0 {
        Some(0)
    } else {
        match (digits_value(s.drop_last(), radix), digit_value(s.last(), radix)) {
            (Some(v), Some(d)) => Some(v * radix + d),
            _ => None,
        }
    }
}

/// The unsigned number that `s` writes in base `radix`: an optional `+`,
/// then at least one digit, with a value that fits in a `usize`.
pub open spec fn unsigned_value(s: Seq<char>, radix: nat) -> Option<usize> {
    let body = if s.len() > 0 && s[0] == '+' {
        s.drop_first()
    } else {
        s
    };
    if body.len() == 0 {
        None
    } else {
        match digits_value(body, radix) {
            Some(v) => if v <= usize::MAX {
                Some(v as usize)
            } else {
                None
            },
            None => None,
        }
    }
}

fn digit_of(c: char, radix: u32) -> (r: Option<u32>)
    requires
        radix == 10 || radix == 16,
    ensures
        r matches Some(d) ==> digit_value(c, radix as nat) == Some(d as nat) && d < radix,
        r is None ==> digit_value(c, radix as nat) is None,
{
    if '0' <= c && c <= '9' && (c as u32) - ('0' as u32) < radix {
        Some((c as u32) - ('0' as u32))
    } else if radix == 16 && 'a' <= c && c <= 'f' {
        Some((c as u32) - ('a' as u32) + 10)
    } else if radix == 16 && 'A' <= c && c <= 'F' {
        Some((c as u32) - ('A' as u32) + 10)
    } else {
        None
    }
}

proof fn lemma_digits_value_grows(s: Seq<char>, radix: nat, k: int)
    requires
        radix >= 1,
        0 <= k <= s.len(),
        digits_value(s, radix) is Some,
    ensures
        digits_value(s.take(k), radix) is Some,
        digits_value(s.take(k), radix)->Some_0 <= digits_value(s, radix)->Some_0,
    decreases s.len(),
{
    if k < s.len() {
        assert(s.drop_last().take(k) =~= s.take(k));
        lemma_digits_value_grows(s.drop_last(), radix, k);
        let v = digits_value(s.drop_last(), radix)->Some_0;
        let d = digit_value(s.last(), radix)->Some_0;
        assert(v <= v * radix + d) by (nonlinear_arith)
            requires
                radix >= 1,
        ;
    } else {
        assert(s.take(k) =~= s);
    }
}

/// Reads the unsigned number that the characters of `s` from position
/// `start` on write in base `radix`, as `usize::from_str_radix` does.
pub fn parse_unsigned(s: &str, start: usize, radix: u32) -> (r: Option<usize>)
    requires
        radix == 10 || radix == 16,
        start <= s@.len(),
    ensures
        r == unsigned_value(s@.skip(start as int), radix as nat),
{
    let ghost t = s@.skip(start as int);
    let n = s.unicode_len();
    let mut i = start;
    if i < n && s.get_char(i) == '+' {
        i = i + 1;
    }
    let ghost body = if t.len() > 0 && t[0] == '+' {
        t.drop_first()
    } else {
        t
    };
    assert(body =~= s@.skip(i as int));
    if i == n {
        return None;
    }
    let mut v: usize = 0;
    let first = i;
    while i < n
        invariant
            n == s@.len(),
            first <= i <= n,
            first < n,
            body == s@.skip(first as int),
            t == s@.skip(start as int),
            body == (if t.len() > 0 && t[0] == '+' {
                t.drop_first()
            } else {
                t
            }),
            radix == 10 || radix == 16,
            digits_value(body.take(i - first), radix as nat) == Some(v as nat),
        decreases n - i,
    {
        let c = s.get_char(i);
        let d = match digit_of(c, radix) {
            Some(d) => d,
            None => {
                proof {
                    assert(body.take(i - first + 1).drop_last() =~= body.take(i - first));
                    assert(body.take(i - first + 1).last() == c);
                    if digits_value(body, radix as nat) is Some {
                        lemma_digits_value_grows(body, radix as nat, i - first + 1);
                    }
                }
                return None;
            },
        };
        proof {
            assert(body.take(i - first + 1).drop_last() =~= body.take(i - first));
            assert(body.take(i - first + 1).last() == c);
        }
        assert((v as u128) * (radix as u128) <= 0xffff_ffff_ffff_ffffu128 * 16) by (nonlinear_arith)
            requires
                v <= usize::MAX,
                usize::MAX <= 0xffff_ffff_ffff_ffffu128,
                radix <= 16,
        ;
        let next = (v as u128) * (radix as u128) + (d as u128);
        if next > usize::MAX as u128 {
            proof {
                if digits_value(body, radix as nat) is Some {
                    lemma_digits_value_grows(body, radix as nat, i - first + 1);
                }
            }
            return None;
        }
        v = next as usize;
        i = i + 1;
    }
    assert(body.take(n - first) =~= body);
    Some(v)
}

} // verus!
