//! Instructions in corrupted program text: `mul(x,y)` multiplies two
//! numbers, `do()` switches the multiplications on and `don't()` switches
//! them off.

use crate::number::{digits_end, parse_u32_range, parsed_u32, skip_digits};
use vstd::prelude::*;
use vstd::slice::slice_subrange;

verus! {

/// The text `do()`.
pub open spec fn do_pattern() -> Seq<u8> {
    seq![0x64u8, 0x6f, 0x28, 0x29]
}

/// The text `don't()`.
pub open spec fn dont_pattern() -> Seq<u8> {
    seq![0x64u8, 0x6f, 0x6e, 0x27, 0x74, 0x28, 0x29]
}

/// The text `mul(`.
pub open spec fn mul_start_pattern() -> Seq<u8> {
    seq![0x6du8, 0x75, 0x6c, 0x28]
}

/// Why text in the shape of a multiplication cannot be carried out.
#[derive(Clone, Copy, PartialEq, Eq, Structural, Debug)]
pub enum MulError {
    /// The first number is missing or does not fit into 32 bits.
    BadMultiplicand,
    /// The second number is missing or does not fit into 32 bits.
    BadMultiplier,
    /// The product does not fit into 32 bits.
    ProductOverflow,
    /// The sum of the products does not fit into 32 bits.
    SumOverflow,
}

/// Whether `s` begins with `pattern`.
pub fn starts_with(s: &[u8], pattern: &[u8]) -> (r: bool)
    ensures
        r == pattern@.is_prefix_of(s@),
{
    if pattern.len() > s.len() {
        return false;
    }
    let mut i: usize = 0;
    while i < pattern.len()
        invariant
            i <= pattern@.len() <= s@.len(),
            forall|k: int| 0 <= k < i ==> pattern@[k] == s@[k],
        decreases pattern@.len() - i,
    {
        if pattern[i] != s[i] {
            assert(s@.subrange(0, pattern@.len() as int)[i as int] != pattern@[i as int]);
            return false;
        }
        i = i + 1;
    }
    assert(pattern@ =~= s@.subrange(0, pattern@.len() as int));
    true
}

/// What a switch at the start of `s` says: on for `do()`, off for
/// `don't()`.
pub open spec fn parsed_do(s: Seq<u8>) -> Option<bool> {
    if do_pattern().is_prefix_of(s) {
        Some(true)
    } else if dont_pattern().is_prefix_of(s) {
        Some(false)
    } else {
        None
    }
}

/// Reads a switch at the start of `s`.
pub fn parse_do(s: &[u8]) -> (r: Option<bool>)
    ensures
        r == parsed_do(s@),
{
    let do_text: [u8; 4] = [0x64, 0x6f, 0x28, 0x29];
    let dont_text: [u8; 7] = [0x64, 0x6f, 0x6e, 0x27, 0x74, 0x28, 0x29];
    assert(do_text@ =~= do_pattern());
    assert(dont_text@ =~= dont_pattern());
    if starts_with(s, do_text.as_slice()) {
        Some(true)
    } else if starts_with(s, dont_text.as_slice()) {
        Some(false)
    } else {
        None
    }
}


/// Where the comma of a multiplication at the start of `s` has to stand:
/// behind the digits that follow `mul(`.
pub open spec fn comma_at(s: Seq<u8>) -> int {
    digits_end(s, 4)
}

/// Where the closing bracket of a multiplication at the start of `s` has to
/// stand: behind the digits that follow the comma.
pub open spec fn close_at(s: Seq<u8>) -> int {
    digits_end(s, comma_at(s) + 1)
}

/// `s` begins with `mul(`, digits, a comma, digits and `)`; either run of
/// digits may be empty.
pub open spec fn mul_shaped(s: Seq<u8>) -> bool {
    &&& mul_start_pattern().is_prefix_of(s)
    &&& comma_at(s) < s.len()
    &&& s[comma_at(s)] == 0x2c
    &&& close_at(s) < s.len()
    &&& s[close_at(s)] == 0x29
}

/// The product of two numbers, if it fits into 32 bits.
pub open spec fn product(x: u32, y: u32) -> Result<Option<u32>, MulError> {
    if x * y > u32::MAX {
        Err(MulError::ProductOverflow)
    } else {
        Ok(Some((x * y) as u32))
    }
}

/// What a multiplication at the start of `s` gives: nothing where `s` has
/// not the shape of one, else the product of its two numbers.
pub open spec fn parsed_mul(s: Seq<u8>) -> Result<Option<u32>, MulError> {
    if !mul_shaped(s) {
        Ok(None)
    } else {
        match parsed_u32(s.subrange(4, comma_at(s))) {
            None => Err(MulError::BadMultiplicand),
            Some(x) => match parsed_u32(s.subrange(comma_at(s) + 1, close_at(s))) {
                None => Err(MulError::BadMultiplier),
                Some(y) => product(x, y),
            },
        }
    }
}

/// Reads a multiplication at the start of `s` and carries it out.
pub fn parse_mul(s: &[u8]) -> (r: Result<Option<u32>, MulError>)
    ensures
        r == parsed_mul(s@),
{
    let mul_text: [u8; 4] = [0x6d, 0x75, 0x6c, 0x28];
    assert(mul_text@ =~= mul_start_pattern());
    if !starts_with(s, mul_text.as_slice()) {
        return Ok(None);
    }
    let comma_idx = skip_digits(s, 4);
    if comma_idx >= s.len() || s[comma_idx] != 0x2c {
        return Ok(None);
    }
    let close_paren_idx = skip_digits(s, comma_idx + 1);
    if close_paren_idx >= s.len() || s[close_paren_idx] != 0x29 {
        return Ok(None);
    }
    let x = match parse_u32_range(s, 4, comma_idx) {
        Some(x) => x,
        None => {
            return Err(MulError::BadMultiplicand);
        },
    };
    let y = match parse_u32_range(s, comma_idx + 1, close_paren_idx) {
        Some(y) => y,
        None => {
            return Err(MulError::BadMultiplier);
        },
    };
    assert(x * y <= u64::MAX) by (nonlinear_arith)
        requires
            x <= u32::MAX,
            y <= u32::MAX,
    ;
    let wide: u64 = (x as u64) * (y as u64);
    if wide > u32::MAX as u64 {
        Err(MulError::ProductOverflow)
    } else {
        Ok(Some(wide as u32))
    }
}

/// The state after one more instruction: `total` with `value` added, if
/// that fits into 32 bits.
pub open spec fn added(total: nat, value: u32) -> Result<nat, MulError> {
    if total + value > u32::MAX {
        Err(MulError::SumOverflow)
    } else {
        Ok((total + value) as nat)
    }
}

/// The sum of the multiplications that start in the first `n` positions of
/// `data`, or the first fault met on the way.
pub open spec fn mul_sum(data: Seq<u8>, n: nat) -> Result<nat, MulError>
    decreases n,
{
    if n == 0 {
        Ok(0)
    } else {
        match mul_sum(data, (n - 1) as nat) {
            Err(e) => Err(e),
            Ok(total) => match parsed_mul(data.skip(n - 1)) {
                Err(e) => Err(e),
                Ok(None) => Ok(total),
                Ok(Some(v)) => added(total, v),
            },
        }
    }
}

/// Whether multiplications count, and the sum of those that counted, after
/// the instructions that start in the first `n` positions of `data`; or the
/// first fault met on the way. At the start they count. A multiplication
/// that does not count is still read, and its faults are faults.
pub open spec fn switched_sum(data: Seq<u8>, n: nat) -> Result<(bool, nat), MulError>
    decreases n,
{
    if n == 0 {
        Ok((true, 0))
    } else {
        match switched_sum(data, (n - 1) as nat) {
            Err(e) => Err(e),
            Ok((enabled, total)) => match parsed_do(data.skip(n - 1)) {
                Some(enable) => Ok((enable, total)),
                None => match parsed_mul(data.skip(n - 1)) {
                    Err(e) => Err(e),
                    Ok(None) => Ok((enabled, total)),
                    Ok(Some(v)) => if enabled {
                        match added(total, v) {
                            Err(e) => Err(e),
                            Ok(t) => Ok((enabled, t)),
                        }
                    } else {
                        Ok((enabled, total))
                    },
                },
            },
        }
    }
}

/// Adds up every multiplication in `data`.
pub fn sum_mul(data: &[u8]) -> (r: Result<u32, MulError>)
    ensures
        match r {
            Ok(total) => mul_sum(data@, data@.len()) == Ok::<nat, MulError>(total as nat),
            Err(e) => mul_sum(data@, data@.len()) == Err::<nat, MulError>(e),
        },
{
    let n = data.len();
    let mut total: u32 = 0;
    let mut i: usize = 0;
    while i < n
        invariant
            n == data@.len(),
            i <= n,
            mul_sum(data@, i as nat) == Ok::<nat, MulError>(total as nat),
        decreases n - i,
    {
        let rest = slice_subrange(data, i, n);
        assert(rest@ =~= data@.skip(i as int));
        match parse_mul(rest) {
            Err(e) => {
                proof {
                    lemma_mul_sum_fault(data@, i + 1, n as int);
                }
                return Err(e);
            },
            Ok(None) => {},
            Ok(Some(v)) => {
                if v > u32::MAX - total {
                    proof {
                        lemma_mul_sum_fault(data@, i + 1, n as int);
                    }
                    return Err(MulError::SumOverflow);
                }
                total = total + v;
            },
        }
        i = i + 1;
    }
    Ok(total)
}

/// A fault stays: once the sum over a prefix is a fault, the sum over every
/// longer prefix is the same fault.
pub proof fn lemma_mul_sum_fault(data: Seq<u8>, k: int, n: int)
    requires
        0 <= k <= n,
        mul_sum(data, k as nat) is Err,
    ensures
        mul_sum(data, n as nat) == mul_sum(data, k as nat),
    decreases n - k,
{
    if k < n {
        lemma_mul_sum_fault(data, k, n - 1);
    }
}

/// The same of the sum with switches.
pub proof fn lemma_switched_sum_fault(data: Seq<u8>, k: int, n: int)
    requires
        0 <= k <= n,
        switched_sum(data, k as nat) is Err,
    ensures
        switched_sum(data, n as nat) == switched_sum(data, k as nat),
    decreases n - k,
{
    if k < n {
        lemma_switched_sum_fault(data, k, n - 1);
    }
}

/// Adds up the multiplications in `data` that count: those that no
/// `don't()` precedes without a `do()` after it.
pub fn sum_enabled_mul(data: &[u8]) -> (r: Result<u32, MulError>)
    ensures
        match r {
            Ok(total) => switched_sum(data@, data@.len()) matches Ok((_, t)) && t == total,
            Err(e) => switched_sum(data@, data@.len()) == Err::<(bool, nat), MulError>(e),
        },
{
    let n = data.len();
    let mut enabled = true;
    let mut total: u32 = 0;
    let mut i: usize = 0;
    while i < n
        invariant
            n == data@.len(),
            i <= n,
            switched_sum(data@, i as nat) == Ok::<(bool, nat), MulError>((enabled, total as nat)),
        decreases n - i,
    {
        let rest = slice_subrange(data, i, n);
        assert(rest@ =~= data@.skip(i as int));
        match parse_do(rest) {
            Some(enable) => {
                enabled = enable;
            },
            None => match parse_mul(rest) {
                Err(e) => {
                    proof {
                        lemma_switched_sum_fault(data@, i + 1, n as int);
                    }
                    return Err(e);
                },
                Ok(None) => {},
                Ok(Some(v)) => {
                    if enabled {
                        if v > u32::MAX - total {
                            proof {
                                lemma_switched_sum_fault(data@, i + 1, n as int);
                            }
                            return Err(MulError::SumOverflow);
                        }
                        total = total + v;
                    }
                },
            },
        }
        i = i + 1;
    }
    Ok(total)
}

} // verus!
