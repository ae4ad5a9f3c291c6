//! Two lists of location numbers, side by side: how far apart they are when
//! paired by rank, and how similar they are.

use crate::number::{parse_u32_range, parsed_u32};
use crate::ordering::lemma_swap_keeps_entries;
use vstd::prelude::*;

verus! {

/// Why a line does not hold a pair of numbers.
#[derive(Clone, Copy, PartialEq, Eq, Structural, Debug)]
pub enum PairError {
    /// No three spaces in a row.
    MissingSeparator,
    /// The text before the separator is no 32-bit unsigned number.
    BadLeft,
    /// The text behind the separator is no 32-bit unsigned number.
    BadRight,
}

/// Three spaces stand at position `i` of `line`.
pub open spec fn gap_at(line: Seq<u8>, i: int) -> bool {
    0 <= i && i + 3 <= line.len() && line[i] == 0x20 && line[i + 1] == 0x20 && line[i + 2] == 0x20
}

/// The first position at or after `from` at which three spaces stand: the
/// length of `line` where there is none.
pub open spec fn first_gap(line: Seq<u8>, from: int) -> int
    decreases line.len() - from,
{
    if from < 0 || from + 3 > line.len() {
        line.len() as int
    } else if gap_at(line, from) {
        from
    } else {
        first_gap(line, from + 1)
    }
}

/// The two numbers on `line`: what stands before the first three spaces,
/// and what stands behind them.
pub open spec fn pair_of(line: Seq<u8>) -> Result<(u32, u32), PairError> {
    let gap = first_gap(line, 0);
    if gap >= line.len() {
        Err(PairError::MissingSeparator)
    } else {
        match parsed_u32(line.subrange(0, gap)) {
            None => Err(PairError::BadLeft),
            Some(left) => match parsed_u32(line.subrange(gap + 3, line.len() as int)) {
                None => Err(PairError::BadRight),
                Some(right) => Ok((left, right)),
            },
        }
    }
}

/// Reads the two numbers on a line.
pub fn parse_pair(line: &[u8]) -> (r: Result<(u32, u32), PairError>)
    ensures
        r == pair_of(line@),
{
    let n = line.len();
    let mut gap: usize = 0;
    while n >= 3 && gap <= n - 3 && !(line[gap] == 0x20 && line[gap + 1] == 0x20 && line[gap + 2]
        == 0x20)
        invariant
            n == line@.len(),
            gap <= n,
            first_gap(line@, 0) == first_gap(line@, gap as int),
        decreases n - gap,
    {
        gap = gap + 1;
    }
    if n < 3 || gap > n - 3 {
        return Err(PairError::MissingSeparator);
    }
    let left = match parse_u32_range(line, 0, gap) {
        Some(v) => v,
        None => {
            return Err(PairError::BadLeft);
        },
    };
    let right = match parse_u32_range(line, gap + 3, n) {
        Some(v) => v,
        None => {
            return Err(PairError::BadRight);
        },
    };
    Ok((left, right))
}

/// No number of `s` is smaller than one before it.
pub open spec fn ascending(s: Seq<u32>) -> bool {
    forall|i: int, j: int| 0 <= i <= j < s.len() ==> s[i] <= s[j]
}

/// Sorts the numbers in ascending order: each in turn moves towards the
/// front, past every greater one.
pub fn sort_ascending(numbers: &mut Vec<u32>)
    ensures
        ascending(final(numbers)@),
        final(numbers)@.to_multiset() == old(numbers)@.to_multiset(),
{
    let n = numbers.len();
    let mut i: usize = 1;
    while i < n
        invariant
            n == numbers@.len(),
            1 <= i,
            numbers@.to_multiset() == old(numbers)@.to_multiset(),
            forall|p: int, q: int| 0 <= p <= q < i && q < n ==> numbers@[p] <= numbers@[q],
        decreases n - i,
    {
        let mut j: usize = i;
        while j > 0 && numbers[j - 1] > numbers[j]
            invariant
                n == numbers@.len(),
                j <= i < n,
                numbers@.to_multiset() == old(numbers)@.to_multiset(),
                forall|p: int, q: int|
                    0 <= p <= q <= i && p != j && q != j ==> numbers@[p] <= numbers@[q],
                forall|q: int| j < q <= i ==> numbers@[j as int] <= numbers@[q],
            decreases j,
        {
            let a = numbers[j - 1];
            let b = numbers[j];
            let ghost before = numbers@;
            numbers[j - 1] = b;
            numbers[j] = a;
            proof {
                lemma_swap_keeps_entries(before, j - 1, j as int);
                assert(numbers@ =~= before.update(j - 1, before[j as int]).update(
                    j as int,
                    before[j - 1],
                ));
            }
            j = j - 1;
        }
        i = i + 1;
    }
}

/// How far apart two numbers are.
pub open spec fn distance(a: u32, b: u32) -> nat {
    if a <= b {
        (b - a) as nat
    } else {
        (a - b) as nat
    }
}

/// The sum of the distances between the numbers at the same position of
/// the two lists, over the first `n` positions.
pub open spec fn distance_sum(left: Seq<u32>, right: Seq<u32>, n: nat) -> nat
    decreases n,
{
    if n == 0 {
        0
    } else {
        distance_sum(left, right, (n - 1) as nat) + distance(left[n - 1], right[n - 1])
    }
}

/// The sum grows with the number of positions.
pub proof fn lemma_distance_sum_grows(left: Seq<u32>, right: Seq<u32>, k: nat, n: nat)
    requires
        k <= n,
    ensures
        distance_sum(left, right, k) <= distance_sum(left, right, n),
    decreases n - k,
{
    if k < n {
        lemma_distance_sum_grows(left, right, k, (n - 1) as nat);
    }
}

/// The length of the shorter of two lists.
pub open spec fn shorter(left: Seq<u32>, right: Seq<u32>) -> nat {
    if left.len() <= right.len() {
        left.len()
    } else {
        right.len()
    }
}

/// Sorts both lists and adds up the distances between the numbers of equal
/// rank: smallest to smallest, and so on, as far as the shorter list goes.
/// `None` if the sum does not fit into 32 bits.
pub fn total_distance(left: &mut Vec<u32>, right: &mut Vec<u32>) -> (r: Option<u32>)
    ensures
        ascending(final(left)@),
        ascending(final(right)@),
        final(left)@.to_multiset() == old(left)@.to_multiset(),
        final(right)@.to_multiset() == old(right)@.to_multiset(),
        ({
            let total = distance_sum(
                final(left)@,
                final(right)@,
                shorter(final(left)@, final(right)@),
            );
            r == (if total <= u32::MAX {
                Some(total as u32)
            } else {
                None
            })
        }),
{
    sort_ascending(left);
    sort_ascending(right);
    let n = if left.len() <= right.len() {
        left.len()
    } else {
        right.len()
    };
    let mut total: u32 = 0;
    let mut i: usize = 0;
    while i < n
        invariant
            n == shorter(left@, right@),
            i <= n,
            ascending(left@),
            ascending(right@),
            left@.to_multiset() == old(left)@.to_multiset(),
            right@.to_multiset() == old(right)@.to_multiset(),
            total == distance_sum(left@, right@, i as nat),
        decreases n - i,
    {
        let a = left[i];
        let b = right[i];
        let d = if a <= b {
            b - a
        } else {
            a - b
        };
        if d > u32::MAX - total {
            proof {
                lemma_distance_sum_grows(left@, right@, (i + 1) as nat, n as nat);
            }
            return None;
        }
        total = total + d;
        i = i + 1;
    }
    Some(total)
}

/// How often `value` occurs among the first `n` numbers of `s`.
pub open spec fn occurrences(s: Seq<u32>, value: u32, n: nat) -> nat
    decreases n,
{
    if n == 0 {
        0
    } else {
        occurrences(s, value, (n - 1) as nat) + (if s[n - 1] == value {
            1nat
        } else {
            0nat
        })
    }
}

/// The sum, over the first `n` numbers of `left`, of the number times how
/// often it occurs in `right`.
pub open spec fn similarity(left: Seq<u32>, right: Seq<u32>, n: nat) -> nat
    decreases n,
{
    if n == 0 {
        0
    } else {
        (similarity(left, right, (n - 1) as nat) + left[n - 1] * occurrences(
            right,
            left[n - 1],
            right.len(),
        )) as nat
    }
}

/// The sum grows with the number of positions.
pub proof fn lemma_similarity_grows(left: Seq<u32>, right: Seq<u32>, k: nat, n: nat)
    requires
        k <= n,
    ensures
        similarity(left, right, k) <= similarity(left, right, n),
    decreases n - k,
{
    if k < n {
        lemma_similarity_grows(left, right, k, (n - 1) as nat);
        assert(left[n - 1] * occurrences(right, left[n - 1], right.len()) >= 0)
            by (nonlinear_arith);
    }
}

/// Counts how often `value` occurs in `numbers`.
pub fn count_occurrences(numbers: &Vec<u32>, value: u32) -> (count: usize)
    ensures
        count == occurrences(numbers@, value, numbers@.len()),
{
    let mut count: usize = 0;
    let mut i: usize = 0;
    while i < numbers.len()
        invariant
            i <= numbers@.len(),
            count <= i,
            count == occurrences(numbers@, value, i as nat),
        decreases numbers@.len() - i,
    {
        if numbers[i] == value {
            count = count + 1;
        }
        i = i + 1;
    }
    count
}

/// Adds up each number of `left` times how often it occurs in `right`.
/// `None` if the sum does not fit into 32 bits.
pub fn similarity_score(left: &Vec<u32>, right: &Vec<u32>) -> (r: Option<u32>)
    ensures
        r == (if similarity(left@, right@, left@.len()) <= u32::MAX {
            Some(similarity(left@, right@, left@.len()) as u32)
        } else {
            None
        }),
{
    let mut total: u32 = 0;
    let mut i: usize = 0;
    while i < left.len()
        invariant
            i <= left@.len(),
            total == similarity(left@, right@, i as nat),
        decreases left@.len() - i,
    {
        let value = left[i];
        let count = count_occurrences(right, value);
        let ghost term = value * count;
        proof {
            lemma_similarity_grows(left@, right@, (i + 1) as nat, left@.len());
            assert(term >= 0) by (nonlinear_arith)
                requires
                    term == value * count,
            ;
        }
        if value != 0 && count != 0 {
            if count > (u32::MAX - total) as usize / (value as usize) {
                assert(term > u32::MAX - total) by (nonlinear_arith)
                    requires
                        term == value * count,
                        value > 0,
                        count > (u32::MAX - total) / (value as int),
                ;
                return None;
            }
            assert(term <= u32::MAX - total) by (nonlinear_arith)
                requires
                    term == value * count,
                    value > 0,
                    count <= (u32::MAX - total) / (value as int),
            ;
            total = total + value * (count as u32);
        } else {
            assert(term == 0) by (nonlinear_arith)
                requires
                    term == value * count,
                    value == 0 || count == 0,
            ;
        }
        i = i + 1;
    }
    Some(total)
}

} // verus!
