//! Reports of levels: a report is safe when its levels all rise or all
//! fall, each step by at least one and at most three.

use crate::number::{numbers_from, parse_numbers};
use vstd::prelude::*;

verus! {

/// The largest step between two neighbouring levels of a safe report.
pub const MAX_DIFF: u32 = 3;

/// The way in which the levels of a report run.
#[derive(Clone, Copy, PartialEq, Eq, Structural, Debug)]
pub enum Trend {
    Rising,
    Falling,
}

/// The step from level `a` to level `b` goes the way of `trend`, by at
/// least one and at most `MAX_DIFF`.
pub open spec fn gentle_step(a: u32, b: u32, trend: Trend) -> bool {
    match trend {
        Trend::Rising => a < b <= a + MAX_DIFF,
        Trend::Falling => b < a <= b + MAX_DIFF,
    }
}

/// The step from position `k` of `s` to the next is a gentle one.
pub open spec fn step_at(s: Seq<u32>, k: int, trend: Trend) -> bool {
    gentle_step(s[k], s[k + 1], trend)
}

/// Every step of `s` is a gentle one in the way of `trend`.
pub open spec fn follows(s: Seq<u32>, trend: Trend) -> bool {
    forall|k: int| 0 <= k < s.len() - 1 ==> #[trigger] step_at(s, k, trend)
}

/// A report is safe if it has a level and all its steps are gentle and go
/// the same way.
pub open spec fn safe(s: Seq<u32>) -> bool {
    s.len() > 0 && (follows(s, Trend::Rising) || follows(s, Trend::Falling))
}

/// A report is safe when damped if taking out one of its levels leaves a
/// safe report.
pub open spec fn safe_damped(s: Seq<u32>) -> bool {
    exists|i: int| 0 <= i < s.len() && safe(#[trigger] s.remove(i))
}

/// Whether the report is safe.
pub fn is_safe_report(report: &[u32]) -> (r: bool)
    ensures
        r == safe(report@),
{
    let n = report.len();
    if n == 0 {
        return false;
    }
    let mut ord: Option<Trend> = None;
    let mut i: usize = 1;
    while i < n
        invariant
            n == report@.len(),
            1 <= i,
            match ord {
                None => i == 1,
                Some(t) => i >= 2 && forall|k: int| 0 <= k < i - 1 ==> #[trigger] step_at(
                    report@,
                    k,
                    t,
                ),
            },
        decreases n - i,
    {
        let first = report[i - 1];
        let second = report[i];
        let ghost k = i - 1;
        if first == second {
            // Not strictly monotonic.
            assert(!step_at(report@, k, Trend::Rising) && !step_at(report@, k, Trend::Falling));
            return false;
        }
        let curr_ord = if first < second {
            Trend::Rising
        } else {
            Trend::Falling
        };
        match ord {
            Some(o) => {
                if o != curr_ord {
                    // Not monotonic.
                    assert(!step_at(report@, k, o));
                    assert(step_at(report@, k - 1, o));
                    assert(!step_at(report@, k - 1, curr_ord));
                    return false;
                }
            },
            None => {
                ord = Some(curr_ord);
            },
        }
        let diff = if first < second {
            second - first
        } else {
            first - second
        };
        if diff > MAX_DIFF {
            assert(!step_at(report@, k, Trend::Rising) && !step_at(report@, k, Trend::Falling));
            return false;
        }
        assert(step_at(report@, k, curr_ord));
        i = i + 1;
    }
    proof {
        match ord {
            None => {
                assert(follows(report@, Trend::Rising));
            },
            Some(t) => {
                assert(follows(report@, t));
            },
        }
    }
    true
}

/// Whether the report is safe once one of its levels is taken out.
pub fn is_safe_damped_report(report: &[u32]) -> (r: bool)
    ensures
        r == safe_damped(report@),
{
    let n = report.len();
    let mut i: usize = 0;
    while i < n
        invariant
            n == report@.len(),
            i <= n,
            forall|k: int| 0 <= k < i ==> !safe(#[trigger] report@.remove(k)),
        decreases n - i,
    {
        let mut buf: Vec<u32> = Vec::new();
        let mut j: usize = 0;
        while j < n
            invariant
                n == report@.len(),
                i < n,
                j <= n,
                buf@ == (if j <= i {
                    report@.take(j as int)
                } else {
                    report@.remove(i as int).take(j - 1)
                }),
            decreases n - j,
        {
            if j != i {
                buf.push(report[j]);
            }
            proof {
                if j < i {
                    assert(report@.take(j as int).push(report@[j as int]) =~= report@.take(j + 1));
                } else if j == i {
                    assert(report@.take(j as int) =~= report@.remove(i as int).take(j as int));
                } else {
                    assert(report@.remove(i as int).take(j - 1).push(report@[j as int])
                        =~= report@.remove(i as int).take(j as int));
                }
            }
            j = j + 1;
        }
        assert(buf@ =~= report@.remove(i as int));
        if is_safe_report(buf.as_slice()) {
            return true;
        }
        i = i + 1;
    }
    false
}


/// Reads a report: its levels with one space between each two.
pub fn parse_report(line: &[u8]) -> (r: Option<Vec<u32>>)
    ensures
        match r {
            Some(report) => numbers_from(line@, 0x20, 0) == Some(report@),
            None => numbers_from(line@, 0x20, 0) is None,
        },
{
    parse_numbers(line, 0x20)
}

/// Number of safe reports among the first `n`.
pub open spec fn safe_before(reports: Seq<Vec<u32>>, n: nat) -> nat
    decreases n,
{
    if n == 0 {
        0
    } else {
        safe_before(reports, (n - 1) as nat) + (if safe(reports[n - 1]@) {
            1nat
        } else {
            0nat
        })
    }
}

/// Number of reports among the first `n` that are safe when damped.
pub open spec fn safe_damped_before(reports: Seq<Vec<u32>>, n: nat) -> nat
    decreases n,
{
    if n == 0 {
        0
    } else {
        safe_damped_before(reports, (n - 1) as nat) + (if safe_damped(reports[n - 1]@) {
            1nat
        } else {
            0nat
        })
    }
}

/// Counts the safe reports.
pub fn count_safe_reports(reports: &Vec<Vec<u32>>) -> (count: usize)
    ensures
        count == safe_before(reports@, reports@.len()),
{
    let mut count: usize = 0;
    let mut i: usize = 0;
    while i < reports.len()
        invariant
            i <= reports@.len(),
            count <= i,
            count == safe_before(reports@, i as nat),
        decreases reports@.len() - i,
    {
        if is_safe_report(reports[i].as_slice()) {
            count = count + 1;
        }
        i = i + 1;
    }
    count
}

/// Counts the reports that are safe when damped.
pub fn count_safe_damped_reports(reports: &Vec<Vec<u32>>) -> (count: usize)
    ensures
        count == safe_damped_before(reports@, reports@.len()),
{
    let mut count: usize = 0;
    let mut i: usize = 0;
    while i < reports.len()
        invariant
            i <= reports@.len(),
            count <= i,
            count == safe_damped_before(reports@, i as nat),
        decreases reports@.len() - i,
    {
        if is_safe_damped_report(reports[i].as_slice()) {
            count = count + 1;
        }
        i = i + 1;
    }
    count
}

} // verus!
