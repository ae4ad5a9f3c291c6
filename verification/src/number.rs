//! Unsigned decimal numbers in ASCII text: an optional `+`, then digits
//! only, at least one.

use vstd::prelude::*;

verus! {

/// The byte is one of the ASCII digits.
pub open spec fn is_digit(b: u8) -> bool {
    0x30 <= b <= 0x39
}

/// Every byte of `s` is a digit.
pub open spec fn all_digits(s: Seq<u8>) -> bool {
    forall|i: int| 0 <= i < s.len() ==> is_digit(#[trigger] s[i])
}

/// The number that a string of digits denotes; the empty string denotes 0.
pub open spec fn decimal(s: Seq<u8>) -> nat
    decreases s.len(),
{
    if s.len() == 0 {
        0
    } else {
        (10 * decimal(s.drop_last()) + (s.last() - 0x30)) as nat
    }
}

/// The text without its leading `+`, if it has one.
pub open spec fn unsigned_part(s: Seq<u8>) -> Seq<u8> {
    if s.len() > 0 && s[0] == 0x2b {
        s.skip(1)
    } else {
        s
    }
}

/// The number that the text denotes, if it is a number that fits into 32
/// bits.
pub open spec fn parsed_u32(s: Seq<u8>) -> Option<u32> {
    let d = unsigned_part(s);
    if d.len() > 0 && all_digits(d) && decimal(d) <= u32::MAX {
        Some(decimal(d) as u32)
    } else {
        None
    }
}

/// A string of digits denotes at least as much as each of its prefixes.
pub proof fn lemma_decimal_prefix(s: Seq<u8>, k: int)
    requires
        0 <= k <= s.len(),
        all_digits(s),
    ensures
        decimal(s.take(k)) <= decimal(s),
    decreases s.len(),
{
    if k == s.len() {
        assert(s.take(k) =~= s);
    } else {
        assert(s.drop_last().take(k) =~= s.take(k));
        assert(is_digit(s.last()));
        lemma_decimal_prefix(s.drop_last(), k);
    }
}

/// Reads the number that the bytes of `s` from `lo` up to `hi` denote.
pub fn parse_u32_range(s: &[u8], lo: usize, hi: usize) -> (r: Option<u32>)
    requires
        lo <= hi <= s@.len(),
    ensures
        r == parsed_u32(s@.subrange(lo as int, hi as int)),
{
    let ghost text = s@.subrange(lo as int, hi as int);
    let mut i: usize = lo;
    if lo < hi && s[lo] == 0x2b {
        i = lo + 1;
    }
    let ghost d = unsigned_part(text);
    assert(d =~= s@.subrange(i as int, hi as int));
    if i == hi {
        return None;
    }
    let start = i;
    let mut acc: u32 = 0;
    assert(d.take(0) =~= Seq::<u8>::empty());
    while i < hi
        invariant
            lo <= start <= i <= hi <= s@.len(),
            d == s@.subrange(start as int, hi as int),
            d == unsigned_part(s@.subrange(lo as int, hi as int)),
            all_digits(d.take(i - start)),
            acc == decimal(d.take(i - start)),
        decreases hi - i,
    {
        let b = s[i];
        if b < 0x30 || b > 0x39 {
            assert(!is_digit(d[i - start]));
            return None;
        }
        let digit: u32 = (b - 0x30) as u32;
        proof {
            assert(d.take(i - start + 1).drop_last() =~= d.take(i - start));
            assert(d.take(i - start + 1).last() == b);
            assert forall|k: int| 0 <= k < i - start + 1 implies is_digit(
                #[trigger] d.take(i - start + 1)[k],
            ) by {
                if k < i - start {
                    assert(d.take(i - start + 1)[k] == d.take(i - start)[k]);
                }
            }
        }
        if acc > (u32::MAX - digit) / 10 {
            proof {
                if all_digits(d) {
                    lemma_decimal_prefix(d, i - start + 1);
                }
            }
            return None;
        }
        acc = acc * 10 + digit;
        i = i + 1;
    }
    assert(d.take(i - start) =~= d);
    Some(acc)
}

/// The position of the first byte from `from` on that is not a digit: the
/// length of `s` where only digits follow.
pub open spec fn digits_end(s: Seq<u8>, from: int) -> int
    decreases s.len() - from,
{
    if from < 0 || from >= s.len() || !is_digit(s[from]) {
        from
    } else {
        digits_end(s, from + 1)
    }
}

/// Skips the digits of `s` from `from` on.
pub fn skip_digits(s: &[u8], from: usize) -> (r: usize)
    requires
        from <= s@.len(),
    ensures
        r == digits_end(s@, from as int),
        from <= r <= s@.len(),
{
    let mut i: usize = from;
    while i < s.len() && s[i] >= 0x30 && s[i] <= 0x39
        invariant
            from <= i <= s@.len(),
            digits_end(s@, from as int) == digits_end(s@, i as int),
        decreases s@.len() - i,
    {
        i = i + 1;
    }
    i
}

/// The position of the first byte `b` in `s` at or after `from`: the length
/// of `s` where there is none.
pub open spec fn index_of_byte(s: Seq<u8>, b: u8, from: int) -> int
    decreases s.len() - from,
{
    if from < 0 || from >= s.len() || s[from] == b {
        from
    } else {
        index_of_byte(s, b, from + 1)
    }
}

/// Finds the first byte `b` in `s` at or after `from`.
pub fn find_byte(s: &[u8], b: u8, from: usize) -> (r: usize)
    requires
        from <= s@.len(),
    ensures
        r == index_of_byte(s@, b, from as int),
        from <= r <= s@.len(),
{
    let mut i: usize = from;
    while i < s.len() && s[i] != b
        invariant
            from <= i <= s@.len(),
            index_of_byte(s@, b, from as int) == index_of_byte(s@, b, i as int),
        decreases s@.len() - i,
    {
        i = i + 1;
    }
    i
}


/// The numbers that `line` holds from position `from` on: the fields
/// between the separators `sep`, each a number. `None` if one of the fields
/// is no number.
pub open spec fn numbers_from(line: Seq<u8>, sep: u8, from: int) -> Option<Seq<u32>>
    decreases line.len() - from,
{
    let end = index_of_byte(line, sep, from);
    if from < 0 || from > line.len() || end < from {
        None
    } else if end >= line.len() {
        match parsed_u32(line.subrange(from, line.len() as int)) {
            None => None,
            Some(number) => Some(seq![number]),
        }
    } else {
        match parsed_u32(line.subrange(from, end)) {
            None => None,
            Some(number) => match numbers_from(line, sep, end + 1) {
                None => None,
                Some(rest) => Some(seq![number] + rest),
            },
        }
    }
}

/// Reads the numbers on `line`, which the byte `sep` separates.
pub fn parse_numbers(line: &[u8], sep: u8) -> (r: Option<Vec<u32>>)
    ensures
        match r {
            Some(numbers) => numbers_from(line@, sep, 0) == Some(numbers@),
            None => numbers_from(line@, sep, 0) is None,
        },
{
    let n = line.len();
    let mut numbers: Vec<u32> = Vec::new();
    let mut start: usize = 0;
    let mut done = false;
    while !done
        invariant
            n == line@.len(),
            start <= n,
            !done ==> numbers_from(line@, sep, 0) == (match numbers_from(line@, sep, start as int) {
                None => None::<Seq<u32>>,
                Some(rest) => Some(numbers@ + rest),
            }),
            done ==> numbers_from(line@, sep, 0) == Some(numbers@),
        decreases n - start + (if done { 0int } else { 1int }),
    {
        let end = find_byte(line, sep, start);
        match parse_u32_range(line, start, end) {
            None => {
                return None;
            },
            Some(number) => {
                let ghost before = numbers@;
                numbers.push(number);
                if end >= n {
                    assert(before + seq![number] =~= numbers@);
                    done = true;
                } else {
                    proof {
                        match numbers_from(line@, sep, end + 1) {
                            None => {},
                            Some(rest) => {
                                assert(before + (seq![number] + rest) =~= numbers@ + rest);
                            },
                        }
                    }
                    start = end + 1;
                }
            },
        }
    }
    Some(numbers)
}

} // verus!
