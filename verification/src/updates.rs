//! The text of the page-ordering puzzle: rules `before|after`, one on a
//! line, and updates, each a line of pages with commas between them.

use crate::number::{
    find_byte, index_of_byte, numbers_from, parse_numbers, parse_u32_range, parsed_u32,
};
use crate::ordering::{
    interned, is_sorted_by, sort_by, OrderingError, OrderingTable, Relation,
};
use vstd::prelude::*;

verus! {

/// Why a line of the puzzle text cannot be read.
#[derive(Clone, Copy, PartialEq, Eq, Structural, Debug)]
pub enum ParseError {
    /// A rule without a `|`.
    MissingSeparator,
    /// A page that is not a 32-bit unsigned number.
    BadPage,
}

/// Reads a page number.
pub fn parse_page(s: &[u8]) -> (r: Option<u32>)
    ensures
        r == parsed_u32(s@),
{
    assert(s@.subrange(0, s@.len() as int) =~= s@);
    parse_u32_range(s, 0, s.len())
}

/// The two pages of the rule on `line`: what stands before the first `|`,
/// and what stands behind it.
pub open spec fn rule_of(line: Seq<u8>) -> Result<(u32, u32), ParseError> {
    let bar = index_of_byte(line, 0x7c, 0);
    if bar >= line.len() {
        Err(ParseError::MissingSeparator)
    } else {
        match parsed_u32(line.subrange(0, bar)) {
            None => Err(ParseError::BadPage),
            Some(before) => match parsed_u32(line.subrange(bar + 1, line.len() as int)) {
                None => Err(ParseError::BadPage),
                Some(after) => Ok((before, after)),
            },
        }
    }
}

/// Reads the rule on `line` and records it in the table. A line that
/// cannot be read leaves the table as it was.
pub fn parse_ordering_rule(ordering_table: &mut OrderingTable, line: &[u8]) -> (r: Result<
    (),
    ParseError,
>)
    requires
        old(ordering_table).wf(),
    ensures
        final(ordering_table).wf(),
        match rule_of(line@) {
            Ok((before, after)) => {
                &&& r is Ok
                &&& final(ordering_table).values() == interned(
                    interned(old(ordering_table).values(), before),
                    after,
                )
                &&& forall|v: u32|
                    final(ordering_table).knows(v) <==> (old(ordering_table).knows(v) || v
                        == before || v == after)
                &&& forall|a: u32, b: u32|
                    final(ordering_table).relation(a, b) == old(
                        ordering_table,
                    ).relation_with_rule(before, after, a, b)
            },
            Err(e) => r == Err::<(), ParseError>(e) && *final(ordering_table) == *old(
                ordering_table,
            ),
        },
{
    let bar = find_byte(line, 0x7c, 0);
    if bar >= line.len() {
        return Err(ParseError::MissingSeparator);
    }
    let before = match parse_u32_range(line, 0, bar) {
        Some(v) => v,
        None => {
            return Err(ParseError::BadPage);
        },
    };
    let after = match parse_u32_range(line, bar + 1, line.len()) {
        Some(v) => v,
        None => {
            return Err(ParseError::BadPage);
        },
    };
    ordering_table.insert_ordering(before, after);
    Ok(())
}

/// The pages of the update on `line`: the fields between the commas, each
/// a page number.
pub open spec fn pages_of(line: Seq<u8>) -> Option<Seq<u32>> {
    numbers_from(line, 0x2c, 0)
}

/// Reads the update on `line` and appends it to `pages`. A line that cannot
/// be read leaves `pages` as it was.
pub fn parse_updates(pages: &mut Vec<Vec<u32>>, line: &[u8]) -> (r: Result<(), ParseError>)
    ensures
        match pages_of(line@) {
            Some(update) => {
                &&& r is Ok
                &&& final(pages)@.len() == old(pages)@.len() + 1
                &&& final(pages)@.drop_last() == old(pages)@
                &&& final(pages)@.last()@ == update
            },
            None => r == Err::<(), ParseError>(ParseError::BadPage) && *final(pages) == *old(
                pages,
            ),
        },
{
    match parse_numbers(line, 0x2c) {
        None => Err(ParseError::BadPage),
        Some(update) => {
            let ghost all = pages@;
            pages.push(update);
            assert(pages@.drop_last() =~= all);
            Ok(())
        },
    }
}

/// The page in the middle of an update; of an even number of pages, the
/// first of the second half. An empty update has none.
pub fn middle_page(update: &Vec<u32>) -> (r: Option<u32>)
    ensures
        r == (if update@.len() == 0 {
            None
        } else {
            Some(update@[update@.len() as int / 2])
        }),
{
    if update.len() == 0 {
        None
    } else {
        Some(update[update.len() / 2])
    }
}


/// What an update counts for.
#[derive(Clone, Copy, PartialEq, Eq, Structural, Debug)]
pub enum Checked {
    /// The update was in order; its middle page.
    Correct(u32),
    /// The update was not in order and has been sorted; its middle page
    /// after that.
    Repaired(u32),
}

/// Why an update cannot be checked.
#[derive(Clone, Copy, PartialEq, Eq, Structural, Debug)]
pub enum UpdateError {
    /// The update has no page, so none in the middle.
    Empty,
    /// No rule mentions the page.
    UnknownPage(u32),
}

/// The page that makes the check of `s` fail: at the first pair of
/// neighbours that is not in order, the first page that the table does not
/// know; if it knows both, the first page of `s` that it does not know.
pub open spec fn offending_page(table: &OrderingTable, s: Seq<u32>, page: u32) -> bool {
    exists|k: int|
        table.first_break(s, k) && (if !table.knows(s[k]) {
            page == s[k]
        } else if !table.knows(s[k + 1]) {
            page == s[k + 1]
        } else {
            exists|j: int| table.first_unknown(s, j) && page == s[j]
        })
}

/// Checks an update against the rules, sorts it if it is not in order, and
/// gives its middle page. An update that is in order is left as it is.
pub fn check_update(update: &mut Vec<u32>, table: &OrderingTable) -> (r: Result<
    Checked,
    UpdateError,
>)
    requires
        table.wf(),
    ensures
        final(update)@.to_multiset() == old(update)@.to_multiset(),
        final(update)@.len() == old(update)@.len(),
        match r {
            Ok(Checked::Correct(page)) => {
                &&& table.sorted(old(update)@)
                &&& old(update)@.len() > 0
                &&& final(update)@ == old(update)@
                &&& page == old(update)@[old(update)@.len() as int / 2]
            },
            Ok(Checked::Repaired(page)) => {
                &&& !table.sorted(old(update)@)
                &&& table.knows_all(old(update)@)
                &&& final(update)@ == table.sorted_form(old(update)@)
                &&& table.comparable(old(update)@) ==> table.sorted(final(update)@)
                &&& page == final(update)@[old(update)@.len() as int / 2]
            },
            Err(UpdateError::Empty) => old(update)@.len() == 0,
            Err(UpdateError::UnknownPage(page)) => {
                &&& !table.sorted(old(update)@)
                &&& !table.knows_all(old(update)@)
                &&& final(update)@ == old(update)@
                &&& offending_page(table, old(update)@, page)
            },
        },
{
    let ghost s = update@;
    match is_sorted_by(update, table) {
        Ok(true) => match middle_page(update) {
            Some(page) => Ok(Checked::Correct(page)),
            None => Err(UpdateError::Empty),
        },
        Ok(false) => {
            let ghost k = choose|k: int|
                table.first_break(s, k) && table.knows(s[k]) && table.knows(s[k + 1]);
            assert(!table.ascends_at(s, k));
            match sort_by(update, table) {
                Ok(()) => match middle_page(update) {
                    Some(page) => Ok(Checked::Repaired(page)),
                    None => Err(UpdateError::Empty),
                },
                Err(OrderingError::UnknownValue(page)) => {
                    assert(offending_page(table, s, page));
                    Err(UpdateError::UnknownPage(page))
                },
                // Sorting fails on unknown pages only.
                Err(OrderingError::Unrelated(page, _)) => Err(UpdateError::UnknownPage(page)),
            }
        },
        Err(OrderingError::UnknownValue(page)) => {
            let ghost k = choose|k: int|
                table.first_break(s, k) && (if !table.knows(s[k]) {
                    OrderingError::UnknownValue(page) == OrderingError::UnknownValue(s[k])
                } else {
                    !table.knows(s[k + 1]) && OrderingError::UnknownValue(page)
                        == OrderingError::UnknownValue(s[k + 1])
                });
            assert(!table.ascends_at(s, k));
            assert(!table.knows(s[k]) || !table.knows(s[k + 1]));
            assert(offending_page(table, s, page));
            Err(UpdateError::UnknownPage(page))
        },
        // The check fails on unknown pages only.
        Err(OrderingError::Unrelated(page, _)) => Err(UpdateError::UnknownPage(page)),
    }
}


/// A line of the puzzle text that cannot be read.
#[derive(Clone, Copy, PartialEq, Eq, Structural, Debug)]
pub struct InputError {
    /// Position of the line, from 0.
    pub line: usize,
    pub error: ParseError,
}

/// What the first `n` lines of the puzzle text hold: whether the rules are
/// still going on, the rules, and the updates; or the first line that
/// cannot be read. The rules end at the first empty line; empty lines hold
/// nothing.
pub open spec fn read_lines(lines: Seq<Vec<u8>>, n: nat) -> Result<
    (bool, Seq<(u32, u32)>, Seq<Seq<u32>>),
    InputError,
>
    decreases n,
{
    if n == 0 {
        Ok((true, Seq::empty(), Seq::empty()))
    } else {
        match read_lines(lines, (n - 1) as nat) {
            Err(e) => Err(e),
            Ok((in_rules, rules, updates)) => {
                let line = lines[n - 1]@;
                if line.len() == 0 {
                    Ok((false, rules, updates))
                } else if in_rules {
                    match rule_of(line) {
                        Ok(rule) => Ok((true, rules.push(rule), updates)),
                        Err(e) => Err(InputError { line: (n - 1) as usize, error: e }),
                    }
                } else {
                    match pages_of(line) {
                        Some(update) => Ok((false, rules, updates.push(update))),
                        None => Err(
                            InputError { line: (n - 1) as usize, error: ParseError::BadPage },
                        ),
                    }
                }
            },
        }
    }
}

/// A line that cannot be read stays the outcome, whatever follows.
pub proof fn lemma_read_lines_fault(lines: Seq<Vec<u8>>, k: int, n: int)
    requires
        0 <= k <= n,
        read_lines(lines, k as nat) is Err,
    ensures
        read_lines(lines, n as nat) == read_lines(lines, k as nat),
    decreases n - k,
{
    if k < n {
        lemma_read_lines_fault(lines, k, n - 1);
    }
}

/// What a table records of `a` against `b` after the rules, recorded in
/// their order.
pub open spec fn relation_after(rules: Seq<(u32, u32)>, a: u32, b: u32) -> Relation
    decreases rules.len(),
{
    if rules.len() == 0 {
        Relation::Unrelated
    } else if a == rules.last().1 && b == rules.last().0 {
        Relation::Greater
    } else if a == rules.last().0 && b == rules.last().1 {
        Relation::Less
    } else {
        relation_after(rules.drop_last(), a, b)
    }
}

/// The values that a table knows after the rules, in the order in which the
/// rules name them first.
pub open spec fn values_after(rules: Seq<(u32, u32)>) -> Seq<u32>
    decreases rules.len(),
{
    if rules.len() == 0 {
        Seq::empty()
    } else {
        interned(interned(values_after(rules.drop_last()), rules.last().0), rules.last().1)
    }
}

/// Reads the puzzle text, line by line: the rules up to the first empty
/// line into a table, then the updates. Stops at the first line that cannot
/// be read.
pub fn parse_input(lines: &Vec<Vec<u8>>) -> (r: Result<(OrderingTable, Vec<Vec<u32>>), InputError>)
    ensures
        match read_lines(lines@, lines@.len()) {
            Err(e) => r matches Err(fault) && fault == e,
            Ok((_, rules, updates)) => {
                &&& r matches Ok((table, list))
                &&& table.wf()
                &&& table.values() == values_after(rules)
                &&& forall|a: u32, b: u32| table.relation(a, b) == relation_after(rules, a, b)
                &&& list@.len() == updates.len()
                &&& forall|k: int| 0 <= k < list@.len() ==> (#[trigger] list@[k])@ == updates[k]
            },
        },
{
    let mut ordering_table = OrderingTable::new();
    let mut updates: Vec<Vec<u32>> = Vec::new();
    let mut ordering_rules = true;
    let ghost mut rules: Seq<(u32, u32)> = Seq::empty();
    let ghost mut read: Seq<Seq<u32>> = Seq::empty();
    let n = lines.len();
    let mut i: usize = 0;
    while i < n
        invariant
            n == lines@.len(),
            i <= n,
            read_lines(lines@, i as nat) == Ok::<
                (bool, Seq<(u32, u32)>, Seq<Seq<u32>>),
                InputError,
            >((ordering_rules, rules, read)),
            ordering_table.wf(),
            ordering_table.values() == values_after(rules),
            forall|a: u32, b: u32| ordering_table.relation(a, b) == relation_after(rules, a, b),
            updates@.len() == read.len(),
            forall|k: int| 0 <= k < updates@.len() ==> (#[trigger] updates@[k])@ == read[k],
        decreases n - i,
    {
        let line = lines[i].as_slice();
        if line.len() == 0 {
            ordering_rules = false;
        } else if ordering_rules {
            match parse_ordering_rule(&mut ordering_table, line) {
                Ok(()) => {
                    proof {
                        let rule = rule_of(line@)->Ok_0;
                        let ghost longer = rules.push(rule);
                        assert(longer.drop_last() =~= rules);
                        rules = longer;
                    }
                },
                Err(e) => {
                    proof {
                        lemma_read_lines_fault(lines@, i + 1, n as int);
                    }
                    return Err(InputError { line: i, error: e });
                },
            }
        } else {
            let ghost before = updates@;
            match parse_updates(&mut updates, line) {
                Ok(()) => {
                    proof {
                        assert(updates@.drop_last() == before);
                        assert forall|k: int| 0 <= k < updates@.len() implies (
                        #[trigger] updates@[k])@ == read.push(pages_of(line@)->Some_0)[k] by {
                            if k < before.len() {
                                assert(updates@[k] == updates@.drop_last()[k]);
                            }
                        }
                        read = read.push(pages_of(line@)->Some_0);
                    }
                },
                Err(e) => {
                    proof {
                        lemma_read_lines_fault(lines@, i + 1, n as int);
                    }
                    return Err(InputError { line: i, error: e });
                },
            }
        }
        i = i + 1;
    }
    Ok((ordering_table, updates))
}

} // verus!
