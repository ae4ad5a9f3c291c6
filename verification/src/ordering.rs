//! A table of pairwise precedence rules between page numbers, and its use
//! as a comparator to check and to sort sequences of pages.

use std::cmp::Ordering;
use vstd::prelude::*;

verus! {

/// What the table records of an ordered pair of values.
#[derive(Clone, Copy, PartialEq, Eq, Structural, Debug)]
pub enum Relation {
    /// The first value comes before the second.
    Less,
    /// The first value comes after the second.
    Greater,
    /// No rule names the two values together.
    Unrelated,
}

/// Why the table cannot answer a query.
#[derive(Clone, Copy, PartialEq, Eq, Structural, Debug)]
pub enum OrderingError {
    /// No rule mentions the value.
    UnknownValue(u32),
    /// No rule names the two values together.
    Unrelated(u32, u32),
}

/// A square matrix of relations over the values seen so far. Each value is
/// given the next free index when it is first seen; row `i` and column `i`
/// belong to the value with index `i`.
pub struct OrderingTable {
    cols: Vec<u32>,
    rows: Vec<Vec<Relation>>,
}

impl Relation {
    /// The relation of the same pair taken the other way round.
    pub open spec fn inverse(self) -> Relation {
        match self {
            Relation::Less => Relation::Greater,
            Relation::Greater => Relation::Less,
            Relation::Unrelated => Relation::Unrelated,
        }
    }
}

/// The values `s` with `v` behind them, unless `v` is among them already.
pub open spec fn interned(s: Seq<u32>, v: u32) -> Seq<u32> {
    if s.contains(v) {
        s
    } else {
        s.push(v)
    }
}

impl OrderingTable {
    /// The values seen so far, each at its index.
    pub closed spec fn values(&self) -> Seq<u32> {
        self.cols@
    }

    /// The entry in row `i`, column `j` of the matrix.
    pub closed spec fn cell(&self, i: int, j: int) -> Relation {
        self.rows@[i]@[j]
    }

    /// No value has two indices, the matrix is square with one row and one
    /// column for each value, and the entries of two different values taken
    /// both ways round are inverse to each other.
    pub closed spec fn wf(&self) -> bool {
        &&& self.cols@.no_duplicates()
        &&& self.rows@.len() == self.cols@.len()
        &&& forall|i: int|
            0 <= i < self.rows@.len() ==> (#[trigger] self.rows@[i])@.len() == self.cols@.len()
        &&& forall|i: int, j: int|
            0 <= i < self.cols@.len() && 0 <= j < self.cols@.len() && i != j ==> #[trigger] self.cell(
                i,
                j,
            ) == self.cell(j, i).inverse()
    }

    /// Some rule mentions `v`.
    pub open spec fn knows(&self, v: u32) -> bool {
        self.values().contains(v)
    }

    /// The index of a known value.
    pub open spec fn index_of(&self, v: u32) -> int {
        choose|i: int| 0 <= i < self.values().len() && self.values()[i] == v
    }

    /// What the table records of `a` against `b`; of a value that it does
    /// not know, nothing.
    pub open spec fn relation(&self, a: u32, b: u32) -> Relation {
        if self.knows(a) && self.knows(b) {
            self.cell(self.index_of(a), self.index_of(b))
        } else {
            Relation::Unrelated
        }
    }

    /// The table records that `a` comes before `b`.
    pub open spec fn less(&self, a: u32, b: u32) -> bool {
        self.relation(a, b) == Relation::Less
    }

    /// The relation of two values is the matrix entry at their indices.
    proof fn lemma_relation_at(&self, i: int, j: int)
        requires
            self.cols@.no_duplicates(),
            0 <= i < self.cols@.len(),
            0 <= j < self.cols@.len(),
        ensures
            self.knows(self.cols@[i]),
            self.knows(self.cols@[j]),
            self.index_of(self.cols@[i]) == i,
            self.index_of(self.cols@[j]) == j,
            self.relation(self.cols@[i], self.cols@[j]) == self.cell(i, j),
    {
    }

    /// A known value has an index in range.
    proof fn lemma_index_of(&self, v: u32)
        requires
            self.knows(v),
        ensures
            0 <= self.index_of(v) < self.cols@.len(),
            self.cols@[self.index_of(v)] == v,
    {
    }

    /// An empty table: it knows no value.
    pub fn new() -> (t: OrderingTable)
        ensures
            t.wf(),
            t.values() == Seq::<u32>::empty(),
            forall|v: u32| !t.knows(v),
            forall|a: u32, b: u32| t.relation(a, b) == Relation::Unrelated,
    {
        let t = OrderingTable { cols: Vec::new(), rows: Vec::new() };
        assert(t.cols@ =~= Seq::<u32>::empty());
        t
    }

    /// The index of `value`, if the table knows it.
    pub fn get_col_idx(&self, value: u32) -> (r: Option<usize>)
        ensures
            match r {
                Some(i) => i < self.values().len() && self.values()[i as int] == value,
                None => !self.knows(value),
            },
    {
        let mut i: usize = 0;
        while i < self.cols.len()
            invariant
                i <= self.cols@.len(),
                forall|k: int| 0 <= k < i ==> self.cols@[k] != value,
            decreases self.cols@.len() - i,
        {
            if self.cols[i] == value {
                return Some(i);
            }
            i = i + 1;
        }
        None
    }

    /// The index of `value`. A value that the table does not know yet gets
    /// the next free index, and a row and a column of unrelated entries.
    pub fn get_or_insert_col_idx(&mut self, value: u32) -> (r: usize)
        requires
            old(self).wf(),
        ensures
            final(self).wf(),
            r < final(self).values().len(),
            final(self).values()[r as int] == value,
            final(self).values() == interned(old(self).values(), value),
            forall|a: u32, b: u32| final(self).relation(a, b) == old(self).relation(a, b),
    {
        match self.get_col_idx(value) {
            Some(i) => i,
            None => {
                let idx = self.cols.len();
                let ghost before = *self;
                self.cols.push(value);
                let mut i: usize = 0;
                while i < idx
                    invariant
                        i <= idx,
                        idx == before.cols@.len(),
                        before.wf(),
                        self.cols@ == before.cols@.push(value),
                        self.rows@.len() == idx,
                        forall|k: int|
                            0 <= k < i ==> (#[trigger] self.rows@[k])@ == before.rows@[k]@.push(
                                Relation::Unrelated,
                            ),
                        forall|k: int| i <= k < idx ==> #[trigger] self.rows@[k] == before.rows@[k],
                    decreases idx - i,
                {
                    self.rows[i].push(Relation::Unrelated);
                    i = i + 1;
                }
                let mut row: Vec<Relation> = Vec::new();
                let n = self.cols.len();
                let mut j: usize = 0;
                while j < n
                    invariant
                        j <= n,
                        n == idx + 1,
                        row@.len() == j,
                        forall|k: int| 0 <= k < j ==> row@[k] == Relation::Unrelated,
                    decreases n - j,
                {
                    row.push(Relation::Unrelated);
                    j = j + 1;
                }
                self.rows.push(row);
                proof {
                    assert(self.cols@.no_duplicates());
                    assert forall|p: int, q: int|
                        0 <= p < self.cols@.len() && 0 <= q < self.cols@.len() implies self.cell(
                        p,
                        q,
                    ) == (if p < idx && q < idx {
                        before.cell(p, q)
                    } else {
                        Relation::Unrelated
                    }) by {}
                    assert(self.wf());
                    assert forall|a: u32, b: u32| self.relation(a, b) == before.relation(
                        a,
                        b,
                    ) by {
                        if self.knows(a) && self.knows(b) {
                            self.lemma_index_of(a);
                            self.lemma_index_of(b);
                            let p = self.index_of(a);
                            let q = self.index_of(b);
                            if p < idx && q < idx {
                                before.lemma_relation_at(p, q);
                            } else {
                                if before.knows(a) {
                                    before.lemma_index_of(a);
                                }
                                if before.knows(b) {
                                    before.lemma_index_of(b);
                                }
                            }
                        } else {
                            if before.knows(a) && before.knows(b) {
                                before.lemma_index_of(a);
                                before.lemma_index_of(b);
                                assert(self.cols@[before.index_of(a)] == a);
                                assert(self.cols@[before.index_of(b)] == b);
                            }
                        }
                    }
                }
                idx
            },
        }
    }
}


impl OrderingTable {
    /// The table after the rule "`before` comes before `after`" has been
    /// added to `self`: the relation of the pair, taken both ways round, is
    /// replaced, and nothing else changes. A rule of a value with itself
    /// leaves that value greater than itself.
    pub open spec fn relation_with_rule(&self, before: u32, after: u32, a: u32, b: u32) -> Relation {
        if a == after && b == before {
            Relation::Greater
        } else if a == before && b == after {
            Relation::Less
        } else {
            self.relation(a, b)
        }
    }

    /// Records that `before` comes before `after`, and with it that `after`
    /// comes after `before`.
    pub fn insert_ordering(&mut self, before: u32, after: u32)
        requires
            old(self).wf(),
        ensures
            final(self).wf(),
            final(self).values() == interned(interned(old(self).values(), before), after),
            forall|v: u32|
                final(self).knows(v) <==> (old(self).knows(v) || v == before || v == after),
            forall|a: u32, b: u32|
                final(self).relation(a, b) == old(self).relation_with_rule(before, after, a, b),
    {
        let before_col_idx = self.get_or_insert_col_idx(before);
        let ghost t1 = *self;
        let after_col_idx = self.get_or_insert_col_idx(after);
        let ghost t2 = *self;
        assert(t2.cols@[before_col_idx as int] == before);
        self.rows[before_col_idx][after_col_idx] = Relation::Less;
        self.rows[after_col_idx][before_col_idx] = Relation::Greater;
        proof {
            let bi = before_col_idx as int;
            let ai = after_col_idx as int;
            assert forall|p: int, q: int|
                0 <= p < self.cols@.len() && 0 <= q < self.cols@.len() implies self.cell(p, q) == (
            if p == ai && q == bi {
                Relation::Greater
            } else if p == bi && q == ai {
                Relation::Less
            } else {
                t2.cell(p, q)
            }) by {}
            assert(self.wf()) by {
                assert forall|i: int, j: int|
                    0 <= i < self.cols@.len() && 0 <= j < self.cols@.len() && i
                        != j implies #[trigger] self.cell(i, j) == self.cell(j, i).inverse() by {
                    assert(t2.cell(i, j) == t2.cell(j, i).inverse());
                }
            }
            assert forall|v: u32|
                self.knows(v) <==> (old(self).knows(v) || v == before || v == after) by {
                if self.knows(v) {
                    t2.lemma_index_of(v);
                }
                if old(self).knows(v) {
                    old(self).lemma_index_of(v);
                    assert(t1.cols@[old(self).index_of(v)] == v);
                    t1.lemma_index_of(v);
                    assert(t2.cols@[t1.index_of(v)] == v);
                }
            }
            assert forall|a: u32, b: u32|
                self.relation(a, b) == old(self).relation_with_rule(before, after, a, b) by {
                t2.lemma_relation_at(bi, ai);
                if self.knows(a) && self.knows(b) {
                    self.lemma_index_of(a);
                    self.lemma_index_of(b);
                    t2.lemma_relation_at(self.index_of(a), self.index_of(b));
                }
            }
        }
    }

    /// Looks up what the table records of `before` against `after`. Fails
    /// on the first of the two that the table does not know.
    pub fn lookup(&self, before: u32, after: u32) -> (r: Result<Relation, OrderingError>)
        requires
            self.wf(),
        ensures
            match r {
                Ok(rel) => self.knows(before) && self.knows(after) && rel == self.relation(
                    before,
                    after,
                ),
                Err(e) => e == (if !self.knows(before) {
                    OrderingError::UnknownValue(before)
                } else {
                    OrderingError::UnknownValue(after)
                }) && !(self.knows(before) && self.knows(after)),
            },
    {
        match self.get_col_idx(before) {
            None => Err(OrderingError::UnknownValue(before)),
            Some(i) => match self.get_col_idx(after) {
                None => {
                    proof {
                        self.lemma_relation_at(i as int, i as int);
                    }
                    Err(OrderingError::UnknownValue(after))
                },
                Some(j) => {
                    proof {
                        self.lemma_relation_at(i as int, j as int);
                    }
                    Ok(self.rows[i][j])
                },
            },
        }
    }

    /// What a query for the order of `before` and `after` gives: less or
    /// greater as a rule says; a fault where the table does not know
    /// `before`, or else `after`, or where no rule names the two together.
    pub open spec fn queried(&self, before: u32, after: u32) -> Result<Ordering, OrderingError> {
        if !self.knows(before) {
            Err(OrderingError::UnknownValue(before))
        } else if !self.knows(after) {
            Err(OrderingError::UnknownValue(after))
        } else {
            match self.relation(before, after) {
                Relation::Less => Ok(Ordering::Less),
                Relation::Greater => Ok(Ordering::Greater),
                Relation::Unrelated => Err(OrderingError::Unrelated(before, after)),
            }
        }
    }

    /// The recorded order of `before` and `after`. Two values that no rule
    /// names together are not taken for equal: the query fails.
    pub fn get_ordering(&self, before: u32, after: u32) -> (r: Result<Ordering, OrderingError>)
        requires
            self.wf(),
        ensures
            r == self.queried(before, after),
    {
        match self.lookup(before, after) {
            Ok(Relation::Less) => Ok(Ordering::Less),
            Ok(Relation::Greater) => Ok(Ordering::Greater),
            Ok(Relation::Unrelated) => Err(OrderingError::Unrelated(before, after)),
            Err(e) => Err(e),
        }
    }

    /// The relations of two known values, taken both ways round, are
    /// inverse to each other: less one way is greater the other way, and
    /// unrelated one way is unrelated the other way. The one exception is a
    /// value against itself after a rule that names it on both sides.
    pub proof fn lemma_inverse(&self, a: u32, b: u32)
        requires
            self.wf(),
            self.knows(a),
            self.knows(b),
            a != b || self.relation(a, a) == Relation::Unrelated,
        ensures
            self.relation(a, b) == self.relation(b, a).inverse(),
    {
        self.lemma_index_of(a);
        self.lemma_index_of(b);
        self.lemma_relation_at(self.index_of(a), self.index_of(b));
        self.lemma_relation_at(self.index_of(b), self.index_of(a));
    }

    /// The same of the answers to the two queries: less one way is greater
    /// the other way, and a query that fails one way fails the other way.
    pub proof fn lemma_ordering_inverse(&self, a: u32, b: u32)
        requires
            self.wf(),
            self.knows(a),
            self.knows(b),
            a != b || self.relation(a, a) == Relation::Unrelated,
        ensures
            self.queried(a, b) == Ok::<Ordering, OrderingError>(Ordering::Less) <==> self.queried(
                b,
                a,
            ) == Ok::<Ordering, OrderingError>(Ordering::Greater),
            self.queried(a, b) == Ok::<Ordering, OrderingError>(Ordering::Greater)
                <==> self.queried(b, a) == Ok::<Ordering, OrderingError>(Ordering::Less),
            self.queried(a, b) is Err <==> self.queried(b, a) is Err,
            self.queried(a, b) != Ok::<Ordering, OrderingError>(Ordering::Equal),
    {
        self.lemma_inverse(a, b);
    }

    /// Whether position `k` of `s` and the next hold a pair that the table
    /// records as ascending.
    pub open spec fn ascends_at(&self, s: Seq<u32>, k: int) -> bool {
        self.less(s[k], s[k + 1])
    }

    /// Every two neighbours in `s` are recorded as ascending.
    pub open spec fn sorted(&self, s: Seq<u32>) -> bool {
        forall|k: int| 0 <= k < s.len() - 1 ==> #[trigger] self.ascends_at(s, k)
    }

    /// Position `k` holds the first pair of neighbours in `s` that is not
    /// recorded as ascending.
    pub open spec fn first_break(&self, s: Seq<u32>, k: int) -> bool {
        &&& 0 <= k < s.len() - 1
        &&& !self.ascends_at(s, k)
        &&& forall|j: int| 0 <= j < k ==> #[trigger] self.ascends_at(s, j)
    }

    /// The table orders the entries at positions `p` and `q` one way or the
    /// other.
    pub open spec fn comparable_at(&self, s: Seq<u32>, p: int, q: int) -> bool {
        self.less(s[p], s[q]) || self.less(s[q], s[p])
    }

    /// The table orders every two entries of `s` at different positions.
    pub open spec fn comparable(&self, s: Seq<u32>) -> bool {
        forall|p: int, q: int|
            0 <= p < s.len() && 0 <= q < s.len() && p != q ==> #[trigger] self.comparable_at(
                s,
                p,
                q,
            )
    }

    /// `s` with `x` put in from the back: `x` passes every entry that is not
    /// recorded as coming before it, and stops behind the first that is.
    pub open spec fn inserted(&self, s: Seq<u32>, x: u32) -> Seq<u32>
        decreases s.len(),
    {
        if s.len() == 0 || self.less(s.last(), x) {
            s.push(x)
        } else {
            self.inserted(s.drop_last(), x).push(s.last())
        }
    }

    /// The entries of `s`, put in one after the other from the front.
    pub open spec fn sorted_form(&self, s: Seq<u32>) -> Seq<u32>
        decreases s.len(),
    {
        if s.len() == 0 {
            s
        } else {
            self.inserted(self.sorted_form(s.drop_last()), s.last())
        }
    }

    /// Putting the entries of a sequence in ascending order in, one after
    /// the other, gives the sequence back.
    pub proof fn lemma_sorted_form_of_sorted(&self, s: Seq<u32>)
        requires
            self.sorted(s),
        ensures
            self.sorted_form(s) == s,
        decreases s.len(),
    {
        if s.len() > 0 {
            let init = s.drop_last();
            assert forall|k: int| 0 <= k < init.len() - 1 implies #[trigger] self.ascends_at(
                init,
                k,
            ) by {
                assert(self.ascends_at(s, k));
            }
            self.lemma_sorted_form_of_sorted(init);
            if init.len() > 0 {
                assert(self.ascends_at(s, s.len() - 2));
            }
            assert(init.push(s.last()) =~= s);
        }
    }

    /// Every entry of the sorted form of `s` is an entry of `s`.
    pub proof fn lemma_sorted_form_entries(&self, s: Seq<u32>)
        ensures
            self.sorted_form(s).len() == s.len(),
            forall|k: int| 0 <= k < s.len() ==> s.contains(#[trigger] self.sorted_form(s)[k]),
        decreases s.len(),
    {
        if s.len() > 0 {
            let init = s.drop_last();
            let x = s.last();
            let p = self.sorted_form(init);
            self.lemma_sorted_form_entries(init);
            self.lemma_inserted_entries(p, x);
            assert forall|k: int| 0 <= k < s.len() implies s.contains(
                #[trigger] self.sorted_form(s)[k],
            ) by {
                let e = self.inserted(p, x)[k];
                if e == x {
                    assert(s[s.len() - 1] == x);
                } else {
                    let m = choose|m: int| 0 <= m < p.len() && p[m] == e;
                    assert(init.contains(p[m]));
                    let n = choose|n: int| 0 <= n < init.len() && init[n] == e;
                    assert(s[n] == e);
                }
            }
        }
    }

    /// Every entry of `s` with `x` put in is `x` or an entry of `s`.
    pub proof fn lemma_inserted_entries(&self, s: Seq<u32>, x: u32)
        ensures
            self.inserted(s, x).len() == s.len() + 1,
            forall|k: int|
                0 <= k <= s.len() ==> (#[trigger] self.inserted(s, x)[k]) == x || s.contains(
                    self.inserted(s, x)[k],
                ),
        decreases s.len(),
    {
        if s.len() == 0 || self.less(s.last(), x) {
            assert forall|k: int| 0 <= k <= s.len() implies (#[trigger] self.inserted(s, x)[k])
                == x || s.contains(self.inserted(s, x)[k]) by {
                if k < s.len() {
                    assert(s[k] == self.inserted(s, x)[k]);
                }
            }
        } else {
            let init = s.drop_last();
            self.lemma_inserted_entries(init, x);
            assert forall|k: int| 0 <= k <= s.len() implies (#[trigger] self.inserted(s, x)[k])
                == x || s.contains(self.inserted(s, x)[k]) by {
                let e = self.inserted(s, x)[k];
                if k == s.len() {
                    assert(s[s.len() - 1] == e);
                } else {
                    assert(e == self.inserted(init, x)[k]);
                    if e != x {
                        let m = choose|m: int| 0 <= m < init.len() && init[m] == e;
                        assert(s[m] == e);
                    }
                }
            }
        }
    }

    /// Putting `x` into a sequence in ascending order leaves it in ascending
    /// order, if the table orders `x` and every entry one way or the other.
    pub proof fn lemma_inserted_sorted(&self, s: Seq<u32>, x: u32)
        requires
            self.sorted(s),
            forall|k: int| 0 <= k < s.len() ==> self.less(#[trigger] s[k], x) || self.less(x, s[k]),
        ensures
            self.sorted(self.inserted(s, x)),
            self.inserted(s, x).len() == s.len() + 1,
            self.inserted(s, x).last() == x || (s.len() > 0 && self.inserted(s, x).last()
                == s.last()),
        decreases s.len(),
    {
        let r = self.inserted(s, x);
        if s.len() == 0 || self.less(s.last(), x) {
            assert forall|k: int| 0 <= k < r.len() - 1 implies #[trigger] self.ascends_at(r, k) by {
                if k < s.len() - 1 {
                    assert(self.ascends_at(s, k));
                }
            }
        } else {
            let init = s.drop_last();
            assert forall|k: int| 0 <= k < init.len() - 1 implies #[trigger] self.ascends_at(
                init,
                k,
            ) by {
                assert(self.ascends_at(s, k));
            }
            assert forall|k: int| 0 <= k < init.len() implies self.less(#[trigger] init[k], x)
                || self.less(x, init[k]) by {
                assert(init[k] == s[k]);
            }
            self.lemma_inserted_sorted(init, x);
            let q = self.inserted(init, x);
            assert(self.less(s[s.len() - 1], x) || self.less(x, s[s.len() - 1]));
            if q.last() != x {
                assert(self.ascends_at(s, s.len() - 2));
            }
            assert forall|k: int| 0 <= k < r.len() - 1 implies #[trigger] self.ascends_at(r, k) by {
                if k < q.len() - 1 {
                    assert(self.ascends_at(q, k));
                }
            }
        }
    }

    /// The sorted form of a sequence is in ascending order, if the table
    /// orders every two entries of the sequence one way or the other.
    pub proof fn lemma_sorted_form_sorted(&self, s: Seq<u32>)
        requires
            self.comparable(s),
        ensures
            self.sorted(self.sorted_form(s)),
        decreases s.len(),
    {
        if s.len() > 0 {
            let init = s.drop_last();
            let x = s.last();
            assert forall|p: int, q: int|
                0 <= p < init.len() && 0 <= q < init.len() && p
                    != q implies #[trigger] self.comparable_at(init, p, q) by {
                assert(self.comparable_at(s, p, q));
            }
            self.lemma_sorted_form_sorted(init);
            let sorted_init = self.sorted_form(init);
            self.lemma_sorted_form_entries(init);
            assert forall|k: int| 0 <= k < sorted_init.len() implies self.less(
                #[trigger] sorted_init[k],
                x,
            ) || self.less(x, sorted_init[k]) by {
                assert(init.contains(sorted_init[k]));
                let m = choose|m: int| 0 <= m < init.len() && init[m] == sorted_init[k];
                assert(self.comparable_at(s, m, s.len() - 1));
            }
            self.lemma_inserted_sorted(sorted_init, x);
        }
    }

    /// Every entry of `s` is known.
    pub open spec fn knows_all(&self, s: Seq<u32>) -> bool {
        forall|k: int| 0 <= k < s.len() ==> self.knows(#[trigger] s[k])
    }

    /// Position `k` holds the first entry of `s` that the table does not
    /// know.
    pub open spec fn first_unknown(&self, s: Seq<u32>, k: int) -> bool {
        &&& 0 <= k < s.len()
        &&& !self.knows(s[k])
        &&& forall|j: int| 0 <= j < k ==> self.knows(#[trigger] s[j])
    }
}

/// Whether every page of `sequence` is recorded as coming before the next
/// one. The pairs are looked up from the front, up to the first that is not
/// ascending; the call fails if that pair holds a page that the table does
/// not know.
pub fn is_sorted_by(sequence: &Vec<u32>, table: &OrderingTable) -> (r: Result<
    bool,
    OrderingError,
>)
    requires
        table.wf(),
    ensures
        (r matches Ok(b) && b) <==> table.sorted(sequence@),
        match r {
            Ok(b) => !b ==> exists|k: int|
                table.first_break(sequence@, k) && table.knows(sequence@[k]) && table.knows(
                    sequence@[k + 1],
                ),
            Err(e) => exists|k: int|
                table.first_break(sequence@, k) && (if !table.knows(sequence@[k]) {
                    e == OrderingError::UnknownValue(sequence@[k])
                } else {
                    !table.knows(sequence@[k + 1]) && e == OrderingError::UnknownValue(
                        sequence@[k + 1],
                    )
                }),
        },
{
    let n = sequence.len();
    let mut i: usize = 1;
    while i < n
        invariant
            table.wf(),
            n == sequence@.len(),
            1 <= i,
            forall|j: int| 0 <= j < i - 1 ==> #[trigger] table.ascends_at(sequence@, j),
        decreases n - i,
    {
        match table.lookup(sequence[i - 1], sequence[i]) {
            Ok(Relation::Less) => {
                assert(table.ascends_at(sequence@, i - 1));
            },
            Ok(_) => {
                assert(table.first_break(sequence@, i - 1));
                return Ok(false);
            },
            Err(e) => {
                assert(table.first_break(sequence@, i - 1));
                return Err(e);
            },
        }
        i = i + 1;
    }
    Ok(true)
}

/// Exchanging two entries keeps what a sequence holds.
pub proof fn lemma_swap_keeps_entries(s: Seq<u32>, i: int, j: int)
    requires
        0 <= i < s.len(),
        0 <= j < s.len(),
    ensures
        s.update(i, s[j]).update(j, s[i]).to_multiset() == s.to_multiset(),
{
    broadcast use vstd::seq_lib::to_multiset_update;

    let m = s.to_multiset();
    let s1 = s.update(i, s[j]);
    assert(s1.to_multiset() == m.insert(s[j]).remove(s[i]));
    assert(s1[j] == s[j] || i == j);
    s.to_multiset_ensures();
    assert(s.contains(s[i]));
    assert(s.contains(s[j]));
    assert(s1.update(j, s[i]).to_multiset() =~= m);
}

/// Sorts `sequence` by the table's rules: each page in turn moves towards
/// the front, past every page that is not recorded as coming before it.
/// With fewer than two pages nothing is looked up; otherwise every page
/// must be known, and the call fails on the first that is not and leaves
/// the sequence as it was. On success the sequence holds the same pages as
/// before; they are in ascending order if the table orders every two of
/// them; and a sequence that was in ascending order is unchanged.
pub fn sort_by(sequence: &mut Vec<u32>, table: &OrderingTable) -> (r: Result<(), OrderingError>)
    requires
        table.wf(),
    ensures
        r is Ok <==> (old(sequence)@.len() < 2 || table.knows_all(old(sequence)@)),
        final(sequence)@.to_multiset() == old(sequence)@.to_multiset(),
        final(sequence)@.len() == old(sequence)@.len(),
        match r {
            Ok(_) => {
                &&& final(sequence)@ == table.sorted_form(old(sequence)@)
                &&& table.comparable(old(sequence)@) ==> table.sorted(final(sequence)@)
                &&& table.sorted(old(sequence)@) ==> final(sequence)@ == old(sequence)@
            },
            Err(e) => {
                &&& final(sequence)@ == old(sequence)@
                &&& exists|k: int|
                    table.first_unknown(old(sequence)@, k) && e == OrderingError::UnknownValue(
                        old(sequence)@[k],
                    )
            },
        },
{
    let n = sequence.len();
    if n < 2 {
        proof {
            if n == 1 {
                assert(sequence@.drop_last().len() == 0);
                assert(table.sorted_form(sequence@.drop_last()).push(sequence@.last())
                    =~= sequence@);
            }
        }
        return Ok(());
    }
    let mut c: usize = 0;
    while c < n
        invariant
            n == sequence@.len(),
            2 <= n,
            sequence@ == old(sequence)@,
            c <= n,
            forall|j: int| 0 <= j < c ==> table.knows(#[trigger] sequence@[j]),
        decreases n - c,
    {
        if table.get_col_idx(sequence[c]).is_none() {
            assert(table.first_unknown(sequence@, c as int));
            return Err(OrderingError::UnknownValue(sequence[c]));
        }
        c = c + 1;
    }
    let mut i: usize = 1;
    proof {
        let first = sequence@.take(1);
        assert(first.drop_last().len() == 0);
        assert(table.sorted_form(first.drop_last()).push(first.last()) =~= first);
    }
    while i < n
        invariant
            table.wf(),
            n == sequence@.len(),
            n == old(sequence)@.len(),
            1 <= i <= n,
            table.knows_all(sequence@),
            sequence@.to_multiset() == old(sequence)@.to_multiset(),
            sequence@.take(i as int) == table.sorted_form(old(sequence)@.take(i as int)),
            sequence@.skip(i as int) == old(sequence)@.skip(i as int),
        decreases n - i,
    {
        let ghost prefix = sequence@.take(i as int);
        let ghost x = sequence@[i as int];
        proof {
            assert(x == sequence@.skip(i as int)[0]);
            assert(sequence@.take(i + 1) =~= prefix.take(i as int).push(x) + prefix.skip(i as int));
            assert(prefix.take(i as int) =~= prefix);
            assert(table.inserted(prefix, x) =~= table.inserted(prefix, x) + prefix.skip(
                i as int,
            ));
            assert(sequence@.skip(i + 1) =~= old(sequence)@.skip(i as int).skip(1));
            assert(old(sequence)@.skip(i + 1) =~= old(sequence)@.skip(i as int).skip(1));
        }
        let mut j: usize = i;
        let mut placed = false;
        while j > 0 && !placed
            invariant
                table.wf(),
                n == sequence@.len(),
                n == old(sequence)@.len(),
                1 <= i < n,
                j <= i,
                table.knows_all(sequence@),
                sequence@.to_multiset() == old(sequence)@.to_multiset(),
                placed ==> j > 0 && table.less(prefix[j - 1], x),
                prefix.len() == i,
                sequence@.take(i + 1) == prefix.take(j as int).push(x) + prefix.skip(j as int),
                sequence@.skip(i + 1) == old(sequence)@.skip(i + 1),
                table.inserted(prefix, x) == table.inserted(prefix.take(j as int), x)
                    + prefix.skip(j as int),
            decreases j + (if placed { 0int } else { 1int }),
        {
            let a = sequence[j - 1];
            let b = sequence[j];
            let ghost s0 = sequence@;
            proof {
                assert(table.knows(s0[j - 1]) && table.knows(s0[j as int]));
                assert(s0[j - 1] == s0.take(i + 1)[j - 1]);
                assert(s0[j as int] == s0.take(i + 1)[j as int]);
                assert(a == prefix[j - 1] && b == x);
            }
            match table.lookup(a, b) {
                Ok(Relation::Less) => {
                    placed = true;
                },
                Ok(_) => {
                    sequence[j - 1] = b;
                    sequence[j] = a;
                    proof {
                        let s2 = sequence@;
                        lemma_swap_keeps_entries(s0, j - 1, j as int);
                        assert(s2 =~= s0.update(j - 1, s0[j as int]).update(j as int, s0[j - 1]));
                        assert forall|k: int| 0 <= k < s2.len() implies table.knows(
                            #[trigger] s2[k],
                        ) by {
                            let moved_k = if k == j - 1 {
                                j as int
                            } else if k == j {
                                j - 1
                            } else {
                                k
                            };
                            assert(table.knows(s0[moved_k]));
                        }
                        assert(s2.skip(i + 1) =~= s0.skip(i + 1));
                        let moved = prefix.take(j - 1).push(x) + prefix.skip(j - 1);
                        assert forall|k: int| 0 <= k < i + 1 implies #[trigger] s2.take(i + 1)[k]
                            == moved[k] by {
                            assert(s0.take(i + 1)[k] == s0[k]);
                        }
                        assert(s2.take(i + 1) =~= moved);
                        let head = prefix.take(j as int);
                        assert(head.last() == a);
                        assert(head.drop_last() =~= prefix.take(j - 1));
                        table.lemma_inserted_entries(prefix.take(j - 1), x);
                        assert(table.inserted(head, x) == table.inserted(
                            prefix.take(j - 1),
                            x,
                        ).push(a));
                        assert(table.inserted(prefix.take(j - 1), x).push(a) + prefix.skip(
                            j as int,
                        ) =~= table.inserted(prefix.take(j - 1), x) + prefix.skip(j - 1));
                    }
                    j = j - 1;
                },
                Err(_) => {
                    // Every page is known here, so no lookup fails.
                    placed = true;
                },
            }
        }
        proof {
            let head = prefix.take(j as int);
            if j > 0 {
                assert(head.last() == prefix[j - 1]);
            }
            assert(table.inserted(head, x) == head.push(x));
            let grown = old(sequence)@.take(i + 1);
            assert(grown.drop_last() =~= old(sequence)@.take(i as int));
            assert(grown.last() == x);
        }
        i = i + 1;
    }
    proof {
        if table.comparable(old(sequence)@) {
            table.lemma_sorted_form_sorted(old(sequence)@);
        }
        if table.sorted(old(sequence)@) {
            table.lemma_sorted_form_of_sorted(old(sequence)@);
        }
    }
    assert(sequence@.take(n as int) =~= sequence@);
    assert(old(sequence)@.take(n as int) =~= old(sequence)@);
    Ok(())
}

} // verus!
