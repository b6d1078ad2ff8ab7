use crate::cmp::all_hold;
use crate::cmp::all_within;
use crate::cmp::columns_within;
use crate::cmp::faithful;
use crate::cmp::matches_all_within;
use crate::cmp::Condition;
use crate::error::Error;
use crate::idx::ascending;
use crate::idx::recorded;
use crate::idx::EqualityIndex;
use crate::idx::Index;
use crate::query::lemma_select_everything;
use crate::query::lemma_select_next;
use crate::query::lemma_select_skip;
use crate::query::picked;
use crate::query::select;
use crate::query::views;
use std::collections::hash_map::Entry;
use std::collections::HashMap;
use vstd::prelude::*;
use vstd::std_specs::cmp::PartialEqSpec;

verus! {

/// Whether `entries` holds one pair per row of `rows`, in the order of the rows: a clone of the
/// row's cell in column `column`, and the row's identifier.
pub open spec fn mirrors<T: Clone>(entries: Seq<(T, usize)>, rows: Seq<Seq<T>>, column: usize) -> bool {
    &&& entries.len() == rows.len()
    &&& forall|i: int|
        0 <= i < rows.len() ==> (#[trigger] entries[i]).1 == i && cloned(
            rows[i][column as int],
            entries[i].0,
        )
}

/// Whether `after` is `before` and one more pair: a clone of `cell`, and `row`.
pub open spec fn fed<T: Clone>(
    before: Seq<(T, usize)>,
    after: Seq<(T, usize)>,
    cell: T,
    row: usize,
) -> bool {
    &&& after.len() == before.len() + 1
    &&& after.drop_last() == before
    &&& after.last().1 == row
    &&& cloned(cell, after.last().0)
}

/// Whether `index` is in order and has been fed column `column` of `rows`.
pub open spec fn covers<T: PartialOrd + Clone>(
    index: Index<T>,
    rows: Seq<Seq<T>>,
    column: usize,
) -> bool {
    index.inv() && mirrors(index.entries(), rows, column)
}

/// Rows of a fixed number of columns, in the order of their insertion, and at most one index
/// per column. A row's position is its identifier; rows are never removed or changed.
#[verifier::reject_recursive_types(T)]
pub struct Store<T: PartialOrd + Clone> {
    cols: usize,
    rows: Vec<Vec<T>>,
    indices: HashMap<usize, Index<T>>,
}

impl<T: PartialOrd + Clone> Store<T> {
    /// Every row has the store's number of columns, and every index stands on a column of the
    /// store and covers all rows.
    #[verifier::type_invariant]
    pub closed spec fn wf(&self) -> bool {
        &&& forall|i: int| 0 <= i < self.rows@.len() ==> (#[trigger] self.rows@[i])@.len() == self.cols
        &&& forall|column: usize| #[trigger]
            self.indices@.contains_key(column) ==> column < self.cols && covers(
                self.indices@[column],
                self.rows(),
                column,
            )
    }

    /// The number of columns of every row.
    pub closed spec fn cols(&self) -> usize {
        self.cols
    }

    /// The rows, in the order of their insertion.
    pub closed spec fn rows(&self) -> Seq<Seq<T>> {
        self.rows@.map_values(|row: Vec<T>| row@)
    }

    /// Whether an index is attached to `column`.
    pub closed spec fn indexed(&self, column: usize) -> bool {
        self.indices@.contains_key(column)
    }

    /// The pairs that the index attached to `column` has been fed, oldest first.
    pub closed spec fn entries_of(&self, column: usize) -> Seq<(T, usize)>
        recommends
            self.indexed(column),
    {
        self.indices@[column].entries()
    }

    /// The estimate of the index attached to `column`.
    pub closed spec fn cost_of(&self, column: usize) -> usize
        recommends
            self.indexed(column),
    {
        self.indices@[column].cost()
    }

    /// An empty store for rows of `cols` columns.
    pub fn new(cols: usize) -> (store: Store<T>)
        ensures
            store.cols() == cols,
            store.rows() == Seq::<Seq<T>>::empty(),
            forall|column: usize| !store.indexed(column),
    {
        let store = Store { cols: cols, rows: Vec::new(), indices: HashMap::new() };
        assert(store.rows() =~= Seq::<Seq<T>>::empty());
        store
    }

    /// An empty store for rows of `cols` columns, with room for `rows` rows. The room changes
    /// nothing that can be observed.
    pub fn with_capacity(cols: usize, rows: usize) -> (store: Store<T>)
        ensures
            store.cols() == cols,
            store.rows() == Seq::<Seq<T>>::empty(),
            forall|column: usize| !store.indexed(column),
    {
        let store = Store { cols: cols, rows: Vec::with_capacity(rows), indices: HashMap::new() };
        assert(store.rows() =~= Seq::<Seq<T>>::empty());
        store
    }

    /// Attaches `indexer` to `column`, in place of any index that stood there, after feeding it
    /// the column's cell of every row in the store, in the order of the rows.
    pub fn index(&mut self, column: usize, indexer: Index<T>) -> (r: Result<(), Error>)
        requires
            indexer.inv(),
            indexer.entries().len() == 0,
        ensures
            final(self).cols() == old(self).cols(),
            final(self).rows() == old(self).rows(),
            match r {
                Ok(()) => {
                    &&& column < old(self).cols()
                    &&& forall|c: usize|
                        final(self).indexed(c) <==> c == column || old(self).indexed(c)
                    &&& mirrors(final(self).entries_of(column), old(self).rows(), column)
                    &&& forall|c: usize|
                        c != column ==> final(self).entries_of(c) == old(self).entries_of(c)
                            && final(self).cost_of(c) == old(self).cost_of(c)
                },
                Err(e) => {
                    &&& e == Error::InvalidColumn
                    &&& column >= old(self).cols()
                    &&& *final(self) == *old(self)
                },
            },
    {
        if column >= self.cols {
            return Err(Error::InvalidColumn);
        }
        proof {
            use_type_invariant(&*self);
        }
        let mut filled = indexer;
        let count = self.rows.len();
        let mut i: usize = 0;
        while i < count
            invariant
                i <= count,
                count == self.rows@.len(),
                column < self.cols,
                forall|k: int| 0 <= k < self.rows@.len() ==> (#[trigger] self.rows@[k])@.len() == self.cols,
                filled.inv(),
                filled.entries().len() == i,
                forall|k: int|
                    0 <= k < i ==> (#[trigger] filled.entries()[k]).1 == k && cloned(
                        self.rows()[k][column as int],
                        filled.entries()[k].0,
                    ),
            decreases count - i,
        {
            let cell = self.rows[i][column].clone();
            assert(self.rows()[i as int][column as int] == self.rows@[i as int]@[column as int]);
            filled.index(cell, i);
            i = i + 1;
        }
        let mut indices = HashMap::new();
        std::mem::swap(&mut indices, &mut self.indices);
        indices.insert(column, filled);
        self.indices = indices;
        Ok(())
    }

    /// Whether the index on the condition's column, if there is one, can serve the condition.
    pub open spec fn serves(&self, cond: Condition<T>) -> bool {
        self.indexed(cond.column) && cond.equality_operand() is Some
    }

    /// Whether the planner picks the condition at position `at` to drive a query: its index
    /// can serve it, no index that can serve a condition has a lower estimate, and every
    /// earlier one that can has a higher estimate.
    pub open spec fn chosen(&self, conds: Seq<Condition<T>>, at: int) -> bool {
        &&& 0 <= at < conds.len()
        &&& self.serves(conds[at])
        &&& forall|k: int|
            0 <= k < conds.len() && self.serves(#[trigger] conds[k]) ==> self.cost_of(
                conds[at].column,
            ) <= self.cost_of(conds[k].column)
        &&& forall|k: int|
            0 <= k < at && self.serves(#[trigger] conds[k]) ==> self.cost_of(conds[at].column)
                < self.cost_of(conds[k].column)
    }

    /// Picks the condition whose index is to narrow a query: among the conditions that an
    /// attached index can serve, the one with the lowest estimate, and of several such the
    /// first. `None` where no condition can be served, and the query scans all rows.
    pub fn plan(&self, conds: &[Condition<T>]) -> (choice: Option<usize>)
        ensures
            match choice {
                Some(at) => self.chosen(conds@, at as int),
                None => forall|k: int| 0 <= k < conds@.len() ==> !self.serves(#[trigger] conds@[k]),
            },
    {
        proof {
            use_type_invariant(self);
        }
        let mut best: Option<(usize, usize)> = None;
        let mut k: usize = 0;
        while k < conds.len()
            invariant
                k <= conds@.len(),
                self.wf(),
                match best {
                    Some((at, least)) => {
                        &&& at < k
                        &&& least == self.cost_of(conds@[at as int].column)
                        &&& self.chosen(conds@.take(k as int), at as int)
                    },
                    None => forall|j: int| 0 <= j < k ==> !self.serves(#[trigger] conds@[j]),
                },
            decreases conds@.len() - k,
        {
            let ghost seen = conds@.take(k as int);
            let ghost next = conds@.take(k + 1);
            assert(forall|j: int| 0 <= j < k ==> seen[j] == next[j]);
            assert(next[k as int] == conds@[k as int]);
            let mut lower: Option<usize> = None;
            if conds[k].equality_value().is_some() {
                match self.indices.get(&conds[k].column) {
                    Some(index) => {
                        let estimate = index.estimate();
                        match best {
                            Some((_, least)) => {
                                if estimate < least {
                                    lower = Some(estimate);
                                }
                            },
                            None => {
                                lower = Some(estimate);
                            },
                        }
                    },
                    None => {},
                }
            }
            match lower {
                Some(estimate) => {
                    best = Some((k, estimate));
                },
                None => {},
            }
            k = k + 1;
        }
        assert(conds@.take(k as int) =~= conds@);
        match best {
            Some((at, _)) => Some(at),
            None => None,
        }
    }

    /// What a query with the conditions `conds` returns: the rows that pass all of them, in
    /// the order of insertion. The indices have no part in it.
    pub open spec fn answer(&self, conds: Seq<Condition<T>>) -> Seq<Seq<T>> {
        select(self.rows(), conds)
    }

    /// Cardinality: a query without conditions returns every row, in the order of insertion,
    /// whatever indices are attached.
    pub proof fn lemma_answer_everything(&self)
        ensures
            self.answer(Seq::empty()) == self.rows(),
    {
        lemma_select_everything(self.rows());
    }

    /// Index transparency: two stores with the same rows give the same answer to every
    /// query, whatever indices each has, and whenever they were attached.
    pub proof fn lemma_index_transparent(&self, other: &Store<T>, conds: Seq<Condition<T>>)
        requires
            self.rows() == other.rows(),
        ensures
            self.answer(conds) == other.answer(conds),
    {
    }

    /// Asking again gives the same: two results of one query on one store hold the same rows
    /// in the same order.
    pub proof fn lemma_requery(&self, conds: Seq<Condition<T>>, first: Seq<&[T]>, second: Seq<&[T]>)
        requires
            views(first) == self.answer(conds),
            views(second) == self.answer(conds),
        ensures
            first.len() == second.len(),
            forall|k: int| 0 <= k < first.len() ==> (#[trigger] first[k])@ == second[k]@,
    {
        assert(views(first).len() == first.len());
        assert(views(second).len() == second.len());
        assert forall|k: int| 0 <= k < first.len() implies (#[trigger] first[k])@ == second[k]@ by {
            assert(views(first)[k] == first[k]@);
            assert(views(second)[k] == second[k]@);
        }
    }

    /// Checks all conditions on every row.
    fn scan<'a>(&'a self, conds: &[Condition<T>]) -> (found: Vec<&'a [T]>)
        requires
            all_within(conds@, self.cols() as nat),
        ensures
            picked(found@, self.rows(), conds@),
            T::obeys_eq_spec() ==> views(found@) == self.answer(conds@),
    {
        proof {
            use_type_invariant(self);
        }
        let mut found: Vec<&'a [T]> = Vec::new();
        let count = self.rows.len();
        let mut i: usize = 0;
        assert(views(found@) =~= select(self.rows().take(0), conds@));
        while i < count
            invariant
                i <= count,
                count == self.rows@.len(),
                self.wf(),
                all_within(conds@, self.cols() as nat),
                picked(found@, self.rows(), conds@),
                T::obeys_eq_spec() ==> views(found@) == select(self.rows().take(i as int), conds@),
            decreases count - i,
        {
            let row = self.rows[i].as_slice();
            let ghost had = found@;
            assert(self.rows()[i as int] == row@);
            if matches_all_within(conds, row) {
                found.push(row);
                assert(views(found@) =~= views(had).push(row@));
            }
            proof {
                lemma_select_next(self.rows(), conds@, i as int);
            }
            i = i + 1;
        }
        assert(self.rows().take(i as int) =~= self.rows());
        found
    }

    /// Checks all conditions on the rows that `ids` names. The rows left out must not pass.
    fn gather<'a>(&'a self, ids: &Vec<usize>, conds: &[Condition<T>]) -> (found: Vec<&'a [T]>)
        requires
            all_within(conds@, self.cols() as nat),
            ascending(ids@),
            forall|k: int| 0 <= k < ids@.len() ==> #[trigger] ids@[k] < self.rows().len(),
            faithful::<T>() ==> forall|i: int|
                0 <= i < self.rows().len() && all_hold(conds@, #[trigger] self.rows()[i])
                    ==> exists|k: int| 0 <= k < ids@.len() && #[trigger] ids@[k] == i,
        ensures
            picked(found@, self.rows(), conds@),
            faithful::<T>() ==> views(found@) == self.answer(conds@),
    {
        proof {
            use_type_invariant(self);
        }
        let ghost rows = self.rows();
        let mut found: Vec<&'a [T]> = Vec::new();
        let mut k: usize = 0;
        proof {
            let first: int = if ids@.len() > 0 {
                ids@[0] as int
            } else {
                rows.len() as int
            };
            if faithful::<T>() {
                assert forall|i: int| 0 <= i < first implies !all_hold(conds@, #[trigger] rows[i]) by {
                    if all_hold(conds@, rows[i]) {
                        let m = choose|m: int| 0 <= m < ids@.len() && #[trigger] ids@[m] == i;
                        assert(m == 0 || ids@[0] < ids@[m]);
                    }
                }
                lemma_select_skip(rows, conds@, 0, first);
                assert(views(found@) =~= select(rows.take(0), conds@));
            }
        }
        while k < ids.len()
            invariant
                k <= ids@.len(),
                rows == self.rows(),
                self.wf(),
                all_within(conds@, self.cols() as nat),
                ascending(ids@),
                forall|j: int| 0 <= j < ids@.len() ==> #[trigger] ids@[j] < rows.len(),
                picked(found@, rows, conds@),
                faithful::<T>() ==> forall|i: int|
                    0 <= i < rows.len() && all_hold(conds@, #[trigger] rows[i]) ==> exists|j: int|
                        0 <= j < ids@.len() && #[trigger] ids@[j] == i,
                faithful::<T>() ==> views(found@) == select(
                    rows.take(
                        if k < ids@.len() {
                            ids@[k as int] as int
                        } else {
                            rows.len() as int
                        },
                    ),
                    conds@,
                ),
            decreases ids@.len() - k,
        {
            let id = ids[k];
            assert(id < self.rows@.len());
            let row = self.rows[id].as_slice();
            let ghost had = found@;
            assert(rows[id as int] == row@);
            if matches_all_within(conds, row) {
                found.push(row);
                assert(views(found@) =~= views(had).push(row@));
            }
            proof {
                let next: int = if k + 1 < ids@.len() {
                    ids@[k + 1] as int
                } else {
                    rows.len() as int
                };
                if faithful::<T>() {
                    lemma_select_next(rows, conds@, id as int);
                    assert forall|i: int| id < i < next implies !all_hold(
                        conds@,
                        #[trigger] rows[i],
                    ) by {
                        if all_hold(conds@, rows[i]) {
                            let m = choose|m: int| 0 <= m < ids@.len() && #[trigger] ids@[m] == i;
                            if m <= k {
                                assert(m == k || ids@[m] < ids@[k as int]);
                            } else {
                                assert(m == k + 1 || ids@[k + 1] < ids@[m]);
                            }
                        }
                    }
                    lemma_select_skip(rows, conds@, id + 1, next);
                }
            }
            k = k + 1;
        }
        assert(rows.take(rows.len() as int) =~= rows);
        found
    }

    /// The rows that pass every condition in `conds`, in the order of insertion. An index,
    /// where one can serve a condition, narrows the rows that are looked at; every condition is
    /// checked on each of them all the same. A condition on a column that the store does not
    /// have is an error.
    pub fn find<'a>(&'a self, conds: &[Condition<T>]) -> (r: Result<Vec<&'a [T]>, Error>)
        ensures
            match r {
                Ok(found) => {
                    &&& all_within(conds@, self.cols() as nat)
                    &&& picked(found@, self.rows(), conds@)
                    &&& faithful::<T>() ==> views(found@) == self.answer(conds@)
                },
                Err(e) => e == Error::InvalidColumn && !all_within(conds@, self.cols() as nat),
            },
    {
        if !columns_within(conds, self.cols) {
            return Err(Error::InvalidColumn);
        }
        proof {
            use_type_invariant(self);
        }
        match self.plan(conds) {
            Some(at) => {
                let column = conds[at].column;
                match (conds[at].equality_value(), self.indices.get(&column)) {
                    (Some(value), Some(index)) => {
                        let ids = index.lookup(value);
                        proof {
                            self.lemma_candidates(conds@, at as int, ids@);
                        }
                        Ok(self.gather(&ids, conds))
                    },
                    _ => Ok(self.scan(conds)),
                }
            },
            None => Ok(self.scan(conds)),
        }
    }

    /// A lookup for the chosen condition names rows of the store only, and with them every row
    /// that passes all conditions.
    proof fn lemma_candidates(&self, conds: Seq<Condition<T>>, at: int, ids: Seq<usize>)
        requires
            self.wf(),
            0 <= at < conds.len(),
            self.serves(conds[at]),
            forall|k: int|
                0 <= k < ids.len() ==> recorded(
                    self.indices@[conds[at].column].entries(),
                    #[trigger] ids[k],
                ),
            forall|i: int|
                0 <= i < self.indices@[conds[at].column].entries().len() && (
                #[trigger] self.indices@[conds[at].column].entries()[i]).0.eq_spec(
                    &conds[at].equality_operand()->0,
                ) ==> ids.contains(self.indices@[conds[at].column].entries()[i].1),
        ensures
            forall|k: int| 0 <= k < ids.len() ==> #[trigger] ids[k] < self.rows().len(),
            faithful::<T>() ==> forall|i: int|
                0 <= i < self.rows().len() && all_hold(conds, #[trigger] self.rows()[i])
                    ==> exists|k: int| 0 <= k < ids.len() && #[trigger] ids[k] == i,
    {
        let column = conds[at].column;
        let entries = self.indices@[column].entries();
        let value = conds[at].equality_operand()->0;
        let rows = self.rows();
        assert(self.indices@.contains_key(column));
        assert(covers(self.indices@[column], rows, column));
        assert forall|k: int| 0 <= k < ids.len() implies #[trigger] ids[k] < rows.len() by {
            let j = choose|j: int| 0 <= j < entries.len() && (#[trigger] entries[j]).1 == ids[k];
        }
        if faithful::<T>() {
            assert forall|i: int| 0 <= i < rows.len() && all_hold(conds, #[trigger] rows[i])
                implies exists|k: int| 0 <= k < ids.len() && #[trigger] ids[k] == i by {
                assert(conds[at].holds(rows[i]));
                assert(rows[i][column as int].eq_spec(&value));
                assert(cloned(rows[i][column as int], entries[i].0));
                assert(entries[i].0.eq_spec(&value));
                assert(ids.contains(entries[i].1));
            }
        }
    }

    /// Appends `row`, whose identifier is the number of rows before the call, and feeds every
    /// attached index the row's cell in its column. A row of another length than the store's
    /// column count is refused, and the store stays as it was.
    pub fn insert(&mut self, row: Vec<T>) -> (r: Result<(), Error>)
        ensures
            final(self).cols() == old(self).cols(),
            forall|c: usize| final(self).indexed(c) == old(self).indexed(c),
            match r {
                Ok(()) => {
                    &&& row@.len() == old(self).cols()
                    &&& final(self).rows() == old(self).rows().push(row@)
                    &&& forall|c: usize|
                        old(self).indexed(c) ==> c < row@.len() && fed(
                            old(self).entries_of(c),
                            #[trigger] final(self).entries_of(c),
                            row@[c as int],
                            old(self).rows().len() as usize,
                        )
                },
                Err(e) => {
                    &&& e == Error::ShapeMismatch
                    &&& row@.len() != old(self).cols()
                    &&& *final(self) == *old(self)
                },
            },
    {
        if row.len() != self.cols {
            return Err(Error::ShapeMismatch);
        }
        proof {
            use_type_invariant(&*self);
        }
        let cols = self.cols;
        let ghost before = self.rows();
        let ghost after = before.push(row@);
        let mut indices = HashMap::new();
        std::mem::swap(&mut indices, &mut self.indices);
        let mut rows = Vec::new();
        std::mem::swap(&mut rows, &mut self.rows);
        let id = rows.len();
        rows.push(row);
        assert(rows@.map_values(|r: Vec<T>| r@) =~= after);
        assert(id < usize::MAX) by {
            assert(rows.len() == id + 1);
        }
        let ghost start = indices@;
        let mut column: usize = 0;
        while column < cols
            invariant
                column <= cols,
                id < usize::MAX,
                id + 1 == rows@.len(),
                before.len() == id,
                rows@[id as int]@.len() == cols,
                indices@.dom() == start.dom(),
                forall|c: usize| #[trigger]
                    start.contains_key(c) ==> c < cols && covers(start[c], before, c),
                forall|c: usize| #[trigger]
                    start.contains_key(c) ==> if c < column {
                        indices@[c].inv() && fed(
                            start[c].entries(),
                            indices@[c].entries(),
                            rows@[id as int]@[c as int],
                            id,
                        )
                    } else {
                        indices@[c] == start[c]
                    },
            decreases cols - column,
        {
            match indices.entry(column) {
                Entry::Occupied(mut slot) => {
                    let index = slot.get_mut();
                    index.index(rows[id][column].clone(), id);
                    assert(index.entries().drop_last() =~= start[column].entries());
                },
                Entry::Vacant(_) => {},
            }
            assert(indices@.dom() =~= start.dom());
            column = column + 1;
        }
        proof {
            assert forall|c: usize| #[trigger] indices@.contains_key(c) implies c < cols && covers(
                indices@[c],
                after,
                c,
            ) by {
                assert(start.contains_key(c));
                let entries = indices@[c].entries();
                assert forall|i: int| 0 <= i < after.len() implies (#[trigger] entries[i]).1 == i
                    && cloned(after[i][c as int], entries[i].0) by {
                    if i < id {
                        assert(entries[i] == entries.drop_last()[i]);
                        assert(after[i] == before[i]);
                    }
                }
            }
        }
        self.rows = rows;
        self.indices = indices;
        Ok(())
    }
}

} // verus!
