pub mod hash;

pub use hash::HashIndex;
use std::cmp::Ordering;
use vstd::prelude::*;
use vstd::std_specs::cmp::PartialEqSpec;
use vstd::std_specs::cmp::PartialOrdSpec;

verus! {

/// Whether each element of `rows` is smaller than the next.
pub open spec fn ascending(rows: Seq<usize>) -> bool {
    forall|i: int, j: int| 0 <= i < j < rows.len() ==> rows[i] < rows[j]
}

/// Whether `row` is the row identifier of some pair in `entries`.
pub open spec fn recorded<T>(entries: Seq<(T, usize)>, row: usize) -> bool {
    exists|i: int| 0 <= i < entries.len() && (#[trigger] entries[i]).1 == row
}

/// Whether every row identifier in `entries` is below `row`.
pub open spec fn all_below<T>(entries: Seq<(T, usize)>, row: usize) -> bool {
    forall|i: int| 0 <= i < entries.len() ==> (#[trigger] entries[i]).1 < row
}

/// An index that finds the rows holding a given value in one column.
///
/// The store feeds an index one `(value, row)` pair per row, in ascending order of row
/// identifiers, and asks it which rows may hold a value. An index may answer with more rows than
/// hold the value, never with fewer: the store checks every row it is given.
pub trait EqualityIndex<T: PartialEq> {
    /// What the implementation needs to hold of itself between calls.
    spec fn inv(&self) -> bool;

    /// The pairs recorded so far, oldest first.
    spec fn entries(&self) -> Seq<(T, usize)>;

    /// The number that `estimate` returns in this state.
    spec fn cost(&self) -> usize;

    /// The rows that may hold `value`, in ascending order. Every row recorded with a value
    /// equal to `value` is among them, and each of them was recorded.
    fn lookup(&self, value: &T) -> (found: Vec<usize>)
        requires
            self.inv(),
        ensures
            ascending(found@),
            forall|k: int| 0 <= k < found@.len() ==> recorded(self.entries(), #[trigger] found@[k]),
            forall|i: int|
                0 <= i < self.entries().len() && (#[trigger] self.entries()[i]).0.eq_spec(value)
                    ==> found@.contains(self.entries()[i].1),
    ;

    /// Records that row `row` holds `value`. Rows come in rising order, and a row identifier
    /// is a position in a vector, so it stays below `usize::MAX`.
    fn index(&mut self, value: T, row: usize)
        requires
            old(self).inv(),
            all_below(old(self).entries(), row),
            row < usize::MAX,
        ensures
            final(self).inv(),
            final(self).entries() == old(self).entries().push((value, row)),
    ;

    /// The expected number of rows that a lookup of one value finds. The planner ranks
    /// indices by this number; it promises nothing about any one lookup.
    fn estimate(&self) -> (n: usize)
        requires
            self.inv(),
        ensures
            n == self.cost(),
    ;
}

/// One end of a range of values.
pub enum Bound<T> {
    /// The range reaches up to, or down to, this value and holds it.
    Included(T),
    /// The range reaches up to, or down to, this value and does not hold it.
    Excluded(T),
    /// The range has no end on this side.
    Unbounded,
}

/// Whether `value` is not below the lower end `low`, by `T`'s own order.
pub open spec fn at_or_above<T: PartialOrd>(value: T, low: Bound<T>) -> bool {
    match low {
        Bound::Included(l) => value.partial_cmp_spec(&l) == Some(Ordering::Greater)
            || value.partial_cmp_spec(&l) == Some(Ordering::Equal),
        Bound::Excluded(l) => value.partial_cmp_spec(&l) == Some(Ordering::Greater),
        Bound::Unbounded => true,
    }
}

/// Whether `value` is not above the upper end `high`, by `T`'s own order.
pub open spec fn at_or_below<T: PartialOrd>(value: T, high: Bound<T>) -> bool {
    match high {
        Bound::Included(h) => value.partial_cmp_spec(&h) == Some(Ordering::Less)
            || value.partial_cmp_spec(&h) == Some(Ordering::Equal),
        Bound::Excluded(h) => value.partial_cmp_spec(&h) == Some(Ordering::Less),
        Bound::Unbounded => true,
    }
}

/// An index that can also find the rows whose value lies between two bounds.
pub trait RangeIndex<T: PartialOrd>: EqualityIndex<T> {
    /// The rows that may hold a value between `low` and `high`, each once, in the index's own
    /// order. Every row recorded with a value in the range is among them, and each of them was
    /// recorded.
    fn lookup_range(&self, low: &Bound<T>, high: &Bound<T>) -> (found: Vec<usize>)
        requires
            self.inv(),
        ensures
            found@.no_duplicates(),
            forall|k: int| 0 <= k < found@.len() ==> recorded(self.entries(), #[trigger] found@[k]),
            forall|i: int|
                0 <= i < self.entries().len() && at_or_above((#[trigger] self.entries()[i]).0, *low)
                    && at_or_below(self.entries()[i].0, *high) ==> found@.contains(
                    self.entries()[i].1,
                ),
    ;
}

/// An index of either capability, as a store holds it.
#[verifier::reject_recursive_types(T)]
pub enum Index<T: PartialOrd> {
    /// An index that answers equality lookups only.
    Equality(Box<dyn EqualityIndex<T>>),
    /// An index that answers range lookups too.
    Range(Box<dyn RangeIndex<T>>),
}

impl<T: PartialOrd> Index<T> {
    /// The rows that may hold a value between `low` and `high`, as `RangeIndex::lookup_range`
    /// gives them, or `None` where the index answers equality lookups only.
    pub fn lookup_range(&self, low: &Bound<T>, high: &Bound<T>) -> (found: Option<Vec<usize>>)
        requires
            self.inv(),
        ensures
            match found {
                Some(rows) => {
                    &&& self is Range
                    &&& rows@.no_duplicates()
                    &&& forall|k: int|
                        0 <= k < rows@.len() ==> recorded(self.entries(), #[trigger] rows@[k])
                    &&& forall|i: int|
                        0 <= i < self.entries().len() && at_or_above(
                            (#[trigger] self.entries()[i]).0,
                            *low,
                        ) && at_or_below(self.entries()[i].0, *high) ==> rows@.contains(
                            self.entries()[i].1,
                        )
                },
                None => self is Equality,
            },
    {
        match self {
            Index::Equality(_) => None,
            Index::Range(r) => Some(r.lookup_range(low, high)),
        }
    }
}

impl<T: PartialOrd> EqualityIndex<T> for Index<T> {
    open spec fn inv(&self) -> bool {
        match self {
            Index::Equality(e) => e.inv(),
            Index::Range(r) => r.inv(),
        }
    }

    open spec fn entries(&self) -> Seq<(T, usize)> {
        match self {
            Index::Equality(e) => e.entries(),
            Index::Range(r) => r.entries(),
        }
    }

    open spec fn cost(&self) -> usize {
        match self {
            Index::Equality(e) => e.cost(),
            Index::Range(r) => r.cost(),
        }
    }

    fn lookup(&self, value: &T) -> (found: Vec<usize>) {
        match self {
            Index::Equality(e) => e.lookup(value),
            Index::Range(r) => r.lookup(value),
        }
    }

    fn index(&mut self, value: T, row: usize) {
        match self {
            Index::Equality(e) => e.index(value, row),
            Index::Range(r) => r.index(value, row),
        }
    }

    fn estimate(&self) -> (n: usize) {
        match self {
            Index::Equality(e) => e.estimate(),
            Index::Range(r) => r.estimate(),
        }
    }
}

} // verus!
