use crate::error::Error;
use vstd::prelude::*;
use vstd::std_specs::cmp::PartialEqSpec;

verus! {

/// The operand of a comparison.
pub enum Value<T> {
    /// A fixed value.
    Const(T),
}

/// How a cell is compared against a [`Value`].
pub enum Comparison<T> {
    /// The cell equals the value, by `T`'s own equality.
    Equal(Value<T>),
}

/// A predicate on one column of a row.
pub struct Condition<T> {
    /// The column whose cell is compared.
    pub column: usize,
    /// The comparison applied to that cell.
    pub cmp: Comparison<T>,
}

impl<T> Comparison<T> {
    /// The value that an equality index is asked for to serve this comparison, if an equality
    /// index can serve it.
    pub open spec fn equality_operand(&self) -> Option<T> {
        match *self {
            Comparison::Equal(Value::Const(v)) => Some(v),
        }
    }

    /// The value to look up in an equality index, or `None` where such an index cannot serve
    /// the comparison.
    pub fn equality_value(&self) -> (operand: Option<&T>)
        ensures
            match operand {
                Some(v) => self.equality_operand() == Some(*v),
                None => self.equality_operand() is None,
            },
    {
        match self {
            Comparison::Equal(Value::Const(v)) => Some(v),
        }
    }
}

impl<T: PartialEq> Comparison<T> {
    /// Whether `cell` passes this comparison.
    pub open spec fn holds(&self, cell: T) -> bool {
        match *self {
            Comparison::Equal(Value::Const(v)) => cell.eq_spec(&v),
        }
    }

    /// Applies the comparison to one cell.
    pub fn matches(&self, cell: &T) -> (b: bool)
        ensures
            T::obeys_eq_spec() ==> b == self.holds(*cell),
    {
        match self {
            Comparison::Equal(Value::Const(v)) => *cell == *v,
        }
    }
}

impl<T> Condition<T> {
    /// The value that an equality index on the column is asked for to serve this condition,
    /// if an equality index can serve it.
    pub open spec fn equality_operand(&self) -> Option<T> {
        self.cmp.equality_operand()
    }

    /// The value to look up in an equality index on the column, or `None` where such an index
    /// cannot serve the condition.
    pub fn equality_value(&self) -> (operand: Option<&T>)
        ensures
            match operand {
                Some(v) => self.equality_operand() == Some(*v),
                None => self.equality_operand() is None,
            },
    {
        self.cmp.equality_value()
    }
}

impl<T: PartialEq> Condition<T> {
    /// The cell of `row` that this condition looks at.
    pub open spec fn cell(&self, row: Seq<T>) -> T
        recommends
            self.column < row.len(),
    {
        row[self.column as int]
    }

    /// Whether `row` has the column and its cell passes the comparison.
    pub open spec fn holds(&self, row: Seq<T>) -> bool {
        self.column < row.len() && self.cmp.holds(self.cell(row))
    }

    /// Evaluates the condition on a row that has the column.
    pub fn matches_within(&self, row: &[T]) -> (b: bool)
        requires
            self.column < row@.len(),
        ensures
            T::obeys_eq_spec() ==> b == self.holds(row@),
    {
        self.cmp.matches(&row[self.column])
    }

    /// Evaluates the condition on one row. A row without the column is an error, not a
    /// non-match.
    pub fn matches(&self, row: &[T]) -> (r: Result<bool, Error>)
        ensures
            match r {
                Ok(b) => self.column < row@.len() && (T::obeys_eq_spec() ==> b == self.holds(row@)),
                Err(e) => e == Error::InvalidColumn && self.column >= row@.len(),
            },
    {
        if self.column < row.len() {
            Ok(self.matches_within(row))
        } else {
            Err(Error::InvalidColumn)
        }
    }
}

/// Whether every condition names a column below `width`.
pub open spec fn all_within<T>(conds: Seq<Condition<T>>, width: nat) -> bool {
    forall|k: int| 0 <= k < conds.len() ==> (#[trigger] conds[k]).column < width
}

/// Whether `row` passes every condition. No conditions: every row passes.
pub open spec fn all_hold<T: PartialEq>(conds: Seq<Condition<T>>, row: Seq<T>) -> bool {
    forall|k: int| 0 <= k < conds.len() ==> (#[trigger] conds[k]).holds(row)
}

/// Whether `T`'s `==` is specified, and a clone of a cell equals whatever the cell equals.
/// What the store promises of a query's result, it promises for such a `T`.
pub open spec fn faithful<T: PartialEq + Clone>() -> bool {
    &&& T::obeys_eq_spec()
    &&& forall|cell: T, copy: T, value: T|
        #![trigger cloned(cell, copy), cell.eq_spec(&value)]
        cloned(cell, copy) && cell.eq_spec(&value) ==> copy.eq_spec(&value)
}

/// Tells whether every condition names a column below `width`.
pub fn columns_within<T>(conds: &[Condition<T>], width: usize) -> (b: bool)
    ensures
        b == all_within(conds@, width as nat),
{
    let mut k: usize = 0;
    while k < conds.len()
        invariant
            k <= conds@.len(),
            forall|j: int| 0 <= j < k ==> (#[trigger] conds@[j]).column < width,
        decreases conds@.len() - k,
    {
        if conds[k].column >= width {
            return false;
        }
        k = k + 1;
    }
    true
}

/// Evaluates every condition on a row that has all their columns, stopping at the first one
/// that fails.
pub fn matches_all_within<T: PartialEq>(conds: &[Condition<T>], row: &[T]) -> (b: bool)
    requires
        all_within(conds@, row@.len()),
    ensures
        T::obeys_eq_spec() ==> b == all_hold(conds@, row@),
{
    let mut k: usize = 0;
    while k < conds.len()
        invariant
            k <= conds@.len(),
            all_within(conds@, row@.len()),
            T::obeys_eq_spec() ==> forall|j: int| 0 <= j < k ==> (#[trigger] conds@[j]).holds(row@),
        decreases conds@.len() - k,
    {
        if !conds[k].matches_within(row) {
            return false;
        }
        k = k + 1;
    }
    true
}

/// Evaluates a conjunction of conditions on one row. A condition on a column that the row
/// does not have is an error, whatever the other conditions say.
pub fn matches_all<T: PartialEq>(conds: &[Condition<T>], row: &[T]) -> (r: Result<bool, Error>)
    ensures
        match r {
            Ok(b) => all_within(conds@, row@.len()) && (T::obeys_eq_spec() ==> b == all_hold(
                conds@,
                row@,
            )),
            Err(e) => e == Error::InvalidColumn && !all_within(conds@, row@.len()),
        },
{
    if columns_within(conds, row.len()) {
        Ok(matches_all_within(conds, row))
    } else {
        Err(Error::InvalidColumn)
    }
}

} // verus!
