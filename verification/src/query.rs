use crate::cmp::all_hold;
use crate::cmp::Condition;
use vstd::prelude::*;
use vstd::std_specs::cmp::PartialEqSpec;

verus! {

/// The rows that a list of row references refers to.
pub open spec fn views<T>(found: Seq<&[T]>) -> Seq<Seq<T>> {
    found.map_values(|row: &[T]| row@)
}

/// Whether each row of `found` is a row of `rows` and passes every condition, given that `T`'s
/// `==` is specified. A query's result is such whatever the indices answer.
pub open spec fn picked<T: PartialEq>(
    found: Seq<&[T]>,
    rows: Seq<Seq<T>>,
    conds: Seq<Condition<T>>,
) -> bool {
    forall|k: int|
        0 <= k < found.len() ==> rows.contains((#[trigger] found[k])@) && (T::obeys_eq_spec()
            ==> all_hold(conds, found[k]@))
}

/// The rows that pass every condition, in the order in which they stand in `rows`, each as
/// often as it stands there. This is what a query returns.
pub open spec fn select<T: PartialEq>(rows: Seq<Seq<T>>, conds: Seq<Condition<T>>) -> Seq<Seq<T>>
    decreases rows.len(),
{
    if rows.len() == 0 {
        Seq::empty()
    } else if all_hold(conds, rows.last()) {
        select(rows.drop_last(), conds).push(rows.last())
    } else {
        select(rows.drop_last(), conds)
    }
}

/// The positions in `rows` of the rows that pass every condition, in ascending order.
pub open spec fn matching<T: PartialEq>(rows: Seq<Seq<T>>, conds: Seq<Condition<T>>) -> Seq<int>
    decreases rows.len(),
{
    if rows.len() == 0 {
        Seq::empty()
    } else if all_hold(conds, rows.last()) {
        matching(rows.drop_last(), conds).push(rows.len() - 1)
    } else {
        matching(rows.drop_last(), conds)
    }
}

/// Selecting from one row more: the row is added at the end if it passes.
pub proof fn lemma_select_next<T: PartialEq>(rows: Seq<Seq<T>>, conds: Seq<Condition<T>>, n: int)
    requires
        0 <= n < rows.len(),
    ensures
        select(rows.take(n + 1), conds) == if all_hold(conds, rows[n]) {
            select(rows.take(n), conds).push(rows[n])
        } else {
            select(rows.take(n), conds)
        },
{
    assert(rows.take(n + 1).drop_last() =~= rows.take(n));
    assert(rows.take(n + 1).last() == rows[n]);
}

/// Rows that do not pass add nothing: if no row at a position from `from` up to `to`
/// passes, selecting from the first `to` rows gives what selecting from the first `from` gives.
pub proof fn lemma_select_skip<T: PartialEq>(
    rows: Seq<Seq<T>>,
    conds: Seq<Condition<T>>,
    from: int,
    to: int,
)
    requires
        0 <= from <= to <= rows.len(),
        forall|i: int| from <= i < to ==> !all_hold(conds, #[trigger] rows[i]),
    ensures
        select(rows.take(to), conds) == select(rows.take(from), conds),
    decreases to - from,
{
    if from < to {
        lemma_select_skip(rows, conds, from, to - 1);
        lemma_select_next(rows, conds, to - 1);
    }
}

/// With no conditions a query returns every row, in the order of insertion.
pub proof fn lemma_select_everything<T: PartialEq>(rows: Seq<Seq<T>>)
    ensures
        select(rows, Seq::<Condition<T>>::empty()) == rows,
    decreases rows.len(),
{
    if rows.len() > 0 {
        lemma_select_everything(rows.drop_last());
        assert(rows.drop_last().push(rows.last()) =~= rows);
    }
}

/// Soundness: every row that a query returns passes every condition of the query.
pub proof fn lemma_select_sound<T: PartialEq>(rows: Seq<Seq<T>>, conds: Seq<Condition<T>>)
    ensures
        forall|k: int|
            0 <= k < select(rows, conds).len() ==> all_hold(conds, #[trigger] select(rows, conds)[k]),
    decreases rows.len(),
{
    if rows.len() > 0 {
        let inner = select(rows.drop_last(), conds);
        lemma_select_sound(rows.drop_last(), conds);
        assert forall|k: int| 0 <= k < select(rows, conds).len() implies all_hold(
            conds,
            #[trigger] select(rows, conds)[k],
        ) by {
            if k < inner.len() {
                assert(select(rows, conds)[k] == inner[k]);
            }
        }
    }
}

/// Completeness: a query returns the rows at the positions `matching(rows, conds)`. These
/// positions ascend, so none occurs twice, and a position is among them if and only if the
/// row there passes every condition.
pub proof fn lemma_select_complete<T: PartialEq>(rows: Seq<Seq<T>>, conds: Seq<Condition<T>>)
    ensures
        select(rows, conds) == matching(rows, conds).map_values(|i: int| rows[i]),
        forall|j: int, k: int|
            0 <= j < k < matching(rows, conds).len() ==> matching(rows, conds)[j] < matching(
                rows,
                conds,
            )[k],
        forall|k: int|
            0 <= k < matching(rows, conds).len() ==> 0 <= #[trigger] matching(rows, conds)[k]
                < rows.len(),
        forall|i: int|
            0 <= i < rows.len() ==> (all_hold(conds, #[trigger] rows[i]) <==> matching(
                rows,
                conds,
            ).contains(i)),
    decreases rows.len(),
{
    let ids = matching(rows, conds);
    if rows.len() > 0 {
        let rest = rows.drop_last();
        let inner = matching(rest, conds);
        lemma_select_complete(rest, conds);
        assert(select(rows, conds) =~= ids.map_values(|i: int| rows[i])) by {
            assert forall|k: int| 0 <= k < inner.len() implies rest[inner[k]] == rows[inner[k]] by {}
            assert(inner.map_values(|i: int| rest[i]) =~= inner.map_values(|i: int| rows[i]));
        }
        assert forall|i: int| 0 <= i < rows.len() implies (all_hold(conds, #[trigger] rows[i])
            <==> ids.contains(i)) by {
            if i < rest.len() {
                assert(rest[i] == rows[i]);
                if inner.contains(i) {
                    let k = choose|k: int| 0 <= k < inner.len() && inner[k] == i;
                    assert(ids[k] == i);
                }
                if ids.contains(i) {
                    let k = choose|k: int| 0 <= k < ids.len() && ids[k] == i;
                    assert(inner[k] == i);
                }
            } else {
                if all_hold(conds, rows[i]) {
                    assert(ids[ids.len() - 1] == i);
                }
                if ids.contains(i) {
                    let k = choose|k: int| 0 <= k < ids.len() && ids[k] == i;
                    if k < inner.len() {
                        assert(inner[k] == i);
                    }
                }
            }
        }
    } else {
        assert(select(rows, conds) =~= ids.map_values(|i: int| rows[i]));
    }
}

} // verus!
