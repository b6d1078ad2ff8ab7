use crate::idx::all_below;
use crate::idx::ascending;
use crate::idx::recorded;
use crate::idx::EqualityIndex;
use crate::idx::Index;
use std::collections::HashMap;
use std::hash::Hash;
use vstd::laws_eq::obeys_concrete_eq;
use vstd::prelude::*;
use vstd::std_specs::cmp::PartialEqSpec;
use vstd::std_specs::hash::obeys_key_model;

verus! {

/// The rows recorded in `entries` with the value `key`, oldest first.
pub open spec fn rows_of<K>(entries: Seq<(K, usize)>, key: K) -> Seq<usize>
    decreases entries.len(),
{
    if entries.len() == 0 {
        Seq::empty()
    } else if entries.last().0 == key {
        rows_of(entries.drop_last(), key).push(entries.last().1)
    } else {
        rows_of(entries.drop_last(), key)
    }
}

/// The values that occur in `entries`.
pub open spec fn keys_of<K>(entries: Seq<(K, usize)>) -> Set<K> {
    Set::new(|key: K| exists|i: int| 0 <= i < entries.len() && (#[trigger] entries[i]).0 == key)
}

/// `total` divided by `parts`, rounded up; 0 where there are no parts.
pub open spec fn average_rounded_up(total: nat, parts: nat) -> nat {
    if parts == 0 {
        0
    } else if total % parts == 0 {
        total / parts
    } else {
        total / parts + 1
    }
}

/// Whether the row identifiers in `entries` rise from each pair to the next.
pub open spec fn rising<K>(entries: Seq<(K, usize)>) -> bool {
    forall|i: int, j: int| 0 <= i < j < entries.len() ==> entries[i].1 < entries[j].1
}

/// An equality index that keeps, for each value, the rows that hold it in a hash map.
pub struct HashIndex<K: Eq + Hash> {
    num: usize,
    map: HashMap<K, Vec<usize>>,
    log: Ghost<Seq<(K, usize)>>,
}

impl<K: Eq + Hash> HashIndex<K> {
    /// An index with nothing recorded.
    ///
    /// The key type has to hash and compare as the hash map expects: equal keys are the same
    /// value, and hashing is deterministic.
    pub fn new() -> (index: HashIndex<K>)
        requires
            obeys_key_model::<K>(),
            obeys_concrete_eq::<K>(),
        ensures
            index.inv(),
            index.entries() == Seq::<(K, usize)>::empty(),
    {
        HashIndex { num: 0, map: HashMap::new(), log: Ghost(Seq::empty()) }
    }
}

impl<K: Eq + Hash> EqualityIndex<K> for HashIndex<K> {
    closed spec fn inv(&self) -> bool {
        &&& obeys_key_model::<K>()
        &&& obeys_concrete_eq::<K>()
        &&& self.num == self.log@.len()
        &&& rising(self.log@)
        &&& forall|i: int| 0 <= i < self.log@.len() ==> i <= (#[trigger] self.log@[i]).1
        &&& self.map@.dom() =~= keys_of(self.log@)
        &&& forall|key: K| #[trigger]
            self.map@.contains_key(key) ==> self.map@[key]@ == rows_of(self.log@, key)
    }

    closed spec fn entries(&self) -> Seq<(K, usize)> {
        self.log@
    }

    open spec fn cost(&self) -> usize {
        average_rounded_up(self.entries().len(), keys_of(self.entries()).len()) as usize
    }

    fn lookup(&self, value: &K) -> (found: Vec<usize>)
        ensures
            found@ == rows_of(self.entries(), *value),
    {
        proof {
            reveal(obeys_concrete_eq);
            lemma_rows_of(self.log@, *value);
        }
        match self.map.get(value) {
            Some(rows) => rows.clone(),
            None => Vec::new(),
        }
    }

    fn index(&mut self, value: K, row: usize) {
        let ghost before = self.log@;
        let ghost after = before.push((value, row));
        proof {
            lemma_rows_of(before, value);
            lemma_rows_of_push(before, value, row);
            if before.len() > 0 {
                assert(before[before.len() - 1].1 < row);
            }
        }
        let bucket = self.map.entry(value).or_insert(Vec::new());
        assert(bucket@ =~= rows_of(before, value));
        bucket.push(row);
        self.num = self.num + 1;
        self.log = Ghost(after);
        proof {
            assert(self.map@.dom() =~= keys_of(after));
            assert forall|key: K| #[trigger] self.map@.contains_key(key) implies self.map@[key]@
                == rows_of(after, key) by {
                if key != value {
                    assert(old(self).map@.contains_key(key));
                }
            }
        }
    }

    fn estimate(&self) -> (n: usize) {
        let keys = self.map.len();
        proof {
            lemma_average_fits(self.num as nat, keys as nat);
        }
        if keys == 0 {
            0
        } else if self.num % keys == 0 {
            self.num / keys
        } else {
            self.num / keys + 1
        }
    }
}

/// The rounded-up average of `total` over `parts` is at most `total`, and the quotient is
/// below `total` where there is a remainder.
pub proof fn lemma_average_fits(total: nat, parts: nat)
    ensures
        average_rounded_up(total, parts) <= total,
        parts > 0 && total % parts != 0 ==> total / parts < total,
{
    if parts > 0 {
        assert(total / parts <= total && (parts >= 2 && total >= 1 ==> total / parts < total))
            by (nonlinear_arith)
            requires
                parts > 0,
        ;
        if total % parts != 0 {
            assert(parts >= 2 && total >= 1) by (nonlinear_arith)
                requires
                    parts > 0,
                    total % parts != 0,
            ;
        }
    }
}

/// What `rows_of` yields on a rising log: rows in ascending order, each recorded with `key`,
/// and every row recorded with `key`.
pub proof fn lemma_rows_of<K>(entries: Seq<(K, usize)>, key: K)
    requires
        rising(entries),
    ensures
        ascending(rows_of(entries, key)),
        forall|k: int|
            0 <= k < rows_of(entries, key).len() ==> recorded(
                entries,
                #[trigger] rows_of(entries, key)[k],
            ),
        forall|k: int|
            0 <= k < rows_of(entries, key).len() && entries.len() > 0 ==> (#[trigger] rows_of(
                entries,
                key,
            )[k]) <= entries.last().1,
        forall|i: int|
            0 <= i < entries.len() && (#[trigger] entries[i]).0 == key ==> rows_of(
                entries,
                key,
            ).contains(entries[i].1),
        rows_of(entries, key).len() > 0 <==> keys_of(entries).contains(key),
    decreases entries.len(),
{
    if entries.len() > 0 {
        let rest = entries.drop_last();
        lemma_rows_of(rest, key);
        let found = rows_of(entries, key);
        let inner = rows_of(rest, key);
        assert forall|k: int| 0 <= k < found.len() implies recorded(entries, #[trigger] found[k]) by {
            if k < inner.len() {
                let i = choose|i: int| 0 <= i < rest.len() && (#[trigger] rest[i]).1 == inner[k];
                assert(entries[i].1 == found[k]);
            } else {
                assert(entries[entries.len() - 1].1 == found[k]);
            }
        }
        assert forall|i: int| 0 <= i < entries.len() && (#[trigger] entries[i]).0 == key implies found.contains(
            entries[i].1,
        ) by {
            if i < rest.len() {
                assert(rest[i] == entries[i]);
                let k = choose|k: int| 0 <= k < inner.len() && inner[k] == rest[i].1;
                assert(found[k] == entries[i].1);
            } else {
                assert(found[found.len() - 1] == entries[i].1);
            }
        }
        assert forall|k: int| 0 <= k < inner.len() implies (#[trigger] inner[k]) < entries.last().1 by {
            if rest.len() > 0 {
                assert(rest.last() == entries[rest.len() - 1]);
            }
        }
        if keys_of(entries).contains(key) {
            let i = choose|i: int| 0 <= i < entries.len() && (#[trigger] entries[i]).0 == key;
            assert(found.contains(entries[i].1));
        }
        if found.len() > 0 {
            let i = choose|i: int| 0 <= i < entries.len() && (#[trigger] entries[i]).1 == found[0];
            if entries.last().0 == key {
                assert(entries[entries.len() - 1].0 == key);
            } else {
                assert(keys_of(rest).contains(key));
                let j = choose|j: int| 0 <= j < rest.len() && (#[trigger] rest[j]).0 == key;
                assert(entries[j].0 == key);
            }
        }
    }
}

/// How `rows_of` and `keys_of` change when one pair is recorded.
pub proof fn lemma_rows_of_push<K>(entries: Seq<(K, usize)>, value: K, row: usize)
    ensures
        rows_of(entries.push((value, row)), value) == rows_of(entries, value).push(row),
        forall|key: K|
            key != value ==> #[trigger] rows_of(entries.push((value, row)), key) == rows_of(
                entries,
                key,
            ),
        keys_of(entries.push((value, row))) =~= keys_of(entries).insert(value),
{
    let after = entries.push((value, row));
    assert(after.drop_last() =~= entries);
    assert(after.last() == (value, row));
    assert forall|key: K| keys_of(after).contains(key) <==> keys_of(entries).insert(
        value,
    ).contains(key) by {
        if keys_of(after).contains(key) {
            let i = choose|i: int| 0 <= i < after.len() && (#[trigger] after[i]).0 == key;
            if i < entries.len() {
                assert(entries[i].0 == key);
            }
        }
        if keys_of(entries).contains(key) {
            let i = choose|i: int| 0 <= i < entries.len() && (#[trigger] entries[i]).0 == key;
            assert(after[i].0 == key);
        }
        if key == value {
            assert(after[after.len() - 1].0 == key);
        }
    }
}

/// A hash index can stand wherever an index is asked for: as an equality index.
impl<K: PartialOrd + Eq + Hash + 'static> From<HashIndex<K>> for Index<K> {
    fn from(index: HashIndex<K>) -> (wrapped: Index<K>) {
        Index::Equality(Box::new(index))
    }
}

impl<K: PartialOrd + Eq + Hash + 'static> vstd::std_specs::convert::FromSpecImpl<HashIndex<K>> for Index<K> {
    open spec fn obeys_from_spec() -> bool {
        true
    }

    open spec fn from_spec(index: HashIndex<K>) -> Index<K> {
        Index::Equality(Box::new(index))
    }
}

} // verus!
