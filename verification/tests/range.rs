use shortcut::idx::Bound;
use shortcut::idx::EqualityIndex;
use shortcut::idx::Index;
use shortcut::idx::RangeIndex;
use shortcut::Comparison;
use shortcut::Condition;
use shortcut::Store;
use shortcut::Value;

/// Keeps its pairs in the order of recording and answers by walking them.
struct Walker {
    pairs: Vec<(u64, usize)>,
    estimate: usize,
}

impl EqualityIndex<u64> for Walker {
    fn inv(&self) -> bool {
        unreachable!()
    }

    fn entries(&self) -> vstd::seq::Seq<(u64, usize)> {
        unreachable!()
    }

    fn cost(&self) -> usize {
        unreachable!()
    }

    fn lookup(&self, value: &u64) -> Vec<usize> {
        self.pairs.iter().filter(|pair| pair.0 == *value).map(|pair| pair.1).collect()
    }

    fn index(&mut self, value: u64, row: usize) {
        self.pairs.push((value, row));
    }

    fn estimate(&self) -> usize {
        self.estimate
    }
}

fn above(value: u64, low: &Bound<u64>) -> bool {
    match low {
        Bound::Included(l) => value >= *l,
        Bound::Excluded(l) => value > *l,
        Bound::Unbounded => true,
    }
}

fn below(value: u64, high: &Bound<u64>) -> bool {
    match high {
        Bound::Included(h) => value <= *h,
        Bound::Excluded(h) => value < *h,
        Bound::Unbounded => true,
    }
}

impl RangeIndex<u64> for Walker {
    fn lookup_range(&self, low: &Bound<u64>, high: &Bound<u64>) -> Vec<usize> {
        self.pairs
            .iter()
            .filter(|pair| above(pair.0, low) && below(pair.0, high))
            .map(|pair| pair.1)
            .collect()
    }
}

fn equals(column: usize, value: u64) -> Condition<u64> {
    Condition { column: column, cmp: Comparison::Equal(Value::Const(value)) }
}

fn walker(estimate: usize) -> Index<u64> {
    Index::Range(Box::new(Walker { pairs: Vec::new(), estimate: estimate }))
}

#[test]
fn range_index_serves_equality_conditions() {
    let mut store = Store::new(2);
    store.insert(vec![1, 10]).unwrap();
    store.index(0, walker(1)).unwrap();
    store.insert(vec![2, 20]).unwrap();
    store.insert(vec![1, 30]).unwrap();
    assert_eq!(store.plan(&[equals(1, 30), equals(0, 1)]), Some(1));
    let found = store.find(&[equals(0, 1)]).unwrap();
    let expected: Vec<&[u64]> = vec![&[1, 10], &[1, 30]];
    assert_eq!(found, expected);
}

#[test]
fn range_index_answers_range_lookups() {
    let mut index = walker(1);
    for (row, value) in [5u64, 7, 9, 7].iter().enumerate() {
        index.index(*value, row);
    }
    assert_eq!(index.lookup(&7), vec![1, 3]);
    assert_eq!(index.estimate(), 1);
    assert_eq!(index.lookup_range(&Bound::Included(7), &Bound::Unbounded), Some(vec![1, 2, 3]));
    assert_eq!(index.lookup_range(&Bound::Excluded(7), &Bound::Unbounded), Some(vec![2]));
    assert_eq!(index.lookup_range(&Bound::Included(5), &Bound::Excluded(7)), Some(vec![0]));
    assert_eq!(index.lookup_range(&Bound::Unbounded, &Bound::Included(7)), Some(vec![0, 1, 3]));
    assert_eq!(index.lookup_range(&Bound::Excluded(9), &Bound::Unbounded), Some(vec![]));
}

#[test]
fn estimates_of_other_indices_rank_too() {
    let mut store = Store::new(2);
    store.index(0, walker(5)).unwrap();
    store.index(1, walker(3)).unwrap();
    store.insert(vec![1, 10]).unwrap();
    assert_eq!(store.plan(&[equals(0, 1), equals(1, 10)]), Some(1));
    assert_eq!(store.plan(&[equals(1, 10), equals(0, 1)]), Some(0));
    store.index(1, walker(5)).unwrap();
    assert_eq!(store.plan(&[equals(0, 1), equals(1, 10)]), Some(0));
    store.index(1, walker(6)).unwrap();
    assert_eq!(store.plan(&[equals(1, 10), equals(0, 1)]), Some(1));
    let found = store.find(&[equals(1, 10), equals(0, 1)]).unwrap();
    let expected: Vec<&[u64]> = vec![&[1, 10]];
    assert_eq!(found, expected);
}
