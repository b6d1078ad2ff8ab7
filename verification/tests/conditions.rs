use shortcut::cmp::columns_within;
use shortcut::cmp::matches_all;
use shortcut::cmp::matches_all_within;
use shortcut::cmp::Comparison;
use shortcut::cmp::Condition;
use shortcut::cmp::Value;
use shortcut::Error;

fn equals<T>(column: usize, value: T) -> Condition<T> {
    Condition { column: column, cmp: Comparison::Equal(Value::Const(value)) }
}

#[test]
fn comparison_is_equality_with_the_constant() {
    let five = Comparison::Equal(Value::Const(5u64));
    assert!(five.matches(&5));
    assert!(!five.matches(&6));
    assert_eq!(five.equality_value(), Some(&5));
}

#[test]
fn condition_reads_its_column() {
    let cond = equals(1, "b");
    assert_eq!(cond.matches(&["a", "b"]), Ok(true));
    assert_eq!(cond.matches(&["b", "a"]), Ok(false));
    assert!(cond.matches_within(&["a", "b", "c"]));
    assert_eq!(cond.equality_value(), Some(&"b"));
}

#[test]
fn condition_on_a_short_row_is_an_error() {
    let cond = equals(2, "b");
    assert_eq!(cond.matches(&["a", "b"]), Err(Error::InvalidColumn));
    assert_eq!(cond.matches(&[]), Err(Error::InvalidColumn));
    assert_eq!(cond.matches(&["a", "a", "b"]), Ok(true));
}

#[test]
fn no_conditions_match_every_row() {
    let none: [Condition<u64>; 0] = [];
    assert_eq!(matches_all(&none, &[1, 2]), Ok(true));
    assert_eq!(matches_all(&none, &[]), Ok(true));
    assert!(matches_all_within(&none, &[1, 2]));
}

#[test]
fn conjunction_needs_every_condition() {
    let conds = [equals(0, 1u64), equals(1, 2u64)];
    assert_eq!(matches_all(&conds, &[1, 2]), Ok(true));
    assert_eq!(matches_all(&conds, &[1, 3]), Ok(false));
    assert_eq!(matches_all(&conds, &[0, 2]), Ok(false));
    assert!(matches_all_within(&conds, &[1, 2, 9]));
    assert!(!matches_all_within(&conds, &[2, 1]));
}

#[test]
fn conjunction_with_a_missing_column_is_an_error() {
    let conds = [equals(0, 1u64), equals(2, 2u64)];
    assert_eq!(matches_all(&conds, &[0, 0]), Err(Error::InvalidColumn));
    assert_eq!(matches_all(&conds, &[1, 0]), Err(Error::InvalidColumn));
    assert_eq!(matches_all(&conds, &[1, 0, 2]), Ok(true));
}

#[test]
fn columns_within_checks_every_condition() {
    let conds = [equals(0, 1u64), equals(3, 2u64), equals(1, 2u64)];
    assert!(columns_within(&conds, 4));
    assert!(!columns_within(&conds, 3));
    assert!(!columns_within(&conds, 0));
    let none: [Condition<u64>; 0] = [];
    assert!(columns_within(&none, 0));
}

#[test]
fn errors_describe_themselves() {
    assert_eq!(Error::ShapeMismatch.message(), "row length differs from the column count");
    assert_eq!(Error::InvalidColumn.message(), "column number out of range");
    assert_ne!(Error::ShapeMismatch, Error::InvalidColumn);
}
