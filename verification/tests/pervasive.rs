use array_engine::error::RuntimeError;
use array_engine::pervasive::{ends_with, pervade_values};
use array_engine::scalar::{apply_elems, complex_op_checked, int_op_checked, kind_of_result, ScalarOp};
use array_engine::value::{Elem, Kind, Value};

fn nums(items: &[i64]) -> Value {
    Value::numbers(&items.to_vec())
}

fn num(n: i64) -> Value {
    Value::scalar(Elem::Num(n))
}

fn bytes(items: &[u8]) -> Value {
    let cells: Vec<Elem> = items.iter().map(|b| Elem::Byte(*b)).collect();
    Value::new(Kind::Byte, vec![items.len()], cells).unwrap()
}

fn matrix(rows: usize, cols: usize, items: &[i64]) -> Value {
    let cells: Vec<Elem> = items.iter().map(|n| Elem::Num(*n)).collect();
    Value::new(Kind::Number, vec![rows, cols], cells).unwrap()
}

#[test]
fn integer_operations_take_the_top_operand_first() {
    assert_eq!(int_op_checked(ScalarOp::Add, 1, 5), Some(6));
    assert_eq!(int_op_checked(ScalarOp::Sub, 1, 5), Some(4));
    assert_eq!(int_op_checked(ScalarOp::Mul, 3, 5), Some(15));
    assert_eq!(int_op_checked(ScalarOp::Div, 4, 16), Some(4));
    assert_eq!(int_op_checked(ScalarOp::Div, 2, 7), Some(3));
    assert_eq!(int_op_checked(ScalarOp::Mod, 3, 7), Some(1));
    assert_eq!(int_op_checked(ScalarOp::Lt, 2, 1), Some(1));
    assert_eq!(int_op_checked(ScalarOp::Lt, 1, 2), Some(0));
    assert_eq!(int_op_checked(ScalarOp::Le, 2, 2), Some(1));
    assert_eq!(int_op_checked(ScalarOp::Gt, 1, 2), Some(1));
    assert_eq!(int_op_checked(ScalarOp::Ge, 3, 2), Some(0));
    assert_eq!(int_op_checked(ScalarOp::Eq, 3, 3), Some(1));
    assert_eq!(int_op_checked(ScalarOp::Ne, 3, 3), Some(0));
    assert_eq!(int_op_checked(ScalarOp::Min, 3, -3), Some(-3));
    assert_eq!(int_op_checked(ScalarOp::Max, 3, -3), Some(3));
    assert_eq!(int_op_checked(ScalarOp::Complex, 3, 3), None);
}

#[test]
fn quotient_and_remainder_are_euclidean() {
    assert_eq!(int_op_checked(ScalarOp::Div, 2, -7), Some(-4));
    assert_eq!(int_op_checked(ScalarOp::Mod, 2, -7), Some(1));
    assert_eq!(int_op_checked(ScalarOp::Div, -2, 7), Some(-3));
    assert_eq!(int_op_checked(ScalarOp::Mod, -2, 7), Some(1));
    assert_eq!(int_op_checked(ScalarOp::Div, -2, -7), Some(4));
    assert_eq!(int_op_checked(ScalarOp::Mod, -2, -7), Some(1));
    assert_eq!(int_op_checked(ScalarOp::Mod, -1, i64::MIN), Some(0));
    assert_eq!(int_op_checked(ScalarOp::Mod, -1, 5), Some(0));
}

#[test]
fn integer_operations_fail_outside_64_bits_and_on_zero_divisors() {
    assert_eq!(int_op_checked(ScalarOp::Add, 1, i64::MAX), None);
    assert_eq!(int_op_checked(ScalarOp::Sub, 1, i64::MIN), None);
    assert_eq!(int_op_checked(ScalarOp::Mul, 2, i64::MAX), None);
    assert_eq!(int_op_checked(ScalarOp::Div, 0, 5), None);
    assert_eq!(int_op_checked(ScalarOp::Mod, 0, 5), None);
    assert_eq!(int_op_checked(ScalarOp::Div, -1, i64::MIN), None);
    assert_eq!(int_op_checked(ScalarOp::Add, 0, i64::MAX), Some(i64::MAX));
}

#[test]
fn complex_operations() {
    assert_eq!(complex_op_checked(ScalarOp::Add, (1, 2), (3, 4)), Some((4, 6)));
    assert_eq!(complex_op_checked(ScalarOp::Sub, (1, 2), (3, 5)), Some((2, 3)));
    assert_eq!(complex_op_checked(ScalarOp::Mul, (1, 2), (3, 4)), Some((-5, 10)));
    assert_eq!(complex_op_checked(ScalarOp::Mul, (0, 1), (0, 1)), Some((-1, 0)));
    assert_eq!(complex_op_checked(ScalarOp::Eq, (1, 2), (1, 2)), Some((1, 0)));
    assert_eq!(complex_op_checked(ScalarOp::Eq, (1, 2), (1, 3)), Some((0, 0)));
    assert_eq!(complex_op_checked(ScalarOp::Ne, (1, 2), (1, 3)), Some((1, 0)));
    assert_eq!(complex_op_checked(ScalarOp::Lt, (5, 1), (3, 4)), Some((1, 0)));
    assert_eq!(complex_op_checked(ScalarOp::Max, (5, 1), (3, 4)), Some((5, 4)));
    assert_eq!(complex_op_checked(ScalarOp::Min, (5, 1), (3, 4)), Some((3, 1)));
    assert_eq!(complex_op_checked(ScalarOp::Complex, (7, 0), (9, 0)), Some((9, 7)));
    assert_eq!(complex_op_checked(ScalarOp::Div, (1, 2), (3, 4)), None);
    assert_eq!(complex_op_checked(ScalarOp::Mod, (1, 2), (3, 4)), None);
    assert_eq!(complex_op_checked(ScalarOp::Add, (i64::MAX, 0), (1, 0)), None);
    assert_eq!(complex_op_checked(ScalarOp::Mul, (i64::MIN, i64::MIN), (i64::MIN, i64::MIN)), None);
    assert_eq!(complex_op_checked(ScalarOp::Mul, (i64::MAX, 0), (1, 0)), Some((i64::MAX, 0)));
}

#[test]
fn result_kinds_follow_the_promotion_rule() {
    assert_eq!(kind_of_result(ScalarOp::Eq, Kind::Byte, Kind::Byte), Some(Kind::Byte));
    assert_eq!(kind_of_result(ScalarOp::Max, Kind::Byte, Kind::Byte), Some(Kind::Byte));
    assert_eq!(kind_of_result(ScalarOp::Add, Kind::Byte, Kind::Byte), Some(Kind::Number));
    assert_eq!(kind_of_result(ScalarOp::Add, Kind::Byte, Kind::Number), Some(Kind::Number));
    assert_eq!(kind_of_result(ScalarOp::Eq, Kind::Number, Kind::Byte), Some(Kind::Number));
    assert_eq!(kind_of_result(ScalarOp::Mul, Kind::Number, Kind::Number), Some(Kind::Number));
    assert_eq!(kind_of_result(ScalarOp::Add, Kind::Complex, Kind::Byte), Some(Kind::Complex));
    assert_eq!(kind_of_result(ScalarOp::Lt, Kind::Number, Kind::Complex), Some(Kind::Complex));
    assert_eq!(kind_of_result(ScalarOp::Div, Kind::Number, Kind::Complex), None);
    assert_eq!(kind_of_result(ScalarOp::Complex, Kind::Number, Kind::Byte), Some(Kind::Complex));
    assert_eq!(kind_of_result(ScalarOp::Complex, Kind::Complex, Kind::Number), None);
    assert_eq!(kind_of_result(ScalarOp::Eq, Kind::Character, Kind::Character), Some(Kind::Byte));
    assert_eq!(kind_of_result(ScalarOp::Lt, Kind::Character, Kind::Character), Some(Kind::Byte));
    assert_eq!(kind_of_result(ScalarOp::Add, Kind::Character, Kind::Character), None);
    assert_eq!(kind_of_result(ScalarOp::Min, Kind::Character, Kind::Character), None);
    assert_eq!(kind_of_result(ScalarOp::Eq, Kind::Character, Kind::Number), None);
    assert_eq!(kind_of_result(ScalarOp::Eq, Kind::Box, Kind::Box), None);
    assert_eq!(kind_of_result(ScalarOp::Add, Kind::Number, Kind::Box), None);
}

#[test]
fn cells_apply() {
    assert!(matches!(apply_elems(ScalarOp::Add, &Elem::Byte(200), &Elem::Byte(100)), Ok(Elem::Num(300))));
    assert!(matches!(apply_elems(ScalarOp::Max, &Elem::Byte(200), &Elem::Byte(100)), Ok(Elem::Byte(200))));
    assert!(matches!(apply_elems(ScalarOp::Le, &Elem::Byte(2), &Elem::Byte(1)), Ok(Elem::Byte(1))));
    assert!(matches!(apply_elems(ScalarOp::Sub, &Elem::Num(1), &Elem::Byte(5)), Ok(Elem::Num(4))));
    assert!(matches!(apply_elems(ScalarOp::Add, &Elem::Cpx(1, 1), &Elem::Num(5)), Ok(Elem::Cpx(6, 1))));
    assert!(matches!(apply_elems(ScalarOp::Complex, &Elem::Num(2), &Elem::Num(5)), Ok(Elem::Cpx(5, 2))));
    assert!(matches!(apply_elems(ScalarOp::Lt, &Elem::Char('b'), &Elem::Char('a')), Ok(Elem::Byte(1))));
    assert!(matches!(apply_elems(ScalarOp::Eq, &Elem::Char('b'), &Elem::Char('a')), Ok(Elem::Byte(0))));
    assert!(matches!(
        apply_elems(ScalarOp::Add, &Elem::Char('b'), &Elem::Num(1)),
        Err(RuntimeError::DomainError)
    ));
    assert!(matches!(
        apply_elems(ScalarOp::Div, &Elem::Num(0), &Elem::Num(1)),
        Err(RuntimeError::DomainError)
    ));
    assert!(matches!(
        apply_elems(ScalarOp::Add, &Elem::Boxed(num(1)), &Elem::Num(1)),
        Err(RuntimeError::DomainError)
    ));
}

#[test]
fn equal_shapes_zip() {
    let r = pervade_values(ScalarOp::Add, &nums(&[1, 2, 3]), &nums(&[10, 20, 30])).unwrap();
    assert!(r.same(&nums(&[11, 22, 33])));
    let r = pervade_values(ScalarOp::Sub, &nums(&[1, 2, 3]), &nums(&[10, 20, 30])).unwrap();
    assert!(r.same(&nums(&[9, 18, 27])));
    let r = pervade_values(ScalarOp::Div, &num(4), &num(16)).unwrap();
    assert!(r.same(&num(4)));
}

#[test]
fn scalar_broadcasts_against_every_cell() {
    let a = matrix(2, 2, &[1, 2, 3, 4]);
    let r = pervade_values(ScalarOp::Mul, &num(10), &a).unwrap();
    assert!(r.same(&matrix(2, 2, &[10, 20, 30, 40])));
    let r = pervade_values(ScalarOp::Sub, &a, &num(10)).unwrap();
    assert!(r.same(&matrix(2, 2, &[9, 8, 7, 6])));
    let r = pervade_values(ScalarOp::Sub, &num(10), &a).unwrap();
    assert!(r.same(&matrix(2, 2, &[-9, -8, -7, -6])));
}

#[test]
fn broadcast_law_on_rows() {
    let a = matrix(3, 2, &[1, 2, 3, 4, 5, 6]);
    let x = num(7);
    let whole = pervade_values(ScalarOp::Add, &x, &a).unwrap();
    for j in 0..3 {
        let row = pervade_values(ScalarOp::Add, &x, &a.row(j)).unwrap();
        assert!(row.same(&whole.row(j)));
    }
    assert_eq!(whole.shape(), a.shape());
}

#[test]
fn shorter_shape_repeats_along_leading_axes() {
    let a = matrix(2, 3, &[1, 2, 3, 4, 5, 6]);
    let v = nums(&[10, 20, 30]);
    let r = pervade_values(ScalarOp::Add, &v, &a).unwrap();
    assert!(r.same(&matrix(2, 3, &[11, 22, 33, 14, 25, 36])));
    let r = pervade_values(ScalarOp::Add, &a, &v).unwrap();
    assert!(r.same(&matrix(2, 3, &[11, 22, 33, 14, 25, 36])));
    assert!(ends_with(&a, &v));
    assert!(!ends_with(&v, &a));
    assert!(ends_with(&a, &num(1)));
}

#[test]
fn shapes_that_do_not_fit_are_a_mismatch() {
    let r = pervade_values(ScalarOp::Add, &nums(&[1, 2]), &nums(&[1, 2, 3]));
    assert_eq!(r.unwrap_err(), RuntimeError::ShapeMismatch);
    let r = pervade_values(ScalarOp::Add, &nums(&[1, 2]), &matrix(2, 3, &[1, 2, 3, 4, 5, 6]));
    assert_eq!(r.unwrap_err(), RuntimeError::ShapeMismatch);
    let r = pervade_values(ScalarOp::Add, &Value::text("ab"), &nums(&[1, 2, 3]));
    assert_eq!(r.unwrap_err(), RuntimeError::ShapeMismatch);
}

#[test]
fn wrong_kinds_and_failing_cells_are_domain_errors() {
    let r = pervade_values(ScalarOp::Add, &Value::text("ab"), &nums(&[1, 2]));
    assert_eq!(r.unwrap_err(), RuntimeError::DomainError);
    let r = pervade_values(ScalarOp::Div, &nums(&[1, 0]), &nums(&[1, 2]));
    assert_eq!(r.unwrap_err(), RuntimeError::DomainError);
    let r = pervade_values(ScalarOp::Add, &nums(&[]), &Value::text(""));
    assert_eq!(r.unwrap_err(), RuntimeError::DomainError);
    let r = pervade_values(ScalarOp::Add, &num(1), &nums(&[1, i64::MAX]));
    assert_eq!(r.unwrap_err(), RuntimeError::DomainError);
}

#[test]
fn kinds_promote() {
    let r = pervade_values(ScalarOp::Eq, &bytes(&[1, 0, 1]), &bytes(&[1, 1, 0])).unwrap();
    assert!(r.same(&bytes(&[1, 0, 0])));
    let r = pervade_values(ScalarOp::Add, &bytes(&[200, 1]), &bytes(&[100, 1])).unwrap();
    assert!(r.same(&nums(&[300, 2])));
    let r = pervade_values(ScalarOp::Add, &bytes(&[1, 2]), &nums(&[10, 20])).unwrap();
    assert!(r.same(&nums(&[11, 22])));
    let r = pervade_values(ScalarOp::Complex, &nums(&[1, 2]), &nums(&[10, 20])).unwrap();
    assert_eq!(r.kind(), Kind::Complex);
    assert!(matches!(r.cell(1), Elem::Cpx(20, 2)));
    let r = pervade_values(ScalarOp::Eq, &Value::text("abc"), &Value::text("abd")).unwrap();
    assert!(r.same(&bytes(&[1, 1, 0])));
    let empty = pervade_values(ScalarOp::Add, &nums(&[]), &num(1)).unwrap();
    assert!(empty.same(&nums(&[])));
}
