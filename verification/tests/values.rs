use array_engine::error::RuntimeError;
use array_engine::shape::{checked_product, has_zero};
use array_engine::show::show_stack;
use array_engine::value::{Elem, Kind, Value};

fn nums(items: &[i64]) -> Value {
    Value::numbers(&items.to_vec())
}

fn matrix(rows: usize, cols: usize, items: &[i64]) -> Value {
    let cells: Vec<Elem> = items.iter().map(|n| Elem::Num(*n)).collect();
    Value::new(Kind::Number, vec![rows, cols], cells).unwrap()
}

#[test]
fn product_of_dimensions() {
    assert_eq!(checked_product(&vec![]), Some(1));
    assert_eq!(checked_product(&vec![2, 3, 4]), Some(24));
    assert_eq!(checked_product(&vec![7]), Some(7));
    assert_eq!(checked_product(&vec![usize::MAX, 2]), None);
    assert_eq!(checked_product(&vec![usize::MAX, 2, 0]), Some(0));
    assert_eq!(checked_product(&vec![0, usize::MAX, usize::MAX]), Some(0));
    assert_eq!(checked_product(&vec![usize::MAX, 1, 1]), Some(usize::MAX));
    assert!(has_zero(&vec![3, 0, 2]));
    assert!(!has_zero(&vec![3, 1, 2]));
    assert!(!has_zero(&vec![]));
}

#[test]
fn new_checks_that_shape_accounts_for_cells() {
    let ok = Value::new(Kind::Number, vec![2, 2], vec![Elem::Num(1), Elem::Num(2), Elem::Num(3), Elem::Num(4)]);
    let v = ok.unwrap();
    assert_eq!(v.shape(), vec![2, 2]);
    assert_eq!(v.count(), 4);
    assert_eq!(v.rank(), 2);
    assert_eq!(v.kind(), Kind::Number);
    let short = Value::new(Kind::Number, vec![2, 2], vec![Elem::Num(1), Elem::Num(2), Elem::Num(3)]);
    assert_eq!(short.unwrap_err(), RuntimeError::ShapeMismatch);
    let huge = Value::new(Kind::Number, vec![usize::MAX, 2], vec![]);
    assert_eq!(huge.unwrap_err(), RuntimeError::ShapeMismatch);
    let empty = Value::new(Kind::Character, vec![0, 5], vec![]).unwrap();
    assert_eq!(empty.count(), 0);
    assert_eq!(empty.row_count(), 0);
}

#[test]
fn new_checks_that_cells_are_of_one_kind() {
    let mixed = Value::new(Kind::Number, vec![2], vec![Elem::Num(1), Elem::Byte(2)]);
    assert_eq!(mixed.unwrap_err(), RuntimeError::DomainError);
    let wrong = Value::new(Kind::Byte, vec![1], vec![Elem::Char('a')]);
    assert_eq!(wrong.unwrap_err(), RuntimeError::DomainError);
    let boxes = Value::new(Kind::Box, vec![2], vec![Elem::Boxed(nums(&[1])), Elem::Boxed(Value::text("ab"))]);
    assert_eq!(boxes.unwrap().kind(), Kind::Box);
}

#[test]
fn scalar_has_no_dimensions_and_one_cell() {
    let s = Value::scalar(Elem::Num(4));
    assert_eq!(s.rank(), 0);
    assert_eq!(s.count(), 1);
    assert_eq!(s.row_count(), 1);
    assert_eq!(s.row_len(), 1);
    assert!(matches!(s.cell(0), Elem::Num(4)));
    assert_eq!(Value::scalar(Elem::Cpx(1, 2)).kind(), Kind::Complex);
    assert_eq!(Value::scalar(Elem::Char('x')).kind(), Kind::Character);
    assert_eq!(Value::scalar(Elem::Byte(1)).kind(), Kind::Byte);
}

#[test]
fn rows_are_windows_in_row_major_order() {
    let m = matrix(2, 3, &[1, 2, 3, 4, 5, 6]);
    assert_eq!(m.row_count(), 2);
    assert_eq!(m.row_len(), 3);
    assert_eq!(m.dim(0), 2);
    assert_eq!(m.dim(1), 3);
    assert_eq!(m.row_dims(), vec![3]);
    let r0 = m.row(0);
    let r1 = m.row(1);
    assert!(r0.same(&nums(&[1, 2, 3])));
    assert!(r1.same(&nums(&[4, 5, 6])));
    assert!(r1.shares_cells_with(&m));
    assert!(r0.shares_cells_with(&r1));
    let cell = r1.row(2);
    assert!(cell.same(&Value::scalar(Elem::Num(6))));
    assert!(cell.shares_cells_with(&m));
}

#[test]
fn share_is_the_same_array_on_the_same_cells() {
    let a = nums(&[1, 5, 8, 2]);
    let b = a.share();
    assert!(a.same(&b));
    assert!(a.shares_cells_with(&b));
    let c = a.clone();
    assert!(c.same(&a));
    assert!(c.shares_cells_with(&a));
}

#[test]
fn same_compares_kind_shape_and_cells() {
    assert!(nums(&[1, 2]).same(&nums(&[1, 2])));
    assert!(!nums(&[1, 2]).same(&nums(&[1, 3])));
    assert!(!nums(&[1, 2]).same(&nums(&[1, 2, 3])));
    assert!(!nums(&[1, 2, 3, 4]).same(&matrix(2, 2, &[1, 2, 3, 4])));
    let bytes = Value::new(Kind::Byte, vec![2], vec![Elem::Byte(1), Elem::Byte(2)]).unwrap();
    assert!(!bytes.same(&nums(&[1, 2])));
    let b1 = Value::scalar(Elem::Boxed(nums(&[1, 2])));
    let b2 = Value::scalar(Elem::Boxed(nums(&[1, 2])));
    let b3 = Value::scalar(Elem::Boxed(nums(&[2, 1])));
    assert!(b1.same(&b2));
    assert!(!b1.same(&b3));
}

#[test]
fn reshaped_keeps_the_cells() {
    let v = nums(&[1, 2, 3, 4, 5, 6]).reshaped(vec![3, 2]);
    assert!(v.same(&matrix(3, 2, &[1, 2, 3, 4, 5, 6])));
}

#[test]
fn text_is_a_vector_of_characters() {
    let t = Value::text("héllo");
    assert_eq!(t.kind(), Kind::Character);
    assert_eq!(t.shape(), vec![5]);
    assert!(matches!(t.cell(1), Elem::Char('é')));
    assert_eq!(Value::text("").count(), 0);
}

#[test]
fn show_prints_scalars() {
    assert_eq!(Value::scalar(Elem::Num(4)).show(), "4");
    assert_eq!(Value::scalar(Elem::Num(0)).show(), "0");
    assert_eq!(Value::scalar(Elem::Num(-17)).show(), "-17");
    assert_eq!(Value::scalar(Elem::Num(i64::MIN)).show(), "-9223372036854775808");
    assert_eq!(Value::scalar(Elem::Num(i64::MAX)).show(), "9223372036854775807");
    assert_eq!(Value::scalar(Elem::Byte(255)).show(), "255");
    assert_eq!(Value::scalar(Elem::Cpx(3, 4)).show(), "3+4i");
    assert_eq!(Value::scalar(Elem::Cpx(-3, -4)).show(), "-3-4i");
    assert_eq!(Value::scalar(Elem::Cpx(0, 0)).show(), "0+0i");
    assert_eq!(Value::scalar(Elem::Char('a')).show(), "@a");
    assert_eq!(Value::scalar(Elem::Boxed(nums(&[1]))).show(), "□");
}

#[test]
fn show_prints_arrays_row_by_row() {
    assert_eq!(nums(&[1, 2, 3]).show(), "[1 2 3]");
    assert_eq!(nums(&[]).show(), "[]");
    assert_eq!(nums(&[100]).show(), "[100]");
    assert_eq!(matrix(2, 2, &[1, 2, 3, 4]).show(), "[[1 2] [3 4]]");
    assert_eq!(Value::text("uiua").show(), "\"uiua\"");
    assert_eq!(Value::text("").show(), "\"\"");
    let words = Value::new(
        Kind::Character,
        vec![2, 2],
        vec![Elem::Char('a'), Elem::Char('b'), Elem::Char('c'), Elem::Char('d')],
    )
    .unwrap();
    assert_eq!(words.show(), "[\"ab\" \"cd\"]");
    let cube = Value::new(Kind::Number, vec![1, 2, 1], vec![Elem::Num(7), Elem::Num(8)]).unwrap();
    assert_eq!(cube.show(), "[[[7] [8]]]");
}

#[test]
fn a_stack_is_shown_from_the_top() {
    let stack = vec![nums(&[1, 2]), Value::text("ab"), Value::scalar(Elem::Num(7))];
    assert_eq!(show_stack(&stack), "7\"ab\"[1 2]");
    assert_eq!(show_stack(&vec![]), "");
    assert_eq!(show_stack(&vec![Value::scalar(Elem::Num(4))]), "4");
}

#[test]
fn a_span_of_rows_is_a_window_into_the_cells() {
    let m = matrix(4, 2, &[1, 2, 3, 4, 5, 6, 7, 8]);
    let mid = m.span(1, 2);
    assert!(mid.same(&matrix(2, 2, &[3, 4, 5, 6])));
    assert!(mid.shares_cells_with(&m));
    assert!(m.span(0, 4).same(&m));
    assert_eq!(m.span(4, 0).shape(), vec![0, 2]);
    assert_eq!(m.span(2, 0).count(), 0);
    assert!(nums(&[1, 2, 3]).span(2, 1).same(&nums(&[3])));
}
