use array_engine::arrayops::{
    append_cells, concat_dims, couple_value, dims_equal, first_value, first_where_value,
    join_value, last_value, last_where_value, len_value, mask, range_value, reverse_value,
    select_value, stack_values, where_value,
};
use array_engine::error::RuntimeError;
use array_engine::rows::{gather_rows, index_value, with_leading};
use array_engine::sorting::{
    can_grade, foremost_row, grade_first_value, grade_last_value, grade_value, hindmost_row,
    order_rows, row_before, sort_value,
};
use array_engine::transpose::{rotate_value, transpose_value, transposed_value};
use array_engine::value::{Elem, Kind, Value};

fn nums(items: &[i64]) -> Value {
    Value::numbers(&items.to_vec())
}

fn num(n: i64) -> Value {
    Value::scalar(Elem::Num(n))
}

fn bytes(items: &[u8]) -> Value {
    let cells: Vec<Elem> = items.iter().map(|b| Elem::Byte(*b)).collect();
    Value::new(Kind::Byte, vec![items.len()], cells).unwrap()
}

fn matrix(rows: usize, cols: usize, items: &[i64]) -> Value {
    let cells: Vec<Elem> = items.iter().map(|n| Elem::Num(*n)).collect();
    Value::new(Kind::Number, vec![rows, cols], cells).unwrap()
}

#[test]
fn len_counts_rows() {
    assert!(len_value(&nums(&[1, 5, 8, 2])).unwrap().same(&num(4)));
    assert!(len_value(&matrix(2, 3, &[1, 2, 3, 4, 5, 6])).unwrap().same(&num(2)));
    assert!(len_value(&num(9)).unwrap().same(&num(1)));
    assert!(len_value(&nums(&[])).unwrap().same(&num(0)));
}

#[test]
fn first_and_last_rows() {
    let v = nums(&[3, 1, 2]);
    assert!(first_value(&v).unwrap().same(&num(3)));
    assert!(last_value(&v).unwrap().same(&num(2)));
    let m = matrix(2, 2, &[1, 2, 3, 4]);
    assert!(first_value(&m).unwrap().same(&nums(&[1, 2])));
    assert!(last_value(&m).unwrap().same(&nums(&[3, 4])));
    assert!(first_value(&num(5)).unwrap().same(&num(5)));
    assert!(last_value(&num(5)).unwrap().same(&num(5)));
    assert_eq!(first_value(&nums(&[])).unwrap_err(), RuntimeError::IndexOutOfBounds);
    assert_eq!(last_value(&nums(&[])).unwrap_err(), RuntimeError::IndexOutOfBounds);
}

#[test]
fn last_shares_the_cells_and_reverses_nothing() {
    let v = nums(&[0, 1, 2, 3, 4, 5, 6, 7, 8, 9]);
    let last = last_value(&v).unwrap();
    assert!(last.same(&num(9)));
    assert!(last.shares_cells_with(&v));
    let reversed = reverse_value(&v);
    assert!(!reversed.shares_cells_with(&v));
    assert!(first_value(&reversed).unwrap().same(&last));
}

#[test]
fn reverse_turns_the_rows_round() {
    assert!(reverse_value(&nums(&[1, 2, 3])).same(&nums(&[3, 2, 1])));
    assert!(reverse_value(&matrix(3, 2, &[1, 2, 3, 4, 5, 6])).same(&matrix(3, 2, &[5, 6, 3, 4, 1, 2])));
    assert!(reverse_value(&num(4)).same(&num(4)));
    assert!(reverse_value(&nums(&[])).same(&nums(&[])));
    assert!(reverse_value(&Value::text("abc")).same(&Value::text("cba")));
}

#[test]
fn range_counts_from_zero() {
    assert!(range_value(&num(10)).unwrap().same(&nums(&[0, 1, 2, 3, 4, 5, 6, 7, 8, 9])));
    assert!(range_value(&num(0)).unwrap().same(&nums(&[])));
    assert!(range_value(&Value::scalar(Elem::Byte(3))).unwrap().same(&nums(&[0, 1, 2])));
    assert_eq!(range_value(&num(-1)).unwrap_err(), RuntimeError::DomainError);
    assert_eq!(range_value(&nums(&[2, 3])).unwrap_err(), RuntimeError::DomainError);
    assert_eq!(range_value(&Value::scalar(Elem::Char('a'))).unwrap_err(), RuntimeError::DomainError);
}

#[test]
fn select_picks_rows_by_index() {
    let v = nums(&[10, 20, 30]);
    assert!(select_value(&nums(&[2, 0, 0]), &v).unwrap().same(&nums(&[30, 10, 10])));
    assert!(select_value(&num(1), &v).unwrap().same(&num(20)));
    let m = matrix(2, 2, &[1, 2, 3, 4]);
    assert!(select_value(&nums(&[1, 0, 1]), &m).unwrap().same(&matrix(3, 2, &[3, 4, 1, 2, 3, 4])));
    let idx = matrix(2, 2, &[0, 1, 2, 0]);
    assert!(select_value(&idx, &v).unwrap().same(&matrix(2, 2, &[10, 20, 30, 10])));
    assert!(select_value(&nums(&[]), &v).unwrap().same(&nums(&[])));
    assert!(select_value(&bytes(&[1]), &v).unwrap().same(&nums(&[20])));
    assert_eq!(select_value(&nums(&[3]), &v).unwrap_err(), RuntimeError::IndexOutOfBounds);
    assert_eq!(select_value(&nums(&[-1]), &v).unwrap_err(), RuntimeError::IndexOutOfBounds);
    assert_eq!(select_value(&Value::text("a"), &v).unwrap_err(), RuntimeError::DomainError);
}

#[test]
fn gather_copies_the_picked_rows() {
    let m = matrix(3, 2, &[1, 2, 3, 4, 5, 6]);
    let g = gather_rows(&m, &vec![2, 2, 0]);
    assert!(g.same(&matrix(3, 2, &[5, 6, 5, 6, 1, 2])));
    let none = gather_rows(&m, &vec![]);
    assert_eq!(none.shape(), vec![0, 2]);
    assert_eq!(with_leading(4, vec![2, 3]), vec![4, 2, 3]);
    assert_eq!(concat_dims(vec![1, 2], vec![3]), vec![1, 2, 3]);
    assert!(dims_equal(&vec![1, 2], &vec![1, 2]));
    assert!(!dims_equal(&vec![1, 2], &vec![1, 3]));
    assert!(!dims_equal(&vec![1, 2], &vec![1]));
    assert!(index_value(&vec![2, 0, 1]).same(&nums(&[2, 0, 1])));
}

#[test]
fn where_lists_the_true_indices() {
    assert!(where_value(&nums(&[0, 2, 0, 1])).unwrap().same(&nums(&[1, 3])));
    assert!(where_value(&bytes(&[1, 1, 0])).unwrap().same(&nums(&[0, 1])));
    assert!(where_value(&nums(&[0, 0])).unwrap().same(&nums(&[])));
    assert!(where_value(&nums(&[-1])).unwrap().same(&nums(&[0])));
    assert_eq!(where_value(&num(1)).unwrap_err(), RuntimeError::DomainError);
    assert_eq!(where_value(&Value::text("a")).unwrap_err(), RuntimeError::DomainError);
    assert_eq!(where_value(&matrix(1, 1, &[1])).unwrap_err(), RuntimeError::DomainError);
    assert!(mask(&nums(&[1])));
    assert!(!mask(&num(1)));
}

#[test]
fn first_and_last_true_index() {
    let m = nums(&[0, 0, 5, 0, 7, 0]);
    assert!(first_where_value(&m).unwrap().same(&num(2)));
    assert!(last_where_value(&m).unwrap().same(&num(4)));
    let w = where_value(&m).unwrap();
    assert!(first_value(&w).unwrap().same(&first_where_value(&m).unwrap()));
    assert!(first_value(&reverse_value(&w)).unwrap().same(&last_where_value(&m).unwrap()));
    assert_eq!(first_where_value(&nums(&[0, 0])).unwrap_err(), RuntimeError::IndexOutOfBounds);
    assert_eq!(last_where_value(&nums(&[])).unwrap_err(), RuntimeError::IndexOutOfBounds);
    assert_eq!(first_where_value(&num(1)).unwrap_err(), RuntimeError::DomainError);
    assert_eq!(last_where_value(&Value::text("x")).unwrap_err(), RuntimeError::DomainError);
    assert!(first_where_value(&nums(&[9])).unwrap().same(&num(0)));
    assert!(last_where_value(&nums(&[9])).unwrap().same(&num(0)));
}

#[test]
fn join_puts_rows_after_rows() {
    assert!(join_value(&nums(&[1, 2]), &nums(&[3])).unwrap().same(&nums(&[1, 2, 3])));
    assert!(join_value(&num(1), &num(2)).unwrap().same(&nums(&[1, 2])));
    assert!(join_value(&num(1), &nums(&[2, 3])).unwrap().same(&nums(&[1, 2, 3])));
    assert!(join_value(&nums(&[1, 2]), &num(3)).unwrap().same(&nums(&[1, 2, 3])));
    let m = matrix(2, 2, &[1, 2, 3, 4]);
    assert!(join_value(&m, &nums(&[5, 6])).unwrap().same(&matrix(3, 2, &[1, 2, 3, 4, 5, 6])));
    assert!(join_value(&nums(&[5, 6]), &m).unwrap().same(&matrix(3, 2, &[5, 6, 1, 2, 3, 4])));
    assert!(join_value(&m, &m).unwrap().same(&matrix(4, 2, &[1, 2, 3, 4, 1, 2, 3, 4])));
    assert!(join_value(&nums(&[]), &nums(&[1])).unwrap().same(&nums(&[1])));
    assert_eq!(join_value(&m, &nums(&[5, 6, 7])).unwrap_err(), RuntimeError::ShapeMismatch);
    assert_eq!(join_value(&m, &num(1)).unwrap_err(), RuntimeError::ShapeMismatch);
    assert_eq!(join_value(&nums(&[1]), &Value::text("a")).unwrap_err(), RuntimeError::DomainError);
    assert_eq!(join_value(&nums(&[1]), &bytes(&[1])).unwrap_err(), RuntimeError::DomainError);
}

#[test]
fn couple_and_stack_make_rows_of_values() {
    assert!(couple_value(&nums(&[1, 2]), &nums(&[3, 4])).unwrap().same(&matrix(2, 2, &[1, 2, 3, 4])));
    assert!(couple_value(&num(1), &num(2)).unwrap().same(&nums(&[1, 2])));
    assert_eq!(couple_value(&nums(&[1, 2]), &nums(&[3])).unwrap_err(), RuntimeError::ShapeMismatch);
    assert_eq!(couple_value(&num(1), &Value::scalar(Elem::Char('a'))).unwrap_err(), RuntimeError::DomainError);
    let rows = vec![nums(&[1, 2]), nums(&[3, 4]), nums(&[5, 6])];
    assert!(stack_values(&rows).unwrap().same(&matrix(3, 2, &[1, 2, 3, 4, 5, 6])));
    let none: Vec<Value> = vec![];
    assert!(stack_values(&none).unwrap().same(&nums(&[])));
    let uneven = vec![nums(&[1, 2]), nums(&[3])];
    assert_eq!(stack_values(&uneven).unwrap_err(), RuntimeError::ShapeMismatch);
    let mixed = vec![nums(&[1]), Value::text("a")];
    assert_eq!(stack_values(&mixed).unwrap_err(), RuntimeError::DomainError);
    let both = vec![nums(&[1]), Value::text("ab")];
    assert_eq!(stack_values(&both).unwrap_err(), RuntimeError::ShapeMismatch);
    let mut cells = vec![Elem::Num(0)];
    append_cells(&mut cells, &nums(&[1, 2]));
    assert_eq!(cells.len(), 3);
    assert!(matches!(cells[2], Elem::Num(2)));
}

#[test]
fn rise_and_fall_grade_stably() {
    let v = nums(&[3, 1, 2, 1, 3]);
    assert!(grade_value(&v, false).unwrap().same(&nums(&[1, 3, 2, 0, 4])));
    assert!(grade_value(&v, true).unwrap().same(&nums(&[0, 4, 2, 1, 3])));
    assert_eq!(order_rows(&v, false), vec![1, 3, 2, 0, 4]);
    assert_eq!(order_rows(&v, true), vec![0, 4, 2, 1, 3]);
    assert!(grade_value(&nums(&[]), false).unwrap().same(&nums(&[])));
    assert!(grade_value(&num(7), false).unwrap().same(&nums(&[0])));
    assert!(grade_value(&Value::text("bca"), false).unwrap().same(&nums(&[2, 0, 1])));
    let m = matrix(3, 2, &[2, 1, 1, 9, 2, 0]);
    assert!(grade_value(&m, false).unwrap().same(&nums(&[1, 2, 0])));
    assert!(row_before(&m, false, 2, 0));
    assert!(!row_before(&m, false, 0, 2));
    assert!(row_before(&m, true, 0, 2));
    assert!(!row_before(&m, false, 1, 1));
    let boxes = Value::new(Kind::Box, vec![1], vec![Elem::Boxed(num(1))]).unwrap();
    assert_eq!(grade_value(&boxes, false).unwrap_err(), RuntimeError::DomainError);
    assert!(!can_grade(&boxes));
    assert!(can_grade(&v));
    let cpx = Value::new(Kind::Complex, vec![3], vec![Elem::Cpx(1, 5), Elem::Cpx(0, 9), Elem::Cpx(1, 2)]).unwrap();
    assert!(grade_value(&cpx, false).unwrap().same(&nums(&[1, 2, 0])));
}

#[test]
fn first_and_last_of_a_grade_in_one_pass() {
    let v = nums(&[3, 1, 2, 1, 3]);
    assert_eq!(foremost_row(&v, false), 1);
    assert_eq!(hindmost_row(&v, false), 4);
    assert_eq!(foremost_row(&v, true), 0);
    assert_eq!(hindmost_row(&v, true), 3);
    for desc in [false, true] {
        let g = grade_value(&v, desc).unwrap();
        assert!(grade_first_value(&v, desc).unwrap().same(&first_value(&g).unwrap()));
        assert!(grade_last_value(&v, desc).unwrap().same(&first_value(&reverse_value(&g)).unwrap()));
    }
    assert!(grade_first_value(&v, false).unwrap().same(&num(1)));
    assert!(grade_last_value(&v, false).unwrap().same(&num(4)));
    assert!(grade_first_value(&v, true).unwrap().same(&num(0)));
    assert!(grade_last_value(&v, true).unwrap().same(&num(3)));
    assert_eq!(grade_first_value(&nums(&[]), false).unwrap_err(), RuntimeError::IndexOutOfBounds);
    assert_eq!(grade_last_value(&nums(&[]), true).unwrap_err(), RuntimeError::IndexOutOfBounds);
    let boxes = Value::new(Kind::Box, vec![0], vec![]).unwrap();
    assert_eq!(grade_first_value(&boxes, false).unwrap_err(), RuntimeError::DomainError);
    assert_eq!(grade_last_value(&boxes, false).unwrap_err(), RuntimeError::DomainError);
}

#[test]
fn sort_puts_rows_in_order() {
    assert!(sort_value(&nums(&[3, 1, 2]), false).unwrap().same(&nums(&[1, 2, 3])));
    assert!(sort_value(&nums(&[3, 1, 2]), true).unwrap().same(&nums(&[3, 2, 1])));
    let m = matrix(3, 2, &[2, 1, 1, 9, 2, 0]);
    assert!(sort_value(&m, false).unwrap().same(&matrix(3, 2, &[1, 9, 2, 0, 2, 1])));
    let v = nums(&[5, 4, 4, 9]);
    let by_grade = select_value(&grade_value(&v, false).unwrap(), &v).unwrap();
    assert!(sort_value(&v, false).unwrap().same(&by_grade));
    assert!(sort_value(&num(3), false).unwrap().same(&nums(&[3])));
    assert!(sort_value(&nums(&[]), true).unwrap().same(&nums(&[])));
    let boxes = Value::new(Kind::Box, vec![1], vec![Elem::Boxed(num(1))]).unwrap();
    assert_eq!(sort_value(&boxes, false).unwrap_err(), RuntimeError::DomainError);
}

#[test]
fn transpose_moves_the_first_axis_behind_the_others() {
    let m = matrix(2, 3, &[1, 2, 3, 4, 5, 6]);
    assert!(transpose_value(&m).same(&matrix(3, 2, &[1, 4, 2, 5, 3, 6])));
    assert!(transpose_value(&transpose_value(&m)).same(&m));
    assert!(transposed_value(&m, 2).same(&m));
    assert!(transposed_value(&m, 5).same(&transpose_value(&m)));
    assert!(transposed_value(&m, 0).same(&m));
    assert!(rotate_value(&m, 0).same(&m));
    assert!(rotate_value(&m, 2).same(&m));
    assert!(transpose_value(&nums(&[1, 2])).same(&nums(&[1, 2])));
    let empty = Value::new(Kind::Number, vec![0, 3], vec![]).unwrap();
    assert_eq!(transpose_value(&empty).shape(), vec![3, 0]);
    let cells: Vec<Elem> = (0..24).map(Elem::Num).collect();
    let cube = Value::new(Kind::Number, vec![2, 3, 4], cells).unwrap();
    let mut stepwise = cube.share();
    for n in 0..7 {
        assert!(transposed_value(&cube, n).same(&stepwise));
        stepwise = transpose_value(&stepwise);
    }
    assert_eq!(rotate_value(&cube, 2).shape(), vec![4, 2, 3]);
    assert_eq!(rotate_value(&cube, 1).shape(), vec![3, 4, 2]);
    assert!(matches!(rotate_value(&cube, 1).cell(1), Elem::Num(12)));
}
