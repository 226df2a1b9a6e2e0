use array_engine::cowslice::CowSlice;

#[test]
fn new_slice_shows_the_vector() {
    let s = CowSlice::new(vec![3usize, 1, 2]);
    assert_eq!(s.len(), 3);
    assert_eq!(*s.get(0), 3);
    assert_eq!(*s.get(2), 2);
    assert_eq!(s.to_vec(), vec![3, 1, 2]);
}

#[test]
fn share_copies_no_element() {
    let s = CowSlice::new(vec![1usize, 2, 3]);
    let t = s.share();
    assert!(s.same_buffer(&t));
    assert_eq!(t.to_vec(), vec![1, 2, 3]);
}

#[test]
fn slice_is_a_window_into_the_same_buffer() {
    let s = CowSlice::new(vec![10usize, 20, 30, 40, 50]);
    let w = s.slice(1, 4);
    assert!(w.same_buffer(&s));
    assert_eq!(w.len(), 3);
    assert_eq!(w.to_vec(), vec![20, 30, 40]);
    let inner = w.slice(1, 2);
    assert_eq!(inner.to_vec(), vec![30]);
    assert!(inner.same_buffer(&s));
    let empty = s.slice(2, 2);
    assert_eq!(empty.len(), 0);
}

#[test]
fn write_to_a_shared_slice_leaves_the_other_handle_alone() {
    let mut a = CowSlice::new(vec![1usize, 5, 8, 2]);
    let b = a.share();
    a.set(1, 99);
    assert_eq!(a.to_vec(), vec![1, 99, 8, 2]);
    assert_eq!(b.to_vec(), vec![1, 5, 8, 2]);
    assert!(!a.same_buffer(&b));
}

#[test]
fn write_through_a_window_leaves_the_whole_alone() {
    let whole = CowSlice::new(vec![1usize, 2, 3, 4]);
    let mut window = whole.slice(1, 3);
    window.set(0, 7);
    assert_eq!(window.to_vec(), vec![7, 3]);
    assert_eq!(whole.to_vec(), vec![1, 2, 3, 4]);
}

#[test]
fn write_to_an_unshared_slice_changes_it_in_place() {
    let mut a = CowSlice::new(vec![4usize, 5, 6]);
    a.set(2, 0);
    a.set(0, 9);
    assert_eq!(a.to_vec(), vec![9, 5, 0]);
    assert_eq!(a.len(), 3);
}

#[test]
fn into_vec_gives_the_window() {
    let s = CowSlice::new(vec![1usize, 2, 3, 4, 5]);
    let w = s.slice(2, 5);
    drop(s);
    assert_eq!(w.into_vec(), vec![3, 4, 5]);
    let t = CowSlice::new(vec![7usize, 8]);
    let u = t.share();
    assert_eq!(t.into_vec(), vec![7, 8]);
    assert_eq!(u.into_vec(), vec![7, 8]);
}

#[test]
fn an_updated_handle_leaves_the_first_as_it_was() {
    let first = CowSlice::new(vec![1usize, 2, 3]);
    let window = first.slice(1, 3);
    let second = window.updated(0, 9);
    assert_eq!(second.to_vec(), vec![9, 3]);
    assert_eq!(window.to_vec(), vec![2, 3]);
    assert_eq!(first.to_vec(), vec![1, 2, 3]);
    assert!(window.same_buffer(&first));
    assert!(!second.same_buffer(&first));
    let third = second.updated(1, 7);
    assert_eq!(third.to_vec(), vec![9, 7]);
    assert_eq!(second.to_vec(), vec![9, 3]);
}
