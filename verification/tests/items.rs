use ecow::EcoVec;
use uiua_reduce::array::Array;
use uiua_reduce::eco::{can_allocate, CowSlice};
use uiua_reduce::fast::{fast_reduce, fast_scan};
use uiua_reduce::function::{Dyadic, Identity, Primitive};
use uiua_reduce::pervade::byte_byte;
use uiua_reduce::value::Value;

fn array<T: Copy>(shape: &[usize], items: &[T]) -> Array<T> {
    Array::new(shape.to_vec(), CowSlice::new(EcoVec::from(items)))
}

fn parts<T: Copy>(a: &Array<T>) -> (Vec<usize>, Vec<T>) {
    let data = a.data();
    (a.shape().clone(), (0..data.len()).map(|i| *data.get(i)).collect())
}

fn minus(a: f64, b: f64) -> f64 {
    b - a
}

#[test]
fn reducing_a_list_combines_from_the_left() {
    let r = fast_reduce(array(&[4], &[1.0, 2.0, 3.0, 10.0]), 0.0, minus);
    assert_eq!(parts(&r), (vec![], vec![8.0]));
}

#[test]
fn reducing_a_table_combines_its_rows() {
    let r = fast_reduce(array(&[3, 2], &[1.0, 2.0, 10.0, 20.0, 100.0, 200.0]), 0.0, |a, b| a + b);
    assert_eq!(parts(&r), (vec![2], vec![111.0, 222.0]));
}

#[test]
fn reducing_a_cube_keeps_the_shape_of_its_rows() {
    let items: Vec<u32> = (0..12).collect();
    let r = fast_reduce(array(&[2, 3, 2], &items), 0, |a, b| a * 100 + b);
    assert_eq!(parts(&r), (vec![3, 2], vec![6, 107, 208, 309, 410, 511]));
}

#[test]
fn reducing_a_scalar_gives_it_back() {
    let r = fast_reduce(array(&[], &[7.0]), 0.0, minus);
    assert_eq!(parts(&r), (vec![], vec![7.0]));
}

#[test]
fn reducing_one_row_gives_that_row() {
    let r = fast_reduce(array(&[1, 3], &[4.0, 5.0, 6.0]), 9.0, minus);
    assert_eq!(parts(&r), (vec![3], vec![4.0, 5.0, 6.0]));
}

#[test]
fn reducing_an_empty_list_gives_the_identity() {
    let r = fast_reduce(array(&[0], &[]), f64::NEG_INFINITY, f64::max);
    assert_eq!(parts(&r), (vec![], vec![f64::NEG_INFINITY]));
}

#[test]
fn reducing_no_rows_gives_a_row_of_identities() {
    let r = fast_reduce(array(&[0, 3], &[]), 1.0, |a, b| a * b);
    assert_eq!(parts(&r), (vec![3], vec![1.0, 1.0, 1.0]));
}

#[test]
fn reducing_rows_without_items_gives_no_items() {
    let r = fast_reduce(array::<f64>(&[3, 0, 2], &[]), 1.0, minus);
    assert_eq!(parts(&r), (vec![0, 2], vec![]));
    let r = fast_reduce(array::<f64>(&[0, 0], &[]), 1.0, minus);
    assert_eq!(parts(&r), (vec![0], vec![]));
}

#[test]
fn reducing_leaves_shared_items_alone() {
    let a = array(&[3], &[1.0, 2.0, 3.0]);
    let b = a.clone();
    let r = fast_reduce(a, 0.0, |x, y| x + y);
    assert_eq!(parts(&r), (vec![], vec![6.0]));
    assert_eq!(parts(&b), (vec![3], vec![1.0, 2.0, 3.0]));
}

#[test]
fn scanning_a_list_gives_running_results() {
    let r = fast_scan(array(&[4], &[1.0, 2.0, 3.0, 4.0]), |a, b| a + b);
    assert_eq!(parts(&r), (vec![4], vec![1.0, 3.0, 6.0, 10.0]));
    let r = fast_scan(array(&[3], &[1.0, 2.0, 10.0]), minus);
    assert_eq!(parts(&r), (vec![3], vec![1.0, 1.0, 9.0]));
}

#[test]
fn scanning_a_table_gives_running_rows() {
    let r = fast_scan(array(&[3, 2], &[1.0, 2.0, 10.0, 20.0, 100.0, 200.0]), |a, b| a + b);
    assert_eq!(parts(&r), (vec![3, 2], vec![1.0, 2.0, 11.0, 22.0, 111.0, 222.0]));
}

#[test]
fn scanning_no_rows_gives_the_array_back() {
    let r = fast_scan(array::<f64>(&[0], &[]), minus);
    assert_eq!(parts(&r), (vec![0], vec![]));
    let r = fast_scan(array::<f64>(&[0, 4], &[]), minus);
    assert_eq!(parts(&r), (vec![0, 4], vec![]));
    let r = fast_scan(array::<f64>(&[4, 0], &[]), minus);
    assert_eq!(parts(&r), (vec![4, 0], vec![]));
}

#[test]
fn scanning_leaves_shared_items_alone() {
    let a = array(&[2], &[1.0, 2.0]);
    let b = a.clone();
    let r = fast_scan(a, |x, y| x + y);
    assert_eq!(parts(&r), (vec![2], vec![1.0, 3.0]));
    assert_eq!(parts(&b), (vec![2], vec![1.0, 2.0]));
}

#[test]
fn each_row_of_a_scan_is_the_reduction_so_far() {
    let items = [3, 1, 4, 1, 5, 9, 2, 6];
    let scan = fast_scan(array(&[4, 2], &items), |a: i64, b| a * 10 - b);
    for i in 0..4 {
        let start = fast_reduce(array(&[i + 1, 2], &items[..2 * i + 2]), 0, |a, b| a * 10 - b);
        assert_eq!(parts(&scan.row(i)), parts(&start));
    }
}

#[test]
fn rows_are_windows_into_one_array() {
    let a = array(&[2, 3], &[1, 2, 3, 4, 5, 6]);
    assert_eq!(parts(&a.row(1)), (vec![3], vec![4, 5, 6]));
    assert_eq!(parts(&a.row(1).row(2)), (vec![], vec![6]));
    assert_eq!(parts(&array(&[], &[8]).row(0)), (vec![], vec![8]));
    assert_eq!((a.rank(), a.row_count(), a.row_len()), (2, 2, 3));
    let scalar = array(&[], &[8]);
    assert_eq!((scalar.rank(), scalar.row_count(), scalar.row_len()), (0, 1, 1));
}

#[test]
fn taking_the_rows_away_keeps_the_other_dimensions() {
    let a = array(&[2, 3], &[1, 2, 3, 4, 5, 6]);
    assert_eq!(parts(&a.first_dim_zero()), (vec![0, 3], vec![]));
    assert_eq!(parts(&array(&[], &[8]).first_dim_zero()), (vec![], vec![8]));
}

#[test]
fn joining_makes_two_dimensions_one() {
    let items: Vec<i32> = (0..12).collect();
    let a = array(&[2, 3, 2], &items);
    let joined = a.clone().join_rows();
    assert_eq!(parts(&joined), (vec![6, 2], items));
    for i in 0..2 {
        for j in 0..3 {
            assert_eq!(parts(&joined.row(i * 3 + j)), parts(&a.row(i).row(j)));
        }
    }
}

#[test]
fn values_pass_on_to_their_arrays() {
    let v: Value<f64, (f64, f64), String> = Value::Char(array(&[2, 2], &['a', 'b', 'c', 'd']));
    assert_eq!((v.rank(), v.row_count()), (2, 2));
    assert_eq!(v.shape(), &vec![2, 2]);
    match (v.clone().join_rows(), v.row(1), v.first_dim_zero()) {
        (Value::Char(joined), Value::Char(row), Value::Char(none)) => {
            assert_eq!(parts(&joined), (vec![4], vec!['a', 'b', 'c', 'd']));
            assert_eq!(parts(&row), (vec![2], vec!['c', 'd']));
            assert_eq!(parts(&none), (vec![0, 2], vec![]));
        }
        _ => panic!("the items are no longer characters"),
    }
}

#[test]
fn windows_cut_set_and_slice() {
    let w = CowSlice::new(EcoVec::from([1, 2, 3, 4, 5].as_slice()));
    let middle = w.slice(1, 4);
    let changed = middle.clone().set(1, 30);
    let list = |w: &CowSlice<i32>| (0..w.len()).map(|i| *w.get(i)).collect::<Vec<_>>();
    assert_eq!(list(&changed), vec![2, 30, 4]);
    assert_eq!(list(&middle), vec![2, 3, 4]);
    assert_eq!(list(&w), vec![1, 2, 3, 4, 5]);
    assert_eq!(list(&changed.truncate(2)), vec![2, 30]);
}

#[test]
fn allocations_have_a_limit() {
    assert!(can_allocate::<f64>(0));
    assert!(can_allocate::<f64>(1000));
    assert!(!can_allocate::<f64>(usize::MAX));
    assert!(!can_allocate::<f64>(isize::MAX as usize / 8));
    assert!(!can_allocate::<u8>(isize::MAX as usize));
    let most = isize::MAX as usize - 3 * std::mem::size_of::<usize>();
    assert!(can_allocate::<u8>(most - 1));
    assert!(!can_allocate::<u8>(most));
    assert!(can_allocate::<()>(isize::MAX as usize));
    assert!(!can_allocate::<()>(isize::MAX as usize + 1));
}

#[test]
fn bytes_are_compared_as_bytes() {
    assert_eq!(byte_byte(Dyadic::Eq, 4, 4), 1);
    assert_eq!(byte_byte(Dyadic::Eq, 4, 5), 0);
    assert_eq!(byte_byte(Dyadic::Ne, 4, 4), 0);
    assert_eq!(byte_byte(Dyadic::Ne, 4, 5), 1);
    assert_eq!(byte_byte(Dyadic::Max, 4, 5), 5);
    assert_eq!(byte_byte(Dyadic::Max, 5, 4), 5);
    assert_eq!(byte_byte(Dyadic::Min, 4, 5), 4);
    assert_eq!(byte_byte(Dyadic::Min, 5, 4), 4);
}

#[test]
fn primitives_stand_for_operations() {
    assert_eq!(Primitive::Add.reduction(), Some((Dyadic::Add, Identity::Zero)));
    assert_eq!(Primitive::Sub.reduction(), Some((Dyadic::Sub, Identity::Zero)));
    assert_eq!(Primitive::Mul.reduction(), Some((Dyadic::Mul, Identity::One)));
    assert_eq!(Primitive::Div.reduction(), Some((Dyadic::Div, Identity::One)));
    assert_eq!(Primitive::Mod.reduction(), Some((Dyadic::Mod, Identity::One)));
    assert_eq!(Primitive::Atan.reduction(), Some((Dyadic::Atan, Identity::Zero)));
    assert_eq!(Primitive::Max.reduction(), Some((Dyadic::Max, Identity::NegInfinity)));
    assert_eq!(Primitive::Min.reduction(), Some((Dyadic::Min, Identity::Infinity)));
    assert_eq!(Primitive::Eq.reduction(), None);
    assert_eq!(Primitive::Join.reduction(), None);
    assert_eq!(Primitive::Eq.scanning(), Some(Dyadic::Eq));
    assert_eq!(Primitive::Ne.scanning(), Some(Dyadic::Ne));
    assert_eq!(Primitive::Min.scanning(), Some(Dyadic::Min));
    assert_eq!(Primitive::Join.scanning(), None);
    assert_eq!(Primitive::Other.scanning(), None);
    assert!(Dyadic::Sub.ordered() && Dyadic::Div.ordered());
    assert!(Dyadic::Mod.ordered() && Dyadic::Atan.ordered());
    assert!(!Dyadic::Add.ordered() && !Dyadic::Max.ordered() && !Dyadic::Eq.ordered());
    assert!(Dyadic::Max.bytewise() && !Dyadic::Add.bytewise());
}

#[test]
fn the_same_items_always_give_the_same() {
    let items = [2.0, 7.0, 1.0, 8.0, 2.0, 8.0];
    let reduce = || parts(&fast_reduce(array(&[3, 2], &items), 0.0, minus));
    let scan = || parts(&fast_scan(array(&[3, 2], &items), minus));
    assert_eq!(reduce(), reduce());
    assert_eq!(reduce(), (vec![2], vec![3.0, 7.0]));
    assert_eq!(scan(), scan());
    assert_eq!(scan(), (vec![3, 2], vec![2.0, 7.0, -1.0, 1.0, 3.0, 7.0]));
}
