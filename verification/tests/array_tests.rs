use hsharp_runtime::array::{
    arr_alloc, hsh_array_concat, hsh_array_contains, hsh_array_get, hsh_array_len,
    hsh_array_new, hsh_array_push, hsh_array_set, HshArray,
};
use hsharp_runtime::array::{grown_capacity, slot_index, values_contain};
use hsharp_runtime::sort::hsh_sort_strings;

fn array_of(vals: &[i64]) -> HshArray {
    let mut a = hsh_array_new();
    for v in vals {
        a = hsh_array_push(Some(a), *v);
    }
    a
}

#[test]
fn new_array_is_empty_with_four_slots() {
    let a = hsh_array_new();
    assert_eq!(a.values(), &[] as &[i64]);
    assert_eq!(a.cap(), 4);
    assert_eq!(arr_alloc(2).cap(), 4);
    assert_eq!(arr_alloc(9).cap(), 9);
}

#[test]
fn push_doubles_a_full_array() {
    let a = array_of(&[1, 2, 3, 4]);
    assert_eq!(a.cap(), 4);
    let b = hsh_array_push(Some(a), 5);
    assert_eq!(b.values(), &[1, 2, 3, 4, 5]);
    assert_eq!(b.cap(), 8);
    let c = hsh_array_push(None, 7);
    assert_eq!(c.values(), &[7]);
    assert_eq!(c.cap(), 4);
}

#[test]
fn get_after_set_reads_the_write() {
    let a = array_of(&[10, 20, 30]);
    let a = hsh_array_set(Some(a), 1, 99).unwrap();
    assert_eq!(hsh_array_get(Some(&a), 1), 99);
    assert_eq!(hsh_array_get(Some(&a), 0), 10);
    assert_eq!(hsh_array_get(Some(&a), 2), 30);
    let a = hsh_array_set(Some(a), 3, 5).unwrap();
    let a = hsh_array_set(Some(a), -1, 5).unwrap();
    assert_eq!(a.values(), &[10, 99, 30]);
    assert!(hsh_array_set(None, 0, 1).is_none());
}

#[test]
fn get_outside_reads_zero() {
    let a = array_of(&[1]);
    assert_eq!(hsh_array_get(Some(&a), 1), 0);
    assert_eq!(hsh_array_get(Some(&a), -1), 0);
    assert_eq!(hsh_array_get(None, 0), 0);
    assert_eq!(hsh_array_len(Some(&a)), 1);
    assert_eq!(hsh_array_len(None), 0);
}

#[test]
fn concat_joins_and_sizes() {
    let a = array_of(&[1, 2]);
    let b = array_of(&[3, 4, 5]);
    let c = hsh_array_concat(Some(a), Some(b));
    assert_eq!(c.values(), &[1, 2, 3, 4, 5]);
    assert_eq!(c.cap(), 5);
    let d = hsh_array_concat(None, Some(array_of(&[9])));
    assert_eq!(d.values(), &[9]);
    let e = hsh_array_concat(Some(array_of(&[8])), None);
    assert_eq!(e.values(), &[8]);
    let f = hsh_array_concat(None, None);
    assert_eq!(f.values(), &[] as &[i64]);
    let g = hsh_array_concat(Some(array_of(&[1])), Some(array_of(&[2])));
    assert_eq!(g.cap(), 4);
}

#[test]
fn contains_finds_values() {
    let a = array_of(&[4, 5, 6]);
    assert_eq!(hsh_array_contains(Some(&a), 5), 1);
    assert_eq!(hsh_array_contains(Some(&a), 7), 0);
    assert_eq!(hsh_array_contains(None, 5), 0);
}

#[test]
fn from_parts_checks_capacity() {
    assert!(HshArray::from_parts(vec![1, 2], 4).is_some());
    assert!(HshArray::from_parts(vec![1, 2], 3).is_none());
    assert!(HshArray::from_parts(vec![1, 2, 3, 4, 5], 4).is_none());
}

#[test]
fn sort_strings_orders_stably_by_text() {
    let a = array_of(&[100, 200, 300, 400, 500]);
    let strs: Vec<Vec<u8>> = vec![
        b"pear".to_vec(),
        b"apple".to_vec(),
        b"pear".to_vec(),
        b"".to_vec(),
        b"app".to_vec(),
    ];
    let r = hsh_sort_strings(Some(&a), &strs);
    assert_eq!(r.values(), &[400, 500, 200, 100, 300]);
    assert_eq!(r.cap(), 5);
    let e = hsh_sort_strings(None, &[]);
    assert_eq!(e.values(), &[] as &[i64]);
}

#[test]
fn sort_strings_compares_utf8_bytes() {
    let a = array_of(&[1, 2, 3]);
    let strs: Vec<Vec<u8>> = vec!["é".as_bytes().to_vec(), b"z".to_vec(), b"Z".to_vec()];
    let r = hsh_sort_strings(Some(&a), &strs);
    assert_eq!(r.values(), &[3, 2, 1]);
}

#[test]
fn slot_and_growth_helpers() {
    assert_eq!(grown_capacity(4, 4), 8);
    assert_eq!(grown_capacity(3, 4), 4);
    assert_eq!(slot_index(3, 2), Some(2));
    assert_eq!(slot_index(3, 3), None);
    assert_eq!(slot_index(3, -1), None);
    assert!(values_contain(&[1, 2, 3], 2));
    assert!(!values_contain(&[], 2));
}
