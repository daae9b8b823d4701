use pico_runtime::collection::{
    pico_collection_contains_int, pico_collection_contains_str, pico_collection_count,
    pico_collection_get_int, pico_collection_get_int_at, pico_collection_get_ptr,
    pico_collection_get_ptr_at, pico_collection_has, pico_collection_index_of_int,
    pico_collection_index_of_str, pico_collection_join, pico_collection_key_at,
    pico_collection_last_int, pico_collection_last_ptr, pico_collection_pop_int,
    pico_collection_pop_ptr, pico_collection_push_int, pico_collection_push_ptr,
    pico_collection_set_int, pico_collection_set_int_at, pico_collection_set_ptr,
    pico_collection_set_ptr_at, pico_collection_slice, pico_collection_valid_index,
    PicoCollection, Slot,
};

fn ints(values: &[i64]) -> PicoCollection {
    let mut c = PicoCollection::new();
    for v in values {
        c.push_int(*v);
    }
    c
}

fn items(c: &PicoCollection) -> Vec<i64> {
    let mut out = Vec::new();
    let mut i = 0;
    while pico_collection_valid_index(c, i) {
        out.push(pico_collection_get_int_at(c, i));
        i += 1;
    }
    out
}

#[test]
fn slot_round_trips() {
    assert_eq!(Slot::from_int(-5).as_int(), -5);
    assert_eq!(Slot::from_int(-1).bits, u64::MAX);
    assert_eq!(Slot::from_ptr(0xdead_beef).as_ptr(), 0xdead_beef);
    assert_eq!(Slot::from_int(i64::MIN).as_int(), i64::MIN);
}

#[test]
fn new_collection_is_empty() {
    let c = PicoCollection::new();
    assert_eq!(pico_collection_count(&c), 0);
    assert!(!pico_collection_valid_index(&c, 0));
    assert_eq!(pico_collection_key_at(&c, 0), None);
}

#[test]
fn push_then_get_at() {
    let mut c = PicoCollection::new();
    pico_collection_push_int(&mut c, 268);
    pico_collection_push_int(&mut c, 301);
    pico_collection_push_int(&mut c, -302);
    assert_eq!(pico_collection_count(&c), 3);
    assert_eq!(pico_collection_get_int_at(&c, 0), 268);
    assert_eq!(pico_collection_get_int_at(&c, 2), -302);
    assert_eq!(pico_collection_get_int_at(&c, 3), 0);
    assert_eq!(pico_collection_get_int_at(&c, -1), 0);
}

#[test]
fn push_ptr_then_get_ptr_at() {
    let mut c = PicoCollection::new();
    pico_collection_push_ptr(&mut c, 0x1000);
    c.push_ptr(0x2000);
    assert_eq!(pico_collection_get_ptr_at(&c, 0), 0x1000);
    assert_eq!(pico_collection_get_ptr_at(&c, 1), 0x2000);
    assert_eq!(pico_collection_get_ptr_at(&c, 2), 0);
}

#[test]
fn set_at_extends_with_zeros() {
    let mut c = ints(&[1, 2]);
    pico_collection_set_int_at(&mut c, 1, 999);
    assert_eq!(items(&c), vec![1, 999]);
    pico_collection_set_int_at(&mut c, 4, 7);
    assert_eq!(items(&c), vec![1, 999, 0, 0, 7]);
    pico_collection_set_ptr_at(&mut c, 0, 0x40);
    assert_eq!(pico_collection_get_ptr_at(&c, 0), 0x40);
}

#[test]
fn pop_and_last() {
    let mut c = ints(&[10, 20]);
    assert_eq!(pico_collection_last_int(&c), 20);
    assert_eq!(pico_collection_pop_int(&mut c), 20);
    assert_eq!(pico_collection_pop_int(&mut c), 10);
    assert_eq!(pico_collection_pop_int(&mut c), 0);
    assert_eq!(pico_collection_last_int(&c), 0);
    assert_eq!(pico_collection_count(&c), 0);
    c.push_ptr(0x55);
    assert_eq!(pico_collection_last_ptr(&c), 0x55);
    assert_eq!(pico_collection_pop_ptr(&mut c), 0x55);
    assert_eq!(pico_collection_pop_ptr(&mut c), 0);
    assert_eq!(pico_collection_last_ptr(&c), 0);
}

#[test]
fn keys_set_get_has() {
    let mut c = PicoCollection::new();
    pico_collection_set_int(&mut c, "Foo\\Bar", 42);
    pico_collection_set_int(&mut c, "b", 7);
    assert!(pico_collection_has(&c, "Foo\\Bar"));
    assert!(!pico_collection_has(&c, "Baz"));
    assert_eq!(pico_collection_get_int(&c, "Foo\\Bar"), 42);
    assert_eq!(pico_collection_get_int(&c, "Baz"), 0);
    pico_collection_set_int(&mut c, "Foo\\Bar", -1);
    assert_eq!(pico_collection_get_int(&c, "Foo\\Bar"), -1);
    assert_eq!(pico_collection_count(&c), 2);
    pico_collection_set_ptr(&mut c, "p", 0x99);
    assert_eq!(pico_collection_get_ptr(&c, "p"), 0x99);
    assert_eq!(pico_collection_get_ptr(&c, "missing"), 0);
}

#[test]
fn key_order_is_insertion_order() {
    let mut c = PicoCollection::new();
    pico_collection_set_int(&mut c, "zeta", 1);
    pico_collection_set_int(&mut c, "alpha", 2);
    pico_collection_set_int(&mut c, "zeta", 3);
    pico_collection_set_int(&mut c, "mid", 4);
    assert_eq!(pico_collection_key_at(&c, 0), Some("zeta".to_string()));
    assert_eq!(pico_collection_key_at(&c, 1), Some("alpha".to_string()));
    assert_eq!(pico_collection_key_at(&c, 2), Some("mid".to_string()));
    assert_eq!(pico_collection_key_at(&c, 3), None);
    assert_eq!(pico_collection_key_at(&c, -1), None);
}

#[test]
fn spaces_are_independent() {
    let mut c = ints(&[5]);
    pico_collection_set_int(&mut c, "k", 9);
    assert_eq!(pico_collection_count(&c), 2);
    assert_eq!(pico_collection_pop_int(&mut c), 5);
    assert_eq!(pico_collection_get_int(&c, "k"), 9);
    assert_eq!(pico_collection_count(&c), 1);
    assert!(!pico_collection_valid_index(&c, 0));
}

#[test]
fn valid_index_bounds() {
    let c = ints(&[1, 2, 3]);
    assert!(pico_collection_valid_index(&c, 0));
    assert!(pico_collection_valid_index(&c, 2));
    assert!(!pico_collection_valid_index(&c, 3));
    assert!(!pico_collection_valid_index(&c, -1));
}

#[test]
fn index_of_and_contains_int() {
    let c = ints(&[4, 8, 4, -3]);
    assert_eq!(pico_collection_index_of_int(&c, 4), 0);
    assert_eq!(pico_collection_index_of_int(&c, -3), 3);
    assert_eq!(pico_collection_index_of_int(&c, 5), -1);
    assert!(pico_collection_contains_int(&c, 8));
    assert!(!pico_collection_contains_int(&c, 9));
}

#[test]
fn index_of_and_contains_str() {
    let strings = vec![None, Some(b"abc".to_vec()), Some(b"".to_vec()), Some(b"abc".to_vec())];
    assert_eq!(pico_collection_index_of_str(&strings, b"abc"), 1);
    assert_eq!(pico_collection_index_of_str(&strings, b""), 2);
    assert_eq!(pico_collection_index_of_str(&strings, b"ab"), -1);
    assert!(pico_collection_contains_str(&strings, b"abc"));
    assert!(!pico_collection_contains_str(&strings, b"x"));
}

#[test]
fn slice_ranges() {
    let c = ints(&[0, 1, 2, 3, 4]);
    assert_eq!(items(&pico_collection_slice(&c, 1, 2)), vec![1, 2]);
    assert_eq!(items(&pico_collection_slice(&c, 3, -1)), vec![3, 4]);
    assert_eq!(items(&pico_collection_slice(&c, -4, 2)), vec![0, 1]);
    assert_eq!(items(&pico_collection_slice(&c, 2, 100)), vec![2, 3, 4]);
    assert_eq!(items(&pico_collection_slice(&c, 5, 1)), Vec::<i64>::new());
    assert_eq!(items(&pico_collection_slice(&c, 0, -1)), vec![0, 1, 2, 3, 4]);
    assert_eq!(items(&pico_collection_slice(&c, 1, 0)), Vec::<i64>::new());
}

#[test]
fn join_skips_absent_strings() {
    let parts = vec![Some(b"a".to_vec()), None, Some(b"bc".to_vec()), Some(b"".to_vec())];
    assert_eq!(pico_collection_join(&parts, ", "), b"a, bc, ".to_vec());
    assert_eq!(pico_collection_join(&Vec::new(), ","), Vec::<u8>::new());
    assert_eq!(pico_collection_join(&vec![None, Some(b"x".to_vec())], "-"), b"x".to_vec());
}
