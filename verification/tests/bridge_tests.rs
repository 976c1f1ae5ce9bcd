use hsharp_runtime::bridge::{as_bool, hweb_random_hex, hweb_random_uuid_v4, without_nuls};
use hsharp_runtime::record::{hsh_closure_create, hsh_struct_get, hsh_struct_new, hsh_struct_set};
use hsharp_runtime::arena::{ArenaAlloc, HshArena};

#[test]
fn as_bool_maps_to_zero_or_one() {
    assert_eq!(as_bool(0), 0);
    assert_eq!(as_bool(1), 1);
    assert_eq!(as_bool(-3), 1);
    assert_eq!(as_bool(i64::MIN), 1);
}

#[test]
fn nul_bytes_are_dropped() {
    assert_eq!(without_nuls(b"a\0b\0"), b"ab".to_vec());
}

#[test]
fn random_hex_writes_two_digits_per_byte() {
    assert_eq!(hweb_random_hex(&[0x00, 0x0f, 0xa5, 0xff]), b"000fa5ff".to_vec());
    assert_eq!(hweb_random_hex(&[]), b"".to_vec());
}

#[test]
fn uuid_sets_version_and_variant() {
    let bytes = [0xffu8; 16];
    assert_eq!(
        hweb_random_uuid_v4(&bytes),
        b"ffffffff-ffff-4fff-bfff-ffffffffffff".to_vec()
    );
    let zeros = [0u8; 16];
    assert_eq!(
        hweb_random_uuid_v4(&zeros),
        b"00000000-0000-4000-8000-000000000000".to_vec()
    );
    let seq: Vec<u8> = (0u8..16).collect();
    let t = String::from_utf8(hweb_random_uuid_v4(&seq)).unwrap();
    assert_eq!(t, "00010203-0405-4607-8809-0a0b0c0d0e0f");
    assert_eq!(t.len(), 36);
}

#[test]
fn struct_fields_start_at_zero() {
    let mut none: Option<HshArena> = None;
    let (fields, place) = hsh_struct_new(3, &mut none);
    assert_eq!(fields, vec![0, 0, 0]);
    assert_eq!(place, ArenaAlloc::Heap(24));
    let (empty, place) = hsh_struct_new(-2, &mut none);
    assert!(empty.is_empty());
    assert_eq!(place, ArenaAlloc::Heap(1));
    let mut cur = Some(HshArena::hsh_arena_new(64));
    let (_, place) = hsh_struct_new(2, &mut cur);
    assert_eq!(place, ArenaAlloc::InArena(0));
    assert_eq!(cur.unwrap().used, 16);
}

#[test]
fn struct_get_after_set() {
    let f = hsh_struct_set(Some(vec![1, 2, 3]), 1, 42).unwrap();
    assert_eq!(hsh_struct_get(Some(&f), 1), 42);
    assert_eq!(hsh_struct_get(Some(&f), 0), 1);
    assert_eq!(hsh_struct_get(None, 5), 0);
    assert!(hsh_struct_set(None, 0, 1).is_none());
}

#[test]
fn closures_copy_their_captures() {
    let c = hsh_closure_create(0x1234, 2, Some(&[7, 8, 9]));
    assert_eq!(c.fn_ptr, 0x1234);
    assert_eq!(c.n_caps, 2);
    assert_eq!(c.caps, vec![7, 8]);
    let d = hsh_closure_create(1, 3, None);
    assert_eq!(d.caps, vec![0, 0, 0]);
    let e = hsh_closure_create(1, -1, Some(&[5]));
    assert!(e.caps.is_empty());
}
