use mega_math::bignum::BigNum;

#[test]
fn lib_create_small_number() {
    let n = BigNum::new(13);
    assert_eq!(n.0, vec![13u64]);
}

#[test]
fn lib_resize_number() {
    let mut n = BigNum::new(13);
    n.resize(3);
    assert_eq!(n.0, vec![13u64, 0u64, 0u64]);
}

#[test]
fn lib_add_numbers() {
    let mut n = BigNum::new(13);
    let m = BigNum::new(13);
    n.add(&m);
    assert_eq!(n.0, vec![26u64]);
}
