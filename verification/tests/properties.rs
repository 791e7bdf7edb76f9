use mega_math::bignum::{BigNum, BigNumError};

/// Independent schoolbook multiplication on limb slices, little-endian,
/// used as a reference for the recursive squaring.
fn reference_multiply(a: &[u64], b: &[u64]) -> Vec<u64> {
    let mut acc = vec![0u64; a.len() + b.len() + 1];
    for (i, &x) in a.iter().enumerate() {
        let mut carry: u128 = 0;
        for (j, &y) in b.iter().enumerate() {
            let t = acc[i + j] as u128 + (x as u128) * (y as u128) + carry;
            acc[i + j] = t as u64;
            carry = t >> 64;
        }
        let mut k = i + b.len();
        while carry > 0 {
            let t = acc[k] as u128 + carry;
            acc[k] = t as u64;
            carry = t >> 64;
            k += 1;
        }
    }
    while acc.len() > 1 && *acc.last().unwrap() == 0 {
        acc.pop();
    }
    acc
}

#[test]
fn truncate_is_idempotent() {
    let mut n = BigNum(vec![7, 0, 0]);
    n.truncate();
    assert_eq!(n.0, vec![7u64]);
    n.truncate();
    assert_eq!(n.0, vec![7u64]);

    let mut z = BigNum(vec![0, 0, 0]);
    z.truncate();
    assert_eq!(z.0, vec![0u64]);
    z.truncate();
    assert_eq!(z.0, vec![0u64]);
}

#[test]
fn resize_then_truncate_restores() {
    let mut n = BigNum(vec![9, 8]);
    n.resize(5);
    assert_eq!(n.0, vec![9, 8, 0, 0, 0]);
    n.truncate();
    assert_eq!(n.0, vec![9, 8]);
}

#[test]
fn resize_can_shrink_to_significant_length() {
    let mut n = BigNum(vec![9, 8, 0, 0]);
    n.resize(2);
    assert_eq!(n.0, vec![9, 8]);
}

#[test]
fn add_commutes() {
    let mut x = BigNum(vec![500, 2000]);
    x.add(&BigNum(vec![0xFFFFFFFFFFFFFFFF, 0xFFFFFFFFFFFFFFFF]));
    let mut y = BigNum(vec![0xFFFFFFFFFFFFFFFF, 0xFFFFFFFFFFFFFFFF]);
    y.add(&BigNum(vec![500, 2000]));
    assert_eq!(x, y);
}

#[test]
fn add_associates() {
    let a = vec![0xFFFFFFFFFFFFFFFFu64, 1];
    let b = vec![0xFFFFFFFFFFFFFFFFu64];
    let c = vec![5u64, 6, 7];

    let mut left = BigNum(a.clone());
    left.add(&BigNum(b.clone()));
    left.add(&BigNum(c.clone()));

    let mut bc = BigNum(b);
    bc.add(&BigNum(c));
    let mut right = BigNum(a);
    right.add(&bc);

    assert_eq!(left, right);
}

#[test]
fn add_zero_is_identity() {
    let mut n = BigNum(vec![42, 7]);
    n.add(&BigNum::new(0));
    assert_eq!(n.0, vec![42, 7]);
}

#[test]
fn add_then_sub_restores() {
    let mut n = BigNum(vec![0xFFFFFFFFFFFFFFFF, 3]);
    let b = BigNum(vec![2, 0xFFFFFFFFFFFFFFFF]);
    n.add(&b);
    let r = n.sub(&b);
    assert_eq!(r, Ok(()));
    assert_eq!(n, BigNum(vec![0xFFFFFFFFFFFFFFFF, 3]));
}

#[test]
fn sub_succeeds_exactly_when_not_smaller() {
    let mut big = BigNum(vec![0, 1]);
    assert_eq!(big.sub(&BigNum::new(1)), Ok(()));
    assert_eq!(big.0, vec![0xFFFFFFFFFFFFFFFF]);

    let mut equal = BigNum(vec![4, 4]);
    assert_eq!(equal.sub(&BigNum(vec![4, 4])), Ok(()));
    assert_eq!(equal.0, vec![0]);

    let mut small = BigNum::new(1);
    assert_eq!(small.sub(&BigNum::new(2)), Err(BigNumError::NegativeResult));
    assert_eq!(small.0, vec![1]);
}

#[test]
fn sub_failure_leaves_operand_unchanged() {
    let mut a = BigNum(vec![1, 2]);
    let r = a.sub(&BigNum(vec![0, 0xFFFFFFFFFFFFFFFF]));
    assert_eq!(r, Err(BigNumError::NegativeResult));
    assert_eq!(a.0, vec![1, 2]);
}

#[test]
fn shift_left_zero_is_identity() {
    let mut a = BigNum(vec![3, 4]);
    a.shift_left(0);
    assert_eq!(a.0, vec![3, 4]);
}

#[test]
fn shift_left_limb_multiple_prepends_zeros() {
    let mut a = BigNum(vec![3, 4]);
    a.shift_left(128);
    assert_eq!(a.0, vec![0, 0, 3, 4]);
}

#[test]
fn shift_left_residual_carries_bits() {
    let mut a = BigNum::new(1);
    a.shift_left(1);
    assert_eq!(a.0, vec![2]);

    let mut b = BigNum::new(1u64 << 63);
    b.shift_left(1);
    assert_eq!(b.0, vec![0, 1]);

    let mut c = BigNum(vec![1u64 << 63, 5]);
    c.shift_left(65);
    assert_eq!(c.0, vec![0, 0, 11]);
}

#[test]
fn shift_right_not_implemented() {
    let mut a = BigNum::new(8);
    assert_eq!(a.shift_right(1), Err(BigNumError::NotImplemented));
    assert_eq!(a.0, vec![8]);
}

#[test]
fn square_matches_reference_multiply() {
    let cases: Vec<Vec<u64>> = vec![
        vec![0],
        vec![3],
        vec![0xFFFFFFFFFFFFFFFF],
        vec![0xFFFFFFFFFFFFFFFF, 0xFFFFFFFFFFFFFFFF],
        vec![123456789, 987654321, 555],
        vec![0xDEADBEEF, 0, 1, 0xFFFFFFFFFFFFFFFF],
        vec![1, 2, 3, 4, 5],
    ];
    for limbs in cases {
        let mut n = BigNum(limbs.clone());
        n.square();
        assert_eq!(n.0, reference_multiply(&limbs, &limbs));
    }
}

#[test]
fn square_normalizes_redundant_zero_limbs() {
    let mut n = BigNum(vec![5, 0]);
    n.square();
    assert_eq!(n.0, vec![25]);
}

#[test]
fn repeated_squaring_of_three() {
    let mut n = BigNum::new(3);
    n.square();
    n.square();
    n.square();
    assert_eq!(n.0, vec![6561]);
    n.square();
    assert_eq!(n.0, vec![43046721]);
}

#[test]
fn compare_zero_forms() {
    let a = BigNum::new(0);
    let b = BigNum::new(1);
    assert!(a < b);
    assert!(b > a);
    assert_eq!(a, BigNum(vec![0]));
}
