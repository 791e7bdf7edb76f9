//! The `BigNum` value type and its verified operations.

use crate::limbs::{
    lemma_carry_step, lemma_prefix_value_full, lemma_prefix_value_step, lemma_value_bound,
    lemma_value_last, lemma_value_push, limb_or_zero, limbs_value, normalized, prefix_value,
    sig_len, spec_add_len, spec_cmp, spec_cmp_limbs, spec_max_len, spec_split_point, spec_truncate,
    zero_limbs,
};
use vstd::arithmetic::power2::pow2;
use vstd::prelude::*;

verus! {

/// An arbitrary-precision unsigned integer: a non-empty little-endian
/// sequence of 64-bit limbs representing the sum of `limb[i] * 2^(64 * i)`.
#[derive(Debug)]
pub struct BigNum(pub Vec<u64>);

/// The failures that the fallible operations surface.
#[derive(Clone, Copy, Debug, PartialEq, Eq, Structural)]
pub enum BigNumError {
    /// A subtraction whose result would be negative: negative values are
    /// unsupported.
    NegativeResult,
    /// A residual borrow after a subtraction that the ordering check
    /// allowed: an internal consistency failure, not a user error.
    InvariantViolation,
    /// An operation deliberately left unimplemented.
    NotImplemented,
}

impl View for BigNum {
    type V = Seq<u64>;

    open spec fn view(&self) -> Seq<u64> {
        self.0@
    }
}

impl BigNum {
    /// The non-negative integer this value represents.
    pub open spec fn as_nat(&self) -> nat {
        limbs_value(self@)
    }

    /// The limb buffer is never empty.
    pub open spec fn well_formed(&self) -> bool {
        self@.len() >= 1
    }

    /// No redundant most-significant zero limb.
    pub open spec fn normalized(&self) -> bool {
        normalized(self@)
    }

    /// Constructs the value of a single native 64-bit integer.
    pub fn new(value: u64) -> (r: Self)
        ensures
            r@ == seq![value],
            r.as_nat() == value,
            r.normalized(),
    {
        let mut v: Vec<u64> = Vec::new();
        v.push(value);
        proof {
            assert(v@ =~= seq![value]);
            crate::limbs::lemma_value_singleton(value);
        }
        BigNum(v)
    }

    /// Grows the limb buffer to length `size` by appending zero limbs, or
    /// shrinks it to `size` by dropping most-significant limbs. Shrinking
    /// below the significant length would discard value, so callers must
    /// keep `size` at or above it; the value is then preserved.
    pub fn resize(&mut self, size: usize)
        requires
            old(self).well_formed(),
            size >= sig_len(old(self)@),
        ensures
            final(self)@.len() == size,
            final(self).as_nat() == old(self).as_nat(),
            sig_len(final(self)@) == sig_len(old(self)@),
            size <= old(self)@.len() ==> final(self)@ == old(self)@.take(size as int),
            size >= old(self)@.len() ==> final(self)@ == old(self)@ + zero_limbs(
                (size - old(self)@.len()) as nat,
            ),
    {
        proof {
            crate::limbs::lemma_sig_len_bounds(old(self)@);
        }
        if size <= self.0.len() {
            self.0.truncate(size);
            proof {
                crate::limbs::lemma_value_take(old(self)@, size as int);
            }
        } else {
            while self.0.len() < size
                invariant
                    old(self)@.len() <= self@.len() <= size,
                    self@ == old(self)@ + zero_limbs((self@.len() - old(self)@.len()) as nat),
                decreases size - self@.len(),
            {
                self.0.push(0u64);
                proof {
                    assert(self@ =~= old(self)@ + zero_limbs(
                        (self@.len() - old(self)@.len()) as nat,
                    ));
                }
            }
            proof {
                assert(self@ =~= old(self)@ + zero_limbs((size - old(self)@.len()) as nat));
                crate::limbs::lemma_value_append(
                    old(self)@,
                    zero_limbs((size - old(self)@.len()) as nat),
                );
                crate::limbs::lemma_value_zero_limbs((size - old(self)@.len()) as nat);
                crate::limbs::lemma_sig_len_append_zeros(
                    old(self)@,
                    (size - old(self)@.len()) as nat,
                );
            }
        }
    }

    /// Strips most-significant zero limbs down to a minimum length of 1,
    /// leaving the normalized form; the value is unchanged.
    pub fn truncate(&mut self)
        requires
            old(self).well_formed(),
        ensures
            final(self)@ == spec_truncate(old(self)@),
            final(self).normalized(),
            final(self).as_nat() == old(self).as_nat(),
            final(self)@.len() == sig_len(old(self)@),
    {
        while self.0.len() > 1 && self.0[self.0.len() - 1] == 0
            invariant
                1 <= self@.len() <= old(self)@.len(),
                self@ == old(self)@.take(self@.len() as int),
                sig_len(self@) == sig_len(old(self)@),
                limbs_value(self@) == limbs_value(old(self)@),
            decreases self@.len(),
        {
            proof {
                assert(self@ =~= self@.drop_last().push(self@.last()));
                crate::limbs::lemma_value_push(self@.drop_last(), self@.last());
                assert((self@.last() as nat) * vstd::arithmetic::power2::pow2(
                    64 * (self@.len() - 1) as nat,
                ) == 0) by (nonlinear_arith)
                    requires
                        self@.last() == 0,
                ;
                assert(self@.drop_last() =~= old(self)@.take(self@.len() - 1));
            }
            let _ = self.0.pop();
        }
        proof {
            crate::limbs::lemma_normalized_sig_len(self@);
            assert(self@ =~= old(self)@.take(sig_len(old(self)@) as int));
        }
    }

    /// Schoolbook addition in place: afterwards `self` represents the sum
    /// of the two values. The buffer keeps the longer operand's length,
    /// plus one limb when a final carry remains; adding normalized values
    /// gives a normalized result.
    #[verifier::loop_isolation(false)]
    pub fn add(&mut self, other: &Self)
        requires
            old(self).well_formed(),
            other.well_formed(),
            old(self)@.len() < usize::MAX,
            other@.len() < usize::MAX,
        ensures
            final(self).as_nat() == old(self).as_nat() + other.as_nat(),
            final(self)@.len() == spec_add_len(old(self)@, other@),
            final(self).well_formed(),
            old(self).normalized() && other.normalized() ==> final(self).normalized(),
    {
        let a_len = self.0.len();
        let b_len = other.0.len();
        let total = if a_len < b_len {
            b_len
        } else {
            a_len
        };
        let mut result: Vec<u64> = Vec::new();
        let mut carry: u64 = 0;
        let mut i: usize = 0;
        while i < total
            invariant
                i <= total,
                result@.len() == i,
                carry <= 1,
                limbs_value(result@) + (carry as nat) * pow2((64 * i) as nat) == prefix_value(
                    old(self)@,
                    i as int,
                ) + prefix_value(other@, i as int),
            decreases total - i,
        {
            let av: u64 = if i < a_len {
                self.0[i]
            } else {
                0u64
            };
            let bv: u64 = if i < b_len {
                other.0[i]
            } else {
                0u64
            };
            let s: u128 = av as u128 + bv as u128 + carry as u128;
            let low: u64 = (s % 0x10000000000000000u128) as u64;
            let c_next: u64 = (s / 0x10000000000000000u128) as u64;
            proof {
                vstd::arithmetic::div_mod::lemma_fundamental_div_mod(
                    s as int,
                    0x10000000000000000,
                );
                vstd::arithmetic::power2::lemma2_to64_rest();
                assert(low as nat + pow2(64) * (c_next as nat) == s as nat);
                assert(c_next <= 1);
                lemma_carry_step(result@, low, c_next as nat, s as nat, i as nat);
                lemma_prefix_value_step(old(self)@, i as int);
                lemma_prefix_value_step(other@, i as int);
                let p = pow2((64 * i) as nat);
                assert((av as nat + bv as nat + carry as nat) * p == (av as nat) * p + (bv as nat)
                    * p + (carry as nat) * p) by (nonlinear_arith);
            }
            result.push(low);
            carry = c_next;
            i = i + 1;
        }
        proof {
            lemma_prefix_value_full(old(self)@, total as int);
            lemma_prefix_value_full(other@, total as int);
            lemma_value_bound(result@);
            vstd::arithmetic::power2::lemma_pow2_pos((64 * total) as nat);
            assert(limbs_value(result@) + (carry as nat) * pow2((64 * total) as nat) == old(
                self,
            ).as_nat() + other.as_nat());
            if carry == 0 {
                assert((carry as nat) * pow2((64 * total) as nat) == 0) by (nonlinear_arith)
                    requires
                        carry == 0,
                ;
            }
        }
        if carry > 0 {
            proof {
                let p = pow2((64 * total) as nat);
                assert((carry as nat) * p >= p) by (nonlinear_arith)
                    requires
                        carry >= 1,
                        p > 0,
                ;
                lemma_value_push(result@, carry);
            }
            result.push(carry);
        }
        proof {
            if old(self).normalized() && other.normalized() && result@.len() > 1 && carry == 0 {
                let p = pow2((64 * (total - 1)) as nat);
                vstd::arithmetic::power2::lemma_pow2_pos((64 * (total - 1)) as nat);
                if a_len == total {
                    lemma_value_last(old(self)@);
                    vstd::arithmetic::mul::lemma_mul_inequality(
                        1,
                        old(self)@.last() as int,
                        p as int,
                    );
                } else {
                    lemma_value_last(other@);
                    vstd::arithmetic::mul::lemma_mul_inequality(1, other@.last() as int, p as int);
                }
                lemma_value_last(result@);
                if result@.last() == 0 {
                    assert(((result@.last() as nat) + 1) * p == p) by (nonlinear_arith)
                        requires
                            result@.last() == 0,
                    ;
                    assert(false);
                }
            }
        }
        self.0 = result;
    }

    /// Compares two values by length first, then limb by limb from the most
    /// significant index down; on normalized operands this is exactly the
    /// order of the represented integers.
    #[verifier::loop_isolation(false)]
    pub fn cmp(&self, other: &Self) -> (r: core::cmp::Ordering)
        ensures
            r == spec_cmp(self@, other@),
            self.normalized() && other.normalized() ==> {
                &&& (r == core::cmp::Ordering::Less <==> self.as_nat() < other.as_nat())
                &&& (r == core::cmp::Ordering::Equal <==> self.as_nat() == other.as_nat())
                &&& (r == core::cmp::Ordering::Greater <==> self.as_nat() > other.as_nat())
            },
    {
        proof {
            if self.normalized() && other.normalized() {
                crate::limbs::lemma_cmp_matches_value_order(self@, other@);
            }
        }
        let s_len = self.0.len();
        let o_len = other.0.len();
        if s_len < o_len {
            return core::cmp::Ordering::Less;
        }
        if s_len > o_len {
            return core::cmp::Ordering::Greater;
        }
        let mut i: usize = s_len;
        while i > 0
            invariant
                i <= s_len,
                s_len == self@.len(),
                s_len == other@.len(),
                spec_cmp_limbs(self@, other@, s_len as nat) == spec_cmp_limbs(
                    self@,
                    other@,
                    i as nat,
                ),
            decreases i,
        {
            let a = self.0[i - 1];
            let b = other.0[i - 1];
            if a < b {
                return core::cmp::Ordering::Less;
            }
            if a > b {
                return core::cmp::Ordering::Greater;
            }
            i = i - 1;
        }
        core::cmp::Ordering::Equal
    }

    /// Borrow-propagating subtraction in place, defined when `self` is at
    /// least `other`: afterwards `self` represents the difference, in
    /// normalized form. When `self` is smaller the operation fails with
    /// `NegativeResult` and leaves `self` unchanged.
    #[verifier::loop_isolation(false)]
    pub fn sub(&mut self, other: &Self) -> (r: Result<(), BigNumError>)
        requires
            old(self).normalized(),
            other.normalized(),
        ensures
            old(self).as_nat() >= other.as_nat() ==> r is Ok && final(self).normalized()
                && final(self).as_nat() == old(self).as_nat() - other.as_nat(),
            old(self).as_nat() < other.as_nat() ==> r == Err::<(), BigNumError>(
                BigNumError::NegativeResult,
            ) && final(self)@ == old(self)@,
    {
        match self.cmp(other) {
            core::cmp::Ordering::Less => Err(BigNumError::NegativeResult),
            core::cmp::Ordering::Equal => {
                let mut z: Vec<u64> = Vec::new();
                z.push(0u64);
                proof {
                    assert(z@ =~= seq![0u64]);
                    crate::limbs::lemma_value_singleton(0u64);
                }
                self.0 = z;
                Ok(())
            },
            core::cmp::Ordering::Greater => {
                let len = self.0.len();
                let b_len = other.0.len();
                let mut result: Vec<u64> = Vec::new();
                let mut borrow: u64 = 0;
                let mut i: usize = 0;
                while i < len
                    invariant
                        i <= len,
                        result@.len() == i,
                        borrow <= 1,
                        limbs_value(result@) as int == prefix_value(old(self)@, i as int) as int
                            - prefix_value(other@, i as int) as int + (borrow as int) * pow2(
                            (64 * i) as nat,
                        ),
                    decreases len - i,
                {
                    let av: u128 = self.0[i] as u128;
                    let sub_amt: u128 = (if i < b_len {
                        other.0[i]
                    } else {
                        0u64
                    }) as u128 + borrow as u128;
                    let low: u64;
                    let b_next: u64;
                    if av >= sub_amt {
                        low = (av - sub_amt) as u64;
                        b_next = 0;
                    } else {
                        low = (av + 0x10000000000000000u128 - sub_amt) as u64;
                        b_next = 1;
                    }
                    proof {
                        lemma_value_push(result@, low);
                        lemma_prefix_value_step(old(self)@, i as int);
                        lemma_prefix_value_step(other@, i as int);
                        vstd::arithmetic::power2::lemma_pow2_adds(64, (64 * i) as nat);
                        let p = pow2((64 * i) as nat);
                        let a_i = limb_or_zero(old(self)@, i as int) as int;
                        let b_i = limb_or_zero(other@, i as int) as int;
                        assert(low as int == a_i - b_i - borrow + 0x10000000000000000 * (
                        b_next as int));
                        assert((a_i - b_i - borrow + 0x10000000000000000 * (b_next as int)) * p
                            == a_i * p - b_i * p - (borrow as int) * p + (b_next as int) * (
                        0x10000000000000000 * p)) by (nonlinear_arith);
                        assert(pow2((64 * (i + 1)) as nat) == pow2(64) * p);
                        vstd::arithmetic::power2::lemma2_to64_rest();
                    }
                    result.push(low);
                    borrow = b_next;
                    i = i + 1;
                }
                proof {
                    lemma_prefix_value_full(old(self)@, len as int);
                    lemma_prefix_value_full(other@, len as int);
                    lemma_value_bound(result@);
                    if borrow != 0 {
                        vstd::arithmetic::mul::lemma_mul_inequality(
                            1,
                            borrow as int,
                            pow2((64 * len) as nat) as int,
                        );
                        assert(false);
                    }
                    assert((borrow as int) * pow2((64 * len) as nat) == 0) by (nonlinear_arith)
                        requires
                            borrow == 0,
                    ;
                }
                self.0 = result;
                self.truncate();
                if borrow != 0 {
                    return Err(BigNumError::InvariantViolation);
                }
                Ok(())
            },
        }
    }

    /// Partitions the limbs at the midpoint `ceil(len / 2)` into the
    /// least-significant part and the most-significant part, returned as
    /// two new independently-owned values (not independently normalized).
    #[verifier::loop_isolation(false)]
    pub fn split(&self) -> (r: (Self, Self))
        requires
            self.well_formed(),
        ensures
            r.0@ == self@.take(spec_split_point(self@) as int),
            r.1@ == self@.skip(spec_split_point(self@) as int),
            r.0.as_nat() + pow2(64 * spec_split_point(self@)) * r.1.as_nat() == self.as_nat(),
    {
        let n = self.0.len();
        let m = n / 2 + n % 2;
        proof {
            assert(m == spec_split_point(self@));
        }
        let mut lo: Vec<u64> = Vec::new();
        let mut i: usize = 0;
        while i < m
            invariant
                i <= m,
                lo@ == self@.take(i as int),
            decreases m - i,
        {
            lo.push(self.0[i]);
            i = i + 1;
            proof {
                assert(lo@ =~= self@.take(i as int));
            }
        }
        let mut hi: Vec<u64> = Vec::new();
        let mut j: usize = m;
        while j < n
            invariant
                m <= j <= n,
                hi@ == self@.subrange(m as int, j as int),
            decreases n - j,
        {
            hi.push(self.0[j]);
            j = j + 1;
            proof {
                assert(hi@ =~= self@.subrange(m as int, j as int));
            }
        }
        proof {
            assert(hi@ =~= self@.skip(m as int));
            crate::limbs::lemma_value_split_at(self@, m as int);
        }
        (BigNum(lo), BigNum(hi))
    }

    /// Shifts the value left by `shamnt` bits in place: whole limbs are
    /// prepended as zeros, and the residual bit count sweeps a carry from
    /// the least-significant limb upward, appending one limb when a final
    /// carry remains. The value is multiplied by `2^shamnt`; a shift by a
    /// whole number of limbs exactly prepends that many zero limbs, and a
    /// shift by zero changes nothing.
    #[verifier::loop_isolation(false)]
    pub fn shift_left(&mut self, shamnt: u128)
        requires
            old(self).well_formed(),
            old(self)@.len() + shamnt / 64 + 1 <= usize::MAX,
        ensures
            final(self).as_nat() == old(self).as_nat() * pow2(shamnt as nat),
            final(self).well_formed(),
            final(self)@.len() == old(self)@.len() + shamnt / 64 + (if final(self).as_nat()
                < pow2((64 * (old(self)@.len() + shamnt / 64)) as nat) {
                0int
            } else {
                1int
            }),
            shamnt == 0 ==> final(self)@ == old(self)@,
            shamnt % 64 == 0 ==> final(self)@ == zero_limbs((shamnt / 64) as nat) + old(self)@,
            old(self).normalized() && old(self).as_nat() > 0 ==> final(self).normalized(),
    {
        if shamnt == 0 {
            proof {
                vstd::arithmetic::power2::lemma2_to64();
                let v = old(self).as_nat();
                assert(v * pow2(0) == v) by (nonlinear_arith)
                    requires
                        pow2(0) == 1,
                ;
                assert(zero_limbs(0) + old(self)@ =~= old(self)@);
                crate::limbs::lemma_value_bound(old(self)@);
            }
            return ;
        }
        let word_shifts: usize = (shamnt / 64) as usize;
        let bit_shifts: u64 = (shamnt % 64) as u64;
        proof {
            vstd::arithmetic::div_mod::lemma_fundamental_div_mod(shamnt as int, 64);
        }
        if word_shifts > 0 {
            let mut new_vec: Vec<u64> = Vec::new();
            let mut k: usize = 0;
            while k < word_shifts
                invariant
                    k <= word_shifts,
                    new_vec@ == zero_limbs(k as nat),
                decreases word_shifts - k,
            {
                new_vec.push(0u64);
                k = k + 1;
                proof {
                    assert(new_vec@ =~= zero_limbs(k as nat));
                }
            }
            let n = self.0.len();
            let mut j: usize = 0;
            while j < n
                invariant
                    j <= n,
                    n == self@.len(),
                    new_vec@ == zero_limbs(word_shifts as nat) + self@.take(j as int),
                decreases n - j,
            {
                new_vec.push(self.0[j]);
                j = j + 1;
                proof {
                    assert(new_vec@ =~= zero_limbs(word_shifts as nat) + self@.take(j as int));
                }
            }
            proof {
                assert(new_vec@ =~= zero_limbs(word_shifts as nat) + self@);
                crate::limbs::lemma_value_append(zero_limbs(word_shifts as nat), self@);
                crate::limbs::lemma_value_zero_limbs(word_shifts as nat);
                assert(zero_limbs(word_shifts as nat).len() == word_shifts);
            }
            self.0 = new_vec;
        }
        proof {
            if word_shifts == 0 {
                assert(zero_limbs(0) + old(self)@ =~= old(self)@);
                vstd::arithmetic::power2::lemma2_to64();
                let v = old(self).as_nat();
                assert(pow2(0) * v == v) by (nonlinear_arith)
                    requires
                        pow2(0) == 1,
                ;
            }
            assert(self@ == zero_limbs(word_shifts as nat) + old(self)@);
            assert(limbs_value(self@) == pow2((64 * word_shifts) as nat) * old(self).as_nat());
        }
        let ghost mid = self@;
        if bit_shifts > 0 {
            proof {
                vstd::bits::lemma_u64_pow2_no_overflow(bit_shifts as nat);
                vstd::bits::lemma_u64_shl_is_mul(1u64, bit_shifts);
            }
            let factor: u64 = 1u64 << bit_shifts;
            proof {
                assert(factor == pow2(bit_shifts as nat)) by (nonlinear_arith)
                    requires
                        factor == 1u64 * pow2(bit_shifts as nat),
                ;
                vstd::arithmetic::power2::lemma_pow2_pos(bit_shifts as nat);
            }
            let n2 = self.0.len();
            let mut result: Vec<u64> = Vec::new();
            let mut carry: u64 = 0;
            let mut i: usize = 0;
            proof {
                assert(self@.take(0) =~= Seq::<u64>::empty());
                assert(limbs_value(Seq::<u64>::empty()) == 0);
                let f = pow2(bit_shifts as nat);
                assert((0 as nat) * pow2(0) == 0 && (0 as nat) * f == 0) by (nonlinear_arith);
            }
            while i < n2
                invariant
                    i <= n2,
                    n2 == self@.len(),
                    result@.len() == i,
                    (carry as nat) < pow2(bit_shifts as nat),
                    factor == pow2(bit_shifts as nat),
                    limbs_value(result@) + (carry as nat) * pow2((64 * i) as nat) == limbs_value(
                        self@.take(i as int),
                    ) * pow2(bit_shifts as nat),
                decreases n2 - i,
            {
                let x = self.0[i];
                proof {
                    assert((x as nat) * (factor as nat) + (carry as nat)
                        < 0x100000000000000000000000000000000) by (nonlinear_arith)
                        requires
                            x <= 0xFFFFFFFFFFFFFFFFu64,
                            factor <= 0xFFFFFFFFFFFFFFFFu64,
                            carry <= 0xFFFFFFFFFFFFFFFFu64,
                    ;
                }
                let t: u128 = (x as u128) * (factor as u128) + (carry as u128);
                let low: u64 = (t % 0x10000000000000000u128) as u64;
                let c_next: u64 = (t / 0x10000000000000000u128) as u64;
                proof {
                    let f = factor as nat;
                    assert(t as nat <= 0x10000000000000000 * f - 1) by (nonlinear_arith)
                        requires
                            t as nat == (x as nat) * f + (carry as nat),
                            x as nat <= 0xFFFFFFFFFFFFFFFF,
                            (carry as nat) < f,
                            f >= 1,
                    ;
                    vstd::arithmetic::div_mod::lemma_fundamental_div_mod(
                        t as int,
                        0x10000000000000000,
                    );
                    vstd::arithmetic::power2::lemma2_to64_rest();
                    assert(low as nat + pow2(64) * (c_next as nat) == t as nat);
                    if c_next as nat >= f {
                        vstd::arithmetic::mul::lemma_mul_inequality(
                            f as int,
                            c_next as int,
                            0x10000000000000000,
                        );
                        assert(false);
                    }
                    lemma_carry_step(result@, low, c_next as nat, t as nat, i as nat);
                    assert(self@.take(i + 1) =~= self@.take(i as int).push(x));
                    lemma_value_push(self@.take(i as int), x);
                    let p = pow2((64 * i) as nat);
                    let v = limbs_value(self@.take(i as int));
                    assert((v + (x as nat) * p) * f == v * f + ((x as nat) * f + (carry as nat))
                        * p - (carry as nat) * p) by (nonlinear_arith);
                }
                result.push(low);
                carry = c_next;
                i = i + 1;
            }
            proof {
                assert(self@.take(n2 as int) =~= self@);
            }
            if carry > 0 {
                proof {
                    lemma_value_push(result@, carry);
                }
                result.push(carry);
            } else {
                proof {
                    assert((carry as nat) * pow2((64 * n2) as nat) == 0) by (nonlinear_arith)
                        requires
                            carry == 0,
                    ;
                }
            }
            self.0 = result;
            proof {
                assert(self@.len() == mid.len() || (self@.len() == mid.len() + 1 && self@.last()
                    != 0));
            }
        }
        proof {
            vstd::arithmetic::power2::lemma_pow2_adds((64 * word_shifts) as nat, bit_shifts as nat);
            assert((64 * word_shifts + bit_shifts) as nat == shamnt as nat);
            let pw = pow2((64 * word_shifts) as nat);
            let pr = pow2(bit_shifts as nat);
            let v = old(self).as_nat();
            assert((pw * v) * pr == v * (pw * pr)) by (nonlinear_arith);
            if bit_shifts == 0 {
                vstd::arithmetic::power2::lemma2_to64();
                assert(self@ == mid);
                assert(limbs_value(mid) * pow2(0) == limbs_value(mid)) by (nonlinear_arith)
                    requires
                        pow2(0) == 1,
                ;
            }
            assert(mid.len() == old(self)@.len() + shamnt / 64);
            crate::limbs::lemma_value_bound(self@);
            if self@.len() == mid.len() + 1 {
                lemma_value_last(self@);
                let pb = pow2((64 * mid.len()) as nat);
                vstd::arithmetic::power2::lemma_pow2_pos((64 * mid.len()) as nat);
                vstd::arithmetic::mul::lemma_mul_inequality(1, self@.last() as int, pb as int);
            }
            if old(self).normalized() && old(self).as_nat() > 0 {
                crate::limbs::lemma_normalized_positive_last(old(self)@);
                assert(mid.len() >= 1 && mid.last() == old(self)@.last());
                assert(normalized(mid));
                if self@.len() > 1 {
                    if bit_shifts == 0 {
                        assert(self@.last() == old(self)@.last());
                    } else if self@.len() == mid.len() + 1 {
                        assert(self@.last() != 0);
                    } else {
                        // no final carry: the top limb keeps the value large
                        let p = pow2((64 * (mid.len() - 1)) as nat);
                        vstd::arithmetic::power2::lemma_pow2_pos((64 * (mid.len() - 1)) as nat);
                        lemma_value_last(mid);
                        vstd::arithmetic::mul::lemma_mul_inequality(
                            1,
                            mid.last() as int,
                            p as int,
                        );
                        vstd::arithmetic::power2::lemma_pow2_pos(bit_shifts as nat);
                        assert(limbs_value(self@) >= limbs_value(mid)) by (nonlinear_arith)
                            requires
                                limbs_value(self@) == limbs_value(mid) * pow2(bit_shifts as nat),
                                pow2(bit_shifts as nat) >= 1,
                        ;
                        lemma_value_last(self@);
                        if self@.last() == 0 {
                            assert(((self@.last() as nat) + 1) * p == p) by (nonlinear_arith)
                                requires
                                    self@.last() == 0,
                            ;
                            assert(false);
                        }
                    }
                }
            }
        }
    }

    /// The square of `x`, computed by recursive Karatsuba-style splitting:
    /// a value of more than one limb is split at `m = ceil(len / 2)` into a
    /// low part `R` and a high part `L`, and `(L·2^(64m) + R)^2` is put
    /// back together from three half-size squares as `L^2·2^(128m) +
    /// ((L+R)^2 - L^2 - R^2)·2^(64m) + R^2`.
    fn square_of(x: &Self) -> (r: Self)
        requires
            x.well_formed(),
            2 * x@.len() + 2 <= usize::MAX,
        ensures
            r.as_nat() == x.as_nat() * x.as_nat(),
            r.normalized(),
            r@.len() <= 2 * x@.len(),
        decreases x.as_nat(), x@.len(),
    {
        let n = x.0.len();
        if n == 1 {
            let limb = x.0[0];
            proof {
                assert((limb as nat) * (limb as nat) < 0x100000000000000000000000000000000)
                    by (nonlinear_arith)
                    requires
                        limb <= 0xFFFFFFFFFFFFFFFFu64,
                ;
            }
            let t: u128 = (limb as u128) * (limb as u128);
            let low: u64 = (t % 0x10000000000000000u128) as u64;
            let high: u64 = (t / 0x10000000000000000u128) as u64;
            let mut v: Vec<u64> = Vec::new();
            v.push(low);
            if high > 0 {
                v.push(high);
            }
            proof {
                assert(x@ =~= seq![limb]);
                crate::limbs::lemma_value_singleton(limb);
                vstd::arithmetic::div_mod::lemma_fundamental_div_mod(
                    t as int,
                    0x10000000000000000,
                );
                vstd::arithmetic::power2::lemma2_to64_rest();
                crate::limbs::lemma_value_singleton(low);
                assert(t as nat == (limb as nat) * (limb as nat));
                assert(low as nat + 0x10000000000000000 * (high as nat) == t as nat);
                if high > 0 {
                    assert(v@ =~= seq![low].push(high));
                    lemma_value_push(seq![low], high);
                    assert(limbs_value(v@) == low as nat + (high as nat) * pow2(64));
                    assert(limbs_value(v@) == t as nat);
                } else {
                    assert(v@ =~= seq![low]);
                    assert(pow2(64) * (high as nat) == 0) by (nonlinear_arith)
                        requires
                            high == 0,
                    ;
                    assert(limbs_value(v@) == t as nat);
                }
            }
            return BigNum(v);
        }
        let m = n / 2 + n % 2;
        let (ar, al) = x.split();
        let ghost rv = ar.as_nat();
        let ghost lv = al.as_nat();
        let ghost pm = pow2((64 * m) as nat);
        let ghost sv = x.as_nat();
        proof {
            assert(m == spec_split_point(x@));
            assert(1 <= m && m < n && n - m <= m);
            assert(ar@.len() == m && al@.len() == n - m);
            assert(rv + pm * lv == sv);
            lemma_value_bound(ar@);
            lemma_value_bound(al@);
            if n - m < m {
                vstd::arithmetic::power2::lemma_pow2_strictly_increases(
                    (64 * (n - m)) as nat,
                    (64 * m) as nat,
                );
            }
            assert(rv < pm && lv < pm);
            vstd::arithmetic::power2::lemma2_to64();
            vstd::arithmetic::power2::lemma_pow2_strictly_increases(0, (64 * m) as nat);
            if lv >= 1 {
                assert(lv < pm * lv && pm <= pm * lv) by (nonlinear_arith)
                    requires
                        lv >= 1,
                        pm >= 2,
                ;
            } else {
                assert(pm * lv == 0) by (nonlinear_arith)
                    requires
                        lv == 0,
                ;
            }
            assert(lv < sv || (lv == sv && al@.len() < x@.len()));
            assert(rv < sv || (rv == sv && ar@.len() < x@.len()));
        }
        let d1 = Self::square_of(&al);
        let d0 = Self::square_of(&ar);
        let mut d01 = al;
        d01.add(&ar);
        proof {
            assert(d01.as_nat() == lv + rv);
            assert(spec_max_len(x@.skip(m as int), x@.take(m as int)) == m);
            if lv == 0 {
                assert(lv + rv < pm);
                assert(d01@.len() == m);
            }
            assert(d01@.len() <= m + 1);
            assert(lv + rv < sv || (lv + rv == sv && d01@.len() < x@.len()));
        }
        let mut cross = Self::square_of(&d01);
        proof {
            assert(cross.as_nat() == (lv + rv) * (lv + rv));
            assert((lv + rv) * (lv + rv) == lv * lv + 2 * (lv * rv) + rv * rv)
                by (nonlinear_arith);
        }
        let _ = cross.sub(&d0);
        proof {
            assert(cross.as_nat() == lv * lv + 2 * (lv * rv));
        }
        let _ = cross.sub(&d1);
        proof {
            assert(cross.as_nat() == 2 * (lv * rv));
            assert(lv * rv < pm * pm) by (nonlinear_arith)
                requires
                    lv < pm,
                    rv < pm,
            ;
            vstd::arithmetic::power2::lemma_pow2_adds((64 * m) as nat, (64 * m) as nat);
            vstd::arithmetic::power2::lemma_pow2_adds(1, (128 * m) as nat);
            vstd::arithmetic::power2::lemma_pow2_strictly_increases(
                (128 * m + 1) as nat,
                (128 * m + 64) as nat,
            );
            crate::limbs::lemma_normalized_len_le(cross@, (2 * m + 1) as nat);
            assert(3 * m + 2 <= usize::MAX);
        }
        cross.shift_left(64u128 * (m as u128));
        let mut c = d1;
        proof {
            assert(c@.len() + 2 * m + 1 <= usize::MAX);
        }
        c.shift_left(128u128 * (m as u128));
        c.add(&cross);
        c.add(&d0);
        proof {
            assert(sv * sv == (lv * lv) * (pm * pm) + (2 * (lv * rv)) * pm + rv * rv)
                by (nonlinear_arith)
                requires
                    sv == rv + pm * lv,
            ;
            assert(c.as_nat() == sv * sv);
        }
        c.truncate();
        proof {
            lemma_value_bound(x@);
            vstd::arithmetic::power2::lemma_pow2_adds((64 * n) as nat, (64 * n) as nat);
            assert(sv * sv < pow2((64 * n) as nat) * pow2((64 * n) as nat)) by (nonlinear_arith)
                requires
                    sv < pow2((64 * n) as nat),
            ;
            crate::limbs::lemma_normalized_len_le(c@, (2 * n) as nat);
        }
        c
    }

    /// Recursive Karatsuba-style squaring in place: afterwards `self`
    /// represents the square of its old value, in normalized form.
    pub fn square(&mut self)
        requires
            old(self).well_formed(),
            2 * old(self)@.len() + 2 <= usize::MAX,
        ensures
            final(self).as_nat() == old(self).as_nat() * old(self).as_nat(),
            final(self).normalized(),
            final(self)@.len() <= 2 * old(self)@.len(),
    {
        let r = Self::square_of(self);
        self.0 = r.0;
    }

    /// Deliberately unimplemented: a right shift has no specified meaning
    /// here yet, so it fails fast with `NotImplemented` instead of
    /// returning a plausible-looking wrong value.
    pub fn shift_right(&mut self, shamnt: u128) -> (r: Result<(), BigNumError>)
        ensures
            r == Err::<(), BigNumError>(BigNumError::NotImplemented),
            final(self)@ == old(self)@,
    {
        let _ = shamnt;
        Err(BigNumError::NotImplemented)
    }
}

impl PartialEq for BigNum {
    /// Limb-wise equality: the buffers hold the same limbs.
    fn eq(&self, other: &Self) -> (r: bool) {
        proof {
            if self@.len() == other@.len() {
                crate::limbs::lemma_cmp_limbs_correct(self@, other@, self@.len());
                if self@ == other@ {
                    crate::limbs::lemma_cmp_limbs_equal(self@, other@, self@.len());
                }
            }
        }
        match self.cmp(other) {
            core::cmp::Ordering::Equal => true,
            _ => false,
        }
    }
}

impl vstd::std_specs::cmp::PartialEqSpecImpl for BigNum {
    open spec fn obeys_eq_spec() -> bool {
        true
    }

    open spec fn eq_spec(&self, other: &Self) -> bool {
        self@ == other@
    }
}

impl PartialOrd for BigNum {
    /// The total order of `cmp`: numeric order on normalized values.
    fn partial_cmp(&self, other: &Self) -> (r: Option<core::cmp::Ordering>) {
        Some(self.cmp(other))
    }
}

impl vstd::std_specs::cmp::PartialOrdSpecImpl for BigNum {
    open spec fn obeys_partial_cmp_spec() -> bool {
        true
    }

    open spec fn partial_cmp_spec(&self, other: &Self) -> Option<core::cmp::Ordering> {
        Some(spec_cmp(self@, other@))
    }
}

/// Normalization is idempotent: stripping redundant most-significant zero
/// limbs a second time changes nothing.
pub proof fn lemma_truncate_idempotent(s: Seq<u64>)
    requires
        s.len() >= 1,
    ensures
        spec_truncate(spec_truncate(s)) == spec_truncate(s),
{
    crate::limbs::lemma_spec_truncate(s);
    crate::limbs::lemma_normalized_sig_len(spec_truncate(s));
}

/// Growing a normalized value with zero limbs and then normalizing it
/// restores it exactly: what `resize` appends, `truncate` strips.
pub proof fn lemma_resize_truncate_roundtrip(s: Seq<u64>, size: nat)
    requires
        normalized(s),
        size >= s.len(),
    ensures
        spec_truncate(s + zero_limbs((size - s.len()) as nat)) == s,
{
    let k = (size - s.len()) as nat;
    crate::limbs::lemma_sig_len_append_zeros(s, k);
    crate::limbs::lemma_normalized_sig_len(s);
    assert((s + zero_limbs(k)).take(s.len() as int) =~= s);
}

/// The value of a sum does not depend on the order of the operands: `add`
/// pins the result to the sum of the operand values, and that sum is the
/// same in both orders.
pub proof fn lemma_add_commutes(a: Seq<u64>, b: Seq<u64>)
    ensures
        limbs_value(a) + limbs_value(b) == limbs_value(b) + limbs_value(a),
{
}

/// Summing three values gives one value in either association.
pub proof fn lemma_add_associates(a: Seq<u64>, b: Seq<u64>, c: Seq<u64>)
    ensures
        (limbs_value(a) + limbs_value(b)) + limbs_value(c) == limbs_value(a) + (limbs_value(b)
            + limbs_value(c)),
{
}

/// Adding the zero value leaves a value unchanged.
pub proof fn lemma_add_zero_identity(a: Seq<u64>, z: Seq<u64>)
    requires
        limbs_value(z) == 0,
    ensures
        limbs_value(a) + limbs_value(z) == limbs_value(a),
{
}

/// `add`'s contract pins the result's value and its exact length, and a
/// value and a length determine the limbs: the two orders of adding the
/// same operands produce identical limb sequences.
pub proof fn lemma_add_result_unique(a: Seq<u64>, b: Seq<u64>, r1: Seq<u64>, r2: Seq<u64>)
    requires
        r1.len() == spec_add_len(a, b),
        limbs_value(r1) == limbs_value(a) + limbs_value(b),
        r2.len() == spec_add_len(b, a),
        limbs_value(r2) == limbs_value(b) + limbs_value(a),
    ensures
        r1 == r2,
{
    assert(spec_add_len(a, b) == spec_add_len(b, a));
    crate::limbs::lemma_value_unique(r1, r2);
}

/// Adding `b` and then subtracting it restores the original value; the
/// subtraction is always permitted, because the sum is never below `b`.
pub proof fn lemma_add_sub_roundtrip(a: Seq<u64>, b: Seq<u64>)
    ensures
        limbs_value(a) + limbs_value(b) >= limbs_value(b),
        (limbs_value(a) + limbs_value(b)) - limbs_value(b) == limbs_value(a),
{
}

} // verus!
