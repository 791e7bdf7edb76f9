//! The mathematical model of a limb sequence: the non-negative integer it
//! stands for, normalization, and the lemmas the operations are proved with.

use vstd::prelude::*;
use vstd::arithmetic::power2::{
    lemma2_to64, lemma2_to64_rest, lemma_pow2_adds, lemma_pow2_pos, lemma_pow2_strictly_increases,
    pow2,
};

verus! {

/// The non-negative integer that a little-endian sequence of 64-bit limbs
/// represents: the sum of `s[i] * 2^(64 * i)` over all indices `i`.
pub open spec fn limbs_value(s: Seq<u64>) -> nat
    decreases s.len(),
{
    if s.len() == 0 {
        0
    } else {
        s[0] as nat + pow2(64) * limbs_value(s.skip(1))
    }
}

/// A sequence of `n` zero limbs.
pub open spec fn zero_limbs(n: nat) -> Seq<u64> {
    Seq::new(n, |i: int| 0u64)
}

/// A limb sequence is normalized when it is non-empty and carries no
/// redundant most-significant zero limb; the value zero is the single limb 0.
pub open spec fn normalized(s: Seq<u64>) -> bool {
    s.len() >= 1 && (s.len() == 1 || s[s.len() - 1] != 0)
}

/// The significant length of a limb sequence: the length left after
/// stripping most-significant zero limbs down to a minimum length of 1.
pub open spec fn sig_len(s: Seq<u64>) -> nat
    decreases s.len(),
{
    if s.len() <= 1 {
        1
    } else if s[s.len() - 1] != 0 {
        s.len()
    } else {
        sig_len(s.drop_last())
    }
}

/// The normalized form of a limb sequence: its first `sig_len` limbs.
pub open spec fn spec_truncate(s: Seq<u64>) -> Seq<u64> {
    s.take(sig_len(s) as int)
}

/// Appending a limb adds its value scaled by the weight of its position.
pub proof fn lemma_value_push(s: Seq<u64>, x: u64)
    ensures
        limbs_value(s.push(x)) == limbs_value(s) + (x as nat) * pow2(64 * s.len()),
    decreases s.len(),
{
    if s.len() == 0 {
        assert(s.push(x).skip(1) =~= Seq::<u64>::empty());
        assert(limbs_value(Seq::<u64>::empty()) == 0);
        assert(limbs_value(s.push(x).skip(1)) == 0);
        assert(s.push(x)[0] == x);
        assert(limbs_value(s.push(x)) == x as nat + pow2(64) * limbs_value(s.push(x).skip(1)));
        assert(pow2(0) == 1) by {
            lemma2_to64();
        }
        assert((x as nat) * 1 == x as nat) by (nonlinear_arith);
    } else {
        assert(s.push(x).skip(1) =~= s.skip(1).push(x));
        lemma_value_push(s.skip(1), x);
        lemma_pow2_adds(64, 64 * (s.len() - 1) as nat);
        let v = limbs_value(s.skip(1));
        let p = pow2(64 * (s.len() - 1) as nat);
        assert(pow2(64) * (v + (x as nat) * p) == pow2(64) * v + (x as nat) * (pow2(64) * p))
            by (nonlinear_arith);
    }
}

/// The value of a limb sequence is below `2^(64 * len)`.
pub proof fn lemma_value_bound(s: Seq<u64>)
    ensures
        limbs_value(s) < pow2(64 * s.len()),
    decreases s.len(),
{
    if s.len() == 0 {
        assert(pow2(0) == 1) by {
            lemma2_to64();
        }
    } else {
        lemma_value_bound(s.skip(1));
        lemma_pow2_adds(64, 64 * (s.len() - 1) as nat);
        let v = limbs_value(s.skip(1));
        let p = pow2(64 * (s.len() - 1) as nat);
        assert(pow2(64) == 0x10000000000000000) by {
            lemma2_to64_rest();
        }
        assert(v <= p - 1);
        assert(pow2(64) * v <= pow2(64) * (p - 1)) by (nonlinear_arith)
            requires
                v <= p - 1 as int,
        ;
        assert(pow2(64) * (p - 1) == pow2(64) * p - pow2(64)) by (nonlinear_arith);
    }
}

/// Concatenation: the appended limbs are scaled by the weight just past `a`.
pub proof fn lemma_value_append(a: Seq<u64>, b: Seq<u64>)
    ensures
        limbs_value(a + b) == limbs_value(a) + pow2(64 * a.len()) * limbs_value(b),
    decreases b.len(),
{
    if b.len() == 0 {
        assert(a + b =~= a);
        lemma_pow2_pos(64 * a.len());
    } else {
        assert(a + b =~= a.push(b[0]) + b.skip(1));
        lemma_value_append(a.push(b[0]), b.skip(1));
        lemma_value_push(a, b[0]);
        lemma_pow2_adds(64 * a.len(), 64);
        let p = pow2(64 * a.len());
        let vb = limbs_value(b.skip(1));
        assert(limbs_value(b) == b[0] as nat + pow2(64) * vb);
        assert(limbs_value(a + b) == limbs_value(a) + (b[0] as nat) * p + (p * pow2(64)) * vb);
        assert(p * (b[0] as nat + pow2(64) * vb) == (b[0] as nat) * p + (p * pow2(64)) * vb)
            by (nonlinear_arith);
        assert(limbs_value(a + b) == limbs_value(a) + p * limbs_value(b));
    }
}

/// Splitting at an index decomposes the value into a low and a high part.
pub proof fn lemma_value_split_at(s: Seq<u64>, i: int)
    requires
        0 <= i <= s.len(),
    ensures
        limbs_value(s) == limbs_value(s.take(i)) + pow2((64 * i) as nat) * limbs_value(s.skip(i)),
{
    assert(s =~= s.take(i) + s.skip(i));
    lemma_value_append(s.take(i), s.skip(i));
}

/// The most-significant limb brackets the value of the whole sequence.
pub proof fn lemma_value_last(s: Seq<u64>)
    requires
        s.len() >= 1,
    ensures
        limbs_value(s) >= (s.last() as nat) * pow2(64 * (s.len() - 1) as nat),
        limbs_value(s) < ((s.last() as nat) + 1) * pow2(64 * (s.len() - 1) as nat),
{
    assert(s =~= s.drop_last().push(s.last()));
    lemma_value_push(s.drop_last(), s.last());
    lemma_value_bound(s.drop_last());
    let p = pow2(64 * (s.len() - 1) as nat);
    assert(((s.last() as nat) + 1) * p == (s.last() as nat) * p + p) by (nonlinear_arith);
}

/// A sequence of zero limbs has value zero.
pub proof fn lemma_value_zero_limbs(n: nat)
    ensures
        limbs_value(zero_limbs(n)) == 0,
    decreases n,
{
    if n == 0 {
        assert(zero_limbs(0) =~= Seq::<u64>::empty());
        assert(limbs_value(zero_limbs(0)) == 0);
    } else {
        assert(zero_limbs(n).skip(1) =~= zero_limbs((n - 1) as nat));
        lemma_value_zero_limbs((n - 1) as nat);
        assert(limbs_value(zero_limbs(n)) == zero_limbs(n)[0] as nat + pow2(64) * limbs_value(
            zero_limbs(n).skip(1),
        ));
        assert(pow2(64) * 0 == 0) by (nonlinear_arith);
    }
}

/// A single limb stands for its own value.
pub proof fn lemma_value_singleton(x: u64)
    ensures
        limbs_value(seq![x]) == x,
{
    assert(seq![x] =~= Seq::<u64>::empty().push(x));
    lemma_value_push(Seq::<u64>::empty(), x);
    lemma2_to64();
    assert((x as nat) * pow2(0) == x) by (nonlinear_arith)
        requires
            pow2(0) == 1,
    ;
}

/// A normalized sequence with a positive value has a non-zero
/// most-significant limb.
pub proof fn lemma_normalized_positive_last(s: Seq<u64>)
    requires
        normalized(s),
        limbs_value(s) > 0,
    ensures
        s.last() != 0,
{
    if s.len() == 1 {
        assert(s =~= seq![s[0]]);
        lemma_value_singleton(s[0]);
    }
}

/// A normalized sequence whose value fits below `2^(64 * k)` has at most
/// `k` limbs.
pub proof fn lemma_normalized_len_le(s: Seq<u64>, k: nat)
    requires
        normalized(s),
        k >= 1,
        limbs_value(s) < pow2(64 * k),
    ensures
        s.len() <= k,
{
    if s.len() > k {
        lemma_value_last(s);
        let p = pow2(64 * (s.len() - 1) as nat);
        vstd::arithmetic::mul::lemma_mul_inequality(1, s.last() as int, p as int);
        if 64 * k < 64 * (s.len() - 1) {
            lemma_pow2_strictly_increases(64 * k, 64 * (s.len() - 1) as nat);
        }
    }
}

/// The significant length lies between 1 and the sequence's length.
pub proof fn lemma_sig_len_bounds(s: Seq<u64>)
    requires
        s.len() >= 1,
    ensures
        1 <= sig_len(s) <= s.len(),
    decreases s.len(),
{
    if s.len() > 1 && s[s.len() - 1] == 0 {
        lemma_sig_len_bounds(s.drop_last());
    }
}

/// The normalized form of a sequence is normalized, keeps its value, and
/// keeps its significant length.
pub proof fn lemma_spec_truncate(s: Seq<u64>)
    requires
        s.len() >= 1,
    ensures
        normalized(spec_truncate(s)),
        limbs_value(spec_truncate(s)) == limbs_value(s),
        sig_len(spec_truncate(s)) == sig_len(s),
        spec_truncate(s).len() == sig_len(s),
    decreases s.len(),
{
    lemma_sig_len_bounds(s);
    if s.len() == 1 || s[s.len() - 1] != 0 {
        assert(spec_truncate(s) =~= s);
    } else {
        lemma_sig_len_bounds(s.drop_last());
        lemma_spec_truncate(s.drop_last());
        assert(s.drop_last().take(sig_len(s) as int) =~= s.take(sig_len(s) as int));
        assert(s =~= s.drop_last().push(s.last()));
        lemma_value_push(s.drop_last(), s.last());
        assert((s.last() as nat) * pow2(64 * (s.len() - 1) as nat) == 0) by (nonlinear_arith)
            requires
                s.last() == 0,
        ;
    }
}

/// A normalized sequence is exactly as long as its significant length.
pub proof fn lemma_normalized_sig_len(s: Seq<u64>)
    requires
        normalized(s),
    ensures
        sig_len(s) == s.len(),
        spec_truncate(s) == s,
{
    assert(spec_truncate(s) =~= s);
}

/// Appending zero limbs does not change the significant length.
pub proof fn lemma_sig_len_append_zeros(s: Seq<u64>, k: nat)
    requires
        s.len() >= 1,
    ensures
        sig_len(s + zero_limbs(k)) == sig_len(s),
    decreases k,
{
    if k == 0 {
        assert(s + zero_limbs(0) =~= s);
    } else {
        let t = s + zero_limbs(k);
        assert(t[t.len() - 1] == 0);
        assert(t.drop_last() =~= s + zero_limbs((k - 1) as nat));
        lemma_sig_len_append_zeros(s, (k - 1) as nat);
    }
}

/// Every limb at or past the significant length is zero.
pub proof fn lemma_high_limbs_zero(s: Seq<u64>)
    requires
        s.len() >= 1,
    ensures
        forall|j: int| sig_len(s) <= j < s.len() ==> s[j] == 0,
    decreases s.len(),
{
    if s.len() > 1 && s[s.len() - 1] == 0 {
        lemma_high_limbs_zero(s.drop_last());
        assert forall|j: int| sig_len(s) <= j < s.len() implies s[j] == 0 by {
            if j < s.len() - 1 {
                assert(s.drop_last()[j] == 0);
            }
        }
    }
}

/// Taking a prefix no shorter than the significant length keeps the value
/// and the significant length.
pub proof fn lemma_value_take(s: Seq<u64>, k: int)
    requires
        sig_len(s) <= k <= s.len(),
        s.len() >= 1,
    ensures
        limbs_value(s.take(k)) == limbs_value(s),
        sig_len(s.take(k)) == sig_len(s),
{
    lemma_sig_len_bounds(s);
    lemma_high_limbs_zero(s);
    lemma_value_split_at(s, k);
    assert(s.skip(k) =~= zero_limbs((s.len() - k) as nat));
    lemma_value_zero_limbs((s.len() - k) as nat);
    lemma_spec_truncate(s);
    assert(s.take(k) =~= s.take(sig_len(s) as int) + zero_limbs((k - sig_len(s)) as nat));
    lemma_sig_len_append_zeros(s.take(sig_len(s) as int), (k - sig_len(s)) as nat);
}

/// A value and a length determine the limbs: two sequences of one length
/// and one value are equal.
pub proof fn lemma_value_unique(a: Seq<u64>, b: Seq<u64>)
    requires
        a.len() == b.len(),
        limbs_value(a) == limbs_value(b),
    ensures
        a == b,
    decreases a.len(),
{
    if a.len() == 0 {
        assert(a =~= b);
    } else {
        let va = limbs_value(a.skip(1));
        let vb = limbs_value(b.skip(1));
        assert(pow2(64) == 0x10000000000000000) by {
            lemma2_to64_rest();
        }
        assert(a[0] == b[0] && va == vb) by (nonlinear_arith)
            requires
                a[0] as nat + 0x10000000000000000 * va == b[0] as nat + 0x10000000000000000 * vb,
                a[0] < 0x10000000000000000,
                b[0] < 0x10000000000000000,
        ;
        lemma_value_unique(a.skip(1), b.skip(1));
        assert forall|i: int| 0 <= i < a.len() implies a[i] == b[i] by {
            if i > 0 {
                assert(a[i] == a.skip(1)[i - 1]);
                assert(b[i] == b.skip(1)[i - 1]);
            }
        }
        assert(a =~= b);
    }
}

/// The limb at index `i`, with indices past the end reading as zero: a
/// shorter operand of a limb-wise operation is padded with zero limbs.
pub open spec fn limb_or_zero(s: Seq<u64>, i: int) -> u64 {
    if 0 <= i < s.len() {
        s[i]
    } else {
        0
    }
}

/// The value of the first `i` limbs, with limbs past the end reading as
/// zero.
pub open spec fn prefix_value(s: Seq<u64>, i: int) -> nat {
    if i <= s.len() {
        limbs_value(s.take(i))
    } else {
        limbs_value(s)
    }
}

/// Extending a prefix by one limb adds that limb at its weight.
pub proof fn lemma_prefix_value_step(s: Seq<u64>, i: int)
    requires
        0 <= i,
    ensures
        prefix_value(s, i + 1) == prefix_value(s, i) + (limb_or_zero(s, i) as nat) * pow2(
            (64 * i) as nat,
        ),
{
    if i < s.len() {
        assert(s.take(i + 1) =~= s.take(i).push(s[i]));
        lemma_value_push(s.take(i), s[i]);
    } else {
        if i == s.len() {
            assert(s.take(i) =~= s);
        }
        assert((0 as nat) * pow2((64 * i) as nat) == 0) by (nonlinear_arith);
    }
}

/// A prefix that covers the whole sequence has the sequence's value.
pub proof fn lemma_prefix_value_full(s: Seq<u64>, i: int)
    requires
        i >= s.len(),
    ensures
        prefix_value(s, i) == limbs_value(s),
{
    if i == s.len() {
        assert(s.take(i) =~= s);
    }
}

/// One carry step: pushing the low limb and carrying the high part to the
/// next position adds the step's total at the current weight.
pub proof fn lemma_carry_step(r: Seq<u64>, low: u64, hi: nat, t: nat, i: nat)
    requires
        r.len() == i,
        low as nat + pow2(64) * hi == t,
    ensures
        limbs_value(r.push(low)) + hi * pow2(64 * (i + 1)) == limbs_value(r) + t * pow2(64 * i),
{
    lemma_value_push(r, low);
    lemma_pow2_adds(64 * i, 64);
    let p = pow2(64 * i);
    assert((low as nat) * p + hi * (p * pow2(64)) == (low as nat + pow2(64) * hi) * p)
        by (nonlinear_arith);
}

/// The midpoint at which a sequence is split for recursive squaring: the
/// ceiling of half its length, so the low part is never the shorter one.
pub open spec fn spec_split_point(s: Seq<u64>) -> nat {
    ((s.len() + 1) / 2) as nat
}

/// The length of the longer of two limb sequences.
pub open spec fn spec_max_len(a: Seq<u64>, b: Seq<u64>) -> nat {
    if a.len() < b.len() {
        b.len()
    } else {
        a.len()
    }
}

/// The exact length of a sum: the longer operand's length, plus one when
/// the sum does not fit in it.
pub open spec fn spec_add_len(a: Seq<u64>, b: Seq<u64>) -> nat {
    if limbs_value(a) + limbs_value(b) < pow2(64 * spec_max_len(a, b)) {
        spec_max_len(a, b)
    } else {
        spec_max_len(a, b) + 1
    }
}

/// The order defined on limb sequences: a shorter sequence is less, and at
/// one length the most-significant differing limb decides.
pub open spec fn spec_cmp_limbs(a: Seq<u64>, b: Seq<u64>, i: nat) -> core::cmp::Ordering
    decreases i,
{
    if i == 0 {
        core::cmp::Ordering::Equal
    } else if a[i - 1] < b[i - 1] {
        core::cmp::Ordering::Less
    } else if a[i - 1] > b[i - 1] {
        core::cmp::Ordering::Greater
    } else {
        spec_cmp_limbs(a, b, (i - 1) as nat)
    }
}

/// The comparison of two limb sequences: by length first, then limb by limb
/// from the most-significant index down.
pub open spec fn spec_cmp(a: Seq<u64>, b: Seq<u64>) -> core::cmp::Ordering {
    if a.len() < b.len() {
        core::cmp::Ordering::Less
    } else if a.len() > b.len() {
        core::cmp::Ordering::Greater
    } else {
        spec_cmp_limbs(a, b, a.len())
    }
}

/// With all limbs at indices `i` and above equal, the limb-wise comparison
/// below `i` decides the order of the values.
pub proof fn lemma_cmp_limbs_correct(a: Seq<u64>, b: Seq<u64>, i: nat)
    requires
        a.len() == b.len(),
        i <= a.len(),
        forall|j: int| i <= j < a.len() ==> a[j] == b[j],
    ensures
        spec_cmp_limbs(a, b, i) == core::cmp::Ordering::Less ==> limbs_value(a) < limbs_value(b),
        spec_cmp_limbs(a, b, i) == core::cmp::Ordering::Greater ==> limbs_value(a) > limbs_value(
            b,
        ),
        spec_cmp_limbs(a, b, i) == core::cmp::Ordering::Equal ==> a == b,
    decreases i,
{
    if i == 0 {
        assert(a =~= b);
    } else if a[i - 1] == b[i - 1] {
        lemma_cmp_limbs_correct(a, b, (i - 1) as nat);
    } else {
        lemma_value_split_at(a, i as int);
        lemma_value_split_at(b, i as int);
        assert(a.skip(i as int) =~= b.skip(i as int));
        assert(a.take(i as int) =~= a.take(i - 1).push(a[i - 1]));
        assert(b.take(i as int) =~= b.take(i - 1).push(b[i - 1]));
        lemma_value_push(a.take(i - 1), a[i - 1]);
        lemma_value_push(b.take(i - 1), b[i - 1]);
        lemma_value_bound(a.take(i - 1));
        lemma_value_bound(b.take(i - 1));
        let p = pow2((64 * (i - 1)) as nat);
        if a[i - 1] < b[i - 1] {
            vstd::arithmetic::mul::lemma_mul_inequality(
                a[i - 1] as int + 1,
                b[i - 1] as int,
                p as int,
            );
            assert((a[i - 1] as int + 1) * p == (a[i - 1] as nat) * p + p) by (nonlinear_arith);
        } else {
            vstd::arithmetic::mul::lemma_mul_inequality(
                b[i - 1] as int + 1,
                a[i - 1] as int,
                p as int,
            );
            assert((b[i - 1] as int + 1) * p == (b[i - 1] as nat) * p + p) by (nonlinear_arith);
        }
    }
}

/// Sequences that agree on every limb below `i` compare as equal there.
pub proof fn lemma_cmp_limbs_equal(a: Seq<u64>, b: Seq<u64>, i: nat)
    requires
        a.len() == b.len(),
        i <= a.len(),
        forall|j: int| 0 <= j < i ==> a[j] == b[j],
    ensures
        spec_cmp_limbs(a, b, i) == core::cmp::Ordering::Equal,
    decreases i,
{
    if i > 0 {
        lemma_cmp_limbs_equal(a, b, (i - 1) as nat);
    }
}

/// On normalized sequences the comparison agrees with the order of the
/// represented values.
pub proof fn lemma_cmp_matches_value_order(a: Seq<u64>, b: Seq<u64>)
    requires
        normalized(a),
        normalized(b),
    ensures
        spec_cmp(a, b) == core::cmp::Ordering::Less <==> limbs_value(a) < limbs_value(b),
        spec_cmp(a, b) == core::cmp::Ordering::Equal <==> limbs_value(a) == limbs_value(b),
        spec_cmp(a, b) == core::cmp::Ordering::Greater <==> limbs_value(a) > limbs_value(b),
{
    if a.len() == b.len() {
        lemma_cmp_limbs_correct(a, b, a.len());
    } else if a.len() < b.len() {
        lemma_value_lt_of_shorter(a, b);
    } else {
        lemma_value_lt_of_shorter(b, a);
    }
}

/// A normalized sequence that is strictly longer represents a strictly
/// larger value.
proof fn lemma_value_lt_of_shorter(a: Seq<u64>, b: Seq<u64>)
    requires
        normalized(a),
        normalized(b),
        a.len() < b.len(),
    ensures
        limbs_value(a) < limbs_value(b),
{
    lemma_value_bound(a);
    lemma_value_last(b);
    assert(b.last() != 0);
    let p = pow2((64 * (b.len() - 1)) as nat);
    vstd::arithmetic::mul::lemma_mul_inequality(1, b.last() as int, p as int);
    if a.len() < b.len() - 1 {
        lemma_pow2_strictly_increases(64 * a.len(), (64 * (b.len() - 1)) as nat);
    }
}

} // verus!
