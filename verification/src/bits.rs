//! Natural numbers read as strings of bits.
//!
//! Storage words are modelled by their numeric value. This module says what a
//! bit and a run of bits of such a value are, and proves how reading and
//! replacing a run of bits behave.

use vstd::arithmetic::div_mod;
use vstd::arithmetic::mul;
use vstd::arithmetic::power2;
use vstd::prelude::*;

verus! {

/// Bit `i` of `n`, counting from the least significant bit.
pub open spec fn bit_of(n: nat, i: nat) -> bool {
    (n / power2::pow2(i)) % 2 == 1
}

/// The lowest `len` bits of `n`, as a number below `2^len`.
pub open spec fn low_bits(n: nat, len: nat) -> nat {
    n % power2::pow2(len)
}

/// The `len` bits of `n` that start at bit `offset`, as a number below `2^len`.
pub open spec fn extract(n: nat, offset: nat, len: nat) -> nat {
    (n / power2::pow2(offset)) % power2::pow2(len)
}

/// `n` with the `len` bits that start at bit `offset` replaced by the low
/// `len` bits of `field`; every other bit of `n` is kept.
pub open spec fn splice(n: nat, offset: nat, len: nat, field: nat) -> nat {
    n % power2::pow2(offset) + (field % power2::pow2(len)) * power2::pow2(offset) + (n
        / power2::pow2(offset + len)) * power2::pow2(offset + len)
}

/// A number that fits in `len` bits is its own lowest `len` bits.
pub proof fn lemma_low_bits_of_small(n: nat, len: nat)
    requires
        n < power2::pow2(len),
    ensures
        low_bits(n, len) == n,
{
    div_mod::lemma_small_mod(n, power2::pow2(len));
}

/// No run of bits of zero holds anything but zero.
pub proof fn lemma_extract_of_zero(offset: nat, len: nat)
    ensures
        extract(0, offset, len) == 0,
{
    power2::lemma_pow2_pos(offset);
    power2::lemma_pow2_pos(len);
    div_mod::lemma_div_of0(power2::pow2(offset) as int);
    div_mod::lemma_small_mod(0, power2::pow2(len));
}

/// A number below `2^r` has no bit set at position `r` or above.
pub proof fn lemma_bit_of_small(n: nat, r: nat, i: nat)
    requires
        n < power2::pow2(r),
        r <= i,
    ensures
        !bit_of(n, i),
{
    power2::lemma_pow2_pos(i);
    if r < i {
        power2::lemma_pow2_strictly_increases(r, i);
    }
    div_mod::lemma_basic_div(n as int, power2::pow2(i) as int);
}

/// Dividing by `2^a` drops the lowest `a` bits.
pub proof fn lemma_bit_of_div(n: nat, a: nat, i: nat)
    ensures
        bit_of(n / power2::pow2(a), i) == bit_of(n, a + i),
{
    power2::lemma_pow2_pos(a);
    power2::lemma_pow2_pos(i);
    power2::lemma_pow2_adds(a, i);
    div_mod::lemma_div_denominator(n as int, power2::pow2(a) as int, power2::pow2(i) as int);
}

/// The remainder modulo `2^k` keeps the lowest `k` bits and clears the rest.
pub proof fn lemma_bit_of_mod(n: nat, k: nat, i: nat)
    ensures
        bit_of(n % power2::pow2(k), i) == (i < k && bit_of(n, i)),
{
    power2::lemma_pow2_pos(k);
    power2::lemma_pow2_pos(i);
    let low = n % power2::pow2(k);
    if i < k {
        let d = (k - i) as nat;
        let pi = power2::pow2(i) as int;
        let pd = power2::pow2(d) as int;
        power2::lemma_pow2_pos(d);
        power2::lemma_pow2_adds(i, d);
        div_mod::lemma_breakdown(n as int, pi, pd);
        let q = (n as int / pi) % pd;
        assert(low == pi * q + n as int % pi);
        assert(pi * q == q * pi) by (nonlinear_arith);
        div_mod::lemma_fundamental_div_mod_converse(low as int, pi, q, n as int % pi);
        assert(low as int / pi == q);
        power2::lemma_pow2_unfold(d);
        let half = power2::pow2((d - 1) as nat) as int;
        power2::lemma_pow2_pos((d - 1) as nat);
        div_mod::lemma_mod_mod(n as int / pi, 2, half);
    } else {
        lemma_bit_of_small(low, k, i);
    }
}

/// The bits of `a + b * 2^r`, where `a` is below `2^r`: the low `r` bits are
/// those of `a`, and above them stand the bits of `b`.
pub proof fn lemma_bit_of_concat(a: nat, b: nat, r: nat, i: nat)
    requires
        a < power2::pow2(r),
    ensures
        bit_of(a + b * power2::pow2(r), i) == if i < r {
            bit_of(a, i)
        } else {
            bit_of(b, (i - r) as nat)
        },
{
    let x = a + b * power2::pow2(r);
    let pr = power2::pow2(r) as int;
    power2::lemma_pow2_pos(r);
    div_mod::lemma_fundamental_div_mod_converse(x as int, pr, b as int, a as int);
    assert(x / power2::pow2(r) == b);
    assert(x % power2::pow2(r) == a);
    if i < r {
        lemma_bit_of_mod(x, r, i);
    } else {
        lemma_bit_of_div(x, r, (i - r) as nat);
    }
}

/// Numbers with the same bits are equal.
pub proof fn lemma_equal_bits(a: nat, b: nat)
    requires
        forall|i: nat| bit_of(a, i) == bit_of(b, i),
    ensures
        a == b,
    decreases a + b,
{
    assert(power2::pow2(0) == 1) by {
        power2::lemma2_to64();
    }
    assert(power2::pow2(1) == 2) by {
        power2::lemma2_to64();
    }
    if a + b > 0 {
        assert(bit_of(a, 0) == bit_of(b, 0));
        assert(a % 2 == b % 2);
        let half_a = a / 2;
        let half_b = b / 2;
        assert forall|i: nat| bit_of(half_a, i) == bit_of(half_b, i) by {
            lemma_bit_of_div(a, 1, i);
            lemma_bit_of_div(b, 1, i);
            assert(bit_of(a, 1 + i) == bit_of(b, 1 + i));
        }
        lemma_equal_bits(half_a, half_b);
    }
}

/// The bits of an extracted run are the bits of the number at that run, and
/// nothing above them.
pub proof fn lemma_extract_bits(n: nat, offset: nat, len: nat, i: nat)
    ensures
        bit_of(extract(n, offset, len), i) == (i < len && bit_of(n, offset + i)),
{
    lemma_bit_of_mod(n / power2::pow2(offset), len, i);
    lemma_bit_of_div(n, offset, i);
}

/// The bits of a spliced number: inside the run they are the bits of the
/// field, outside it the bits that the number had.
pub proof fn lemma_splice_bits(n: nat, offset: nat, len: nat, field: nat, i: nat)
    ensures
        bit_of(splice(n, offset, len, field), i) == if offset <= i < offset + len {
            bit_of(field, (i - offset) as nat)
        } else {
            bit_of(n, i)
        },
{
    let po = power2::pow2(offset);
    let pl = power2::pow2(len);
    let low = n % po;
    let mid = field % pl;
    let high = n / power2::pow2(offset + len);
    power2::lemma_pow2_pos(offset);
    power2::lemma_pow2_pos(len);
    power2::lemma_pow2_adds(offset, len);
    let upper = mid + high * pl;
    assert(upper * po == mid * po + high * (po * pl)) by (nonlinear_arith)
        requires
            upper == mid + high * pl,
    ;
    assert(splice(n, offset, len, field) == low + upper * po);
    lemma_bit_of_concat(low, upper, offset, i);
    if i < offset {
        lemma_bit_of_mod(n, offset, i);
    } else {
        let j = (i - offset) as nat;
        lemma_bit_of_concat(mid, high, len, j);
        if j < len {
            lemma_bit_of_mod(field, len, j);
        } else {
            lemma_bit_of_div(n, offset + len, (j - len) as nat);
        }
    }
}

/// A run of bits read back right after it was written holds what was written.
pub proof fn lemma_extract_of_splice(n: nat, offset: nat, len: nat, field: nat)
    ensures
        extract(splice(n, offset, len, field), offset, len) == low_bits(field, len),
{
    let written = splice(n, offset, len, field);
    let read = extract(written, offset, len);
    let low = low_bits(field, len);
    assert forall|i: nat| bit_of(read, i) == bit_of(low, i) by {
        lemma_extract_bits(written, offset, len, i);
        lemma_splice_bits(n, offset, len, field, offset + i);
        lemma_bit_of_mod(field, len, i);
    }
    lemma_equal_bits(read, low);
}

/// Writing one run of bits leaves every run that does not overlap it as it was.
pub proof fn lemma_extract_of_splice_apart(
    n: nat,
    offset: nat,
    len: nat,
    field: nat,
    other_offset: nat,
    other_len: nat,
)
    requires
        other_offset + other_len <= offset || offset + len <= other_offset,
    ensures
        extract(splice(n, offset, len, field), other_offset, other_len) == extract(
            n,
            other_offset,
            other_len,
        ),
{
    let written = splice(n, offset, len, field);
    assert forall|i: nat|
        bit_of(extract(written, other_offset, other_len), i) == bit_of(
            extract(n, other_offset, other_len),
            i,
        ) by {
        lemma_extract_bits(written, other_offset, other_len, i);
        lemma_extract_bits(n, other_offset, other_len, i);
        lemma_splice_bits(n, offset, len, field, other_offset + i);
    }
    lemma_equal_bits(
        extract(written, other_offset, other_len),
        extract(n, other_offset, other_len),
    );
}

} // verus!
