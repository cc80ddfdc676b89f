//! Storage words: the unsigned integers of 8 to 128 bits, seen through the
//! bitwise operations that packing needs.

use vstd::arithmetic::power2;
use vstd::prelude::*;

verus! {

/// An unsigned integer that can serve as a storage word.
///
/// A word is modelled by its numeric `value`; what each operation does is
/// stated bit by bit over that value, with `crate::bits::bit_of`.
pub trait BitFieldRepresentation: Copy + Sized {
    /// Number of bits in one word.
    spec fn bit_width() -> nat;

    /// The number that the word holds.
    spec fn value(self) -> nat;

    /// The supported widths.
    proof fn lemma_bit_width()
        ensures
            Self::bit_width() == 8 || Self::bit_width() == 16 || Self::bit_width() == 32
                || Self::bit_width() == 64 || Self::bit_width() == 128,
    ;

    /// A word holds a number below two to the power of its width.
    proof fn lemma_value_bound(self)
        ensures
            self.value() < power2::pow2(Self::bit_width()),
    ;

    /// Number of bits in one word.
    fn bits() -> (width: usize)
        ensures
            width == Self::bit_width(),
    ;

    /// The word that holds the given small number.
    fn from_u8(v: u8) -> (r: Self)
        ensures
            r.value() == v,
    ;

    /// Bitwise AND.
    fn bitand(self, rhs: Self) -> (r: Self)
        ensures
            forall|i: nat| #[trigger]
                crate::bits::bit_of(r.value(), i) == (crate::bits::bit_of(self.value(), i)
                    && crate::bits::bit_of(rhs.value(), i)),
    ;

    /// Bitwise OR.
    fn bitor(self, rhs: Self) -> (r: Self)
        ensures
            forall|i: nat| #[trigger]
                crate::bits::bit_of(r.value(), i) == (crate::bits::bit_of(self.value(), i)
                    || crate::bits::bit_of(rhs.value(), i)),
    ;

    /// Bitwise exclusive OR.
    fn bitxor(self, rhs: Self) -> (r: Self)
        ensures
            forall|i: nat| #[trigger]
                crate::bits::bit_of(r.value(), i) == (crate::bits::bit_of(self.value(), i)
                    != crate::bits::bit_of(rhs.value(), i)),
    ;

    /// Bitwise complement within the word's width.
    fn not(self) -> (r: Self)
        ensures
            forall|i: nat| #[trigger]
                crate::bits::bit_of(r.value(), i) == (i < Self::bit_width()
                    && !crate::bits::bit_of(self.value(), i)),
    ;

    /// Shift towards the most significant bit; bits pushed beyond the width
    /// are lost and zeros enter at the bottom.
    fn shl(self, shift: u8) -> (r: Self)
        requires
            shift < Self::bit_width(),
        ensures
            forall|i: nat| #[trigger]
                crate::bits::bit_of(r.value(), i) == (shift <= i < Self::bit_width()
                    && crate::bits::bit_of(self.value(), (i - shift) as nat)),
    ;

    /// Shift towards the least significant bit; zeros enter at the top.
    fn shr(self, shift: u8) -> (r: Self)
        requires
            shift < Self::bit_width(),
        ensures
            forall|i: nat| #[trigger]
                crate::bits::bit_of(r.value(), i) == crate::bits::bit_of(
                    self.value(),
                    i + shift as nat,
                ),
    ;
}

/// Bit `i` of a `u8`, told by shifting and masking.
pub proof fn lemma_u8_bit(x: u8, i: nat)
    ensures
        crate::bits::bit_of(x as nat, i) == (i < 8 && (x >> (i as u8)) & 1 == 1),
{
    if i < 8 {
        let s = i as u8;
        vstd::bits::lemma_u8_shr_is_div(x, s);
        let y = x >> s;
        assert((y & 1 == 1) == (y % 2 == 1)) by (bit_vector);
    } else {
        lemma_u8_value_bound(x);
        crate::bits::lemma_bit_of_small(x as nat, 8, i);
    }
}

/// Every `u8` is below `2^8`.
pub proof fn lemma_u8_value_bound(x: u8)
    ensures
        (x as nat) < power2::pow2(8),
{
    power2::lemma2_to64();
}

/// What the bitwise operators do to bit `i` of a `u8`.
proof fn lemma_u8_operators(a: u8, b: u8, s: u8, i: u8)
    by (bit_vector)
    requires
        i < 8,
        s < 8,
    ensures
        (((a & b) >> i) & 1 == 1) == (((a >> i) & 1 == 1) && ((b >> i) & 1 == 1)),
        (((a | b) >> i) & 1 == 1) == (((a >> i) & 1 == 1) || ((b >> i) & 1 == 1)),
        (((a ^ b) >> i) & 1 == 1) == (((a >> i) & 1 == 1) != ((b >> i) & 1 == 1)),
        (((!a) >> i) & 1 == 1) == !((a >> i) & 1 == 1),
        (((a << s) >> i) & 1 == 1) == (s <= i && ((a >> ((i - s) as u8)) & 1 == 1)),
        (((a >> s) >> i) & 1 == 1) == (i + s < 8 && ((a >> ((i + s) as u8)) & 1 == 1)),
{
}

impl BitFieldRepresentation for u8 {
    open spec fn bit_width() -> nat {
        8
    }

    open spec fn value(self) -> nat {
        self as nat
    }

    proof fn lemma_bit_width() {
    }

    proof fn lemma_value_bound(self) {
        lemma_u8_value_bound(self);
    }

    fn bits() -> (width: usize) {
        8
    }

    fn from_u8(v: u8) -> (r: Self) {
        v
    }

    fn bitand(self, rhs: Self) -> (r: Self) {
        let r = self & rhs;
        proof {
            assert forall|i: nat| #[trigger]
                crate::bits::bit_of(r as nat, i) == (crate::bits::bit_of(self as nat, i)
                    && crate::bits::bit_of(rhs as nat, i)) by {
                lemma_u8_bit(r, i);
                lemma_u8_bit(self, i);
                lemma_u8_bit(rhs, i);
                if i < 8 {
                    lemma_u8_operators(self, rhs, 0, i as u8);
                }
            }
        }
        r
    }

    fn bitor(self, rhs: Self) -> (r: Self) {
        let r = self | rhs;
        proof {
            assert forall|i: nat| #[trigger]
                crate::bits::bit_of(r as nat, i) == (crate::bits::bit_of(self as nat, i)
                    || crate::bits::bit_of(rhs as nat, i)) by {
                lemma_u8_bit(r, i);
                lemma_u8_bit(self, i);
                lemma_u8_bit(rhs, i);
                if i < 8 {
                    lemma_u8_operators(self, rhs, 0, i as u8);
                }
            }
        }
        r
    }

    fn bitxor(self, rhs: Self) -> (r: Self) {
        let r = self ^ rhs;
        proof {
            assert forall|i: nat| #[trigger]
                crate::bits::bit_of(r as nat, i) == (crate::bits::bit_of(self as nat, i)
                    != crate::bits::bit_of(rhs as nat, i)) by {
                lemma_u8_bit(r, i);
                lemma_u8_bit(self, i);
                lemma_u8_bit(rhs, i);
                if i < 8 {
                    lemma_u8_operators(self, rhs, 0, i as u8);
                }
            }
        }
        r
    }

    fn not(self) -> (r: Self) {
        let r = !self;
        proof {
            assert forall|i: nat| #[trigger]
                crate::bits::bit_of(r as nat, i) == (i < 8 && !crate::bits::bit_of(
                    self as nat,
                    i,
                )) by {
                lemma_u8_bit(r, i);
                lemma_u8_bit(self, i);
                if i < 8 {
                    lemma_u8_operators(self, 0, 0, i as u8);
                }
            }
        }
        r
    }

    fn shl(self, shift: u8) -> (r: Self) {
        let r = self << shift;
        proof {
            assert forall|i: nat| #[trigger]
                crate::bits::bit_of(r as nat, i) == (shift <= i < 8 && crate::bits::bit_of(
                    self as nat,
                    (i - shift) as nat,
                )) by {
                lemma_u8_bit(r, i);
                if shift <= i < 8 {
                    lemma_u8_bit(self, (i - shift) as nat);
                }
                if i < 8 {
                    lemma_u8_operators(self, 0, shift, i as u8);
                }
            }
        }
        r
    }

    fn shr(self, shift: u8) -> (r: Self) {
        let r = self >> shift;
        proof {
            assert forall|i: nat| #[trigger]
                crate::bits::bit_of(r as nat, i) == crate::bits::bit_of(
                    self as nat,
                    i + shift as nat,
                ) by {
                lemma_u8_bit(r, i);
                lemma_u8_bit(self, i + shift as nat);
                if i < 8 {
                    lemma_u8_operators(self, 0, shift, i as u8);
                }
            }
        }
        r
    }
}

/// Bit `i` of a `u16`, told by shifting and masking.
pub proof fn lemma_u16_bit(x: u16, i: nat)
    ensures
        crate::bits::bit_of(x as nat, i) == (i < 16 && (x >> (i as u16)) & 1 == 1),
{
    if i < 16 {
        let s = i as u16;
        vstd::bits::lemma_u16_shr_is_div(x, s);
        let y = x >> s;
        assert((y & 1 == 1) == (y % 2 == 1)) by (bit_vector);
    } else {
        lemma_u16_value_bound(x);
        crate::bits::lemma_bit_of_small(x as nat, 16, i);
    }
}

/// Every `u16` is below `2^16`.
pub proof fn lemma_u16_value_bound(x: u16)
    ensures
        (x as nat) < power2::pow2(16),
{
    power2::lemma2_to64();
}

/// What the bitwise operators do to bit `i` of a `u16`.
proof fn lemma_u16_operators(a: u16, b: u16, s: u16, i: u16)
    by (bit_vector)
    requires
        i < 16,
        s < 16,
    ensures
        (((a & b) >> i) & 1 == 1) == (((a >> i) & 1 == 1) && ((b >> i) & 1 == 1)),
        (((a | b) >> i) & 1 == 1) == (((a >> i) & 1 == 1) || ((b >> i) & 1 == 1)),
        (((a ^ b) >> i) & 1 == 1) == (((a >> i) & 1 == 1) != ((b >> i) & 1 == 1)),
        (((!a) >> i) & 1 == 1) == !((a >> i) & 1 == 1),
        (((a << s) >> i) & 1 == 1) == (s <= i && ((a >> ((i - s) as u16)) & 1 == 1)),
        (((a >> s) >> i) & 1 == 1) == (i + s < 16 && ((a >> ((i + s) as u16)) & 1 == 1)),
{
}

impl BitFieldRepresentation for u16 {
    open spec fn bit_width() -> nat {
        16
    }

    open spec fn value(self) -> nat {
        self as nat
    }

    proof fn lemma_bit_width() {
    }

    proof fn lemma_value_bound(self) {
        lemma_u16_value_bound(self);
    }

    fn bits() -> (width: usize) {
        16
    }

    fn from_u8(v: u8) -> (r: Self) {
        v as u16
    }

    fn bitand(self, rhs: Self) -> (r: Self) {
        let r = self & rhs;
        proof {
            assert forall|i: nat| #[trigger]
                crate::bits::bit_of(r as nat, i) == (crate::bits::bit_of(self as nat, i)
                    && crate::bits::bit_of(rhs as nat, i)) by {
                lemma_u16_bit(r, i);
                lemma_u16_bit(self, i);
                lemma_u16_bit(rhs, i);
                if i < 16 {
                    lemma_u16_operators(self, rhs, 0, i as u16);
                }
            }
        }
        r
    }

    fn bitor(self, rhs: Self) -> (r: Self) {
        let r = self | rhs;
        proof {
            assert forall|i: nat| #[trigger]
                crate::bits::bit_of(r as nat, i) == (crate::bits::bit_of(self as nat, i)
                    || crate::bits::bit_of(rhs as nat, i)) by {
                lemma_u16_bit(r, i);
                lemma_u16_bit(self, i);
                lemma_u16_bit(rhs, i);
                if i < 16 {
                    lemma_u16_operators(self, rhs, 0, i as u16);
                }
            }
        }
        r
    }

    fn bitxor(self, rhs: Self) -> (r: Self) {
        let r = self ^ rhs;
        proof {
            assert forall|i: nat| #[trigger]
                crate::bits::bit_of(r as nat, i) == (crate::bits::bit_of(self as nat, i)
                    != crate::bits::bit_of(rhs as nat, i)) by {
                lemma_u16_bit(r, i);
                lemma_u16_bit(self, i);
                lemma_u16_bit(rhs, i);
                if i < 16 {
                    lemma_u16_operators(self, rhs, 0, i as u16);
                }
            }
        }
        r
    }

    fn not(self) -> (r: Self) {
        let r = !self;
        proof {
            assert forall|i: nat| #[trigger]
                crate::bits::bit_of(r as nat, i) == (i < 16 && !crate::bits::bit_of(
                    self as nat,
                    i,
                )) by {
                lemma_u16_bit(r, i);
                lemma_u16_bit(self, i);
                if i < 16 {
                    lemma_u16_operators(self, 0, 0, i as u16);
                }
            }
        }
        r
    }

    fn shl(self, shift: u8) -> (r: Self) {
        let r = self << (shift as u16);
        proof {
            assert forall|i: nat| #[trigger]
                crate::bits::bit_of(r as nat, i) == (shift <= i < 16 && crate::bits::bit_of(
                    self as nat,
                    (i - shift) as nat,
                )) by {
                lemma_u16_bit(r, i);
                if shift <= i < 16 {
                    lemma_u16_bit(self, (i - shift) as nat);
                }
                if i < 16 {
                    lemma_u16_operators(self, 0, (shift as u16), i as u16);
                }
            }
        }
        r
    }

    fn shr(self, shift: u8) -> (r: Self) {
        let r = self >> (shift as u16);
        proof {
            assert forall|i: nat| #[trigger]
                crate::bits::bit_of(r as nat, i) == crate::bits::bit_of(
                    self as nat,
                    i + shift as nat,
                ) by {
                lemma_u16_bit(r, i);
                lemma_u16_bit(self, i + shift as nat);
                if i < 16 {
                    lemma_u16_operators(self, 0, (shift as u16), i as u16);
                }
            }
        }
        r
    }
}

/// Bit `i` of a `u32`, told by shifting and masking.
pub proof fn lemma_u32_bit(x: u32, i: nat)
    ensures
        crate::bits::bit_of(x as nat, i) == (i < 32 && (x >> (i as u32)) & 1 == 1),
{
    if i < 32 {
        let s = i as u32;
        vstd::bits::lemma_u32_shr_is_div(x, s);
        let y = x >> s;
        assert((y & 1 == 1) == (y % 2 == 1)) by (bit_vector);
    } else {
        lemma_u32_value_bound(x);
        crate::bits::lemma_bit_of_small(x as nat, 32, i);
    }
}

/// Every `u32` is below `2^32`.
pub proof fn lemma_u32_value_bound(x: u32)
    ensures
        (x as nat) < power2::pow2(32),
{
    power2::lemma2_to64();
}

/// What the bitwise operators do to bit `i` of a `u32`.
proof fn lemma_u32_operators(a: u32, b: u32, s: u32, i: u32)
    by (bit_vector)
    requires
        i < 32,
        s < 32,
    ensures
        (((a & b) >> i) & 1 == 1) == (((a >> i) & 1 == 1) && ((b >> i) & 1 == 1)),
        (((a | b) >> i) & 1 == 1) == (((a >> i) & 1 == 1) || ((b >> i) & 1 == 1)),
        (((a ^ b) >> i) & 1 == 1) == (((a >> i) & 1 == 1) != ((b >> i) & 1 == 1)),
        (((!a) >> i) & 1 == 1) == !((a >> i) & 1 == 1),
        (((a << s) >> i) & 1 == 1) == (s <= i && ((a >> ((i - s) as u32)) & 1 == 1)),
        (((a >> s) >> i) & 1 == 1) == (i + s < 32 && ((a >> ((i + s) as u32)) & 1 == 1)),
{
}

impl BitFieldRepresentation for u32 {
    open spec fn bit_width() -> nat {
        32
    }

    open spec fn value(self) -> nat {
        self as nat
    }

    proof fn lemma_bit_width() {
    }

    proof fn lemma_value_bound(self) {
        lemma_u32_value_bound(self);
    }

    fn bits() -> (width: usize) {
        32
    }

    fn from_u8(v: u8) -> (r: Self) {
        v as u32
    }

    fn bitand(self, rhs: Self) -> (r: Self) {
        let r = self & rhs;
        proof {
            assert forall|i: nat| #[trigger]
                crate::bits::bit_of(r as nat, i) == (crate::bits::bit_of(self as nat, i)
                    && crate::bits::bit_of(rhs as nat, i)) by {
                lemma_u32_bit(r, i);
                lemma_u32_bit(self, i);
                lemma_u32_bit(rhs, i);
                if i < 32 {
                    lemma_u32_operators(self, rhs, 0, i as u32);
                }
            }
        }
        r
    }

    fn bitor(self, rhs: Self) -> (r: Self) {
        let r = self | rhs;
        proof {
            assert forall|i: nat| #[trigger]
                crate::bits::bit_of(r as nat, i) == (crate::bits::bit_of(self as nat, i)
                    || crate::bits::bit_of(rhs as nat, i)) by {
                lemma_u32_bit(r, i);
                lemma_u32_bit(self, i);
                lemma_u32_bit(rhs, i);
                if i < 32 {
                    lemma_u32_operators(self, rhs, 0, i as u32);
                }
            }
        }
        r
    }

    fn bitxor(self, rhs: Self) -> (r: Self) {
        let r = self ^ rhs;
        proof {
            assert forall|i: nat| #[trigger]
                crate::bits::bit_of(r as nat, i) == (crate::bits::bit_of(self as nat, i)
                    != crate::bits::bit_of(rhs as nat, i)) by {
                lemma_u32_bit(r, i);
                lemma_u32_bit(self, i);
                lemma_u32_bit(rhs, i);
                if i < 32 {
                    lemma_u32_operators(self, rhs, 0, i as u32);
                }
            }
        }
        r
    }

    fn not(self) -> (r: Self) {
        let r = !self;
        proof {
            assert forall|i: nat| #[trigger]
                crate::bits::bit_of(r as nat, i) == (i < 32 && !crate::bits::bit_of(
                    self as nat,
                    i,
                )) by {
                lemma_u32_bit(r, i);
                lemma_u32_bit(self, i);
                if i < 32 {
                    lemma_u32_operators(self, 0, 0, i as u32);
                }
            }
        }
        r
    }

    fn shl(self, shift: u8) -> (r: Self) {
        let r = self << (shift as u32);
        proof {
            assert forall|i: nat| #[trigger]
                crate::bits::bit_of(r as nat, i) == (shift <= i < 32 && crate::bits::bit_of(
                    self as nat,
                    (i - shift) as nat,
                )) by {
                lemma_u32_bit(r, i);
                if shift <= i < 32 {
                    lemma_u32_bit(self, (i - shift) as nat);
                }
                if i < 32 {
                    lemma_u32_operators(self, 0, (shift as u32), i as u32);
                }
            }
        }
        r
    }

    fn shr(self, shift: u8) -> (r: Self) {
        let r = self >> (shift as u32);
        proof {
            assert forall|i: nat| #[trigger]
                crate::bits::bit_of(r as nat, i) == crate::bits::bit_of(
                    self as nat,
                    i + shift as nat,
                ) by {
                lemma_u32_bit(r, i);
                lemma_u32_bit(self, i + shift as nat);
                if i < 32 {
                    lemma_u32_operators(self, 0, (shift as u32), i as u32);
                }
            }
        }
        r
    }
}

/// Bit `i` of a `u64`, told by shifting and masking.
pub proof fn lemma_u64_bit(x: u64, i: nat)
    ensures
        crate::bits::bit_of(x as nat, i) == (i < 64 && (x >> (i as u64)) & 1 == 1),
{
    if i < 64 {
        let s = i as u64;
        vstd::bits::lemma_u64_shr_is_div(x, s);
        let y = x >> s;
        assert((y & 1 == 1) == (y % 2 == 1)) by (bit_vector);
    } else {
        lemma_u64_value_bound(x);
        crate::bits::lemma_bit_of_small(x as nat, 64, i);
    }
}

/// Every `u64` is below `2^64`.
pub proof fn lemma_u64_value_bound(x: u64)
    ensures
        (x as nat) < power2::pow2(64),
{
    power2::lemma2_to64();
}

/// What the bitwise operators do to bit `i` of a `u64`.
proof fn lemma_u64_operators(a: u64, b: u64, s: u64, i: u64)
    by (bit_vector)
    requires
        i < 64,
        s < 64,
    ensures
        (((a & b) >> i) & 1 == 1) == (((a >> i) & 1 == 1) && ((b >> i) & 1 == 1)),
        (((a | b) >> i) & 1 == 1) == (((a >> i) & 1 == 1) || ((b >> i) & 1 == 1)),
        (((a ^ b) >> i) & 1 == 1) == (((a >> i) & 1 == 1) != ((b >> i) & 1 == 1)),
        (((!a) >> i) & 1 == 1) == !((a >> i) & 1 == 1),
        (((a << s) >> i) & 1 == 1) == (s <= i && ((a >> ((i - s) as u64)) & 1 == 1)),
        (((a >> s) >> i) & 1 == 1) == (i + s < 64 && ((a >> ((i + s) as u64)) & 1 == 1)),
{
}

impl BitFieldRepresentation for u64 {
    open spec fn bit_width() -> nat {
        64
    }

    open spec fn value(self) -> nat {
        self as nat
    }

    proof fn lemma_bit_width() {
    }

    proof fn lemma_value_bound(self) {
        lemma_u64_value_bound(self);
    }

    fn bits() -> (width: usize) {
        64
    }

    fn from_u8(v: u8) -> (r: Self) {
        v as u64
    }

    fn bitand(self, rhs: Self) -> (r: Self) {
        let r = self & rhs;
        proof {
            assert forall|i: nat| #[trigger]
                crate::bits::bit_of(r as nat, i) == (crate::bits::bit_of(self as nat, i)
                    && crate::bits::bit_of(rhs as nat, i)) by {
                lemma_u64_bit(r, i);
                lemma_u64_bit(self, i);
                lemma_u64_bit(rhs, i);
                if i < 64 {
                    lemma_u64_operators(self, rhs, 0, i as u64);
                }
            }
        }
        r
    }

    fn bitor(self, rhs: Self) -> (r: Self) {
        let r = self | rhs;
        proof {
            assert forall|i: nat| #[trigger]
                crate::bits::bit_of(r as nat, i) == (crate::bits::bit_of(self as nat, i)
                    || crate::bits::bit_of(rhs as nat, i)) by {
                lemma_u64_bit(r, i);
                lemma_u64_bit(self, i);
                lemma_u64_bit(rhs, i);
                if i < 64 {
                    lemma_u64_operators(self, rhs, 0, i as u64);
                }
            }
        }
        r
    }

    fn bitxor(self, rhs: Self) -> (r: Self) {
        let r = self ^ rhs;
        proof {
            assert forall|i: nat| #[trigger]
                crate::bits::bit_of(r as nat, i) == (crate::bits::bit_of(self as nat, i)
                    != crate::bits::bit_of(rhs as nat, i)) by {
                lemma_u64_bit(r, i);
                lemma_u64_bit(self, i);
                lemma_u64_bit(rhs, i);
                if i < 64 {
                    lemma_u64_operators(self, rhs, 0, i as u64);
                }
            }
        }
        r
    }

    fn not(self) -> (r: Self) {
        let r = !self;
        proof {
            assert forall|i: nat| #[trigger]
                crate::bits::bit_of(r as nat, i) == (i < 64 && !crate::bits::bit_of(
                    self as nat,
                    i,
                )) by {
                lemma_u64_bit(r, i);
                lemma_u64_bit(self, i);
                if i < 64 {
                    lemma_u64_operators(self, 0, 0, i as u64);
                }
            }
        }
        r
    }

    fn shl(self, shift: u8) -> (r: Self) {
        let r = self << (shift as u64);
        proof {
            assert forall|i: nat| #[trigger]
                crate::bits::bit_of(r as nat, i) == (shift <= i < 64 && crate::bits::bit_of(
                    self as nat,
                    (i - shift) as nat,
                )) by {
                lemma_u64_bit(r, i);
                if shift <= i < 64 {
                    lemma_u64_bit(self, (i - shift) as nat);
                }
                if i < 64 {
                    lemma_u64_operators(self, 0, (shift as u64), i as u64);
                }
            }
        }
        r
    }

    fn shr(self, shift: u8) -> (r: Self) {
        let r = self >> (shift as u64);
        proof {
            assert forall|i: nat| #[trigger]
                crate::bits::bit_of(r as nat, i) == crate::bits::bit_of(
                    self as nat,
                    i + shift as nat,
                ) by {
                lemma_u64_bit(r, i);
                lemma_u64_bit(self, i + shift as nat);
                if i < 64 {
                    lemma_u64_operators(self, 0, (shift as u64), i as u64);
                }
            }
        }
        r
    }
}

/// Bit `i` of a `u128`, told by shifting and masking.
pub proof fn lemma_u128_bit(x: u128, i: nat)
    ensures
        crate::bits::bit_of(x as nat, i) == (i < 128 && (x >> (i as u128)) & 1 == 1),
{
    if i < 128 {
        let s = i as u128;
        vstd::bits::lemma_u128_shr_is_div(x, s);
        let y = x >> s;
        assert((y & 1 == 1) == (y % 2 == 1)) by (bit_vector);
    } else {
        lemma_u128_value_bound(x);
        crate::bits::lemma_bit_of_small(x as nat, 128, i);
    }
}

/// Every `u128` is below `2^128`.
pub proof fn lemma_u128_value_bound(x: u128)
    ensures
        (x as nat) < power2::pow2(128),
{
    power2::lemma2_to64();
    power2::lemma_pow2_adds(64, 64);
}

/// What the bitwise operators do to bit `i` of a `u128`.
proof fn lemma_u128_operators(a: u128, b: u128, s: u128, i: u128)
    by (bit_vector)
    requires
        i < 128,
        s < 128,
    ensures
        (((a & b) >> i) & 1 == 1) == (((a >> i) & 1 == 1) && ((b >> i) & 1 == 1)),
        (((a | b) >> i) & 1 == 1) == (((a >> i) & 1 == 1) || ((b >> i) & 1 == 1)),
        (((a ^ b) >> i) & 1 == 1) == (((a >> i) & 1 == 1) != ((b >> i) & 1 == 1)),
        (((!a) >> i) & 1 == 1) == !((a >> i) & 1 == 1),
        (((a << s) >> i) & 1 == 1) == (s <= i && ((a >> ((i - s) as u128)) & 1 == 1)),
        (((a >> s) >> i) & 1 == 1) == (i + s < 128 && ((a >> ((i + s) as u128)) & 1 == 1)),
{
}

impl BitFieldRepresentation for u128 {
    open spec fn bit_width() -> nat {
        128
    }

    open spec fn value(self) -> nat {
        self as nat
    }

    proof fn lemma_bit_width() {
    }

    proof fn lemma_value_bound(self) {
        lemma_u128_value_bound(self);
    }

    fn bits() -> (width: usize) {
        128
    }

    fn from_u8(v: u8) -> (r: Self) {
        v as u128
    }

    fn bitand(self, rhs: Self) -> (r: Self) {
        let r = self & rhs;
        proof {
            assert forall|i: nat| #[trigger]
                crate::bits::bit_of(r as nat, i) == (crate::bits::bit_of(self as nat, i)
                    && crate::bits::bit_of(rhs as nat, i)) by {
                lemma_u128_bit(r, i);
                lemma_u128_bit(self, i);
                lemma_u128_bit(rhs, i);
                if i < 128 {
                    lemma_u128_operators(self, rhs, 0, i as u128);
                }
            }
        }
        r
    }

    fn bitor(self, rhs: Self) -> (r: Self) {
        let r = self | rhs;
        proof {
            assert forall|i: nat| #[trigger]
                crate::bits::bit_of(r as nat, i) == (crate::bits::bit_of(self as nat, i)
                    || crate::bits::bit_of(rhs as nat, i)) by {
                lemma_u128_bit(r, i);
                lemma_u128_bit(self, i);
                lemma_u128_bit(rhs, i);
                if i < 128 {
                    lemma_u128_operators(self, rhs, 0, i as u128);
                }
            }
        }
        r
    }

    fn bitxor(self, rhs: Self) -> (r: Self) {
        let r = self ^ rhs;
        proof {
            assert forall|i: nat| #[trigger]
                crate::bits::bit_of(r as nat, i) == (crate::bits::bit_of(self as nat, i)
                    != crate::bits::bit_of(rhs as nat, i)) by {
                lemma_u128_bit(r, i);
                lemma_u128_bit(self, i);
                lemma_u128_bit(rhs, i);
                if i < 128 {
                    lemma_u128_operators(self, rhs, 0, i as u128);
                }
            }
        }
        r
    }

    fn not(self) -> (r: Self) {
        let r = !self;
        proof {
            assert forall|i: nat| #[trigger]
                crate::bits::bit_of(r as nat, i) == (i < 128 && !crate::bits::bit_of(
                    self as nat,
                    i,
                )) by {
                lemma_u128_bit(r, i);
                lemma_u128_bit(self, i);
                if i < 128 {
                    lemma_u128_operators(self, 0, 0, i as u128);
                }
            }
        }
        r
    }

    fn shl(self, shift: u8) -> (r: Self) {
        let r = self << (shift as u128);
        proof {
            assert forall|i: nat| #[trigger]
                crate::bits::bit_of(r as nat, i) == (shift <= i < 128 && crate::bits::bit_of(
                    self as nat,
                    (i - shift) as nat,
                )) by {
                lemma_u128_bit(r, i);
                if shift <= i < 128 {
                    lemma_u128_bit(self, (i - shift) as nat);
                }
                if i < 128 {
                    lemma_u128_operators(self, 0, (shift as u128), i as u128);
                }
            }
        }
        r
    }

    fn shr(self, shift: u8) -> (r: Self) {
        let r = self >> (shift as u128);
        proof {
            assert forall|i: nat| #[trigger]
                crate::bits::bit_of(r as nat, i) == crate::bits::bit_of(
                    self as nat,
                    i + shift as nat,
                ) by {
                lemma_u128_bit(r, i);
                lemma_u128_bit(self, i + shift as nat);
                if i < 128 {
                    lemma_u128_operators(self, 0, (shift as u128), i as u128);
                }
            }
        }
        r
    }
}

} // verus!
