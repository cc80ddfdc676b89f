//! The state of one cell.

use crate::bits;
use crate::bitsfield::BitFieldCompatible;
use crate::word;
use vstd::arithmetic::power2;
use vstd::prelude::*;

verus! {

/// A cell is either alive or dead.
#[derive(Clone, Copy, Debug, PartialEq, Eq, Structural)]
pub enum State {
    Alive,
    Dead,
}

/// Testing one bit of a byte with a one-bit mask.
proof fn lemma_single_bit_test(bit: u8, i: u8)
    by (bit_vector)
    requires
        i < 8,
    ensures
        (bit & (1u8 << i) != 0) == ((bit >> i) & 1 == 1),
{
}

impl State {
    /// The byte that records this state in bit `bit_index` and has every
    /// other bit clear.
    pub open spec fn bit_pattern(self, bit_index: nat) -> nat {
        match self {
            State::Alive => power2::pow2(bit_index),
            State::Dead => 0,
        }
    }

    /// The state that bit `bit_index` of `byte` records: alive where the bit
    /// is set.
    pub open spec fn of_bit(byte: nat, bit_index: nat) -> State {
        if bits::bit_of(byte, bit_index) {
            State::Alive
        } else {
            State::Dead
        }
    }

    /// Reading back the bit that recorded a state gives that state.
    pub proof fn lemma_of_bit_pattern(self, bit_index: nat)
        ensures
            State::of_bit(self.bit_pattern(bit_index), bit_index) == self,
    {
        power2::lemma_pow2_pos(bit_index);
        assert(power2::pow2(bit_index) / power2::pow2(bit_index) == 1) by {
            vstd::arithmetic::div_mod::lemma_div_by_self(power2::pow2(bit_index) as int);
        }
        assert(0nat / power2::pow2(bit_index) == 0) by {
            vstd::arithmetic::div_mod::lemma_div_of0(power2::pow2(bit_index) as int);
        }
    }

    /// Whether the cell is alive.
    pub fn is_alive(&self) -> (alive: bool)
        ensures
            alive == (*self == State::Alive),
    {
        match self {
            State::Alive => true,
            State::Dead => false,
        }
    }

    /// The state as a byte in which only bit `bit_index` may be set.
    pub fn to_bit(&self, bit_index: u8) -> (byte: u8)
        requires
            bit_index < 8,
        ensures
            byte == self.bit_pattern(bit_index as nat),
    {
        proof {
            power2::lemma2_to64();
            if bit_index > 0 {
                power2::lemma_pow2_strictly_increases((bit_index - 1) as nat, 7);
                power2::lemma_pow2_unfold(bit_index as nat);
            }
            vstd::bits::lemma_u8_shl_is_mul(1, bit_index);
        }
        match self {
            State::Alive => 1u8 << bit_index,
            State::Dead => 0,
        }
    }

    /// The state that bit `bit_index` of `bit` records.
    pub fn from_bit(bit: u8, bit_index: u8) -> (state: State)
        requires
            bit_index < 8,
        ensures
            state == State::of_bit(bit as nat, bit_index as nat),
    {
        proof {
            lemma_single_bit_test(bit, bit_index);
            word::lemma_u8_bit(bit, bit_index as nat);
        }
        match bit & (1u8 << bit_index) {
            0 => State::Dead,
            _ => State::Alive,
        }
    }
}

/// A cell state stored in byte-sized words: one bit, the lowest, set where
/// the cell is alive.
impl BitFieldCompatible<u8> for State {
    fn from_type(value: u8) -> (decoded: State)
        ensures
            decoded == State::of_bit(value as nat, 0),
    {
        State::from_bit(value, 0)
    }

    fn to_type(&self) -> (raw: u8)
        ensures
            raw == self.bit_pattern(0),
    {
        self.to_bit(0)
    }
}

} // verus!
