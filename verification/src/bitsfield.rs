//! The packed element array: elements of one to eight bits each, stored back
//! to back in a vector of machine words.

use crate::bits;
use crate::layout;
use crate::word;
use crate::word::BitFieldRepresentation;
use vstd::arithmetic::power2;
use vstd::prelude::*;

verus! {

/// Why an operation on a [`BitsField`] was refused.
#[derive(Clone, Copy, Debug, PartialEq, Eq, Structural)]
pub enum BitsFieldError {
    /// The element width given at construction was zero or above eight.
    InvalidWidth,
    /// The index is not below the array's length.
    IndexOutOfBounds,
}

/// A domain value that can be stored as an element of a [`BitsField`] over
/// words of type `T`.
///
/// The two conversions are total and carry no contract of their own: what an
/// array promises of a stored value is stated over whatever they return. Of
/// the pattern that `to_type` returns only the low bits are stored, as many
/// as the array's element width; `from_type` is handed a pattern whose other
/// bits are zero.
pub trait BitFieldCompatible<T: BitFieldRepresentation>: Sized {
    /// Turns a raw bit pattern into a value.
    fn from_type(value: T) -> Self;

    /// Turns the value into its raw bit pattern.
    fn to_type(&self) -> T;
}

/// Whether `decoded` is what `Output::from_type` returns for a word that
/// holds the number `pattern`.
pub open spec fn decodes_to<T: BitFieldRepresentation, Output: BitFieldCompatible<T>>(
    pattern: nat,
    decoded: Output,
) -> bool {
    exists|raw: T|
        raw.value() == pattern && #[trigger] call_ensures(Output::from_type, (raw,), decoded)
}

/// Whether `pattern` is the number held by the word that `value.to_type()`
/// returns.
pub open spec fn encodes_to<T: BitFieldRepresentation, Output: BitFieldCompatible<T>>(
    value: Output,
    pattern: nat,
) -> bool {
    exists|raw: T|
        raw.value() == pattern && #[trigger] call_ensures(Output::to_type, (&value,), raw)
}

/// A byte with its low `len` bits set, bit by bit.
proof fn lemma_low_ones(len: u8, i: u8)
    by (bit_vector)
    requires
        1 <= len <= 8,
        i < 8,
    ensures
        (((0xFFu8 >> ((8 - len) as u8)) >> i) & 1 == 1) == (i < len),
{
}

/// The word whose set bits are exactly the `len` bits from `offset` on.
fn span_mask<T: BitFieldRepresentation>(offset: usize, len: usize) -> (mask: T)
    requires
        1 <= len <= 8,
        offset + len <= T::bit_width(),
    ensures
        forall|i: nat| #[trigger] bits::bit_of(mask.value(), i) == (offset <= i < offset + len),
{
    proof {
        T::lemma_bit_width();
    }
    let ones: u8 = 0xFFu8 >> ((8 - len) as u8);
    let mask = T::from_u8(ones).shl(offset as u8);
    proof {
        assert forall|i: nat| #[trigger]
            bits::bit_of(mask.value(), i) == (offset <= i < offset + len) by {
            if offset <= i {
                let j = (i - offset) as nat;
                word::lemma_u8_bit(ones, j);
                if j < 8 {
                    lemma_low_ones(len as u8, j as u8);
                }
            }
        }
    }
    mask
}

/// Reads the `len` bits of `word` that start at `offset`, moved down to the
/// bottom of the result.
fn take_bits<T: BitFieldRepresentation>(word: T, offset: usize, len: usize) -> (run: T)
    requires
        1 <= len <= 8,
        offset + len <= T::bit_width(),
    ensures
        run.value() == bits::extract(word.value(), offset as nat, len as nat),
{
    proof {
        T::lemma_bit_width();
    }
    let mask = span_mask::<T>(offset, len);
    let run = word.bitand(mask).shr(offset as u8);
    proof {
        let expected = bits::extract(word.value(), offset as nat, len as nat);
        assert forall|i: nat| bits::bit_of(run.value(), i) == bits::bit_of(expected, i) by {
            bits::lemma_extract_bits(word.value(), offset as nat, len as nat, i);
        }
        bits::lemma_equal_bits(run.value(), expected);
    }
    run
}

/// Clears the `len` bits of `word` that start at `offset` and puts the low
/// `len` bits of `field` in their place.
fn replace_bits<T: BitFieldRepresentation>(word: T, offset: usize, len: usize, field: T) -> (r: T)
    requires
        1 <= len <= 8,
        offset + len <= T::bit_width(),
    ensures
        r.value() == bits::splice(word.value(), offset as nat, len as nat, field.value()),
{
    proof {
        T::lemma_bit_width();
    }
    let mask = span_mask::<T>(offset, len);
    let kept = word.bitand(mask.not());
    let placed = field.shl(offset as u8).bitand(mask);
    let r = kept.bitor(placed);
    proof {
        let expected = bits::splice(word.value(), offset as nat, len as nat, field.value());
        assert forall|i: nat| bits::bit_of(r.value(), i) == bits::bit_of(expected, i) by {
            bits::lemma_splice_bits(word.value(), offset as nat, len as nat, field.value(), i);
            if i >= T::bit_width() {
                word.lemma_value_bound();
                bits::lemma_bit_of_small(word.value(), T::bit_width(), i);
            }
        }
        bits::lemma_equal_bits(r.value(), expected);
    }
    r
}

/// A fixed-length array of elements of `element_width` bits each, packed
/// into words of type `T` without gaps. An element may begin in one word and
/// end in the next.
///
/// The array is seen in two ways: `words()` is the storage, one number per
/// word, and the view `@` is the sequence of elements, one raw pattern each.
pub struct BitsField<T: BitFieldRepresentation> {
    bits_per_element: usize,
    element_size: usize,
    elements: Vec<T>,
}

impl<T: BitFieldRepresentation> View for BitsField<T> {
    type V = Seq<nat>;

    /// The elements, in order, each as its raw bit pattern.
    open spec fn view(&self) -> Seq<nat> {
        layout::elements_of(self.words(), self.element_width(), T::bit_width())
    }
}

impl<T: BitFieldRepresentation> BitsField<T> {
    #[verifier::type_invariant]
    spec fn well_formed(&self) -> bool {
        &&& 1 <= self.bits_per_element <= 8
        &&& self.element_size == T::bit_width()
        &&& layout::capacity(self.elements@.len(), self.bits_per_element as nat, T::bit_width())
            <= usize::MAX
    }

    /// Number of bits of one element.
    pub closed spec fn element_width(&self) -> nat {
        self.bits_per_element as nat
    }

    /// The storage: the number held by each word, in order.
    pub closed spec fn words(&self) -> Seq<nat> {
        self.elements@.map_values(|w: T| w.value())
    }

    /// An empty array of one-bit elements, to stand in until a real one is
    /// constructed. The argument is accepted and ignored: the element width
    /// of the result is always one.
    pub fn default(bits_per_element: usize) -> (field: Self)
        ensures
            field.element_width() == 1,
            field.words() == Seq::<nat>::empty(),
            field@ == Seq::<nat>::empty(),
    {
        let element_size = T::bits();
        let elements: Vec<T> = Vec::new();
        proof {
            layout::lemma_empty_storage(1, T::bit_width());
            assert(elements@.map_values(|w: T| w.value()) =~= Seq::<nat>::empty());
        }
        BitsField { bits_per_element: 1, element_size, elements }
    }

    /// An array of `size` elements of `bits_per_element` bits each, all zero.
    ///
    /// The storage is the least number of words that holds `size` elements,
    /// so the array's length may exceed `size` by what fits into the last
    /// word. A width of zero or above eight is refused. The length of the
    /// array that results has to fit in `usize`.
    pub fn new(bits_per_element: usize, size: usize) -> (r: Result<Self, BitsFieldError>)
        requires
            1 <= bits_per_element <= 8 ==> layout::capacity(
                layout::words_needed(size as nat, bits_per_element as nat, T::bit_width()),
                bits_per_element as nat,
                T::bit_width(),
            ) <= usize::MAX,
        ensures
            match r {
                Ok(field) => {
                    &&& 1 <= bits_per_element <= 8
                    &&& field.element_width() == bits_per_element
                    &&& field.words() == Seq::new(
                        layout::words_needed(size as nat, bits_per_element as nat, T::bit_width()),
                        |i: int| 0nat,
                    )
                    &&& size <= field@.len()
                    &&& forall|i: int| 0 <= i < field@.len() ==> field@[i] == 0
                },
                Err(e) => {
                    &&& e == BitsFieldError::InvalidWidth
                    &&& (bits_per_element == 0 || bits_per_element > 8)
                },
            },
    {
        if bits_per_element == 0 || bits_per_element > 8 {
            return Err(BitsFieldError::InvalidWidth);
        }
        let element_size = T::bits();
        proof {
            T::lemma_bit_width();
            layout::lemma_words_needed_bound(
                size as nat,
                bits_per_element as nat,
                T::bit_width(),
            );
            assert(size * bits_per_element <= size * 8) by (nonlinear_arith)
                requires
                    bits_per_element <= 8,
            ;
        }
        let total: u128 = size as u128 * bits_per_element as u128;
        let count: usize = ((total + (element_size as u128 - 1)) / element_size as u128) as usize;
        let mut elements: Vec<T> = Vec::new();
        let mut filled: usize = 0;
        while filled < count
            invariant
                filled <= count,
                elements@.len() == filled,
                forall|j: int| 0 <= j < filled ==> (#[trigger] elements@[j]).value() == 0,
            decreases count - filled,
        {
            elements.push(T::from_u8(0));
            filled += 1;
        }
        let field = BitsField { bits_per_element, element_size, elements };
        proof {
            assert(field.words() =~= Seq::new(count as nat, |i: int| 0nat));
            layout::lemma_words_needed_suffice(
                size as nat,
                bits_per_element as nat,
                T::bit_width(),
            );
            assert forall|i: int| 0 <= i < field@.len() implies field@[i] == 0 by {
                layout::lemma_zero_storage(
                    field.words(),
                    bits_per_element as nat,
                    T::bit_width(),
                    i as nat,
                );
            }
        }
        Ok(field)
    }

    /// Drops the storage: the array is empty afterwards. The element width
    /// stays as it was.
    pub fn clear(&mut self)
        ensures
            final(self).words() == Seq::<nat>::empty(),
            final(self).element_width() == old(self).element_width(),
            final(self)@ == Seq::<nat>::empty(),
    {
        proof {
            use_type_invariant(&*self);
            layout::lemma_empty_storage(self.bits_per_element as nat, T::bit_width());
        }
        self.elements = Vec::new();
        proof {
            assert(self.elements@.map_values(|w: T| w.value()) =~= Seq::<nat>::empty());
        }
    }

    /// Number of elements: as many as fit whole into the storage.
    pub fn len(&self) -> (count: usize)
        ensures
            count == self@.len(),
    {
        proof {
            use_type_invariant(self);
            T::lemma_bit_width();
            assert(self.elements.len() * self.element_size <= usize::MAX * 128)
                by (nonlinear_arith)
                requires
                    self.elements.len() <= usize::MAX,
                    self.element_size <= 128,
            ;
        }
        let total: u128 = self.elements.len() as u128 * self.element_size as u128;
        (total / self.bits_per_element as u128) as usize
    }

    /// Whether the storage holds no word at all.
    pub fn is_empty(&self) -> (empty: bool)
        ensures
            empty == (self.words().len() == 0),
    {
        self.elements.len() == 0
    }

    /// The storage words, in order.
    pub fn storage(&self) -> (storage: &Vec<T>)
        ensures
            storage@.len() == self.words().len(),
            forall|i: int|
                0 <= i < storage@.len() ==> (#[trigger] storage@[i]).value() == self.words()[i],
    {
        &self.elements
    }

    /// Where element `index` lies: the word in which it begins, and the bit
    /// of that word at which it begins.
    pub fn convert_index(&self, index: usize) -> (r: Result<(usize, usize), BitsFieldError>)
        ensures
            match r {
                Ok((word, offset)) => {
                    &&& index < self@.len()
                    &&& word == layout::word_index(
                        index as nat,
                        self.element_width(),
                        T::bit_width(),
                    )
                    &&& offset == layout::bit_offset(
                        index as nat,
                        self.element_width(),
                        T::bit_width(),
                    )
                },
                Err(e) => e == BitsFieldError::IndexOutOfBounds && index >= self@.len(),
            },
    {
        if index >= self.len() {
            return Err(BitsFieldError::IndexOutOfBounds);
        }
        proof {
            use_type_invariant(self);
            T::lemma_bit_width();
            layout::lemma_location_in_range(
                index as nat,
                self.elements@.len(),
                self.bits_per_element as nat,
                T::bit_width(),
            );
            assert(index * self.bits_per_element <= index * 8) by (nonlinear_arith)
                requires
                    self.bits_per_element <= 8,
            ;
        }
        let position: u128 = index as u128 * self.bits_per_element as u128;
        let word = (position / self.element_size as u128) as usize;
        let offset = (position % self.element_size as u128) as usize;
        Ok((word, offset))
    }

    /// Reads the raw pattern of element `index`, held in a word: a number
    /// below two to the power of the element width.
    pub fn get_raw(&self, index: usize) -> (r: Result<T, BitsFieldError>)
        ensures
            match r {
                Ok(raw) => {
                    &&& index < self@.len()
                    &&& raw.value() == self@[index as int]
                    &&& raw.value() < power2::pow2(self.element_width())
                },
                Err(e) => e == BitsFieldError::IndexOutOfBounds && index >= self@.len(),
            },
    {
        let (word, offset) = match self.convert_index(index) {
            Ok(location) => location,
            Err(e) => {
                return Err(e);
            },
        };
        proof {
            use_type_invariant(self);
            T::lemma_bit_width();
            layout::lemma_location_in_range(
                index as nat,
                self.elements.len() as nat,
                self.bits_per_element as nat,
                T::bit_width(),
            );
            layout::lemma_element_bound(
                self.words(),
                self.bits_per_element as nat,
                T::bit_width(),
                index as nat,
            );
        }
        if self.element_size - offset < self.bits_per_element {
            // The element ends in the next word: its left part is the top of
            // this word, its right part the bottom of the next.
            let left_len = self.element_size - offset;
            let right_len = self.bits_per_element - left_len;
            let left = take_bits(self.elements[word], offset, left_len);
            let right = take_bits(self.elements[word + 1], 0, right_len);
            let joined = left.shl(right_len as u8).bitor(right);
            proof {
                let expected = left.value() * power2::pow2(right_len as nat) + right.value();
                power2::lemma_pow2_pos(right_len as nat);
                vstd::arithmetic::div_mod::lemma_mod_bound(
                    (self.elements@[word + 1].value() / power2::pow2(0)) as int,
                    power2::pow2(right_len as nat) as int,
                );
                assert forall|i: nat|
                    bits::bit_of(joined.value(), i) == bits::bit_of(expected, i) by {
                    bits::lemma_bit_of_concat(right.value(), left.value(), right_len as nat, i);
                    if i >= right_len {
                        bits::lemma_bit_of_small(right.value(), right_len as nat, i);
                        bits::lemma_extract_bits(
                            self.elements@[word as int].value(),
                            offset as nat,
                            left_len as nat,
                            (i - right_len) as nat,
                        );
                    }
                }
                bits::lemma_equal_bits(joined.value(), expected);
            }
            Ok(joined)
        } else {
            Ok(take_bits(self.elements[word], offset, self.bits_per_element))
        }
    }

    /// Writes the low bits of `raw`, as many as the element width, to
    /// element `index`. Nothing else in the storage changes; with an index
    /// out of bounds nothing changes at all.
    pub fn set_raw(&mut self, index: usize, raw: T) -> (r: Result<(), BitsFieldError>)
        ensures
            final(self).element_width() == old(self).element_width(),
            match r {
                Ok(_) => {
                    &&& index < old(self)@.len()
                    &&& final(self).words() == layout::with_element(
                        old(self).words(),
                        old(self).element_width(),
                        T::bit_width(),
                        index as nat,
                        raw.value(),
                    )
                    &&& final(self)@ == old(self)@.update(
                        index as int,
                        bits::low_bits(raw.value(), old(self).element_width()),
                    )
                },
                Err(e) => {
                    &&& e == BitsFieldError::IndexOutOfBounds
                    &&& index >= old(self)@.len()
                    &&& *final(self) == *old(self)
                },
            },
    {
        let (word, offset) = match self.convert_index(index) {
            Ok(location) => location,
            Err(e) => {
                return Err(e);
            },
        };
        proof {
            use_type_invariant(&*self);
            T::lemma_bit_width();
            layout::lemma_location_in_range(
                index as nat,
                self.elements.len() as nat,
                self.bits_per_element as nat,
                T::bit_width(),
            );
            layout::lemma_elements_after_write(
                self.words(),
                self.bits_per_element as nat,
                T::bit_width(),
                index as nat,
                raw.value(),
            );
        }
        if self.element_size - offset < self.bits_per_element {
            // The element ends in the next word: the high bits of the
            // pattern go to the top of this word, the low bits to the bottom
            // of the next.
            let left_len = self.element_size - offset;
            let right_len = self.bits_per_element - left_len;
            let high = raw.shr(right_len as u8);
            proof {
                let expected = raw.value() / power2::pow2(right_len as nat);
                assert forall|i: nat|
                    bits::bit_of(high.value(), i) == bits::bit_of(expected, i) by {
                    bits::lemma_bit_of_div(raw.value(), right_len as nat, i);
                }
                bits::lemma_equal_bits(high.value(), expected);
            }
            let first = replace_bits(self.elements[word], offset, left_len, high);
            let second = replace_bits(self.elements[word + 1], 0, right_len, raw);
            self.elements[word] = first;
            self.elements[word + 1] = second;
        } else {
            let written = replace_bits(self.elements[word], offset, self.bits_per_element, raw);
            self.elements[word] = written;
        }
        proof {
            assert(self.words() =~= layout::with_element(
                old(self).words(),
                old(self).element_width(),
                T::bit_width(),
                index as nat,
                raw.value(),
            ));
        }
        Ok(())
    }

    /// Reads element `index` and decodes it: the result is what
    /// `Output::from_type` returns for the element's raw pattern.
    pub fn get<Output: BitFieldCompatible<T>>(&self, index: usize) -> (r: Result<
        Output,
        BitsFieldError,
    >)
        ensures
            match r {
                Ok(decoded) => {
                    &&& index < self@.len()
                    &&& decodes_to::<T, Output>(self@[index as int], decoded)
                },
                Err(e) => e == BitsFieldError::IndexOutOfBounds && index >= self@.len(),
            },
    {
        let raw = match self.get_raw(index) {
            Ok(raw) => raw,
            Err(e) => {
                return Err(e);
            },
        };
        let decoded = Output::from_type(raw);
        assert(decodes_to::<T, Output>(self@[index as int], decoded)) by {
            assert(call_ensures(Output::from_type, (raw,), decoded));
        }
        Ok(decoded)
    }

    /// Encodes `value` and writes the low bits of its pattern, as many as
    /// the element width, to element `index`: the pattern is what
    /// `value.to_type()` returns. Nothing else in the storage changes. With
    /// an index out of bounds nothing changes at all, and the value is not
    /// encoded.
    pub fn set<Output: BitFieldCompatible<T>>(&mut self, index: usize, value: Output) -> (r:
        Result<(), BitsFieldError>)
        ensures
            final(self).element_width() == old(self).element_width(),
            match r {
                Ok(_) => {
                    &&& index < old(self)@.len()
                    &&& exists|pattern: nat|
                        {
                            &&& #[trigger] encodes_to::<T, Output>(value, pattern)
                            &&& final(self).words() == layout::with_element(
                                old(self).words(),
                                old(self).element_width(),
                                T::bit_width(),
                                index as nat,
                                pattern,
                            )
                            &&& final(self)@ == old(self)@.update(
                                index as int,
                                bits::low_bits(pattern, old(self).element_width()),
                            )
                        }
                },
                Err(e) => {
                    &&& e == BitsFieldError::IndexOutOfBounds
                    &&& index >= old(self)@.len()
                    &&& *final(self) == *old(self)
                },
            },
    {
        if index >= self.len() {
            return Err(BitsFieldError::IndexOutOfBounds);
        }
        let raw = value.to_type();
        assert(encodes_to::<T, Output>(value, raw.value())) by {
            assert(call_ensures(Output::to_type, (&value,), raw));
        }
        self.set_raw(index, raw)
    }
}

} // verus!
