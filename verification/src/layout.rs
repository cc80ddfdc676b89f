//! Where the elements of a packed array lie in its storage words.
//!
//! Everything here is stated over plain numbers: the storage is a sequence of
//! word values, an element is the number that its bits spell. The functions of
//! the array are specified by these definitions, and the laws proved below hold
//! of them.

use crate::bits;
use vstd::arithmetic::div_mod;
use vstd::arithmetic::power2;
use vstd::prelude::*;

verus! {

/// Number of whole elements of `element_width` bits that fit into
/// `word_count` words of `word_width` bits.
pub open spec fn capacity(word_count: nat, element_width: nat, word_width: nat) -> nat {
    word_count * word_width / element_width
}

/// Least number of words of `word_width` bits that hold `size` elements of
/// `element_width` bits.
pub open spec fn words_needed(size: nat, element_width: nat, word_width: nat) -> nat {
    ((size * element_width + word_width - 1) / (word_width as int)) as nat
}

/// The word in which element `index` begins.
pub open spec fn word_index(index: nat, element_width: nat, word_width: nat) -> nat {
    index * element_width / word_width
}

/// The bit of that word at which element `index` begins.
pub open spec fn bit_offset(index: nat, element_width: nat, word_width: nat) -> nat {
    index * element_width % word_width
}

/// Whether element `index` begins in one word and ends in the next: fewer
/// bits remain in its first word than it needs.
pub open spec fn straddles(index: nat, element_width: nat, word_width: nat) -> bool {
    word_width - bit_offset(index, element_width, word_width) < element_width
}

/// The raw pattern of element `index`.
///
/// An element that lies within one word is the run of bits at its offset. One
/// that straddles two words is made of a left part, the top bits of its first
/// word, and a right part, the bottom bits of the next word; the left part
/// forms the high bits of the pattern and the right part the low bits.
pub open spec fn element_at(
    words: Seq<nat>,
    element_width: nat,
    word_width: nat,
    index: nat,
) -> nat {
    let word = word_index(index, element_width, word_width) as int;
    let offset = bit_offset(index, element_width, word_width);
    if straddles(index, element_width, word_width) {
        let left_len = (word_width - offset) as nat;
        let right_len = (element_width - left_len) as nat;
        bits::extract(words[word], offset, left_len) * power2::pow2(right_len) + bits::extract(
            words[word + 1],
            0,
            right_len,
        )
    } else {
        bits::extract(words[word], offset, element_width)
    }
}

/// The storage after the low `element_width` bits of `raw` were written to
/// element `index`. Only the bits of that element change: in a straddling
/// element the high bits of the pattern go to the left part and the low bits
/// to the right part.
pub open spec fn with_element(
    words: Seq<nat>,
    element_width: nat,
    word_width: nat,
    index: nat,
    raw: nat,
) -> Seq<nat> {
    let word = word_index(index, element_width, word_width) as int;
    let offset = bit_offset(index, element_width, word_width);
    if straddles(index, element_width, word_width) {
        let left_len = (word_width - offset) as nat;
        let right_len = (element_width - left_len) as nat;
        words.update(
            word,
            bits::splice(words[word], offset, left_len, raw / power2::pow2(right_len)),
        ).update(word + 1, bits::splice(words[word + 1], 0, right_len, raw))
    } else {
        words.update(word, bits::splice(words[word], offset, element_width, raw))
    }
}

/// The elements that a storage holds, in order.
pub open spec fn elements_of(words: Seq<nat>, element_width: nat, word_width: nat) -> Seq<nat> {
    Seq::new(
        capacity(words.len(), element_width, word_width),
        |i: int| element_at(words, element_width, word_width, i as nat),
    )
}

/// No more words are needed than there are elements, since an element is
/// no wider than a word.
pub proof fn lemma_words_needed_bound(size: nat, element_width: nat, word_width: nat)
    requires
        1 <= element_width <= word_width,
    ensures
        words_needed(size, element_width, word_width) <= size,
{
    let bits_needed = size * element_width;
    assert(bits_needed <= size * word_width) by (nonlinear_arith)
        requires
            bits_needed == size * element_width,
            element_width <= word_width,
    ;
    div_mod::lemma_div_is_ordered(
        bits_needed + word_width - 1,
        size * word_width + word_width - 1,
        word_width as int,
    );
    div_mod::lemma_fundamental_div_mod_converse(
        size * word_width + word_width - 1,
        word_width as int,
        size as int,
        word_width - 1,
    );
}

/// The words needed for `size` elements hold at least `size` elements, and
/// fewer than one word's bits more.
pub proof fn lemma_words_needed_suffice(size: nat, element_width: nat, word_width: nat)
    requires
        1 <= element_width,
        1 <= word_width,
    ensures
        size <= capacity(
            words_needed(size, element_width, word_width),
            element_width,
            word_width,
        ) < size + word_width,
{
    let bits_needed = size * element_width;
    let count = words_needed(size, element_width, word_width);
    let held = capacity(count, element_width, word_width);
    let padded = bits_needed + word_width - 1;
    div_mod::lemma_fundamental_div_mod(padded, word_width as int);
    div_mod::lemma_mod_bound(padded, word_width as int);
    assert(count == padded / (word_width as int)) by {
        div_mod::lemma_div_pos_is_pos(padded, word_width as int);
    }
    assert(bits_needed <= count * word_width <= padded) by (nonlinear_arith)
        requires
            padded == word_width * count + padded % (word_width as int),
            0 <= padded % (word_width as int) < word_width,
            padded == bits_needed + word_width - 1,
    ;
    div_mod::lemma_div_is_ordered(
        bits_needed as int,
        (count * word_width) as int,
        element_width as int,
    );
    div_mod::lemma_div_by_multiple(size as int, element_width as int);
    div_mod::lemma_fundamental_div_mod((count * word_width) as int, element_width as int);
    div_mod::lemma_mod_bound((count * word_width) as int, element_width as int);
    assert(held < size + word_width) by (nonlinear_arith)
        requires
            element_width * held <= count * word_width,
            count * word_width < size * element_width + word_width,
            1 <= element_width,
    ;
}

/// A storage without words holds no element.
pub proof fn lemma_empty_storage(element_width: nat, word_width: nat)
    requires
        1 <= element_width,
    ensures
        capacity(0, element_width, word_width) == 0,
        elements_of(Seq::<nat>::empty(), element_width, word_width) == Seq::<nat>::empty(),
{
    assert(0 * word_width == 0) by (nonlinear_arith);
    div_mod::lemma_div_of0(element_width as int);
    assert(elements_of(Seq::<nat>::empty(), element_width, word_width) =~= Seq::<nat>::empty());
}

/// In a storage whose words are all zero every element is zero.
pub proof fn lemma_zero_storage(
    words: Seq<nat>,
    element_width: nat,
    word_width: nat,
    index: nat,
)
    requires
        1 <= element_width <= word_width,
        index < capacity(words.len(), element_width, word_width),
        forall|i: int| 0 <= i < words.len() ==> words[i] == 0,
    ensures
        element_at(words, element_width, word_width, index) == 0,
{
    lemma_location_in_range(index, words.len(), element_width, word_width);
    let offset = bit_offset(index, element_width, word_width);
    if straddles(index, element_width, word_width) {
        let left_len = (word_width - offset) as nat;
        let right_len = (element_width - left_len) as nat;
        bits::lemma_extract_of_zero(offset, left_len);
        bits::lemma_extract_of_zero(0, right_len);
        assert(0 * power2::pow2(right_len) == 0) by (nonlinear_arith);
    } else {
        bits::lemma_extract_of_zero(offset, element_width);
    }
}

/// Every valid index lies in the storage: its first word exists, its offset
/// is within that word, and where the element straddles, the next word exists
/// too. The word and the offset together give the element's first bit.
pub proof fn lemma_location_in_range(
    index: nat,
    word_count: nat,
    element_width: nat,
    word_width: nat,
)
    requires
        1 <= element_width <= word_width,
        index < capacity(word_count, element_width, word_width),
    ensures
        index * element_width + element_width <= word_count * word_width,
        index * element_width == word_width * word_index(index, element_width, word_width)
            + bit_offset(index, element_width, word_width),
        bit_offset(index, element_width, word_width) < word_width,
        word_index(index, element_width, word_width) < word_count,
        straddles(index, element_width, word_width) ==> word_index(
            index,
            element_width,
            word_width,
        ) + 1 < word_count,
{
    let total = word_count * word_width;
    let count = capacity(word_count, element_width, word_width);
    let position = index * element_width;
    let word = word_index(index, element_width, word_width);
    let offset = bit_offset(index, element_width, word_width);
    div_mod::lemma_fundamental_div_mod(total as int, element_width as int);
    div_mod::lemma_mod_bound(total as int, element_width as int);
    assert(position + element_width <= element_width * count) by (nonlinear_arith)
        requires
            position == index * element_width,
            index + 1 <= count,
    ;
    assert(position + element_width <= total);
    div_mod::lemma_fundamental_div_mod(position as int, word_width as int);
    div_mod::lemma_mod_bound(position as int, word_width as int);
    assert(word < word_count) by (nonlinear_arith)
        requires
            word_width * word <= position,
            position < word_count * word_width,
    ;
    if straddles(index, element_width, word_width) {
        assert(word + 1 < word_count) by (nonlinear_arith)
            requires
                word_width * word + word_width < position + element_width,
                position + element_width <= word_count * word_width,
        ;
    }
}

/// An element's raw pattern fits in `element_width` bits.
pub proof fn lemma_element_bound(
    words: Seq<nat>,
    element_width: nat,
    word_width: nat,
    index: nat,
)
    requires
        1 <= element_width <= word_width,
        index < capacity(words.len(), element_width, word_width),
    ensures
        element_at(words, element_width, word_width, index) < power2::pow2(element_width),
{
    lemma_location_in_range(index, words.len(), element_width, word_width);
    let word = word_index(index, element_width, word_width) as int;
    let offset = bit_offset(index, element_width, word_width);
    if straddles(index, element_width, word_width) {
        let left_len = (word_width - offset) as nat;
        let right_len = (element_width - left_len) as nat;
        let left = bits::extract(words[word], offset, left_len);
        let right = bits::extract(words[word + 1], 0, right_len);
        let pl = power2::pow2(left_len);
        let pr = power2::pow2(right_len);
        power2::lemma_pow2_pos(left_len);
        power2::lemma_pow2_pos(right_len);
        power2::lemma_pow2_adds(left_len, right_len);
        div_mod::lemma_mod_bound((words[word] / power2::pow2(offset)) as int, pl as int);
        div_mod::lemma_mod_bound((words[word + 1] / power2::pow2(0)) as int, pr as int);
        assert(left * pr + right < pl * pr) by (nonlinear_arith)
            requires
                left < pl,
                right < pr,
        ;
    } else {
        power2::lemma_pow2_pos(element_width);
        div_mod::lemma_mod_bound(
            (words[word] / power2::pow2(offset)) as int,
            power2::pow2(element_width) as int,
        );
    }
}

/// Round trip: an element read after it was written holds the low
/// `element_width` bits of what was written, which is all of it where the
/// pattern fits in `element_width` bits.
pub proof fn lemma_element_after_write(
    words: Seq<nat>,
    element_width: nat,
    word_width: nat,
    index: nat,
    raw: nat,
)
    requires
        1 <= element_width <= word_width,
        index < capacity(words.len(), element_width, word_width),
    ensures
        element_at(
            with_element(words, element_width, word_width, index, raw),
            element_width,
            word_width,
            index,
        ) == bits::low_bits(raw, element_width),
        raw < power2::pow2(element_width) ==> element_at(
            with_element(words, element_width, word_width, index, raw),
            element_width,
            word_width,
            index,
        ) == raw,
{
    if raw < power2::pow2(element_width) {
        bits::lemma_low_bits_of_small(raw, element_width);
    }
    lemma_location_in_range(index, words.len(), element_width, word_width);
    let word = word_index(index, element_width, word_width) as int;
    let offset = bit_offset(index, element_width, word_width);
    if straddles(index, element_width, word_width) {
        let left_len = (word_width - offset) as nat;
        let right_len = (element_width - left_len) as nat;
        let pl = power2::pow2(left_len);
        let pr = power2::pow2(right_len);
        bits::lemma_extract_of_splice(words[word], offset, left_len, raw / pr);
        bits::lemma_extract_of_splice(words[word + 1], 0, right_len, raw);
        power2::lemma_pow2_pos(left_len);
        power2::lemma_pow2_pos(right_len);
        power2::lemma_pow2_adds(right_len, left_len);
        div_mod::lemma_breakdown(raw as int, pr as int, pl as int);
        assert(pr * ((raw / pr) % pl) == ((raw / pr) % pl) * pr) by (nonlinear_arith);
    } else {
        bits::lemma_extract_of_splice(words[word], offset, element_width, raw);
    }
}

/// A run of bits that lies outside the element written keeps its value.
pub proof fn lemma_run_kept(
    words: Seq<nat>,
    element_width: nat,
    word_width: nat,
    index: nat,
    raw: nat,
    word: nat,
    offset: nat,
    len: nat,
)
    requires
        1 <= element_width <= word_width,
        index < capacity(words.len(), element_width, word_width),
        word < words.len(),
        offset + len <= word_width,
        word_width * word + offset + len <= index * element_width || index * element_width
            + element_width <= word_width * word + offset,
    ensures
        bits::extract(
            with_element(words, element_width, word_width, index, raw)[word as int],
            offset,
            len,
        ) == bits::extract(words[word as int], offset, len),
{
    lemma_location_in_range(index, words.len(), element_width, word_width);
    let first = word_index(index, element_width, word_width);
    let start = bit_offset(index, element_width, word_width);
    assert(word_width * (first + 1) == word_width * first + word_width) by (nonlinear_arith);
    if straddles(index, element_width, word_width) {
        let left_len = (word_width - start) as nat;
        let right_len = (element_width - left_len) as nat;
        if word == first {
            bits::lemma_extract_of_splice_apart(
                words[first as int],
                start,
                left_len,
                raw / power2::pow2(right_len),
                offset,
                len,
            );
        } else if word == first + 1 {
            bits::lemma_extract_of_splice_apart(
                words[first as int + 1],
                0,
                right_len,
                raw,
                offset,
                len,
            );
        }
    } else if word == first {
        bits::lemma_extract_of_splice_apart(
            words[first as int],
            start,
            element_width,
            raw,
            offset,
            len,
        );
    }
}

/// Non-interference: writing one element leaves every other element as it
/// was.
pub proof fn lemma_other_element_kept(
    words: Seq<nat>,
    element_width: nat,
    word_width: nat,
    index: nat,
    raw: nat,
    other: nat,
)
    requires
        1 <= element_width <= word_width,
        index < capacity(words.len(), element_width, word_width),
        other < capacity(words.len(), element_width, word_width),
        other != index,
    ensures
        element_at(
            with_element(words, element_width, word_width, index, raw),
            element_width,
            word_width,
            other,
        ) == element_at(words, element_width, word_width, other),
{
    lemma_location_in_range(other, words.len(), element_width, word_width);
    let word = word_index(other, element_width, word_width);
    let offset = bit_offset(other, element_width, word_width);
    assert(other * element_width + element_width <= index * element_width || index
        * element_width + element_width <= other * element_width) by (nonlinear_arith)
        requires
            other != index,
    ;
    assert(word_width * (word + 1) == word_width * word + word_width) by (nonlinear_arith);
    if straddles(other, element_width, word_width) {
        let left_len = (word_width - offset) as nat;
        let right_len = (element_width - left_len) as nat;
        lemma_run_kept(words, element_width, word_width, index, raw, word, offset, left_len);
        lemma_run_kept(words, element_width, word_width, index, raw, word + 1, 0, right_len);
    } else {
        lemma_run_kept(words, element_width, word_width, index, raw, word, offset, element_width);
    }
}

/// Writing an element replaces its entry in the sequence of elements by the
/// low bits of what was written, and changes no other entry.
pub proof fn lemma_elements_after_write(
    words: Seq<nat>,
    element_width: nat,
    word_width: nat,
    index: nat,
    raw: nat,
)
    requires
        1 <= element_width <= word_width,
        index < capacity(words.len(), element_width, word_width),
    ensures
        elements_of(
            with_element(words, element_width, word_width, index, raw),
            element_width,
            word_width,
        ) == elements_of(words, element_width, word_width).update(
            index as int,
            bits::low_bits(raw, element_width),
        ),
{
    let after = with_element(words, element_width, word_width, index, raw);
    let before = elements_of(words, element_width, word_width);
    let written = elements_of(after, element_width, word_width);
    let count = capacity(words.len(), element_width, word_width);
    lemma_location_in_range(index, words.len(), element_width, word_width);
    assert(after.len() == words.len());
    let low = bits::low_bits(raw, element_width);
    assert forall|i: int| 0 <= i < count implies written[i] == before.update(
        index as int,
        low,
    )[i] by {
        if i == index {
            lemma_element_after_write(words, element_width, word_width, index, raw);
        } else {
            lemma_other_element_kept(words, element_width, word_width, index, raw, i as nat);
        }
    }
    assert(written =~= before.update(index as int, low));
}

} // verus!
