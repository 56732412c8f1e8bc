//! The pointer file and the names of the files of the ring.
//!
//! The pointer file holds the index of the segment that is being written, as
//! plain decimal text. The segments are named `wal_1`, `wal_2` and so on.

use vstd::prelude::*;

verus! {

/// Whether `b` is an ASCII decimal digit.
pub open spec fn is_digit(b: u8) -> bool {
    48 <= b <= 57
}

/// Whether every byte of `text` is a decimal digit.
pub open spec fn all_digits(text: Seq<u8>) -> bool {
    forall|i: int| 0 <= i < text.len() ==> is_digit(#[trigger] text[i])
}

/// The number that the decimal digits `digits` spell, most significant
/// first.
pub open spec fn decimal_value(digits: Seq<u8>) -> nat
    decreases digits.len(),
{
    if digits.len() == 0 {
        0
    } else {
        (10 * decimal_value(digits.drop_last()) + (digits.last() - 48)) as nat
    }
}

/// The decimal digits of `n`, most significant first, with no leading zero.
pub open spec fn decimal(n: nat) -> Seq<u8>
    decreases n,
{
    if n < 10 {
        seq![(48 + n) as u8]
    } else {
        decimal(n / 10).push((48 + n % 10) as u8)
    }
}

/// The digits of a pointer text: the text itself, without a leading plus
/// sign where it has one.
pub open spec fn digits_of(text: Seq<u8>) -> Seq<u8> {
    if text.len() > 0 && text[0] == 43 {
        text.drop_first()
    } else {
        text
    }
}

/// The index that the text of a pointer file stands for: the text is one or
/// more decimal digits, with or without a plus sign before them, that spell
/// a number up to 255. Any other text stands for no index.
pub open spec fn pointer_of(text: Seq<u8>) -> Option<u8> {
    let digits = digits_of(text);
    if digits.len() > 0 && all_digits(digits) && decimal_value(digits) <= 255 {
        Some(decimal_value(digits) as u8)
    } else {
        None
    }
}

/// The name of the pointer file: `meta`.
pub open spec fn meta_name() -> Seq<u8> {
    seq![109u8, 101u8, 116u8, 97u8]
}

/// The name of the segment with index `index`: `wal_` and the index in
/// decimal.
pub open spec fn segment_name(index: u8) -> Seq<u8> {
    seq![119u8, 97u8, 108u8, 95u8] + decimal(index as nat)
}

/// The digits of a number are digits, there is at least one of them, and
/// they spell the number.
pub proof fn lemma_decimal_value(n: nat)
    ensures
        decimal(n).len() > 0,
        all_digits(decimal(n)),
        decimal_value(decimal(n)) == n,
    decreases n,
{
    if n < 10 {
        let d = decimal(n);
        assert(d.drop_last() =~= Seq::<u8>::empty());
        assert(decimal_value(d.drop_last()) == 0);
    } else {
        lemma_decimal_value(n / 10);
        let d = decimal(n);
        assert(d.drop_last() =~= decimal(n / 10));
        assert(d.last() == (48 + n % 10) as u8);
    }
}

/// Round trip of the pointer file: the text written for an index is read
/// back as that index.
pub proof fn lemma_pointer_round_trip(pointer: u8)
    ensures
        pointer_of(decimal(pointer as nat)) == Some(pointer),
{
    lemma_decimal_value(pointer as nat);
    let d = decimal(pointer as nat);
    assert(is_digit(d[0]));
}

/// A number with one digit more is at least ten times as large as without
/// it: once the digits read so far spell more than 255, so does every
/// longer text.
pub proof fn lemma_decimal_value_grows(digits: Seq<u8>, k: int)
    requires
        all_digits(digits),
        0 <= k <= digits.len(),
    ensures
        decimal_value(digits.take(k)) <= decimal_value(digits),
    decreases digits.len() - k,
{
    if k < digits.len() {
        lemma_decimal_value_grows(digits, k + 1);
        let longer = digits.take(k + 1);
        assert(longer.drop_last() =~= digits.take(k));
        assert(is_digit(digits[k]));
        assert(longer.last() == digits[k]);
    } else {
        assert(digits.take(k) =~= digits);
    }
}

/// The text of the pointer file for the segment `pointer`.
pub fn write_pointer(pointer: u8) -> (text: Vec<u8>)
    ensures
        text@ == decimal(pointer as nat),
{
    let mut text: Vec<u8> = Vec::new();
    if pointer >= 100 {
        text.push(48 + pointer / 100);
    }
    if pointer >= 10 {
        text.push(48 + (pointer / 10) % 10);
    }
    text.push(48 + pointer % 10);
    proof {
        let n = pointer as nat;
        reveal_with_fuel(decimal, 3);
        assert(text@ =~= decimal(n));
    }
    text
}

/// The index that the text of a pointer file stands for, if it stands for
/// one.
pub fn read_pointer(text: &[u8]) -> (pointer: Option<u8>)
    ensures
        pointer == pointer_of(text@),
{
    let len: usize = text.len();
    let start: usize = if len > 0 && text[0] == 43 {
        1
    } else {
        0
    };
    let ghost digits = digits_of(text@);
    assert(digits =~= text@.skip(start as int));
    if start == len {
        return None;
    }
    let mut value: u16 = 0;
    let mut i: usize = start;
    assert(digits.take(0) =~= Seq::<u8>::empty());
    while i < len
        invariant
            start <= i <= len,
            len == text@.len(),
            digits == text@.skip(start as int),
            digits == digits_of(text@),
            all_digits(digits.take(i - start)),
            value == decimal_value(digits.take(i - start)),
            value <= 255,
        decreases len - i,
    {
        let b: u8 = text[i];
        let ghost k: int = i - start;
        assert(digits[k] == b);
        if b < 48 || b > 57 {
            assert(!is_digit(digits[k]));
            return None;
        }
        let next: u16 = value * 10 + (b - 48) as u16;
        proof {
            let longer = digits.take(k + 1);
            assert(longer.drop_last() =~= digits.take(k));
            assert(longer.last() == b);
            assert forall|j: int| 0 <= j < longer.len() implies is_digit(#[trigger] longer[j]) by {
                if j < k {
                    assert(longer[j] == digits.take(k)[j]);
                }
            }
        }
        if next > 255 {
            proof {
                if all_digits(digits) {
                    lemma_decimal_value_grows(digits, k + 1);
                }
            }
            return None;
        }
        value = next;
        i = i + 1;
    }
    assert(digits.take(i - start) =~= digits);
    Some(value as u8)
}

/// The name of the pointer file.
pub fn meta_file() -> (name: Vec<u8>)
    ensures
        name@ == meta_name(),
{
    let mut name: Vec<u8> = Vec::new();
    name.push(109);
    name.push(101);
    name.push(116);
    name.push(97);
    assert(name@ =~= meta_name());
    name
}

/// The name of the file of the segment with index `index`.
pub fn segment_file(index: u8) -> (name: Vec<u8>)
    ensures
        name@ == segment_name(index),
{
    let mut name: Vec<u8> = Vec::new();
    name.push(119);
    name.push(97);
    name.push(108);
    name.push(95);
    let mut digits: Vec<u8> = write_pointer(index);
    name.append(&mut digits);
    assert(name@ =~= segment_name(index));
    name
}

} // verus!
