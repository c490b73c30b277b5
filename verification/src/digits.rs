//! Numbers written in decimal digits.

use vstd::prelude::*;
use vstd::string::*;
use vstd::utf8::{
    encode_utf8, encode_utf8_decode_utf8, encode_utf8_valid_utf8, is_ascii_chars,
    is_ascii_chars_encode_utf8,
};
use crate::encoding::string_from_utf8;

verus! {

/// Whether `c` is one of the ten decimal digits.
pub open spec fn is_digit(c: char) -> bool {
    48 <= c as u32 <= 57
}

/// The digit that stands for `d`, which is below ten.
pub open spec fn digit_char(d: nat) -> char {
    ((48 + d) as u8) as char
}

/// The number that a run of decimal digits denotes.
pub open spec fn decimal(digits: Seq<char>) -> nat
    decreases digits.len(),
{
    if digits.len() == 0 {
        0
    } else {
        (decimal(digits.drop_last()) * 10 + (digits.last() as u32 - 48)) as nat
    }
}

/// Whether `text` holds decimal digits only.
pub open spec fn all_digits(text: Seq<char>) -> bool {
    forall|i: int| 0 <= i < text.len() ==> is_digit(#[trigger] text[i])
}

/// The decimal digits of `n`, without leading zeros.
pub open spec fn digits_of(n: nat) -> Seq<char>
    decreases n,
{
    if n < 10 {
        seq![digit_char(n)]
    } else {
        digits_of(n / 10).push(digit_char(n % 10))
    }
}

/// The digits of a number are digits, and denote the number.
pub proof fn lemma_digits_of(n: nat)
    ensures
        digits_of(n).len() >= 1,
        all_digits(digits_of(n)),
        decimal(digits_of(n)) == n,
    decreases n,
{
    if n < 10 {
        let one = seq![digit_char(n)];
        assert(one.drop_last() =~= Seq::<char>::empty());
        assert(decimal(one.drop_last()) == 0);
        assert(digit_char(n) as u32 == 48 + n);
    } else {
        lemma_digits_of(n / 10);
        let front = digits_of(n / 10);
        let all = front.push(digit_char(n % 10));
        assert(all.drop_last() =~= front);
        assert(digit_char(n % 10) as u32 == 48 + n % 10);
        assert forall|i: int| 0 <= i < all.len() implies is_digit(#[trigger] all[i]) by {
            if i < front.len() {
                assert(all[i] == front[i]);
            }
        }
    }
}

/// A run of digits denotes at least what any of its beginnings denotes.
pub proof fn lemma_decimal_grows(digits: Seq<char>, n: int)
    requires
        all_digits(digits),
        0 <= n <= digits.len(),
    ensures
        decimal(digits.subrange(0, n)) <= decimal(digits),
    decreases digits.len(),
{
    if n == digits.len() {
        assert(digits.subrange(0, n) =~= digits);
    } else {
        let shorter = digits.drop_last();
        assert(is_digit(digits[digits.len() - 1]));
        assert forall|i: int| 0 <= i < shorter.len() implies is_digit(#[trigger] shorter[i]) by {
            assert(shorter[i] == digits[i]);
        }
        lemma_decimal_grows(shorter, n);
        assert(shorter.subrange(0, n) =~= digits.subrange(0, n));
    }
}

/// The number that `digits` denotes where they are digits only, at least one,
/// and denote no more than `limit`.
pub open spec fn value_within(digits: Seq<char>, limit: nat) -> Option<nat> {
    if digits.len() > 0 && all_digits(digits) && decimal(digits) <= limit {
        Some(decimal(digits))
    } else {
        None
    }
}

/// The characters of `text`.
pub fn chars_of(text: &str) -> (chars: Vec<char>)
    ensures
        chars@ == text@,
{
    let n: usize = text.unicode_len();
    let mut chars: Vec<char> = Vec::new();
    let mut i: usize = 0;
    while i < n
        invariant
            0 <= i <= n,
            n == text@.len(),
            chars@ == text@.subrange(0, i as int),
        decreases n - i,
    {
        chars.push(text.get_char(i));
        assert(chars@ =~= text@.subrange(0, i + 1));
        i = i + 1;
    }
    assert(chars@ =~= text@);
    chars
}

/// The number that the characters of `chars` from position `from` up to
/// position `to` denote, where they are digits only, at least one, and denote
/// no more than `limit`. Positions that do not lie in `chars` in this order
/// enclose nothing.
pub fn parse_decimal(chars: &Vec<char>, from: usize, to: usize, limit: u64) -> (r: Option<u64>)
    ensures
        match r {
            Some(value) => from <= to <= chars.len() && value_within(
                chars@.subrange(from as int, to as int),
                limit as nat,
            ) == Some(value as nat),
            None => from <= to <= chars.len() ==> value_within(
                chars@.subrange(from as int, to as int),
                limit as nat,
            ) is None,
        },
{
    if from > to || to > chars.len() {
        return None;
    }
    let ghost digits = chars@.subrange(from as int, to as int);
    if from >= to {
        return None;
    }
    let mut value: u64 = 0;
    let mut i: usize = from;
    assert(digits.subrange(0, 0) =~= Seq::<char>::empty());
    while i < to
        invariant
            from <= i <= to <= chars.len(),
            from < to,
            digits == chars@.subrange(from as int, to as int),
            all_digits(digits.subrange(0, i - from)),
            value == decimal(digits.subrange(0, i - from)),
            value <= limit,
        decreases to - i,
    {
        let code: u32 = chars[i] as u32;
        let ghost seen = digits.subrange(0, i - from);
        let ghost more = digits.subrange(0, i - from + 1);
        proof {
            assert(more.drop_last() =~= seen);
            assert(more.last() == chars@[i as int]);
            assert(digits[i - from] == chars@[i as int]);
        }
        if code < 48 || code > 57 {
            assert(!is_digit(digits[i - from]));
            return None;
        }
        let digit: u64 = (code - 48) as u64;
        proof {
            assert forall|j: int| 0 <= j < more.len() implies is_digit(#[trigger] more[j]) by {
                if j < seen.len() {
                    assert(more[j] == seen[j]);
                }
            }
        }
        if digit > limit || value > (limit - digit) / 10 {
            proof {
                assert(decimal(more) == value * 10 + digit);
                if all_digits(digits) {
                    lemma_decimal_grows(digits, i - from + 1);
                }
            }
            return None;
        }
        value = value * 10 + digit;
        i = i + 1;
    }
    proof {
        assert(digits.subrange(0, i - from) =~= digits);
    }
    Some(value)
}

/// The characters that the bytes of `rev` stand for, last byte first.
pub open spec fn backwards(rev: Seq<u8>) -> Seq<char> {
    Seq::new(rev.len(), |i: int| rev[rev.len() - 1 - i] as char)
}

/// The decimal digits of `n`, without leading zeros.
pub fn render_decimal(n: u64) -> (text: String)
    ensures
        text@ == digits_of(n as nat),
{
    let mut rev: Vec<u8> = Vec::new();
    let mut m: u64 = n;
    assert(digits_of(m as nat) + backwards(rev@) =~= digits_of(n as nat));
    while m >= 10
        invariant
            digits_of(n as nat) == digits_of(m as nat) + backwards(rev@),
            forall|i: int| 0 <= i < rev@.len() ==> 48 <= #[trigger] rev@[i] <= 57,
        decreases m,
    {
        let ghost before = rev@;
        let byte: u8 = 48 + (m % 10) as u8;
        rev.push(byte);
        proof {
            let c = digit_char((m % 10) as nat);
            assert(byte as char == c);
            assert(backwards(rev@) =~= seq![c] + backwards(before));
            assert(digits_of((m / 10) as nat).push(c) + backwards(before) =~= digits_of(
                (m / 10) as nat,
            ) + (seq![c] + backwards(before)));
        }
        m = m / 10;
    }
    let ghost before = rev@;
    let byte: u8 = 48 + m as u8;
    rev.push(byte);
    proof {
        let c = digit_char(m as nat);
        assert(byte as char == c);
        assert(backwards(rev@) =~= seq![c] + backwards(before));
    }
    let mut out: Vec<u8> = Vec::new();
    let mut i: usize = rev.len();
    while i > 0
        invariant
            0 <= i <= rev.len(),
            out@.len() == rev.len() - i,
            forall|j: int| 0 <= j < out@.len() ==> out@[j] == rev@[rev.len() - 1 - j],
        decreases i,
    {
        i = i - 1;
        out.push(rev[i]);
    }
    let ghost digits = digits_of(n as nat);
    proof {
        assert(digits =~= backwards(rev@));
        assert(is_ascii_chars(digits)) by {
            assert forall|j: int| 0 <= j < digits.len() implies '\0' <= #[trigger] digits[j]
                <= '\u{7f}' by {
                assert(48 <= rev@[rev.len() - 1 - j] <= 57);
            }
        }
        is_ascii_chars_encode_utf8(digits);
        assert(out@ =~= encode_utf8(digits)) by {
            assert forall|j: int| 0 <= j < out@.len() implies out@[j] == encode_utf8(
                digits,
            )[j] by {
                assert(digits[j] as u8 == encode_utf8(digits)[j]);
                assert(48 <= rev@[rev.len() - 1 - j] <= 57);
            }
        }
        encode_utf8_valid_utf8(digits);
        encode_utf8_decode_utf8(digits);
    }
    match string_from_utf8(out) {
        Some(text) => text,
        None => String::new(),
    }
}

} // verus!
