//! Identifiers and small numbers as text, the way the logs and the result
//! files hold them: an identifier in the canonical form of thirty-two
//! hexadecimal digits in five groups, a number in decimal digits.

use crate::key_bytes::{be_bytes, id_to_bytes};
use vstd::prelude::*;

verus! {

/// `String::push`, which the standard library documents to append the given
/// character to the end of the string.
pub assume_specification[ String::push ](s: &mut String, ch: char)
    ensures
        final(s)@ == old(s)@.push(ch),
;

/// The lower-case hexadecimal digit of a value below sixteen.
pub open spec fn hex_char(d: int) -> char {
    if d == 0 {
        '0'
    } else if d == 1 {
        '1'
    } else if d == 2 {
        '2'
    } else if d == 3 {
        '3'
    } else if d == 4 {
        '4'
    } else if d == 5 {
        '5'
    } else if d == 6 {
        '6'
    } else if d == 7 {
        '7'
    } else if d == 8 {
        '8'
    } else if d == 9 {
        '9'
    } else if d == 10 {
        'a'
    } else if d == 11 {
        'b'
    } else if d == 12 {
        'c'
    } else if d == 13 {
        'd'
    } else if d == 14 {
        'e'
    } else {
        'f'
    }
}

/// The bytes as hexadecimal digits, two for each byte.
pub open spec fn hex_text(bytes: Seq<u8>) -> Seq<char>
    decreases bytes.len(),
{
    if bytes.len() == 0 {
        Seq::empty()
    } else {
        hex_text(bytes.drop_last()).push(hex_char(bytes.last() as int / 16)).push(
            hex_char(bytes.last() as int % 16),
        )
    }
}

/// An identifier in its canonical form: groups of eight, four, four, four and
/// twelve hexadecimal digits with hyphens between them.
pub open spec fn uuid_text(id: u128) -> Seq<char> {
    let b = be_bytes(id);
    hex_text(b.subrange(0, 4)).push('-') + hex_text(b.subrange(4, 6)).push('-') + hex_text(
        b.subrange(6, 8),
    ).push('-') + hex_text(b.subrange(8, 10)).push('-') + hex_text(b.subrange(10, 16))
}

/// A number in decimal digits, without leading zeros.
pub open spec fn decimal_text(n: nat) -> Seq<char>
    decreases n,
{
    if n < 10 {
        seq![hex_char(n as int)]
    } else {
        decimal_text(n / 10).push(hex_char((n % 10) as int))
    }
}

/// The hexadecimal digit of a value below sixteen.
pub fn hex_digit(d: u8) -> (c: char)
    requires
        d < 16,
    ensures
        c == hex_char(d as int),
{
    if d == 0 {
        '0'
    } else if d == 1 {
        '1'
    } else if d == 2 {
        '2'
    } else if d == 3 {
        '3'
    } else if d == 4 {
        '4'
    } else if d == 5 {
        '5'
    } else if d == 6 {
        '6'
    } else if d == 7 {
        '7'
    } else if d == 8 {
        '8'
    } else if d == 9 {
        '9'
    } else if d == 10 {
        'a'
    } else if d == 11 {
        'b'
    } else if d == 12 {
        'c'
    } else if d == 13 {
        'd'
    } else if d == 14 {
        'e'
    } else {
        'f'
    }
}

/// Appends the bytes from `from` up to `to` as hexadecimal digits.
fn push_hex(text: &mut String, bytes: &[u8; 16], from: usize, to: usize)
    requires
        from <= to <= 16,
    ensures
        final(text)@ == old(text)@ + hex_text(bytes@.subrange(from as int, to as int)),
{
    let ghost start = text@;
    let mut i: usize = from;
    assert(bytes@.subrange(from as int, from as int) =~= Seq::<u8>::empty());
    assert(text@ =~= start + hex_text(bytes@.subrange(from as int, from as int)));
    while i < to
        invariant
            from <= i <= to <= 16,
            text@ == start + hex_text(bytes@.subrange(from as int, i as int)),
        decreases to - i,
    {
        let b: u8 = bytes[i];
        proof {
            let t = bytes@.subrange(from as int, i + 1);
            assert(t.drop_last() =~= bytes@.subrange(from as int, i as int));
            assert(t.last() == b);
        }
        let ghost before = text@;
        text.push(hex_digit(b / 16));
        text.push(hex_digit(b % 16));
        assert(text@ =~= start + hex_text(bytes@.subrange(from as int, i + 1)));
        i += 1;
    }
}

/// Appends an identifier in its canonical form.
pub fn push_uuid(text: &mut String, id: u128)
    ensures
        final(text)@ == old(text)@ + uuid_text(id),
{
    let ghost start = text@;
    let bytes = id_to_bytes(id);
    push_hex(text, &bytes, 0, 4);
    text.push('-');
    push_hex(text, &bytes, 4, 6);
    text.push('-');
    push_hex(text, &bytes, 6, 8);
    text.push('-');
    push_hex(text, &bytes, 8, 10);
    text.push('-');
    push_hex(text, &bytes, 10, 16);
    assert(text@ =~= start + uuid_text(id));
}

/// Appends a number of one byte in decimal digits.
pub fn push_decimal(text: &mut String, n: u8)
    ensures
        final(text)@ == old(text)@ + decimal_text(n as nat),
{
    let ghost start = text@;
    proof {
        reveal_with_fuel(decimal_text, 3);
    }
    if n >= 100 {
        text.push(hex_digit(n / 100));
        text.push(hex_digit((n / 10) % 10));
        text.push(hex_digit(n % 10));
        assert(text@ =~= start + decimal_text(n as nat));
    } else if n >= 10 {
        text.push(hex_digit(n / 10));
        text.push(hex_digit(n % 10));
        assert(text@ =~= start + decimal_text(n as nat));
    } else {
        text.push(hex_digit(n));
        assert(text@ =~= start + decimal_text(n as nat));
    }
}

} // verus!
