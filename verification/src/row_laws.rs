//! A row that is written as a line is read back from the line.

use crate::key_bytes::{be_bytes, lemma_be_bytes};
use crate::parsing::{
    byte_of_text, byte_place, decimal_value, hex_digit_value, is_decimal, is_hex_pair,
    is_uuid_text, lemma_first_of, parsed_line, uuid_bytes, uuid_value,
};
use crate::record::Record;
use crate::text::{decimal_text, hex_char, hex_text, uuid_text};
use crate::writing::row_text;
use vstd::prelude::*;

verus! {

/// A text of ASCII characters as bytes.
pub open spec fn text_bytes(text: Seq<char>) -> Seq<u8> {
    Seq::new(text.len(), |i: int| text[i] as u8)
}

/// A hexadecimal digit is read back as its value.
pub proof fn lemma_hex_char(d: int)
    requires
        0 <= d < 16,
    ensures
        hex_digit_value(hex_char(d) as u8) == d,
        hex_char(d) as u8 != 44,
        d < 10 ==> 48 <= hex_char(d) as u8 <= 57 && hex_char(d) as u8 - 48 == d,
{
}

/// The hexadecimal digits of some bytes are two for each byte, the upper
/// half of the byte first.
pub proof fn lemma_hex_text(bytes: Seq<u8>)
    ensures
        hex_text(bytes).len() == 2 * bytes.len(),
        forall|i: int|
            0 <= i < bytes.len() ==> hex_text(bytes)[2 * i] == hex_char(
                (#[trigger] bytes[i]) as int / 16,
            ) && hex_text(bytes)[2 * i + 1] == hex_char(bytes[i] as int % 16),
    decreases bytes.len(),
{
    if bytes.len() > 0 {
        let rest = bytes.drop_last();
        lemma_hex_text(rest);
        assert forall|i: int| 0 <= i < bytes.len() implies hex_text(bytes)[2 * i] == hex_char(
            (#[trigger] bytes[i]) as int / 16,
        ) && hex_text(bytes)[2 * i + 1] == hex_char(bytes[i] as int % 16) by {
            if i < rest.len() {
                assert(rest[i] == bytes[i]);
                assert(hex_text(bytes)[2 * i] == hex_text(rest)[2 * i]);
                assert(hex_text(bytes)[2 * i + 1] == hex_text(rest)[2 * i + 1]);
            }
        }
    }
}

/// The five groups of digits of an identifier in its canonical form.
pub open spec fn uuid_groups(id: u128) -> (Seq<char>, Seq<char>, Seq<char>, Seq<char>, Seq<char>) {
    let b = be_bytes(id);
    (
        hex_text(b.subrange(0, 4)),
        hex_text(b.subrange(4, 6)),
        hex_text(b.subrange(6, 8)),
        hex_text(b.subrange(8, 10)),
        hex_text(b.subrange(10, 16)),
    )
}

/// Where the characters of the canonical form come from: the groups with
/// hyphens between them.
pub proof fn lemma_uuid_text_places(id: u128)
    ensures
        uuid_text(id).len() == 36,
        uuid_text(id)[8] == '-' && uuid_text(id)[13] == '-' && uuid_text(id)[18] == '-'
            && uuid_text(id)[23] == '-',
        forall|i: int| 0 <= i < 8 ==> uuid_text(id)[i] == #[trigger] uuid_groups(id).0[i],
        forall|i: int| 0 <= i < 4 ==> uuid_text(id)[9 + i] == #[trigger] uuid_groups(id).1[i],
        forall|i: int| 0 <= i < 4 ==> uuid_text(id)[14 + i] == #[trigger] uuid_groups(id).2[i],
        forall|i: int| 0 <= i < 4 ==> uuid_text(id)[19 + i] == #[trigger] uuid_groups(id).3[i],
        forall|i: int| 0 <= i < 12 ==> uuid_text(id)[24 + i] == #[trigger] uuid_groups(id).4[i],
{
    let b = be_bytes(id);
    lemma_be_bytes(id, id);
    lemma_hex_text(b.subrange(0, 4));
    lemma_hex_text(b.subrange(4, 6));
    lemma_hex_text(b.subrange(6, 8));
    lemma_hex_text(b.subrange(8, 10));
    lemma_hex_text(b.subrange(10, 16));
    let g = uuid_groups(id);
    let a0 = g.0.push('-');
    let a1 = a0 + g.1.push('-');
    let a2 = a1 + g.2.push('-');
    let a3 = a2 + g.3.push('-');
    let a4 = a3 + g.4;
    assert(uuid_text(id) == a4);
    assert(a0.len() == 9 && a1.len() == 14 && a2.len() == 19 && a3.len() == 24 && a4.len() == 36);
    assert forall|i: int| 0 <= i < 9 implies a4[i] == a0[i] by {
        assert(a1[i] == a0[i] && a2[i] == a1[i] && a3[i] == a2[i] && a4[i] == a3[i]);
    }
    assert forall|i: int| 9 <= i < 14 implies a4[i] == g.1.push('-')[i - 9] by {
        assert(a1[i] == g.1.push('-')[i - 9] && a2[i] == a1[i] && a3[i] == a2[i] && a4[i]
            == a3[i]);
    }
    assert forall|i: int| 14 <= i < 19 implies a4[i] == g.2.push('-')[i - 14] by {
        assert(a2[i] == g.2.push('-')[i - 14] && a3[i] == a2[i] && a4[i] == a3[i]);
    }
    assert forall|i: int| 19 <= i < 24 implies a4[i] == g.3.push('-')[i - 19] by {
        assert(a3[i] == g.3.push('-')[i - 19] && a4[i] == a3[i]);
    }
    assert forall|i: int| 0 <= i < 8 implies a4[i] == #[trigger] g.0[i] by {
        assert(a4[i] == a0[i]);
    }
    assert forall|i: int| 0 <= i < 4 implies a4[9 + i] == #[trigger] g.1[i] by {
        assert(a4[9 + i] == g.1.push('-')[i]);
    }
    assert forall|i: int| 0 <= i < 4 implies a4[14 + i] == #[trigger] g.2[i] by {
        assert(a4[14 + i] == g.2.push('-')[i]);
    }
    assert forall|i: int| 0 <= i < 4 implies a4[19 + i] == #[trigger] g.3[i] by {
        assert(a4[19 + i] == g.3.push('-')[i]);
    }
    assert(a4[8] == a0[8]);
    assert(a4[13] == g.1.push('-')[4]);
    assert(a4[18] == g.2.push('-')[4]);
    assert(a4[23] == g.3.push('-')[4]);
}

/// The two digits of a byte of an identifier stand at the place of the byte.
pub proof fn lemma_uuid_digits(id: u128, j: int)
    requires
        0 <= j < 16,
    ensures
        uuid_text(id)[byte_place(j)] == hex_char(be_bytes(id)[j] as int / 16),
        uuid_text(id)[byte_place(j) + 1] == hex_char(be_bytes(id)[j] as int % 16),
{
    let b = be_bytes(id);
    lemma_be_bytes(id, id);
    lemma_uuid_text_places(id);
    let g = uuid_groups(id);
    let text = uuid_text(id);
    if j < 4 {
        let part = b.subrange(0, 4);
        lemma_hex_text(part);
        assert(part[j] == b[j]);
        assert(text[2 * j] == g.0[2 * j]);
        assert(text[2 * j + 1] == g.0[2 * j + 1]);
    } else if j < 6 {
        let part = b.subrange(4, 6);
        lemma_hex_text(part);
        assert(part[j - 4] == b[j]);
        assert(text[9 + 2 * (j - 4)] == g.1[2 * (j - 4)]);
        assert(text[9 + (2 * (j - 4) + 1)] == g.1[2 * (j - 4) + 1]);
    } else if j < 8 {
        let part = b.subrange(6, 8);
        lemma_hex_text(part);
        assert(part[j - 6] == b[j]);
        assert(text[14 + 2 * (j - 6)] == g.2[2 * (j - 6)]);
        assert(text[14 + (2 * (j - 6) + 1)] == g.2[2 * (j - 6) + 1]);
    } else if j < 10 {
        let part = b.subrange(8, 10);
        lemma_hex_text(part);
        assert(part[j - 8] == b[j]);
        assert(text[19 + 2 * (j - 8)] == g.3[2 * (j - 8)]);
        assert(text[19 + (2 * (j - 8) + 1)] == g.3[2 * (j - 8) + 1]);
    } else {
        let part = b.subrange(10, 16);
        lemma_hex_text(part);
        assert(part[j - 10] == b[j]);
        assert(text[24 + 2 * (j - 10)] == g.4[2 * (j - 10)]);
        assert(text[24 + (2 * (j - 10) + 1)] == g.4[2 * (j - 10) + 1]);
    }
}

/// An identifier in its canonical form is read back as the identifier.
pub proof fn lemma_uuid_round_trip(id: u128)
    ensures
        uuid_text(id).len() == 36,
        is_uuid_text(text_bytes(uuid_text(id))),
        uuid_value(text_bytes(uuid_text(id))) == id,
{
    let b = be_bytes(id);
    lemma_be_bytes(id, id);
    lemma_uuid_text_places(id);
    let text = uuid_text(id);
    let t = text_bytes(text);
    assert forall|j: int| 0 <= j < 16 implies #[trigger] is_hex_pair(t, j) by {
        lemma_uuid_digits(id, j);
        lemma_hex_char(b[j] as int / 16);
        lemma_hex_char(b[j] as int % 16);
    }
    assert forall|j: int| 0 <= j < 16 implies #[trigger] uuid_bytes(t)[j] == b[j] by {
        lemma_uuid_digits(id, j);
        lemma_hex_char(b[j] as int / 16);
        lemma_hex_char(b[j] as int % 16);
    }
    assert(uuid_bytes(t) =~= b);
}

/// A number in decimal digits is read back as the number, and holds no
/// comma.
pub proof fn lemma_decimal_round_trip(n: nat)
    ensures
        is_decimal(text_bytes(decimal_text(n))),
        decimal_value(text_bytes(decimal_text(n))) == n,
        forall|i: int|
            0 <= i < decimal_text(n).len() ==> #[trigger] text_bytes(decimal_text(n))[i] != 44,
    decreases n,
{
    let t = text_bytes(decimal_text(n));
    if n < 10 {
        lemma_hex_char(n as int);
        assert(t.drop_last() =~= Seq::<u8>::empty());
        assert(decimal_value(t.drop_last()) == 0);
    } else {
        lemma_decimal_round_trip(n / 10);
        lemma_hex_char((n % 10) as int);
        let rest = text_bytes(decimal_text(n / 10));
        assert(t.drop_last() =~= rest);
        assert forall|i: int| 0 <= i < t.len() implies 48 <= #[trigger] t[i] <= 57 by {
            if i < rest.len() {
                assert(t[i] == rest[i]);
            }
        }
    }
}

/// A row that is written as a line is read back from the line.
pub proof fn lemma_row_round_trip(row: Record)
    ensures
        parsed_line(text_bytes(row_text(row))) == Some(row),
{
    let u = text_bytes(uuid_text(row.user_id));
    let s = text_bytes(uuid_text(row.session_id));
    let c = text_bytes(decimal_text(row.camera_id as nat));
    let n = text_bytes(decimal_text(row.nb_pics as nat));
    lemma_uuid_round_trip(row.user_id);
    lemma_uuid_round_trip(row.session_id);
    lemma_decimal_round_trip(row.camera_id as nat);
    lemma_decimal_round_trip(row.nb_pics as nat);
    let line = text_bytes(row_text(row));
    assert(line =~= u.push(44u8) + s.push(44u8) + c.push(44u8) + n);
    assert(line.subrange(0, 36) =~= u);
    assert(line.subrange(37, 73) =~= s);
    let rest = line.subrange(74, line.len() as int);
    assert(rest =~= c.push(44u8) + n);
    let k = c.len() as int;
    assert forall|i: int| 0 <= i < k implies rest[i] != 44 by {
        assert(rest[i] == c[i]);
    }
    assert(rest[k] == 44);
    lemma_first_of(rest, 44, k);
    assert(rest.subrange(0, k) =~= c);
    assert(rest.subrange(k + 1, rest.len() as int) =~= n);
    assert(byte_of_text(c) == Some(row.camera_id));
    assert(byte_of_text(n) == Some(row.nb_pics));
}

} // verus!
