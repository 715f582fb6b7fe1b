//! Reading a line of a session log.
//!
//! A line holds the user, the session, the camera and the number of pictures,
//! separated by commas: the two identifiers in their canonical form of
//! thirty-six characters, in digits of either case, the two numbers in
//! decimal digits. Any other line is no row and is passed over.

use crate::key_bytes::{be_value, id_from_bytes};
use crate::record::Record;
use vstd::prelude::*;
use vstd::slice::slice_subrange;

verus! {

/// The value of a hexadecimal digit of either case; -1 for any other byte.
pub open spec fn hex_digit_value(c: u8) -> int {
    if 48 <= c <= 57 {
        c - 48
    } else if 97 <= c <= 102 {
        c - 87
    } else if 65 <= c <= 70 {
        c - 55
    } else {
        -1
    }
}

/// Where in the canonical form the two digits of the byte `j` begin.
pub open spec fn byte_place(j: int) -> int {
    2 * j + if j < 4 {
        0int
    } else if j < 6 {
        1int
    } else if j < 8 {
        2int
    } else if j < 10 {
        3int
    } else {
        4int
    }
}

/// Whether the two digits of the byte `j` are hexadecimal digits.
pub open spec fn is_hex_pair(t: Seq<u8>, j: int) -> bool {
    hex_digit_value(t[byte_place(j)]) >= 0 && hex_digit_value(t[byte_place(j) + 1]) >= 0
}

/// Whether a text is an identifier in its canonical form: thirty-six bytes,
/// hyphens after the eighth, twelfth, sixteenth and twentieth digit, and
/// hexadecimal digits elsewhere.
pub open spec fn is_uuid_text(t: Seq<u8>) -> bool {
    &&& t.len() == 36
    &&& t[8] == 45 && t[13] == 45 && t[18] == 45 && t[23] == 45
    &&& forall|j: int| 0 <= j < 16 ==> #[trigger] is_hex_pair(t, j)
}

/// The sixteen bytes that an identifier in its canonical form writes.
pub open spec fn uuid_bytes(t: Seq<u8>) -> Seq<u8> {
    Seq::new(
        16,
        |j: int|
            (16 * hex_digit_value(t[byte_place(j)]) + hex_digit_value(t[byte_place(j) + 1])) as u8,
    )
}

/// The identifier that a text in the canonical form writes.
pub open spec fn uuid_value(t: Seq<u8>) -> u128 {
    be_value(uuid_bytes(t)) as u128
}

/// Whether a text is made of decimal digits, at least one.
pub open spec fn is_decimal(t: Seq<u8>) -> bool {
    t.len() > 0 && forall|i: int| 0 <= i < t.len() ==> 48 <= #[trigger] t[i] <= 57
}

/// The number that decimal digits write.
pub open spec fn decimal_value(t: Seq<u8>) -> nat
    decreases t.len(),
{
    if t.len() == 0 {
        0
    } else {
        decimal_value(t.drop_last()) * 10 + (t.last() - 48) as nat
    }
}

/// The number of one byte that a text writes in decimal digits, if it does.
pub open spec fn byte_of_text(t: Seq<u8>) -> Option<u8> {
    if is_decimal(t) && decimal_value(t) <= 255 {
        Some(decimal_value(t) as u8)
    } else {
        None
    }
}

/// How many bytes stand before the first byte `b`, or the length if there is
/// none.
pub open spec fn first_of(t: Seq<u8>, b: u8) -> int
    decreases t.len(),
{
    if t.len() == 0 || t[0] == b {
        0
    } else {
        1 + first_of(t.drop_first(), b)
    }
}

/// The row that a line holds, if it holds one.
pub open spec fn parsed_line(line: Seq<u8>) -> Option<Record> {
    if line.len() >= 77 && line[36] == 44 && line[73] == 44 && is_uuid_text(line.subrange(0, 36))
        && is_uuid_text(line.subrange(37, 73)) {
        let rest = line.subrange(74, line.len() as int);
        let k = first_of(rest, 44);
        if k < rest.len() {
            match (byte_of_text(rest.subrange(0, k)), byte_of_text(rest.subrange(k + 1, rest.len() as int))) {
                (Some(camera_id), Some(nb_pics)) => Some(
                    Record {
                        user_id: uuid_value(line.subrange(0, 36)),
                        session_id: uuid_value(line.subrange(37, 73)),
                        camera_id,
                        nb_pics,
                    },
                ),
                _ => None,
            }
        } else {
            None
        }
    } else {
        None
    }
}

/// The value of a hexadecimal digit, if the byte is one.
pub fn hex_value(c: u8) -> (r: Option<u8>)
    ensures
        match r {
            Some(v) => v == hex_digit_value(c) && v < 16,
            None => hex_digit_value(c) < 0,
        },
{
    if 48 <= c && c <= 57 {
        Some(c - 48)
    } else if 97 <= c && c <= 102 {
        Some(c - 87)
    } else if 65 <= c && c <= 70 {
        Some(c - 55)
    } else {
        None
    }
}

/// Reads the identifier that stands in its canonical form in the thirty-six
/// bytes of `text` from `from` on.
pub fn parse_uuid(text: &[u8], from: usize) -> (r: Option<u128>)
    requires
        from + 36 <= text.len(),
    ensures
        r is Some <==> is_uuid_text(text@.subrange(from as int, from + 36)),
        r is Some ==> r.unwrap() == uuid_value(text@.subrange(from as int, from + 36)),
{
    let ghost t = text@.subrange(from as int, from + 36);
    if text[from + 8] != 45 || text[from + 13] != 45 || text[from + 18] != 45 || text[from + 23]
        != 45 {
        assert(t[8] == text@[from + 8] && t[13] == text@[from + 13] && t[18] == text@[from + 18]
            && t[23] == text@[from + 23]);
        return None;
    }
    let mut bytes: [u8; 16] = [0u8; 16];
    let mut j: usize = 0;
    while j < 16
        invariant
            0 <= j <= 16,
            from + 36 <= text.len(),
            t == text@.subrange(from as int, from + 36),
            forall|k: int| 0 <= k < j ==> #[trigger] is_hex_pair(t, k),
            forall|k: int| 0 <= k < j ==> bytes[k] == uuid_bytes(t)[k],
        decreases 16 - j,
    {
        let place: usize = 2 * j + if j < 4 {
            0
        } else if j < 6 {
            1
        } else if j < 8 {
            2
        } else if j < 10 {
            3
        } else {
            4
        };
        assert(place == byte_place(j as int));
        assert(t[place as int] == text@[from + place]);
        assert(t[place + 1] == text@[from + place + 1]);
        match (hex_value(text[from + place]), hex_value(text[from + place + 1])) {
            (Some(hi), Some(lo)) => {
                bytes[j] = hi * 16 + lo;
                assert(is_hex_pair(t, j as int));
            },
            _ => {
                assert(!is_hex_pair(t, j as int));
                return None;
            },
        }
        j += 1;
    }
    assert(t[8] == text@[from + 8] && t[13] == text@[from + 13] && t[18] == text@[from + 18]
        && t[23] == text@[from + 23]);
    assert(bytes@ =~= uuid_bytes(t));
    assert(bytes@.subrange(0, 16) =~= bytes@);
    Some(id_from_bytes(bytes.as_slice(), 0))
}

/// Reads the number of one byte that the bytes of `text` from `from` up to
/// `to` write in decimal digits.
pub fn parse_byte(text: &[u8], from: usize, to: usize) -> (r: Option<u8>)
    requires
        from <= to <= text.len(),
    ensures
        r == byte_of_text(text@.subrange(from as int, to as int)),
{
    let ghost t = text@.subrange(from as int, to as int);
    if from == to {
        return None;
    }
    let mut acc: u16 = 0;
    let mut i: usize = from;
    assert(t.take(0) =~= Seq::<u8>::empty());
    while i < to
        invariant
            from <= i <= to <= text.len(),
            t == text@.subrange(from as int, to as int),
            forall|k: int| 0 <= k < i - from ==> 48 <= #[trigger] t[k] <= 57,
            acc <= 256,
            acc == if decimal_value(t.take(i - from)) <= 255 {
                decimal_value(t.take(i - from))
            } else {
                256
            },
        decreases to - i,
    {
        let c: u8 = text[i];
        assert(t[i - from] == c);
        if c < 48 || c > 57 {
            return None;
        }
        proof {
            let s = t.take(i - from + 1);
            assert(s.drop_last() =~= t.take(i - from));
            assert(s.last() == c);
        }
        if acc <= 255 {
            acc = acc * 10 + (c - 48) as u16;
            if acc > 255 {
                acc = 256;
            }
        }
        i += 1;
    }
    assert(t.take(i - from) =~= t);
    if acc <= 255 {
        Some(acc as u8)
    } else {
        None
    }
}

/// `k` bytes other than `b` and then `b`, or the end: `k` is where the first
/// `b` is.
pub proof fn lemma_first_of(t: Seq<u8>, b: u8, k: int)
    requires
        0 <= k <= t.len(),
        forall|i: int| 0 <= i < k ==> t[i] != b,
        k < t.len() ==> t[k] == b,
    ensures
        first_of(t, b) == k,
    decreases t.len(),
{
    if t.len() == 0 || t[0] == b {
    } else {
        let r = t.drop_first();
        assert forall|i: int| 0 <= i < k - 1 implies r[i] != b by {
            assert(r[i] == t[i + 1]);
        }
        if k < t.len() {
            assert(r[k - 1] == t[k]);
        }
        lemma_first_of(r, b, k - 1);
    }
}

/// Reads a line of a session log, without the end of the line. `None` if the
/// line is no row.
pub fn parse_record_line(line: &[u8]) -> (r: Option<Record>)
    ensures
        r == parsed_line(line@),
{
    if line.len() < 77 || line[36] != 44 || line[73] != 44 {
        return None;
    }
    let user_id = match parse_uuid(line, 0) {
        Some(id) => id,
        None => {
            return None;
        },
    };
    let session_id = match parse_uuid(line, 37) {
        Some(id) => id,
        None => {
            return None;
        },
    };
    let ghost rest = line@.subrange(74, line.len() as int);
    let mut comma: usize = 74;
    while comma < line.len() && line[comma] != 44
        invariant
            74 <= comma <= line.len(),
            rest == line@.subrange(74, line.len() as int),
            forall|i: int| 0 <= i < comma - 74 ==> rest[i] != 44,
        decreases line.len() - comma,
    {
        assert(rest[comma - 74] == line@[comma as int]);
        comma += 1;
    }
    proof {
        if comma < line.len() {
            assert(rest[comma - 74] == line@[comma as int]);
        }
        lemma_first_of(rest, 44, comma - 74);
        assert(rest.subrange(0, comma - 74) =~= line@.subrange(74, comma as int));
    }
    if comma >= line.len() {
        return None;
    }
    proof {
        assert(rest.subrange(comma - 74 + 1, rest.len() as int) =~= line@.subrange(
            comma + 1,
            line.len() as int,
        ));
    }
    let camera_id = parse_byte(line, 74, comma);
    let nb_pics = parse_byte(line, comma + 1, line.len());
    match (camera_id, nb_pics) {
        (Some(camera_id), Some(nb_pics)) => Some(Record { user_id, session_id, camera_id, nb_pics }),
        _ => None,
    }
}

/// A line without the carriage return it may end with.
pub open spec fn without_cr(line: Seq<u8>) -> Seq<u8> {
    if line.len() > 0 && line.last() == 13 {
        line.drop_last()
    } else {
        line
    }
}

/// The rows of a log: the text is cut into lines at the line feeds, and each
/// line that is a row gives its row, in the order of the lines.
pub open spec fn log_rows(text: Seq<u8>) -> Seq<Record>
    decreases text.len(),
{
    if text.len() == 0 {
        Seq::empty()
    } else {
        let k = first_of(text, 10);
        let line = without_cr(text.take(k));
        let cut = if 0 <= k < text.len() {
            k + 1
        } else {
            text.len() as int
        };
        let rest = text.skip(cut);
        match parsed_line(line) {
            Some(row) => seq![row] + log_rows(rest),
            None => log_rows(rest),
        }
    }
}

/// Reads a log that is held in memory: every line that is a row gives its
/// row, every other line is passed over.
pub fn parse_log(text: &[u8]) -> (rows: Vec<Record>)
    ensures
        rows@ == log_rows(text@),
{
    let mut rows: Vec<Record> = Vec::new();
    let mut start: usize = 0;
    assert(text@.subrange(0, text.len() as int) =~= text@);
    while start < text.len()
        invariant
            0 <= start <= text.len(),
            rows@ + log_rows(text@.subrange(start as int, text.len() as int)) == log_rows(text@),
        decreases text.len() - start,
    {
        let ghost tail = text@.subrange(start as int, text.len() as int);
        let mut end: usize = start;
        while end < text.len() && text[end] != 10
            invariant
                start <= end <= text.len(),
                tail == text@.subrange(start as int, text.len() as int),
                forall|i: int| 0 <= i < end - start ==> tail[i] != 10,
            decreases text.len() - end,
        {
            assert(tail[end - start] == text@[end as int]);
            end += 1;
        }
        proof {
            if end < text.len() {
                assert(tail[end - start] == text@[end as int]);
            }
            lemma_first_of(tail, 10, end - start);
            assert(tail.take(end - start) =~= text@.subrange(start as int, end as int));
        }
        let line_end: usize = if end > start && text[end - 1] == 13 {
            end - 1
        } else {
            end
        };
        let line = slice_subrange(text, start, line_end);
        proof {
            let whole = text@.subrange(start as int, end as int);
            if end > start {
                assert(whole.last() == text@[end - 1]);
            }
            assert(line@ =~= without_cr(whole));
        }
        let ghost before = rows@;
        match parse_record_line(line) {
            Some(row) => {
                rows.push(row);
            },
            None => {},
        }
        let next: usize = if end < text.len() {
            end + 1
        } else {
            end
        };
        proof {
            let rest = tail.skip(next - start);
            assert(rest =~= text@.subrange(next as int, text.len() as int));
            match parsed_line(line@) {
                Some(row) => {
                    assert(rows@ + log_rows(rest) =~= before + (seq![row] + log_rows(rest)));
                },
                None => {},
            }
        }
        start = next;
    }
    assert(text@.subrange(text.len() as int, text.len() as int) =~= Seq::<u8>::empty());
    assert(rows@ + Seq::<Record>::empty() =~= rows@);
    rows
}

/// Where the first byte `b` of a text is: no `b` stands before it, and the
/// text holds `b` there unless it holds none.
pub proof fn lemma_first_of_is(t: Seq<u8>, b: u8)
    ensures
        0 <= first_of(t, b) <= t.len(),
        forall|i: int| 0 <= i < first_of(t, b) ==> t[i] != b,
        first_of(t, b) < t.len() ==> t[first_of(t, b)] == b,
    decreases t.len(),
{
    if t.len() == 0 || t[0] == b {
    } else {
        let r = t.drop_first();
        lemma_first_of_is(r, b);
        assert forall|i: int| 0 <= i < first_of(t, b) implies t[i] != b by {
            if i > 0 {
                assert(r[i - 1] == t[i]);
            }
        }
        if first_of(t, b) < t.len() {
            assert(r[first_of(r, b)] == t[first_of(t, b)]);
        }
    }
}

/// The rows of a text that begins with a line: the row of the line, if it is
/// one, and the rows of what follows the line.
pub proof fn lemma_log_rows_line(line: Seq<u8>, rest: Seq<u8>)
    requires
        forall|i: int| 0 <= i < line.len() ==> line[i] != 10,
    ensures
        log_rows(line + seq![10u8] + rest) == match parsed_line(without_cr(line)) {
            Some(row) => seq![row] + log_rows(rest),
            None => log_rows(rest),
        },
{
    let text = line + seq![10u8] + rest;
    let k = line.len() as int;
    assert forall|i: int| 0 <= i < k implies text[i] != 10 by {
        assert(text[i] == line[i]);
    }
    assert(text[k] == 10);
    lemma_first_of(text, 10, k);
    assert(text.take(k) =~= line);
    assert(text.skip(k + 1) =~= rest);
}

/// A line that is no row can be taken out of a log without a change to the
/// rows of the log: what stands before the line and what follows it give the
/// same rows with the line between them and without it.
pub proof fn lemma_log_rows_without(head: Seq<u8>, line: Seq<u8>, tail: Seq<u8>)
    requires
        head.len() == 0 || head.last() == 10,
        forall|i: int| 0 <= i < line.len() ==> line[i] != 10,
        parsed_line(without_cr(line)) is None,
    ensures
        log_rows(head + (line + seq![10u8] + tail)) == log_rows(head + tail),
    decreases head.len(),
{
    if head.len() == 0 {
        assert(head + (line + seq![10u8] + tail) =~= line + seq![10u8] + tail);
        assert(head + tail =~= tail);
        lemma_log_rows_line(line, tail);
    } else {
        lemma_first_of_is(head, 10);
        let k = first_of(head, 10);
        assert(k < head.len()) by {
            if k == head.len() {
                assert(head[head.len() - 1] != 10);
            }
        }
        let first = head.take(k);
        let next = head.skip(k + 1);
        assert(next.len() == 0 || next.last() == 10) by {
            if next.len() > 0 {
                assert(next.last() == head[head.len() - 1]);
            }
        }
        assert forall|i: int| 0 <= i < first.len() implies first[i] != 10 by {
            assert(first[i] == head[i]);
        }
        let with = line + seq![10u8] + tail;
        assert(head + with =~= first + seq![10u8] + (next + with));
        assert(head + tail =~= first + seq![10u8] + (next + tail));
        lemma_log_rows_line(first, next + with);
        lemma_log_rows_line(first, next + tail);
        lemma_log_rows_without(next, line, tail);
    }
}

} // verus!
