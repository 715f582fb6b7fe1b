//! The stored form of the camera leaderboards of a day.
//!
//! The bytes begin with the number of cameras in two bytes. For each camera,
//! in ascending order, follow the camera in one byte and its hundred slots,
//! each slot as the sixteen bytes of the session and the four bytes of the
//! average. All numbers stand most significant byte first.

use crate::camera_mapping::{boards_well_formed, CameraBestAvgPicsMapping};
use crate::camera_top::{well_formed, CameraBestAvgPics};
use crate::key_bytes::{
    be_bytes, be_digits, be_value, id_from_bytes, id_to_bytes, lemma_be_bytes,
    lemma_be_digits_value, lemma_be_value_bound, pow256,
};
use vstd::prelude::*;

verus! {

/// The stored bytes are not the leaderboards of a day.
#[derive(Clone, Copy, Debug, PartialEq, Eq, Structural)]
pub enum DecodeError {
    /// The bytes do not have the length that the number of cameras asks for,
    /// the cameras do not ascend, or the slots of a camera are no leaderboard.
    Malformed,
}

/// An average as four bytes.
pub open spec fn be_bytes4(x: u32) -> Seq<u8> {
    be_digits(x as nat, 4)
}

/// A slot as twenty bytes.
pub open spec fn slot_bytes(slot: (u128, u32)) -> Seq<u8> {
    be_bytes(slot.0) + be_bytes4(slot.1)
}

/// The slots of a leaderboard as bytes, slot by slot.
pub open spec fn board_bytes(board: Seq<(u128, u32)>) -> Seq<u8>
    decreases board.len(),
{
    if board.len() == 0 {
        Seq::empty()
    } else {
        board_bytes(board.drop_last()) + slot_bytes(board.last())
    }
}

/// A camera with its leaderboard as bytes.
pub open spec fn entry_bytes(camera: u8, board: Seq<(u128, u32)>) -> Seq<u8> {
    seq![camera] + board_bytes(board)
}

/// The cameras below `upto` with their leaderboards as bytes, in ascending
/// order of the cameras.
pub open spec fn entries_bytes(m: Map<u8, Seq<(u128, u32)>>, upto: int) -> Seq<u8>
    decreases upto,
{
    if upto <= 0 {
        Seq::empty()
    } else if m.contains_key((upto - 1) as u8) {
        entries_bytes(m, upto - 1) + entry_bytes((upto - 1) as u8, m[(upto - 1) as u8])
    } else {
        entries_bytes(m, upto - 1)
    }
}

/// The number of cameras below `upto`.
pub open spec fn count_upto(m: Map<u8, Seq<(u128, u32)>>, upto: int) -> nat
    decreases upto,
{
    if upto <= 0 {
        0
    } else if m.contains_key((upto - 1) as u8) {
        count_upto(m, upto - 1) + 1
    } else {
        count_upto(m, upto - 1)
    }
}

/// The stored form of the leaderboards of a day.
pub open spec fn encoded(m: Map<u8, Seq<(u128, u32)>>) -> Seq<u8> {
    seq![(count_upto(m, 256) / 256) as u8, (count_upto(m, 256) % 256) as u8] + entries_bytes(
        m,
        256,
    )
}

/// The slot that twenty bytes are.
pub open spec fn slot_of(bytes: Seq<u8>) -> (u128, u32) {
    (be_value(bytes.subrange(0, 16)) as u128, be_value(bytes.subrange(16, 20)) as u32)
}

/// The hundred slots that two thousand bytes are.
pub open spec fn board_of_bytes(bytes: Seq<u8>) -> Seq<(u128, u32)> {
    Seq::new(100, |i: int| slot_of(bytes.subrange(20 * i, 20 * i + 20)))
}

/// Whether every camera that has a leaderboard is below `camera`.
pub open spec fn all_below(m: Map<u8, Seq<(u128, u32)>>, camera: int) -> bool {
    forall|k: u8| m.contains_key(k) ==> k < camera
}

/// The leaderboards that `n` cameras with their slots are, if the bytes are
/// as many, the cameras ascend and the slots of each are a leaderboard.
pub open spec fn decoded_entries(body: Seq<u8>, n: nat) -> Option<Map<u8, Seq<(u128, u32)>>>
    decreases n,
{
    if n == 0 {
        if body.len() == 0 {
            Some(Map::empty())
        } else {
            None
        }
    } else if body.len() < 2001 {
        None
    } else {
        let cut = body.len() - 2001;
        let camera = body[cut];
        let board = board_of_bytes(body.subrange(cut + 1, body.len() as int));
        match decoded_entries(body.take(cut), (n - 1) as nat) {
            Some(m) => if well_formed(board) && all_below(m, camera as int) {
                Some(m.insert(camera, board))
            } else {
                None
            },
            None => None,
        }
    }
}

/// The leaderboards that the stored bytes are, if they are any.
pub open spec fn decoded(bytes: Seq<u8>) -> Option<Map<u8, Seq<(u128, u32)>>> {
    if bytes.len() < 2 {
        None
    } else {
        decoded_entries(bytes.skip(2), (bytes[0] * 256 + bytes[1]) as nat)
    }
}

/// 256 to the fourth is one more than the largest average.
pub proof fn lemma_pow256_4()
    ensures
        pow256(4) == 0x1_0000_0000,
{
    reveal_with_fuel(pow256, 5);
}

/// A slot written and read back is the slot.
pub proof fn lemma_slot_round_trip(slot: (u128, u32))
    ensures
        slot_bytes(slot).len() == 20,
        slot_of(slot_bytes(slot)) == slot,
{
    lemma_pow256_4();
    lemma_be_bytes(slot.0, slot.0);
    lemma_be_digits_value(slot.1 as nat, 4);
    let b = slot_bytes(slot);
    assert(b.subrange(0, 16) =~= be_bytes(slot.0));
    assert(b.subrange(16, 20) =~= be_bytes4(slot.1));
}

/// The bytes of a leaderboard are twenty for each slot, and each slot stands
/// at its place.
pub proof fn lemma_board_bytes(board: Seq<(u128, u32)>)
    ensures
        board_bytes(board).len() == 20 * board.len(),
        forall|i: int|
            0 <= i < board.len() ==> #[trigger] board_bytes(board).subrange(20 * i, 20 * i + 20)
                == slot_bytes(board[i]),
    decreases board.len(),
{
    if board.len() > 0 {
        let rest = board.drop_last();
        lemma_board_bytes(rest);
        lemma_slot_round_trip(board.last());
        let all = board_bytes(board);
        assert forall|i: int| 0 <= i < board.len() implies #[trigger] all.subrange(
            20 * i,
            20 * i + 20,
        ) == slot_bytes(board[i]) by {
            if i < rest.len() {
                assert(all.subrange(20 * i, 20 * i + 20) =~= board_bytes(rest).subrange(
                    20 * i,
                    20 * i + 20,
                ));
                assert(rest[i] == board[i]);
            } else {
                assert(all.subrange(20 * i, 20 * i + 20) =~= slot_bytes(board.last()));
            }
        }
    }
}

/// A leaderboard written and read back is the leaderboard.
pub proof fn lemma_board_round_trip(board: Seq<(u128, u32)>)
    requires
        board.len() == 100,
    ensures
        board_bytes(board).len() == 2000,
        board_of_bytes(board_bytes(board)) == board,
{
    lemma_board_bytes(board);
    let back = board_of_bytes(board_bytes(board));
    assert forall|i: int| 0 <= i < 100 implies back[i] == board[i] by {
        assert(board_bytes(board).subrange(20 * i, 20 * i + 20) == slot_bytes(board[i]));
        lemma_slot_round_trip(board[i]);
    }
    assert(back =~= board);
}

/// The leaderboards of the cameras below `upto`.
pub open spec fn below(m: Map<u8, Seq<(u128, u32)>>, upto: int) -> Map<u8, Seq<(u128, u32)>> {
    Map::new(|k: u8| m.contains_key(k) && k < upto, |k: u8| m[k])
}

/// The cameras below `upto`, written and read back, are those cameras with
/// their leaderboards.
pub proof fn lemma_entries_round_trip(m: Map<u8, Seq<(u128, u32)>>, upto: int)
    requires
        boards_well_formed(m),
        0 <= upto <= 256,
    ensures
        entries_bytes(m, upto).len() == 2001 * count_upto(m, upto),
        count_upto(m, upto) <= upto,
        decoded_entries(entries_bytes(m, upto), count_upto(m, upto)) == Some(below(m, upto)),
    decreases upto,
{
    if upto == 0 {
        assert(below(m, 0) =~= Map::<u8, Seq<(u128, u32)>>::empty());
    } else {
        lemma_entries_round_trip(m, upto - 1);
        let camera = (upto - 1) as u8;
        if m.contains_key(camera) {
            let board = m[camera];
            assert(well_formed(board));
            lemma_board_round_trip(board);
            let before = entries_bytes(m, upto - 1);
            let body = entries_bytes(m, upto);
            let cut = body.len() - 2001;
            assert(cut == before.len());
            assert(body.take(cut) =~= before);
            assert(body[cut] == camera);
            assert(body.subrange(cut + 1, body.len() as int) =~= board_bytes(board));
            assert(all_below(below(m, upto - 1), camera as int));
            assert(below(m, upto) =~= below(m, upto - 1).insert(camera, board));
        } else {
            assert(below(m, upto) =~= below(m, upto - 1));
        }
    }
}

/// The leaderboards of a day, written and read back, are the leaderboards.
pub proof fn lemma_decode_encode(m: Map<u8, Seq<(u128, u32)>>)
    requires
        boards_well_formed(m),
    ensures
        decoded(encoded(m)) == Some(m),
{
    lemma_entries_round_trip(m, 256);
    let bytes = encoded(m);
    let n = count_upto(m, 256);
    assert(bytes.skip(2) =~= entries_bytes(m, 256));
    assert(bytes[0] * 256 + bytes[1] == n);
    assert(below(m, 256) =~= m);
}

/// What is read from bytes has as many bytes as its cameras ask for.
pub proof fn lemma_decoded_len(body: Seq<u8>, n: nat)
    requires
        decoded_entries(body, n) is Some,
    ensures
        body.len() == 2001 * n,
    decreases n,
{
    if n > 0 {
        lemma_decoded_len(body.take(body.len() - 2001), (n - 1) as nat);
    }
}

/// Where the first cameras cannot be read, the whole cannot.
pub proof fn lemma_decoded_prefix(body: Seq<u8>, n: nat, i: nat)
    requires
        i <= n,
        body.len() == 2001 * n,
        decoded_entries(body.take(2001 * i as int), i) is None,
    ensures
        decoded_entries(body, n) is None,
    decreases n - i,
{
    if i == n {
        assert(body.take(2001 * i as int) =~= body);
    } else {
        let cut = body.len() - 2001;
        assert(body.take(cut).take(2001 * i as int) =~= body.take(2001 * i as int));
        lemma_decoded_prefix(body.take(cut), (n - 1) as nat, i);
    }
}

/// Appends an average as four bytes.
fn push_be_u32(out: &mut Vec<u8>, x: u32)
    ensures
        final(out)@ == old(out)@ + be_bytes4(x),
{
    let ghost start = out@;
    proof {
        reveal_with_fuel(be_digits, 5);
    }
    out.push((x / 0x100_0000) as u8);
    out.push(((x / 0x1_0000) % 256) as u8);
    out.push(((x / 0x100) % 256) as u8);
    out.push((x % 256) as u8);
    assert(out@ =~= start + be_bytes4(x));
}

/// Reads the average that four bytes of `bytes`, from `from` on, write.
fn be_u32_from(bytes: &[u8], from: usize) -> (r: u32)
    requires
        from + 4 <= bytes.len(),
    ensures
        r == be_value(bytes@.subrange(from as int, from + 4)),
{
    let ghost part = bytes@.subrange(from as int, from + 4);
    proof {
        reveal_with_fuel(be_value, 5);
        assert(part.drop_last() =~= bytes@.subrange(from as int, from + 3));
        assert(part.drop_last().drop_last() =~= bytes@.subrange(from as int, from + 2));
        assert(part.drop_last().drop_last().drop_last() =~= bytes@.subrange(
            from as int,
            from + 1,
        ));
        assert(part.drop_last().drop_last().drop_last().drop_last() =~= Seq::<u8>::empty());
    }
    let a: u32 = bytes[from] as u32;
    let b: u32 = bytes[from + 1] as u32;
    let c: u32 = bytes[from + 2] as u32;
    let d: u32 = bytes[from + 3] as u32;
    ((a * 256 + b) * 256 + c) * 256 + d
}

/// Writes the leaderboards of a day in their stored form.
pub fn encode_mapping(mapping: &CameraBestAvgPicsMapping) -> (bytes: Vec<u8>)
    ensures
        bytes@ == encoded(mapping@),
        decoded(bytes@) == Some(mapping@),
{
    let mut body: Vec<u8> = Vec::new();
    let mut count: u16 = 0;
    let mut k: usize = 0;
    while k < 256
        invariant
            0 <= k <= 256,
            count == count_upto(mapping@, k as int),
            count <= k,
            body@ == entries_bytes(mapping@, k as int),
        decreases 256 - k,
    {
        let camera: u8 = k as u8;
        match mapping.get(camera) {
            Some(board) => {
                let ghost before = body@;
                body.push(camera);
                let sessions = board.sessions();
                let avg_pics = board.avg_pics();
                let mut i: usize = 0;
                assert(board@.take(0) =~= Seq::<(u128, u32)>::empty());
                assert(body@ =~= before + seq![camera] + board_bytes(board@.take(0)));
                while i < 100
                    invariant
                        0 <= i <= 100,
                        board@.len() == 100,
                        forall|j: int| 0 <= j < 100 ==> sessions[j] == board@[j].0,
                        forall|j: int| 0 <= j < 100 ==> avg_pics[j] == board@[j].1,
                        body@ == before + seq![camera] + board_bytes(board@.take(i as int)),
                    decreases 100 - i,
                {
                    proof {
                        let t = board@.take(i + 1);
                        assert(t.drop_last() =~= board@.take(i as int));
                        assert(t.last() == board@[i as int]);
                    }
                    let ghost here = body@;
                    let session = id_to_bytes(sessions[i]);
                    let mut j: usize = 0;
                    while j < 16
                        invariant
                            0 <= j <= 16,
                            body@ == here + session@.take(j as int),
                        decreases 16 - j,
                    {
                        body.push(session[j]);
                        assert(body@ =~= here + session@.take(j + 1));
                        j += 1;
                    }
                    assert(session@.take(16) =~= session@);
                    push_be_u32(&mut body, avg_pics[i]);
                    assert(body@ =~= before + seq![camera] + board_bytes(board@.take(i + 1)));
                    i += 1;
                }
                assert(board@.take(100) =~= board@);
                assert(body@ =~= before + entry_bytes(camera, board@));
                count += 1;
            },
            None => {},
        }
        k += 1;
    }
    let mut bytes: Vec<u8> = Vec::new();
    bytes.push((count / 256) as u8);
    bytes.push((count % 256) as u8);
    let ghost head = bytes@;
    let mut i: usize = 0;
    while i < body.len()
        invariant
            0 <= i <= body.len(),
            bytes@ == head + body@.take(i as int),
        decreases body.len() - i,
    {
        bytes.push(body[i]);
        assert(bytes@ =~= head + body@.take(i + 1));
        i += 1;
    }
    proof {
        assert(body@.take(body.len() as int) =~= body@);
        assert(bytes@ =~= encoded(mapping@));
        use_type_invariant(mapping);
        mapping.lemma_inv();
        lemma_decode_encode(mapping@);
    }
    bytes
}

/// Reads the leaderboard that two thousand bytes of `bytes`, from `from` on,
/// hold, if they hold one.
fn decode_board(bytes: &[u8], from: usize) -> (r: Option<CameraBestAvgPics>)
    requires
        from + 2000 <= bytes.len(),
    ensures
        r is Some <==> well_formed(board_of_bytes(bytes@.subrange(from as int, from + 2000))),
        r is Some ==> r.unwrap()@ == board_of_bytes(bytes@.subrange(from as int, from + 2000)),
{
    let ghost part = bytes@.subrange(from as int, from + 2000);
    let mut sessions: [u128; 100] = [0u128; 100];
    let mut avg_pics: [u32; 100] = [0u32; 100];
    let mut i: usize = 0;
    while i < 100
        invariant
            0 <= i <= 100,
            from + 2000 <= bytes.len(),
            part == bytes@.subrange(from as int, from + 2000),
            forall|j: int|
                0 <= j < i ==> (sessions[j], avg_pics[j]) == #[trigger] board_of_bytes(part)[j],
        decreases 100 - i,
    {
        let at: usize = from + 20 * i;
        let session = id_from_bytes(bytes, at);
        let avg = be_u32_from(bytes, at + 16);
        proof {
            let slot = part.subrange(20 * i, 20 * i + 20);
            assert(slot.subrange(0, 16) =~= bytes@.subrange(at as int, at + 16));
            assert(slot.subrange(16, 20) =~= bytes@.subrange(at + 16, at + 20));
            lemma_pow256_4();
            lemma_be_value_bound(slot.subrange(16, 20));
        }
        sessions[i] = session;
        avg_pics[i] = avg;
        i += 1;
    }
    assert(Seq::new(100, |j: int| (sessions[j], avg_pics[j])) =~= board_of_bytes(part));
    CameraBestAvgPics::from_parts(sessions, avg_pics)
}

/// Reads the leaderboards of a day from their stored form.
pub fn decode_mapping(bytes: &[u8]) -> (r: Result<CameraBestAvgPicsMapping, DecodeError>)
    ensures
        match r {
            Ok(mapping) => decoded(bytes@) == Some(mapping@),
            Err(_) => decoded(bytes@) is None,
        },
{
    if bytes.len() < 2 {
        return Err(DecodeError::Malformed);
    }
    let n: usize = bytes[0] as usize * 256 + bytes[1] as usize;
    let ghost body = bytes@.skip(2);
    if (bytes.len() - 2) / 2001 != n || (bytes.len() - 2) % 2001 != 0 {
        proof {
            if decoded_entries(body, n as nat) is Some {
                lemma_decoded_len(body, n as nat);
            }
        }
        return Err(DecodeError::Malformed);
    }
    let mut mapping = CameraBestAvgPicsMapping::new();
    let mut i: usize = 0;
    let mut next_camera: usize = 0;
    assert(body.take(0) =~= Seq::<u8>::empty());
    while i < n
        invariant
            0 <= i <= n,
            bytes.len() == 2 + 2001 * n,
            n == bytes@[0] * 256 + bytes@[1],
            body == bytes@.skip(2),
            0 <= next_camera <= 256,
            all_below(mapping@, next_camera as int),
            tight(mapping@, next_camera as int),
            decoded_entries(body.take(2001 * i), i as nat) == Some(mapping@),
        decreases n - i,
    {
        let at: usize = 2 + 2001 * i;
        let camera: u8 = bytes[at];
        let board = decode_board(bytes, at + 1);
        let ghost part = body.take(2001 * (i + 1));
        proof {
            let cut = part.len() - 2001;
            assert(cut == 2001 * i);
            assert(part.take(cut) =~= body.take(2001 * i));
            assert(part[cut] == camera);
            assert(part.subrange(cut + 1, part.len() as int) =~= bytes@.subrange(
                at + 1,
                at + 2001,
            ));
        }
        match board {
            Some(board) => {
                if (camera as usize) < next_camera {
                    proof {
                        lemma_all_below_tight(mapping@, next_camera as int, camera as int);
                        assert(decoded_entries(part, (i + 1) as nat) is None);
                        lemma_decoded_prefix(body, n as nat, (i + 1) as nat);
                    }
                    return Err(DecodeError::Malformed);
                }
                mapping.insert(camera, board);
                next_camera = camera as usize + 1;
            },
            None => {
                proof {
                    assert(decoded_entries(part, (i + 1) as nat) is None);
                    lemma_decoded_prefix(body, n as nat, (i + 1) as nat);
                }
                return Err(DecodeError::Malformed);
            },
        }
        i += 1;
    }
    assert(body.take(2001 * n) =~= body);
    Ok(mapping)
}

/// Where the cameras are below `bound` but not all below a smaller `camera`,
/// they are not all below `camera`.
proof fn lemma_all_below_tight(m: Map<u8, Seq<(u128, u32)>>, bound: int, camera: int)
    requires
        all_below(m, bound),
        0 <= camera < bound <= 256,
        tight(m, bound),
    ensures
        !all_below(m, camera),
{
    assert(m.contains_key((bound - 1) as u8));
}

/// Whether `bound` is one more than the largest camera, or zero if there is
/// no camera.
pub open spec fn tight(m: Map<u8, Seq<(u128, u32)>>, bound: int) -> bool {
    bound == 0 || (bound > 0 && m.contains_key((bound - 1) as u8))
}

} // verus!
