//! The lines of the files that are written: a row of a session log, and a
//! camera with its hundred best session averages.

use crate::camera_mapping::CameraBestAvgPicsMapping;
use crate::camera_top::CameraBestAvgPics;
use crate::record::Record;
use crate::text::{decimal_text, push_decimal, push_uuid, uuid_text};
use vstd::prelude::*;
use vstd::string::StringExecFns;

verus! {

/// A row as a line of a session log: user, session, camera and number of
/// pictures, separated by commas.
pub open spec fn row_text(row: Record) -> Seq<char> {
    (uuid_text(row.user_id).push(',') + uuid_text(row.session_id)).push(',') + decimal_text(
        row.camera_id as nat,
    ).push(',') + decimal_text(row.nb_pics as nat)
}

/// A row as a line of a session log, without the end of the line.
pub fn row_line(row: &Record) -> (line: String)
    ensures
        line@ == row_text(*row),
{
    let mut line = String::new();
    push_uuid(&mut line, row.user_id);
    line.push(',');
    push_uuid(&mut line, row.session_id);
    line.push(',');
    push_decimal(&mut line, row.camera_id);
    line.push(',');
    push_decimal(&mut line, row.nb_pics);
    assert(line@ =~= row_text(*row));
    line
}

/// Whether a writer that holds `buffered` bytes of the `capacity` of its
/// buffer is to be flushed before the next line: when fewer than
/// `flush_threshold` bytes are free.
pub fn needs_flush(capacity: usize, buffered: usize, flush_threshold: usize) -> (r: bool)
    ensures
        r == (capacity - buffered < flush_threshold),
{
    buffered > capacity || capacity - buffered < flush_threshold
}

/// The slots of a camera line: for each slot the session, a colon, the
/// average as it is written, and a comma.
pub open spec fn slots_text(sessions: Seq<u128>, averages: Seq<Seq<char>>) -> Seq<char>
    decreases sessions.len(),
{
    if sessions.len() == 0 {
        Seq::empty()
    } else {
        (slots_text(sessions.drop_last(), averages.drop_last()) + uuid_text(sessions.last())).push(
            ':',
        ) + averages.last().push(',')
    }
}

/// The line of a camera: the camera, a bar, and its slots.
pub open spec fn camera_line_text(camera_id: u8, sessions: Seq<u128>, averages: Seq<Seq<char>>) -> Seq<
    char,
> {
    decimal_text(camera_id as nat).push('|') + slots_text(sessions, averages)
}

/// The views of some texts.
pub open spec fn texts_view(texts: Seq<String>) -> Seq<Seq<char>> {
    Seq::new(texts.len(), |i: int| texts[i]@)
}

/// A camera with its hundred best session averages, as it stands in a line
/// of the result.
#[derive(Clone, Copy, Debug)]
pub struct CameraBestAvgPicsRecord {
    camera_id: u8,
    sessions: [u128; 100],
    avg_pics: [u32; 100],
}

impl CameraBestAvgPicsRecord {
    /// The camera.
    pub closed spec fn camera(self) -> u8 {
        self.camera_id
    }

    /// The slots as pairs of session and average bits, best first.
    pub closed spec fn slots(self) -> Seq<(u128, u32)> {
        Seq::new(100, |i: int| (self.sessions[i], self.avg_pics[i]))
    }

    pub fn new(camera_id: u8, camera_best_avg_pics: CameraBestAvgPics) -> (r: Self)
        ensures
            r.camera() == camera_id,
            r.slots() == camera_best_avg_pics@,
    {
        let sessions = camera_best_avg_pics.sessions();
        let avg_pics = camera_best_avg_pics.avg_pics();
        let r = CameraBestAvgPicsRecord { camera_id, sessions, avg_pics };
        proof {
            use_type_invariant(&camera_best_avg_pics);
            camera_best_avg_pics.lemma_inv();
            assert(r.slots() =~= camera_best_avg_pics@);
        }
        r
    }

    /// The camera.
    pub fn camera_id(&self) -> (r: u8)
        ensures
            r == self.camera(),
    {
        self.camera_id
    }

    /// The sessions, best first.
    pub fn sessions(&self) -> (r: [u128; 100])
        ensures
            forall|i: int| 0 <= i < 100 ==> r[i] == self.slots()[i].0,
    {
        self.sessions
    }

    /// The bits of the averages, best first.
    pub fn avg_pics(&self) -> (r: [u32; 100])
        ensures
            forall|i: int| 0 <= i < 100 ==> r[i] == self.slots()[i].1,
    {
        self.avg_pics
    }

    /// The line of the camera, given its hundred averages as they are to be
    /// written. Empty slots are written like the others.
    pub fn to_line(&self, avg_texts: &Vec<String>) -> (line: String)
        requires
            avg_texts.len() == 100,
        ensures
            line@ == camera_line_text(
                self.camera(),
                Seq::new(100, |i: int| self.slots()[i].0),
                texts_view(avg_texts@),
            ),
    {
        let ghost sessions = Seq::new(100, |i: int| self.slots()[i].0);
        let ghost averages = texts_view(avg_texts@);
        let mut line = String::new();
        push_decimal(&mut line, self.camera_id);
        line.push('|');
        let ghost head = line@;
        assert(sessions.take(0) =~= Seq::<u128>::empty());
        assert(line@ =~= head + slots_text(sessions.take(0), averages.take(0)));
        let mut i: usize = 0;
        while i < 100
            invariant
                0 <= i <= 100,
                avg_texts.len() == 100,
                sessions == Seq::new(100, |i: int| self.slots()[i].0),
                averages == texts_view(avg_texts@),
                line@ == head + slots_text(sessions.take(i as int), averages.take(i as int)),
            decreases 100 - i,
        {
            proof {
                let s = sessions.take(i + 1);
                let a = averages.take(i + 1);
                assert(s.drop_last() =~= sessions.take(i as int));
                assert(a.drop_last() =~= averages.take(i as int));
                assert(s.last() == self.sessions[i as int]);
                assert(a.last() == avg_texts[i as int]@);
            }
            let ghost before = line@;
            push_uuid(&mut line, self.sessions[i]);
            line.push(':');
            line.append(avg_texts[i].as_str());
            line.push(',');
            assert(line@ =~= (before + uuid_text(self.sessions[i as int])).push(':')
                + avg_texts[i as int]@.push(','));
            i += 1;
        }
        assert(sessions.take(100) =~= sessions);
        assert(averages.take(100) =~= averages);
        line
    }
}

/// The cameras of a mapping with their leaderboards, in ascending order of
/// the cameras, as they are written.
pub fn camera_records(mapping: &CameraBestAvgPicsMapping) -> (records: Vec<CameraBestAvgPicsRecord>)
    ensures
        forall|i: int, j: int|
            0 <= i < j < records.len() ==> records[i].camera() < records[j].camera(),
        forall|i: int|
            0 <= i < records.len() ==> mapping@.contains_key((#[trigger] records[i]).camera())
                && records[i].slots() == mapping@[records[i].camera()],
        forall|k: u8|
            mapping@.contains_key(k) ==> exists|i: int|
                0 <= i < records.len() && (#[trigger] records[i]).camera() == k,
{
    let ids = mapping.camera_ids();
    let mut records: Vec<CameraBestAvgPicsRecord> = Vec::new();
    let mut n: usize = 0;
    while n < ids.len()
        invariant
            0 <= n <= ids.len(),
            records.len() == n,
            forall|i: int, j: int| 0 <= i < j < ids.len() ==> ids[i] < ids[j],
            forall|k: u8| mapping@.contains_key(k) <==> ids@.contains(k),
            forall|i: int| 0 <= i < n ==> (#[trigger] records[i]).camera() == ids[i],
            forall|i: int|
                0 <= i < n ==> mapping@.contains_key((#[trigger] records[i]).camera())
                    && records[i].slots() == mapping@[records[i].camera()],
        decreases ids.len() - n,
    {
        let id: u8 = ids[n];
        assert(ids@.contains(id));
        match mapping.get(id) {
            Some(board) => {
                records.push(CameraBestAvgPicsRecord::new(id, board));
            },
            None => {
                assert(false);
            },
        }
        n += 1;
    }
    assert forall|k: u8| mapping@.contains_key(k) implies exists|i: int|
        0 <= i < records.len() && (#[trigger] records[i]).camera() == k by {
        assert(ids@.contains(k));
        let i = choose|i: int| 0 <= i < ids.len() && ids[i] == k;
        assert(records[i].camera() == k);
    }
    records
}

} // verus!
