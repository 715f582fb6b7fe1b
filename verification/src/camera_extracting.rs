//! From sorted camera records to the totals of each session and camera.
//!
//! The records of one session and one camera stand together once the records
//! are sorted. A grouper takes them one at a time and hands out the total of a
//! group as soon as the first record of the next one arrives, so that no more
//! than one group is held at a time.

use crate::record::CameraRecord;
use vstd::prelude::*;

verus! {

/// The most rows a group can hold: with one more, the pictures of a group
/// could no longer be counted in 64 bits.
pub const MAX_GROUP_ROWS: u64 = 0x00FF_FFFF_FFFF_FFFF;

/// What the rows of one session and one camera add up to. The average of the
/// group is `pics` divided by `rows`.
#[derive(Clone, Copy, Debug, PartialEq, Eq, Structural)]
pub struct SessionCameraTotal {
    pub session_id: u128,
    pub camera_id: u8,
    /// Sum of the numbers of pictures of the rows.
    pub pics: u64,
    /// Number of rows.
    pub rows: u64,
}

/// A group took more rows than can be counted.
#[derive(Clone, Copy, Debug, PartialEq, Eq, Structural)]
pub enum GroupError {
    /// The group already holds `MAX_GROUP_ROWS` rows.
    TooManyRows,
}

/// The total of a group of one row.
pub open spec fn total_of_one(r: CameraRecord) -> SessionCameraTotal {
    SessionCameraTotal {
        session_id: r.session_id,
        camera_id: r.camera_id,
        pics: r.nb_pics as u64,
        rows: 1,
    }
}

/// Whether a row belongs to the group of a total.
pub open spec fn belongs(t: SessionCameraTotal, r: CameraRecord) -> bool {
    t.session_id == r.session_id && t.camera_id == r.camera_id
}

/// The total of a group after one more of its rows.
pub open spec fn extended(t: SessionCameraTotal, r: CameraRecord) -> SessionCameraTotal {
    SessionCameraTotal {
        session_id: t.session_id,
        camera_id: t.camera_id,
        pics: (t.pics + r.nb_pics) as u64,
        rows: (t.rows + 1) as u64,
    }
}

/// A total that counts at least one row, no more rows than a group can hold,
/// and no more pictures than that many rows can bring.
pub open spec fn sound(t: SessionCameraTotal) -> bool {
    1 <= t.rows <= MAX_GROUP_ROWS && t.pics <= 255 * t.rows
}

/// The totals of the groups of a run of records, in the order of the run: a
/// record that belongs to the group before it is added to that group, any
/// other record starts a group.
pub open spec fn grouped(records: Seq<CameraRecord>) -> Seq<SessionCameraTotal>
    decreases records.len(),
{
    if records.len() == 0 {
        Seq::empty()
    } else {
        let before = grouped(records.drop_last());
        let r = records.last();
        if before.len() > 0 && belongs(before.last(), r) {
            before.drop_last().push(extended(before.last(), r))
        } else {
            before.push(total_of_one(r))
        }
    }
}

/// Two groups that follow each other differ in session or camera, and every
/// total counts its rows and pictures without loss.
pub proof fn lemma_grouped_sound(records: Seq<CameraRecord>)
    requires
        records.len() <= MAX_GROUP_ROWS,
    ensures
        forall|i: int| 0 <= i < grouped(records).len() ==> sound(#[trigger] grouped(records)[i]),
        forall|i: int|
            0 < i < grouped(records).len() ==> !(grouped(records)[i - 1].session_id
                == (#[trigger] grouped(records)[i]).session_id && grouped(records)[i - 1].camera_id
                == grouped(records)[i].camera_id),
        grouped(records).len() <= records.len(),
        forall|i: int|
            0 <= i < grouped(records).len() ==> (#[trigger] grouped(records)[i]).rows
                <= records.len(),
        records.len() > 0 ==> grouped(records).len() > 0 && belongs(
            grouped(records).last(),
            records.last(),
        ),
    decreases records.len(),
{
    if records.len() > 0 {
        lemma_grouped_sound(records.drop_last());
        let before = grouped(records.drop_last());
        let r = records.last();
        let g = grouped(records);
        if before.len() > 0 && belongs(before.last(), r) {
            assert forall|i: int| 0 <= i < g.len() implies sound(#[trigger] g[i]) && g[i].rows
                <= records.len() by {
                if i < g.len() - 1 {
                    assert(g[i] == before[i]);
                } else {
                    assert(sound(before[before.len() - 1]));
                }
            }
            assert forall|i: int| 0 < i < g.len() implies !(g[i - 1].session_id == (
            #[trigger] g[i]).session_id && g[i - 1].camera_id == g[i].camera_id) by {
                assert(g[i - 1] == before[i - 1]);
                if i < g.len() - 1 {
                    assert(g[i] == before[i]);
                } else {
                    assert(g[i].session_id == before[i].session_id);
                    assert(g[i].camera_id == before[i].camera_id);
                }
            }
        } else {
            assert forall|i: int| 0 <= i < g.len() implies sound(#[trigger] g[i]) && g[i].rows
                <= records.len() by {
                if i < g.len() - 1 {
                    assert(g[i] == before[i]);
                }
            }
            assert forall|i: int| 0 < i < g.len() implies !(g[i - 1].session_id == (
            #[trigger] g[i]).session_id && g[i - 1].camera_id == g[i].camera_id) by {
                assert(g[i - 1] == before[i - 1]);
                if i < g.len() - 1 {
                    assert(g[i] == before[i]);
                }
            }
        }
    }
}

/// Takes sorted camera records one at a time and hands out the total of each
/// group when the group is over.
pub struct CameraGrouper {
    open: Option<SessionCameraTotal>,
}

impl CameraGrouper {
    /// The group that is still open, if a record was taken yet.
    pub closed spec fn view(self) -> Option<SessionCameraTotal> {
        self.open
    }

    /// The invariant of the type: the open group is sound.
    #[verifier::type_invariant]
    pub closed spec fn inv(self) -> bool {
        self.open matches Some(t) ==> sound(t)
    }

    /// What the invariant of the type says of the open group.
    pub proof fn lemma_inv(self)
        ensures
            self.inv() == (self@ matches Some(t) ==> sound(t)),
    {
    }

    /// A grouper that has taken no record.
    pub fn new() -> (r: Self)
        ensures
            r@ is None,
    {
        CameraGrouper { open: None }
    }

    /// A grouper whose open group has the given total, if that is the total
    /// of a group.
    pub fn with_open_group(total: SessionCameraTotal) -> (r: Option<Self>)
        ensures
            r is Some <==> sound(total),
            r is Some ==> r.unwrap()@ == Some(total),
    {
        if 1 <= total.rows && total.rows <= MAX_GROUP_ROWS && total.pics <= 255 * total.rows {
            Some(CameraGrouper { open: Some(total) })
        } else {
            None
        }
    }

    /// Takes the next record.
    ///
    /// A record of the open group is added to it and nothing is handed out. Any
    /// other record closes the open group, which is handed out, and opens its
    /// own. A record of an open group that is full is refused and changes
    /// nothing.
    pub fn push(&mut self, record: &CameraRecord) -> (r: Result<
        Option<SessionCameraTotal>,
        GroupError,
    >)
        ensures
            match old(self)@ {
                Some(t) if belongs(t, *record) => if t.rows == MAX_GROUP_ROWS {
                    r == Err::<Option<SessionCameraTotal>, GroupError>(GroupError::TooManyRows)
                        && final(self)@ == old(self)@
                } else {
                    r == Ok::<Option<SessionCameraTotal>, GroupError>(None) && final(self)@
                        == Some(extended(t, *record))
                },
                closed => r == Ok::<Option<SessionCameraTotal>, GroupError>(closed) && final(self)@
                    == Some(total_of_one(*record)),
            },
            final(self)@ matches Some(t) ==> sound(t),
            old(self)@ matches Some(t) ==> sound(t),
    {
        proof {
            use_type_invariant(&*self);
        }
        match self.open {
            Some(t) => {
                if t.session_id == record.session_id && t.camera_id == record.camera_id {
                    if t.rows == MAX_GROUP_ROWS {
                        return Err(GroupError::TooManyRows);
                    }
                    let pics: u64 = t.pics + record.nb_pics as u64;
                    let rows: u64 = t.rows + 1;
                    self.open = Some(
                        SessionCameraTotal {
                            session_id: t.session_id,
                            camera_id: t.camera_id,
                            pics,
                            rows,
                        },
                    );
                    Ok(None)
                } else {
                    self.open = Some(
                        SessionCameraTotal {
                            session_id: record.session_id,
                            camera_id: record.camera_id,
                            pics: record.nb_pics as u64,
                            rows: 1,
                        },
                    );
                    Ok(Some(t))
                }
            },
            None => {
                self.open = Some(
                    SessionCameraTotal {
                        session_id: record.session_id,
                        camera_id: record.camera_id,
                        pics: record.nb_pics as u64,
                        rows: 1,
                    },
                );
                Ok(None)
            },
        }
    }

    /// Ends the run: hands out the group that is still open, if there is one.
    pub fn finish(self) -> (r: Option<SessionCameraTotal>)
        ensures
            r == self@,
            r matches Some(t) ==> sound(t),
    {
        proof {
            use_type_invariant(&self);
        }
        self.open
    }
}

/// The totals of the groups of a run of sorted records held in memory.
///
/// A run longer than a group can hold is refused, whatever its groups are.
pub fn camera_totals(records: &Vec<CameraRecord>) -> (r: Result<
    Vec<SessionCameraTotal>,
    GroupError,
>)
    ensures
        records.len() > MAX_GROUP_ROWS <==> r == Err::<Vec<SessionCameraTotal>, GroupError>(
            GroupError::TooManyRows,
        ),
        records.len() <= MAX_GROUP_ROWS ==> r is Ok && r.unwrap()@ == grouped(records@),
{
    if records.len() as u64 > MAX_GROUP_ROWS {
        return Err(GroupError::TooManyRows);
    }
    let mut grouper = CameraGrouper::new();
    let mut totals: Vec<SessionCameraTotal> = Vec::new();
    let mut i: usize = 0;
    assert(records@.take(0) =~= Seq::<CameraRecord>::empty());
    while i < records.len()
        invariant
            0 <= i <= records.len(),
            records.len() <= MAX_GROUP_ROWS,
            match grouper@ {
                Some(t) => totals@.push(t) == grouped(records@.take(i as int)),
                None => i == 0 && totals@.len() == 0,
            },
        decreases records.len() - i,
    {
        let ghost before = grouped(records@.take(i as int));
        proof {
            let t = records@.take(i + 1);
            assert(t.drop_last() =~= records@.take(i as int));
            assert(t.last() == records@[i as int]);
            lemma_grouped_sound(records@.take(i as int));
            if i > 0 {
                assert(before.last() == grouper@.unwrap());
                assert(before.drop_last() =~= totals@);
            }
        }
        match grouper.push(&records[i]) {
            Ok(Some(total)) => {
                totals.push(total);
            },
            Ok(None) => {},
            Err(_) => {
                assert(false);
            },
        }
        i += 1;
    }
    assert(records@.take(i as int) =~= records@);
    match grouper.finish() {
        Some(total) => {
            totals.push(total);
        },
        None => {},
    }
    Ok(totals)
}

} // verus!
