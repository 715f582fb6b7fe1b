//! Leaderboards by camera: what one day's log gives, and the merge of several
//! days.

use crate::camera_top::{
    empty_board, lemma_offered_all_well_formed, offered, offered_all, well_formed,
    CameraBestAvgPics,
};
use std::collections::HashMap;
use vstd::prelude::*;

verus! {

broadcast use vstd::std_specs::hash::group_hash_axioms;

/// The average of one camera in one session, the average as its bits.
#[derive(Clone, Copy, Debug, PartialEq, Eq, Structural)]
pub struct SessionCameraAverage {
    pub session_id: u128,
    pub camera_id: u8,
    pub avg_bits: u32,
}

/// Every camera's leaderboard is well formed.
pub open spec fn boards_well_formed(m: Map<u8, Seq<(u128, u32)>>) -> bool {
    forall|k: u8| m.contains_key(k) ==> well_formed(#[trigger] m[k])
}

/// The leaderboard a camera has in `m`; the empty one if it has none yet.
pub open spec fn board_of(m: Map<u8, Seq<(u128, u32)>>, camera: u8) -> Seq<(u128, u32)> {
    if m.contains_key(camera) {
        m[camera]
    } else {
        empty_board()
    }
}

/// The leaderboards after one session average was offered to its camera's.
/// The camera has a leaderboard from then on, improved or not.
pub open spec fn with_average(
    m: Map<u8, Seq<(u128, u32)>>,
    camera: u8,
    session: u128,
    avg_bits: u32,
) -> Map<u8, Seq<(u128, u32)>> {
    m.insert(camera, offered(board_of(m, camera), session, avg_bits))
}

/// The leaderboards that a run of session averages gives, offered in order.
pub open spec fn extracted(averages: Seq<SessionCameraAverage>) -> Map<u8, Seq<(u128, u32)>>
    decreases averages.len(),
{
    if averages.len() == 0 {
        Map::empty()
    } else {
        let a = averages.last();
        with_average(extracted(averages.drop_last()), a.camera_id, a.session_id, a.avg_bits)
    }
}

/// One camera's leaderboard after `b` was merged into `a`: the merge of the
/// two where both have one, else the one there is.
pub open spec fn merged_board(
    a: Map<u8, Seq<(u128, u32)>>,
    b: Map<u8, Seq<(u128, u32)>>,
    camera: u8,
) -> Seq<(u128, u32)> {
    if a.contains_key(camera) && b.contains_key(camera) {
        offered_all(a[camera], b[camera])
    } else if a.contains_key(camera) {
        a[camera]
    } else {
        b[camera]
    }
}

/// The leaderboards after `b` was merged into `a`, camera by camera.
pub open spec fn merged_mappings(
    a: Map<u8, Seq<(u128, u32)>>,
    b: Map<u8, Seq<(u128, u32)>>,
) -> Map<u8, Seq<(u128, u32)>> {
    Map::new(|k: u8| a.contains_key(k) || b.contains_key(k), |k: u8| merged_board(a, b, k))
}

/// The leaderboards after each of `others` was merged into `acc`, first one
/// first.
pub open spec fn merged_onto(
    acc: Map<u8, Seq<(u128, u32)>>,
    others: Seq<Map<u8, Seq<(u128, u32)>>>,
) -> Map<u8, Seq<(u128, u32)>>
    decreases others.len(),
{
    if others.len() == 0 {
        acc
    } else {
        merged_mappings(merged_onto(acc, others.drop_last()), others.last())
    }
}

/// Merging keeps every leaderboard well formed.
pub proof fn lemma_merged_mappings_well_formed(
    a: Map<u8, Seq<(u128, u32)>>,
    b: Map<u8, Seq<(u128, u32)>>,
)
    requires
        boards_well_formed(a),
        boards_well_formed(b),
    ensures
        boards_well_formed(merged_mappings(a, b)),
{
    assert forall|k: u8| merged_mappings(a, b).contains_key(k) implies well_formed(
        #[trigger] merged_mappings(a, b)[k],
    ) by {
        if a.contains_key(k) {
            assert(well_formed(a[k]));
            if b.contains_key(k) {
                lemma_offered_all_well_formed(a[k], b[k]);
            }
        } else {
            assert(well_formed(b[k]));
        }
    }
}

/// Why a merge of daily leaderboards was refused.
#[derive(Clone, Copy, Debug, PartialEq, Eq, Structural)]
pub enum MergeError {
    /// There was nothing to merge: the list of daily leaderboards was empty.
    EmptyInput,
}

impl MergeError {
    /// The words the error is reported with.
    pub fn message(&self) -> (r: &'static str)
        ensures
            r@ == "An empty vector was provided"@,
    {
        "An empty vector was provided"
    }
}

/// For each camera that was seen, its leaderboard.
pub struct CameraBestAvgPicsMapping {
    mapper: HashMap<u8, CameraBestAvgPics>,
}

impl CameraBestAvgPicsMapping {
    /// The leaderboards by camera.
    pub closed spec fn view(self) -> Map<u8, Seq<(u128, u32)>> {
        Map::new(|k: u8| self.mapper@.contains_key(k), |k: u8| self.mapper@[k]@)
    }

    /// The invariant of the type: every leaderboard is well formed.
    #[verifier::type_invariant]
    pub closed spec fn inv(self) -> bool {
        forall|k: u8| self.mapper@.contains_key(k) ==> well_formed(#[trigger] self.mapper@[k]@)
    }

    /// What the invariant of the type says of the leaderboards.
    pub proof fn lemma_inv(self)
        ensures
            self.inv() == boards_well_formed(self@),
    {
        if self.inv() {
            assert forall|k: u8| self@.contains_key(k) implies well_formed(#[trigger] self@[k]) by {
                assert(well_formed(self.mapper@[k]@));
            }
        }
        if boards_well_formed(self@) {
            assert forall|k: u8| self.mapper@.contains_key(k) implies well_formed(
                #[trigger] self.mapper@[k]@,
            ) by {
                assert(well_formed(self@[k]));
            }
        }
    }

    /// Takes the map out, leaving an empty one behind.
    fn take_mapper(&mut self) -> (mapper: HashMap<u8, CameraBestAvgPics>)
        ensures
            mapper@ == old(self).mapper@,
            forall|k: u8| mapper@.contains_key(k) ==> well_formed(#[trigger] mapper@[k]@),
    {
        proof {
            use_type_invariant(&*self);
        }
        let mut mapper: HashMap<u8, CameraBestAvgPics> = HashMap::new();
        std::mem::swap(&mut self.mapper, &mut mapper);
        mapper
    }

    /// No camera seen yet.
    pub fn new() -> (r: Self)
        ensures
            r@ == Map::<u8, Seq<(u128, u32)>>::empty(),
    {
        let r = CameraBestAvgPicsMapping { mapper: HashMap::with_capacity(255) };
        assert(r@ =~= Map::<u8, Seq<(u128, u32)>>::empty());
        r
    }

    /// The leaderboard of a camera, if it was seen.
    pub fn get(&self, camera_id: u8) -> (r: Option<CameraBestAvgPics>)
        ensures
            r is Some <==> self@.contains_key(camera_id),
            r is Some ==> r.unwrap()@ == self@[camera_id],
            boards_well_formed(self@),
    {
        proof {
            use_type_invariant(self);
        }
        match self.mapper.get(&camera_id) {
            Some(board) => Some(*board),
            None => None,
        }
    }

    /// The cameras that were seen, in ascending order.
    pub fn camera_ids(&self) -> (r: Vec<u8>)
        ensures
            forall|i: int, j: int| 0 <= i < j < r.len() ==> r[i] < r[j],
            forall|k: u8| self@.contains_key(k) <==> r@.contains(k),
    {
        let mut ids: Vec<u8> = Vec::new();
        let mut k: usize = 0;
        while k < 256
            invariant
                0 <= k <= 256,
                forall|i: int, j: int| 0 <= i < j < ids.len() ==> ids[i] < ids[j],
                forall|i: int| 0 <= i < ids.len() ==> ids[i] < k,
                forall|c: u8| (self@.contains_key(c) && c < k) <==> ids@.contains(c),
            decreases 256 - k,
        {
            let id: u8 = k as u8;
            if self.mapper.contains_key(&id) {
                let ghost before = ids@;
                ids.push(id);
                assert forall|c: u8| (self@.contains_key(c) && c < k + 1) <==> ids@.contains(
                    c,
                ) by {
                    if before.contains(c) {
                        let i = choose|i: int| 0 <= i < before.len() && before[i] == c;
                        assert(ids@[i] == c);
                    }
                    if c == id {
                        assert(ids@[ids.len() - 1] == c);
                    }
                }
            }
            k += 1;
        }
        ids
    }

    /// Gives a camera this leaderboard, in place of the one it may have had.
    pub fn insert(&mut self, camera_id: u8, board: CameraBestAvgPics)
        ensures
            final(self)@ == old(self)@.insert(camera_id, board@),
            well_formed(board@),
    {
        proof {
            use_type_invariant(&*self);
            use_type_invariant(&board);
            board.lemma_inv();
        }
        let mut mapper = self.take_mapper();
        mapper.insert(camera_id, board);
        self.mapper = mapper;
        assert(self@ =~= old(self)@.insert(camera_id, board@));
    }

    /// Offers the average of one session to the leaderboard of its camera,
    /// which is created if the camera was not seen before.
    pub fn update_on_improvement(&mut self, camera_id: u8, session_id: u128, avg_bits: u32)
        ensures
            final(self)@ == with_average(old(self)@, camera_id, session_id, avg_bits),
            boards_well_formed(final(self)@),
    {
        proof {
            use_type_invariant(&*self);
        }
        let mut board = match self.mapper.get(&camera_id) {
            Some(known) => *known,
            None => CameraBestAvgPics::default(),
        };
        assert(board@ == board_of(self@, camera_id));
        board.update_on_improvement(session_id, avg_bits);
        let mut mapper = self.take_mapper();
        mapper.insert(camera_id, board);
        self.mapper = mapper;
        assert(self@ =~= with_average(old(self)@, camera_id, session_id, avg_bits));
        proof {
            use_type_invariant(&*self);
        }
    }

    /// Merges the leaderboards of another day into these, camera by camera.
    pub fn merge(&mut self, other: &CameraBestAvgPicsMapping)
        ensures
            final(self)@ == merged_mappings(old(self)@, other@),
            boards_well_formed(final(self)@),
    {
        proof {
            use_type_invariant(&*self);
            use_type_invariant(other);
        }
        let ghost before = self@;
        let mut k: usize = 0;
        while k < 256
            invariant
                0 <= k <= 256,
                forall|c: u8|
                    #[trigger] self@.contains_key(c) <==> (before.contains_key(c) || (c < k
                        && other@.contains_key(c))),
                forall|c: u8|
                    self@.contains_key(c) ==> #[trigger] self@[c] == (if c < k {
                        merged_board(before, other@, c)
                    } else {
                        before[c]
                    }),
            decreases 256 - k,
        {
            let id: u8 = k as u8;
            let ghost here = self@;
            match other.mapper.get(&id) {
                Some(theirs) => {
                    proof {
                        use_type_invariant(&*self);
                        use_type_invariant(theirs);
                        theirs.lemma_inv();
                    }
                    assert(other@.contains_key(id) && theirs@ == other@[id]);
                    let board = match self.mapper.get(&id) {
                        Some(ours) => {
                            assert(here.contains_key(id) && ours@ == here[id]);
                            assert(here[id] == before[id]);
                            let mut board = *ours;
                            board.merge(theirs);
                            board
                        },
                        None => {
                            assert(!here.contains_key(id));
                            *theirs
                        },
                    };
                    assert(board@ == merged_board(before, other@, id));
                    let mut mapper = self.take_mapper();
                    mapper.insert(id, board);
                    self.mapper = mapper;
                    assert(self@ =~= here.insert(id, merged_board(before, other@, id)));
                },
                None => {
                    assert(!other@.contains_key(id));
                },
            }
            assert forall|c: u8|
                #[trigger] self@.contains_key(c) <==> (before.contains_key(c) || (c < k + 1
                    && other@.contains_key(c))) by {
                if c == id {
                } else {
                    assert(here.contains_key(c) <==> (before.contains_key(c) || (c < k
                        && other@.contains_key(c))));
                }
            }
            k += 1;
        }
        assert(self@ =~= merged_mappings(before, other@));
        proof {
            use_type_invariant(&*self);
        }
    }
}

impl std::ops::AddAssign for CameraBestAvgPicsMapping {
    /// `a += b` merges `b` into `a`.
    fn add_assign(&mut self, other: CameraBestAvgPicsMapping)
        ensures
            final(self)@ == merged_mappings(old(self)@, other@),
            boards_well_formed(final(self)@),
    {
        self.merge(&other);
    }
}

/// The views of a list of daily leaderboards.
pub open spec fn views_of(mappings: Seq<CameraBestAvgPicsMapping>) -> Seq<
    Map<u8, Seq<(u128, u32)>>,
> {
    Seq::new(mappings.len(), |i: int| mappings[i]@)
}

/// Merges the leaderboards of several days into one: the last day's is taken
/// and the others are merged into it, first one first. An empty list is an
/// error.
pub fn merge_camera_best_avg_pics(mappings: Vec<CameraBestAvgPicsMapping>) -> (r: Result<
    CameraBestAvgPicsMapping,
    MergeError,
>)
    ensures
        mappings.len() == 0 <==> r == Err::<CameraBestAvgPicsMapping, MergeError>(
            MergeError::EmptyInput,
        ),
        mappings.len() > 0 ==> r is Ok && r.unwrap()@ == merged_onto(
            views_of(mappings@).last(),
            views_of(mappings@).drop_last(),
        ) && boards_well_formed(r.unwrap()@),
{
    let mut mappings = mappings;
    let ghost all = views_of(mappings@);
    match mappings.pop() {
        None => Err(MergeError::EmptyInput),
        Some(last) => {
            let mut mapping = last;
            let ghost others = all.drop_last();
            assert(views_of(mappings@) =~= others);
            assert(mapping@ == all.last());
            assert(others.take(0) =~= Seq::<Map<u8, Seq<(u128, u32)>>>::empty());
            let mut i: usize = 0;
            while i < mappings.len()
                invariant
                    0 <= i <= mappings.len(),
                    views_of(mappings@) == others,
                    mapping@ == merged_onto(all.last(), others.take(i as int)),
                decreases mappings.len() - i,
            {
                mapping.merge(&mappings[i]);
                proof {
                    let t = others.take(i + 1);
                    assert(t.drop_last() =~= others.take(i as int));
                    assert(t.last() == mappings@[i as int]@);
                }
                i += 1;
            }
            assert(others.take(i as int) =~= others);
            proof {
                use_type_invariant(&mapping);
            }
            Ok(mapping)
        },
    }
}

/// The leaderboards that a run of session averages gives: each average is
/// offered to the leaderboard of its camera, in the order given.
pub fn camera_best_hundred_mapping_from_averages(averages: &Vec<SessionCameraAverage>) -> (r:
    CameraBestAvgPicsMapping)
    ensures
        r@ == extracted(averages@),
        boards_well_formed(r@),
{
    let mut mapping = CameraBestAvgPicsMapping::new();
    let mut i: usize = 0;
    assert(averages@.take(0) =~= Seq::<SessionCameraAverage>::empty());
    while i < averages.len()
        invariant
            0 <= i <= averages.len(),
            mapping@ == extracted(averages@.take(i as int)),
            boards_well_formed(mapping@),
        decreases averages.len() - i,
    {
        let a = averages[i];
        mapping.update_on_improvement(a.camera_id, a.session_id, a.avg_bits);
        proof {
            let t = averages@.take(i + 1);
            assert(t.drop_last() =~= averages@.take(i as int));
            assert(t.last() == a);
        }
        i += 1;
    }
    assert(averages@.take(i as int) =~= averages@);
    mapping
}

} // verus!
