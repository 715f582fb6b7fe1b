//! What holds of leaderboards whatever is offered to them.

use vstd::prelude::*;
use crate::camera_mapping::{
    board_of, boards_well_formed, extracted, merged_mappings, with_average, SessionCameraAverage,
};
use crate::camera_top::{
    empty_slot, lemma_offered_well_formed, descending, improves, inserted,
    lemma_inserted_well_formed, lemma_offered_all_well_formed, lemma_rank_is, lemma_rank_splits,
    offered, offered_all, rank, well_formed, MAX_AVG_BITS,
};

verus! {

/// The averages of a leaderboard, without the sessions.
pub open spec fn averages(s: Seq<(u128, u32)>) -> Seq<u32> {
    Seq::new(s.len(), |i: int| s[i].1)
}

/// 1 if `x` counts among the averages of at least `v`, else 0.
pub open spec fn counts(x: u32, v: int) -> int {
    if x <= MAX_AVG_BITS && x >= v {
        1
    } else {
        0
    }
}

/// The smaller of a count and the number of slots.
pub open spec fn capped(n: int) -> int {
    if n < 100 {
        n
    } else {
        100
    }
}

/// Every slot of a leaderboard after an offer is the candidate or was a slot
/// before.
pub proof fn lemma_offered_sources(s: Seq<(u128, u32)>, session: u128, avg_bits: u32, i: int)
    requires
        well_formed(s),
        0 <= i < 100,
    ensures
        offered(s, session, avg_bits)[i] == (session, avg_bits) || exists|j: int|
            0 <= j < 100 && s[j] == offered(s, session, avg_bits)[i],
{
    let t = offered(s, session, avg_bits);
    if improves(s, avg_bits) {
        lemma_inserted_well_formed(s, session, avg_bits);
        let p = rank(s, avg_bits as int);
        lemma_rank_splits(s, avg_bits as int);
        if i < p {
            assert(s[i] == t[i]);
        } else if i > p {
            assert(s[i - 1] == t[i]);
        }
    } else {
        assert(s[i] == t[i]);
    }
}

/// Every slot of a merged leaderboard was a slot of one of the two that were
/// merged: merging invents neither a session nor an average, and keeps each
/// average with its session.
pub proof fn lemma_offered_all_sources(a: Seq<(u128, u32)>, b: Seq<(u128, u32)>, i: int)
    requires
        well_formed(a),
        0 <= i < 100,
    ensures
        (exists|j: int| 0 <= j < 100 && a[j] == offered_all(a, b)[i]) || (exists|j: int|
            0 <= j < b.len() && b[j] == offered_all(a, b)[i]),
    decreases b.len(),
{
    if b.len() == 0 {
        assert(a[i] == offered_all(a, b)[i]);
    } else {
        let prev = offered_all(a, b.drop_last());
        lemma_offered_all_well_formed(a, b.drop_last());
        lemma_offered_sources(prev, b.last().0, b.last().1, i);
        let r = offered_all(a, b);
        if r[i] == b.last() {
            assert(b[b.len() - 1] == r[i]);
        } else {
            let j = choose|j: int| 0 <= j < 100 && prev[j] == r[i];
            lemma_offered_all_sources(a, b.drop_last(), j);
            if exists|k: int| 0 <= k < b.drop_last().len() && b.drop_last()[k] == prev[j] {
                let k = choose|k: int| 0 <= k < b.drop_last().len() && b.drop_last()[k] == prev[j];
                assert(b[k] == r[i]);
            }
        }
    }
}

/// An offer raises the count of averages of at least `v` by one if the
/// candidate is such an average, up to the hundred slots there are.
pub proof fn lemma_rank_offered(s: Seq<(u128, u32)>, session: u128, avg_bits: u32, v: int)
    requires
        well_formed(s),
    ensures
        rank(offered(s, session, avg_bits), v) == capped(rank(s, v) + counts(avg_bits, v)),
{
    lemma_rank_splits(s, v);
    lemma_rank_splits(s, avg_bits as int);
    let r = rank(s, v);
    if improves(s, avg_bits) {
        lemma_inserted_well_formed(s, session, avg_bits);
        let p = rank(s, avg_bits as int);
        let t = inserted(s, session, avg_bits);
        let q = capped(r + counts(avg_bits, v));
        assert forall|i: int| 0 <= i < 100 implies #[trigger] t[i] == (if i < p {
            s[i]
        } else if i == p {
            (session, avg_bits)
        } else {
            s[i - 1]
        }) by {}
        assert(r <= p || avg_bits >= v) by {
            if r > p && avg_bits < v {
                assert(s[p].1 >= v);
                assert(s[p].1 < avg_bits);
            }
        }
        assert(avg_bits >= v ==> p <= r) by {
            if avg_bits >= v && p > r {
                assert(s[r].1 >= avg_bits);
                assert(s[r].1 < v);
            }
        }
        assert forall|i: int| 0 <= i < q implies t[i].1 >= v by {
            if i > p {
                assert(s[i - 1].1 >= v);
            } else if i < p {
                assert(s[i].1 >= avg_bits);
                assert(avg_bits >= v || i < r);
            }
        }
        assert forall|i: int| q <= i < 100 implies t[i].1 < v by {
            if i > p {
                assert(i - 1 >= r);
                assert(s[i - 1].1 < v);
            } else if i < p {
                assert(s[i].1 < v);
            }
        }
        lemma_rank_is(t, v, q);
    } else {
        if counts(avg_bits, v) == 1 {
            assert(s[99].1 >= v);
            assert(r == 100) by {
                if r < 100 {
                    assert(s[99].1 < v);
                }
            }
        }
    }
}

/// Dropping the last slot of a descending sequence lowers the count of
/// averages of at least `v` by one exactly if that slot was one of them.
pub proof fn lemma_rank_drop_last(b: Seq<(u128, u32)>, v: int)
    requires
        descending(b),
        b.len() > 0,
        b.last().1 <= MAX_AVG_BITS,
    ensures
        descending(b.drop_last()),
        rank(b, v) == rank(b.drop_last(), v) + counts(b.last().1, v),
{
    let t = b.drop_last();
    assert(descending(t)) by {
        assert forall|i: int, j: int| 0 <= i <= j < t.len() implies t[i].1 >= t[j].1 by {
            assert(t[i] == b[i] && t[j] == b[j]);
        }
    }
    if b.last().1 >= v {
        assert forall|i: int| 0 <= i < t.len() implies t[i].1 >= v by {
            assert(t[i] == b[i]);
            assert(b[i].1 >= b[b.len() - 1].1);
        }
        lemma_rank_is(t, v, t.len() as int);
    }
}

/// After a merge, the count of averages of at least `v` is the sum of the two
/// counts, up to the hundred slots there are.
pub proof fn lemma_rank_offered_all(a: Seq<(u128, u32)>, b: Seq<(u128, u32)>, v: int)
    requires
        well_formed(a),
        descending(b),
        forall|i: int| 0 <= i < b.len() ==> b[i].1 <= MAX_AVG_BITS,
    ensures
        rank(offered_all(a, b), v) == capped(rank(a, v) + rank(b, v)),
    decreases b.len(),
{
    lemma_rank_splits(a, v);
    if b.len() > 0 {
        let t = b.drop_last();
        lemma_rank_drop_last(b, v);
        assert forall|i: int| 0 <= i < t.len() implies t[i].1 <= MAX_AVG_BITS by {
            assert(t[i] == b[i]);
        }
        lemma_rank_offered_all(a, t, v);
        lemma_offered_all_well_formed(a, t);
        lemma_rank_offered(offered_all(a, t), b.last().0, b.last().1, v);
        lemma_rank_splits(t, v);
    }
}

/// Two descending sequences of one length that agree on every count hold the
/// same averages.
pub proof fn lemma_equal_ranks_equal_averages(s: Seq<(u128, u32)>, t: Seq<(u128, u32)>)
    requires
        descending(s),
        descending(t),
        s.len() == t.len(),
        forall|v: int| rank(s, v) == rank(t, v),
    ensures
        averages(s) == averages(t),
{
    assert forall|i: int| 0 <= i < s.len() implies s[i].1 == t[i].1 by {
        let x = s[i].1 as int;
        let y = t[i].1 as int;
        lemma_rank_splits(s, x);
        lemma_rank_splits(t, x);
        lemma_rank_splits(s, y);
        lemma_rank_splits(t, y);
        assert(rank(s, x) == rank(t, x));
        assert(rank(s, y) == rank(t, y));
    }
    assert(averages(s) =~= averages(t));
}

/// Merging is commutative in the averages: whichever of two leaderboards is
/// merged into the other, the same hundred averages come out in the same
/// order. Only sessions that tie may stand in another order.
pub proof fn lemma_merge_commutes(a: Seq<(u128, u32)>, b: Seq<(u128, u32)>)
    requires
        well_formed(a),
        well_formed(b),
    ensures
        averages(offered_all(a, b)) == averages(offered_all(b, a)),
{
    let ab = offered_all(a, b);
    let ba = offered_all(b, a);
    lemma_offered_all_well_formed(a, b);
    lemma_offered_all_well_formed(b, a);
    assert forall|v: int| rank(ab, v) == rank(ba, v) by {
        lemma_rank_offered_all(a, b, v);
        lemma_rank_offered_all(b, a, v);
    }
    lemma_equal_ranks_equal_averages(ab, ba);
}

/// Whatever run of session averages is offered, every leaderboard that comes
/// out is well formed: its averages never grow from one slot to the next.
pub proof fn lemma_extracted_well_formed(averages: Seq<SessionCameraAverage>)
    ensures
        boards_well_formed(extracted(averages)),
    decreases averages.len(),
{
    if averages.len() > 0 {
        let a = averages.last();
        let prev = extracted(averages.drop_last());
        lemma_extracted_well_formed(averages.drop_last());
        let board = board_of(prev, a.camera_id);
        assert(well_formed(board)) by {
            if prev.contains_key(a.camera_id) {
                assert(well_formed(prev[a.camera_id]));
            }
        }
        lemma_offered_well_formed(board, a.session_id, a.avg_bits);
        let next = with_average(prev, a.camera_id, a.session_id, a.avg_bits);
        assert forall|k: u8| next.contains_key(k) implies well_formed(#[trigger] next[k]) by {
            if k != a.camera_id {
                assert(well_formed(prev[k]));
            }
        }
    }
}

/// Every slot of a camera's leaderboard is empty or holds a session and an
/// average that were offered together for that very camera.
pub proof fn lemma_extracted_sources(averages: Seq<SessionCameraAverage>, camera: u8, i: int)
    requires
        extracted(averages).contains_key(camera),
        0 <= i < 100,
    ensures
        extracted(averages)[camera][i] == empty_slot() || exists|j: int|
            0 <= j < averages.len() && #[trigger] averages[j] == (SessionCameraAverage {
                session_id: extracted(averages)[camera][i].0,
                camera_id: camera,
                avg_bits: extracted(averages)[camera][i].1,
            }),
    decreases averages.len(),
{
    if averages.len() > 0 {
        let a = averages.last();
        let rest = averages.drop_last();
        let prev = extracted(rest);
        let slot = extracted(averages)[camera][i];
        lemma_extracted_well_formed(rest);
        if camera == a.camera_id {
            let board = board_of(prev, camera);
            assert(well_formed(board)) by {
                if prev.contains_key(camera) {
                    assert(well_formed(prev[camera]));
                }
            }
            lemma_offered_sources(board, a.session_id, a.avg_bits, i);
            if slot == (a.session_id, a.avg_bits) {
                assert(averages[averages.len() - 1] == a);
            } else {
                let j = choose|j: int| 0 <= j < 100 && board[j] == slot;
                if prev.contains_key(camera) {
                    lemma_extracted_sources(rest, camera, j);
                    if slot != empty_slot() {
                        let k = choose|k: int|
                            0 <= k < rest.len() && #[trigger] rest[k] == (SessionCameraAverage {
                                session_id: slot.0,
                                camera_id: camera,
                                avg_bits: slot.1,
                            });
                        assert(averages[k] == rest[k]);
                    }
                }
            }
        } else {
            assert(prev.contains_key(camera));
            lemma_extracted_sources(rest, camera, i);
            if slot != empty_slot() {
                let k = choose|k: int|
                    0 <= k < rest.len() && #[trigger] rest[k] == (SessionCameraAverage {
                        session_id: slot.0,
                        camera_id: camera,
                        avg_bits: slot.1,
                    });
                assert(averages[k] == rest[k]);
            }
        }
    }
}

/// Every slot of a merged mapping was a slot of the same camera in one of the
/// two mappings that were merged.
pub proof fn lemma_merged_mappings_sources(
    a: Map<u8, Seq<(u128, u32)>>,
    b: Map<u8, Seq<(u128, u32)>>,
    camera: u8,
    i: int,
)
    requires
        boards_well_formed(a),
        boards_well_formed(b),
        merged_mappings(a, b).contains_key(camera),
        0 <= i < 100,
    ensures
        (a.contains_key(camera) && exists|j: int|
            0 <= j < 100 && a[camera][j] == merged_mappings(a, b)[camera][i]) || (b.contains_key(
            camera,
        ) && exists|j: int| 0 <= j < 100 && b[camera][j] == merged_mappings(a, b)[camera][i]),
{
    if a.contains_key(camera) {
        assert(well_formed(a[camera]));
        if b.contains_key(camera) {
            assert(well_formed(b[camera]));
            lemma_offered_all_sources(a[camera], b[camera], i);
        } else {
            assert(a[camera][i] == merged_mappings(a, b)[camera][i]);
        }
    } else {
        assert(well_formed(b[camera]));
        assert(b[camera][i] == merged_mappings(a, b)[camera][i]);
    }
}

/// Merging the leaderboards of two days is commutative in the averages:
/// whichever day is merged into the other, the same cameras come out, each
/// with the same hundred averages in the same order.
pub proof fn lemma_merged_mappings_commute(
    a: Map<u8, Seq<(u128, u32)>>,
    b: Map<u8, Seq<(u128, u32)>>,
    camera: u8,
)
    requires
        boards_well_formed(a),
        boards_well_formed(b),
    ensures
        merged_mappings(a, b).contains_key(camera) <==> merged_mappings(b, a).contains_key(
            camera,
        ),
        merged_mappings(a, b).contains_key(camera) ==> averages(merged_mappings(a, b)[camera])
            == averages(merged_mappings(b, a)[camera]),
{
    if a.contains_key(camera) && b.contains_key(camera) {
        assert(well_formed(a[camera]));
        assert(well_formed(b[camera]));
        lemma_merge_commutes(a[camera], b[camera]);
    }
}

/// Whether the leaderboard accounts for a session with its average: the
/// session stands on it with that average, or every slot holds an average
/// that is at least as large.
pub open spec fn accounts_for(board: Seq<(u128, u32)>, session: u128, avg_bits: u32) -> bool {
    (exists|j: int| 0 <= j < 100 && #[trigger] board[j] == (session, avg_bits)) || forall|j: int|
        0 <= j < 100 ==> (#[trigger] board[j]).1 >= avg_bits
}

/// What a leaderboard accounts for, it accounts for after any offer, and it
/// accounts for what was offered.
pub proof fn lemma_offered_accounts(
    s: Seq<(u128, u32)>,
    session: u128,
    avg_bits: u32,
    other_session: u128,
    other_avg: u32,
)
    requires
        well_formed(s),
        avg_bits <= MAX_AVG_BITS,
    ensures
        accounts_for(offered(s, session, avg_bits), session, avg_bits),
        accounts_for(s, other_session, other_avg) ==> accounts_for(
            offered(s, session, avg_bits),
            other_session,
            other_avg,
        ),
{
    let t = offered(s, session, avg_bits);
    if improves(s, avg_bits) {
        lemma_inserted_well_formed(s, session, avg_bits);
        lemma_rank_splits(s, avg_bits as int);
        let p = rank(s, avg_bits as int);
        assert forall|i: int| 0 <= i < 100 implies #[trigger] t[i] == (if i < p {
            s[i]
        } else if i == p {
            (session, avg_bits)
        } else {
            s[i - 1]
        }) by {}
        assert(t[p] == (session, avg_bits));
        if accounts_for(s, other_session, other_avg) {
            if exists|j: int| 0 <= j < 100 && #[trigger] s[j] == (other_session, other_avg) {
                let j = choose|j: int| 0 <= j < 100 && #[trigger] s[j] == (other_session, other_avg);
                if j < p {
                    assert(t[j] == (other_session, other_avg));
                } else if j < 99 {
                    assert(t[j + 1] == (other_session, other_avg));
                } else {
                    assert forall|k: int| 0 <= k < 100 implies (#[trigger] t[k]).1 >= other_avg by {
                        if k < p {
                            assert(s[k].1 >= s[99].1);
                        } else if k > p {
                            assert(s[k - 1].1 >= s[99].1);
                        }
                    }
                }
            } else {
                assert forall|k: int| 0 <= k < 100 implies (#[trigger] t[k]).1 >= other_avg by {
                    assert(s[99].1 >= other_avg);
                    if k < p {
                        assert(s[k].1 >= other_avg);
                    } else if k > p {
                        assert(s[k - 1].1 >= other_avg);
                    }
                }
            }
        }
    } else {
        assert forall|k: int| 0 <= k < 100 implies (#[trigger] t[k]).1 >= avg_bits by {
            assert(s[k].1 >= s[99].1);
        }
    }
}

/// The leaderboard of a camera holds the hundred best of the session
/// averages that were offered for the camera: each of them stands on it, or
/// a hundred that are at least as large do.
pub proof fn lemma_extracted_holds_the_best(averages: Seq<SessionCameraAverage>, i: int)
    requires
        0 <= i < averages.len(),
        forall|k: int| 0 <= k < averages.len() ==> (#[trigger] averages[k]).avg_bits <= MAX_AVG_BITS,
    ensures
        extracted(averages).contains_key(averages[i].camera_id),
        accounts_for(
            extracted(averages)[averages[i].camera_id],
            averages[i].session_id,
            averages[i].avg_bits,
        ),
    decreases averages.len(),
{
    let rest = averages.drop_last();
    let x = averages.last();
    let prev = extracted(rest);
    lemma_extracted_well_formed(rest);
    let board = board_of(prev, x.camera_id);
    assert(well_formed(board)) by {
        if prev.contains_key(x.camera_id) {
            assert(well_formed(prev[x.camera_id]));
        }
    }
    assert(averages[averages.len() - 1] == x);
    if i == averages.len() - 1 {
        lemma_offered_accounts(board, x.session_id, x.avg_bits, x.session_id, x.avg_bits);
    } else {
        assert(rest[i] == averages[i]);
        assert forall|k: int| 0 <= k < rest.len() implies (#[trigger] rest[k]).avg_bits
            <= MAX_AVG_BITS by {
            assert(rest[k] == averages[k]);
        }
        lemma_extracted_holds_the_best(rest, i);
        if averages[i].camera_id == x.camera_id {
            lemma_offered_accounts(
                board,
                x.session_id,
                x.avg_bits,
                averages[i].session_id,
                averages[i].avg_bits,
            );
        }
    }
}

} // verus!
