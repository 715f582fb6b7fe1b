//! What holds of the keys of the user pipeline and of a user's leaderboard.

use crate::key_bytes::{
    be_bytes, be_value, lemma_be_bytes, lemma_be_value_concat, lemma_lex_is_value_order,
    lemma_pow256_16, lex_less, pow256,
};
use crate::record::UserSessionRecord;
use crate::user_sorting::{
    capped, is_summary, lemma_summary_unique, lemma_total_absent, occurs, strictly_ascending,
    total,
};
use crate::user_top::{
    better, empty_slot, empty_slots, filled, improves, lemma_filled_splits, lemma_inserted_well_formed,
    lemma_rank_splits, may_precede, offered, rank, set_key, set_keys, well_formed,
};
use vstd::prelude::*;

verus! {

/// The key of a user in a session, under which the pictures of a batch are
/// summed: the user, then the session.
pub open spec fn batch_key(user: u128, session: u128) -> Seq<u8> {
    be_bytes(user) + be_bytes(session)
}

/// Batch keys have thirty-two bytes and stand in the order of user, then
/// session. Different pairs have different keys.
pub proof fn lemma_batch_key_order(u1: u128, s1: u128, u2: u128, s2: u128)
    ensures
        batch_key(u1, s1).len() == 32,
        batch_key(u1, s1).subrange(0, 16) == be_bytes(u1),
        batch_key(u1, s1).subrange(16, 32) == be_bytes(s1),
        lex_less(batch_key(u1, s1), batch_key(u2, s2)) <==> (u1 < u2 || (u1 == u2 && s1 < s2)),
        batch_key(u1, s1) == batch_key(u2, s2) <==> (u1 == u2 && s1 == s2),
{
    lemma_be_bytes(u1, u2);
    lemma_be_bytes(s1, s2);
    lemma_be_bytes(u2, u1);
    lemma_be_bytes(s2, s1);
    lemma_pow256_16();
    let k1 = batch_key(u1, s1);
    let k2 = batch_key(u2, s2);
    lemma_be_value_concat(be_bytes(u1), be_bytes(s1));
    lemma_be_value_concat(be_bytes(u2), be_bytes(s2));
    lemma_lex_is_value_order(k1, k2);
    assert(k1.subrange(0, 16) =~= be_bytes(u1));
    assert(k1.subrange(16, 32) =~= be_bytes(s1));
    let p = pow256(16) as int;
    assert(be_value(k1) == u1 * p + s1);
    assert(be_value(k2) == u2 * p + s2);
    assert(u1 * p + s1 < u2 * p + s2 <==> (u1 < u2 || (u1 == u2 && s1 < s2))) by (nonlinear_arith)
        requires
            0 <= s1 < p,
            0 <= s2 < p,
    ;
    assert(u1 * p + s1 == u2 * p + s2 <==> (u1 == u2 && s1 == s2)) by (nonlinear_arith)
        requires
            0 <= s1 < p,
            0 <= s2 < p,
    ;
}

/// The shape of a stored key: thirty-three bytes, the user in the first
/// sixteen, then 255 less the sum, then the session.
pub proof fn lemma_set_key_shape(user: u128, sum: u8, session: u128)
    ensures
        set_key(user, sum, session).len() == 33,
        set_key(user, sum, session).subrange(0, 16) == be_bytes(user),
        set_key(user, sum, session)[16] == 255 - sum,
        set_key(user, sum, session).subrange(17, 33) == be_bytes(session),
{
    lemma_be_bytes(user, session);
    lemma_be_bytes(session, user);
    let k = set_key(user, sum, session);
    assert(k.subrange(0, 16) =~= be_bytes(user));
    assert(k.subrange(17, 33) =~= be_bytes(session));
}

/// Stored keys stand in the order of user ascending, then sum descending,
/// then session ascending. Different triples have different keys.
pub proof fn lemma_set_key_order(u1: u128, m1: u8, s1: u128, u2: u128, m2: u8, s2: u128)
    ensures
        lex_less(set_key(u1, m1, s1), set_key(u2, m2, s2)) <==> (u1 < u2 || (u1 == u2 && (m1 > m2
            || (m1 == m2 && s1 < s2)))),
        set_key(u1, m1, s1) == set_key(u2, m2, s2) <==> (u1 == u2 && m1 == m2 && s1 == s2),
{
    lemma_be_bytes(u1, u2);
    lemma_be_bytes(s1, s2);
    lemma_be_bytes(u2, u1);
    lemma_be_bytes(s2, s1);
    lemma_pow256_16();
    let k1 = set_key(u1, m1, s1);
    let k2 = set_key(u2, m2, s2);
    let h1 = be_bytes(u1).push((255 - m1) as u8);
    let h2 = be_bytes(u2).push((255 - m2) as u8);
    assert(h1.drop_last() =~= be_bytes(u1));
    assert(h2.drop_last() =~= be_bytes(u2));
    lemma_be_value_concat(h1, be_bytes(s1));
    lemma_be_value_concat(h2, be_bytes(s2));
    lemma_lex_is_value_order(k1, k2);
    let p = pow256(16) as int;
    let a1 = u1 * 256 + (255 - m1);
    let a2 = u2 * 256 + (255 - m2);
    assert(be_value(h1) == a1);
    assert(be_value(h2) == a2);
    assert(be_value(k1) == a1 * p + s1);
    assert(be_value(k2) == a2 * p + s2);
    assert(a1 * p + s1 < a2 * p + s2 <==> (a1 < a2 || (a1 == a2 && s1 < s2))) by (nonlinear_arith)
        requires
            0 <= s1 < p,
            0 <= s2 < p,
    ;
    assert(a1 * p + s1 == a2 * p + s2 <==> (a1 == a2 && s1 == s2)) by (nonlinear_arith)
        requires
            0 <= s1 < p,
            0 <= s2 < p,
    ;
}

/// The keys of a leaderboard: one for each filled slot, its seventeenth byte
/// 255 less the sum of the slot, and no key comes before a key of an earlier
/// slot.
pub proof fn lemma_set_keys_ascend(user: u128, s: Seq<(u128, i16)>)
    requires
        well_formed(s),
    ensures
        set_keys(user, s).len() == filled(s),
        forall|i: int|
            0 <= i < filled(s) ==> (#[trigger] set_keys(user, s)[i]).len() == 33 && set_keys(
                user,
                s,
            )[i][16] == 255 - s[i].1 && set_keys(user, s)[i].subrange(0, 16) == be_bytes(user),
        forall|i: int, j: int|
            0 <= i <= j < filled(s) ==> !lex_less(
                #[trigger] set_keys(user, s)[j],
                #[trigger] set_keys(user, s)[i],
            ),
{
    lemma_filled_splits(s);
    let keys = set_keys(user, s);
    assert forall|i: int| 0 <= i < filled(s) implies (#[trigger] keys[i]).len() == 33
        && keys[i][16] == 255 - s[i].1 && keys[i].subrange(0, 16) == be_bytes(user) by {
        lemma_set_key_shape(user, s[i].1 as u8, s[i].0);
    }
    assert forall|i: int, j: int| 0 <= i <= j < filled(s) implies !lex_less(
        #[trigger] keys[j],
        #[trigger] keys[i],
    ) by {
        assert(may_precede(s[i], s[j]));
        lemma_set_key_order(user, s[j].1 as u8, s[j].0, user, s[i].1 as u8, s[i].0);
    }
}

/// The pictures of a key in two runs of rows, one after the other, are those
/// of the one and those of the other.
pub proof fn lemma_total_concat(
    a: Seq<(UserSessionRecord, u8)>,
    b: Seq<(UserSessionRecord, u8)>,
    k: UserSessionRecord,
)
    ensures
        total(a + b, k) == total(a, k) + total(b, k),
    decreases b.len(),
{
    if b.len() == 0 {
        assert(a + b =~= a);
    } else {
        lemma_total_concat(a, b.drop_last(), k);
        assert((a + b).drop_last() =~= a + b.drop_last());
        assert((a + b).last() == b.last());
    }
}

/// In rows of strictly ascending keys, the pictures of a key are those of its
/// one row.
pub proof fn lemma_total_of_row(r: Seq<(UserSessionRecord, u8)>, i: int)
    requires
        strictly_ascending(r),
        0 <= i < r.len(),
    ensures
        total(r, r[i].0) == r[i].1,
    decreases r.len(),
{
    let k = r[i].0;
    let r1 = r.drop_last();
    assert(strictly_ascending(r1)) by {
        assert forall|a: int, b: int| 0 <= a < b < r1.len() implies r1[a].0.precedes(r1[b].0) by {
            assert(r1[a] == r[a] && r1[b] == r[b]);
        }
    }
    if i == r.len() - 1 {
        assert(!occurs(r1, k)) by {
            if occurs(r1, k) {
                let j = choose|j: int| 0 <= j < r1.len() && (#[trigger] r1[j]).0 == k;
                assert(r1[j] == r[j]);
                assert(r[j].0.precedes(r[i].0));
            }
        }
        lemma_total_absent(r1, k);
    } else {
        assert(r[i].0.precedes(r[r.len() - 1].0));
        assert(r1[i] == r[i]);
        lemma_total_of_row(r1, i);
    }
}

/// Summing up is associative: what sums up the summaries of two batches, one
/// after the other, sums up the rows of the two batches, one after the other.
/// So it is what sorting and collecting all the rows at once gives.
pub proof fn lemma_summary_of_parts(
    a: Seq<(UserSessionRecord, u8)>,
    b: Seq<(UserSessionRecord, u8)>,
    ra: Seq<(UserSessionRecord, u8)>,
    rb: Seq<(UserSessionRecord, u8)>,
    r: Seq<(UserSessionRecord, u8)>,
    whole: Seq<(UserSessionRecord, u8)>,
)
    requires
        is_summary(ra, a),
        is_summary(rb, b),
        is_summary(r, ra + rb),
        is_summary(whole, a + b),
    ensures
        is_summary(r, a + b),
        r == whole,
{
    let parts = ra + rb;
    let rows = a + b;
    assert forall|i: int| 0 <= i < r.len() implies occurs(rows, (#[trigger] r[i]).0) && r[i].1
        == capped(total(rows, r[i].0)) by {
        let k = r[i].0;
        lemma_total_concat(ra, rb, k);
        lemma_total_concat(a, b, k);
        lemma_part_total(a, ra, k);
        lemma_part_total(b, rb, k);
        assert(occurs(parts, k));
        let j = choose|j: int| 0 <= j < parts.len() && (#[trigger] parts[j]).0 == k;
        if j < ra.len() {
            assert(parts[j] == ra[j]);
            assert(occurs(a, ra[j].0));
            let m = choose|m: int| 0 <= m < a.len() && (#[trigger] a[m]).0 == k;
            assert(rows[m] == a[m]);
        } else {
            assert(parts[j] == rb[j - ra.len()]);
            assert(occurs(b, rb[j - ra.len()].0));
            let m = choose|m: int| 0 <= m < b.len() && (#[trigger] b[m]).0 == k;
            assert(rows[a.len() + m] == b[m]);
        }
    }
    assert forall|j: int| 0 <= j < rows.len() implies occurs(r, (#[trigger] rows[j]).0) by {
        let k = rows[j].0;
        if j < a.len() {
            assert(rows[j] == a[j]);
            assert(occurs(ra, a[j].0));
            let m = choose|m: int| 0 <= m < ra.len() && (#[trigger] ra[m]).0 == k;
            assert(parts[m] == ra[m]);
            assert(occurs(r, parts[m].0));
        } else {
            assert(rows[j] == b[j - a.len()]);
            assert(occurs(rb, b[j - a.len()].0));
            let m = choose|m: int| 0 <= m < rb.len() && (#[trigger] rb[m]).0 == k;
            assert(parts[ra.len() + m] == rb[m]);
            assert(occurs(r, parts[ra.len() + m].0));
        }
    }
    lemma_summary_unique(r, whole, rows);
}

/// In a summary, the pictures of a key are those of the rows it sums up, as
/// far as a sum counts them.
pub proof fn lemma_part_total(
    a: Seq<(UserSessionRecord, u8)>,
    ra: Seq<(UserSessionRecord, u8)>,
    k: UserSessionRecord,
)
    requires
        is_summary(ra, a),
    ensures
        total(ra, k) == capped(total(a, k)),
{
    if occurs(ra, k) {
        let i = choose|i: int| 0 <= i < ra.len() && (#[trigger] ra[i]).0 == k;
        lemma_total_of_row(ra, i);
    } else {
        lemma_total_absent(ra, k);
        if occurs(a, k) {
            let j = choose|j: int| 0 <= j < a.len() && (#[trigger] a[j]).0 == k;
            assert(occurs(ra, a[j].0));
        }
        lemma_total_absent(a, k);
    }
}

/// The leaderboard after a run of session sums was offered to an empty one,
/// first one first.
pub open spec fn offered_run(offers: Seq<(u128, u8)>) -> Seq<(u128, i16)>
    decreases offers.len(),
{
    if offers.len() == 0 {
        empty_slots()
    } else {
        offered(offered_run(offers.drop_last()), offers.last().0, offers.last().1)
    }
}

/// The sessions of the offers ascend, as they do where the offers are read
/// from keys in ascending order.
pub open spec fn sessions_ascend(offers: Seq<(u128, u8)>) -> bool {
    forall|i: int, j: int| 0 <= i < j < offers.len() ==> offers[i].0 < offers[j].0
}

/// An offer as a slot.
pub open spec fn as_slot(offer: (u128, u8)) -> (u128, i16) {
    (offer.0, offer.1 as i16)
}

/// Whether a slot of the leaderboard holds the offer.
pub open spec fn on_board(board: Seq<(u128, i16)>, offer: (u128, u8)) -> bool {
    exists|j: int| 0 <= j < 10 && #[trigger] board[j] == as_slot(offer)
}

/// Whether the slot is one of the offers.
pub open spec fn from_offers(offers: Seq<(u128, u8)>, slot: (u128, i16)) -> bool {
    exists|i: int| 0 <= i < offers.len() && as_slot(#[trigger] offers[i]) == slot
}

/// Whether all ten slots are filled with better ones than the offer.
pub open spec fn beaten(board: Seq<(u128, i16)>, offer: (u128, u8)) -> bool {
    forall|j: int| 0 <= j < 10 ==> better(#[trigger] board[j], as_slot(offer))
}

/// What it is for a leaderboard to hold the ten best of the offers: it is
/// ordered, best first; every slot is empty or one of the offers; no filled
/// slot holds the session of another; and every offer is on the board unless
/// ten better ones are.
pub open spec fn holds_the_best(board: Seq<(u128, i16)>, offers: Seq<(u128, u8)>) -> bool {
    &&& well_formed(board)
    &&& forall|j: int|
        0 <= j < 10 ==> #[trigger] board[j] == empty_slot() || from_offers(offers, board[j])
    &&& forall|j: int, k: int|
        0 <= j < k < 10 && board[k].1 >= 0 ==> better(#[trigger] board[j], #[trigger] board[k])
    &&& forall|i: int|
        0 <= i < offers.len() ==> on_board(board, #[trigger] offers[i]) || beaten(
            board,
            offers[i],
        )
}

/// Offering the session sums of a user in ascending order of the sessions
/// leaves the ten best of them on the leaderboard: those with the largest
/// sums, and among equal sums those of the smallest sessions.
pub proof fn lemma_board_holds_the_best(offers: Seq<(u128, u8)>)
    requires
        sessions_ascend(offers),
    ensures
        holds_the_best(offered_run(offers), offers),
    decreases offers.len(),
{
    let board = offered_run(offers);
    if offers.len() == 0 {
        assert forall|j: int| 0 <= j < 10 implies #[trigger] board[j] == empty_slot() by {}
        assert(well_formed(board));
    } else {
        let o = offers.drop_last();
        let x = offers.last();
        let xs = as_slot(x);
        let b0 = offered_run(o);
        assert(sessions_ascend(o)) by {
            assert forall|i: int, j: int| 0 <= i < j < o.len() implies o[i].0 < o[j].0 by {
                assert(o[i] == offers[i] && o[j] == offers[j]);
            }
        }
        lemma_board_holds_the_best(o);
        // every filled slot so far holds a smaller session than the new offer
        assert forall|j: int| 0 <= j < 10 && b0[j].1 >= 0 implies (#[trigger] b0[j]).0 < x.0 by {
            assert(b0[j] != empty_slot());
            assert(from_offers(o, b0[j]));
            let i = choose|i: int| 0 <= i < o.len() && as_slot(#[trigger] o[i]) == b0[j];
            assert(o[i] == offers[i]);
            assert(offers[i].0 < offers[offers.len() - 1].0);
        }
        if improves(b0, x.1 as int) {
            lemma_inserted_well_formed(b0, x.0, x.1 as i16);
            lemma_rank_splits(b0, xs);
            let p = rank(b0, xs);
            assert forall|j: int| 0 <= j < 10 implies #[trigger] board[j] == (if j < p {
                b0[j]
            } else if j == p {
                xs
            } else {
                b0[j - 1]
            }) by {}
            assert forall|j: int| 0 <= j < 10 implies #[trigger] board[j] == empty_slot()
                || from_offers(offers, board[j]) by {
                let slot = board[j];
                if j == p {
                    assert(as_slot(offers[offers.len() - 1]) == slot);
                } else {
                    let src = if j < p {
                        j
                    } else {
                        j - 1
                    };
                    assert(b0[src] == slot);
                    if slot != empty_slot() {
                        assert(from_offers(o, b0[src]));
                        let i = choose|i: int| 0 <= i < o.len() && as_slot(#[trigger] o[i]) == slot;
                        assert(o[i] == offers[i]);
                    }
                }
            }
            assert forall|j: int, k: int| 0 <= j < k < 10 && board[k].1 >= 0 implies better(
                #[trigger] board[j],
                #[trigger] board[k],
            ) by {
                if k == p {
                    // the slots before the new offer may precede it and hold smaller sessions
                    assert(board[j] == b0[j]);
                    assert(may_precede(b0[j], xs));
                    assert(b0[j].1 >= 0);
                } else if j == p {
                    assert(board[k] == b0[k - 1]);
                    assert(!may_precede(b0[k - 1], xs));
                } else {
                    let sj = if j < p {
                        j
                    } else {
                        j - 1
                    };
                    let sk = if k < p {
                        k
                    } else {
                        k - 1
                    };
                    assert(board[j] == b0[sj] && board[k] == b0[sk]);
                    assert(better(b0[sj], b0[sk]));
                }
            }
            assert forall|i: int| 0 <= i < offers.len() implies on_board(
                board,
                #[trigger] offers[i],
            ) || beaten(board, offers[i]) by {
                if i == offers.len() - 1 {
                    assert(board[p] == as_slot(offers[i]));
                } else {
                    assert(o[i] == offers[i]);
                    let y = as_slot(offers[i]);
                    if on_board(b0, o[i]) {
                        let j = choose|j: int| 0 <= j < 10 && #[trigger] b0[j] == as_slot(o[i]);
                        if j < p {
                            assert(board[j] == y);
                        } else if j < 9 {
                            assert(board[j + 1] == y);
                        } else {
                            // the offer was in the last slot and is pushed out
                            assert forall|k: int| 0 <= k < 10 implies better(
                                #[trigger] board[k],
                                y,
                            ) by {
                                if k < p {
                                    assert(board[k] == b0[k]);
                                    assert(better(b0[k], b0[9]));
                                } else if k > p {
                                    assert(board[k] == b0[k - 1]);
                                    assert(better(b0[k - 1], b0[9]));
                                }
                            }
                        }
                    } else {
                        assert(beaten(b0, o[i]));
                        assert forall|k: int| 0 <= k < 10 implies better(
                            #[trigger] board[k],
                            y,
                        ) by {
                            assert(better(b0[9], y));
                            if k < p {
                                assert(board[k] == b0[k]);
                                assert(better(b0[k], y));
                            } else if k > p {
                                assert(board[k] == b0[k - 1]);
                                assert(better(b0[k - 1], y));
                            }
                        }
                    }
                }
            }
        } else {
            assert(board == b0);
            assert forall|j: int| 0 <= j < 10 implies #[trigger] board[j] == empty_slot()
                || from_offers(offers, board[j]) by {
                if board[j] != empty_slot() {
                    assert(from_offers(o, b0[j]));
                    let i = choose|i: int| 0 <= i < o.len() && as_slot(#[trigger] o[i]) == b0[j];
                    assert(o[i] == offers[i]);
                }
            }
            assert forall|i: int| 0 <= i < offers.len() implies on_board(
                board,
                #[trigger] offers[i],
            ) || beaten(board, offers[i]) by {
                if i == offers.len() - 1 {
                    assert forall|k: int| 0 <= k < 10 implies better(#[trigger] board[k], xs) by {
                        assert(may_precede(b0[k], b0[9]));
                    }
                } else {
                    assert(o[i] == offers[i]);
                }
            }
        }
    }
}

} // verus!
