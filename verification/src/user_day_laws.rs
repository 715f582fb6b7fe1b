//! What the stored summary of a day holds, said of the rows of the day: for
//! every user but the user zero, the ten best session sums of the user.

use crate::fst_bridge::{
    after_add, ascending_keys, handed_out, held_somewhere, holds_key, is_union_of, value_in,
    value_in_all, values_total,
};
use crate::key_bytes::lex_less;
use crate::record::UserSessionRecord;
use crate::user_batching::batch_entries;
use crate::user_laws::{
    batch_key, holds_the_best, lemma_batch_key_order, lemma_board_holds_the_best, lemma_part_total,
    offered_run, sessions_ascend,
};
use crate::user_pipeline::{batched, day_batches, day_contents, day_summary};
use crate::user_sorting::{
    capped, collected, is_summary, lemma_collected_summary, lemma_summary_is,
    lemma_summary_of_same_rows, lemma_total_absent, occurs, sorted_by_key, strictly_ascending,
    summary_of, total,
};
use crate::user_storing::{
    added_all, day_emitted, day_keys, day_state, day_step_keys, flushed, key_session, key_user,
    lemma_key_parts, well_keyed,
};
use crate::user_top::{empty_slots, set_keys};
use vstd::prelude::*;
use vstd::relations::total_ordering;

verus! {

/// The order that rows are sorted by to see that they have a summary: by
/// key, and rows of one key by their pictures.
pub open spec fn row_leq(a: (UserSessionRecord, u8), b: (UserSessionRecord, u8)) -> bool {
    a.0.precedes(b.0) || (a.0 == b.0 && a.1 <= b.1)
}

/// Every run of rows has a summary.
pub proof fn lemma_summary_exists(s: Seq<(UserSessionRecord, u8)>)
    ensures
        is_summary(summary_of(s), s),
{
    let leq = |a: (UserSessionRecord, u8), b: (UserSessionRecord, u8)| row_leq(a, b);
    assert(total_ordering(leq)) by {
        assert forall|a: (UserSessionRecord, u8), b: (UserSessionRecord, u8)|
            #[trigger] leq(a, b) && #[trigger] leq(b, a) implies a == b by {
            assert(a.0 == b.0);
        }
    }
    s.lemma_sort_by_ensures(leq);
    let sorted = s.sort_by(leq);
    assert(sorted_by_key(sorted)) by {
        assert forall|i: int, j: int| 0 <= i <= j < sorted.len() implies !sorted[j].0.precedes(
            sorted[i].0,
        ) by {
            if i < j {
                assert(leq(sorted[i], sorted[j]));
            }
        }
    }
    lemma_collected_summary(sorted);
    lemma_summary_of_same_rows(collected(sorted), sorted, s);
    lemma_summary_is(collected(sorted), s);
}

/// The pictures of a key in some batches, each batch counted as far as a sum
/// counts.
pub open spec fn total_in(batches: Seq<Seq<(UserSessionRecord, u8)>>, k: UserSessionRecord) -> nat
    decreases batches.len(),
{
    if batches.len() == 0 {
        0
    } else {
        total_in(batches.drop_last(), k) + total(batches.last(), k)
    }
}

/// Whether a key occurs in one of the batches.
pub open spec fn occurs_in(batches: Seq<Seq<(UserSessionRecord, u8)>>, k: UserSessionRecord) -> bool {
    exists|b: int| 0 <= b < batches.len() && occurs(#[trigger] batches[b], k)
}

/// Whether every batch is the summary of some rows.
pub open spec fn all_summaries(batches: Seq<Seq<(UserSessionRecord, u8)>>) -> bool {
    forall|b: int| 0 <= b < batches.len() ==> strictly_ascending(#[trigger] batches[b])
}

/// Sums that stop at 255 may be stopped before they are added.
pub proof fn lemma_capped_sum(a: nat, b: nat)
    ensures
        capped(capped(a) as nat + b) == capped(a + b),
{
}

/// Pushing a batch adds its pictures and its keys.
pub proof fn lemma_total_in_push(
    batches: Seq<Seq<(UserSessionRecord, u8)>>,
    batch: Seq<(UserSessionRecord, u8)>,
    k: UserSessionRecord,
)
    ensures
        total_in(batches.push(batch), k) == total_in(batches, k) + total(batch, k),
        occurs_in(batches.push(batch), k) <==> occurs_in(batches, k) || occurs(batch, k),
{
    let all = batches.push(batch);
    assert(all.drop_last() =~= batches);
    if occurs_in(all, k) {
        let b = choose|b: int| 0 <= b < all.len() && occurs(#[trigger] all[b], k);
        if b < batches.len() {
            assert(all[b] == batches[b]);
        }
    }
    if occurs_in(batches, k) {
        let b = choose|b: int| 0 <= b < batches.len() && occurs(#[trigger] batches[b], k);
        assert(all[b] == batches[b]);
    }
    if occurs(batch, k) {
        assert(all[batches.len() as int] == batch);
    }
}

/// A key occurs in rows with one more row if it is the key of that row or
/// occurs in the rows.
pub proof fn lemma_occurs_push(
    s: Seq<(UserSessionRecord, u8)>,
    x: (UserSessionRecord, u8),
    k: UserSessionRecord,
)
    ensures
        occurs(s.push(x), k) <==> occurs(s, k) || x.0 == k,
        total(s.push(x), k) == total(s, k) + if x.0 == k {
            x.1 as nat
        } else {
            0
        },
{
    let t = s.push(x);
    assert(t.drop_last() =~= s);
    if occurs(t, k) {
        let i = choose|i: int| 0 <= i < t.len() && (#[trigger] t[i]).0 == k;
        if i < s.len() {
            assert(s[i] == t[i]);
        }
    }
    if occurs(s, k) {
        let i = choose|i: int| 0 <= i < s.len() && (#[trigger] s[i]).0 == k;
        assert(t[i] == s[i]);
    }
    if x.0 == k {
        assert(t[s.len() as int] == x);
    }
}

/// A key occurs in a summary if it occurs in the rows.
pub proof fn lemma_summary_occurs(
    r: Seq<(UserSessionRecord, u8)>,
    s: Seq<(UserSessionRecord, u8)>,
    k: UserSessionRecord,
)
    requires
        is_summary(r, s),
    ensures
        occurs(r, k) <==> occurs(s, k),
{
    if occurs(r, k) {
        let i = choose|i: int| 0 <= i < r.len() && (#[trigger] r[i]).0 == k;
        assert(occurs(s, r[i].0));
    }
    if occurs(s, k) {
        let j = choose|j: int| 0 <= j < s.len() && (#[trigger] s[j]).0 == k;
        assert(occurs(r, s[j].0));
    }
}

/// What the batcher holds stands for the rows it has taken: a key occurs in
/// what it holds if it occurs in the rows, with the pictures it has in the
/// rows, as far as a sum counts them. And every batch it has written out is
/// a summary.
pub proof fn lemma_batched(
    pairs: Seq<(UserSessionRecord, u8)>,
    capacity: usize,
    threshold: usize,
    k: UserSessionRecord,
)
    ensures
        all_summaries(batched(pairs, capacity, threshold).1),
        occurs(pairs, k) <==> occurs(batched(pairs, capacity, threshold).0, k) || occurs_in(
            batched(pairs, capacity, threshold).1,
            k,
        ),
        capped(
            total(batched(pairs, capacity, threshold).0, k) + total_in(
                batched(pairs, capacity, threshold).1,
                k,
            ),
        ) == capped(total(pairs, k)),
    decreases pairs.len(),
{
    if pairs.len() > 0 {
        let rest = pairs.drop_last();
        let x = pairs.last();
        lemma_batched(rest, capacity, threshold, k);
        let state = batched(rest, capacity, threshold);
        let next = batched(pairs, capacity, threshold);
        assert(pairs =~= rest.push(x));
        lemma_occurs_push(rest, x, k);
        let add = if x.0 == k {
            x.1 as nat
        } else {
            0
        };
        if state.0.len() < capacity {
            lemma_occurs_push(state.0, x, k);
        } else {
            let summary = summary_of(state.0);
            lemma_summary_exists(state.0);
            lemma_part_total(state.0, summary, k);
            lemma_summary_occurs(summary, state.0, k);
            let tp = total(state.0, k);
            let ts = total_in(state.1, k);
            if summary.len() < threshold {
                lemma_occurs_push(summary, x, k);
                lemma_capped_sum(tp, ts + add);
            } else {
                lemma_occurs_push(Seq::empty(), x, k);
                assert(seq![x] =~= Seq::<(UserSessionRecord, u8)>::empty().push(x));
                lemma_total_in_push(state.1, summary, k);
                lemma_capped_sum(tp, ts + add);
                assert forall|b: int| 0 <= b < next.1.len() implies strictly_ascending(
                    #[trigger] next.1[b],
                ) by {
                    if b < state.1.len() {
                        assert(next.1[b] == state.1[b]);
                    }
                }
            }
        }
    }
}

/// The batches of a day stand for the rows of the day: each batch is a
/// summary, a key occurs in a batch if it occurs in the rows, and the
/// pictures it has in all batches are those it has in the rows, as far as a
/// sum counts them.
pub proof fn lemma_day_batches(
    pairs: Seq<(UserSessionRecord, u8)>,
    capacity: usize,
    threshold: usize,
    k: UserSessionRecord,
)
    ensures
        all_summaries(day_batches(pairs, capacity, threshold)),
        occurs(pairs, k) <==> occurs_in(day_batches(pairs, capacity, threshold), k),
        capped(total_in(day_batches(pairs, capacity, threshold), k)) == capped(total(pairs, k)),
{
    lemma_batched(pairs, capacity, threshold, k);
    let state = batched(pairs, capacity, threshold);
    let batches = day_batches(pairs, capacity, threshold);
    if state.0.len() > 0 {
        let summary = summary_of(state.0);
        lemma_summary_exists(state.0);
        lemma_part_total(state.0, summary, k);
        lemma_summary_occurs(summary, state.0, k);
        lemma_total_in_push(state.1, summary, k);
        lemma_capped_sum(total(state.0, k), total_in(state.1, k));
        assert forall|b: int| 0 <= b < batches.len() implies strictly_ascending(
            #[trigger] batches[b],
        ) by {
            if b < state.1.len() {
                assert(batches[b] == state.1[b]);
            }
        }
    } else {
        assert(!occurs(state.0, k));
        lemma_total_absent(state.0, k);
    }
}

/// The user and the session of a key.
pub open spec fn key_record(key: Seq<u8>) -> UserSessionRecord {
    UserSessionRecord { user_id: key_user(key), session_id: key_session(key) }
}

/// What the union hands out, as rows: the user and the session of each key
/// with the sum of its values, which stops at 255.
pub open spec fn item_rows(items: Seq<(Seq<u8>, Seq<u64>)>) -> Seq<(UserSessionRecord, u8)> {
    Seq::new(items.len(), |i: int| (key_record(items[i].0), capped(values_total(items[i].1))))
}

/// The key of a user and a session is read back as that user and session.
pub proof fn lemma_key_record(k: UserSessionRecord)
    ensures
        key_record(batch_key(k.user_id, k.session_id)) == k,
        batch_key(k.user_id, k.session_id).len() == 32,
{
    lemma_batch_key_order(k.user_id, k.session_id, k.user_id, k.session_id);
    crate::key_bytes::lemma_be_bytes(k.user_id, k.session_id);
    crate::key_bytes::lemma_be_bytes(k.session_id, k.user_id);
}

/// In a batch that is a summary, the value of a key is the pictures of its
/// one row.
pub proof fn lemma_value_in_batch(batch: Seq<(UserSessionRecord, u8)>, k: UserSessionRecord)
    requires
        strictly_ascending(batch),
    ensures
        value_in(batch_entries(batch), batch_key(k.user_id, k.session_id)) == total(batch, k),
        holds_key(batch_entries(batch), batch_key(k.user_id, k.session_id)) <==> occurs(batch, k),
    decreases batch.len(),
{
    let entries = batch_entries(batch);
    let key = batch_key(k.user_id, k.session_id);
    if batch.len() > 0 {
        let rest = batch.drop_last();
        let x = batch.last();
        assert(strictly_ascending(rest)) by {
            assert forall|a: int, b: int| 0 <= a < b < rest.len() implies rest[a].0.precedes(
                rest[b].0,
            ) by {
                assert(rest[a] == batch[a] && rest[b] == batch[b]);
            }
        }
        lemma_value_in_batch(rest, k);
        assert(entries.drop_last() =~= batch_entries(rest));
        lemma_batch_key_order(x.0.user_id, x.0.session_id, k.user_id, k.session_id);
        assert(entries.last().0 == batch_key(x.0.user_id, x.0.session_id));
        if x.0 == k {
            assert(!occurs(rest, k)) by {
                if occurs(rest, k) {
                    let i = choose|i: int| 0 <= i < rest.len() && (#[trigger] rest[i]).0 == k;
                    assert(batch[i].0.precedes(batch[batch.len() - 1].0));
                }
            }
            lemma_total_absent(rest, k);
            assert(batch[batch.len() - 1].0 == k);
            assert(entries[entries.len() - 1].0 == key);
        } else {
            if occurs(batch, k) {
                let i = choose|i: int| 0 <= i < batch.len() && (#[trigger] batch[i]).0 == k;
                assert(rest[i] == batch[i]);
                assert(occurs(rest, k));
                let q = choose|q: int|
                    0 <= q < batch_entries(rest).len() && (#[trigger] batch_entries(rest)[q]).0
                        == key;
                assert(entries[q].0 == key);
            }
            if holds_key(entries, key) {
                let q = choose|q: int| 0 <= q < entries.len() && (#[trigger] entries[q]).0 == key;
                assert(q < rest.len());
                assert(batch_entries(rest)[q].0 == key);
                assert(holds_key(batch_entries(rest), key));
                let i = choose|i: int| 0 <= i < rest.len() && (#[trigger] rest[i]).0 == k;
                assert(batch[i] == rest[i]);
            }
        }
    } else {
        assert(!holds_key(entries, key));
    }
}

/// In batches that are summaries, the values of a key add up to its
/// pictures, and a batch holds the key if the key occurs in it.
pub proof fn lemma_value_in_batches(
    batches: Seq<Seq<(UserSessionRecord, u8)>>,
    contents: Seq<Seq<(Seq<u8>, u64)>>,
    k: UserSessionRecord,
)
    requires
        all_summaries(batches),
        contents.len() == batches.len(),
        forall|p: int| 0 <= p < contents.len() ==> #[trigger] contents[p] == batch_entries(batches[p]),
    ensures
        value_in_all(contents, batch_key(k.user_id, k.session_id)) == total_in(batches, k),
        held_somewhere(contents, batch_key(k.user_id, k.session_id)) <==> occurs_in(batches, k),
    decreases batches.len(),
{
    let key = batch_key(k.user_id, k.session_id);
    if batches.len() > 0 {
        let n = batches.len() - 1;
        let b0 = batches.drop_last();
        let c0 = contents.drop_last();
        assert forall|p: int| 0 <= p < c0.len() implies #[trigger] c0[p] == batch_entries(b0[p]) by {
            assert(c0[p] == contents[p]);
            assert(b0[p] == batches[p]);
        }
        assert(all_summaries(b0)) by {
            assert forall|b: int| 0 <= b < b0.len() implies strictly_ascending(#[trigger] b0[b]) by {
                assert(b0[b] == batches[b]);
            }
        }
        lemma_value_in_batches(b0, c0, k);
        assert(strictly_ascending(batches[n]));
        lemma_value_in_batch(batches[n], k);
        assert(contents[n] == batch_entries(batches[n]));
        assert(contents.last() == contents[n]);
        assert(batches.last() == batches[n]);
        if held_somewhere(contents, key) {
            let p = choose|p: int| 0 <= p < contents.len() && holds_key(#[trigger] contents[p], key);
            if p < n {
                assert(c0[p] == contents[p]);
                assert(held_somewhere(c0, key));
                let b = choose|b: int| 0 <= b < b0.len() && occurs(#[trigger] b0[b], k);
                assert(batches[b] == b0[b]);
            } else {
                assert(occurs(batches[n], k));
            }
        }
        if occurs_in(batches, k) {
            let b = choose|b: int| 0 <= b < batches.len() && occurs(#[trigger] batches[b], k);
            if b < n {
                assert(b0[b] == batches[b]);
                assert(occurs_in(b0, k));
                let p = choose|p: int| 0 <= p < c0.len() && holds_key(#[trigger] c0[p], key);
                assert(contents[p] == c0[p]);
            } else {
                assert(holds_key(contents[n], key));
            }
        }
    }
}

/// What the union of the batches of a day hands out is the summary of the
/// rows of the day: one key for each user in a session, with the pictures
/// that the user took in the session, as far as a sum counts them.
pub proof fn lemma_items_sum_up_the_day(
    items: Seq<(Seq<u8>, Seq<u64>)>,
    pairs: Seq<(UserSessionRecord, u8)>,
    capacity: usize,
    threshold: usize,
)
    requires
        is_union_of(items, day_contents(pairs, capacity, threshold)),
    ensures
        well_keyed(items),
        ascending_keys(items),
        is_summary(item_rows(items), pairs),
        item_rows(items) == summary_of(pairs),
{
    reveal(is_union_of);
    let batches = day_batches(pairs, capacity, threshold);
    let contents = day_contents(pairs, capacity, threshold);
    let rows = item_rows(items);
    crate::user_pipeline::lemma_batches_well_keyed(items, batches, contents);
    assert forall|i: int, j: int| 0 <= i < j < rows.len() implies rows[i].0.precedes(
        rows[j].0,
    ) by {
        assert(lex_less(items[i].0, items[j].0));
        lemma_key_parts(items[i].0);
        lemma_key_parts(items[j].0);
        lemma_batch_key_order(
            key_user(items[i].0),
            key_session(items[i].0),
            key_user(items[j].0),
            key_session(items[j].0),
        );
    }
    assert forall|i: int| 0 <= i < rows.len() implies occurs(pairs, (#[trigger] rows[i]).0)
        && rows[i].1 == capped(total(pairs, rows[i].0)) by {
        let k = rows[i].0;
        lemma_key_parts(items[i].0);
        lemma_day_batches(pairs, capacity, threshold, k);
        lemma_value_in_batches(batches, contents, k);
        assert(held_somewhere(contents, items[i].0));
        assert(values_total(items[i].1) == value_in_all(contents, items[i].0));
    }
    assert forall|j: int| 0 <= j < pairs.len() implies occurs(rows, (#[trigger] pairs[j]).0) by {
        let k = pairs[j].0;
        let key = batch_key(k.user_id, k.session_id);
        lemma_day_batches(pairs, capacity, threshold, k);
        lemma_value_in_batches(batches, contents, k);
        assert(occurs(pairs, k));
        assert(held_somewhere(contents, key));
        let p = choose|p: int| 0 <= p < contents.len() && holds_key(#[trigger] contents[p], key);
        let q = choose|q: int| 0 <= q < contents[p].len() && (#[trigger] contents[p][q]).0 == key;
        assert(handed_out(items, contents[p][q].0));
        let i = choose|i: int| 0 <= i < items.len() && (#[trigger] items[i]).0 == key;
        lemma_key_record(k);
        assert(rows[i].0 == k);
    }
    lemma_summary_is(rows, pairs);
}

/// The sessions of a user with their sums, in the order of the rows.
pub open spec fn user_offers(rows: Seq<(UserSessionRecord, u8)>, user: u128) -> Seq<(u128, u8)>
    decreases rows.len(),
{
    if rows.len() == 0 {
        Seq::empty()
    } else if rows.last().0.user_id == user {
        user_offers(rows.drop_last(), user).push((rows.last().0.session_id, rows.last().1))
    } else {
        user_offers(rows.drop_last(), user)
    }
}

/// The leaderboard of a user after all the sessions of the user were offered
/// to it.
pub open spec fn user_board(rows: Seq<(UserSessionRecord, u8)>, user: u128) -> Seq<(u128, i16)> {
    offered_run(user_offers(rows, user))
}

/// Whether the user has a row.
pub open spec fn has_row(rows: Seq<(UserSessionRecord, u8)>, user: u128) -> bool {
    exists|i: int| 0 <= i < rows.len() && (#[trigger] rows[i]).0.user_id == user
}

/// Whether the key is one of the keys of the leaderboard of the user, who is
/// not the user zero and has a row.
pub open spec fn stored_for(rows: Seq<(UserSessionRecord, u8)>, user: u128, key: Seq<u8>) -> bool {
    user != 0 && has_row(rows, user) && set_keys(user, user_board(rows, user)).contains(key)
}

/// Whether the key is one of the keys of the leaderboard of the user, who is
/// not the user zero, has a row and is not the user of the last row.
pub open spec fn emitted_for(rows: Seq<(UserSessionRecord, u8)>, user: u128, key: Seq<u8>) -> bool {
    stored_for(rows, user, key) && user != rows.last().0.user_id
}

/// Every offer of a user is a row of the user, and every row of the user is
/// an offer.
pub proof fn lemma_user_offers(rows: Seq<(UserSessionRecord, u8)>, user: u128)
    ensures
        forall|j: int|
            0 <= j < user_offers(rows, user).len() ==> exists|i: int|
                0 <= i < rows.len() && #[trigger] rows[i] == (
                    UserSessionRecord {
                        user_id: user,
                        session_id: (#[trigger] user_offers(rows, user)[j]).0,
                    },
                    user_offers(rows, user)[j].1,
                ),
        forall|i: int|
            0 <= i < rows.len() && (#[trigger] rows[i]).0.user_id == user ==> exists|j: int|
                0 <= j < user_offers(rows, user).len() && #[trigger] user_offers(rows, user)[j] == (
                    rows[i].0.session_id,
                    rows[i].1,
                ),
        !has_row(rows, user) ==> user_offers(rows, user).len() == 0,
    decreases rows.len(),
{
    if rows.len() > 0 {
        let rest = rows.drop_last();
        let x = rows.last();
        lemma_user_offers(rest, user);
        let offers = user_offers(rows, user);
        let before = user_offers(rest, user);
        assert forall|j: int| 0 <= j < offers.len() implies exists|i: int|
            0 <= i < rows.len() && #[trigger] rows[i] == (
                UserSessionRecord { user_id: user, session_id: (#[trigger] offers[j]).0 },
                offers[j].1,
            ) by {
            if j < before.len() {
                assert(offers[j] == before[j]);
                let i = choose|i: int|
                    0 <= i < rest.len() && #[trigger] rest[i] == (
                        UserSessionRecord { user_id: user, session_id: before[j].0 },
                        before[j].1,
                    );
                assert(rows[i] == rest[i]);
            } else {
                assert(rows[rows.len() - 1] == x);
            }
        }
        assert forall|i: int|
            0 <= i < rows.len() && (#[trigger] rows[i]).0.user_id == user implies exists|j: int|
            0 <= j < offers.len() && #[trigger] offers[j] == (rows[i].0.session_id, rows[i].1) by {
            if i < rest.len() {
                assert(rest[i] == rows[i]);
                let j = choose|j: int|
                    0 <= j < before.len() && #[trigger] before[j] == (
                        rest[i].0.session_id,
                        rest[i].1,
                    );
                assert(offers[j] == before[j]);
            } else {
                assert(offers[offers.len() - 1] == (x.0.session_id, x.1));
            }
        }
        if !has_row(rows, user) {
            assert(rows[rows.len() - 1].0.user_id != user);
            assert(!has_row(rest, user)) by {
                if has_row(rest, user) {
                    let i = choose|i: int| 0 <= i < rest.len() && (#[trigger] rest[i]).0.user_id == user;
                    assert(rows[i] == rest[i]);
                }
            }
        }
    }
}

/// In rows of strictly ascending keys, the sessions of a user ascend.
pub proof fn lemma_user_offers_ascend(rows: Seq<(UserSessionRecord, u8)>, user: u128)
    requires
        strictly_ascending(rows),
    ensures
        sessions_ascend(user_offers(rows, user)),
        rows.len() > 0 ==> forall|j: int|
            0 <= j < user_offers(rows.drop_last(), user).len() && rows.last().0.user_id == user
                ==> (#[trigger] user_offers(rows.drop_last(), user)[j]).0
                < rows.last().0.session_id,
    decreases rows.len(),
{
    if rows.len() > 0 {
        let rest = rows.drop_last();
        let x = rows.last();
        assert(strictly_ascending(rest)) by {
            assert forall|a: int, b: int| 0 <= a < b < rest.len() implies rest[a].0.precedes(
                rest[b].0,
            ) by {
                assert(rest[a] == rows[a] && rest[b] == rows[b]);
            }
        }
        lemma_user_offers_ascend(rest, user);
        lemma_user_offers(rest, user);
        let before = user_offers(rest, user);
        if x.0.user_id == user {
            assert forall|j: int| 0 <= j < before.len() implies (#[trigger] before[j]).0
                < x.0.session_id by {
                let i = choose|i: int|
                    0 <= i < rest.len() && #[trigger] rest[i] == (
                        UserSessionRecord { user_id: user, session_id: before[j].0 },
                        before[j].1,
                    );
                assert(rows[i] == rest[i]);
                assert(rows[i].0.precedes(rows[rows.len() - 1].0));
            }
            let offers = user_offers(rows, user);
            assert forall|i: int, j: int| 0 <= i < j < offers.len() implies offers[i].0
                < offers[j].0 by {
                if j < before.len() {
                    assert(before[i].0 < before[j].0);
                } else {
                    assert(offers[i] == before[i]);
                }
            }
        }
    }
}

/// In rows of strictly ascending keys, the users do not descend.
pub proof fn lemma_users_do_not_descend(rows: Seq<(UserSessionRecord, u8)>, i: int, j: int)
    requires
        strictly_ascending(rows),
        0 <= i <= j < rows.len(),
    ensures
        rows[i].0.user_id <= rows[j].0.user_id,
{
    if i < j {
        assert(rows[i].0.precedes(rows[j].0));
    }
}

/// While the keys of a day pass by, the user at hand is the user of the last
/// key, and the leaderboard at hand is the leaderboard of that user.
pub proof fn lemma_day_state(items: Seq<(Seq<u8>, Seq<u64>)>)
    requires
        strictly_ascending(item_rows(items)),
    ensures
        items.len() > 0 ==> day_state(items).user == item_rows(items).last().0.user_id,
        items.len() == 0 ==> day_state(items).user == 0,
        day_state(items).slots == user_board(item_rows(items), day_state(items).user),
    decreases items.len(),
{
    let rows = item_rows(items);
    if items.len() > 0 {
        let o = items.drop_last();
        let x = items.last();
        let rest = item_rows(o);
        assert(rest =~= rows.drop_last());
        assert(strictly_ascending(rest)) by {
            assert forall|a: int, b: int| 0 <= a < b < rest.len() implies rest[a].0.precedes(
                rest[b].0,
            ) by {
                assert(rest[a] == rows[a] && rest[b] == rows[b]);
            }
        }
        lemma_day_state(o);
        let st0 = day_state(o);
        let u = key_user(x.0);
        assert(rows.last() == (key_record(x.0), capped(values_total(x.1))));
        if u != st0.user {
            assert(!has_row(rest, u)) by {
                if has_row(rest, u) {
                    let i = choose|i: int| 0 <= i < rest.len() && (#[trigger] rest[i]).0.user_id == u;
                    lemma_users_do_not_descend(rest, i, rest.len() - 1);
                    assert(rows[rest.len() - 1] == rest[rest.len() - 1]);
                    lemma_users_do_not_descend(rows, rest.len() - 1, rows.len() - 1);
                }
            }
            lemma_user_offers(rest, u);
            assert(user_offers(rest, u) =~= Seq::<(u128, u8)>::empty());
            assert(offered_run(user_offers(rest, u)) == empty_slots());
        }
        let offers = user_offers(rows, u);
        assert(offers.drop_last() =~= user_offers(rest, u));
    } else {
        assert(user_offers(rows, 0) =~= Seq::<(u128, u8)>::empty());
    }
}

/// A row besides the rows of a user leaves the offers of the user as they
/// are.
pub proof fn lemma_user_offers_other(rows: Seq<(UserSessionRecord, u8)>, user: u128)
    requires
        rows.len() > 0,
        rows.last().0.user_id != user,
    ensures
        user_offers(rows, user) == user_offers(rows.drop_last(), user),
        has_row(rows, user) <==> has_row(rows.drop_last(), user),
{
    let rest = rows.drop_last();
    if has_row(rows, user) {
        let i = choose|i: int| 0 <= i < rows.len() && (#[trigger] rows[i]).0.user_id == user;
        assert(rest[i] == rows[i]);
    }
    if has_row(rest, user) {
        let i = choose|i: int| 0 <= i < rest.len() && (#[trigger] rest[i]).0.user_id == user;
        assert(rest[i] == rows[i]);
    }
}

/// The keys written while the keys of a day pass by are the keys of the
/// leaderboards of the users that are over.
pub proof fn lemma_day_emitted(items: Seq<(Seq<u8>, Seq<u64>)>, key: Seq<u8>)
    requires
        strictly_ascending(item_rows(items)),
    ensures
        day_emitted(items).contains(key) <==> exists|u: u128|
            #[trigger] emitted_for(item_rows(items), u, key),
    decreases items.len(),
{
    let rows = item_rows(items);
    if items.len() > 0 {
        let o = items.drop_last();
        let x = items.last();
        let rest = item_rows(o);
        assert(rest =~= rows.drop_last());
        assert(strictly_ascending(rest)) by {
            assert forall|a: int, b: int| 0 <= a < b < rest.len() implies rest[a].0.precedes(
                rest[b].0,
            ) by {
                assert(rest[a] == rows[a] && rest[b] == rows[b]);
            }
        }
        lemma_day_emitted(o, key);
        lemma_day_state(o);
        let st0 = day_state(o);
        let xu = key_user(x.0);
        assert(rows.last() == (key_record(x.0), capped(values_total(x.1))));
        let a = day_emitted(o);
        let b = day_step_keys(st0, x);
        let e = day_emitted(items);
        assert(e == a + b);
        if e.contains(key) {
            let i = choose|i: int| 0 <= i < e.len() && e[i] == key;
            if i < a.len() {
                assert(a[i] == key);
                assert(a.contains(key));
                let u = choose|u: u128| #[trigger] emitted_for(rest, u, key);
                let r = choose|r: int| 0 <= r < rest.len() && (#[trigger] rest[r]).0.user_id == u;
                lemma_users_do_not_descend(rest, r, rest.len() - 1);
                assert(rows[rest.len() - 1] == rest[rest.len() - 1]);
                lemma_users_do_not_descend(rows, rest.len() - 1, rows.len() - 1);
                lemma_user_offers_other(rows, u);
                assert(emitted_for(rows, u, key));
            } else {
                assert(b[i - a.len()] == key);
                assert(b.contains(key));
                assert(xu != st0.user && st0.user != 0);
                let u = st0.user;
                assert(rest.len() > 0);
                assert(rest[rest.len() - 1].0.user_id == u);
                assert(has_row(rest, u));
                lemma_user_offers_other(rows, u);
                assert(emitted_for(rows, u, key));
            }
        }
        if exists|u: u128| #[trigger] emitted_for(rows, u, key) {
            let u = choose|u: u128| #[trigger] emitted_for(rows, u, key);
            lemma_user_offers_other(rows, u);
            assert(rest.len() > 0) by {
                if rest.len() == 0 {
                    assert(!has_row(rest, u));
                }
            }
            if u != rest.last().0.user_id {
                assert(emitted_for(rest, u, key));
                assert(a.contains(key));
                let i = choose|i: int| 0 <= i < a.len() && a[i] == key;
                assert(e[i] == key);
            } else {
                assert(u == st0.user);
                assert(b == set_keys(u, st0.slots));
                let i = choose|i: int| 0 <= i < b.len() && b[i] == key;
                assert(e[a.len() + i] == key);
            }
        }
    } else {
        assert forall|u: u128| !#[trigger] emitted_for(rows, u, key) by {
            assert(!has_row(rows, u));
        }
    }
}

/// The keys of a day are the keys of the leaderboards of its users, the user
/// zero left out.
pub proof fn lemma_day_keys(items: Seq<(Seq<u8>, Seq<u64>)>, key: Seq<u8>)
    requires
        strictly_ascending(item_rows(items)),
    ensures
        day_keys(items).contains(key) <==> exists|u: u128|
            #[trigger] stored_for(item_rows(items), u, key),
{
    let rows = item_rows(items);
    lemma_day_emitted(items, key);
    lemma_day_state(items);
    let st = day_state(items);
    let a = day_emitted(items);
    let b = flushed(st);
    let all = day_keys(items);
    if all.contains(key) {
        let i = choose|i: int| 0 <= i < all.len() && all[i] == key;
        if i < a.len() {
            assert(a[i] == key);
            assert(a.contains(key));
            let u = choose|u: u128| #[trigger] emitted_for(rows, u, key);
            assert(stored_for(rows, u, key));
        } else {
            assert(b[i - a.len()] == key);
            assert(b.contains(key));
            assert(st.user != 0);
            assert(items.len() > 0);
            assert(rows[rows.len() - 1].0.user_id == st.user);
            assert(stored_for(rows, st.user, key));
        }
    }
    if exists|u: u128| #[trigger] stored_for(rows, u, key) {
        let u = choose|u: u128| #[trigger] stored_for(rows, u, key);
        assert(rows.len() > 0) by {
            if rows.len() == 0 {
                assert(!has_row(rows, u));
            }
        }
        if u != rows.last().0.user_id {
            assert(emitted_for(rows, u, key));
            assert(a.contains(key));
            let i = choose|i: int| 0 <= i < a.len() && a[i] == key;
            assert(all[i] == key);
        } else {
            assert(b == set_keys(u, st.slots));
            let i = choose|i: int| 0 <= i < b.len() && b[i] == key;
            assert(all[a.len() + i] == key);
        }
    }
}

/// A builder that was given keys holds the keys it held and the keys it was
/// given.
pub proof fn lemma_added_all_holds(entries: Seq<(Seq<u8>, u64)>, keys: Seq<Seq<u8>>, key: Seq<u8>)
    ensures
        holds_key(added_all(entries, keys), key) <==> holds_key(entries, key) || keys.contains(key),
    decreases keys.len(),
{
    if keys.len() > 0 {
        let rest = keys.drop_last();
        let x = keys.last();
        lemma_added_all_holds(entries, rest, key);
        let before = added_all(entries, rest);
        let after = added_all(entries, keys);
        assert(after == after_add(before, x));
        if holds_key(after, key) {
            let q = choose|q: int| 0 <= q < after.len() && (#[trigger] after[q]).0 == key;
            if q < before.len() {
                assert(before[q] == after[q]);
                assert(holds_key(before, key));
                if rest.contains(key) {
                    let i = choose|i: int| 0 <= i < rest.len() && rest[i] == key;
                    assert(keys[i] == key);
                }
            } else {
                assert(keys[keys.len() - 1] == key);
            }
        }
        if holds_key(entries, key) || keys.contains(key) {
            if keys.contains(key) {
                let i = choose|i: int| 0 <= i < keys.len() && keys[i] == key;
                if i < rest.len() {
                    assert(rest[i] == key);
                    assert(rest.contains(key));
                }
            }
            if holds_key(before, key) {
                let q = choose|q: int| 0 <= q < before.len() && (#[trigger] before[q]).0 == key;
                assert(after[q] == before[q]);
            } else {
                assert(x == key);
                assert(after[after.len() - 1].0 == key);
            }
        }
    } else {
        assert(!keys.contains(key));
    }
}

/// The stored summary of a day holds, for every user but the user zero, the
/// ten best session sums of the user, and nothing else.
///
/// The rows of the day are summed up by user and session; `summary_of` is
/// that summary. A key is stored exactly if it is a key of the leaderboard
/// of a user that has a row, and that leaderboard holds the ten best of the
/// sessions of the user: those with the largest sums, and among equal sums
/// those of the smallest sessions. This rests on what the fst crate
/// documents of a union, which is required here of what the union hands out.
pub proof fn lemma_day_summary_holds_the_best(
    pairs: Seq<(UserSessionRecord, u8)>,
    capacity: usize,
    threshold: usize,
)
    requires
        is_union_of(
            crate::fst_bridge::union_items(day_contents(pairs, capacity, threshold)),
            day_contents(pairs, capacity, threshold),
        ),
    ensures
        forall|key: Seq<u8>|
            holds_key(#[trigger] day_summary(pairs, capacity, threshold), key) <==> exists|u: u128|
                #[trigger] stored_for(summary_of(pairs), u, key),
        forall|u: u128|
            holds_the_best(
                #[trigger] user_board(summary_of(pairs), u),
                user_offers(summary_of(pairs), u),
            ),
        is_summary(summary_of(pairs), pairs),
{
    let items = crate::fst_bridge::union_items(day_contents(pairs, capacity, threshold));
    lemma_items_sum_up_the_day(items, pairs, capacity, threshold);
    let rows = summary_of(pairs);
    assert forall|key: Seq<u8>|
        holds_key(#[trigger] day_summary(pairs, capacity, threshold), key) <==> exists|u: u128|
            #[trigger] stored_for(rows, u, key) by {
        lemma_day_keys(items, key);
        lemma_added_all_holds(Seq::empty(), day_keys(items), key);
        assert(!holds_key(Seq::<(Seq<u8>, u64)>::empty(), key));
    }
    assert forall|u: u128| holds_the_best(#[trigger] user_board(rows, u), user_offers(rows, u)) by {
        lemma_user_offers_ascend(rows, u);
        lemma_board_holds_the_best(user_offers(rows, u));
    }
}

} // verus!
