//! The user pipeline from rows held in memory: the rows of a day to the
//! stored summary of the day, and the rows of several days to the ten best
//! session sums of each user.

use crate::fst_bridge::{fst_entries_of, held_somewhere, holds_key, is_union_of, union_items};
use crate::key_bytes::lemma_be_bytes;
use crate::record::UserSessionRecord;
use crate::user_batching::{batch_entries, UserBatcher};
use crate::user_finalizing::{
    from_fst_sets_to_stats, item_keys, stats_view, stored_keys, week_stats, FinalizeError,
    UserBestStats,
};
use crate::user_laws::lemma_batch_key_order;
use crate::user_sorting::summary_of;
use crate::user_storing::{
    added_all, contents_of_bytes, day_emitted, day_keys, day_state, flushed,
    from_batched_fst_maps_to_fst_set, well_keyed, StoreError,
};
use vstd::prelude::*;

verus! {

/// What the batcher holds after a row: the rows not written out yet, and the
/// batches written out so far, each as the summary of its rows.
pub open spec fn batch_step(
    state: (Seq<(UserSessionRecord, u8)>, Seq<Seq<(UserSessionRecord, u8)>>),
    capacity: usize,
    threshold: usize,
    pair: (UserSessionRecord, u8),
) -> (Seq<(UserSessionRecord, u8)>, Seq<Seq<(UserSessionRecord, u8)>>) {
    if state.0.len() < capacity {
        (state.0.push(pair), state.1)
    } else if summary_of(state.0).len() < threshold {
        (summary_of(state.0).push(pair), state.1)
    } else {
        (seq![pair], state.1.push(summary_of(state.0)))
    }
}

/// What the batcher holds after a run of rows.
pub open spec fn batched(pairs: Seq<(UserSessionRecord, u8)>, capacity: usize, threshold: usize) -> (
    Seq<(UserSessionRecord, u8)>,
    Seq<Seq<(UserSessionRecord, u8)>>,
)
    decreases pairs.len(),
{
    if pairs.len() == 0 {
        (Seq::empty(), Seq::empty())
    } else {
        batch_step(batched(pairs.drop_last(), capacity, threshold), capacity, threshold, pairs.last())
    }
}

/// The batches of a day: those written out during the run, and the summary
/// of what is left at its end.
pub open spec fn day_batches(
    pairs: Seq<(UserSessionRecord, u8)>,
    capacity: usize,
    threshold: usize,
) -> Seq<Seq<(UserSessionRecord, u8)>> {
    let state = batched(pairs, capacity, threshold);
    if state.0.len() == 0 {
        state.1
    } else {
        state.1.push(summary_of(state.0))
    }
}

/// The batches of a day as the contents of their transducers.
pub open spec fn day_contents(
    pairs: Seq<(UserSessionRecord, u8)>,
    capacity: usize,
    threshold: usize,
) -> Seq<Seq<(Seq<u8>, u64)>> {
    Seq::new(
        day_batches(pairs, capacity, threshold).len(),
        |i: int| batch_entries(day_batches(pairs, capacity, threshold)[i]),
    )
}

/// The content of the stored summary of a day.
pub open spec fn day_summary(
    pairs: Seq<(UserSessionRecord, u8)>,
    capacity: usize,
    threshold: usize,
) -> Seq<(Seq<u8>, u64)> {
    added_all(Seq::empty(), day_keys(union_items(day_contents(pairs, capacity, threshold))))
}

/// The slices of some byte vectors.
fn as_slices<'a>(data: &'a Vec<Vec<u8>>) -> (slices: Vec<&'a [u8]>)
    ensures
        slices.len() == data.len(),
        forall|i: int| 0 <= i < data.len() ==> (#[trigger] slices[i])@ == data[i]@,
{
    let mut slices: Vec<&'a [u8]> = Vec::new();
    let mut i: usize = 0;
    while i < data.len()
        invariant
            0 <= i <= data.len(),
            slices.len() == i,
            forall|k: int| 0 <= k < i ==> (#[trigger] slices[k])@ == data[k]@,
        decreases data.len() - i,
    {
        slices.push(data[i].as_slice());
        i += 1;
    }
    slices
}

/// The keys that a union of batches hands out have thirty-two bytes.
pub proof fn lemma_batches_well_keyed(
    items: Seq<(Seq<u8>, Seq<u64>)>,
    batches: Seq<Seq<(UserSessionRecord, u8)>>,
    contents: Seq<Seq<(Seq<u8>, u64)>>,
)
    requires
        is_union_of(items, contents),
        contents.len() == batches.len(),
        forall|p: int| 0 <= p < contents.len() ==> #[trigger] contents[p] == batch_entries(batches[p]),
    ensures
        well_keyed(items),
{
    reveal(is_union_of);
    assert forall|i: int| 0 <= i < items.len() implies (#[trigger] items[i]).0.len() == 32 by {
        assert(held_somewhere(contents, items[i].0));
        let p = choose|p: int|
            0 <= p < contents.len() && holds_key(#[trigger] contents[p], items[i].0);
        let q = choose|q: int| 0 <= q < contents[p].len() && (#[trigger] contents[p][q]).0 == items[i].0;
        let row = batches[p][q];
        lemma_batch_key_order(row.0.user_id, row.0.session_id, row.0.user_id, row.0.session_id);
    }
}

/// Makes the stored summary of a day from the rows of the day: the rows are
/// gathered in batches as a `UserBatcher` with the given limit and threshold
/// does, and the batches are read together.
pub fn user_day_fst_set(
    pairs: &Vec<(UserSessionRecord, u8)>,
    capacity_limit: usize,
    spill_threshold: usize,
) -> (r: Result<Vec<u8>, StoreError>)
    ensures
        r is Ok,
        fst_entries_of(r.unwrap()@) == Some(day_summary(pairs@, capacity_limit, spill_threshold)),
        is_union_of(
            union_items(day_contents(pairs@, capacity_limit, spill_threshold)),
            day_contents(pairs@, capacity_limit, spill_threshold),
        ),
{
    let mut batcher = UserBatcher::new(capacity_limit, spill_threshold);
    let mut batch_bytes: Vec<Vec<u8>> = Vec::new();
    let ghost mut spilled: Seq<Seq<(UserSessionRecord, u8)>> = Seq::empty();
    let mut i: usize = 0;
    assert(pairs@.take(0) =~= Seq::<(UserSessionRecord, u8)>::empty());
    while i < pairs.len()
        invariant
            0 <= i <= pairs.len(),
            batcher.capacity() == capacity_limit,
            batcher.threshold() == spill_threshold,
            (batcher.pending(), spilled) == batched(
                pairs@.take(i as int),
                capacity_limit,
                spill_threshold,
            ),
            batch_bytes.len() == spilled.len(),
            forall|k: int|
                0 <= k < spilled.len() ==> fst_entries_of((#[trigger] batch_bytes[k])@) == Some(
                    batch_entries(spilled[k]),
                ),
        decreases pairs.len() - i,
    {
        proof {
            let t = pairs@.take(i + 1);
            assert(t.drop_last() =~= pairs@.take(i as int));
            assert(t.last() == pairs@[i as int]);
        }
        let ghost pending = batcher.pending();
        match batcher.push(pairs[i]) {
            Some(bytes) => {
                batch_bytes.push(bytes);
                proof {
                    spilled = spilled.push(summary_of(pending));
                }
            },
            None => {},
        }
        i += 1;
    }
    assert(pairs@.take(i as int) =~= pairs@);
    let ghost pending = batcher.pending();
    match batcher.finish() {
        Some(bytes) => {
            batch_bytes.push(bytes);
            proof {
                spilled = spilled.push(summary_of(pending));
            }
        },
        None => {},
    }
    assert(spilled =~= day_batches(pairs@, capacity_limit, spill_threshold));
    let slices = as_slices(&batch_bytes);
    assert(contents_of_bytes(slices@) =~= day_contents(pairs@, capacity_limit, spill_threshold));
    let r = from_batched_fst_maps_to_fst_set(&slices);
    proof {
        lemma_batches_well_keyed(
            union_items(contents_of_bytes(slices@)),
            spilled,
            contents_of_bytes(slices@),
        );
    }
    r
}

/// Whether every key has thirty-three bytes.
pub open spec fn all_stored(keys: Seq<Seq<u8>>) -> bool {
    forall|i: int| 0 <= i < keys.len() ==> (#[trigger] keys[i]).len() == 33
}

/// Whether every key of a content has thirty-three bytes.
pub open spec fn content_stored(content: Seq<(Seq<u8>, u64)>) -> bool {
    forall|i: int| 0 <= i < content.len() ==> (#[trigger] content[i]).0.len() == 33
}

/// The keys of a leaderboard have thirty-three bytes.
pub proof fn lemma_flushed_stored(state: crate::user_storing::DayState)
    ensures
        all_stored(flushed(state)),
{
    let keys = flushed(state);
    assert forall|i: int| 0 <= i < keys.len() implies (#[trigger] keys[i]).len() == 33 by {
        lemma_be_bytes(state.user, state.slots[i].0);
        lemma_be_bytes(state.slots[i].0, state.user);
    }
}

/// The keys written during a day have thirty-three bytes.
pub proof fn lemma_day_emitted_stored(items: Seq<(Seq<u8>, Seq<u64>)>)
    ensures
        all_stored(day_emitted(items)),
    decreases items.len(),
{
    if items.len() > 0 {
        lemma_day_emitted_stored(items.drop_last());
        lemma_flushed_stored(day_state(items.drop_last()));
        let a = day_emitted(items.drop_last());
        let e = day_emitted(items);
        assert forall|i: int| 0 <= i < e.len() implies (#[trigger] e[i]).len() == 33 by {
            if i < a.len() {
                assert(e[i] == a[i]);
            } else {
                assert(e[i] == flushed(day_state(items.drop_last()))[i - a.len()]);
            }
        }
    }
}

/// Keys of thirty-three bytes give a content of such keys.
pub proof fn lemma_added_all_stored(entries: Seq<(Seq<u8>, u64)>, keys: Seq<Seq<u8>>)
    requires
        content_stored(entries),
        all_stored(keys),
    ensures
        content_stored(added_all(entries, keys)),
    decreases keys.len(),
{
    if keys.len() > 0 {
        assert(all_stored(keys.drop_last())) by {
            assert forall|i: int| 0 <= i < keys.drop_last().len() implies (
            #[trigger] keys.drop_last()[i]).len() == 33 by {
                assert(keys.drop_last()[i] == keys[i]);
            }
        }
        lemma_added_all_stored(entries, keys.drop_last());
        let before = added_all(entries, keys.drop_last());
        let after = added_all(entries, keys);
        assert(keys[keys.len() - 1].len() == 33);
        assert forall|i: int| 0 <= i < after.len() implies (#[trigger] after[i]).0.len() == 33 by {
            if i < before.len() {
                assert(after[i] == before[i]);
            }
        }
    }
}

/// The stored summary of a day holds keys of thirty-three bytes.
pub proof fn lemma_day_summary_stored(
    pairs: Seq<(UserSessionRecord, u8)>,
    capacity: usize,
    threshold: usize,
)
    ensures
        content_stored(day_summary(pairs, capacity, threshold)),
{
    let items = union_items(day_contents(pairs, capacity, threshold));
    lemma_day_emitted_stored(items);
    lemma_flushed_stored(day_state(items));
    let a = day_emitted(items);
    let keys = day_keys(items);
    assert forall|i: int| 0 <= i < keys.len() implies (#[trigger] keys[i]).len() == 33 by {
        if i < a.len() {
            assert(keys[i] == a[i]);
        } else {
            assert(keys[i] == flushed(day_state(items))[i - a.len()]);
        }
    }
    lemma_added_all_stored(Seq::empty(), keys);
}

/// The keys that a union of stored summaries hands out have thirty-three
/// bytes.
pub proof fn lemma_summaries_stored(
    items: Seq<(Seq<u8>, Seq<u64>)>,
    contents: Seq<Seq<(Seq<u8>, u64)>>,
)
    requires
        is_union_of(items, contents),
        forall|p: int| 0 <= p < contents.len() ==> content_stored(#[trigger] contents[p]),
    ensures
        stored_keys(item_keys(items)),
{
    reveal(is_union_of);
    let keys = item_keys(items);
    assert forall|i: int| 0 <= i < keys.len() implies (#[trigger] keys[i]).len() == 33 by {
        assert(held_somewhere(contents, items[i].0));
        let p = choose|p: int|
            0 <= p < contents.len() && holds_key(#[trigger] contents[p], items[i].0);
        let q = choose|q: int|
            0 <= q < contents[p].len() && (#[trigger] contents[p][q]).0 == items[i].0;
        assert(content_stored(contents[p]));
    }
}

/// The stored summaries of some days, each made of the rows of its day.
pub open spec fn week_contents(
    days: Seq<Vec<(UserSessionRecord, u8)>>,
    capacity: usize,
    threshold: usize,
) -> Seq<Seq<(Seq<u8>, u64)>> {
    Seq::new(days.len(), |d: int| day_summary(days[d]@, capacity, threshold))
}

/// The ten best session sums of each user over several days, from the rows
/// of the days: the summary of each day is made as `user_day_fst_set` makes
/// it, and the summaries are read together.
pub fn users_top_ten_of_days(
    days: &Vec<Vec<(UserSessionRecord, u8)>>,
    capacity_limit: usize,
    spill_threshold: usize,
) -> (r: Result<Vec<UserBestStats>, FinalizeError>)
    ensures
        r is Ok,
        stats_view(r.unwrap()@) == week_stats(
            item_keys(union_items(week_contents(days@, capacity_limit, spill_threshold))),
        ),
        stored_keys(item_keys(union_items(week_contents(days@, capacity_limit, spill_threshold)))),
        is_union_of(
            union_items(week_contents(days@, capacity_limit, spill_threshold)),
            week_contents(days@, capacity_limit, spill_threshold),
        ),
{
    let mut day_sets: Vec<Vec<u8>> = Vec::new();
    let mut d: usize = 0;
    while d < days.len()
        invariant
            0 <= d <= days.len(),
            day_sets.len() == d,
            forall|k: int|
                0 <= k < d ==> fst_entries_of((#[trigger] day_sets[k])@) == Some(
                    day_summary(days[k]@, capacity_limit, spill_threshold),
                ),
        decreases days.len() - d,
    {
        match user_day_fst_set(&days[d], capacity_limit, spill_threshold) {
            Ok(bytes) => {
                day_sets.push(bytes);
            },
            Err(_) => {
                assert(false);
            },
        }
        d += 1;
    }
    let slices = as_slices(&day_sets);
    assert(contents_of_bytes(slices@) =~= week_contents(
        days@,
        capacity_limit,
        spill_threshold,
    ));
    let r = from_fst_sets_to_stats(&slices);
    proof {
        let contents = contents_of_bytes(slices@);
        assert forall|p: int| 0 <= p < contents.len() implies content_stored(
            #[trigger] contents[p],
        ) by {
            lemma_day_summary_stored(days[p]@, capacity_limit, spill_threshold);
        }
        lemma_summaries_stored(union_items(contents), contents);
    }
    r
}

} // verus!
