//! From the batches of a day to the stored summary of the day: for every
//! user the keys of the ten best session sums, in one transducer.
//!
//! The batches are read together in ascending order of their keys, so that
//! the sessions of a user follow each other. The sums that a user in a
//! session has in several batches are added, a leaderboard is kept for the
//! user at hand, and its keys are written when the next user begins.

use crate::fst_bridge::{
    after_add, ascending_keys, builder_add, builder_entries, builder_into_inner, builder_memory,
    contents_of, fst_entries_of, fst_open, is_union_of, may_add, only_keys, open_union,
    union_items, union_next, union_rest, values_total,
};
use crate::key_bytes::{
    be_value, id_from_bytes, lemma_be_value_bound, lemma_be_value_digits, lemma_pow256_16,
    lex_less,
};
use crate::user_laws::{
    batch_key, lemma_batch_key_order, lemma_set_key_order, lemma_set_keys_ascend,
};
use crate::user_sorting::capped;
use crate::user_top::{
    empty_slots, filled, fst_set_keys_iter, lemma_filled_splits, offered, set_key, set_keys,
    well_formed, UserBestSumPics,
};
use vstd::prelude::*;

verus! {

/// Why a summary of a day could not be made.
#[derive(Clone, Copy, Debug, PartialEq, Eq, Structural)]
pub enum StoreError {
    /// A key of a batch does not have the thirty-two bytes of a user and a
    /// session.
    MalformedKey,
}

/// The user of a batch key.
pub open spec fn key_user(key: Seq<u8>) -> u128 {
    be_value(key.subrange(0, 16)) as u128
}

/// The session of a batch key.
pub open spec fn key_session(key: Seq<u8>) -> u128 {
    be_value(key.subrange(16, 32)) as u128
}

/// The leaderboard at hand: its user, zero before the first user, and its
/// slots.
pub struct DayState {
    pub user: u128,
    pub slots: Seq<(u128, i16)>,
}

/// The state before the first key.
pub open spec fn day_start() -> DayState {
    DayState { user: 0, slots: empty_slots() }
}

/// The keys that are written when the user at hand is over: those of the
/// leaderboard, and none for the user zero, which stands for no user.
pub open spec fn flushed(state: DayState) -> Seq<Seq<u8>> {
    if state.user == 0 {
        Seq::empty()
    } else {
        set_keys(state.user, state.slots)
    }
}

/// The state after a key with its values: the sum of the values, which stops
/// at 255, is offered to the leaderboard of the key's user, which is a new
/// one if the user is not the one at hand.
pub open spec fn day_step_state(state: DayState, item: (Seq<u8>, Seq<u64>)) -> DayState {
    let user = key_user(item.0);
    let sum = capped(values_total(item.1));
    if user != state.user {
        DayState { user, slots: offered(empty_slots(), key_session(item.0), sum) }
    } else {
        DayState { user, slots: offered(state.slots, key_session(item.0), sum) }
    }
}

/// The keys that a key with its values causes to be written: those of the
/// user at hand if the key is of another user.
pub open spec fn day_step_keys(state: DayState, item: (Seq<u8>, Seq<u64>)) -> Seq<Seq<u8>> {
    if key_user(item.0) != state.user {
        flushed(state)
    } else {
        Seq::empty()
    }
}

/// The state after a run of keys with their values.
pub open spec fn day_state(items: Seq<(Seq<u8>, Seq<u64>)>) -> DayState
    decreases items.len(),
{
    if items.len() == 0 {
        day_start()
    } else {
        day_step_state(day_state(items.drop_last()), items.last())
    }
}

/// The keys written during a run of keys with their values.
pub open spec fn day_emitted(items: Seq<(Seq<u8>, Seq<u64>)>) -> Seq<Seq<u8>>
    decreases items.len(),
{
    if items.len() == 0 {
        Seq::empty()
    } else {
        day_emitted(items.drop_last()) + day_step_keys(
            day_state(items.drop_last()),
            items.last(),
        )
    }
}

/// All the keys of a day: those written during the run, and those of the
/// last user.
pub open spec fn day_keys(items: Seq<(Seq<u8>, Seq<u64>)>) -> Seq<Seq<u8>> {
    day_emitted(items) + flushed(day_state(items))
}

/// Whether every key has the thirty-two bytes of a user and a session.
pub open spec fn well_keyed(items: Seq<(Seq<u8>, Seq<u64>)>) -> bool {
    forall|i: int| 0 <= i < items.len() ==> (#[trigger] items[i]).0.len() == 32
}

/// What a builder holds after the keys were added to it one by one.
pub open spec fn added_all(entries: Seq<(Seq<u8>, u64)>, keys: Seq<Seq<u8>>) -> Seq<
    (Seq<u8>, u64),
>
    decreases keys.len(),
{
    if keys.len() == 0 {
        entries
    } else {
        after_add(added_all(entries, keys.drop_last()), keys.last())
    }
}

/// The views of some keys.
pub open spec fn keys_view(keys: Seq<Vec<u8>>) -> Seq<Seq<u8>> {
    Seq::new(keys.len(), |i: int| keys[i]@)
}

/// The contents of the transducers that some bytes are.
pub open spec fn contents_of_bytes(data: Seq<&[u8]>) -> Seq<Seq<(Seq<u8>, u64)>> {
    Seq::new(data.len(), |i: int| fst_entries_of(data[i]@).unwrap())
}

/// The sum of some values, which stops at 255.
pub fn capped_sum(values: &[u64]) -> (sum: u8)
    ensures
        sum == capped(values_total(values@)),
{
    let mut acc: u8 = 0;
    let mut i: usize = 0;
    assert(values@.take(0) =~= Seq::<u64>::empty());
    while i < values.len()
        invariant
            0 <= i <= values.len(),
            acc == capped(values_total(values@.take(i as int))),
        decreases values.len() - i,
    {
        proof {
            let t = values@.take(i + 1);
            assert(t.drop_last() =~= values@.take(i as int));
            assert(t.last() == values@[i as int]);
        }
        let v: u64 = values[i];
        if v >= 255 || acc as u64 + v >= 255 {
            acc = 255;
        } else {
            acc = acc + v as u8;
        }
        i += 1;
    }
    assert(values@.take(i as int) =~= values@);
    acc
}

/// Keeps the leaderboard of the user at hand while the keys of a day pass
/// by.
pub struct UserDayBuilder {
    user_best_sum_pics: UserBestSumPics,
}

impl UserDayBuilder {
    /// The user at hand and the slots of the leaderboard.
    pub closed spec fn view(self) -> DayState {
        DayState { user: self.user_best_sum_pics.user(), slots: self.user_best_sum_pics@ }
    }

    /// Before the first key.
    pub fn new() -> (r: Self)
        ensures
            r@ == day_start(),
    {
        UserDayBuilder { user_best_sum_pics: UserBestSumPics::default() }
    }

    /// Takes the next key of the union with the values it has in the
    /// batches, and hands out the keys that are to be written now: those of
    /// the user before, if the key begins another user. A key that does not
    /// have thirty-two bytes is refused and changes nothing.
    pub fn feed(&mut self, key: &[u8], values: &[u64]) -> (r: Result<Vec<Vec<u8>>, StoreError>)
        ensures
            key@.len() != 32 ==> r == Err::<Vec<Vec<u8>>, StoreError>(StoreError::MalformedKey)
                && final(self)@ == old(self)@,
            key@.len() == 32 ==> r is Ok && keys_view(r.unwrap()@) == day_step_keys(
                old(self)@,
                (key@, values@),
            ) && final(self)@ == day_step_state(old(self)@, (key@, values@)),
            well_formed(final(self)@.slots),
            well_formed(old(self)@.slots),
    {
        proof {
            use_type_invariant(&self.user_best_sum_pics);
            self.user_best_sum_pics.lemma_inv();
        }
        if key.len() != 32 {
            return Err(StoreError::MalformedKey);
        }
        let user = id_from_bytes(key, 0);
        let session = id_from_bytes(key, 16);
        let sum_pics = capped_sum(values);
        let mut keys: Vec<Vec<u8>> = Vec::new();
        if user != self.user_best_sum_pics.user_id() {
            if self.user_best_sum_pics.user_id() != 0 {
                keys = fst_set_keys_iter(&self.user_best_sum_pics);
                proof {
                    assert(keys_view(keys@) =~= set_keys(
                        self.user_best_sum_pics.user(),
                        self.user_best_sum_pics@,
                    ));
                }
            } else {
                assert(keys_view(keys@) =~= Seq::<Seq<u8>>::empty());
            }
            self.user_best_sum_pics.clear();
            self.user_best_sum_pics.update_user_id(user);
        } else {
            assert(keys_view(keys@) =~= Seq::<Seq<u8>>::empty());
        }
        self.user_best_sum_pics.update_on_improvement(session, sum_pics);
        Ok(keys)
    }

    /// Ends the day: hands out the keys of the last user.
    pub fn finish(self) -> (keys: Vec<Vec<u8>>)
        ensures
            keys_view(keys@) == flushed(self@),
    {
        if self.user_best_sum_pics.user_id() != 0 {
            let keys = fst_set_keys_iter(&self.user_best_sum_pics);
            assert(keys_view(keys@) =~= set_keys(
                self.user_best_sum_pics.user(),
                self.user_best_sum_pics@,
            ));
            keys
        } else {
            let keys: Vec<Vec<u8>> = Vec::new();
            assert(keys_view(keys@) =~= Seq::<Seq<u8>>::empty());
            keys
        }
    }
}

/// A key of thirty-two bytes is the key of its user and its session.
pub proof fn lemma_key_parts(key: Seq<u8>)
    requires
        key.len() == 32,
    ensures
        key == batch_key(key_user(key), key_session(key)),
{
    let a = key.subrange(0, 16);
    let b = key.subrange(16, 32);
    lemma_pow256_16();
    lemma_be_value_bound(a);
    lemma_be_value_bound(b);
    lemma_be_value_digits(a);
    lemma_be_value_digits(b);
    assert(key =~= a + b);
}

/// Adding two runs of keys one after the other is adding them in a row.
pub proof fn lemma_added_all_concat(entries: Seq<(Seq<u8>, u64)>, a: Seq<Seq<u8>>, b: Seq<Seq<u8>>)
    ensures
        added_all(entries, a + b) == added_all(added_all(entries, a), b),
    decreases b.len(),
{
    if b.len() == 0 {
        assert(a + b =~= a);
    } else {
        lemma_added_all_concat(entries, a, b.drop_last());
        assert((a + b).drop_last() =~= a + b.drop_last());
        assert((a + b).last() == b.last());
    }
}

/// Of two keys of thirty-two bytes, the one that comes first has the user
/// that is not larger.
pub proof fn lemma_users_ascend(prev: Seq<u8>, key: Seq<u8>)
    requires
        prev.len() == 32,
        key.len() == 32,
        lex_less(prev, key),
    ensures
        key_user(prev) <= key_user(key),
{
    lemma_key_parts(prev);
    lemma_key_parts(key);
    lemma_batch_key_order(key_user(prev), key_session(prev), key_user(key), key_session(key));
}

/// The keys of a leaderboard can be added to a builder whose last key is of
/// a smaller user: they do not descend, and the first does not come before
/// that last key.
pub proof fn lemma_flush_addable(user: u128, slots: Seq<(u128, i16)>, last: (u128, u8, u128))
    requires
        well_formed(slots),
        last.0 < user,
    ensures
        set_keys(user, slots).len() == filled(slots),
        0 <= filled(slots) <= 10,
        forall|i: int, j: int|
            0 <= i <= j < filled(slots) ==> !lex_less(
                #[trigger] set_keys(user, slots)[j],
                #[trigger] set_keys(user, slots)[i],
            ),
        forall|i: int|
            0 <= i < filled(slots) ==> #[trigger] set_keys(user, slots)[i] == set_key(
                user,
                slots[i].1 as u8,
                slots[i].0,
            ) && !lex_less(set_keys(user, slots)[i], set_key(last.0, last.1, last.2)),
{
    lemma_set_keys_ascend(user, slots);
    lemma_filled_splits(slots);
    assert forall|i: int| 0 <= i < filled(slots) implies #[trigger] set_keys(user, slots)[i]
        == set_key(user, slots[i].1 as u8, slots[i].0) && !lex_less(
        set_keys(user, slots)[i],
        set_key(last.0, last.1, last.2),
    ) by {
        lemma_set_key_order(user, slots[i].1 as u8, slots[i].0, last.0, last.1, last.2);
    }
}

/// Adds keys to a builder one by one. The keys must not descend, and the
/// first must not come before the last key the builder holds.
fn add_keys(set_builder: &mut fst::raw::Builder<Vec<u8>>, keys: &Vec<Vec<u8>>)
    requires
        only_keys(builder_entries(*old(set_builder))),
        forall|i: int, j: int|
            0 <= i <= j < keys.len() ==> !lex_less((#[trigger] keys[j])@, (#[trigger] keys[i])@),
        keys.len() > 0 ==> may_add(builder_entries(*old(set_builder)), keys[0]@),
    ensures
        only_keys(builder_entries(*final(set_builder))),
        builder_entries(*final(set_builder)) == added_all(
            builder_entries(*old(set_builder)),
            keys_view(keys@),
        ),
        keys.len() > 0 ==> builder_entries(*final(set_builder)).len() > 0 && builder_entries(
            *final(set_builder),
        ).last().0 == keys[keys.len() - 1]@,
        keys.len() == 0 ==> builder_entries(*final(set_builder)) == builder_entries(
            *old(set_builder),
        ),
{
    let ghost start = builder_entries(*set_builder);
    let ghost views = keys_view(keys@);
    let mut i: usize = 0;
    assert(views.take(0) =~= Seq::<Seq<u8>>::empty());
    while i < keys.len()
        invariant
            0 <= i <= keys.len(),
            views == keys_view(keys@),
            forall|a: int, b: int|
                0 <= a <= b < keys.len() ==> !lex_less((#[trigger] keys[b])@, (#[trigger] keys[a])@),
            keys.len() > 0 ==> may_add(start, keys[0]@),
            only_keys(builder_entries(*set_builder)),
            builder_entries(*set_builder) == added_all(start, views.take(i as int)),
            i > 0 ==> builder_entries(*set_builder).len() > 0 && builder_entries(
                *set_builder,
            ).last().0 == keys[i - 1]@,
        decreases keys.len() - i,
    {
        proof {
            let t = views.take(i + 1);
            assert(t.drop_last() =~= views.take(i as int));
            assert(t.last() == keys[i as int]@);
            if i > 0 {
                assert(!lex_less(keys[i as int]@, keys[i - 1]@));
            }
        }
        let ghost held = builder_entries(*set_builder);
        match builder_add(set_builder, keys[i].as_slice()) {
            Ok(_) => {
                assert forall|k: int|
                    0 <= k < builder_entries(*set_builder).len() implies (
                #[trigger] builder_entries(*set_builder)[k]).1 == 0 by {
                    if k < held.len() {
                        assert(builder_entries(*set_builder)[k] == held[k]);
                    }
                }
            },
            Err(_) => {
                assert(false);
            },
        }
        i += 1;
    }
    assert(views.take(i as int) =~= views);
}

/// Makes the stored summary of a day from the batches of the day.
///
/// The batches are transducers from the keys of user and session to sums, as
/// `write_batch_fst_map` writes them. What comes out is a transducer whose
/// keys are, for every user but the user zero, the keys of the user's ten
/// best session sums. A key in a batch that does not have thirty-two bytes
/// is an error.
pub fn from_batched_fst_maps_to_fst_set(batches: &Vec<&[u8]>) -> (r: Result<Vec<u8>, StoreError>)
    requires
        forall|i: int| 0 <= i < batches.len() ==> fst_entries_of((#[trigger] batches[i])@) is Some,
    ensures
        match r {
            Ok(bytes) => well_keyed(union_items(contents_of_bytes(batches@))) && fst_entries_of(
                bytes@,
            ) == Some(
                added_all(Seq::empty(), day_keys(union_items(contents_of_bytes(batches@)))),
            ),
            Err(e) => e == StoreError::MalformedKey && !well_keyed(
                union_items(contents_of_bytes(batches@)),
            ),
        },
        is_union_of(union_items(contents_of_bytes(batches@)), contents_of_bytes(batches@)),
{
    let mut fst_maps: Vec<fst::raw::Fst<&[u8]>> = Vec::new();
    let mut n: usize = 0;
    while n < batches.len()
        invariant
            0 <= n <= batches.len(),
            fst_maps.len() == n,
            forall|i: int|
                0 <= i < batches.len() ==> fst_entries_of((#[trigger] batches[i])@) is Some,
            forall|i: int|
                0 <= i < n ==> crate::fst_bridge::fst_content(#[trigger] fst_maps[i])
                    == fst_entries_of(batches[i]@).unwrap(),
        decreases batches.len() - n,
    {
        match fst_open(batches[n]) {
            Ok(map) => {
                fst_maps.push(map);
            },
            Err(_) => {
                assert(false);
            },
        }
        n += 1;
    }
    assert(contents_of(fst_maps@) =~= contents_of_bytes(batches@));
    let mut union = open_union(&fst_maps);
    let ghost items = union_rest(union);
    let mut day = UserDayBuilder::new();
    let mut set_builder = builder_memory();
    let ghost mut done: int = 0;
    let ghost mut last_key: (u128, u8, u128) = (0u128, 0u8, 0u128);
    let mut malformed = false;
    assert(items.take(0) =~= Seq::<(Seq<u8>, Seq<u64>)>::empty());
    assert(items.skip(0) =~= items);
    assert(day_emitted(items.take(0)) =~= Seq::<Seq<u8>>::empty());
    assert(ascending_keys(items)) by {
        reveal(is_union_of);
    }
    loop
        invariant_except_break
            !malformed,
            union_rest(union) == items.skip(done),
        invariant
            0 <= done <= items.len(),
            ascending_keys(items),
            well_keyed(items.take(done)),
            day@ == day_state(items.take(done)),
            well_formed(day@.slots),
            only_keys(builder_entries(set_builder)),
            builder_entries(set_builder) == added_all(
                Seq::empty(),
                day_emitted(items.take(done)),
            ),
            done > 0 ==> day@.user == key_user(items[done - 1].0),
            done == 0 ==> day@.user == 0,
            builder_entries(set_builder).len() > 0 ==> builder_entries(set_builder).last().0
                == set_key(last_key.0, last_key.1, last_key.2) && last_key.0 < day@.user,
            builder_entries(set_builder).len() == 0 ==> last_key.0 == 0,
        ensures
            malformed ==> 0 <= done < items.len() && items[done].0.len() != 32,
            !malformed ==> {
                &&& done == items.len()
                &&& well_keyed(items)
                &&& day@ == day_state(items)
                &&& well_formed(day@.slots)
                &&& only_keys(builder_entries(set_builder))
                &&& builder_entries(set_builder) == added_all(Seq::empty(), day_emitted(items))
                &&& builder_entries(set_builder).len() > 0 ==> builder_entries(
                    set_builder,
                ).last().0 == set_key(last_key.0, last_key.1, last_key.2) && last_key.0
                    < day@.user
                &&& builder_entries(set_builder).len() == 0 ==> last_key.0 == 0
            },
        decreases union_rest(union).len(),
    {
        let ghost before = day@;
        let ghost entries = builder_entries(set_builder);
        match union_next(&mut union) {
            None => {
                proof {
                    assert(items.skip(done).len() == 0);
                    assert(items.take(done) =~= items);
                }
                break ;
            },
            Some(item) => {
                proof {
                    assert(items.skip(done)[0] == items[done]);
                    assert(items.skip(done).drop_first() =~= items.skip(done + 1));
                    let t = items.take(done + 1);
                    assert(t.drop_last() =~= items.take(done));
                    assert(t.last() == items[done]);
                }
                match day.feed(item.0.as_slice(), item.1.as_slice()) {
                    Err(e) => {
                        malformed = true;
                        break ;
                    },
                    Ok(keys) => {
                        proof {
                            let key = items[done].0;
                            if done > 0 {
                                assert(items.take(done)[done - 1] == items[done - 1]);
                                assert(lex_less(items[done - 1].0, key));
                                lemma_users_ascend(items[done - 1].0, key);
                            }
                            if key_user(key) != before.user && before.user != 0 {
                                lemma_flush_addable(before.user, before.slots, last_key);
                                let ks = set_keys(before.user, before.slots);
                                assert(keys_view(keys@) == ks);
                                assert forall|i: int, j: int|
                                    0 <= i <= j < keys.len() implies !lex_less(
                                    (#[trigger] keys[j])@,
                                    (#[trigger] keys[i])@,
                                ) by {
                                    assert(keys_view(keys@)[i] == keys[i]@);
                                    assert(keys_view(keys@)[j] == keys[j]@);
                                }
                                if keys.len() > 0 {
                                    let m = keys.len() - 1;
                                    assert(keys_view(keys@)[0] == keys[0]@);
                                    assert(keys_view(keys@)[m] == keys[m]@);
                                    assert(ks[0] == keys[0]@);
                                    if entries.len() > 0 {
                                        assert(!lex_less(ks[0], entries.last().0));
                                    }
                                    last_key = (
                                        before.user,
                                        before.slots[m].1 as u8,
                                        before.slots[m].0,
                                    );
                                }
                            } else {
                                assert(keys_view(keys@).len() == 0);
                                assert(keys.len() == 0);
                            }
                        }
                        add_keys(&mut set_builder, &keys);
                        proof {
                            lemma_added_all_concat(
                                Seq::empty(),
                                day_emitted(items.take(done)),
                                keys_view(keys@),
                            );
                            assert forall|i: int| 0 <= i < done + 1 implies (#[trigger] items.take(
                                done + 1,
                            )[i]).0.len() == 32 by {
                                if i < done {
                                    assert(items.take(done)[i] == items.take(done + 1)[i]);
                                }
                            }
                            done = done + 1;
                        }
                    },
                }
            },
        }
    }
    if malformed {
        return Err(StoreError::MalformedKey);
    }
    let ghost entries = builder_entries(set_builder);
    let keys = day.finish();
    proof {
        let state = day_state(items);
        if state.user != 0 {
            lemma_flush_addable(state.user, state.slots, last_key);
            let ks = set_keys(state.user, state.slots);
            assert(keys_view(keys@) == ks);
            assert forall|i: int, j: int| 0 <= i <= j < keys.len() implies !lex_less(
                (#[trigger] keys[j])@,
                (#[trigger] keys[i])@,
            ) by {
                assert(keys_view(keys@)[i] == keys[i]@);
                assert(keys_view(keys@)[j] == keys[j]@);
            }
            if keys.len() > 0 {
                assert(keys_view(keys@)[0] == keys[0]@);
                assert(ks[0] == keys[0]@);
                if entries.len() > 0 {
                    assert(!lex_less(ks[0], entries.last().0));
                }
            }
        } else {
            assert(keys_view(keys@).len() == 0);
            assert(keys.len() == 0);
        }
        lemma_added_all_concat(Seq::empty(), day_emitted(items), keys_view(keys@));
    }
    add_keys(&mut set_builder, &keys);
    match builder_into_inner(set_builder) {
        Ok(bytes) => Ok(bytes),
        Err(_) => {
            assert(false);
            Err(StoreError::MalformedKey)
        },
    }
}

} // verus!
