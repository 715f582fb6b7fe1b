//! From the stored summaries of several days to the ten best session sums of
//! each user over all of them.
//!
//! The keys of all the days are read together in ascending order. For one
//! user they come best sum first, so the first ten keys of a user are the
//! user's ten best.

use crate::fst_bridge::{
    contents_of, fst_content, fst_entries_of, fst_open, is_union_of, open_union, union_items,
    union_next, union_rest,
};
use crate::key_bytes::{be_value, id_from_bytes};
use crate::text::{decimal_text, push_decimal, push_uuid, uuid_text};
use crate::user_storing::contents_of_bytes;
use vstd::prelude::*;

verus! {

/// Why the stored summaries could not be read.
#[derive(Clone, Copy, Debug, PartialEq, Eq, Structural)]
pub enum FinalizeError {
    /// A key does not have the thirty-three bytes of a user, a sum and a
    /// session.
    MalformedKey,
}

/// The user of a stored key.
pub open spec fn stored_user(key: Seq<u8>) -> u128 {
    be_value(key.subrange(0, 16)) as u128
}

/// The session of a stored key.
pub open spec fn stored_session(key: Seq<u8>) -> u128 {
    be_value(key.subrange(17, 33)) as u128
}

/// The sum of a stored key.
pub open spec fn stored_sum(key: Seq<u8>) -> u8 {
    (255 - key[16]) as u8
}

/// The state after a key: the key's user is at hand, with the pairs it had
/// if it was at hand before; the pair of the key is added unless there are
/// ten already.
pub open spec fn week_step_state(state: (u128, Seq<(u128, u8)>), key: Seq<u8>) -> (
    u128,
    Seq<(u128, u8)>,
) {
    let user = stored_user(key);
    let pairs = if user != state.0 {
        Seq::empty()
    } else {
        state.1
    };
    if pairs.len() < 10 {
        (user, pairs.push((stored_session(key), stored_sum(key))))
    } else {
        (user, pairs)
    }
}

/// What is handed out when the user at hand is over: the user with its
/// pairs, and nothing for the user zero, which stands for no user.
pub open spec fn week_flushed(state: (u128, Seq<(u128, u8)>)) -> Seq<(u128, Seq<(u128, u8)>)> {
    if state.0 == 0 {
        Seq::empty()
    } else {
        seq![state]
    }
}

/// What a key causes to be handed out: the user at hand, if the key is of
/// another user.
pub open spec fn week_step_out(state: (u128, Seq<(u128, u8)>), key: Seq<u8>) -> Seq<
    (u128, Seq<(u128, u8)>),
> {
    if stored_user(key) != state.0 {
        week_flushed(state)
    } else {
        Seq::empty()
    }
}

/// The state after a run of keys.
pub open spec fn week_state(keys: Seq<Seq<u8>>) -> (u128, Seq<(u128, u8)>)
    decreases keys.len(),
{
    if keys.len() == 0 {
        (0u128, Seq::empty())
    } else {
        week_step_state(week_state(keys.drop_last()), keys.last())
    }
}

/// What is handed out during a run of keys.
pub open spec fn week_emitted(keys: Seq<Seq<u8>>) -> Seq<(u128, Seq<(u128, u8)>)>
    decreases keys.len(),
{
    if keys.len() == 0 {
        Seq::empty()
    } else {
        week_emitted(keys.drop_last()) + week_step_out(week_state(keys.drop_last()), keys.last())
    }
}

/// The users of a run of keys, each with its first ten pairs.
pub open spec fn week_stats(keys: Seq<Seq<u8>>) -> Seq<(u128, Seq<(u128, u8)>)> {
    week_emitted(keys) + week_flushed(week_state(keys))
}

/// The keys of the items of a union.
pub open spec fn item_keys(items: Seq<(Seq<u8>, Seq<u64>)>) -> Seq<Seq<u8>> {
    Seq::new(items.len(), |i: int| items[i].0)
}

/// Whether every key has thirty-three bytes.
pub open spec fn stored_keys(keys: Seq<Seq<u8>>) -> bool {
    forall|i: int| 0 <= i < keys.len() ==> (#[trigger] keys[i]).len() == 33
}

/// One line of the result: the user, a bar, and for each pair the session, a
/// colon, the sum and a comma.
pub open spec fn stats_line(user: u128, pairs: Seq<(u128, u8)>) -> Seq<char>
    decreases pairs.len(),
{
    if pairs.len() == 0 {
        uuid_text(user).push('|')
    } else {
        (stats_line(user, pairs.drop_last()) + uuid_text(pairs.last().0)).push(':') + decimal_text(
            pairs.last().1 as nat,
        ).push(',')
    }
}

/// The best session sums of a user: up to ten pairs of session and sum, best
/// first.
#[derive(Debug, PartialEq, Eq)]
pub struct UserBestStats {
    pub user_id: u128,
    pub session_id_num_pics_pairs: Vec<(u128, u8)>,
}

impl UserBestStats {
    /// The user and the pairs.
    pub open spec fn view(self) -> (u128, Seq<(u128, u8)>) {
        (self.user_id, self.session_id_num_pics_pairs@)
    }

    /// Forgets the user and the pairs.
    pub fn clear(&mut self)
        ensures
            final(self)@ == (0u128, Seq::<(u128, u8)>::empty()),
    {
        self.user_id = 0;
        self.session_id_num_pics_pairs = Vec::with_capacity(10);
    }

    /// Names the user. The pairs stay.
    pub fn update_user_id(&mut self, user_id: u128)
        ensures
            final(self)@ == (user_id, old(self)@.1),
    {
        self.user_id = user_id;
    }

    /// Adds a pair at the end.
    pub fn push_session_pics_pair(&mut self, session_id: u128, nb_pics: u8)
        ensures
            final(self)@ == (old(self)@.0, old(self)@.1.push((session_id, nb_pics))),
    {
        self.session_id_num_pics_pairs.push((session_id, nb_pics));
    }

    /// The line of the user in the result.
    pub fn to_line(&self) -> (line: String)
        ensures
            line@ == stats_line(self@.0, self@.1),
    {
        let mut line = String::new();
        push_uuid(&mut line, self.user_id);
        line.push('|');
        let ghost pairs = self.session_id_num_pics_pairs@;
        assert(pairs.take(0) =~= Seq::<(u128, u8)>::empty());
        assert(line@ =~= stats_line(self.user_id, pairs.take(0)));
        let mut i: usize = 0;
        while i < self.session_id_num_pics_pairs.len()
            invariant
                0 <= i <= self.session_id_num_pics_pairs.len(),
                pairs == self.session_id_num_pics_pairs@,
                line@ == stats_line(self.user_id, pairs.take(i as int)),
            decreases self.session_id_num_pics_pairs.len() - i,
        {
            let (session_id, nb_pics) = self.session_id_num_pics_pairs[i];
            proof {
                let t = pairs.take(i + 1);
                assert(t.drop_last() =~= pairs.take(i as int));
                assert(t.last() == (session_id, nb_pics));
            }
            let ghost before = line@;
            push_uuid(&mut line, session_id);
            line.push(':');
            push_decimal(&mut line, nb_pics);
            line.push(',');
            assert(line@ =~= (before + uuid_text(session_id)).push(':') + decimal_text(
                nb_pics as nat,
            ).push(','));
            i += 1;
        }
        assert(pairs.take(i as int) =~= pairs);
        line
    }
}

impl Default for UserBestStats {
    /// No user and no pairs.
    fn default() -> (r: Self)
        ensures
            r@ == (0u128, Seq::<(u128, u8)>::empty()),
    {
        UserBestStats { user_id: 0, session_id_num_pics_pairs: Vec::with_capacity(10) }
    }
}

/// Keeps the pairs of the user at hand while the keys of the days pass by.
pub struct UserFinalizer {
    current_user_best_stats: UserBestStats,
}

impl UserFinalizer {
    /// The user at hand and its pairs so far.
    pub closed spec fn view(self) -> (u128, Seq<(u128, u8)>) {
        self.current_user_best_stats@
    }

    /// Before the first key.
    pub fn new() -> (r: Self)
        ensures
            r@ == (0u128, Seq::<(u128, u8)>::empty()),
    {
        UserFinalizer { current_user_best_stats: UserBestStats::default() }
    }

    /// Takes the next key of the union and hands out the user before, if the
    /// key begins another user. A key that does not have thirty-three bytes
    /// is refused and changes nothing.
    pub fn feed(&mut self, key: &[u8]) -> (r: Result<Option<UserBestStats>, FinalizeError>)
        ensures
            key@.len() != 33 ==> r == Err::<Option<UserBestStats>, FinalizeError>(
                FinalizeError::MalformedKey,
            ) && final(self)@ == old(self)@,
            key@.len() == 33 ==> r is Ok && final(self)@ == week_step_state(old(self)@, key@)
                && match r.unwrap() {
                Some(stats) => week_step_out(old(self)@, key@) == seq![stats@],
                None => week_step_out(old(self)@, key@).len() == 0,
            },
    {
        if key.len() != 33 {
            return Err(FinalizeError::MalformedKey);
        }
        let user = id_from_bytes(key, 0);
        let mut finished: Option<UserBestStats> = None;
        if user != self.current_user_best_stats.user_id {
            let mut next = UserBestStats::default();
            next.update_user_id(user);
            std::mem::swap(&mut self.current_user_best_stats, &mut next);
            if next.user_id != 0 {
                finished = Some(next);
            }
        }
        if self.current_user_best_stats.session_id_num_pics_pairs.len() < 10 {
            let session_id = id_from_bytes(key, 17);
            let nb_pics: u8 = 255 - key[16];
            self.current_user_best_stats.push_session_pics_pair(session_id, nb_pics);
        }
        Ok(finished)
    }

    /// Ends the run: hands out the last user.
    pub fn finish(self) -> (r: Option<UserBestStats>)
        ensures
            match r {
                Some(stats) => week_flushed(self@) == seq![stats@],
                None => week_flushed(self@).len() == 0,
            },
    {
        if self.current_user_best_stats.user_id != 0 {
            Some(self.current_user_best_stats)
        } else {
            None
        }
    }
}

/// The views of some stats.
pub open spec fn stats_view(stats: Seq<UserBestStats>) -> Seq<(u128, Seq<(u128, u8)>)> {
    Seq::new(stats.len(), |i: int| stats[i]@)
}

/// Reads the stored summaries of several days together and hands out, for
/// every user but the user zero, the first ten of the user's keys as pairs
/// of session and sum, users in ascending order.
///
/// The summaries are transducers as `from_batched_fst_maps_to_fst_set` writes
/// them. A key that does not have thirty-three bytes is an error.
pub fn from_fst_sets_to_stats(stored_fst_sets: &Vec<&[u8]>) -> (r: Result<
    Vec<UserBestStats>,
    FinalizeError,
>)
    requires
        forall|i: int|
            0 <= i < stored_fst_sets.len() ==> fst_entries_of((#[trigger] stored_fst_sets[i])@)
                is Some,
    ensures
        match r {
            Ok(stats) => stored_keys(
                item_keys(union_items(contents_of_bytes(stored_fst_sets@))),
            ) && stats_view(stats@) == week_stats(
                item_keys(union_items(contents_of_bytes(stored_fst_sets@))),
            ),
            Err(e) => e == FinalizeError::MalformedKey && !stored_keys(
                item_keys(union_items(contents_of_bytes(stored_fst_sets@))),
            ),
        },
        is_union_of(
            union_items(contents_of_bytes(stored_fst_sets@)),
            contents_of_bytes(stored_fst_sets@),
        ),
{
    let mut fst_sets: Vec<fst::raw::Fst<&[u8]>> = Vec::new();
    let mut n: usize = 0;
    while n < stored_fst_sets.len()
        invariant
            0 <= n <= stored_fst_sets.len(),
            fst_sets.len() == n,
            forall|i: int|
                0 <= i < stored_fst_sets.len() ==> fst_entries_of(
                    (#[trigger] stored_fst_sets[i])@,
                ) is Some,
            forall|i: int|
                0 <= i < n ==> fst_content(#[trigger] fst_sets[i]) == fst_entries_of(
                    stored_fst_sets[i]@,
                ).unwrap(),
        decreases stored_fst_sets.len() - n,
    {
        match fst_open(stored_fst_sets[n]) {
            Ok(set) => {
                fst_sets.push(set);
            },
            Err(_) => {
                assert(false);
            },
        }
        n += 1;
    }
    assert(contents_of(fst_sets@) =~= contents_of_bytes(stored_fst_sets@));
    let mut union = open_union(&fst_sets);
    let ghost keys = item_keys(union_rest(union));
    let ghost items = union_rest(union);
    let mut finalizer = UserFinalizer::new();
    let mut all_stats: Vec<UserBestStats> = Vec::new();
    let mut malformed = false;
    let ghost mut done: int = 0;
    assert(keys.take(0) =~= Seq::<Seq<u8>>::empty());
    assert(items.skip(0) =~= items);
    assert(stats_view(all_stats@) =~= week_emitted(keys.take(0)));
    loop
        invariant_except_break
            !malformed,
            union_rest(union) == items.skip(done),
        invariant
            0 <= done <= items.len(),
            keys == item_keys(items),
            stored_keys(keys.take(done)),
            finalizer@ == week_state(keys.take(done)),
            stats_view(all_stats@) == week_emitted(keys.take(done)),
        ensures
            malformed ==> 0 <= done < items.len() && keys[done].len() != 33,
            !malformed ==> done == items.len() && stored_keys(keys) && finalizer@ == week_state(
                keys,
            ) && stats_view(all_stats@) == week_emitted(keys),
        decreases union_rest(union).len(),
    {
        match union_next(&mut union) {
            None => {
                proof {
                    assert(items.skip(done).len() == 0);
                    assert(keys.take(done) =~= keys);
                }
                break ;
            },
            Some(item) => {
                proof {
                    assert(items.skip(done)[0] == items[done]);
                    assert(items.skip(done).drop_first() =~= items.skip(done + 1));
                    let t = keys.take(done + 1);
                    assert(t.drop_last() =~= keys.take(done));
                    assert(t.last() == items[done].0);
                }
                let ghost before = stats_view(all_stats@);
                match finalizer.feed(item.0.as_slice()) {
                    Err(_) => {
                        malformed = true;
                        break ;
                    },
                    Ok(finished) => {
                        match finished {
                            Some(stats) => {
                                all_stats.push(stats);
                                assert(stats_view(all_stats@) =~= before + seq![stats@]);
                            },
                            None => {
                                assert(stats_view(all_stats@) =~= before + Seq::<
                                    (u128, Seq<(u128, u8)>),
                                >::empty());
                            },
                        }
                        proof {
                            assert forall|i: int| 0 <= i < done + 1 implies (#[trigger] keys.take(
                                done + 1,
                            )[i]).len() == 33 by {
                                if i < done {
                                    assert(keys.take(done)[i] == keys.take(done + 1)[i]);
                                }
                            }
                            done = done + 1;
                        }
                    },
                }
            },
        }
    }
    if malformed {
        return Err(FinalizeError::MalformedKey);
    }
    let ghost before = stats_view(all_stats@);
    match finalizer.finish() {
        Some(stats) => {
            all_stats.push(stats);
            assert(stats_view(all_stats@) =~= before + seq![stats@]);
        },
        None => {
            assert(stats_view(all_stats@) =~= before + Seq::<(u128, Seq<(u128, u8)>)>::empty());
        },
    }
    Ok(all_stats)
}

} // verus!
