//! The per-user leaderboard of one day: the ten best session sums of a user,
//! and the keys under which they are stored.

use crate::key_bytes::{be_bytes, id_to_bytes};
use vstd::prelude::*;

verus! {

/// The sum that marks a slot as empty. It is below every real sum, zero
/// included.
pub const EMPTY_SUM: i16 = -1;

/// The slot that an unused place holds.
pub open spec fn empty_slot() -> (u128, i16) {
    (0u128, EMPTY_SUM)
}

/// The slots of a leaderboard nothing was put into.
pub open spec fn empty_slots() -> Seq<(u128, i16)> {
    Seq::new(10, |i: int| empty_slot())
}

/// `a` may stand before `b`: it has the larger sum, or the same sum and a
/// session that is not larger.
pub open spec fn may_precede(a: (u128, i16), b: (u128, i16)) -> bool {
    a.1 > b.1 || (a.1 == b.1 && a.0 <= b.0)
}

/// `a` is better than `b`: it has the larger sum, or the same sum and the
/// smaller session.
pub open spec fn better(a: (u128, i16), b: (u128, i16)) -> bool {
    a.1 > b.1 || (a.1 == b.1 && a.0 < b.0)
}

/// Each slot is better than every filled slot behind it: the sums never
/// grow, and among equal sums the sessions grow.
pub open spec fn strictly_ordered(s: Seq<(u128, i16)>) -> bool {
    forall|i: int, j: int|
        0 <= i < j < s.len() && s[j].1 >= 0 ==> better(#[trigger] s[i], #[trigger] s[j])
}

/// Whether a filled slot holds the session.
pub open spec fn holds_session(s: Seq<(u128, i16)>, session: u128) -> bool {
    exists|j: int| 0 <= j < s.len() && (#[trigger] s[j]).1 >= 0 && s[j].0 == session
}

/// Sums never grow along the slots, and among equal sums the sessions never
/// shrink.
pub open spec fn ordered(s: Seq<(u128, i16)>) -> bool {
    forall|i: int, j: int| 0 <= i <= j < s.len() ==> may_precede(s[i], s[j])
}

/// What every leaderboard satisfies: ten slots, ordered, each sum a byte or
/// the mark of an empty slot.
pub open spec fn well_formed(s: Seq<(u128, i16)>) -> bool {
    &&& s.len() == 10
    &&& ordered(s)
    &&& forall|i: int| 0 <= i < 10 ==> -1 <= (#[trigger] s[i]).1 <= 255
}

/// How many leading slots may precede `x`. On an ordered sequence this counts
/// all the slots that may.
pub open spec fn rank(s: Seq<(u128, i16)>, x: (u128, i16)) -> int
    decreases s.len(),
{
    if s.len() == 0 {
        0
    } else if may_precede(s.last(), x) {
        s.len() as int
    } else {
        rank(s.drop_last(), x)
    }
}

/// A sum improves a leaderboard when it is strictly above the last slot's.
pub open spec fn improves(s: Seq<(u128, i16)>, sum: int) -> bool {
    0 <= sum <= 255 && s[9].1 < sum
}

/// The leaderboard after an improving session took its place: behind every
/// slot that may precede it, the last slot dropped.
pub open spec fn inserted(s: Seq<(u128, i16)>, session: u128, sum: i16) -> Seq<(u128, i16)> {
    let p = rank(s, (session, sum));
    s.subrange(0, p).push((session, sum)) + s.subrange(p, s.len() - 1)
}

/// The leaderboard after a session sum was offered: changed only by an
/// improvement.
pub open spec fn offered(s: Seq<(u128, i16)>, session: u128, sum: u8) -> Seq<(u128, i16)> {
    if improves(s, sum as int) {
        inserted(s, session, sum as i16)
    } else {
        s
    }
}

/// How many leading slots are filled. On an ordered sequence these are all
/// the filled slots.
pub open spec fn filled(s: Seq<(u128, i16)>) -> int
    decreases s.len(),
{
    if s.len() == 0 {
        0
    } else if s.last().1 >= 0 {
        s.len() as int
    } else {
        filled(s.drop_last())
    }
}

/// The key under which a session sum of a user is stored: the user, then 255
/// less the sum, then the session. Among the keys of one user, larger sums
/// come first, and among equal sums smaller sessions.
pub open spec fn set_key(user: u128, sum: u8, session: u128) -> Seq<u8> {
    be_bytes(user).push((255 - sum) as u8) + be_bytes(session)
}

/// The keys of the filled slots of a leaderboard, in the order of the slots.
pub open spec fn set_keys(user: u128, s: Seq<(u128, i16)>) -> Seq<Seq<u8>> {
    Seq::new(filled(s) as nat, |i: int| set_key(user, s[i].1 as u8, s[i].0))
}

proof fn lemma_drop_last_ordered(s: Seq<(u128, i16)>)
    requires
        ordered(s),
        s.len() > 0,
    ensures
        ordered(s.drop_last()),
{
    let t = s.drop_last();
    assert forall|i: int, j: int| 0 <= i <= j < t.len() implies may_precede(t[i], t[j]) by {
        assert(t[i] == s[i] && t[j] == s[j]);
    }
}

/// `rank` is bounded by the length and splits an ordered sequence in two: the
/// slots before it may precede `x`, the slots from it on may not.
pub proof fn lemma_rank_splits(s: Seq<(u128, i16)>, x: (u128, i16))
    requires
        ordered(s),
    ensures
        0 <= rank(s, x) <= s.len(),
        forall|i: int| 0 <= i < s.len() ==> (i < rank(s, x) <==> may_precede(s[i], x)),
    decreases s.len(),
{
    if s.len() == 0 {
    } else if may_precede(s.last(), x) {
        assert forall|i: int| 0 <= i < s.len() implies may_precede(s[i], x) by {
            assert(may_precede(s[i], s[s.len() - 1]));
        }
    } else {
        let t = s.drop_last();
        lemma_drop_last_ordered(s);
        lemma_rank_splits(t, x);
        assert forall|i: int| 0 <= i < s.len() implies (i < rank(s, x) <==> may_precede(
            s[i],
            x,
        )) by {
            if i < t.len() {
                assert(t[i] == s[i]);
            }
        }
    }
}

/// The place that splits an ordered sequence at `x` is its rank.
pub proof fn lemma_rank_is(s: Seq<(u128, i16)>, x: (u128, i16), p: int)
    requires
        ordered(s),
        0 <= p <= s.len(),
        forall|i: int| 0 <= i < p ==> may_precede(s[i], x),
        forall|i: int| p <= i < s.len() ==> !may_precede(s[i], x),
    ensures
        rank(s, x) == p,
{
    lemma_rank_splits(s, x);
    let r = rank(s, x);
    if r < p {
        assert(may_precede(s[r], x));
    } else if r > p {
        assert(!may_precede(s[p], x));
    }
}

/// The filled slots of an ordered sequence are its first `filled` slots.
pub proof fn lemma_filled_splits(s: Seq<(u128, i16)>)
    requires
        ordered(s),
    ensures
        0 <= filled(s) <= s.len(),
        forall|i: int| 0 <= i < s.len() ==> (i < filled(s) <==> s[i].1 >= 0),
    decreases s.len(),
{
    if s.len() == 0 {
    } else if s.last().1 >= 0 {
        assert forall|i: int| 0 <= i < s.len() implies s[i].1 >= 0 by {
            assert(may_precede(s[i], s[s.len() - 1]));
        }
    } else {
        let t = s.drop_last();
        lemma_drop_last_ordered(s);
        lemma_filled_splits(t);
        assert forall|i: int| 0 <= i < s.len() implies (i < filled(s) <==> s[i].1 >= 0) by {
            if i < t.len() {
                assert(t[i] == s[i]);
            }
        }
    }
}

/// An improving session leaves the leaderboard well formed.
pub proof fn lemma_inserted_well_formed(s: Seq<(u128, i16)>, session: u128, sum: i16)
    requires
        well_formed(s),
        improves(s, sum as int),
    ensures
        well_formed(inserted(s, session, sum)),
        rank(s, (session, sum)) <= 9,
{
    let x = (session, sum);
    lemma_rank_splits(s, x);
    let p = rank(s, x);
    let t = inserted(s, session, sum);
    assert(p <= 9) by {
        if p == 10 {
            assert(may_precede(s[9], x));
        }
    }
    assert forall|i: int| 0 <= i < 10 implies #[trigger] t[i] == (if i < p {
        s[i]
    } else if i == p {
        x
    } else {
        s[i - 1]
    }) by {}
    assert forall|i: int, j: int| 0 <= i <= j < t.len() implies may_precede(t[i], t[j]) by {
        assert(t[i] == (if i < p { s[i] } else if i == p { x } else { s[i - 1] }));
        assert(t[j] == (if j < p { s[j] } else if j == p { x } else { s[j - 1] }));
        if i < p && j > p {
            assert(may_precede(s[i], s[j - 1]));
        } else if i > p {
            assert(may_precede(s[i - 1], s[j - 1]));
        } else if i == p && j > p {
            assert(!may_precede(s[j - 1], x));
        } else if j == p && i < p {
            assert(may_precede(s[i], x));
        }
    }
}

/// Where each slot is better than every filled slot behind it, and the
/// session stands in no filled slot, that is so after the session took its
/// place: sessions of equal sums stay in strictly ascending order.
pub proof fn lemma_inserted_strictly_ordered(s: Seq<(u128, i16)>, session: u128, sum: i16)
    requires
        well_formed(s),
        improves(s, sum as int),
        strictly_ordered(s),
        !holds_session(s, session),
    ensures
        strictly_ordered(inserted(s, session, sum)),
{
    let x = (session, sum);
    lemma_rank_splits(s, x);
    lemma_inserted_well_formed(s, session, sum);
    let p = rank(s, x);
    let t = inserted(s, session, sum);
    assert forall|i: int| 0 <= i < 10 implies #[trigger] t[i] == (if i < p {
        s[i]
    } else if i == p {
        x
    } else {
        s[i - 1]
    }) by {}
    assert forall|i: int, j: int| 0 <= i < j < t.len() && t[j].1 >= 0 implies better(
        #[trigger] t[i],
        #[trigger] t[j],
    ) by {
        if j == p {
            assert(t[i] == s[i]);
            assert(may_precede(s[i], x));
            assert(s[i].1 >= 0);
            assert(s[i].0 != session);
        } else if i == p {
            assert(t[j] == s[j - 1]);
            assert(!may_precede(s[j - 1], x));
        } else {
            let si = if i < p {
                i
            } else {
                i - 1
            };
            let sj = if j < p {
                j
            } else {
                j - 1
            };
            assert(t[i] == s[si] && t[j] == s[sj]);
            assert(better(s[si], s[sj]));
        }
    }
}

/// Offering a session sum leaves the leaderboard well formed.
pub proof fn lemma_offered_well_formed(s: Seq<(u128, i16)>, session: u128, sum: u8)
    requires
        well_formed(s),
    ensures
        well_formed(offered(s, session, sum)),
{
    if improves(s, sum as int) {
        lemma_inserted_well_formed(s, session, sum as i16);
    }
}

/// The ten best session sums of one user on one day, best first.
///
/// `best_session_ids[i]` is the session whose sum is
/// `best_pics_in_sessions[i]`. An empty slot holds the sum -1, so that a
/// session in which no picture was taken can still be told from no session.
#[derive(Clone, Copy, Debug)]
pub struct UserBestSumPics {
    user_id: u128,
    best_session_ids: [u128; 10],
    best_pics_in_sessions: [i16; 10],
}

impl UserBestSumPics {
    /// The slots as pairs of session and sum, best first.
    pub closed spec fn view(self) -> Seq<(u128, i16)> {
        Seq::new(10, |i: int| (self.best_session_ids[i], self.best_pics_in_sessions[i]))
    }

    /// The user whose leaderboard this is.
    pub closed spec fn user(self) -> u128 {
        self.user_id
    }

    /// The invariant of the type: the slots are well formed.
    #[verifier::type_invariant]
    pub closed spec fn inv(self) -> bool {
        well_formed(self@)
    }

    /// What the invariant of the type says of the slots.
    pub proof fn lemma_inv(self)
        ensures
            self.inv() == well_formed(self@),
    {
    }

    /// The user whose leaderboard this is.
    pub fn user_id(&self) -> (r: u128)
        ensures
            r == self.user(),
    {
        self.user_id
    }

    /// The sessions, best first.
    pub fn session_ids(&self) -> (r: [u128; 10])
        ensures
            forall|i: int| 0 <= i < 10 ==> r[i] == self@[i].0,
    {
        self.best_session_ids
    }

    /// The sums, best first; -1 in an empty slot.
    pub fn sums(&self) -> (r: [i16; 10])
        ensures
            forall|i: int| 0 <= i < 10 ==> r[i] == self@[i].1,
            well_formed(self@),
    {
        proof {
            use_type_invariant(self);
        }
        self.best_pics_in_sessions
    }

    /// Empties every slot and forgets the user.
    pub fn clear(&mut self)
        ensures
            final(self)@ == empty_slots(),
            final(self).user() == 0,
    {
        *self = UserBestSumPics::default();
    }

    /// Names the user whose leaderboard this is. The slots stay.
    pub fn update_user_id(&mut self, user_id: u128)
        ensures
            final(self)@ == old(self)@,
            final(self).user() == user_id,
    {
        proof {
            use_type_invariant(&*self);
        }
        let ghost before = self@;
        self.user_id = user_id;
        assert(self@ =~= before);
    }

    /// Whether `sum_pics` is strictly above the last slot's sum.
    pub fn is_improvement(&self, sum_pics: u8) -> (b: bool)
        ensures
            b == improves(self@, sum_pics as int),
    {
        (sum_pics as i16) > self.best_pics_in_sessions[9]
    }

    /// Offers a session sum: an improvement takes its place, anything else
    /// leaves the leaderboard as it was.
    pub fn update_on_improvement(&mut self, session_id: u128, sum_pics: u8)
        ensures
            final(self)@ == offered(old(self)@, session_id, sum_pics),
            final(self).user() == old(self).user(),
            well_formed(final(self)@),
            strictly_ordered(old(self)@) && !holds_session(old(self)@, session_id)
                ==> strictly_ordered(final(self)@),
    {
        proof {
            use_type_invariant(&*self);
            lemma_offered_well_formed(self@, session_id, sum_pics);
        }
        if self.is_improvement(sum_pics) {
            self.update(session_id, sum_pics);
        }
    }

    /// Puts a session whose sum is above the last slot's into the last slot
    /// and lets it climb past every slot with a smaller sum, and past every
    /// slot with the same sum and a larger session. The sums stay in
    /// descending order, and sessions of equal sums in ascending order:
    /// strictly so where they were and the session stood in no filled slot.
    pub fn update(&mut self, session_id: u128, sum_pics: u8)
        requires
            old(self)@[9].1 < sum_pics,
        ensures
            final(self)@ == inserted(old(self)@, session_id, sum_pics as i16),
            final(self).user() == old(self).user(),
            well_formed(final(self)@),
            well_formed(old(self)@),
            strictly_ordered(old(self)@) && !holds_session(old(self)@, session_id)
                ==> strictly_ordered(final(self)@),
    {
        proof {
            use_type_invariant(&*self);
            if strictly_ordered(self@) && !holds_session(self@, session_id) {
                lemma_inserted_strictly_ordered(self@, session_id, sum_pics as i16);
            }
        }
        let sum_pics: i16 = sum_pics as i16;
        let ghost before = self@;
        let ghost x = (session_id, sum_pics);
        let mut ids = self.best_session_ids;
        let mut sums = self.best_pics_in_sessions;
        ids[9] = session_id;
        sums[9] = sum_pics;
        let mut i: usize = 9;
        while i > 0 && (sums[i] > sums[i - 1] || (sums[i] == sums[i - 1] && ids[i - 1] > ids[i]))
            invariant
                0 <= i <= 9,
                well_formed(before),
                x == (session_id, sum_pics),
                ids[i as int] == session_id,
                sums[i as int] == sum_pics,
                forall|k: int| 0 <= k < i ==> (ids[k], sums[k]) == before[k],
                forall|k: int| i < k <= 9 ==> (ids[k], sums[k]) == before[k - 1],
                forall|k: int| i <= k <= 9 ==> !may_precede(before[k], x),
            decreases i,
        {
            let s: i16 = sums[i - 1];
            sums[i - 1] = sums[i];
            sums[i] = s;
            let id: u128 = ids[i - 1];
            ids[i - 1] = ids[i];
            ids[i] = id;
            i -= 1;
        }
        proof {
            assert forall|k: int| 0 <= k < i implies may_precede(before[k], x) by {
                assert(may_precede(before[k], before[i - 1]));
                assert(may_precede(before[i - 1], x));
            }
            lemma_rank_is(before, x, i as int);
            lemma_inserted_well_formed(before, session_id, sum_pics);
            let after = Seq::new(10, |k: int| (ids[k], sums[k]));
            assert(after =~= inserted(before, session_id, sum_pics));
        }
        *self = UserBestSumPics {
            user_id: self.user_id,
            best_session_ids: ids,
            best_pics_in_sessions: sums,
        };
    }
}

impl Default for UserBestSumPics {
    /// The leaderboard of no user, every slot empty.
    fn default() -> (r: Self)
        ensures
            r@ == empty_slots(),
            r.user() == 0,
    {
        let r = UserBestSumPics {
            user_id: 0,
            best_session_ids: [0u128; 10],
            best_pics_in_sessions: [-1i16; 10],
        };
        assert(r@ =~= empty_slots());
        r
    }
}

/// The keys under which the filled slots of a leaderboard are stored, in the
/// order of the slots, which is the ascending order of the keys.
pub fn fst_set_keys_iter(user_best_sum_pics: &UserBestSumPics) -> (keys: Vec<Vec<u8>>)
    ensures
        keys.len() == filled(user_best_sum_pics@),
        forall|i: int|
            0 <= i < keys.len() ==> (#[trigger] keys[i])@ == set_keys(
                user_best_sum_pics.user(),
                user_best_sum_pics@,
            )[i],
{
    proof {
        use_type_invariant(user_best_sum_pics);
        lemma_filled_splits(user_best_sum_pics@);
    }
    let user = id_to_bytes(user_best_sum_pics.user_id);
    let mut keys: Vec<Vec<u8>> = Vec::new();
    let mut i: usize = 0;
    while i < 10 && user_best_sum_pics.best_pics_in_sessions[i] >= 0
        invariant
            0 <= i <= 10,
            well_formed(user_best_sum_pics@),
            user@ == be_bytes(user_best_sum_pics.user()),
            keys.len() == i,
            forall|k: int| 0 <= k < i ==> user_best_sum_pics@[k].1 >= 0,
            forall|k: int|
                0 <= k < i ==> (#[trigger] keys[k])@ == set_key(
                    user_best_sum_pics.user(),
                    user_best_sum_pics@[k].1 as u8,
                    user_best_sum_pics@[k].0,
                ),
        decreases 10 - i,
    {
        let sum: i16 = user_best_sum_pics.best_pics_in_sessions[i];
        let session = id_to_bytes(user_best_sum_pics.best_session_ids[i]);
        assert(user_best_sum_pics@[i as int] == (user_best_sum_pics.best_session_ids[i as int], sum));
        assert(0 <= sum <= 255);
        let mut key: Vec<u8> = Vec::with_capacity(33);
        let mut j: usize = 0;
        while j < 16
            invariant
                0 <= j <= 16,
                key@ == user@.take(j as int),
            decreases 16 - j,
        {
            key.push(user[j]);
            assert(key@ =~= user@.take(j + 1));
            j += 1;
        }
        assert(user@.take(16) =~= user@);
        key.push(255 - (sum as u8));
        assert(key@ =~= user@.push((255 - sum) as u8) + session@.take(0));
        let mut j: usize = 0;
        while j < 16
            invariant
                0 <= j <= 16,
                0 <= sum <= 255,
                key@ == user@.push((255 - sum) as u8) + session@.take(j as int),
            decreases 16 - j,
        {
            key.push(session[j]);
            assert(key@ =~= user@.push((255 - sum) as u8) + session@.take(j + 1));
            j += 1;
        }
        assert(session@.take(16) =~= session@);
        keys.push(key);
        i += 1;
    }
    proof {
        let s = user_best_sum_pics@;
        if i < 10 {
            assert(s[i as int].1 < 0);
        }
        if filled(s) < i {
            assert(s[filled(s)].1 >= 0);
        }
    }
    keys
}

} // verus!
