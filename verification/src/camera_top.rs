//! The per-camera leaderboard: the hundred best session averages seen so far.
//!
//! An average is carried as the bit pattern of a single-precision number that
//! is neither negative nor a NaN. For such numbers the order of the bit
//! patterns, read as unsigned integers, is the order of the numbers, so the
//! leaderboard compares integers and never rounds anything.

use vstd::prelude::*;

verus! {

/// Bit pattern of positive infinity: the largest pattern that still stands for
/// an average. Larger patterns are NaNs or carry the sign bit.
pub const MAX_AVG_BITS: u32 = 0x7F80_0000;

/// The slot that an unused place holds: the nil session with average zero.
pub open spec fn empty_slot() -> (u128, u32) {
    (0u128, 0u32)
}

/// The view of a leaderboard nobody has been offered to.
pub open spec fn empty_board() -> Seq<(u128, u32)> {
    Seq::new(100, |i: int| empty_slot())
}

/// Averages never grow along the slots.
pub open spec fn descending(s: Seq<(u128, u32)>) -> bool {
    forall|i: int, j: int| 0 <= i <= j < s.len() ==> s[i].1 >= s[j].1
}

/// What every leaderboard satisfies: a hundred slots, best first, each holding
/// the bits of an average.
pub open spec fn well_formed(s: Seq<(u128, u32)>) -> bool {
    &&& s.len() == 100
    &&& descending(s)
    &&& forall|i: int| 0 <= i < 100 ==> s[i].1 <= MAX_AVG_BITS
}

/// How many leading slots hold an average of at least `v`. On a descending
/// sequence this counts all the slots that do.
pub open spec fn rank(s: Seq<(u128, u32)>, v: int) -> int
    decreases s.len(),
{
    if s.len() == 0 {
        0
    } else if s.last().1 >= v {
        s.len() as int
    } else {
        rank(s.drop_last(), v)
    }
}

/// A candidate improves a leaderboard when it is an average strictly above the
/// last slot. A tie with the last slot does not.
pub open spec fn improves(s: Seq<(u128, u32)>, avg_bits: u32) -> bool {
    avg_bits <= MAX_AVG_BITS && s[99].1 < avg_bits
}

/// The leaderboard after an improving candidate took its place: behind every
/// slot that is at least as good, in front of every slot that is worse, the
/// last slot dropped.
pub open spec fn inserted(s: Seq<(u128, u32)>, session: u128, avg_bits: u32) -> Seq<(u128, u32)> {
    let p = rank(s, avg_bits as int);
    s.subrange(0, p).push((session, avg_bits)) + s.subrange(p, s.len() - 1)
}

/// The leaderboard after a candidate was offered: changed only by an
/// improvement.
pub open spec fn offered(s: Seq<(u128, u32)>, session: u128, avg_bits: u32) -> Seq<(u128, u32)> {
    if improves(s, avg_bits) {
        inserted(s, session, avg_bits)
    } else {
        s
    }
}

/// The leaderboard after every slot of `b` was offered to `a`, first slot
/// first.
pub open spec fn offered_all(a: Seq<(u128, u32)>, b: Seq<(u128, u32)>) -> Seq<(u128, u32)>
    decreases b.len(),
{
    if b.len() == 0 {
        a
    } else {
        offered(offered_all(a, b.drop_last()), b.last().0, b.last().1)
    }
}

/// `rank` is bounded by the length and splits a descending sequence in two:
/// the slots before it are at least `v`, the slots from it on are below.
pub proof fn lemma_rank_splits(s: Seq<(u128, u32)>, v: int)
    requires
        descending(s),
    ensures
        0 <= rank(s, v) <= s.len(),
        forall|i: int| 0 <= i < s.len() ==> (i < rank(s, v) <==> s[i].1 >= v),
    decreases s.len(),
{
    if s.len() == 0 {
    } else if s.last().1 >= v {
    } else {
        let t = s.drop_last();
        assert(descending(t)) by {
            assert forall|i: int, j: int| 0 <= i <= j < t.len() implies t[i].1 >= t[j].1 by {
                assert(t[i] == s[i] && t[j] == s[j]);
            }
        }
        lemma_rank_splits(t, v);
        assert forall|i: int| 0 <= i < s.len() implies (i < rank(s, v) <==> s[i].1 >= v) by {
            if i < t.len() {
                assert(t[i] == s[i]);
            }
        }
    }
}

/// The place that splits a descending sequence at `v` is its rank.
pub proof fn lemma_rank_is(s: Seq<(u128, u32)>, v: int, p: int)
    requires
        descending(s),
        0 <= p <= s.len(),
        forall|i: int| 0 <= i < p ==> s[i].1 >= v,
        forall|i: int| p <= i < s.len() ==> s[i].1 < v,
    ensures
        rank(s, v) == p,
{
    lemma_rank_splits(s, v);
    let r = rank(s, v);
    if r < p {
        assert(s[r].1 >= v);
    } else if r > p {
        assert(s[p].1 < v);
    }
}

/// An improving candidate leaves the leaderboard well formed.
pub proof fn lemma_inserted_well_formed(s: Seq<(u128, u32)>, session: u128, avg_bits: u32)
    requires
        well_formed(s),
        improves(s, avg_bits),
    ensures
        well_formed(inserted(s, session, avg_bits)),
        rank(s, avg_bits as int) <= 99,
{
    lemma_rank_splits(s, avg_bits as int);
    let p = rank(s, avg_bits as int);
    let t = inserted(s, session, avg_bits);
    assert(p <= 99) by {
        if p == 100 {
            assert(s[99].1 >= avg_bits);
        }
    }
    assert(t.len() == 100);
    assert forall|i: int| 0 <= i < 100 implies #[trigger] t[i] == (if i < p {
        s[i]
    } else if i == p {
        (session, avg_bits)
    } else {
        s[i - 1]
    }) by {}
    assert forall|i: int, j: int| 0 <= i <= j < t.len() implies t[i].1 >= t[j].1 by {
        assert(t[i] == (if i < p { s[i] } else if i == p { (session, avg_bits) } else { s[i - 1] }));
        assert(t[j] == (if j < p { s[j] } else if j == p { (session, avg_bits) } else { s[j - 1] }));
    }
}

/// Offering a candidate leaves the leaderboard well formed.
pub proof fn lemma_offered_well_formed(s: Seq<(u128, u32)>, session: u128, avg_bits: u32)
    requires
        well_formed(s),
    ensures
        well_formed(offered(s, session, avg_bits)),
{
    if improves(s, avg_bits) {
        lemma_inserted_well_formed(s, session, avg_bits);
    }
}

/// Offering a whole leaderboard leaves the leaderboard well formed.
pub proof fn lemma_offered_all_well_formed(a: Seq<(u128, u32)>, b: Seq<(u128, u32)>)
    requires
        well_formed(a),
    ensures
        well_formed(offered_all(a, b)),
    decreases b.len(),
{
    if b.len() > 0 {
        lemma_offered_all_well_formed(a, b.drop_last());
        lemma_offered_well_formed(offered_all(a, b.drop_last()), b.last().0, b.last().1);
    }
}

/// Once a slot of a descending `b` fails to improve what the slots before it
/// made of `a`, no later slot changes anything.
pub proof fn lemma_offered_all_stops(a: Seq<(u128, u32)>, b: Seq<(u128, u32)>, k: int, n: int)
    requires
        well_formed(a),
        descending(b),
        0 <= k < n <= b.len(),
        !improves(offered_all(a, b.take(k)), b[k].1),
        b[k].1 <= MAX_AVG_BITS,
    ensures
        offered_all(a, b.take(n)) == offered_all(a, b.take(k)),
    decreases n - k,
{
    let prev = b.take(n - 1);
    assert(b.take(n).drop_last() == prev);
    assert(b.take(n).last() == b[n - 1]);
    if n - 1 > k {
        lemma_offered_all_stops(a, b, k, n - 1);
    } else {
        assert(prev == b.take(k));
    }
    assert(offered_all(a, prev) == offered_all(a, b.take(k)));
    assert(b[n - 1].1 <= b[k].1);
}

/// The hundred best session averages of one camera, best first.
///
/// `sessions[i]` is the session whose average is `avg_pics[i]`. Unused slots
/// hold the nil session with average zero and sit at the end.
#[derive(Clone, Copy, Debug)]
pub struct CameraBestAvgPics {
    sessions: [u128; 100],
    avg_pics: [u32; 100],
}

impl CameraBestAvgPics {
    /// The slots as pairs of session and average bits, best first.
    pub closed spec fn view(self) -> Seq<(u128, u32)> {
        Seq::new(100, |i: int| (self.sessions[i], self.avg_pics[i]))
    }

    /// The invariant of the type: the slots are well formed.
    #[verifier::type_invariant]
    pub closed spec fn inv(self) -> bool {
        well_formed(self@)
    }

    /// What the invariant of the type says of the slots.
    pub proof fn lemma_inv(self)
        ensures
            self.inv() == well_formed(self@),
    {
    }

    /// Puts a leaderboard together from its two arrays, if they are one: the
    /// averages descending, none negative or a NaN.
    pub fn from_parts(sessions: [u128; 100], avg_pics: [u32; 100]) -> (r: Option<Self>)
        ensures
            r is Some <==> well_formed(Seq::new(100, |i: int| (sessions[i], avg_pics[i]))),
            r is Some ==> r.unwrap()@ == Seq::new(100, |i: int| (sessions[i], avg_pics[i])),
    {
        let ghost s = Seq::new(100, |i: int| (sessions[i], avg_pics[i]));
        if avg_pics[0] > MAX_AVG_BITS {
            assert(s[0].1 > MAX_AVG_BITS);
            return None;
        }
        let mut i: usize = 1;
        while i < 100
            invariant
                1 <= i <= 100,
                s == Seq::new(100, |i: int| (sessions[i], avg_pics[i])),
                forall|k: int| 0 <= k < i ==> avg_pics[k] <= MAX_AVG_BITS,
                forall|a: int, b: int| 0 <= a <= b < i ==> avg_pics[a] >= avg_pics[b],
            decreases 100 - i,
        {
            if avg_pics[i] > avg_pics[i - 1] {
                assert(s[i - 1].1 < s[i as int].1);
                return None;
            }
            assert forall|a: int, b: int| 0 <= a <= b < i + 1 implies avg_pics[a] >= avg_pics[b] by {
                if b == i && a < i {
                    assert(avg_pics[a] >= avg_pics[i - 1]);
                }
            }
            i += 1;
        }
        Some(CameraBestAvgPics { sessions, avg_pics })
    }

    /// The sessions, best first.
    pub fn sessions(&self) -> (r: [u128; 100])
        ensures
            forall|i: int| 0 <= i < 100 ==> r[i] == self@[i].0,
    {
        self.sessions
    }

    /// The bits of the averages, best first.
    pub fn avg_pics(&self) -> (r: [u32; 100])
        ensures
            forall|i: int| 0 <= i < 100 ==> r[i] == self@[i].1,
            forall|i: int, j: int| 0 <= i <= j < 100 ==> r[i] >= r[j],
            well_formed(self@),
    {
        proof {
            use_type_invariant(self);
            assert forall|i: int, j: int| 0 <= i <= j < 100 implies self.avg_pics[i]
                >= self.avg_pics[j] by {
                assert(self@[i].1 >= self@[j].1);
            }
        }
        self.avg_pics
    }

    /// Whether `avg_bits` is an average strictly above the last slot.
    pub fn is_improvement(&self, avg_bits: u32) -> (b: bool)
        ensures
            b == improves(self@, avg_bits),
    {
        avg_bits <= MAX_AVG_BITS && self.avg_pics[99] < avg_bits
    }

    /// Offers a session's average: an improvement takes its place, anything
    /// else leaves the leaderboard as it was.
    pub fn update_on_improvement(&mut self, session_id: u128, avg_bits: u32)
        ensures
            final(self)@ == offered(old(self)@, session_id, avg_bits),
            well_formed(final(self)@),
    {
        proof {
            use_type_invariant(&*self);
            lemma_offered_well_formed(self@, session_id, avg_bits);
        }
        if self.is_improvement(avg_bits) {
            self.update(session_id, avg_bits);
        }
    }

    /// Writes the candidate into the last slot and lets it climb past every
    /// slot that is strictly worse.
    fn update(&mut self, session_id: u128, avg_bits: u32)
        requires
            improves(old(self)@, avg_bits),
        ensures
            final(self)@ == inserted(old(self)@, session_id, avg_bits),
    {
        proof {
            use_type_invariant(&*self);
        }
        let ghost before = self@;
        let mut sessions = self.sessions;
        let mut avg_pics = self.avg_pics;
        avg_pics[99] = avg_bits;
        sessions[99] = session_id;
        let mut i: usize = 99;
        while i > 0 && avg_pics[i] > avg_pics[i - 1]
            invariant
                0 <= i <= 99,
                well_formed(before),
                avg_pics[i as int] == avg_bits,
                sessions[i as int] == session_id,
                forall|k: int| 0 <= k < i ==> (sessions[k], avg_pics[k]) == before[k],
                forall|k: int| i < k <= 99 ==> (sessions[k], avg_pics[k]) == before[k - 1],
                forall|k: int| i <= k <= 99 ==> before[k].1 < avg_bits,
            decreases i,
        {
            let a: u32 = avg_pics[i - 1];
            avg_pics[i - 1] = avg_pics[i];
            avg_pics[i] = a;
            let s: u128 = sessions[i - 1];
            sessions[i - 1] = sessions[i];
            sessions[i] = s;
            i -= 1;
        }
        proof {
            assert forall|k: int| 0 <= k < i implies before[k].1 >= avg_bits by {
                assert(before[k].1 >= before[i - 1].1);
            }
            lemma_rank_is(before, avg_bits as int, i as int);
            lemma_inserted_well_formed(before, session_id, avg_bits);
            let after = Seq::new(100, |k: int| (sessions[k], avg_pics[k]));
            assert(after =~= inserted(before, session_id, avg_bits));
        }
        *self = CameraBestAvgPics { sessions, avg_pics };
    }

    /// Merges another leaderboard into this one: its slots are offered best
    /// first, and the offering stops at the first slot that is no improvement,
    /// since none behind it can be one.
    pub fn merge(&mut self, other: &CameraBestAvgPics)
        ensures
            final(self)@ == offered_all(old(self)@, other@),
            well_formed(final(self)@),
    {
        proof {
            use_type_invariant(&*self);
            use_type_invariant(other);
            lemma_offered_all_well_formed(self@, other@);
        }
        let ghost before = self@;
        let mut k: usize = 0;
        assert(other@.take(0) =~= Seq::<(u128, u32)>::empty());
        while k < 100
            invariant_except_break
                self@ == offered_all(before, other@.take(k as int)),
            invariant
                0 <= k <= 100,
                well_formed(before),
                well_formed(other@),
            ensures
                self@ == offered_all(before, other@.take(100)),
            decreases 100 - k,
        {
            let session_id: u128 = other.sessions[k];
            let avg_bits: u32 = other.avg_pics[k];
            assert((session_id, avg_bits) == other@[k as int]);
            if self.is_improvement(avg_bits) {
                self.update(session_id, avg_bits);
                proof {
                    let t = other@.take(k + 1);
                    assert(t.drop_last() == other@.take(k as int));
                    assert(t.last() == other@[k as int]);
                }
            } else {
                proof {
                    lemma_offered_all_stops(before, other@, k as int, 100);
                }
                break;
            }
            k += 1;
        }
        proof {
            assert(other@.take(100) == other@);
        }
    }
}

impl std::ops::AddAssign for CameraBestAvgPics {
    /// `a += b` merges `b` into `a`.
    fn add_assign(&mut self, other: CameraBestAvgPics)
        ensures
            final(self)@ == offered_all(old(self)@, other@),
            well_formed(final(self)@),
    {
        self.merge(&other);
    }
}

impl Default for CameraBestAvgPics {
    /// The leaderboard nobody has been offered to: every slot empty.
    fn default() -> (r: Self)
        ensures
            r@ == empty_board(),
            well_formed(r@),
    {
        let r = CameraBestAvgPics { sessions: [0u128; 100], avg_pics: [0u32; 100] };
        assert(r@ =~= empty_board());
        r
    }
}

} // verus!
