//! Sorting a batch by user and session, and collecting the rows of one user
//! in one session into one row with the sum of their pictures.
//!
//! A sum is kept in a byte and stops at 255: what a batch holds beyond that
//! for one user in one session is not counted.

use crate::record::UserSessionRecord;
use rayon::slice::ParallelSliceMut;
use std::cmp::Ordering;
use vstd::prelude::*;

verus! {

/// The largest sum, as a sum stops there.
pub open spec fn capped(n: nat) -> u8 {
    if n > 255 {
        255u8
    } else {
        n as u8
    }
}

/// The pictures that the rows of key `k` hold together.
pub open spec fn total(s: Seq<(UserSessionRecord, u8)>, k: UserSessionRecord) -> nat
    decreases s.len(),
{
    if s.len() == 0 {
        0
    } else {
        total(s.drop_last(), k) + if s.last().0 == k {
            s.last().1 as nat
        } else {
            0
        }
    }
}

/// Whether some row has key `k`.
pub open spec fn occurs(s: Seq<(UserSessionRecord, u8)>, k: UserSessionRecord) -> bool {
    exists|i: int| 0 <= i < s.len() && (#[trigger] s[i]).0 == k
}

/// No row stands before a row with a smaller key.
pub open spec fn sorted_by_key(s: Seq<(UserSessionRecord, u8)>) -> bool {
    forall|i: int, j: int| 0 <= i <= j < s.len() ==> !s[j].0.precedes(s[i].0)
}

/// Each row has a larger key than the row before it.
pub open spec fn strictly_ascending(s: Seq<(UserSessionRecord, u8)>) -> bool {
    forall|i: int, j: int| 0 <= i < j < s.len() ==> s[i].0.precedes(s[j].0)
}

/// The sum of two sums, which stops at 255.
pub open spec fn sum_of(a: u8, b: u8) -> u8 {
    capped((a + b) as nat)
}

/// What collecting makes of a run of rows: a row with the key of the row
/// before it is added to that row, any other row stays.
pub open spec fn collected(s: Seq<(UserSessionRecord, u8)>) -> Seq<(UserSessionRecord, u8)>
    decreases s.len(),
{
    if s.len() == 0 {
        Seq::empty()
    } else {
        let before = collected(s.drop_last());
        let r = s.last();
        if before.len() > 0 && before.last().0 == r.0 {
            before.drop_last().push((r.0, sum_of(before.last().1, r.1)))
        } else {
            before.push(r)
        }
    }
}

/// `r` sums up `s`: it holds one row for each key of `s` and no other, in
/// ascending order of the keys, with the pictures of all rows of that key.
pub open spec fn is_summary(
    r: Seq<(UserSessionRecord, u8)>,
    s: Seq<(UserSessionRecord, u8)>,
) -> bool {
    &&& strictly_ascending(r)
    &&& forall|i: int|
        0 <= i < r.len() ==> occurs(s, (#[trigger] r[i]).0) && r[i].1 == capped(total(s, r[i].0))
    &&& forall|j: int| 0 <= j < s.len() ==> occurs(r, (#[trigger] s[j]).0)
}

/// The order of two keys: by user, then by session.
pub fn key_ordering(a: &UserSessionRecord, b: &UserSessionRecord) -> (o: Ordering)
    ensures
        o is Less <==> a.precedes(*b),
        o is Greater <==> b.precedes(*a),
        o is Equal <==> *a == *b,
{
    if a.user_id < b.user_id {
        Ordering::Less
    } else if a.user_id > b.user_id {
        Ordering::Greater
    } else if a.session_id < b.session_id {
        Ordering::Less
    } else if a.session_id > b.session_id {
        Ordering::Greater
    } else {
        Ordering::Equal
    }
}

/// Sorts the rows by key with rayon's `par_sort_unstable_by`, which sorts a
/// slice in place by the comparison it is given and may reorder rows that
/// compare equal. The contract claims what that documentation promises for a
/// total order: the same rows come out, none before a row with a smaller key.
#[verifier::external_body]
fn par_sort_by_key(record_pairs: &mut Vec<(UserSessionRecord, u8)>)
    ensures
        final(record_pairs)@.to_multiset() == old(record_pairs)@.to_multiset(),
        sorted_by_key(final(record_pairs)@),
{
    record_pairs.par_sort_unstable_by(|x, y| key_ordering(&x.0, &y.0));
}

/// Collects rows that follow each other with one key into one row, with the
/// sum of their pictures.
pub fn collect_sorted_splitted_user_records(record_pairs: &mut Vec<(UserSessionRecord, u8)>)
    ensures
        final(record_pairs)@ == collected(old(record_pairs)@),
{
    let ghost before = record_pairs@;
    if record_pairs.len() == 0 {
        return ;
    }
    let mut w: usize = 0;
    let mut r: usize = 1;
    proof {
        let one = before.take(1);
        assert(one.drop_last() =~= Seq::<(UserSessionRecord, u8)>::empty());
        assert(collected(one.drop_last()).len() == 0);
        assert(collected(one) == collected(one.drop_last()).push(one.last()));
        assert(collected(one) =~= record_pairs@.take(1));
    }
    while r < record_pairs.len()
        invariant
            0 <= w < r <= record_pairs.len(),
            record_pairs.len() == before.len(),
            record_pairs@.take(w + 1) == collected(before.take(r as int)),
            forall|k: int| r <= k < before.len() ==> record_pairs@[k] == before[k],
        decreases record_pairs.len() - r,
    {
        let ghost so_far = collected(before.take(r as int));
        proof {
            let t = before.take(r + 1);
            assert(t.drop_last() =~= before.take(r as int));
            assert(t.last() == before[r as int]);
            assert(so_far.last() == record_pairs@[w as int]);
        }
        let next = record_pairs[r];
        let kept = record_pairs[w];
        if next.0.user_id == kept.0.user_id && next.0.session_id == kept.0.session_id {
            let sum: u8 = if kept.1 as u16 + next.1 as u16 > 255 {
                255
            } else {
                kept.1 + next.1
            };
            record_pairs.set(w, (kept.0, sum));
            assert(record_pairs@.take(w + 1) =~= so_far.drop_last().push(
                (next.0, sum_of(kept.1, next.1)),
            ));
        } else {
            w += 1;
            record_pairs.set(w, next);
            assert(record_pairs@.take(w + 1) =~= so_far.push(next));
        }
        r += 1;
    }
    assert(before.take(r as int) =~= before);
    record_pairs.truncate(w + 1);
}

/// Sorts a batch by key and collects the rows of each key into one.
pub fn sort_collect_splitted_user_records(record_pairs: &mut Vec<(UserSessionRecord, u8)>)
    ensures
        is_summary(final(record_pairs)@, old(record_pairs)@),
        final(record_pairs)@ == summary_of(old(record_pairs)@),
        final(record_pairs).len() <= old(record_pairs).len(),
{
    par_sort_by_key(record_pairs);
    let ghost sorted = record_pairs@;
    collect_sorted_splitted_user_records(record_pairs);
    proof {
        lemma_collected_summary(sorted);
        lemma_summary_of_same_rows(record_pairs@, sorted, old(record_pairs)@);
        lemma_summary_is(record_pairs@, old(record_pairs)@);
        sorted.to_multiset_ensures();
        old(record_pairs)@.to_multiset_ensures();
    }
}

/// Rows without key `k` hold no pictures of it.
pub proof fn lemma_total_absent(s: Seq<(UserSessionRecord, u8)>, k: UserSessionRecord)
    requires
        !occurs(s, k),
    ensures
        total(s, k) == 0,
    decreases s.len(),
{
    if s.len() > 0 {
        assert(s[s.len() - 1].0 != k);
        assert forall|i: int| 0 <= i < s.drop_last().len() implies (#[trigger] s.drop_last()[i]).0
            != k by {
            assert(s[i].0 != k);
        }
        lemma_total_absent(s.drop_last(), k);
    }
}

/// Taking one row out lowers the pictures of its key by its pictures, and
/// those of no other key.
pub proof fn lemma_total_remove(s: Seq<(UserSessionRecord, u8)>, j: int, k: UserSessionRecord)
    requires
        0 <= j < s.len(),
    ensures
        total(s, k) == total(s.remove(j), k) + if s[j].0 == k {
            s[j].1 as nat
        } else {
            0
        },
    decreases s.len(),
{
    if j == s.len() - 1 {
        assert(s.remove(j) =~= s.drop_last());
    } else {
        lemma_total_remove(s.drop_last(), j, k);
        assert(s.remove(j).drop_last() =~= s.drop_last().remove(j));
        assert(s.remove(j).last() == s.last());
    }
}

/// The pictures of a key do not depend on the order of the rows.
pub proof fn lemma_total_of_same_rows(
    s: Seq<(UserSessionRecord, u8)>,
    t: Seq<(UserSessionRecord, u8)>,
    k: UserSessionRecord,
)
    requires
        s.to_multiset() == t.to_multiset(),
    ensures
        total(s, k) == total(t, k),
    decreases s.len(),
{
    broadcast use vstd::seq_lib::group_to_multiset_ensures;

    s.to_multiset_ensures();
    t.to_multiset_ensures();
    if s.len() == 0 {
        assert(t.len() == 0);
    } else {
        let x = s.last();
        let s1 = s.drop_last();
        assert(s =~= s1.push(x));
        assert(s.to_multiset().count(x) > 0);
        assert(t.contains(x));
        let j = choose|j: int| 0 <= j < t.len() && t[j] == x;
        let t1 = t.remove(j);
        assert(s1.to_multiset() =~= s.to_multiset().remove(x));
        assert(t1.to_multiset() =~= t.to_multiset().remove(x));
        lemma_total_of_same_rows(s1, t1, k);
        lemma_total_remove(t, j, k);
    }
}

/// Whether a key occurs does not depend on the order of the rows.
pub proof fn lemma_occurs_of_same_rows(
    s: Seq<(UserSessionRecord, u8)>,
    t: Seq<(UserSessionRecord, u8)>,
    k: UserSessionRecord,
)
    requires
        s.to_multiset() == t.to_multiset(),
        occurs(s, k),
    ensures
        occurs(t, k),
{
    broadcast use vstd::seq_lib::group_to_multiset_ensures;

    s.to_multiset_ensures();
    t.to_multiset_ensures();
    let i = choose|i: int| 0 <= i < s.len() && (#[trigger] s[i]).0 == k;
    assert(s.contains(s[i]));
    assert(t.to_multiset().count(s[i]) > 0);
    assert(t.contains(s[i]));
    let j = choose|j: int| 0 <= j < t.len() && t[j] == s[i];
    assert(t[j].0 == k);
}

/// What sums up some rows sums up the same rows in any order.
pub proof fn lemma_summary_of_same_rows(
    r: Seq<(UserSessionRecord, u8)>,
    t: Seq<(UserSessionRecord, u8)>,
    s: Seq<(UserSessionRecord, u8)>,
)
    requires
        is_summary(r, t),
        t.to_multiset() == s.to_multiset(),
    ensures
        is_summary(r, s),
{
    assert forall|i: int| 0 <= i < r.len() implies occurs(s, (#[trigger] r[i]).0) && r[i].1
        == capped(total(s, r[i].0)) by {
        lemma_occurs_of_same_rows(t, s, r[i].0);
        lemma_total_of_same_rows(t, s, r[i].0);
    }
    assert forall|j: int| 0 <= j < s.len() implies occurs(r, (#[trigger] s[j]).0) by {
        assert(occurs(s, s[j].0));
        lemma_occurs_of_same_rows(s, t, s[j].0);
        let i = choose|i: int| 0 <= i < t.len() && (#[trigger] t[i]).0 == s[j].0;
        assert(occurs(r, t[i].0));
    }
}

/// Collecting sorted rows sums them up.
pub proof fn lemma_collected_summary(s: Seq<(UserSessionRecord, u8)>)
    requires
        sorted_by_key(s),
    ensures
        is_summary(collected(s), s),
        s.len() > 0 ==> collected(s).len() > 0 && collected(s).last().0 == s.last().0,
        collected(s).len() <= s.len(),
    decreases s.len(),
{
    if s.len() > 0 {
        let s1 = s.drop_last();
        let x = s.last();
        assert(sorted_by_key(s1)) by {
            assert forall|i: int, j: int| 0 <= i <= j < s1.len() implies !s1[j].0.precedes(
                s1[i].0,
            ) by {
                assert(s1[i] == s[i] && s1[j] == s[j]);
            }
        }
        lemma_collected_summary(s1);
        let prev = collected(s1);
        let c = collected(s);
        // every key of the rows before is at most the key of the last row
        assert forall|i: int| 0 <= i < prev.len() implies !x.0.precedes((#[trigger] prev[i]).0) by {
            assert(occurs(s1, prev[i].0));
            let j = choose|j: int| 0 <= j < s1.len() && (#[trigger] s1[j]).0 == prev[i].0;
            assert(s1[j] == s[j]);
            assert(!s[s.len() - 1].0.precedes(s[j].0));
        }
        if prev.len() > 0 && prev.last().0 == x.0 {
            let n = prev.len() - 1;
            assert forall|i: int, j: int| 0 <= i < j < c.len() implies c[i].0.precedes(
                c[j].0,
            ) by {
                assert(c[i].0 == prev[i].0 && c[j].0 == prev[j].0);
            }
            assert forall|i: int| 0 <= i < c.len() implies occurs(s, (#[trigger] c[i]).0) && c[i].1
                == capped(total(s, c[i].0)) by {
                assert(occurs(s1, prev[i].0));
                let j = choose|j: int| 0 <= j < s1.len() && (#[trigger] s1[j]).0 == prev[i].0;
                assert(s[j].0 == c[i].0);
                if i < n {
                    assert(c[i] == prev[i]);
                    assert(prev[i].0.precedes(prev[n].0));
                }
            }
            assert forall|j: int| 0 <= j < s.len() implies occurs(c, (#[trigger] s[j]).0) by {
                if j < s1.len() {
                    assert(s1[j] == s[j]);
                    assert(occurs(prev, s1[j].0));
                    let i = choose|i: int| 0 <= i < prev.len() && (#[trigger] prev[i]).0 == s[j].0;
                    assert(c[i].0 == s[j].0);
                } else {
                    assert(c[n].0 == s[j].0);
                }
            }
        } else {
            assert forall|i: int| 0 <= i < prev.len() implies (#[trigger] prev[i]).0.precedes(
                x.0,
            ) by {
                if i < prev.len() - 1 {
                    assert(prev[i].0.precedes(prev[prev.len() - 1].0));
                }
                assert(!x.0.precedes(prev[prev.len() - 1].0));
                assert(!x.0.precedes(prev[i].0));
            }
            assert(!occurs(s1, x.0)) by {
                if occurs(s1, x.0) {
                    let j = choose|j: int| 0 <= j < s1.len() && (#[trigger] s1[j]).0 == x.0;
                    assert(occurs(prev, s1[j].0));
                    let i = choose|i: int| 0 <= i < prev.len() && (#[trigger] prev[i]).0 == x.0;
                    assert(prev[i].0.precedes(x.0));
                }
            }
            lemma_total_absent(s1, x.0);
            assert forall|i: int, j: int| 0 <= i < j < c.len() implies c[i].0.precedes(
                c[j].0,
            ) by {
                assert(c[i] == prev[i]);
                if j < prev.len() {
                    assert(c[j] == prev[j]);
                }
            }
            assert forall|i: int| 0 <= i < c.len() implies occurs(s, (#[trigger] c[i]).0) && c[i].1
                == capped(total(s, c[i].0)) by {
                if i < prev.len() {
                    assert(c[i] == prev[i]);
                    assert(occurs(s1, prev[i].0));
                    let j = choose|j: int| 0 <= j < s1.len() && (#[trigger] s1[j]).0 == prev[i].0;
                    assert(s[j].0 == c[i].0);
                    assert(prev[i].0.precedes(x.0));
                } else {
                    assert(s[s.len() - 1].0 == c[i].0);
                }
            }
            assert forall|j: int| 0 <= j < s.len() implies occurs(c, (#[trigger] s[j]).0) by {
                if j < s1.len() {
                    assert(s1[j] == s[j]);
                    assert(occurs(prev, s1[j].0));
                    let i = choose|i: int| 0 <= i < prev.len() && (#[trigger] prev[i]).0 == s[j].0;
                    assert(c[i].0 == s[j].0);
                } else {
                    assert(c[c.len() - 1].0 == s[j].0);
                }
            }
        }
    }
}

/// Two runs of rows of strictly ascending keys that hold the same keys hold
/// them at the same places.
pub proof fn lemma_same_keys(r1: Seq<(UserSessionRecord, u8)>, r2: Seq<(UserSessionRecord, u8)>)
    requires
        strictly_ascending(r1),
        strictly_ascending(r2),
        forall|i: int| 0 <= i < r1.len() ==> occurs(r2, (#[trigger] r1[i]).0),
        forall|j: int| 0 <= j < r2.len() ==> occurs(r1, (#[trigger] r2[j]).0),
    ensures
        r1.len() == r2.len(),
        forall|i: int| 0 <= i < r1.len() ==> (#[trigger] r1[i]).0 == r2[i].0,
    decreases r1.len(),
{
    if r1.len() == 0 {
        if r2.len() > 0 {
            assert(occurs(r1, r2[0].0));
        }
    } else {
        let n1 = r1.len() - 1;
        assert(occurs(r2, r1[n1].0));
        let j = choose|j: int| 0 <= j < r2.len() && (#[trigger] r2[j]).0 == r1[n1].0;
        let n2 = r2.len() - 1;
        assert(occurs(r1, r2[n2].0));
        let i = choose|i: int| 0 <= i < r1.len() && (#[trigger] r1[i]).0 == r2[n2].0;
        if i < n1 {
            assert(r1[i].0.precedes(r1[n1].0));
        }
        if j < n2 {
            assert(r2[j].0.precedes(r2[n2].0));
        }
        assert(i == n1 && j == n2);
        let f1 = r1.drop_last();
        let f2 = r2.drop_last();
        assert(strictly_ascending(f1)) by {
            assert forall|a: int, b: int| 0 <= a < b < f1.len() implies f1[a].0.precedes(
                f1[b].0,
            ) by {
                assert(f1[a] == r1[a] && f1[b] == r1[b]);
            }
        }
        assert(strictly_ascending(f2)) by {
            assert forall|a: int, b: int| 0 <= a < b < f2.len() implies f2[a].0.precedes(
                f2[b].0,
            ) by {
                assert(f2[a] == r2[a] && f2[b] == r2[b]);
            }
        }
        assert forall|a: int| 0 <= a < f1.len() implies occurs(f2, (#[trigger] f1[a]).0) by {
            assert(f1[a] == r1[a]);
            assert(occurs(r2, r1[a].0));
            let b = choose|b: int| 0 <= b < r2.len() && (#[trigger] r2[b]).0 == r1[a].0;
            assert(r1[a].0.precedes(r1[n1].0));
            assert(b != n2);
            assert(f2[b] == r2[b]);
        }
        assert forall|b: int| 0 <= b < f2.len() implies occurs(f1, (#[trigger] f2[b]).0) by {
            assert(f2[b] == r2[b]);
            assert(occurs(r1, r2[b].0));
            let a = choose|a: int| 0 <= a < r1.len() && (#[trigger] r1[a]).0 == r2[b].0;
            assert(r2[b].0.precedes(r2[n2].0));
            assert(a != n1);
            assert(f1[a] == r1[a]);
        }
        lemma_same_keys(f1, f2);
        assert forall|a: int| 0 <= a < r1.len() implies (#[trigger] r1[a]).0 == r2[a].0 by {
            if a < n1 {
                assert(f1[a] == r1[a] && f2[a] == r2[a]);
            }
        }
    }
}

/// Some rows have one summary only.
pub proof fn lemma_summary_unique(
    r1: Seq<(UserSessionRecord, u8)>,
    r2: Seq<(UserSessionRecord, u8)>,
    s: Seq<(UserSessionRecord, u8)>,
)
    requires
        is_summary(r1, s),
        is_summary(r2, s),
    ensures
        r1 == r2,
{
    assert forall|i: int| 0 <= i < r1.len() implies occurs(r2, (#[trigger] r1[i]).0) by {
        assert(occurs(s, r1[i].0));
        let j = choose|j: int| 0 <= j < s.len() && (#[trigger] s[j]).0 == r1[i].0;
        assert(occurs(r2, s[j].0));
    }
    assert forall|i: int| 0 <= i < r2.len() implies occurs(r1, (#[trigger] r2[i]).0) by {
        assert(occurs(s, r2[i].0));
        let j = choose|j: int| 0 <= j < s.len() && (#[trigger] s[j]).0 == r2[i].0;
        assert(occurs(r1, s[j].0));
    }
    lemma_same_keys(r1, r2);
    assert forall|i: int| 0 <= i < r1.len() implies r1[i] == r2[i] by {
        assert(r1[i].0 == r2[i].0);
        assert(r1[i].1 == capped(total(s, r1[i].0)));
        assert(r2[i].1 == capped(total(s, r2[i].0)));
    }
    assert(r1 =~= r2);
}

/// The summary of some rows.
pub open spec fn summary_of(s: Seq<(UserSessionRecord, u8)>) -> Seq<(UserSessionRecord, u8)> {
    choose|r: Seq<(UserSessionRecord, u8)>| is_summary(r, s)
}

/// What sums up some rows is their summary.
pub proof fn lemma_summary_is(r: Seq<(UserSessionRecord, u8)>, s: Seq<(UserSessionRecord, u8)>)
    requires
        is_summary(r, s),
    ensures
        r == summary_of(s),
        is_summary(summary_of(s), s),
{
    lemma_summary_unique(r, summary_of(s), s);
}

} // verus!
