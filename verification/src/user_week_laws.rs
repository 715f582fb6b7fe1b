//! What is read from the stored summaries of several days, said of their
//! keys: each user with the first ten of the user's keys.

use crate::key_bytes::{
    be_value, lemma_be_value_bound, lemma_be_value_concat, lemma_lex_is_value_order,
    lemma_pow256_16, lex_less, pow256,
};
use crate::user_finalizing::{
    stored_keys, stored_session, stored_sum, stored_user, week_emitted, week_flushed, week_state,
    week_stats, week_step_out,
};
use crate::user_top::set_key;
use vstd::prelude::*;

verus! {

/// Each key comes after the key before it.
pub open spec fn keys_ascend(keys: Seq<Seq<u8>>) -> bool {
    forall|i: int, j: int| 0 <= i < j < keys.len() ==> lex_less(keys[i], keys[j])
}

/// The users of the keys do not descend.
pub open spec fn users_in_order(keys: Seq<Seq<u8>>) -> bool {
    forall|i: int, j: int|
        0 <= i <= j < keys.len() ==> stored_user(#[trigger] keys[i]) <= stored_user(
            #[trigger] keys[j],
        )
}

/// The sessions of a user with their sums, in the order of the keys.
pub open spec fn user_pairs(keys: Seq<Seq<u8>>, user: u128) -> Seq<(u128, u8)>
    decreases keys.len(),
{
    if keys.len() == 0 {
        Seq::empty()
    } else if stored_user(keys.last()) == user {
        user_pairs(keys.drop_last(), user).push((stored_session(keys.last()), stored_sum(keys.last())))
    } else {
        user_pairs(keys.drop_last(), user)
    }
}

/// The first ten pairs, or all if there are fewer.
pub open spec fn first_ten(pairs: Seq<(u128, u8)>) -> Seq<(u128, u8)> {
    if pairs.len() <= 10 {
        pairs
    } else {
        pairs.take(10)
    }
}

/// Whether a key is of the user.
pub open spec fn has_key(keys: Seq<Seq<u8>>, user: u128) -> bool {
    exists|i: int| 0 <= i < keys.len() && stored_user(#[trigger] keys[i]) == user
}

/// Whether the entry is a user that has a key, and is not the user zero,
/// with the first ten of the user's pairs.
pub open spec fn is_entry(keys: Seq<Seq<u8>>, entry: (u128, Seq<(u128, u8)>)) -> bool {
    entry.0 != 0 && has_key(keys, entry.0) && entry.1 == first_ten(user_pairs(keys, entry.0))
}

/// Of two keys of thirty-three bytes, the one that comes first has the user
/// that is not larger.
pub proof fn lemma_stored_users_ascend(a: Seq<u8>, b: Seq<u8>)
    requires
        a.len() == 33,
        b.len() == 33,
        lex_less(a, b),
    ensures
        stored_user(a) <= stored_user(b),
{
    lemma_lex_is_value_order(a, b);
    let a0 = a.subrange(0, 16);
    let a1 = a.subrange(16, 33);
    let b0 = b.subrange(0, 16);
    let b1 = b.subrange(16, 33);
    assert(a =~= a0 + a1);
    assert(b =~= b0 + b1);
    lemma_be_value_concat(a0, a1);
    lemma_be_value_concat(b0, b1);
    lemma_be_value_bound(a0);
    lemma_be_value_bound(b0);
    lemma_be_value_bound(a1);
    lemma_be_value_bound(b1);
    lemma_pow256_16();
    let p = pow256(17) as int;
    let (x0, x1, y0, y1) = (
        be_value(a0) as int,
        be_value(a1) as int,
        be_value(b0) as int,
        be_value(b1) as int,
    );
    assert(x0 * p + x1 < y0 * p + y1 ==> x0 <= y0) by (nonlinear_arith)
        requires
            0 <= x1 < p,
            0 <= y1 < p,
    ;
}

/// Keys of thirty-three bytes in ascending order have their users in order.
pub proof fn lemma_users_in_order(keys: Seq<Seq<u8>>)
    requires
        stored_keys(keys),
        keys_ascend(keys),
    ensures
        users_in_order(keys),
{
    assert forall|i: int, j: int| 0 <= i <= j < keys.len() implies stored_user(
        #[trigger] keys[i],
    ) <= stored_user(#[trigger] keys[j]) by {
        if i < j {
            lemma_stored_users_ascend(keys[i], keys[j]);
        }
    }
}

/// A key besides the keys of a user leaves the pairs of the user as they are.
pub proof fn lemma_user_pairs_other(keys: Seq<Seq<u8>>, user: u128)
    requires
        keys.len() > 0,
        stored_user(keys.last()) != user,
    ensures
        user_pairs(keys, user) == user_pairs(keys.drop_last(), user),
        has_key(keys, user) <==> has_key(keys.drop_last(), user),
{
    let rest = keys.drop_last();
    if has_key(keys, user) {
        let i = choose|i: int| 0 <= i < keys.len() && stored_user(#[trigger] keys[i]) == user;
        assert(rest[i] == keys[i]);
    }
    if has_key(rest, user) {
        let i = choose|i: int| 0 <= i < rest.len() && stored_user(#[trigger] rest[i]) == user;
        assert(rest[i] == keys[i]);
    }
}

/// A user without a key has no pairs.
pub proof fn lemma_no_pairs(keys: Seq<Seq<u8>>, user: u128)
    requires
        !has_key(keys, user),
    ensures
        user_pairs(keys, user).len() == 0,
    decreases keys.len(),
{
    if keys.len() > 0 {
        assert(stored_user(keys[keys.len() - 1]) != user);
        lemma_user_pairs_other(keys, user);
        lemma_no_pairs(keys.drop_last(), user);
    }
}

proof fn lemma_drop_last_in_order(keys: Seq<Seq<u8>>)
    requires
        users_in_order(keys),
        keys.len() > 0,
    ensures
        users_in_order(keys.drop_last()),
{
    let rest = keys.drop_last();
    assert forall|i: int, j: int| 0 <= i <= j < rest.len() implies stored_user(
        #[trigger] rest[i],
    ) <= stored_user(#[trigger] rest[j]) by {
        assert(rest[i] == keys[i] && rest[j] == keys[j]);
    }
}

/// While the keys pass by, the user at hand is the user of the last key, and
/// its pairs are the first ten of that user.
pub proof fn lemma_week_state(keys: Seq<Seq<u8>>)
    requires
        users_in_order(keys),
    ensures
        keys.len() > 0 ==> week_state(keys).0 == stored_user(keys.last()),
        keys.len() == 0 ==> week_state(keys).0 == 0,
        week_state(keys).1 == first_ten(user_pairs(keys, week_state(keys).0)),
    decreases keys.len(),
{
    if keys.len() > 0 {
        let rest = keys.drop_last();
        let x = keys.last();
        lemma_drop_last_in_order(keys);
        lemma_week_state(rest);
        let st0 = week_state(rest);
        let u = stored_user(x);
        if u != st0.0 {
            assert(!has_key(rest, u)) by {
                if has_key(rest, u) {
                    let i = choose|i: int| 0 <= i < rest.len() && stored_user(#[trigger] rest[i]) == u;
                    assert(rest[i] == keys[i]);
                    assert(rest[rest.len() - 1] == keys[rest.len() - 1]);
                    assert(stored_user(keys[i]) <= stored_user(keys[rest.len() - 1]));
                    assert(stored_user(keys[rest.len() - 1]) <= stored_user(keys[keys.len() - 1]));
                }
            }
            lemma_no_pairs(rest, u);
            assert(user_pairs(rest, u) =~= Seq::<(u128, u8)>::empty());
        }
        let before = user_pairs(rest, u);
        let all = user_pairs(keys, u);
        assert(all == before.push((stored_session(x), stored_sum(x))));
        if before.len() < 10 {
            assert(first_ten(all) =~= first_ten(before).push((stored_session(x), stored_sum(x))));
        } else {
            assert(first_ten(all) =~= first_ten(before));
        }
    } else {
        assert(user_pairs(keys, 0) =~= Seq::<(u128, u8)>::empty());
    }
}

/// What is handed out while the keys pass by are the users that are over,
/// each with the first ten of its pairs.
pub proof fn lemma_week_emitted(keys: Seq<Seq<u8>>, entry: (u128, Seq<(u128, u8)>))
    requires
        users_in_order(keys),
    ensures
        week_emitted(keys).contains(entry) <==> is_entry(keys, entry) && entry.0 != stored_user(
            keys.last(),
        ),
    decreases keys.len(),
{
    if keys.len() > 0 {
        let rest = keys.drop_last();
        let x = keys.last();
        lemma_drop_last_in_order(keys);
        lemma_week_emitted(rest, entry);
        lemma_week_state(rest);
        let st0 = week_state(rest);
        let a = week_emitted(rest);
        let b = week_step_out(st0, x);
        let e = week_emitted(keys);
        assert(e == a + b);
        let u = entry.0;
        if e.contains(entry) {
            let i = choose|i: int| 0 <= i < e.len() && e[i] == entry;
            if i < a.len() {
                assert(a[i] == entry);
                assert(a.contains(entry));
                let r = choose|r: int| 0 <= r < rest.len() && stored_user(#[trigger] rest[r]) == u;
                assert(rest[r] == keys[r]);
                assert(rest[rest.len() - 1] == keys[rest.len() - 1]);
                assert(stored_user(keys[r]) <= stored_user(keys[rest.len() - 1]));
                assert(stored_user(keys[rest.len() - 1]) <= stored_user(keys[keys.len() - 1]));
                lemma_user_pairs_other(keys, u);
            } else {
                assert(b[i - a.len()] == entry);
                assert(entry == st0);
                assert(rest.len() > 0);
                assert(stored_user(rest[rest.len() - 1]) == u);
                assert(has_key(rest, u));
                lemma_user_pairs_other(keys, u);
            }
        }
        if is_entry(keys, entry) && u != stored_user(x) {
            lemma_user_pairs_other(keys, u);
            assert(rest.len() > 0) by {
                if rest.len() == 0 {
                    assert(!has_key(rest, u));
                }
            }
            if u != stored_user(rest.last()) {
                assert(a.contains(entry));
                let i = choose|i: int| 0 <= i < a.len() && a[i] == entry;
                assert(e[i] == entry);
            } else {
                assert(entry == st0);
                assert(b =~= seq![st0]);
                assert(e[a.len() as int] == entry);
            }
        }
    } else {
        assert(!has_key(keys, entry.0));
    }
}

/// What is read from keys whose users are in order: every user that has a
/// key, the user zero left out, with the first ten of the user's pairs, and
/// nothing else.
pub proof fn lemma_week_stats(keys: Seq<Seq<u8>>, entry: (u128, Seq<(u128, u8)>))
    requires
        users_in_order(keys),
    ensures
        week_stats(keys).contains(entry) <==> is_entry(keys, entry),
{
    lemma_week_emitted(keys, entry);
    lemma_week_state(keys);
    let st = week_state(keys);
    let a = week_emitted(keys);
    let b = week_flushed(st);
    let all = week_stats(keys);
    if all.contains(entry) {
        let i = choose|i: int| 0 <= i < all.len() && all[i] == entry;
        if i < a.len() {
            assert(a[i] == entry);
            assert(a.contains(entry));
        } else {
            assert(b[i - a.len()] == entry);
            assert(entry == st);
            assert(keys.len() > 0);
            assert(stored_user(keys[keys.len() - 1]) == entry.0);
        }
    }
    if is_entry(keys, entry) {
        assert(keys.len() > 0) by {
            if keys.len() == 0 {
                assert(!has_key(keys, entry.0));
            }
        }
        if entry.0 != stored_user(keys.last()) {
            assert(a.contains(entry));
            let i = choose|i: int| 0 <= i < a.len() && a[i] == entry;
            assert(all[i] == entry);
        } else {
            assert(entry == st);
            assert(b =~= seq![st]);
            assert(all[a.len() as int] == entry);
        }
    }
}

/// A key of thirty-three bytes is the key of its user, its sum and its
/// session.
pub proof fn lemma_stored_key_parts(key: Seq<u8>)
    requires
        key.len() == 33,
    ensures
        key == set_key(stored_user(key), stored_sum(key), stored_session(key)),
{
    let a = key.subrange(0, 16);
    let b = key.subrange(17, 33);
    lemma_pow256_16();
    lemma_be_value_bound(a);
    lemma_be_value_bound(b);
    crate::key_bytes::lemma_be_value_digits(a);
    crate::key_bytes::lemma_be_value_digits(b);
    assert(key =~= a.push(key[16]) + b);
}

/// One pair is better than another: it has the larger sum, or the same sum
/// and the smaller session.
pub open spec fn better_pair(a: (u128, u8), b: (u128, u8)) -> bool {
    a.1 > b.1 || (a.1 == b.1 && a.0 < b.0)
}

/// Every pair of a user is read from a key of the user.
pub proof fn lemma_user_pairs_keys(keys: Seq<Seq<u8>>, user: u128, j: int)
    requires
        0 <= j < user_pairs(keys, user).len(),
    ensures
        exists|i: int|
            0 <= i < keys.len() && stored_user(#[trigger] keys[i]) == user && user_pairs(
                keys,
                user,
            )[j] == (stored_session(keys[i]), stored_sum(keys[i])),
    decreases keys.len(),
{
    let rest = keys.drop_last();
    let x = keys.last();
    if stored_user(x) == user && j == user_pairs(rest, user).len() {
        assert(keys[keys.len() - 1] == x);
    } else {
        lemma_user_pairs_keys(rest, user, j);
        let i = choose|i: int|
            0 <= i < rest.len() && stored_user(#[trigger] rest[i]) == user && user_pairs(
                rest,
                user,
            )[j] == (stored_session(rest[i]), stored_sum(rest[i]));
        assert(keys[i] == rest[i]);
    }
}

/// Where the keys ascend, the pairs of a user stand best first, so that the
/// first ten of them are the ten best.
pub proof fn lemma_user_pairs_descend(keys: Seq<Seq<u8>>, user: u128)
    requires
        stored_keys(keys),
        keys_ascend(keys),
    ensures
        forall|i: int, j: int|
            0 <= i < j < user_pairs(keys, user).len() ==> better_pair(
                #[trigger] user_pairs(keys, user)[i],
                #[trigger] user_pairs(keys, user)[j],
            ),
    decreases keys.len(),
{
    if keys.len() > 0 {
        let rest = keys.drop_last();
        let x = keys.last();
        assert(stored_keys(rest) && keys_ascend(rest)) by {
            assert forall|i: int| 0 <= i < rest.len() implies (#[trigger] rest[i]).len() == 33 by {
                assert(rest[i] == keys[i]);
            }
            assert forall|i: int, j: int| 0 <= i < j < rest.len() implies lex_less(
                rest[i],
                rest[j],
            ) by {
                assert(rest[i] == keys[i] && rest[j] == keys[j]);
            }
        }
        lemma_user_pairs_descend(rest, user);
        let before = user_pairs(rest, user);
        let all = user_pairs(keys, user);
        if stored_user(x) == user {
            assert forall|i: int, j: int| 0 <= i < j < all.len() implies better_pair(
                #[trigger] all[i],
                #[trigger] all[j],
            ) by {
                if j < before.len() {
                    assert(all[i] == before[i] && all[j] == before[j]);
                } else {
                    assert(all[i] == before[i]);
                    lemma_user_pairs_keys(rest, user, i);
                    let r = choose|r: int|
                        0 <= r < rest.len() && stored_user(#[trigger] rest[r]) == user
                            && before[i] == (stored_session(rest[r]), stored_sum(rest[r]));
                    assert(keys[r] == rest[r]);
                    assert(lex_less(keys[r], keys[keys.len() - 1]));
                    lemma_stored_key_parts(keys[r]);
                    lemma_stored_key_parts(x);
                    crate::user_laws::lemma_set_key_order(
                        user,
                        stored_sum(keys[r]),
                        stored_session(keys[r]),
                        user,
                        stored_sum(x),
                        stored_session(x),
                    );
                }
            }
        }
    }
}

} // verus!
