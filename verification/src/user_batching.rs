//! Batches of the user pipeline: rows are gathered in memory up to a limit,
//! summed up by user and session, and written out as a transducer from the
//! key of user and session to the sum.

use crate::fst_bridge::{
    builder_entries, builder_insert, builder_into_inner, builder_memory, fst_entries_of,
};
use crate::key_bytes::id_to_bytes;
use crate::record::UserSessionRecord;
use crate::user_laws::{batch_key, lemma_batch_key_order};
use crate::user_sorting::{
    is_summary, sort_collect_splitted_user_records, strictly_ascending, summary_of,
};
use vstd::prelude::*;

verus! {

/// A batch could not be written.
#[derive(Clone, Copy, Debug, PartialEq, Eq, Structural)]
pub enum BatchError {
    /// The rows were not in strictly ascending order of their keys.
    KeyOutOfOrder,
}

/// The number of the batch after the batch of the given number. The numbers
/// stop at the largest one there is.
pub open spec fn next_number(n: usize) -> usize {
    if n < usize::MAX {
        (n + 1) as usize
    } else {
        n
    }
}

/// The keys and values that a batch is written as.
pub open spec fn batch_entries(s: Seq<(UserSessionRecord, u8)>) -> Seq<(Seq<u8>, u64)> {
    Seq::new(s.len(), |i: int| (batch_key(s[i].0.user_id, s[i].0.session_id), s[i].1 as u64))
}

/// The key of a user in a session: the sixteen bytes of the user, then the
/// sixteen bytes of the session.
pub fn user_session_record_batch_fst_key(user_session_record: UserSessionRecord) -> (bytes: [u8; 32])
    ensures
        bytes@ == batch_key(user_session_record.user_id, user_session_record.session_id),
{
    let user = id_to_bytes(user_session_record.user_id);
    let session = id_to_bytes(user_session_record.session_id);
    let mut bytes: [u8; 32] = [0u8; 32];
    let mut idx: usize = 0;
    proof {
        lemma_batch_key_order(
            user_session_record.user_id,
            user_session_record.session_id,
            user_session_record.user_id,
            user_session_record.session_id,
        );
    }
    while idx < 16
        invariant
            0 <= idx <= 16,
            user@.len() == 16,
            session@.len() == 16,
            forall|k: int| 0 <= k < idx ==> bytes[k] == user[k],
            forall|k: int| 16 <= k < 16 + idx ==> bytes[k] == session[k - 16],
        decreases 16 - idx,
    {
        bytes[idx] = user[idx];
        bytes[idx + 16] = session[idx];
        idx += 1;
    }
    assert(bytes@ =~= user@ + session@);
    bytes
}

/// Empties the batch into a transducer from keys to sums, which is handed
/// out as bytes. The rows must stand in strictly ascending order of their
/// keys, as a batch that was sorted and collected does.
pub fn write_batch_fst_map(batch_vector: &mut Vec<(UserSessionRecord, u8)>) -> (r: Result<
    Vec<u8>,
    BatchError,
>)
    ensures
        final(batch_vector)@.len() == 0,
        r is Ok <==> strictly_ascending(old(batch_vector)@),
        r is Ok ==> fst_entries_of(r.unwrap()@) == Some(batch_entries(old(batch_vector)@)),
{
    let ghost rows = batch_vector@;
    let mut map_builder = builder_memory();
    let mut i: usize = 0;
    assert(batch_entries(rows.take(0)) =~= Seq::<(Seq<u8>, u64)>::empty());
    while i < batch_vector.len()
        invariant
            0 <= i <= batch_vector.len(),
            batch_vector@ == rows,
            rows == old(batch_vector)@,
            builder_entries(map_builder) == batch_entries(rows.take(i as int)),
            strictly_ascending(rows.take(i as int)),
        decreases batch_vector.len() - i,
    {
        let (user_session_record, sum_pics) = batch_vector[i];
        let key = user_session_record_batch_fst_key(user_session_record);
        proof {
            if i > 0 {
                lemma_batch_key_order(
                    rows[i - 1].0.user_id,
                    rows[i - 1].0.session_id,
                    rows[i as int].0.user_id,
                    rows[i as int].0.session_id,
                );
                assert(batch_entries(rows.take(i as int)).last().0 == batch_key(
                    rows[i - 1].0.user_id,
                    rows[i - 1].0.session_id,
                ));
            }
        }
        match builder_insert(&mut map_builder, key.as_slice(), sum_pics as u64) {
            Ok(_) => {
                proof {
                    assert(batch_entries(rows.take(i + 1)) =~= batch_entries(
                        rows.take(i as int),
                    ).push((key@, sum_pics as u64)));
                    let t = rows.take(i + 1);
                    let t0 = rows.take(i as int);
                    assert forall|a: int, b: int| 0 <= a < b < t.len() implies (#[trigger] t[a]).0.precedes(
                        (#[trigger] t[b]).0,
                    ) by {
                        if b < i {
                            assert(t0[a].0.precedes(t0[b].0));
                        } else if a < i - 1 {
                            assert(t0[a].0.precedes(t0[i - 1].0));
                        }
                    }
                }
            },
            Err(_) => {
                proof {
                    assert(i > 0);
                    assert(!rows[i - 1].0.precedes(rows[i as int].0));
                    if strictly_ascending(rows) {
                        assert(rows[i - 1].0.precedes(rows[i as int].0));
                    }
                    assert(!strictly_ascending(rows));
                }
                batch_vector.clear();
                return Err(BatchError::KeyOutOfOrder);
            },
        }
        i += 1;
    }
    assert(rows.take(i as int) =~= rows);
    batch_vector.clear();
    match builder_into_inner(map_builder) {
        Ok(bytes) => Ok(bytes),
        Err(_) => Err(BatchError::KeyOutOfOrder),
    }
}

/// Gathers the rows of a day in batches. A batch that has reached its limit
/// is summed up; if that leaves it at or above the threshold it is written
/// out and the next batch begins, else it stays and goes on growing.
pub struct UserBatcher {
    batch_vector: Vec<(UserSessionRecord, u8)>,
    capacity_limit: usize,
    spill_threshold: usize,
    batch_counter: usize,
}

impl UserBatcher {
    /// The rows that are gathered and not written out yet.
    pub closed spec fn pending(self) -> Seq<(UserSessionRecord, u8)> {
        self.batch_vector@
    }

    /// The number of rows at which a batch is summed up.
    pub closed spec fn capacity(self) -> usize {
        self.capacity_limit
    }

    /// The number of rows from which on a batch that was summed up is written
    /// out.
    pub closed spec fn threshold(self) -> usize {
        self.spill_threshold
    }

    /// The number of batches written out so far, which is the number of the
    /// last one.
    pub closed spec fn counter(self) -> usize {
        self.batch_counter
    }

    /// A batcher that has gathered nothing.
    pub fn new(capacity_limit: usize, spill_threshold: usize) -> (r: Self)
        ensures
            r.pending().len() == 0,
            r.capacity() == capacity_limit,
            r.threshold() == spill_threshold,
            r.counter() == 0,
    {
        UserBatcher {
            batch_vector: Vec::new(),
            capacity_limit,
            spill_threshold,
            batch_counter: 0,
        }
    }

    /// Counts one more batch.
    fn count_batch(&mut self)
        ensures
            final(self).counter() == next_number(old(self).counter()),
            final(self).pending() == old(self).pending(),
            final(self).capacity() == old(self).capacity(),
            final(self).threshold() == old(self).threshold(),
    {
        if self.batch_counter < usize::MAX {
            self.batch_counter += 1;
        }
    }

    /// The number of batches written out so far.
    pub fn batch_counter(&self) -> (r: usize)
        ensures
            r == self.counter(),
    {
        self.batch_counter
    }

    /// The number of rows that are gathered and not written out yet.
    pub fn pending_len(&self) -> (r: usize)
        ensures
            r == self.pending().len(),
    {
        self.batch_vector.len()
    }

    /// Takes a row. If the batch has reached its limit it is summed up first,
    /// and if it then still holds as many rows as the threshold, it is
    /// handed out as a transducer, to be stored under the new value of the
    /// counter, and the row begins the next batch.
    pub fn push(&mut self, pair: (UserSessionRecord, u8)) -> (spilled: Option<Vec<u8>>)
        ensures
            final(self).capacity() == old(self).capacity(),
            final(self).threshold() == old(self).threshold(),
            old(self).pending().len() >= old(self).capacity() ==> is_summary(
                summary_of(old(self).pending()),
                old(self).pending(),
            ),
            if old(self).pending().len() < old(self).capacity() {
                &&& spilled is None
                &&& final(self).pending() == old(self).pending().push(pair)
                &&& final(self).counter() == old(self).counter()
            } else if summary_of(old(self).pending()).len() < old(self).threshold() {
                &&& spilled is None
                &&& final(self).pending() == summary_of(old(self).pending()).push(pair)
                &&& final(self).counter() == old(self).counter()
            } else {
                &&& spilled is Some
                &&& fst_entries_of(spilled.unwrap()@) == Some(
                    batch_entries(summary_of(old(self).pending())),
                )
                &&& final(self).pending() == seq![pair]
                &&& final(self).counter() == next_number(old(self).counter())
            },
            final(self).pending().len() <= old(self).pending().len() + 1,
    {
        let mut spilled: Option<Vec<u8>> = None;
        let ghost before = self.batch_vector@;
        if self.batch_vector.len() >= self.capacity_limit {
            sort_collect_splitted_user_records(&mut self.batch_vector);
            if self.batch_vector.len() >= self.spill_threshold {
                self.count_batch();
                match write_batch_fst_map(&mut self.batch_vector) {
                    Ok(bytes) => {
                        spilled = Some(bytes);
                    },
                    Err(_) => {
                        assert(false);
                    },
                }
                assert(self.batch_vector@ =~= Seq::<(UserSessionRecord, u8)>::empty());
            }
        }
        self.batch_vector.push(pair);
        assert(spilled is Some ==> self.batch_vector@ =~= seq![pair]);
        spilled
    }

    /// Ends the day: what is still gathered is summed up and handed out as
    /// the last transducer, to be stored under the new value of the counter.
    /// If nothing is gathered, nothing is handed out.
    pub fn finish(&mut self) -> (spilled: Option<Vec<u8>>)
        ensures
            final(self).pending().len() == 0,
            old(self).pending().len() > 0 ==> is_summary(
                summary_of(old(self).pending()),
                old(self).pending(),
            ),
            if old(self).pending().len() == 0 {
                spilled is None && final(self).counter() == old(self).counter()
            } else {
                &&& spilled is Some
                &&& fst_entries_of(spilled.unwrap()@) == Some(
                    batch_entries(summary_of(old(self).pending())),
                )
                &&& final(self).counter() == next_number(old(self).counter())
            },
    {
        if self.batch_vector.len() == 0 {
            return None;
        }
        sort_collect_splitted_user_records(&mut self.batch_vector);
        self.count_batch();
        match write_batch_fst_map(&mut self.batch_vector) {
            Ok(bytes) => Some(bytes),
            Err(_) => {
                assert(false);
                None
            },
        }
    }
}

} // verus!
