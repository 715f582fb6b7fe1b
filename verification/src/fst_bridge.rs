//! The finite state transducers of the fst crate, as far as the user pipeline
//! uses them: ordered key-value stores that are built once from ascending
//! keys, kept as bytes, and read back in key order, several of them at once.
//!
//! Nothing in this file is proved. Each item says what it takes from the fst
//! crate and what it claims of it.

use crate::key_bytes::lex_less;
use vstd::prelude::*;

verus! {

/// The fst crate's `raw::Builder<W>`, which writes a transducer to `W`.
#[verifier::external_type_specification]
#[verifier::external_body]
#[verifier::reject_recursive_types(W)]
pub struct ExFstBuilder<W>(fst::raw::Builder<W>);

/// The fst crate's `raw::Fst<D>`, a transducer read from the bytes `D`.
#[verifier::external_type_specification]
#[verifier::external_body]
#[verifier::reject_recursive_types(D)]
pub struct ExFst<D>(fst::raw::Fst<D>);

/// The fst crate's `raw::Union`, a stream over the keys of several
/// transducers.
#[verifier::external_type_specification]
#[verifier::external_body]
pub struct ExFstUnion<'f>(fst::raw::Union<'f>);

/// The fst crate's `Error`.
#[verifier::external_type_specification]
#[verifier::external_body]
pub struct ExFstError(fst::Error);

/// The keys and values that a builder has taken, in the order it took them.
pub uninterp spec fn builder_entries(builder: fst::raw::Builder<Vec<u8>>) -> Seq<(Seq<u8>, u64)>;

/// The keys and values of the transducer that the bytes are, in key order, if
/// the bytes are what a builder of the fst crate has written.
pub uninterp spec fn fst_entries_of(data: Seq<u8>) -> Option<Seq<(Seq<u8>, u64)>>;

/// The keys and values of a transducer, in key order.
pub uninterp spec fn fst_content(fst: fst::raw::Fst<&[u8]>) -> Seq<(Seq<u8>, u64)>;

/// What a union has yet to hand out: each key with the values it has in the
/// transducers that hold it.
pub uninterp spec fn union_rest(union: fst::raw::Union<'_>) -> Seq<(Seq<u8>, Seq<u64>)>;

/// What the union of transducers with the given contents hands out.
pub uninterp spec fn union_items(contents: Seq<Seq<(Seq<u8>, u64)>>) -> Seq<(Seq<u8>, Seq<u64>)>;

/// A builder takes a key with a value if the key comes after the last one.
pub open spec fn may_insert(entries: Seq<(Seq<u8>, u64)>, key: Seq<u8>) -> bool {
    entries.len() == 0 || lex_less(entries.last().0, key)
}

/// A builder takes a key without a value if the key does not come before
/// the last one.
pub open spec fn may_add(entries: Seq<(Seq<u8>, u64)>, key: Seq<u8>) -> bool {
    entries.len() == 0 || !lex_less(key, entries.last().0)
}

/// Whether every key was taken without a value, which is the value zero.
pub open spec fn only_keys(entries: Seq<(Seq<u8>, u64)>) -> bool {
    forall|i: int| 0 <= i < entries.len() ==> (#[trigger] entries[i]).1 == 0
}

/// What a builder of keys without values holds after one more such key: the
/// key with the value zero at the end, unless the key is the last one again.
pub open spec fn after_add(entries: Seq<(Seq<u8>, u64)>, key: Seq<u8>) -> Seq<(Seq<u8>, u64)> {
    if entries.len() > 0 && entries.last().0 == key {
        entries
    } else {
        entries.push((key, 0u64))
    }
}

/// Each key comes after the key before it.
pub open spec fn ascending_keys(items: Seq<(Seq<u8>, Seq<u64>)>) -> bool {
    forall|i: int, j: int| 0 <= i < j < items.len() ==> lex_less(items[i].0, items[j].0)
}

/// Whether a transducer with the given content holds the key.
pub open spec fn holds_key(content: Seq<(Seq<u8>, u64)>, key: Seq<u8>) -> bool {
    exists|q: int| 0 <= q < content.len() && (#[trigger] content[q]).0 == key
}

/// The value a key has in a content; zero if the content does not hold it.
pub open spec fn value_in(content: Seq<(Seq<u8>, u64)>, key: Seq<u8>) -> nat
    decreases content.len(),
{
    if content.len() == 0 {
        0
    } else if content.last().0 == key {
        content.last().1 as nat
    } else {
        value_in(content.drop_last(), key)
    }
}

/// The sum of the values a key has in the given contents.
pub open spec fn value_in_all(contents: Seq<Seq<(Seq<u8>, u64)>>, key: Seq<u8>) -> nat
    decreases contents.len(),
{
    if contents.len() == 0 {
        0
    } else {
        value_in_all(contents.drop_last(), key) + value_in(contents.last(), key)
    }
}

/// The sum of some values.
pub open spec fn values_total(values: Seq<u64>) -> nat
    decreases values.len(),
{
    if values.len() == 0 {
        0
    } else {
        values_total(values.drop_last()) + values.last() as nat
    }
}

/// Whether one of the contents holds the key.
pub open spec fn held_somewhere(contents: Seq<Seq<(Seq<u8>, u64)>>, key: Seq<u8>) -> bool {
    exists|p: int| 0 <= p < contents.len() && holds_key(#[trigger] contents[p], key)
}

/// Whether the key is among the keys of the items.
pub open spec fn handed_out(items: Seq<(Seq<u8>, Seq<u64>)>, key: Seq<u8>) -> bool {
    exists|i: int| 0 <= i < items.len() && (#[trigger] items[i]).0 == key
}

/// What the fst crate documents of a union: the keys come in ascending
/// order, each once; they are the keys that some transducer holds; and with
/// each key come the values it has in the transducers that hold it, of which
/// only the sum is stated here.
#[verifier::opaque]
pub open spec fn is_union_of(
    items: Seq<(Seq<u8>, Seq<u64>)>,
    contents: Seq<Seq<(Seq<u8>, u64)>>,
) -> bool {
    &&& ascending_keys(items)
    &&& forall|i: int| 0 <= i < items.len() ==> #[trigger] held_somewhere(contents, items[i].0)
    &&& forall|p: int, q: int|
        0 <= p < contents.len() && 0 <= q < contents[p].len() ==> #[trigger] handed_out(
            items,
            contents[p][q].0,
        )
    &&& forall|i: int|
        0 <= i < items.len() ==> values_total(items[i].1) == #[trigger] value_in_all(
            contents,
            items[i].0,
        )
}

/// The contents of a list of transducers.
pub open spec fn contents_of(fsts: Seq<fst::raw::Fst<&[u8]>>) -> Seq<Seq<(Seq<u8>, u64)>> {
    Seq::new(fsts.len(), |i: int| fst_content(fsts[i]))
}

/// `raw::Builder::memory`: a builder that writes to memory and has taken
/// nothing.
#[verifier::external_body]
pub(crate) fn builder_memory() -> (builder: fst::raw::Builder<Vec<u8>>)
    ensures
        builder_entries(builder) == Seq::<(Seq<u8>, u64)>::empty(),
{
    fst::raw::Builder::memory()
}

/// `raw::Builder::insert`: takes a key with its value. The fst crate refuses
/// a key that is the last key again or comes before it, and then leaves the
/// builder as it was; writing to memory does not fail.
#[verifier::external_body]
pub(crate) fn builder_insert(
    builder: &mut fst::raw::Builder<Vec<u8>>,
    key: &[u8],
    value: u64,
) -> (r: Result<(), fst::Error>)
    ensures
        r is Ok <==> may_insert(builder_entries(*old(builder)), key@),
        r is Ok ==> builder_entries(*final(builder)) == builder_entries(*old(builder)).push(
            (key@, value),
        ),
        r is Err ==> builder_entries(*final(builder)) == builder_entries(*old(builder)),
{
    builder.insert(key, value)
}

/// `raw::Builder::add`: takes a key without a value, which is the value
/// zero. The fst crate refuses a key that comes before the last key, and then
/// leaves the builder as it was; it accepts the last key again and keeps it
/// once; writing to memory does not fail. This is claimed only of a builder
/// that has taken nothing but keys without values: a key that comes after
/// keys with values shares what its first bytes carry of their values, and
/// the key without bytes, taken again, loses the value it had.
#[verifier::external_body]
pub(crate) fn builder_add(builder: &mut fst::raw::Builder<Vec<u8>>, key: &[u8]) -> (r: Result<
    (),
    fst::Error,
>)
    requires
        only_keys(builder_entries(*old(builder))),
    ensures
        r is Ok <==> may_add(builder_entries(*old(builder)), key@),
        r is Ok ==> builder_entries(*final(builder)) == after_add(
            builder_entries(*old(builder)),
            key@,
        ),
        r is Err ==> builder_entries(*final(builder)) == builder_entries(*old(builder)),
{
    builder.add(key)
}

/// `raw::Builder::into_inner`: ends the building and hands out the bytes,
/// which are a transducer of what the builder has taken. Writing to memory
/// does not fail.
#[verifier::external_body]
pub(crate) fn builder_into_inner(builder: fst::raw::Builder<Vec<u8>>) -> (r: Result<
    Vec<u8>,
    fst::Error,
>)
    ensures
        r is Ok,
        fst_entries_of(r.unwrap()@) == Some(builder_entries(builder)),
{
    builder.into_inner()
}

/// `raw::Fst::new`: reads bytes that a builder has written as the transducer
/// they are. Of other bytes the fst crate promises nothing, so they are left
/// out.
#[verifier::external_body]
pub(crate) fn fst_open<'a>(data: &'a [u8]) -> (r: Result<fst::raw::Fst<&'a [u8]>, fst::Error>)
    requires
        fst_entries_of(data@) is Some,
    ensures
        r is Ok,
        fst_content(r.unwrap()) == fst_entries_of(data@).unwrap(),
{
    fst::raw::Fst::new(data)
}

/// `raw::OpBuilder::union` over all the given transducers: a stream of their
/// keys in ascending order, each key once, with the values it has.
#[verifier::external_body]
pub(crate) fn open_union<'f>(fsts: &'f Vec<fst::raw::Fst<&'f [u8]>>) -> (union: fst::raw::Union<
    'f,
>)
    ensures
        union_rest(union) == union_items(contents_of(fsts@)),
        is_union_of(union_rest(union), contents_of(fsts@)),
{
    fsts.iter().collect::<fst::raw::OpBuilder>().union()
}

/// `Streamer::next` of a union: hands out the next key with its values, as
/// copies, or `None` at the end.
#[verifier::external_body]
pub(crate) fn union_next<'f>(union: &mut fst::raw::Union<'f>) -> (r: Option<(Vec<u8>, Vec<u64>)>)
    ensures
        match r {
            Some(item) => union_rest(*old(union)).len() > 0 && (item.0@, item.1@) == union_rest(
                *old(union),
            )[0] && union_rest(*final(union)) == union_rest(*old(union)).drop_first(),
            None => union_rest(*old(union)).len() == 0 && union_rest(*final(union)).len() == 0,
        },
{
    fst::Streamer::next(union).map(|(key, values)| (key.to_vec(), values.iter().map(|v| v.value).collect()))
}

} // verus!
