//! The encoding of index entries for a snapshot stored in the log.
use vstd::prelude::*;
use crate::index::entries_view;

verus! {

/// The eight little-endian bytes of `x`.
pub open spec fn u64_le(x: u64) -> Seq<u8> {
    seq![
        (x & 0xff) as u8,
        ((x >> 8u64) & 0xff) as u8,
        ((x >> 16u64) & 0xff) as u8,
        ((x >> 24u64) & 0xff) as u8,
        ((x >> 32u64) & 0xff) as u8,
        ((x >> 40u64) & 0xff) as u8,
        ((x >> 48u64) & 0xff) as u8,
        (x >> 56u64) as u8,
    ]
}

/// One entry as bincode writes it: the key's length as a `u64`, the key's
/// bytes, then the offset as a `u64`.
pub open spec fn entry_bytes(entry: (Seq<u8>, u64)) -> Seq<u8> {
    u64_le(entry.0.len() as u64) + entry.0 + u64_le(entry.1)
}

/// The entries one after another, with no separator.
pub open spec fn entry_list_bytes(e: Seq<(Seq<u8>, u64)>) -> Seq<u8>
    decreases e.len(),
{
    if e.len() == 0 {
        Seq::empty()
    } else {
        entry_list_bytes(e.drop_last()) + entry_bytes(e.last())
    }
}

/// The bytes that bincode's default encoding (fixed-width little-endian
/// integers) gives for a list of entries: their count as a `u64`, then each
/// entry.
pub open spec fn bincode_entries(e: Seq<(Seq<u8>, u64)>) -> Seq<u8> {
    u64_le(e.len() as u64) + entry_list_bytes(e)
}

/// Whether `r` holds the entries whose encoding `b` is, wherever `b` is the
/// encoding of some entries.
pub open spec fn reads_back(b: Seq<u8>, r: Option<Vec<(Vec<u8>, u64)>>) -> bool {
    forall|e: Seq<(Seq<u8>, u64)>|
        b == #[trigger] bincode_entries(e) ==> (r matches Some(v) && entries_view(v@) == e)
}

/// Relies on bincode::serialize: with the default options (fixed-width
/// little-endian integers, no size limit) a `Vec` of entries, whose length is
/// always known, is written without error as its count and then each entry.
#[verifier::external_body]
pub(crate) fn serialize_entries(v: &Vec<(Vec<u8>, u64)>) -> (r: Option<Vec<u8>>)
    ensures
        r is Some,
        r matches Some(b) ==> b@ == bincode_entries(entries_view(v@)),
{
    bincode::serialize(v).ok()
}

/// Relies on bincode::deserialize: with the same default options it reads
/// back the entries that bincode::serialize wrote.
#[verifier::external_body]
pub(crate) fn deserialize_entries(b: &[u8]) -> (r: Option<Vec<(Vec<u8>, u64)>>)
    ensures
        reads_back(b@, r),
{
    bincode::deserialize::<Vec<(Vec<u8>, u64)>>(b).ok()
}

} // verus!
