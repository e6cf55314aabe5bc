//! The record format: `checksum | key_len | val_len | key | value`, with the
//! three header fields as little-endian `u32` values and the checksum taken
//! over `key ++ value` with CRC-32 (IEEE).
use vstd::prelude::*;

verus! {

/// Length in bytes of a record's fixed header.
pub const HEADER_LEN: usize = 12;

/// What can go wrong while reading or writing the log.
#[derive(Debug, Clone, Copy, PartialEq, Eq, Structural)]
pub enum LogError {
    /// The log ends inside a record's header or payload.
    Truncated,
    /// A record's payload does not match its stored checksum.
    Corrupted,
    /// A key or value is too long for a `u32` length field, or the log
    /// would outgrow the offsets it can address.
    TooLarge,
    /// No index snapshot has been written to the log.
    MissingSnapshot,
    /// The index snapshot could not be encoded or decoded.
    BadSnapshot,
}

/// CRC-32 (IEEE polynomial) of a byte sequence.
pub uninterp spec fn crc32_ieee(data: Seq<u8>) -> u32;

/// Relies on crc::crc32::checksum_ieee: the CRC-32 (IEEE) of the bytes,
/// which depends on the bytes alone.
#[verifier::external_body]
pub(crate) fn checksum_ieee(data: &[u8]) -> (r: u32)
    ensures
        r == crc32_ieee(data@),
{
    crc::crc32::checksum_ieee(data)
}

/// The four little-endian bytes of `x`.
pub open spec fn u32_le(x: u32) -> Seq<u8> {
    seq![(x & 0xff) as u8, ((x >> 8u32) & 0xff) as u8, ((x >> 16u32) & 0xff) as u8, (x >> 24u32) as u8]
}

/// The `u32` whose little-endian bytes are `b0 b1 b2 b3`.
pub open spec fn le_u32(b0: u8, b1: u8, b2: u8, b3: u8) -> u32 {
    (b0 as u32) | ((b1 as u32) << 8u32) | ((b2 as u32) << 16u32) | ((b3 as u32) << 24u32)
}

pub proof fn lemma_le_u32_round_trip(x: u32)
    ensures
        le_u32(u32_le(x)[0], u32_le(x)[1], u32_le(x)[2], u32_le(x)[3]) == x,
{
    let b0 = (x & 0xff) as u8;
    let b1 = ((x >> 8u32) & 0xff) as u8;
    let b2 = ((x >> 16u32) & 0xff) as u8;
    let b3 = (x >> 24u32) as u8;
    assert(((b0 as u32) | ((b1 as u32) << 8u32) | ((b2 as u32) << 16u32) | ((b3 as u32) << 24u32))
        == x) by (bit_vector)
        requires
            b0 == (x & 0xff) as u8,
            b1 == ((x >> 8u32) & 0xff) as u8,
            b2 == ((x >> 16u32) & 0xff) as u8,
            b3 == (x >> 24u32) as u8,
    ;
}

/// The bytes of one record holding `key` and `value`.
pub open spec fn record_bytes(key: Seq<u8>, value: Seq<u8>) -> Seq<u8> {
    u32_le(crc32_ieee(key + value)) + u32_le(key.len() as u32) + u32_le(value.len() as u32) + key
        + value
}

/// The header field that starts at `at`.
pub open spec fn field_at(log: Seq<u8>, at: int) -> u32 {
    le_u32(log[at], log[at + 1], log[at + 2], log[at + 3])
}

pub open spec fn stored_checksum(log: Seq<u8>, pos: int) -> u32 {
    field_at(log, pos)
}

pub open spec fn key_len_at(log: Seq<u8>, pos: int) -> int {
    field_at(log, pos + 4) as int
}

pub open spec fn val_len_at(log: Seq<u8>, pos: int) -> int {
    field_at(log, pos + 8) as int
}

/// Where the record that starts at `pos` ends, as its header states.
pub open spec fn record_end(log: Seq<u8>, pos: int) -> int {
    pos + HEADER_LEN + key_len_at(log, pos) + val_len_at(log, pos)
}

pub open spec fn key_at(log: Seq<u8>, pos: int) -> Seq<u8> {
    log.subrange(pos + HEADER_LEN, pos + HEADER_LEN + key_len_at(log, pos))
}

pub open spec fn value_at(log: Seq<u8>, pos: int) -> Seq<u8> {
    log.subrange(pos + HEADER_LEN + key_len_at(log, pos), record_end(log, pos))
}

pub open spec fn payload_at(log: Seq<u8>, pos: int) -> Seq<u8> {
    log.subrange(pos + HEADER_LEN, record_end(log, pos))
}

/// What reading one record at `pos` yields: nothing at the end of the log,
/// else the key, the value and where the next record starts, or an error.
pub open spec fn decode_spec(log: Seq<u8>, pos: int) -> Result<
    Option<(Seq<u8>, Seq<u8>, int)>,
    LogError,
> {
    if pos >= log.len() {
        Ok(None)
    } else if pos + HEADER_LEN > log.len() || record_end(log, pos) > log.len() {
        Err(LogError::Truncated)
    } else if crc32_ieee(payload_at(log, pos)) != stored_checksum(log, pos) {
        Err(LogError::Corrupted)
    } else {
        Ok(Some((key_at(log, pos), value_at(log, pos), record_end(log, pos))))
    }
}

/// One key together with its value.
#[derive(Debug, Clone)]
pub struct KeyValuePair {
    pub key: Vec<u8>,
    pub value: Vec<u8>,
}

pub open spec fn decoded_view(r: Result<Option<(KeyValuePair, usize)>, LogError>) -> Result<
    Option<(Seq<u8>, Seq<u8>, int)>,
    LogError,
> {
    match r {
        Ok(Some((kv, next))) => Ok(Some((kv.key@, kv.value@, next as int))),
        Ok(None) => Ok(None),
        Err(e) => Err(e),
    }
}

pub(crate) fn read_u32_le(log: &[u8], at: usize) -> (r: u32)
    requires
        at + 4 <= log@.len(),
    ensures
        r == field_at(log@, at as int),
{
    (log[at] as u32) | ((log[at + 1] as u32) << 8u32) | ((log[at + 2] as u32) << 16u32) | ((
    log[at + 3] as u32) << 24u32)
}

pub(crate) fn push_u32_le(out: &mut Vec<u8>, x: u32)
    ensures
        final(out)@ == old(out)@ + u32_le(x),
{
    out.push((x & 0xff) as u8);
    out.push(((x >> 8u32) & 0xff) as u8);
    out.push(((x >> 16u32) & 0xff) as u8);
    out.push((x >> 24u32) as u8);
    assert(final(out)@ =~= old(out)@ + u32_le(x));
}

fn push_all(out: &mut Vec<u8>, bytes: &[u8])
    ensures
        final(out)@ == old(out)@ + bytes@,
{
    let ghost start = out@;
    let mut i: usize = 0;
    while i < bytes.len()
        invariant
            i <= bytes@.len(),
            out@ == start + bytes@.subrange(0, i as int),
        decreases bytes@.len() - i,
    {
        out.push(bytes[i]);
        i = i + 1;
        assert(out@ =~= start + bytes@.subrange(0, i as int));
    }
    assert(bytes@.subrange(0, i as int) =~= bytes@);
}

/// Whether a record of `key` and `value` can be written: both lengths fit
/// a `u32` field and the whole record fits in memory.
pub open spec fn encodable(key: Seq<u8>, value: Seq<u8>) -> bool {
    key.len() <= u32::MAX && value.len() <= u32::MAX && key.len() + value.len() + HEADER_LEN
        <= usize::MAX
}

/// Encodes one record. Fails with `TooLarge` when a length does not fit its
/// `u32` field or the record would not fit in memory.
pub fn encode(key: &[u8], value: &[u8]) -> (r: Result<Vec<u8>, LogError>)
    ensures
        encodable(key@, value@) ==> (r matches Ok(b) && b@ == record_bytes(key@, value@)),
        !encodable(key@, value@) ==> r == Err::<Vec<u8>, LogError>(LogError::TooLarge),
{
    if key.len() > u32::MAX as usize || value.len() > u32::MAX as usize || value.len()
        > usize::MAX - HEADER_LEN || key.len() > usize::MAX - HEADER_LEN - value.len() {
        return Err(LogError::TooLarge);
    }
    let mut data: Vec<u8> = Vec::new();
    push_all(&mut data, key);
    push_all(&mut data, value);
    let checksum = checksum_ieee(data.as_slice());
    let mut out: Vec<u8> = Vec::new();
    push_u32_le(&mut out, checksum);
    push_u32_le(&mut out, key.len() as u32);
    push_u32_le(&mut out, value.len() as u32);
    push_all(&mut out, data.as_slice());
    assert(out@ =~= record_bytes(key@, value@));
    Ok(out)
}

/// A record written after any bytes, and followed by any bytes, reads back
/// as its key and value, and the next record starts right after it.
pub proof fn lemma_decode_record(prefix: Seq<u8>, key: Seq<u8>, value: Seq<u8>, suffix: Seq<u8>)
    requires
        encodable(key, value),
    ensures
        decode_spec(prefix + record_bytes(key, value) + suffix, prefix.len() as int) == Ok::<
            Option<(Seq<u8>, Seq<u8>, int)>,
            LogError,
        >(Some((key, value, (prefix.len() + record_bytes(key, value).len()) as int))),
{
    let rec = record_bytes(key, value);
    let log = prefix + rec + suffix;
    let p = prefix.len() as int;
    let c = crc32_ieee(key + value);
    let kl = key.len() as u32;
    let vl = value.len() as u32;
    assert(rec.len() == HEADER_LEN + key.len() + value.len());
    assert forall|i: int| 0 <= i < rec.len() implies log[p + i] == rec[i] by {
        assert(log[p + i] == (prefix + rec)[p + i]);
    }
    assert forall|i: int| 0 <= i < 4 implies log[p + i] == u32_le(c)[i] && log[p + 4 + i]
        == u32_le(kl)[i] && log[p + 8 + i] == u32_le(vl)[i] by {
        assert(log[p + i] == rec[i]);
        assert(log[p + 4 + i] == rec[4 + i]);
        assert(log[p + 8 + i] == rec[8 + i]);
    }
    lemma_le_u32_round_trip(c);
    lemma_le_u32_round_trip(kl);
    lemma_le_u32_round_trip(vl);
    assert(stored_checksum(log, p) == c);
    assert(key_len_at(log, p) == key.len());
    assert(val_len_at(log, p) == value.len());
    assert(key_at(log, p) =~= key) by {
        assert forall|i: int| 0 <= i < key.len() implies key_at(log, p)[i] == key[i] by {
            assert(log[p + 12 + i] == rec[12 + i]);
        }
    }
    assert(value_at(log, p) =~= value) by {
        assert forall|i: int| 0 <= i < value.len() implies value_at(log, p)[i] == value[i] by {
            assert(log[p + 12 + key.len() + i] == rec[12 + key.len() + i]);
        }
    }
    assert(payload_at(log, p) =~= key + value);
}

/// Encoding a record and reading it back gives the same key and value, and
/// its checksum matches.
pub proof fn lemma_round_trip(key: Seq<u8>, value: Seq<u8>)
    requires
        encodable(key, value),
    ensures
        decode_spec(record_bytes(key, value), 0) == Ok::<
            Option<(Seq<u8>, Seq<u8>, int)>,
            LogError,
        >(Some((key, value, record_bytes(key, value).len() as int))),
{
    let e = Seq::<u8>::empty();
    lemma_decode_record(e, key, value, e);
    assert(e + record_bytes(key, value) + e =~= record_bytes(key, value));
}

} // verus!
