//! The append-only log: the binary record format, its encoder and decoder,
//! and the staging logic that decides when records reach the file.
//!
//! A record is laid out as one operation byte, a four-byte little-endian key
//! length, the key payload, and — for a `Put` — an eight-byte little-endian
//! value length followed by the value payload. Key and value payloads are
//! produced by an injected encoder outside this crate; the log treats them
//! as opaque bytes.

use vstd::prelude::*;
use crate::common::Operation;

verus! {

/// Why a log could not be used or read back.
#[derive(PartialEq, Eq, Structural, Clone, Copy, Debug)]
pub enum CacheError {
    /// The persistence configuration is contradictory: a folder without a
    /// cache name or the reverse, or a flush period of zero.
    ConfigInvalid,
    /// A record failed to decode: its operation byte names no operation or a
    /// length field cannot be met.
    MalformedRecord,
    /// The log ended in the middle of a record.
    TruncatedTail,
    /// Iteration was requested but no log is configured.
    LogNotConfigured,
    /// Recovery stopped because the record starting at the carried byte
    /// offset failed to decode.
    ReplayFailed(usize),
}

/// A single log record over opaque byte payloads: the operation, the encoded
/// key, and the encoded value when the operation is a `Put`.
pub struct RawRecord {
    pub operation: Operation,
    pub key: Vec<u8>,
    pub value: Option<Vec<u8>>,
}

/// The abstract content of a raw record.
pub struct RawRecordModel {
    pub op: Operation,
    pub key: Seq<u8>,
    pub value: Option<Seq<u8>>,
}

impl View for RawRecord {
    type V = RawRecordModel;

    open spec fn view(&self) -> RawRecordModel {
        RawRecordModel {
            op: self.operation,
            key: self.key@,
            value: match self.value {
                Some(v) => Some(v@),
                None => None,
            },
        }
    }
}

/// A record that the format can carry: exactly the `Put` records hold a
/// value, and the payload lengths fit their length fields and the machine.
pub open spec fn raw_record_wf(m: RawRecordModel) -> bool {
    &&& (m.op is Put) <==> (m.value is Some)
    &&& m.key.len() <= u32::MAX
    &&& (m.value is Some ==> m.value->Some_0.len() <= usize::MAX)
}

/// The four little-endian bytes of a 32-bit length.
pub open spec fn spec_le32(n: u32) -> Seq<u8> {
    seq![
        (n & 0xff) as u8,
        ((n >> 8) & 0xff) as u8,
        ((n >> 16) & 0xff) as u8,
        ((n >> 24) & 0xff) as u8,
    ]
}

/// The eight little-endian bytes of a 64-bit length.
pub open spec fn spec_le64(n: u64) -> Seq<u8> {
    seq![
        (n & 0xff) as u8,
        ((n >> 8) & 0xff) as u8,
        ((n >> 16) & 0xff) as u8,
        ((n >> 24) & 0xff) as u8,
        ((n >> 32) & 0xff) as u8,
        ((n >> 40) & 0xff) as u8,
        ((n >> 48) & 0xff) as u8,
        ((n >> 56) & 0xff) as u8,
    ]
}

/// A 32-bit length read back from four little-endian bytes.
pub open spec fn spec_u32_from_le(b0: u8, b1: u8, b2: u8, b3: u8) -> u32 {
    (b0 as u32) | ((b1 as u32) << 8) | ((b2 as u32) << 16) | ((b3 as u32) << 24)
}

/// A 64-bit length read back from eight little-endian bytes.
pub open spec fn spec_u64_from_le(
    b0: u8,
    b1: u8,
    b2: u8,
    b3: u8,
    b4: u8,
    b5: u8,
    b6: u8,
    b7: u8,
) -> u64 {
    (b0 as u64) | ((b1 as u64) << 8) | ((b2 as u64) << 16) | ((b3 as u64) << 24) | ((b4 as u64)
        << 32) | ((b5 as u64) << 40) | ((b6 as u64) << 48) | ((b7 as u64) << 56)
}

/// Reading back the four little-endian bytes of a 32-bit length yields the
/// length.
pub proof fn lemma_le32_round_trip(n: u32)
    ensures
        spec_u32_from_le(
            (n & 0xff) as u8,
            ((n >> 8) & 0xff) as u8,
            ((n >> 16) & 0xff) as u8,
            ((n >> 24) & 0xff) as u8,
        ) == n,
{
    assert((((n & 0xff) as u8) as u32) | ((((n >> 8) & 0xff) as u8) as u32) << 8 | ((((n >> 16)
        & 0xff) as u8) as u32) << 16 | ((((n >> 24) & 0xff) as u8) as u32) << 24 == n)
        by (bit_vector);
}

/// Reading back the eight little-endian bytes of a 64-bit length yields the
/// length.
pub proof fn lemma_le64_round_trip(n: u64)
    ensures
        spec_u64_from_le(
            (n & 0xff) as u8,
            ((n >> 8) & 0xff) as u8,
            ((n >> 16) & 0xff) as u8,
            ((n >> 24) & 0xff) as u8,
            ((n >> 32) & 0xff) as u8,
            ((n >> 40) & 0xff) as u8,
            ((n >> 48) & 0xff) as u8,
            ((n >> 56) & 0xff) as u8,
        ) == n,
{
    assert((((n & 0xff) as u8) as u64) | ((((n >> 8) & 0xff) as u8) as u64) << 8 | ((((n >> 16)
        & 0xff) as u8) as u64) << 16 | ((((n >> 24) & 0xff) as u8) as u64) << 24 | ((((n >> 32)
        & 0xff) as u8) as u64) << 32 | ((((n >> 40) & 0xff) as u8) as u64) << 40 | ((((n >> 48)
        & 0xff) as u8) as u64) << 48 | ((((n >> 56) & 0xff) as u8) as u64) << 56 == n)
        by (bit_vector);
}

/// The operation a wire code names; meaningful for codes 0 through 2.
pub open spec fn spec_operation_of(b: u8) -> Operation {
    if b == 0 {
        Operation::Get
    } else if b == 1 {
        Operation::Put
    } else {
        Operation::Remove
    }
}

/// The bytes of one encoded record.
pub open spec fn spec_encode_record(m: RawRecordModel) -> Seq<u8> {
    let head = seq![m.op.spec_code()] + spec_le32(m.key.len() as u32) + m.key;
    match m.value {
        Some(v) => head + spec_le64(v.len() as u64) + v,
        None => head,
    }
}

/// The bytes of a sequence of records, concatenated with no framing.
pub open spec fn spec_encode_all(rs: Seq<RawRecordModel>) -> Seq<u8>
    decreases rs.len(),
{
    if rs.len() == 0 {
        Seq::empty()
    } else {
        spec_encode_record(rs[0]) + spec_encode_all(rs.drop_first())
    }
}

/// The outcome of decoding one record starting at `pos`: the record and the
/// position after it, `None` at a clean end of the log, or the error the
/// bytes force.
pub open spec fn spec_decode_record(bytes: Seq<u8>, pos: int) -> Result<
    Option<(RawRecordModel, int)>,
    CacheError,
> {
    if pos >= bytes.len() {
        Ok(None)
    } else if bytes[pos] > 2 {
        Err(CacheError::MalformedRecord)
    } else if bytes.len() - pos < 5 {
        Err(CacheError::TruncatedTail)
    } else {
        let klen = spec_u32_from_le(
            bytes[pos + 1],
            bytes[pos + 2],
            bytes[pos + 3],
            bytes[pos + 4],
        ) as int;
        if bytes.len() - pos - 5 < klen {
            Err(CacheError::TruncatedTail)
        } else {
            let key = bytes.subrange(pos + 5, pos + 5 + klen);
            let op = spec_operation_of(bytes[pos]);
            if bytes[pos] == 1 {
                let vstart = pos + 5 + klen;
                if bytes.len() - vstart < 8 {
                    Err(CacheError::TruncatedTail)
                } else {
                    let vlen64 = spec_u64_from_le(
                        bytes[vstart],
                        bytes[vstart + 1],
                        bytes[vstart + 2],
                        bytes[vstart + 3],
                        bytes[vstart + 4],
                        bytes[vstart + 5],
                        bytes[vstart + 6],
                        bytes[vstart + 7],
                    );
                    if vlen64 > usize::MAX as u64 {
                        Err(CacheError::MalformedRecord)
                    } else if bytes.len() - vstart - 8 < vlen64 as int {
                        Err(CacheError::TruncatedTail)
                    } else {
                        let value = bytes.subrange(vstart + 8, vstart + 8 + vlen64 as int);
                        Ok(
                            Some(
                                (
                                    RawRecordModel { op, key, value: Some(value) },
                                    vstart + 8 + vlen64 as int,
                                ),
                            ),
                        )
                    }
                }
            } else {
                Ok(Some((RawRecordModel { op, key, value: None }, pos + 5 + klen)))
            }
        }
    }
}

/// The records of the log from `pos` to its end, or the first error met.
pub open spec fn spec_decode_all(bytes: Seq<u8>, pos: int) -> Result<
    Seq<RawRecordModel>,
    CacheError,
>
    decreases bytes.len() - pos,
    when pos <= bytes.len()
{
    match spec_decode_record(bytes, pos) {
        Ok(None) => Ok(Seq::empty()),
        Ok(Some((m, next))) => if pos < next <= bytes.len() {
            match spec_decode_all(bytes, next) {
                Ok(rest) => Ok(seq![m] + rest),
                Err(e) => Err(e),
            }
        } else {
            Err(CacheError::MalformedRecord)
        },
        Err(e) => Err(e),
    }
}

/// The records recovery reads from `pos` to the log's end: a truncated tail
/// ends the reading quietly with the records already decoded, while a
/// malformed record fails recovery at its byte offset.
pub open spec fn spec_decode_replay(bytes: Seq<u8>, pos: int) -> Result<
    Seq<RawRecordModel>,
    CacheError,
>
    decreases bytes.len() - pos,
    when pos <= bytes.len()
{
    match spec_decode_record(bytes, pos) {
        Ok(None) => Ok(Seq::empty()),
        Ok(Some((m, next))) => if pos < next <= bytes.len() {
            match spec_decode_replay(bytes, next) {
                Ok(rest) => Ok(seq![m] + rest),
                Err(e) => Err(e),
            }
        } else {
            Err(CacheError::ReplayFailed(pos as usize))
        },
        Err(CacheError::TruncatedTail) => Ok(Seq::empty()),
        Err(_) => Err(CacheError::ReplayFailed(pos as usize)),
    }
}

/// A record's encoding is decoded back exactly, wherever it stands in a
/// log: decoding at its first byte yields the record and stops at its last.
proof fn lemma_decode_encode_at(bytes: Seq<u8>, pos: int, m: RawRecordModel)
    requires
        raw_record_wf(m),
        0 <= pos,
        pos + spec_encode_record(m).len() <= bytes.len(),
        bytes.subrange(pos, pos + spec_encode_record(m).len()) == spec_encode_record(m),
    ensures
        spec_decode_record(bytes, pos) == Ok::<_, CacheError>(
            Some((m, pos + spec_encode_record(m).len())),
        ),
{
    let enc = spec_encode_record(m);
    let head = seq![m.op.spec_code()] + spec_le32(m.key.len() as u32) + m.key;
    let klen = m.key.len() as int;
    assert(head.len() == 5 + klen);
    assert forall|i: int| 0 <= i < enc.len() implies bytes[pos + i] == enc[i] by {
        assert(bytes.subrange(pos, pos + enc.len() as int)[i] == enc[i]);
    }
    let code = m.op.spec_code();
    assert(enc[0] == code);
    assert(code <= 2);
    let n32 = m.key.len() as u32;
    assert(enc[1] == spec_le32(n32)[0] && enc[2] == spec_le32(n32)[1] && enc[3] == spec_le32(
        n32,
    )[2] && enc[4] == spec_le32(n32)[3]);
    lemma_le32_round_trip(n32);
    assert(spec_u32_from_le(bytes[pos + 1], bytes[pos + 2], bytes[pos + 3], bytes[pos + 4])
        == n32);
    assert(n32 as int == klen);
    assert forall|j: int| 0 <= j < klen implies bytes[pos + 5 + j] == m.key[j] by {
        assert(enc[5 + j] == head[5 + j]);
        assert(head[5 + j] == m.key[j]);
    }
    assert(bytes.subrange(pos + 5, pos + 5 + klen) =~= m.key);
    lemma_operation_of_code(m.op, code);
    match m.value {
        Some(v) => {
            let vlen = v.len() as int;
            let n64 = v.len() as u64;
            assert(code == 1);
            assert(enc.len() == 13 + klen + vlen);
            let vstart = pos + 5 + klen;
            assert forall|j: int| 0 <= j < 8 implies bytes[vstart + j] == spec_le64(n64)[j] by {
                assert(enc[5 + klen + j] == spec_le64(n64)[j]);
            }
            lemma_le64_round_trip(n64);
            assert(spec_u64_from_le(
                bytes[vstart],
                bytes[vstart + 1],
                bytes[vstart + 2],
                bytes[vstart + 3],
                bytes[vstart + 4],
                bytes[vstart + 5],
                bytes[vstart + 6],
                bytes[vstart + 7],
            ) == n64);
            assert(n64 <= usize::MAX as u64);
            assert forall|j: int| 0 <= j < vlen implies bytes[vstart + 8 + j] == v[j] by {
                assert(enc[13 + klen + j] == v[j]);
            }
            assert(bytes.subrange(vstart + 8, vstart + 8 + vlen) =~= v);
        },
        None => {
            assert(code != 1);
            assert(enc.len() == 5 + klen);
        },
    }
}

/// A log that is exactly the concatenated encodings of `rs` from `pos` on
/// decodes back to `rs`.
proof fn lemma_decode_suffix(bytes: Seq<u8>, pos: int, rs: Seq<RawRecordModel>)
    requires
        0 <= pos <= bytes.len(),
        bytes.subrange(pos, bytes.len() as int) == spec_encode_all(rs),
        forall|i: int| 0 <= i < rs.len() ==> raw_record_wf(#[trigger] rs[i]),
    ensures
        spec_decode_all(bytes, pos) == Ok::<_, CacheError>(rs),
    decreases rs.len(),
{
    if rs.len() == 0 {
        assert(bytes.len() - pos == 0);
        assert(rs =~= Seq::<RawRecordModel>::empty());
    } else {
        let m = rs[0];
        let enc0 = spec_encode_record(m);
        let rest = rs.drop_first();
        assert(spec_encode_all(rs) == enc0 + spec_encode_all(rest));
        assert(pos + enc0.len() <= bytes.len());
        assert(bytes.subrange(pos, pos + enc0.len()) =~= enc0) by {
            assert forall|i: int| 0 <= i < enc0.len() implies bytes.subrange(
                pos,
                pos + enc0.len(),
            )[i] == enc0[i] by {
                assert(bytes.subrange(pos, bytes.len() as int)[i] == (enc0 + spec_encode_all(
                    rest,
                ))[i]);
            }
        }
        lemma_decode_encode_at(bytes, pos, m);
        let next = pos + enc0.len();
        assert(bytes.subrange(next, bytes.len() as int) =~= spec_encode_all(rest)) by {
            assert forall|i: int| 0 <= i < bytes.len() - next implies bytes.subrange(
                next,
                bytes.len() as int,
            )[i] == spec_encode_all(rest)[i] by {
                assert(bytes.subrange(pos, bytes.len() as int)[enc0.len() + i]
                    == (enc0 + spec_encode_all(rest))[enc0.len() + i]);
            }
        }
        lemma_decode_suffix(bytes, next, rest);
        assert(enc0.len() >= 5);
        assert(spec_decode_record(bytes, pos) == Ok::<_, CacheError>(Some((m, next))));
        assert(pos < next <= bytes.len());
        assert(spec_decode_all(bytes, pos) == Ok::<_, CacheError>(seq![m] + rest));
        assert(seq![m] + rest =~= rs);
    }
}

/// Round trip of the log format: iterating a log that holds the encodings
/// of a sequence of records, appended in order, yields exactly that sequence
/// of records, both under strict decoding and under the tolerant decoding
/// recovery uses.
pub proof fn lemma_log_round_trip(rs: Seq<RawRecordModel>)
    requires
        forall|i: int| 0 <= i < rs.len() ==> raw_record_wf(#[trigger] rs[i]),
    ensures
        spec_decode_all(spec_encode_all(rs), 0) == Ok::<_, CacheError>(rs),
        spec_decode_replay(spec_encode_all(rs), 0) == Ok::<_, CacheError>(rs),
{
    let bytes = spec_encode_all(rs);
    assert(bytes.subrange(0, bytes.len() as int) =~= bytes);
    lemma_decode_suffix(bytes, 0, rs);
    lemma_replay_agrees_with_strict(bytes, 0);
}

/// Wherever strict decoding succeeds, the tolerant decoding recovery uses
/// reads the same records.
proof fn lemma_replay_agrees_with_strict(bytes: Seq<u8>, pos: int)
    requires
        0 <= pos <= bytes.len(),
        spec_decode_all(bytes, pos) is Ok,
    ensures
        spec_decode_replay(bytes, pos) == spec_decode_all(bytes, pos),
    decreases bytes.len() - pos,
{
    match spec_decode_record(bytes, pos) {
        Ok(None) => {},
        Ok(Some((m, next))) => {
            if pos < next <= bytes.len() {
                lemma_replay_agrees_with_strict(bytes, next);
            }
        },
        Err(e) => {},
    }
}

/// The abstract contents of a sequence of raw records.
pub open spec fn record_views(rs: Seq<RawRecord>) -> Seq<RawRecordModel> {
    rs.map_values(|r: RawRecord| r@)
}

/// The abstract contents of a record sequence are its records' contents, in
/// order.
pub proof fn lemma_record_views_index(rs: Seq<RawRecord>)
    ensures
        record_views(rs).len() == rs.len(),
        forall|i: int| 0 <= i < rs.len() ==> record_views(rs)[i] == #[trigger] rs[i]@,
{
}

/// Appends the four little-endian bytes of a 32-bit length.
fn push_le32(out: &mut Vec<u8>, n: u32)
    ensures
        final(out)@ == old(out)@ + spec_le32(n),
{
    out.push((n & 0xff) as u8);
    out.push(((n >> 8) & 0xff) as u8);
    out.push(((n >> 16) & 0xff) as u8);
    out.push(((n >> 24) & 0xff) as u8);
    proof {
        assert(out@ =~= old(out)@ + spec_le32(n));
    }
}

/// Appends the eight little-endian bytes of a 64-bit length.
fn push_le64(out: &mut Vec<u8>, n: u64)
    ensures
        final(out)@ == old(out)@ + spec_le64(n),
{
    out.push((n & 0xff) as u8);
    out.push(((n >> 8) & 0xff) as u8);
    out.push(((n >> 16) & 0xff) as u8);
    out.push(((n >> 24) & 0xff) as u8);
    out.push(((n >> 32) & 0xff) as u8);
    out.push(((n >> 40) & 0xff) as u8);
    out.push(((n >> 48) & 0xff) as u8);
    out.push(((n >> 56) & 0xff) as u8);
    proof {
        assert(out@ =~= old(out)@ + spec_le64(n));
    }
}

/// Appends a copy of `src` to `out`.
fn push_bytes(out: &mut Vec<u8>, src: &Vec<u8>)
    ensures
        final(out)@ == old(out)@ + src@,
{
    let mut i: usize = 0;
    while i < src.len()
        invariant
            i <= src@.len(),
            out@ == old(out)@ + src@.subrange(0, i as int),
        decreases src@.len() - i,
    {
        out.push(src[i]);
        i += 1;
        proof {
            assert(src@.subrange(0, i as int) =~= src@.subrange(0, i - 1).push(src@[i - 1]));
        }
    }
    proof {
        assert(src@.subrange(0, src@.len() as int) =~= src@);
    }
}

/// Copies `n` bytes of `bytes` starting at `start`.
fn copy_range(bytes: &Vec<u8>, start: usize, n: usize) -> (out: Vec<u8>)
    requires
        start + n <= bytes@.len(),
    ensures
        out@ == bytes@.subrange(start as int, start as int + n as int),
{
    let total = bytes.len();
    let mut out: Vec<u8> = Vec::new();
    let mut i: usize = 0;
    while i < n
        invariant
            i <= n,
            start + n <= total,
            total == bytes@.len(),
            out@ == bytes@.subrange(start as int, start as int + i as int),
        decreases n - i,
    {
        out.push(bytes[start + i]);
        i += 1;
        proof {
            assert(bytes@.subrange(start as int, start as int + i as int) =~= bytes@.subrange(
                start as int,
                start as int + i - 1,
            ).push(bytes@[start + i - 1]));
        }
    }
    out
}

/// Encodes one record as its wire bytes.
pub fn encode_record(record: &RawRecord) -> (out: Vec<u8>)
    requires
        raw_record_wf(record@),
    ensures
        out@ == spec_encode_record(record@),
{
    let mut out: Vec<u8> = Vec::new();
    let code = record.operation.to_int() as u8;
    out.push(code);
    push_le32(&mut out, record.key.len() as u32);
    push_bytes(&mut out, &record.key);
    match &record.value {
        Some(v) => {
            push_le64(&mut out, v.len() as u64);
            push_bytes(&mut out, v);
            proof {
                assert(out@ =~= spec_encode_record(record@));
            }
        },
        None => {
            proof {
                assert(out@ =~= spec_encode_record(record@));
            }
        },
    }
    out
}

/// Concatenating per-record encodings one record at a time extends the
/// encoding of the whole prefix.
proof fn lemma_encode_all_snoc(rs: Seq<RawRecordModel>, m: RawRecordModel)
    ensures
        spec_encode_all(rs.push(m)) == spec_encode_all(rs) + spec_encode_record(m),
    decreases rs.len(),
{
    if rs.len() == 0 {
        assert(rs.push(m)[0] == m);
        assert(rs.push(m).drop_first() =~= Seq::<RawRecordModel>::empty());
        assert(spec_encode_all(rs.push(m)) == spec_encode_record(m) + spec_encode_all(
            Seq::<RawRecordModel>::empty(),
        ));
        assert(spec_encode_record(m) + Seq::<u8>::empty() =~= spec_encode_record(m));
        assert(Seq::<u8>::empty() + spec_encode_record(m) =~= spec_encode_record(m));
    } else {
        assert(rs.push(m).drop_first() =~= rs.drop_first().push(m));
        assert(rs.push(m)[0] == rs[0]);
        lemma_encode_all_snoc(rs.drop_first(), m);
        assert(spec_encode_all(rs.push(m)) == spec_encode_record(rs[0]) + (spec_encode_all(
            rs.drop_first(),
        ) + spec_encode_record(m)));
        assert(spec_encode_record(rs[0]) + (spec_encode_all(rs.drop_first())
            + spec_encode_record(m)) =~= (spec_encode_record(rs[0]) + spec_encode_all(
            rs.drop_first(),
        )) + spec_encode_record(m));
    }
}

/// Encodes a batch of records into one contiguous buffer, in order and with
/// no framing between them; this is what one batched write carries.
pub fn encode_batch(records: &Vec<RawRecord>) -> (out: Vec<u8>)
    requires
        forall|i: int| 0 <= i < records@.len() ==> raw_record_wf(#[trigger] records@[i]@),
    ensures
        out@ == spec_encode_all(record_views(records@)),
{
    let mut out: Vec<u8> = Vec::new();
    let mut i: usize = 0;
    while i < records.len()
        invariant
            i <= records@.len(),
            forall|j: int| 0 <= j < records@.len() ==> raw_record_wf(#[trigger] records@[j]@),
            out@ == spec_encode_all(record_views(records@.subrange(0, i as int))),
        decreases records@.len() - i,
    {
        let one = encode_record(&records[i]);
        push_bytes(&mut out, &one);
        i += 1;
        proof {
            assert(record_views(records@.subrange(0, i as int)) =~= record_views(
                records@.subrange(0, i - 1),
            ).push(records@[i - 1]@));
            lemma_encode_all_snoc(
                record_views(records@.subrange(0, i - 1)),
                records@[i - 1]@,
            );
        }
    }
    proof {
        assert(records@.subrange(0, records@.len() as int) =~= records@);
    }
    out
}

/// Decodes one record starting at `pos`: the record and the position after
/// it, `Ok(None)` at a clean end, or the error the bytes force.
pub fn decode_record(bytes: &Vec<u8>, pos: usize) -> (r: Result<
    Option<(RawRecord, usize)>,
    CacheError,
>)
    requires
        pos <= bytes@.len(),
    ensures
        ({
            let s = spec_decode_record(bytes@, pos as int);
            match r {
                Ok(None) => s == Ok::<Option<(RawRecordModel, int)>, CacheError>(None),
                Ok(Some((rec, next))) => {
                    &&& s == Ok::<_, CacheError>(Some((rec@, next as int)))
                    &&& raw_record_wf(rec@)
                    &&& pos < next <= bytes@.len()
                },
                Err(e) => s == Err::<Option<(RawRecordModel, int)>, CacheError>(e),
            }
        }),
{
    let len = bytes.len();
    if pos == len {
        return Ok(None);
    }
    let op_byte = bytes[pos];
    if op_byte > 2 {
        return Err(CacheError::MalformedRecord);
    }
    if len - pos < 5 {
        return Err(CacheError::TruncatedTail);
    }
    let klen32 = u32_from_le(bytes[pos + 1], bytes[pos + 2], bytes[pos + 3], bytes[pos + 4]);
    let klen = klen32 as usize;
    if len - pos - 5 < klen {
        return Err(CacheError::TruncatedTail);
    }
    let key = copy_range(bytes, pos + 5, klen);
    let operation = Operation::from_int(op_byte);
    proof {
        lemma_operation_of_code(operation, op_byte);
    }
    if op_byte == 1 {
        let vstart = pos + 5 + klen;
        if len - vstart < 8 {
            return Err(CacheError::TruncatedTail);
        }
        let vlen64 = u64_from_le(
            bytes[vstart],
            bytes[vstart + 1],
            bytes[vstart + 2],
            bytes[vstart + 3],
            bytes[vstart + 4],
            bytes[vstart + 5],
            bytes[vstart + 6],
            bytes[vstart + 7],
        );
        if vlen64 > usize::MAX as u64 {
            return Err(CacheError::MalformedRecord);
        }
        let vlen = vlen64 as usize;
        if len - vstart - 8 < vlen {
            return Err(CacheError::TruncatedTail);
        }
        let value = copy_range(bytes, vstart + 8, vlen);
        let next = vstart + 8 + vlen;
        Ok(Some((RawRecord { operation, key, value: Some(value) }, next)))
    } else {
        Ok(Some((RawRecord { operation, key, value: None }, pos + 5 + klen)))
    }
}

/// An operation is determined by its wire code.
proof fn lemma_operation_of_code(op: Operation, b: u8)
    requires
        b <= 2,
        op.spec_code() == b,
    ensures
        op == spec_operation_of(b),
{
}

/// Reads a 32-bit length from four little-endian bytes.
fn u32_from_le(b0: u8, b1: u8, b2: u8, b3: u8) -> (r: u32)
    ensures
        r == spec_u32_from_le(b0, b1, b2, b3),
{
    (b0 as u32) | ((b1 as u32) << 8) | ((b2 as u32) << 16) | ((b3 as u32) << 24)
}

/// Reads a 64-bit length from eight little-endian bytes.
fn u64_from_le(b0: u8, b1: u8, b2: u8, b3: u8, b4: u8, b5: u8, b6: u8, b7: u8) -> (r: u64)
    ensures
        r == spec_u64_from_le(b0, b1, b2, b3, b4, b5, b6, b7),
{
    (b0 as u64) | ((b1 as u64) << 8) | ((b2 as u64) << 16) | ((b3 as u64) << 24) | ((b4 as u64)
        << 32) | ((b5 as u64) << 40) | ((b6 as u64) << 48) | ((b7 as u64) << 56)
}

/// Decodes a whole log strictly: every record must decode and the log must
/// end at a record boundary.
pub fn decode_all(bytes: &Vec<u8>) -> (r: Result<Vec<RawRecord>, CacheError>)
    ensures
        match r {
            Ok(records) => spec_decode_all(bytes@, 0) == Ok::<_, CacheError>(
                record_views(records@),
            ),
            Err(e) => spec_decode_all(bytes@, 0) == Err::<Seq<RawRecordModel>, CacheError>(e),
        },
{
    let mut acc: Vec<RawRecord> = Vec::new();
    let mut pos: usize = 0;
    loop
        invariant
            pos <= bytes@.len(),
            match spec_decode_all(bytes@, pos as int) {
                Ok(s) => spec_decode_all(bytes@, 0) == Ok::<_, CacheError>(
                    record_views(acc@) + s,
                ),
                Err(e) => spec_decode_all(bytes@, 0) == Err::<Seq<RawRecordModel>, CacheError>(e),
            },
        decreases bytes@.len() - pos,
    {
        match decode_record(bytes, pos) {
            Ok(None) => {
                proof {
                    assert(record_views(acc@) + Seq::<RawRecordModel>::empty() =~= record_views(
                        acc@,
                    ));
                }
                return Ok(acc);
            },
            Ok(Some((rec, next))) => {
                let ghost before = acc@;
                acc.push(rec);
                proof {
                    assert(record_views(acc@) =~= record_views(before).push(rec@));
                    lemma_views_push_assoc(before, rec@);
                }
                pos = next;
            },
            Err(e) => {
                return Err(e);
            },
        }
    }
}

/// Splitting the records already decoded from those still ahead reassociates
/// around the record just decoded.
proof fn lemma_views_push_assoc(before: Seq<RawRecord>, m: RawRecordModel)
    ensures
        forall|s: Seq<RawRecordModel>| #![auto]
            record_views(before).push(m) + s == record_views(before) + (seq![m] + s),
{
    assert forall|s: Seq<RawRecordModel>| #![auto]
        record_views(before).push(m) + s == record_views(before) + (seq![m] + s) by {
        assert(record_views(before).push(m) + s =~= record_views(before) + (seq![m] + s));
    }
}

/// Decodes a log for recovery: a truncated tail ends the reading quietly
/// with the records already decoded, while a malformed record fails with the
/// byte offset at which it starts.
pub fn decode_for_replay(bytes: &Vec<u8>) -> (r: Result<Vec<RawRecord>, CacheError>)
    ensures
        match r {
            Ok(records) => spec_decode_replay(bytes@, 0) == Ok::<_, CacheError>(
                record_views(records@),
            ),
            Err(e) => spec_decode_replay(bytes@, 0) == Err::<Seq<RawRecordModel>, CacheError>(e),
        },
{
    let mut acc: Vec<RawRecord> = Vec::new();
    let mut pos: usize = 0;
    loop
        invariant
            pos <= bytes@.len(),
            match spec_decode_replay(bytes@, pos as int) {
                Ok(s) => spec_decode_replay(bytes@, 0) == Ok::<_, CacheError>(
                    record_views(acc@) + s,
                ),
                Err(e) => spec_decode_replay(bytes@, 0) == Err::<
                    Seq<RawRecordModel>,
                    CacheError,
                >(e),
            },
        decreases bytes@.len() - pos,
    {
        match decode_record(bytes, pos) {
            Ok(None) => {
                proof {
                    assert(record_views(acc@) + Seq::<RawRecordModel>::empty() =~= record_views(
                        acc@,
                    ));
                }
                return Ok(acc);
            },
            Ok(Some((rec, next))) => {
                let ghost before = acc@;
                acc.push(rec);
                proof {
                    assert(record_views(acc@) =~= record_views(before).push(rec@));
                    lemma_views_push_assoc(before, rec@);
                }
                pos = next;
            },
            Err(e) => {
                match e {
                    CacheError::TruncatedTail => {
                        proof {
                            assert(record_views(acc@) + Seq::<RawRecordModel>::empty()
                                =~= record_views(acc@));
                        }
                        return Ok(acc);
                    },
                    _ => {
                        return Err(CacheError::ReplayFailed(pos));
                    },
                }
            },
        }
    }
}

/// The file path a named cache logs to inside its folder.
pub fn derive_log_path(folder: &String, cache_name: &String) -> (r: String)
    ensures
        r@ == folder@ + "/"@ + cache_name@ + ".dat"@,
{
    let mut r = folder.clone();
    r.append("/");
    r.append(cache_name.as_str());
    r.append(".dat");
    r
}

/// The staging side of the append-only log: it owns the records not yet
/// written and decides, from its configuration, whether a record is encoded
/// for an immediate durable write or staged for the next periodic flush.
/// Opening, writing and reading the file itself happens outside this crate;
/// this type hands encoded bytes out and takes raw records in.
pub struct AOFSubscriber {
    /// Whether a log file is configured at all.
    aof_configured: bool,
    /// Milliseconds between periodic flushes; unset means every record is
    /// written and flushed as it arrives.
    pub flush_time: Option<u32>,
    /// Records accepted but not yet handed out as bytes; only used when a
    /// log and a flush period are configured.
    unwritten_inmemory_records: Vec<RawRecord>,
}

impl AOFSubscriber {
    /// Whether a log file is configured.
    pub closed spec fn configured(&self) -> bool {
        self.aof_configured
    }

    /// The flush period, when periodic flushing is configured.
    pub closed spec fn period(&self) -> Option<u32> {
        self.flush_time
    }

    /// The records accepted and not yet handed out, in arrival order.
    pub closed spec fn staged(&self) -> Seq<RawRecordModel> {
        record_views(self.unwritten_inmemory_records@)
    }

    /// The staging queue holds only records the format can carry, stays
    /// empty unless a log with a flush period is configured, and a
    /// configured flush period is never zero.
    pub closed spec fn wf(&self) -> bool {
        &&& forall|i: int| 0 <= i < self.staged().len() ==> raw_record_wf(#[trigger] self.staged()[i])
        &&& (!self.configured() || self.period() is None) ==> self.staged().len() == 0
        &&& (self.period() matches Some(t) ==> t > 0)
    }

    /// Creates the staging side of a log from its configuration and derives
    /// the log file's path. A folder without a cache name or the reverse,
    /// or a flush period of zero, is rejected as invalid; with neither
    /// folder nor name, no log is configured and the path is `None`.
    pub fn new(filedir: Option<String>, cache_name: Option<String>, flush_time: Option<u32>) -> (r:
        Result<(Self, Option<String>), CacheError>)
        ensures
            match r {
                Ok((s, path)) => {
                    &&& s.wf()
                    &&& s.staged() == Seq::<RawRecordModel>::empty()
                    &&& s.period() == flush_time
                    &&& s.configured() == (filedir is Some)
                    &&& (filedir is Some) == (cache_name is Some)
                    &&& (flush_time matches Some(t) ==> t > 0)
                    &&& match path {
                        Some(p) => filedir matches Some(f) && cache_name matches Some(n) && p@
                            == f@ + "/"@ + n@ + ".dat"@,
                        None => filedir is None,
                    }
                },
                Err(e) => {
                    &&& e == CacheError::ConfigInvalid
                    &&& ((filedir is Some) != (cache_name is Some) || flush_time == Some(0u32))
                },
            },
    {
        if flush_time == Some(0) {
            return Err(CacheError::ConfigInvalid);
        }
        match (&filedir, &cache_name) {
            (Some(f), Some(n)) => {
                let path = derive_log_path(f, n);
                Ok(
                    (
                        AOFSubscriber {
                            aof_configured: true,
                            flush_time,
                            unwritten_inmemory_records: Vec::new(),
                        },
                        Some(path),
                    ),
                )
            },
            (None, None) => Ok(
                (
                    AOFSubscriber {
                        aof_configured: false,
                        flush_time,
                        unwritten_inmemory_records: Vec::new(),
                    },
                    None,
                ),
            ),
            _ => Err(CacheError::ConfigInvalid),
        }
    }

    /// Grants or refuses iteration over the log: recovery may open a read
    /// handle only when a log is configured.
    pub fn begin_iteration(&self) -> (r: Result<(), CacheError>)
        ensures
            r is Ok <==> self.configured(),
            !self.configured() ==> r == Err::<(), CacheError>(CacheError::LogNotConfigured),
    {
        if self.aof_configured {
            Ok(())
        } else {
            Err(CacheError::LogNotConfigured)
        }
    }

    /// Accepts one record. Without a log it is dropped; with a flush period
    /// it joins the staging queue in arrival order and nothing is written
    /// yet; without a flush period its encoded bytes are returned for an
    /// immediate durable append.
    pub fn on_event(&mut self, record: RawRecord) -> (out: Option<Vec<u8>>)
        requires
            old(self).wf(),
            raw_record_wf(record@),
        ensures
            final(self).wf(),
            final(self).configured() == old(self).configured(),
            final(self).period() == old(self).period(),
            match out {
                Some(bytes) => {
                    &&& old(self).configured()
                    &&& old(self).period() is None
                    &&& bytes@ == spec_encode_record(record@)
                    &&& final(self).staged() == old(self).staged()
                },
                None => {
                    &&& !(old(self).configured() && old(self).period() is None)
                    &&& (old(self).configured() && old(self).period() is Some ==> final(self).staged()
                        == old(self).staged().push(record@))
                    &&& (!old(self).configured() ==> final(self).staged() == old(self).staged())
                },
            },
    {
        if !self.aof_configured {
            return None;
        }
        if self.flush_time.is_some() {
            let ghost before = self.unwritten_inmemory_records@;
            let ghost rec_model = record@;
            self.unwritten_inmemory_records.push(record);
            proof {
                lemma_record_views_index(before);
                lemma_record_views_index(self.unwritten_inmemory_records@);
                assert(self.staged() =~= record_views(before).push(rec_model));
                assert forall|i: int| 0 <= i < self.staged().len() implies raw_record_wf(
                    #[trigger] self.staged()[i],
                ) by {
                    if i < before.len() {
                        assert(raw_record_wf(old(self).staged()[i]));
                        assert(self.staged()[i] == old(self).staged()[i]);
                    } else {
                        assert(self.staged()[i] == rec_model);
                    }
                }
            }
            None
        } else {
            Some(encode_record(&record))
        }
    }

    /// Empties the staging queue, returning the staged records in arrival
    /// order.
    fn get_current_records_and_empty_it(&mut self) -> (records: Vec<RawRecord>)
        requires
            old(self).wf(),
        ensures
            final(self).wf(),
            final(self).configured() == old(self).configured(),
            final(self).period() == old(self).period(),
            final(self).staged() == Seq::<RawRecordModel>::empty(),
            record_views(records@) == old(self).staged(),
            forall|i: int| 0 <= i < records@.len() ==> raw_record_wf(#[trigger] records@[i]@),
    {
        let mut records: Vec<RawRecord> = Vec::new();
        while self.unwritten_inmemory_records.len() > 0
            invariant
                forall|i: int|
                    0 <= i < self.staged().len() ==> raw_record_wf(#[trigger] self.staged()[i]),
                forall|i: int| 0 <= i < records@.len() ==> raw_record_wf(#[trigger] records@[i]@),
                self.aof_configured == old(self).aof_configured,
                self.flush_time == old(self).flush_time,
                record_views(records@) + self.staged() == old(self).staged(),
            decreases self.unwritten_inmemory_records@.len(),
        {
            let ghost done = records@;
            let ghost queue = self.unwritten_inmemory_records@;
            proof {
                lemma_record_views_index(queue);
                assert(self.staged()[0] == queue[0]@);
            }
            let r = self.unwritten_inmemory_records.remove(0);
            records.push(r);
            proof {
                lemma_record_views_index(done);
                lemma_record_views_index(records@);
                lemma_record_views_index(queue.drop_first());
                lemma_record_views_index(self.unwritten_inmemory_records@);
                assert(self.unwritten_inmemory_records@ =~= queue.drop_first());
                assert(record_views(records@) =~= record_views(done).push(queue[0]@));
                assert(record_views(records@) + self.staged() =~= record_views(done)
                    + record_views(queue));
                assert forall|i: int| 0 <= i < self.staged().len() implies raw_record_wf(
                    #[trigger] self.staged()[i],
                ) by {
                    assert(self.staged()[i] == record_views(queue)[i + 1]);
                }
            }
        }
        proof {
            assert(record_views(records@) + self.staged() =~= record_views(records@));
        }
        records
    }

    /// Drains the staging queue and encodes the drained records, oldest
    /// first, into one contiguous buffer for a single batched durable
    /// append; the batch carries the records in the order their events
    /// arrived.
    pub fn flush_to_disk(&mut self) -> (out: Vec<u8>)
        requires
            old(self).wf(),
        ensures
            final(self).wf(),
            final(self).configured() == old(self).configured(),
            final(self).period() == old(self).period(),
            final(self).staged() == Seq::<RawRecordModel>::empty(),
            out@ == spec_encode_all(old(self).staged()),
    {
        let records = self.get_current_records_and_empty_it();
        encode_batch(&records)
    }
}

} // verus!
