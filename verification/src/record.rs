//! The energy-usage record and its bounded-size byte codec.
//!
//! A record is serialised deterministically: three fixed-width
//! little-endian fields, a length-prefixed device label, and a one-byte
//! presence flag followed, when set, by a length-prefixed recommendation
//! text. `encode` rejects a record whose encoding passes
//! [`MAX_RECORD_SIZE`]; `decode` is its exact inverse and rejects every
//! byte string that no record encodes to.

use vstd::prelude::*;
use vstd::bytes::*;
use vstd::slice::slice_subrange;

use crate::errors::StorageError;

verus! {

/// Greatest number of bytes an encoded record may occupy.
pub const MAX_RECORD_SIZE: usize = 1024;

/// A recorded energy-usage event.
///
/// `usage_kwh_bits` carries the usage in kilowatt-hours as the bit pattern
/// of an IEEE-754 double, so the storage stack handles only plain integers;
/// callers convert at the boundary. `device_type` and the optional
/// `recommendation` carry UTF-8 text as bytes.
#[derive(Clone, Debug, PartialEq)]
pub struct EnergyUsageRecord {
    pub id: u64,
    pub usage_kwh_bits: u64,
    pub timestamp: u64,
    pub device_type: Vec<u8>,
    pub recommendation: Option<Vec<u8>>,
}

/// The mathematical shape of a record.
#[verifier::ext_equal]
pub struct RecordView {
    pub id: u64,
    pub usage_kwh_bits: u64,
    pub timestamp: u64,
    pub device_type: Seq<u8>,
    pub recommendation: Option<Seq<u8>>,
}

impl View for EnergyUsageRecord {
    type V = RecordView;

    open spec fn view(&self) -> RecordView {
        RecordView {
            id: self.id,
            usage_kwh_bits: self.usage_kwh_bits,
            timestamp: self.timestamp,
            device_type: self.device_type@,
            recommendation: match self.recommendation {
                Some(v) => Some(v@),
                None => None,
            },
        }
    }
}

impl RecordView {
    /// Both texts fit the bounded slot on their own.
    pub open spec fn wf(&self) -> bool {
        &&& self.device_type.len() <= MAX_RECORD_SIZE
        &&& (self.recommendation matches Some(t) ==> t.len() <= MAX_RECORD_SIZE)
    }
}

/// The encoding of a record: fixed fields, length-prefixed device label,
/// presence flag, and an optional length-prefixed recommendation.
pub open spec fn spec_encode(rv: RecordView) -> Seq<u8> {
    spec_u64_to_le_bytes(rv.id) + spec_u64_to_le_bytes(rv.usage_kwh_bits) + spec_u64_to_le_bytes(
        rv.timestamp,
    ) + spec_u64_to_le_bytes(rv.device_type.len() as u64) + rv.device_type + (
    match rv.recommendation {
        None => seq![0u8],
        Some(t) => seq![1u8] + spec_u64_to_le_bytes(t.len() as u64) + t,
    })
}

/// The record a byte string encodes, or `None` when it encodes no record.
pub open spec fn spec_decode(b: Seq<u8>) -> Option<RecordView> {
    if b.len() < 33 {
        None
    } else {
        let id = spec_u64_from_le_bytes(b.subrange(0, 8));
        let bits = spec_u64_from_le_bytes(b.subrange(8, 16));
        let ts = spec_u64_from_le_bytes(b.subrange(16, 24));
        let dtlen = spec_u64_from_le_bytes(b.subrange(24, 32)) as int;
        if 33 + dtlen > b.len() {
            None
        } else {
            let dt = b.subrange(32, 32 + dtlen);
            let flag = b[32 + dtlen];
            if flag == 0 {
                if b.len() == 33 + dtlen {
                    Some(
                        RecordView {
                            id,
                            usage_kwh_bits: bits,
                            timestamp: ts,
                            device_type: dt,
                            recommendation: None,
                        },
                    )
                } else {
                    None
                }
            } else if flag == 1 {
                if b.len() < 41 + dtlen {
                    None
                } else {
                    let rlen = spec_u64_from_le_bytes(b.subrange(33 + dtlen, 41 + dtlen)) as int;
                    if b.len() == 41 + dtlen + rlen {
                        Some(
                            RecordView {
                                id,
                                usage_kwh_bits: bits,
                                timestamp: ts,
                                device_type: dt,
                                recommendation: Some(b.subrange(41 + dtlen, 41 + dtlen + rlen)),
                            },
                        )
                    } else {
                        None
                    }
                }
            } else {
                None
            }
        }
    }
}

/// Appends a copy of `src` to `buf`.
pub(crate) fn push_bytes(buf: &mut Vec<u8>, src: &Vec<u8>)
    ensures
        final(buf)@ == old(buf)@ + src@,
{
    let mut i: usize = 0;
    while i < src.len()
        invariant
            i <= src@.len(),
            buf@ == old(buf)@ + src@.subrange(0, i as int),
        decreases src@.len() - i,
    {
        buf.push(src[i]);
        proof {
            assert(buf@ =~= old(buf)@ + src@.subrange(0, i + 1));
        }
        i = i + 1;
    }
    proof {
        assert(buf@ =~= old(buf)@ + src@);
    }
}

/// Reads the little-endian 64-bit value at `off`.
fn read_u64_at(b: &Vec<u8>, off: usize) -> (r: u64)
    requires
        off + 8 <= b@.len(),
    ensures
        r == spec_u64_from_le_bytes(b@.subrange(off as int, off + 8)),
{
    let n = b.len();
    u64_from_le_bytes(slice_subrange(b.as_slice(), off, off + 8))
}

/// Copies `b[off .. off + len]` into a fresh vector.
pub(crate) fn copy_range(b: &Vec<u8>, off: usize, len: usize) -> (r: Vec<u8>)
    requires
        off + len <= b@.len(),
    ensures
        r@ == b@.subrange(off as int, off + len),
{
    let n = b.len();
    let mut out: Vec<u8> = Vec::new();
    let mut i: usize = 0;
    while i < len
        invariant
            i <= len,
            n == b@.len(),
            off + len <= b@.len(),
            out@ == b@.subrange(off as int, off + i),
        decreases len - i,
    {
        out.push(b[off + i]);
        proof {
            assert(out@ =~= b@.subrange(off as int, off + i + 1));
        }
        i = i + 1;
    }
    out
}

/// Serialises a record, deterministically, into at most
/// [`MAX_RECORD_SIZE`] bytes. Fails with `EncodingError` exactly when the
/// texts push the encoding over that bound.
pub fn encode(record: &EnergyUsageRecord) -> (r: Result<Vec<u8>, StorageError>)
    ensures
        r is Ok <==> spec_encode(record@).len() <= MAX_RECORD_SIZE,
        r matches Ok(b) ==> b@ == spec_encode(record@),
        r is Err ==> r == Err::<Vec<u8>, StorageError>(StorageError::EncodingError),
{
    proof {
        lemma_auto_spec_u64_to_from_le_bytes();
    }
    if record.device_type.len() > MAX_RECORD_SIZE {
        return Err(StorageError::EncodingError);
    }
    let tail_len: usize = match &record.recommendation {
        None => 1,
        Some(t) => {
            if t.len() > MAX_RECORD_SIZE {
                return Err(StorageError::EncodingError);
            }
            9 + t.len()
        }
    };
    let total = 32 + record.device_type.len() + tail_len;
    if total > MAX_RECORD_SIZE {
        return Err(StorageError::EncodingError);
    }
    let mut buf = u64_to_le_bytes(record.id);
    let mut part = u64_to_le_bytes(record.usage_kwh_bits);
    buf.append(&mut part);
    let mut part = u64_to_le_bytes(record.timestamp);
    buf.append(&mut part);
    let mut part = u64_to_le_bytes(record.device_type.len() as u64);
    buf.append(&mut part);
    push_bytes(&mut buf, &record.device_type);
    match &record.recommendation {
        None => {
            buf.push(0u8);
        }
        Some(t) => {
            buf.push(1u8);
            let mut part = u64_to_le_bytes(t.len() as u64);
            buf.append(&mut part);
            push_bytes(&mut buf, t);
        }
    }
    proof {
        assert(buf@ =~= spec_encode(record@));
    }
    Ok(buf)
}

/// Parses the record a byte string encodes. Fails with `EncodingError`
/// exactly when the bytes are malformed, that is, when they are the
/// encoding of no record.
pub fn decode(bytes: &Vec<u8>) -> (r: Result<EnergyUsageRecord, StorageError>)
    ensures
        r matches Ok(rec) ==> spec_decode(bytes@) == Some(rec@),
        r is Err ==> spec_decode(bytes@) is None && r == Err::<
            EnergyUsageRecord,
            StorageError,
        >(StorageError::EncodingError),
{
    let n = bytes.len();
    if n < 33 {
        return Err(StorageError::EncodingError);
    }
    let id = read_u64_at(bytes, 0);
    let bits = read_u64_at(bytes, 8);
    let ts = read_u64_at(bytes, 16);
    let dtlen64 = read_u64_at(bytes, 24);
    if dtlen64 > (n as u64) - 33 {
        return Err(StorageError::EncodingError);
    }
    let dtlen = dtlen64 as usize;
    let dt = copy_range(bytes, 32, dtlen);
    let flag = bytes[32 + dtlen];
    if flag == 0 {
        if n != 33 + dtlen {
            return Err(StorageError::EncodingError);
        }
        let rec = EnergyUsageRecord {
            id,
            usage_kwh_bits: bits,
            timestamp: ts,
            device_type: dt,
            recommendation: None,
        };
        proof {
            assert(spec_decode(bytes@) == Some(rec@)) by {
                assert(rec@.device_type =~= spec_decode(bytes@).unwrap().device_type);
                assert(rec@ =~= spec_decode(bytes@).unwrap());
            }
        }
        return Ok(rec);
    }
    if flag != 1 {
        return Err(StorageError::EncodingError);
    }
    if n - 33 - dtlen < 8 {
        return Err(StorageError::EncodingError);
    }
    let rlen64 = read_u64_at(bytes, 33 + dtlen);
    let rem = n - 41 - dtlen;
    if rlen64 != rem as u64 {
        return Err(StorageError::EncodingError);
    }
    let rtext = copy_range(bytes, 41 + dtlen, rem);
    let rec = EnergyUsageRecord {
        id,
        usage_kwh_bits: bits,
        timestamp: ts,
        device_type: dt,
        recommendation: Some(rtext),
    };
    proof {
        assert(spec_decode(bytes@) == Some(rec@)) by {
            assert(rec@.device_type =~= spec_decode(bytes@).unwrap().device_type);
            assert(rec@.recommendation.unwrap() =~= spec_decode(
                bytes@,
            ).unwrap().recommendation.unwrap());
            assert(rec@ =~= spec_decode(bytes@).unwrap());
        }
    }
    Ok(rec)
}

/// Round-trip law: decoding an encoded record yields the record back, for
/// every record whose texts respect the bounded slot.
pub proof fn lemma_codec_round_trip(rv: RecordView)
    requires
        rv.wf(),
    ensures
        spec_decode(spec_encode(rv)) == Some(rv),
{
    lemma_auto_spec_u64_to_from_le_bytes();
    let b = spec_encode(rv);
    let dtl = rv.device_type.len() as int;
    assert(b.subrange(0, 8) =~= spec_u64_to_le_bytes(rv.id));
    assert(b.subrange(8, 16) =~= spec_u64_to_le_bytes(rv.usage_kwh_bits));
    assert(b.subrange(16, 24) =~= spec_u64_to_le_bytes(rv.timestamp));
    assert(b.subrange(24, 32) =~= spec_u64_to_le_bytes(rv.device_type.len() as u64));
    assert(b.subrange(32, 32 + dtl) =~= rv.device_type);
    match rv.recommendation {
        None => {
            assert(b.len() == 33 + dtl);
            assert(b[32 + dtl] == 0u8);
            assert(spec_decode(b).unwrap() =~= rv);
        }
        Some(t) => {
            let rl = t.len() as int;
            assert(b.len() == 41 + dtl + rl);
            assert(b[32 + dtl] == 1u8);
            assert(b.subrange(33 + dtl, 41 + dtl) =~= spec_u64_to_le_bytes(t.len() as u64));
            assert(b.subrange(41 + dtl, 41 + dtl + rl) =~= t);
            assert(spec_decode(b).unwrap() =~= rv);
        }
    }
}

} // verus!
