//! One record and its binary frame.
//!
//! A record is framed as a fixed-width header followed by a variable
//! payload and a one-byte terminator, all multi-byte integers big-endian:
//! one version byte, eight ID bytes, eight timestamp bytes, eight
//! payload-length bytes, the payload itself, and a trailing newline. The
//! payload carries a structured value already serialized to bytes; whether
//! those bytes parse as the structured format is checked at decode time.

use vstd::prelude::*;

use crate::codec::{
    lemma_u64_be_bytes_roundtrip, spec_u64_from_be_bytes, spec_u64_to_be_bytes, u64_read_be_bytes,
    u64_write_be_bytes,
};
use crate::MAX_SEGMENT_RECORDS;

verus! {

/// Bytes of the fixed-width header: version, ID, timestamp, payload length.
pub const HEADER_BYTES: u64 = 25;

/// Header plus the one-byte terminator: the frame bytes that are not payload.
pub const FRAME_OVERHEAD_BYTES: u64 = 26;

/// The terminator byte written after the payload: a newline. It is read
/// back and discarded without validation; it is cosmetic, not a check.
pub const TERMINATOR_BYTE: u8 = 10;

/// Whether `bytes` parse as the structured, self-describing payload
/// format. The payload format is an external collaborator's; this crate
/// only names the outcome of parsing it.
pub uninterp spec fn json_parses(bytes: Seq<u8>) -> bool;

/// Relies on `serde_json::from_slice::<Value>`: whether a byte string
/// parses as JSON is a function of the bytes alone.
#[verifier::external_body]
fn check_payload(bytes: &[u8]) -> (ok: bool)
    ensures
        ok == json_parses(bytes@),
{
    serde_json::from_slice::<serde_json::Value>(bytes).is_ok()
}

/// Decode-time failures of the frame format.
#[derive(Debug, PartialEq, Eq, Structural, Clone, Copy)]
pub enum DecodeError {
    /// Fewer bytes were available than a frame field requires.
    Truncated,
    /// The payload bytes do not parse as the structured payload format.
    MalformedPayload,
}

/// Mathematical model of a record.
pub struct RecordView {
    pub version: u8,
    pub id: u64,
    pub timestamp: u64,
    pub data: Seq<u8>,
}

impl RecordView {
    /// The payload fits a frame whose length field is a `u64`.
    pub open spec fn wf(self) -> bool {
        self.data.len() + FRAME_OVERHEAD_BYTES <= u64::MAX
    }

    /// Number of bytes of the record's frame.
    pub open spec fn spec_size(self) -> int {
        FRAME_OVERHEAD_BYTES + self.data.len()
    }
}

/// One record: a version byte, a caller-assigned 1-based ID, a unix
/// timestamp, and a structured payload held as its serialized bytes.
#[derive(Debug, PartialEq, Eq, Clone)]
pub struct Record {
    pub version: u8,
    pub id: u64,
    pub timestamp: u64,
    pub data: Vec<u8>,
}

impl View for Record {
    type V = RecordView;

    open spec fn view(&self) -> RecordView {
        RecordView { version: self.version, id: self.id, timestamp: self.timestamp, data: self.data@ }
    }
}

/// The frame bytes of a record.
pub open spec fn spec_encode(v: RecordView) -> Seq<u8>
    recommends
        v.wf(),
{
    seq![v.version] + spec_u64_to_be_bytes(v.id) + spec_u64_to_be_bytes(v.timestamp)
        + spec_u64_to_be_bytes(v.data.len() as u64) + v.data + seq![TERMINATOR_BYTE]
}

/// The record read back from a byte string that starts with a frame.
pub open spec fn spec_decode(bytes: Seq<u8>) -> Result<RecordView, DecodeError> {
    if bytes.len() < HEADER_BYTES {
        Err(DecodeError::Truncated)
    } else {
        let id = spec_u64_from_be_bytes(bytes.subrange(1, 9));
        let timestamp = spec_u64_from_be_bytes(bytes.subrange(9, 17));
        let data_len = spec_u64_from_be_bytes(bytes.subrange(17, 25));
        if bytes.len() < FRAME_OVERHEAD_BYTES + data_len {
            Err(DecodeError::Truncated)
        } else {
            let data = bytes.subrange(HEADER_BYTES as int, HEADER_BYTES + data_len);
            if !json_parses(data) {
                Err(DecodeError::MalformedPayload)
            } else {
                Ok(RecordView { version: bytes[0], id, timestamp, data })
            }
        }
    }
}

impl Record {
    /// A fresh record of the current format version.
    pub fn new(id: u64, timestamp: u64, data: Vec<u8>) -> (r: Self)
        ensures
            r@ == (RecordView { version: 1u8, id, timestamp, data: data@ }),
    {
        Self { version: 1, id, timestamp, data }
    }

    /// The segment a record ID is routed to: IDs are 1-based and each
    /// segment holds `MAX_SEGMENT_RECORDS` of them.
    pub fn get_file_segment(id: u64) -> (segment: u64)
        requires
            id >= 1,
        ensures
            segment == crate::spec_segment_of(id),
    {
        (id - 1) / MAX_SEGMENT_RECORDS
    }

    /// Number of bytes `write_to` appends for this record.
    pub fn size(&self) -> (n: u64)
        requires
            self@.wf(),
        ensures
            n == self@.spec_size(),
            n == spec_encode(self@).len(),
    {
        FRAME_OVERHEAD_BYTES + self.data.len() as u64
    }

    /// Appends the record's frame to `out`.
    pub fn write_to(&self, out: &mut Vec<u8>)
        requires
            self@.wf(),
        ensures
            final(out)@ == old(out)@ + spec_encode(self@),
    {
        out.push(self.version);
        u64_write_be_bytes(self.id, out);
        u64_write_be_bytes(self.timestamp, out);
        u64_write_be_bytes(self.data.len() as u64, out);
        let ghost mid = out@;
        let mut k: usize = 0;
        while k < self.data.len()
            invariant
                k <= self.data.len(),
                out@ == mid + self.data@.subrange(0, k as int),
            decreases self.data.len() - k,
        {
            out.push(self.data[k]);
            proof {
                assert(out@ =~= mid + self.data@.subrange(0, k + 1));
            }
            k += 1;
        }
        out.push(TERMINATOR_BYTE);
        proof {
            assert(self.data@.subrange(0, self.data@.len() as int) =~= self.data@);
            assert(out@ =~= old(out)@ + spec_encode(self@));
        }
    }

    /// Reads one record from the front of `bytes`: the fixed-width header,
    /// then exactly as many payload bytes as the header announces, then the
    /// terminator byte, which is skipped without being validated.
    pub fn read_from(bytes: &[u8]) -> (r: Result<Self, DecodeError>)
        ensures
            match r {
                Ok(rec) => spec_decode(bytes@) == Ok::<RecordView, DecodeError>(rec@) && rec@.wf(),
                Err(e) => spec_decode(bytes@) == Err::<RecordView, DecodeError>(e),
            },
    {
        let header: usize = HEADER_BYTES as usize;
        if bytes.len() < header {
            return Err(DecodeError::Truncated);
        }
        let version = bytes[0];
        let id = u64_read_be_bytes(bytes, 1);
        let timestamp = u64_read_be_bytes(bytes, 9);
        let data_len = u64_read_be_bytes(bytes, 17);
        if data_len >= (bytes.len() - header) as u64 {
            return Err(DecodeError::Truncated);
        }
        let len_us = data_len as usize;
        let data = vstd::slice::slice_to_vec(
            vstd::slice::slice_subrange(bytes, header, header + len_us),
        );
        if !check_payload(data.as_slice()) {
            return Err(DecodeError::MalformedPayload);
        }
        Ok(Self { version, id, timestamp, data })
    }
}

/// The announced size of a record is the length of its frame: the header
/// and terminator overhead plus the payload bytes.
pub proof fn lemma_size_matches_encoding(v: RecordView)
    requires
        v.wf(),
    ensures
        v.spec_size() == spec_encode(v).len(),
{
}

/// Round trip: decoding an encoded record yields the record back, for any
/// record whose payload parses as the structured payload format.
pub proof fn lemma_encode_decode_roundtrip(v: RecordView)
    requires
        v.wf(),
    ensures
        json_parses(v.data) ==> spec_decode(spec_encode(v)) == Ok::<RecordView, DecodeError>(v),
{
    let bytes = spec_encode(v);
    lemma_u64_be_bytes_roundtrip(v.id);
    lemma_u64_be_bytes_roundtrip(v.timestamp);
    lemma_u64_be_bytes_roundtrip(v.data.len() as u64);
    assert(bytes.subrange(1, 9) =~= spec_u64_to_be_bytes(v.id));
    assert(bytes.subrange(9, 17) =~= spec_u64_to_be_bytes(v.timestamp));
    assert(bytes.subrange(17, 25) =~= spec_u64_to_be_bytes(v.data.len() as u64));
    assert(bytes.subrange(HEADER_BYTES as int, HEADER_BYTES + v.data.len()) =~= v.data);
    assert(bytes[0] == v.version);
}

} // verus!
