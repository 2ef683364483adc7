//! Durable records: event and snapshot grants, and the frames of the
//! composition journal.
//!
//! A journal is the magic `QUARTZJ1` followed by frames. A frame holds its
//! sequence number (eight bytes, least significant first), its payload
//! length (four bytes), the payload, and the SHA-256 of those three. A frame
//! cut short at the end of the file is a torn tail that recovery drops.

use vstd::prelude::*;
use vstd::string::StringSliceAdditionalSpecFns;
use crate::composition::bytes_equal;
use crate::digest::{le_bytes, push_le_u64, sha256, sha256_digest};
use crate::error::{Error, JournalIssue};
use crate::text::append_bytes;

verus! {

/// Authority to append events of one namespaced type and revision.
#[derive(Clone, Debug, PartialEq, Eq)]
pub struct EventGrant {
    pub namespace: String,
    pub name: String,
    pub revision: u32,
}

/// Authority to read one digest-pinned snapshot file.
#[derive(Clone, Debug, PartialEq, Eq)]
pub struct SnapshotGrant {
    pub path: String,
    pub provenance: String,
    pub byte_len: u64,
    pub sha256: String,
}

/// Bytes of a frame header: sequence and length.
pub const HEADER_LEN: usize = 12;
/// Bytes of a frame checksum.
pub const CHECKSUM_LEN: usize = 32;
/// The record schema this journal writes and reads.
pub const SCHEMA_VERSION: u32 = 1;

/// The bytes every journal starts with.
pub open spec fn magic() -> Seq<u8> {
    "QUARTZJ1".spec_bytes()
}

/// The unsigned value of some bytes read least significant first.
pub open spec fn le_sum(b: Seq<u8>) -> nat
    decreases b.len(),
{
    if b.len() == 0 {
        0
    } else {
        b[0] as nat + 256 * le_sum(b.drop_first())
    }
}

/// The checksum of a frame: the SHA-256 of its sequence, length and payload.
pub open spec fn spec_checksum(sequence: u64, length: u32, payload: Seq<u8>) -> Seq<u8> {
    sha256_digest(le_bytes(sequence as nat, 8) + le_bytes(length as nat, 4) + payload)
}

/// The frame of record `sequence` with this payload.
pub open spec fn spec_frame(sequence: u64, payload: Seq<u8>) -> Seq<u8> {
    le_bytes(sequence as nat, 8) + le_bytes(payload.len(), 4) + payload
        + spec_checksum(sequence, payload.len() as u32, payload)
}

/// What the bytes at `offset` hold after record `sequence`.
pub enum FrameRead {
    /// A frame cut short by the end of the bytes.
    Torn,
    /// A frame that cannot be read.
    Corrupt(Error),
    /// The frame of record `sequence` with this payload; the next frame
    /// starts at `next`.
    Frame { sequence: u64, payload: Seq<u8>, next: nat },
}

/// Reads the frame at `offset` of a journal whose last record was `sequence`.
pub open spec fn frame_at(bytes: Seq<u8>, max_record_bytes: usize, offset: nat, sequence: u64) -> FrameRead {
    let o = offset as int;
    if o + HEADER_LEN > bytes.len() {
        FrameRead::Torn
    } else {
        let found = le_sum(bytes.subrange(o, o + 8));
        let length = le_sum(bytes.subrange(o + 8, o + 12));
        let end = o + HEADER_LEN + length + CHECKSUM_LEN;
        if length > max_record_bytes {
            FrameRead::Corrupt(Error::JournalRecordLimit { actual: length as usize, limit: max_record_bytes })
        } else if end > usize::MAX {
            FrameRead::Corrupt(Error::JournalCorrupt(JournalIssue::LengthOverflow))
        } else if end > bytes.len() {
            FrameRead::Torn
        } else if found != sequence + 1 {
            FrameRead::Corrupt(Error::JournalCorrupt(JournalIssue::SequenceGap { found: found as u64, previous: sequence }))
        } else {
            let payload = bytes.subrange(o + HEADER_LEN, o + HEADER_LEN + length);
            if bytes.subrange(o + HEADER_LEN + length, end) != spec_checksum(found as u64, length as u32, payload) {
                FrameRead::Corrupt(Error::JournalCorrupt(JournalIssue::ChecksumMismatch(found as u64)))
            } else {
                FrameRead::Frame { sequence: found as u64, payload, next: end as nat }
            }
        }
    }
}

/// The records of a journal from `offset` on: their payloads, the last
/// sequence, where the intact frames end, and the first corruption if any.
pub struct Walk {
    pub payloads: Seq<Seq<u8>>,
    pub sequence: u64,
    pub end: nat,
    pub failure: Option<Error>,
}

/// Walks the frames of a journal from `offset`, after record `sequence`.
pub open spec fn walk(bytes: Seq<u8>, max_record_bytes: usize, offset: nat, sequence: u64) -> Walk
    decreases bytes.len() - offset,
{
    match frame_at(bytes, max_record_bytes, offset, sequence) {
        FrameRead::Frame { sequence: next_sequence, payload, next } => if next > offset && next <= bytes.len() {
            let rest = walk(bytes, max_record_bytes, next, next_sequence);
            Walk { payloads: seq![payload] + rest.payloads, ..rest }
        } else {
            Walk { payloads: Seq::empty(), sequence, end: offset, failure: None }
        },
        FrameRead::Corrupt(e) => Walk { payloads: Seq::empty(), sequence, end: offset, failure: Some(e) },
        FrameRead::Torn => Walk { payloads: Seq::empty(), sequence, end: offset, failure: None },
    }
}

/// The intact frames of a journal, up to its first corrupt frame.
pub struct Frames {
    /// The payloads of the intact frames, in order.
    pub payloads: Vec<Vec<u8>>,
    /// The sequence number of the last intact frame, zero for none.
    pub sequence: u64,
    /// Where the intact frames end; a torn tail starts there.
    pub valid_len: usize,
    /// The first corrupt frame's error, if a frame is corrupt.
    pub failure: Option<Error>,
}

/// Reads a journal: empty or shorter than the magic is an empty journal;
/// a wrong magic is corrupt; otherwise its frames from after the magic.
pub open spec fn spec_decode(bytes: Seq<u8>, max_record_bytes: usize) -> Result<Walk, Error> {
    if bytes.len() < 8 {
        Ok(Walk { payloads: Seq::empty(), sequence: 0, end: 0, failure: None })
    } else if bytes.subrange(0, 8) != magic() {
        Err(Error::JournalCorrupt(JournalIssue::InvalidMagic))
    } else {
        Ok(walk(bytes, max_record_bytes, 8, 0))
    }
}

/// Reads `n` bytes from `start` least significant first.
fn read_le(bytes: &[u8], start: usize, n: usize) -> (r: u64)
    requires
        n <= 8,
        start + n <= bytes@.len(),
    ensures
        r == le_sum(bytes@.subrange(start as int, start + n)),
{
    let mut v: u64 = 0;
    let mut i: usize = n;
    let total = bytes.len();
    assert(start + n <= total);
    proof { lemma_le_sum_bound(bytes@.subrange(start as int, start + n)); }
    while i > 0
        invariant
            i <= n <= 8,
            start + n <= bytes@.len(),
            start + n <= usize::MAX,
            v == le_sum(bytes@.subrange(start + i, start + n)),
        decreases i,
    {
        i -= 1;
        let ghost tail = bytes@.subrange(start + i, start + n);
        assert(tail.drop_first() =~= bytes@.subrange(start + i + 1, start + n));
        proof {
            lemma_le_sum_bound(tail);
            lemma_pow_le(tail.len(), 8);
        }
        v = bytes[start + i] as u64 + 256 * v;
    }
    v
}

/// `256` to the power `k`.
pub open spec fn pow256(k: nat) -> nat {
    crate::digest::pow256(k)
}

/// `256^j <= 256^k` for `j <= k`, and `256^8` is `2^64`.
proof fn lemma_pow_le(j: nat, k: nat)
    requires
        j <= k,
        k <= 8,
    ensures
        pow256(j) <= pow256(k),
        pow256(8) == 0x1_0000_0000_0000_0000,
{
    crate::digest::lemma_pow256_monotone(j, k);
    assert(crate::digest::pow256(8) == 0x1_0000_0000_0000_0000) by {
        reveal_with_fuel(crate::digest::pow256, 9);
    }
}

/// `k` bytes read least significant first are below `256^k`.
pub proof fn lemma_le_sum_bound(b: Seq<u8>)
    ensures
        le_sum(b) < pow256(b.len()),
    decreases b.len(),
{
    if b.len() > 0 {
        lemma_le_sum_bound(b.drop_first());
        let v = le_sum(b.drop_first());
        let p = pow256(b.drop_first().len());
        let x = b[0] as nat;
        assert(x + 256 * v < 256 * p) by (nonlinear_arith)
            requires
                v < p,
                x < 256,
        ;
    }
}

/// Bytes written least significant first read back as the value written.
pub proof fn lemma_le_roundtrip(x: nat, n: nat)
    requires
        x < pow256(n),
    ensures
        le_bytes(x, n).len() == n,
        le_sum(le_bytes(x, n)) == x,
    decreases n,
{
    if n > 0 {
        let q = x / 256;
        let p = pow256((n - 1) as nat);
        assert(q < p) by (nonlinear_arith)
            requires
                x < 256 * p,
                q == x / 256,
        ;
        lemma_le_roundtrip(q, (n - 1) as nat);
        let b = le_bytes(x, n);
        assert(b.drop_first() =~= le_bytes(q, (n - 1) as nat));
        assert(x == (x % 256) + 256 * q) by (nonlinear_arith)
            requires
                q == x / 256,
        ;
    } else {
        assert(le_bytes(x, 0) =~= Seq::<u8>::empty());
    }
}

/// Returns the checksum of a frame.
pub fn checksum(sequence: u64, length: u32, payload: &[u8]) -> (r: Vec<u8>)
    ensures
        r@ == spec_checksum(sequence, length, payload@),
        r@.len() == CHECKSUM_LEN,
{
    let mut bytes: Vec<u8> = Vec::new();
    push_le_u64(&mut bytes, sequence);
    let mut length_bytes: Vec<u8> = Vec::new();
    push_le_u64(&mut length_bytes, length as u64);
    proof { lemma_le_prefix(length as nat, 8, 4); }
    append_bytes(&mut bytes, vstd::slice::slice_subrange(length_bytes.as_slice(), 0, 4));
    append_bytes(&mut bytes, payload);
    assert(bytes@ =~= le_bytes(sequence as nat, 8) + le_bytes(length as nat, 4) + payload@);
    sha256(bytes.as_slice())
}

/// The first `k` of `n` bytes of a value are its `k`-byte encoding.
pub proof fn lemma_le_prefix(x: nat, n: nat, k: nat)
    requires
        k <= n,
    ensures
        le_bytes(x, n).subrange(0, k as int) == le_bytes(x, k),
        le_bytes(x, n).len() == n,
    decreases k,
{
    lemma_le_len(x, n);
    if k > 0 {
        lemma_le_prefix(x / 256, (n - 1) as nat, (k - 1) as nat);
        assert(le_bytes(x, n).subrange(0, k as int) =~= le_bytes(x, k));
    } else {
        assert(le_bytes(x, n).subrange(0, 0) =~= le_bytes(x, 0));
    }
}

/// `le_bytes` makes exactly `n` bytes.
pub proof fn lemma_le_len(x: nat, n: nat)
    ensures
        le_bytes(x, n).len() == n,
    decreases n,
{
    if n > 0 {
        lemma_le_len(x / 256, (n - 1) as nat);
    }
}

/// Accepts the record schema this journal reads.
pub fn check_schema(schema: u32) -> (r: Result<(), Error>)
    ensures
        r == (if schema == SCHEMA_VERSION {
            Ok::<(), Error>(())
        } else {
            Err(Error::JournalCorrupt(JournalIssue::UnsupportedSchema(schema)))
        }),
{
    if schema == SCHEMA_VERSION {
        Ok(())
    } else {
        Err(Error::JournalCorrupt(JournalIssue::UnsupportedSchema(schema)))
    }
}

/// The payloads of some byte strings.
pub open spec fn payload_views(items: Seq<Vec<u8>>) -> Seq<Seq<u8>> {
    items.map_values(|v: Vec<u8>| v@)
}

/// The value of decoded frames.
pub open spec fn frames_view(f: Frames) -> Walk {
    Walk { payloads: payload_views(f.payloads@), sequence: f.sequence, end: f.valid_len as nat, failure: f.failure }
}

/// Returns the intact frames of a journal.
pub fn decode(bytes: &[u8], max_record_bytes: usize) -> (r: Result<Frames, Error>)
    ensures
        match r {
            Ok(f) => spec_decode(bytes@, max_record_bytes) == Ok::<Walk, Error>(frames_view(f)),
            Err(e) => spec_decode(bytes@, max_record_bytes) == Err::<Walk, Error>(e),
        },
{
    let mut payloads: Vec<Vec<u8>> = Vec::new();
    if bytes.len() < 8 {
        assert(payload_views(payloads@) =~= Seq::<Seq<u8>>::empty());
        return Ok(Frames { payloads, sequence: 0, valid_len: 0, failure: None });
    }
    if !bytes_equal(vstd::slice::slice_subrange(bytes, 0, 8), "QUARTZJ1".as_bytes()) {
        return Err(Error::JournalCorrupt(JournalIssue::InvalidMagic));
    }
    let len = bytes.len();
    let mut offset: usize = 8;
    let mut sequence: u64 = 0;
    let ghost whole = walk(bytes@, max_record_bytes, 8, 0);
    assert(payload_views(payloads@) =~= Seq::<Seq<u8>>::empty());
    assert(whole.payloads =~= payload_views(payloads@) + walk(bytes@, max_record_bytes, 8, 0).payloads);
    loop
        invariant
            len == bytes@.len(),
            8 <= offset <= len,
            bytes@.subrange(0, 8) == magic(),
            sequence <= offset,
            whole == walk(bytes@, max_record_bytes, 8, 0),
            whole == (Walk {
                payloads: payload_views(payloads@) + walk(bytes@, max_record_bytes, offset as nat, sequence).payloads,
                ..walk(bytes@, max_record_bytes, offset as nat, sequence)
            }),
        decreases len - offset,
    {
        let ghost here = walk(bytes@, max_record_bytes, offset as nat, sequence);
        let ghost pv = payload_views(payloads@);
        if len - offset < HEADER_LEN {
            assert(frame_at(bytes@, max_record_bytes, offset as nat, sequence) == FrameRead::Torn);
            assert(here == Walk { payloads: Seq::empty(), sequence, end: offset as nat, failure: None });
            assert(pv + here.payloads =~= pv);
            return Ok(Frames { payloads, sequence, valid_len: offset, failure: None });
        }
        let found = read_le(bytes, offset, 8);
        let length = read_le(bytes, offset + 8, 4);
        proof {
            lemma_le_sum_bound(bytes@.subrange(offset + 8, offset + 12));
            lemma_pow_le(4, 8);
            assert(pow256(4) == 0x1_0000_0000) by {
                reveal_with_fuel(crate::digest::pow256, 5);
            }
        }
        if length > max_record_bytes as u64 {
            let ghost e = Error::JournalRecordLimit { actual: length as usize, limit: max_record_bytes };
            assert(frame_at(bytes@, max_record_bytes, offset as nat, sequence) == FrameRead::Corrupt(e));
            assert(here == Walk { payloads: Seq::empty(), sequence, end: offset as nat, failure: Some(e) });
            assert(pv + here.payloads =~= pv);
            return Ok(Frames {
                payloads,
                sequence,
                valid_len: offset,
                failure: Some(Error::JournalRecordLimit { actual: length as usize, limit: max_record_bytes }),
            });
        }
        let payload_len = length as usize;
        let body = offset + HEADER_LEN;
        let end = match body.checked_add(payload_len) {
            Some(e) => e.checked_add(CHECKSUM_LEN),
            None => None,
        };
        let end = match end {
            Some(e) => e,
            None => {
                assert(pv + here.payloads =~= pv);
                return Ok(Frames {
                    payloads,
                    sequence,
                    valid_len: offset,
                    failure: Some(Error::JournalCorrupt(JournalIssue::LengthOverflow)),
                });
            },
        };
        if end > len {
            assert(pv + here.payloads =~= pv);
            return Ok(Frames { payloads, sequence, valid_len: offset, failure: None });
        }
        if found != sequence + 1 {
            assert(pv + here.payloads =~= pv);
            return Ok(Frames {
                payloads,
                sequence,
                valid_len: offset,
                failure: Some(Error::JournalCorrupt(JournalIssue::SequenceGap { found, previous: sequence })),
            });
        }
        let payload = vstd::slice::slice_subrange(bytes, body, body + payload_len);
        let expected = checksum(found, length as u32, payload);
        if !bytes_equal(vstd::slice::slice_subrange(bytes, body + payload_len, end), expected.as_slice()) {
            assert(pv + here.payloads =~= pv);
            return Ok(Frames {
                payloads,
                sequence,
                valid_len: offset,
                failure: Some(Error::JournalCorrupt(JournalIssue::ChecksumMismatch(found))),
            });
        }
        let ghost rest = walk(bytes@, max_record_bytes, end as nat, found);
        assert(here.payloads == seq![payload@] + rest.payloads);
        payloads.push(vstd::slice::slice_to_vec(payload));
        assert(payload_views(payloads@) =~= pv.push(payload@));
        assert(pv + here.payloads =~= payload_views(payloads@) + rest.payloads);
        sequence = found;
        offset = end;
    }
}

/// The bytes appending a record writes after record `sequence`: the magic
/// first when the journal is empty, then the frame of the next record;
/// refused when the payload exceeds the record bound or four length bytes.
pub open spec fn spec_encode(sequence: u64, payload: Seq<u8>, max_record_bytes: usize) -> Result<Seq<u8>, Error> {
    if payload.len() > max_record_bytes {
        Err(Error::JournalRecordLimit { actual: payload.len() as usize, limit: max_record_bytes })
    } else if payload.len() > u32::MAX {
        Err(Error::JournalRecordLimit { actual: payload.len() as usize, limit: u32::MAX as usize })
    } else {
        let prefix = if sequence == 0 { magic() } else { Seq::empty() };
        Ok(prefix + spec_frame((sequence + 1) as u64, payload))
    }
}

/// Returns the bytes that append a record to a journal whose last record is
/// `sequence`.
pub fn encode_frame(sequence: u64, payload: &[u8], max_record_bytes: usize) -> (r: Result<Vec<u8>, Error>)
    requires
        sequence < u64::MAX,
    ensures
        match r {
            Ok(b) => spec_encode(sequence, payload@, max_record_bytes) == Ok::<Seq<u8>, Error>(b@),
            Err(e) => spec_encode(sequence, payload@, max_record_bytes) == Err::<Seq<u8>, Error>(e),
        },
{
    if payload.len() > max_record_bytes {
        return Err(Error::JournalRecordLimit { actual: payload.len(), limit: max_record_bytes });
    }
    if payload.len() as u64 > u32::MAX as u64 {
        return Err(Error::JournalRecordLimit { actual: payload.len(), limit: u32::MAX as usize });
    }
    let length = payload.len() as u32;
    let next = sequence + 1;
    let mut frame: Vec<u8> = Vec::new();
    if sequence == 0 {
        append_bytes(&mut frame, "QUARTZJ1".as_bytes());
    }
    let ghost prefix = frame@;
    push_le_u64(&mut frame, next);
    let mut length_bytes: Vec<u8> = Vec::new();
    push_le_u64(&mut length_bytes, length as u64);
    proof { lemma_le_prefix(length as nat, 8, 4); }
    append_bytes(&mut frame, vstd::slice::slice_subrange(length_bytes.as_slice(), 0, 4));
    append_bytes(&mut frame, payload);
    let sum = checksum(next, length, payload);
    append_bytes(&mut frame, sum.as_slice());
    assert(frame@ =~= prefix + spec_frame(next, payload@));
    Ok(frame)
}

/// A frame wholly inside `b` reads the same after bytes are appended.
proof fn lemma_frame_extend(b: Seq<u8>, e: Seq<u8>, max_record_bytes: usize, o: nat, s: u64)
    requires
        frame_at(b, max_record_bytes, o, s) is Frame,
    ensures
        frame_at(b + e, max_record_bytes, o, s) == frame_at(b, max_record_bytes, o, s),
{
    let be = b + e;
    let x = o as int;
    assert(be.subrange(x, x + 8) =~= b.subrange(x, x + 8));
    assert(be.subrange(x + 8, x + 12) =~= b.subrange(x + 8, x + 12));
    let length = le_sum(b.subrange(x + 8, x + 12));
    let end = x + HEADER_LEN + length + CHECKSUM_LEN;
    assert(be.subrange(x + HEADER_LEN, x + HEADER_LEN + length) =~= b.subrange(x + HEADER_LEN, x + HEADER_LEN + length));
    assert(be.subrange(x + HEADER_LEN + length, end) =~= b.subrange(x + HEADER_LEN + length, end));
}

/// Walking a cleanly ending journal with bytes appended walks its records,
/// then whatever the appended bytes hold.
proof fn lemma_walk_extend(b: Seq<u8>, e: Seq<u8>, max_record_bytes: usize, o: nat, s: u64)
    requires
        walk(b, max_record_bytes, o, s).failure is None,
        walk(b, max_record_bytes, o, s).end == b.len(),
    ensures
        walk(b + e, max_record_bytes, o, s) == (Walk {
            payloads: walk(b, max_record_bytes, o, s).payloads
                + walk(b + e, max_record_bytes, b.len(), walk(b, max_record_bytes, o, s).sequence).payloads,
            ..walk(b + e, max_record_bytes, b.len(), walk(b, max_record_bytes, o, s).sequence)
        }),
    decreases b.len() - o,
{
    let w = walk(b, max_record_bytes, o, s);
    match frame_at(b, max_record_bytes, o, s) {
        FrameRead::Frame { sequence: next_sequence, payload, next } => {
            if next > o && next <= b.len() {
                lemma_frame_extend(b, e, max_record_bytes, o, s);
                lemma_walk_extend(b, e, max_record_bytes, next, next_sequence);
                let t = walk(b + e, max_record_bytes, b.len(), w.sequence);
                assert(w.payloads + t.payloads =~= seq![payload] + (walk(b, max_record_bytes, next, next_sequence).payloads + t.payloads));
            } else {
                assert(o + HEADER_LEN <= b.len());
            }
        },
        FrameRead::Torn => {
            let t = walk(b + e, max_record_bytes, b.len(), w.sequence);
            assert(w.payloads + t.payloads =~= t.payloads);
        },
        FrameRead::Corrupt(_) => {},
    }
}

/// The frame of the record after `s`, written at the end of some bytes,
/// reads back as that record and ends the bytes.
proof fn lemma_frame_reads_back(prefix: Seq<u8>, max_record_bytes: usize, s: u64, payload: Seq<u8>)
    requires
        s < u64::MAX,
        payload.len() <= max_record_bytes,
        payload.len() <= u32::MAX,
        prefix.len() + HEADER_LEN + payload.len() + CHECKSUM_LEN <= usize::MAX,
        spec_checksum((s + 1) as u64, payload.len() as u32, payload).len() == CHECKSUM_LEN,
    ensures
        frame_at(prefix + spec_frame((s + 1) as u64, payload), max_record_bytes, prefix.len(), s) == (FrameRead::Frame {
            sequence: (s + 1) as u64,
            payload,
            next: (prefix.len() + HEADER_LEN + payload.len() + CHECKSUM_LEN) as nat,
        }),
        spec_frame((s + 1) as u64, payload).len() == HEADER_LEN + payload.len() + CHECKSUM_LEN,
{
    let next = (s + 1) as u64;
    let b = prefix + spec_frame(next, payload);
    let l = prefix.len() as int;
    let n = payload.len();
    lemma_le_len(next as nat, 8);
    lemma_le_len(n, 4);
    assert(pow256(8) == 0x1_0000_0000_0000_0000) by {
        reveal_with_fuel(crate::digest::pow256, 9);
    }
    assert(pow256(4) == 0x1_0000_0000) by {
        reveal_with_fuel(crate::digest::pow256, 5);
    }
    lemma_le_roundtrip(next as nat, 8);
    lemma_le_roundtrip(n, 4);
    let sum = spec_checksum(next, n as u32, payload);
    assert(b.subrange(l, l + 8) =~= le_bytes(next as nat, 8));
    assert(b.subrange(l + 8, l + 12) =~= le_bytes(n, 4));
    assert(b.subrange(l + 12, l + 12 + n) =~= payload);
    assert(b.subrange(l + 12 + n, l + 12 + n + 32) =~= sum);
}

/// The magic is eight bytes.
proof fn lemma_magic_len()
    ensures
        magic().len() == 8,
{
    reveal_strlit("QUARTZJ1");
    assert(vstd::string::is_ascii("QUARTZJ1"));
    vstd::string::is_ascii_spec_bytes("QUARTZJ1");
}

/// The first record of an empty journal reads back.
proof fn lemma_first_record(max_record_bytes: usize, payload: Seq<u8>)
    requires
        payload.len() <= max_record_bytes,
        payload.len() <= u32::MAX,
        8 + HEADER_LEN + payload.len() + CHECKSUM_LEN <= usize::MAX,
        spec_checksum(1, payload.len() as u32, payload).len() == CHECKSUM_LEN,
    ensures
        spec_decode(magic() + spec_frame(1, payload), max_record_bytes) == Ok::<Walk, Error>(Walk {
            payloads: seq![payload],
            sequence: 1,
            end: (8 + spec_frame(1, payload).len()) as nat,
            failure: None,
        }),
{
    lemma_magic_len();
    let frame = spec_frame(1, payload);
    lemma_frame_reads_back(magic(), max_record_bytes, 0, payload);
    let b = magic() + frame;
    assert(b.subrange(0, 8) =~= magic());
    let end = (8 + HEADER_LEN + payload.len() + CHECKSUM_LEN) as nat;
    assert(b.len() == end);
    assert(frame_at(b, max_record_bytes, 8, 0) == (FrameRead::Frame { sequence: 1, payload, next: end }));
    assert(frame_at(b, max_record_bytes, end, 1) == FrameRead::Torn);
    let rest = walk(b, max_record_bytes, end, 1);
    assert(rest == (Walk { payloads: Seq::empty(), sequence: 1, end, failure: None }));
    assert(walk(b, max_record_bytes, 8, 0) == (Walk { payloads: seq![payload] + rest.payloads, ..rest }));
    assert(seq![payload] + Seq::<Seq<u8>>::empty() =~= seq![payload]);
}

/// A record appended after the last one of a clean journal reads back.
proof fn lemma_next_record(bytes: Seq<u8>, max_record_bytes: usize, payload: Seq<u8>, w: Walk)
    requires
        bytes.len() >= 8,
        bytes.subrange(0, 8) == magic(),
        w == walk(bytes, max_record_bytes, 8, 0),
        w.failure is None,
        w.end == bytes.len(),
        w.sequence < u64::MAX,
        payload.len() <= max_record_bytes,
        payload.len() <= u32::MAX,
        bytes.len() + HEADER_LEN + payload.len() + CHECKSUM_LEN <= usize::MAX,
        spec_checksum((w.sequence + 1) as u64, payload.len() as u32, payload).len() == CHECKSUM_LEN,
    ensures
        spec_decode(bytes + spec_frame((w.sequence + 1) as u64, payload), max_record_bytes) == Ok::<Walk, Error>(Walk {
            payloads: w.payloads.push(payload),
            sequence: (w.sequence + 1) as u64,
            end: (bytes.len() + spec_frame((w.sequence + 1) as u64, payload).len()) as nat,
            failure: None,
        }),
{
    let s = w.sequence;
    let frame = spec_frame((s + 1) as u64, payload);
    lemma_walk_extend(bytes, frame, max_record_bytes, 8, 0);
    lemma_frame_reads_back(bytes, max_record_bytes, s, payload);
    let b = bytes + frame;
    assert(b.subrange(0, 8) =~= bytes.subrange(0, 8));
    let end = (bytes.len() + HEADER_LEN + payload.len() + CHECKSUM_LEN) as nat;
    assert(b.len() == end);
    assert(frame_at(b, max_record_bytes, bytes.len(), s) == (FrameRead::Frame { sequence: (s + 1) as u64, payload, next: end }));
    assert(frame_at(b, max_record_bytes, end, (s + 1) as u64) == FrameRead::Torn);
    let rest = walk(b, max_record_bytes, end, (s + 1) as u64);
    assert(rest == (Walk { payloads: Seq::empty(), sequence: (s + 1) as u64, end, failure: None }));
    let t = walk(b, max_record_bytes, bytes.len(), s);
    assert(t == (Walk { payloads: seq![payload] + rest.payloads, ..rest }));
    assert(t.payloads =~= seq![payload]);
    assert(w.payloads + t.payloads =~= w.payloads.push(payload));
}

/// Appending a record to a journal that decodes cleanly, with nothing torn
/// and nothing corrupt, gives a journal that decodes to the same records
/// followed by the new one, with the next sequence number, up to its end.
/// A journal that holds only the magic is left out: appending to it writes
/// the magic a second time. The checksum is taken to be a SHA-256 digest,
/// thirty-two bytes long.
pub proof fn lemma_append_reads_back(bytes: Seq<u8>, max_record_bytes: usize, payload: Seq<u8>)
    requires
        spec_decode(bytes, max_record_bytes) matches Ok(w) && w.failure is None && w.end == bytes.len()
            && (bytes.len() == 0 || w.sequence > 0) && w.sequence < u64::MAX,
        payload.len() <= max_record_bytes,
        payload.len() <= u32::MAX,
        bytes.len() + 8 + HEADER_LEN + payload.len() + CHECKSUM_LEN <= usize::MAX,
        spec_decode(bytes, max_record_bytes) matches Ok(w)
            && spec_checksum((w.sequence + 1) as u64, payload.len() as u32, payload).len() == CHECKSUM_LEN,
    ensures
        spec_decode(bytes, max_record_bytes) matches Ok(w) && spec_encode(w.sequence, payload, max_record_bytes) matches Ok(appended)
            && spec_decode(bytes + appended, max_record_bytes) == Ok::<Walk, Error>(Walk {
                payloads: w.payloads.push(payload),
                sequence: (w.sequence + 1) as u64,
                end: bytes.len() + appended.len(),
                failure: None,
            }),
{
    let w = spec_decode(bytes, max_record_bytes)->Ok_0;
    if bytes.len() == 0 {
        assert(w.sequence == 0 && w.payloads =~= Seq::<Seq<u8>>::empty());
        lemma_first_record(max_record_bytes, payload);
        assert(bytes + (magic() + spec_frame(1, payload)) =~= magic() + spec_frame(1, payload));
        assert(Seq::<Seq<u8>>::empty().push(payload) =~= seq![payload]);
    } else {
        lemma_next_record(bytes, max_record_bytes, payload, w);
        assert(Seq::<u8>::empty() + spec_frame((w.sequence + 1) as u64, payload) =~= spec_frame((w.sequence + 1) as u64, payload));
    }
}

/// An append cut short reads as nothing: a clean journal holding at least
/// one record, followed by any strict prefix of the bytes that append the
/// next record, decodes exactly as the journal alone; recovery then drops
/// the torn bytes. The checksum is taken to be thirty-two bytes long, as a
/// SHA-256 digest is.
pub proof fn lemma_torn_append_dropped(bytes: Seq<u8>, max_record_bytes: usize, payload: Seq<u8>, k: nat)
    requires
        spec_decode(bytes, max_record_bytes) matches Ok(w) && w.failure is None && w.end == bytes.len()
            && w.sequence > 0 && w.sequence < u64::MAX,
        payload.len() <= max_record_bytes,
        payload.len() <= u32::MAX,
        bytes.len() + HEADER_LEN + payload.len() + CHECKSUM_LEN <= usize::MAX,
        spec_decode(bytes, max_record_bytes) matches Ok(w)
            && spec_checksum((w.sequence + 1) as u64, payload.len() as u32, payload).len() == CHECKSUM_LEN,
        spec_decode(bytes, max_record_bytes) matches Ok(w) && spec_encode(w.sequence, payload, max_record_bytes) matches Ok(appended)
            && k < appended.len(),
    ensures
        spec_decode(bytes, max_record_bytes) matches Ok(w) && spec_encode(w.sequence, payload, max_record_bytes) matches Ok(appended)
            && spec_decode(bytes + appended.take(k as int), max_record_bytes) == spec_decode(bytes, max_record_bytes),
{
    lemma_magic_len();
    let w = spec_decode(bytes, max_record_bytes)->Ok_0;
    let s = w.sequence;
    let frame = spec_frame((s + 1) as u64, payload);
    assert(Seq::<u8>::empty() + frame =~= frame);
    let cut = frame.take(k as int);
    let b = bytes + cut;
    lemma_walk_extend(bytes, cut, max_record_bytes, 8, 0);
    assert(b.subrange(0, 8) =~= bytes.subrange(0, 8));
    lemma_le_len((s + 1) as nat, 8);
    lemma_le_len(payload.len(), 4);
    let l = bytes.len() as int;
    if k >= HEADER_LEN {
        assert(pow256(8) == 0x1_0000_0000_0000_0000) by {
            reveal_with_fuel(crate::digest::pow256, 9);
        }
        assert(pow256(4) == 0x1_0000_0000) by {
            reveal_with_fuel(crate::digest::pow256, 5);
        }
        lemma_le_roundtrip((s + 1) as nat, 8);
        lemma_le_roundtrip(payload.len(), 4);
        assert(b.subrange(l, l + 8) =~= le_bytes((s + 1) as nat, 8));
        assert(b.subrange(l + 8, l + 12) =~= le_bytes(payload.len(), 4));
    }
    assert(frame_at(b, max_record_bytes, bytes.len(), s) == FrameRead::Torn);
    let t = walk(b, max_record_bytes, bytes.len(), s);
    assert(t == (Walk { payloads: Seq::empty(), sequence: s, end: bytes.len(), failure: None }));
    assert(w.payloads + t.payloads =~= w.payloads);
}

} // verus!
