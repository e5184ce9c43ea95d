//! The on-disk log format and the recovery scan, as mathematical functions of
//! the log's bytes.
//!
//! A record at offset `off` is laid out as: a 32-bit checksum over the
//! payload, the key length, the value length (all big-endian), then the
//! payload, which is the key bytes followed by the value bytes. The log is a
//! sequence of such records scanned strictly front to back from offset 0.

use crate::checksum::crc32_of;
use crate::codec::be32;
use crate::codec::be32_val;
use crate::text::text_of;
use vstd::prelude::*;

verus! {

/// The stored checksum of the record at `off`.
pub open spec fn rec_crc(log: Seq<u8>, off: int) -> u32 {
    be32_val(log.subrange(off, off + 4))
}

/// The stored key length of the record at `off`.
pub open spec fn rec_klen(log: Seq<u8>, off: int) -> u32 {
    be32_val(log.subrange(off + 4, off + 8))
}

/// The stored value length of the record at `off`.
pub open spec fn rec_vlen(log: Seq<u8>, off: int) -> u32 {
    be32_val(log.subrange(off + 8, off + 12))
}

/// The offset one past the record at `off`: where the next record begins.
pub open spec fn rec_end(log: Seq<u8>, off: int) -> int {
    off + 12 + rec_klen(log, off) + rec_vlen(log, off)
}

/// The log holds the full 12-byte header of a record at `off`.
pub open spec fn header_intact(log: Seq<u8>, off: int) -> bool {
    0 <= off && off + 12 <= log.len()
}

/// The log holds the full record at `off`: header and payload.
pub open spec fn rec_intact(log: Seq<u8>, off: int) -> bool {
    header_intact(log, off) && rec_end(log, off) <= log.len()
}

/// The key bytes of the record at `off`.
pub open spec fn rec_key_bytes(log: Seq<u8>, off: int) -> Seq<u8> {
    log.subrange(off + 12, off + 12 + rec_klen(log, off))
}

/// The value bytes of the record at `off`.
pub open spec fn rec_value_bytes(log: Seq<u8>, off: int) -> Seq<u8> {
    log.subrange(off + 12 + rec_klen(log, off), rec_end(log, off))
}

/// The payload of the record at `off`: key bytes followed by value bytes.
pub open spec fn rec_payload(log: Seq<u8>, off: int) -> Seq<u8> {
    log.subrange(off + 12, rec_end(log, off))
}

/// The record at `off` is intact and its stored checksum matches the checksum
/// recomputed over its payload. A record that fails this must not be trusted.
pub open spec fn rec_valid(log: Seq<u8>, off: int) -> bool {
    rec_intact(log, off) && rec_crc(log, off) == crc32_of(rec_payload(log, off))
}

/// The serialized form of one record: checksum, key length, value length,
/// key bytes, value bytes.
pub open spec fn record_bytes(kb: Seq<u8>, vb: Seq<u8>) -> Seq<u8>
    recommends
        kb.len() <= u32::MAX,
        vb.len() <= u32::MAX,
{
    be32(crc32_of(kb + vb)) + be32(kb.len() as u32) + be32(vb.len() as u32) + kb + vb
}

/// The scan from `off` reaches the end of the log through checksum-valid
/// records only, ending exactly at a record boundary.
pub open spec fn scan_ok(log: Seq<u8>, off: int) -> bool
    decreases log.len() - off,
{
    if off == log.len() {
        true
    } else if !rec_valid(log, off) {
        false
    } else {
        scan_ok(log, rec_end(log, off))
    }
}

/// The index the scan from `off` builds on top of `acc`: each valid record
/// maps the text of its key bytes to the record's offset, later records for
/// the same key overwriting earlier ones.
pub open spec fn scan_index(log: Seq<u8>, off: int, acc: Map<Seq<char>, u64>) -> Map<Seq<char>, u64>
    decreases log.len() - off,
{
    if off == log.len() || !rec_valid(log, off) {
        acc
    } else {
        scan_index(
            log,
            rec_end(log, off),
            acc.insert(text_of(rec_key_bytes(log, off)), off as u64),
        )
    }
}

/// The index the full recovery scan of the log yields.
pub open spec fn log_index(log: Seq<u8>) -> Map<Seq<char>, u64> {
    scan_index(log, 0, Map::empty())
}

/// The first failure the scan from `off` meets is a checksum mismatch on an
/// intact record, as opposed to a log that ends inside a record.
pub open spec fn scan_corrupt(log: Seq<u8>, off: int) -> bool
    decreases log.len() - off,
{
    if off == log.len() {
        false
    } else if !rec_intact(log, off) {
        false
    } else if rec_crc(log, off) != crc32_of(rec_payload(log, off)) {
        true
    } else {
        scan_corrupt(log, rec_end(log, off))
    }
}

/// The entry `k -> off` of an index is sound for the log: it names a
/// checksum-valid record whose key bytes read back as `k`.
pub open spec fn index_entry_ok(log: Seq<u8>, k: Seq<char>, off: u64) -> bool {
    rec_valid(log, off as int) && text_of(rec_key_bytes(log, off as int)) == k
}

/// A record intact in a log parses identically in any extension of that log:
/// appending bytes never changes a record already written.
pub proof fn lemma_rec_prefix(log: Seq<u8>, ext: Seq<u8>, off: int)
    requires
        rec_intact(log, off),
    ensures
        rec_intact(log + ext, off),
        rec_crc(log + ext, off) == rec_crc(log, off),
        rec_klen(log + ext, off) == rec_klen(log, off),
        rec_vlen(log + ext, off) == rec_vlen(log, off),
        rec_end(log + ext, off) == rec_end(log, off),
        rec_key_bytes(log + ext, off) == rec_key_bytes(log, off),
        rec_value_bytes(log + ext, off) == rec_value_bytes(log, off),
        rec_payload(log + ext, off) == rec_payload(log, off),
        rec_valid(log + ext, off) == rec_valid(log, off),
{
    let log2 = log + ext;
    assert(log2.subrange(off, off + 4) =~= log.subrange(off, off + 4));
    assert(log2.subrange(off + 4, off + 8) =~= log.subrange(off + 4, off + 8));
    assert(log2.subrange(off + 8, off + 12) =~= log.subrange(off + 8, off + 12));
    assert(rec_end(log2, off) == rec_end(log, off));
    assert(rec_key_bytes(log2, off) =~= rec_key_bytes(log, off));
    assert(rec_value_bytes(log2, off) =~= rec_value_bytes(log, off));
    assert(rec_payload(log2, off) =~= rec_payload(log, off));
}

/// A freshly serialized record appended at the end of a log parses back to
/// exactly the key and value bytes it was built from, is checksum-valid, and
/// ends exactly at the new end of the log.
pub proof fn lemma_record_parse(log: Seq<u8>, kb: Seq<u8>, vb: Seq<u8>)
    requires
        kb.len() <= u32::MAX,
        vb.len() <= u32::MAX,
    ensures
        ({
            let log2 = log + record_bytes(kb, vb);
            let off = log.len() as int;
            &&& rec_valid(log2, off)
            &&& rec_key_bytes(log2, off) == kb
            &&& rec_value_bytes(log2, off) == vb
            &&& rec_end(log2, off) == log2.len()
        }),
{
    let rec = record_bytes(kb, vb);
    let log2 = log + rec;
    let off = log.len() as int;
    crate::codec::lemma_be32_roundtrip(crc32_of(kb + vb));
    crate::codec::lemma_be32_roundtrip(kb.len() as u32);
    crate::codec::lemma_be32_roundtrip(vb.len() as u32);
    assert(rec.len() == 12 + kb.len() + vb.len());
    assert(log2.subrange(off, off + 4) =~= be32(crc32_of(kb + vb)));
    assert(log2.subrange(off + 4, off + 8) =~= be32(kb.len() as u32));
    assert(log2.subrange(off + 8, off + 12) =~= be32(vb.len() as u32));
    assert(rec_klen(log2, off) == kb.len());
    assert(rec_vlen(log2, off) == vb.len());
    assert(rec_end(log2, off) == log2.len());
    assert(rec_key_bytes(log2, off) =~= kb);
    assert(rec_value_bytes(log2, off) =~= vb);
    assert(rec_payload(log2, off) =~= kb + vb);
}

/// Appending one serialized record to a log that scans cleanly yields a log
/// that still scans cleanly, and the scan's index gains exactly the new
/// record's entry: the text of its key, at the old end of the log.
pub proof fn lemma_scan_append(
    log: Seq<u8>,
    kb: Seq<u8>,
    vb: Seq<u8>,
    off: int,
    acc: Map<Seq<char>, u64>,
)
    requires
        0 <= off <= log.len(),
        log.len() <= u64::MAX,
        scan_ok(log, off),
        kb.len() <= u32::MAX,
        vb.len() <= u32::MAX,
    ensures
        ({
            let log2 = log + record_bytes(kb, vb);
            &&& scan_ok(log2, off)
            &&& scan_index(log2, off, acc) == scan_index(log, off, acc).insert(
                text_of(kb),
                log.len() as u64,
            )
        }),
    decreases log.len() - off,
{
    let rec = record_bytes(kb, vb);
    let log2 = log + rec;
    if off == log.len() {
        lemma_record_parse(log, kb, vb);
        assert(off < log2.len());
        assert(scan_ok(log2, rec_end(log2, off)));
        let acc2 = acc.insert(text_of(kb), off as u64);
        assert(scan_index(log2, rec_end(log2, off), acc2) == acc2);
        assert(scan_index(log2, off, acc) == acc2);
    } else {
        lemma_rec_prefix(log, rec, off);
        lemma_scan_append(
            log,
            kb,
            vb,
            rec_end(log, off),
            acc.insert(text_of(rec_key_bytes(log, off)), off as u64),
        );
    }
}

/// The scan from `a` reaches offset `b` through checksum-valid records.
pub open spec fn reaches(log: Seq<u8>, a: int, b: int) -> bool
    decreases log.len() - a,
{
    if a == b {
        true
    } else if !rec_valid(log, a) {
        false
    } else {
        reaches(log, rec_end(log, a), b)
    }
}

/// Corruption detection: a log whose scan reaches a record that is intact
/// but whose stored checksum differs from the checksum recomputed over its
/// payload — a record with flipped bits, say — fails the scan with
/// corruption, never yielding a wrong value.
pub proof fn lemma_corrupt_record_detected(log: Seq<u8>, off: int)
    requires
        reaches(log, 0, off),
        rec_intact(log, off),
        rec_crc(log, off) != crc32_of(rec_payload(log, off)),
    ensures
        scan_corrupt(log, 0),
        !scan_ok(log, 0),
{
    lemma_corrupt_record_detected_from(log, 0, off);
}

/// The induction behind [`lemma_corrupt_record_detected`], generalized over
/// the offset the scan stands at.
proof fn lemma_corrupt_record_detected_from(log: Seq<u8>, a: int, off: int)
    requires
        reaches(log, a, off),
        rec_intact(log, off),
        rec_crc(log, off) != crc32_of(rec_payload(log, off)),
    ensures
        scan_corrupt(log, a),
        !scan_ok(log, a),
    decreases log.len() - a,
{
    if a == off {
        assert(off + 12 <= log.len());
    } else {
        lemma_corrupt_record_detected_from(log, rec_end(log, a), off);
    }
}

/// The scan's index points each key at its most recently appended record:
/// any checksum-valid record the scan reaches whose key reads back as `k`
/// lies at or before the offset the index holds for `k`.
pub proof fn lemma_index_points_at_latest(log: Seq<u8>, off: int)
    requires
        reaches(log, 0, off),
        rec_valid(log, off),
        log.len() <= u64::MAX,
    ensures
        log_index(log).contains_key(text_of(rec_key_bytes(log, off))),
        off <= log_index(log)[text_of(rec_key_bytes(log, off))],
{
    lemma_scan_index_latest(log, 0, off, Map::empty());
}

/// The induction behind [`lemma_index_points_at_latest`], generalized over
/// the offset the scan stands at.
proof fn lemma_scan_index_latest(log: Seq<u8>, a: int, off: int, acc: Map<Seq<char>, u64>)
    requires
        reaches(log, a, off),
        rec_valid(log, off),
        log.len() <= u64::MAX,
        0 <= a,
    ensures
        scan_index(log, a, acc).contains_key(text_of(rec_key_bytes(log, off))),
        off <= scan_index(log, a, acc)[text_of(rec_key_bytes(log, off))],
    decreases log.len() - a,
{
    let k = text_of(rec_key_bytes(log, off));
    if a == off {
        let acc2 = acc.insert(k, off as u64);
        lemma_scan_index_floor(log, rec_end(log, off), acc2, k, off);
    } else {
        lemma_scan_index_latest(log, rec_end(log, a), off, acc.insert(
            text_of(rec_key_bytes(log, a)),
            a as u64,
        ));
    }
}

/// Scanning onward from `b` never lowers the index's entry for `k` below a
/// floor that `b` itself clears: every later record is inserted at a later
/// offset.
proof fn lemma_scan_index_floor(
    log: Seq<u8>,
    b: int,
    acc: Map<Seq<char>, u64>,
    k: Seq<char>,
    floor: int,
)
    requires
        acc.contains_key(k),
        floor <= acc[k],
        0 <= floor <= b,
        log.len() <= u64::MAX,
    ensures
        scan_index(log, b, acc).contains_key(k),
        floor <= scan_index(log, b, acc)[k],
    decreases log.len() - b,
{
    if b == log.len() || !rec_valid(log, b) {
    } else {
        let acc2 = acc.insert(text_of(rec_key_bytes(log, b)), b as u64);
        lemma_scan_index_floor(log, rec_end(log, b), acc2, k, floor);
    }
}

/// A scan that succeeds met no checksum mismatch.
pub proof fn lemma_scan_ok_not_corrupt(log: Seq<u8>, off: int)
    requires
        scan_ok(log, off),
    ensures
        !scan_corrupt(log, off),
    decreases log.len() - off,
{
    if off == log.len() {
    } else {
        lemma_scan_ok_not_corrupt(log, rec_end(log, off));
    }
}

} // verus!
