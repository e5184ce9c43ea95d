//! The key/value store: an append-only log of checksummed records with an
//! in-memory index from key to the offset of the key's latest record.
//!
//! The store works on the log's bytes; reading the log file into memory and
//! appending the bytes a mutation produces back to the file is the caller's
//! part. A mutation never rewrites or truncates bytes already in the log: a
//! delete appends a record with an empty value (a tombstone), so the key
//! remains readable and yields the empty value.

use crate::checksum::crc32;
use crate::checksum::crc32_of;
use crate::codec::push_be32;
use crate::codec::read_be32;
use crate::format::index_entry_ok;
use crate::format::lemma_rec_prefix;
use crate::format::lemma_record_parse;
use crate::format::lemma_scan_append;
use crate::format::log_index;
use crate::format::rec_crc;
use crate::format::rec_end;
use crate::format::rec_intact;
use crate::format::rec_key_bytes;
use crate::format::rec_payload;
use crate::format::rec_valid;
use crate::format::rec_value_bytes;
use crate::format::record_bytes;
use crate::format::scan_corrupt;
use crate::format::scan_index;
use crate::format::scan_ok;
use crate::index::assoc_map;
use crate::index::index_find;
use crate::index::index_put;
use crate::index::keys_unique;
use crate::text::decode_text;
use crate::text::encode_text;
use crate::text::lemma_empty_text;
use crate::text::lemma_text_roundtrip;
use crate::text::text_of;
use vstd::prelude::*;
use vstd::slice::slice_subrange;
use vstd::utf8::encode_utf8;

verus! {

/// Why an operation on the store failed.
#[derive(Clone, Copy, Debug, PartialEq, Eq, Structural)]
pub enum KvError {
    /// The key is absent from the index.
    NotFound,
    /// A record's stored checksum does not match the checksum recomputed over
    /// its payload.
    Corruption,
    /// The log ends inside a record.
    Io,
}

/// One record read back from the log, decoded to text.
struct KeyValuePair {
    key: String,
    value: String,
}

/// A key/value database over an append-only record log.
#[derive(Debug)]
pub struct ActionKV {
    log: Vec<u8>,
    index: Vec<(String, u64)>,
}

impl ActionKV {
    /// The full contents of the log.
    pub closed spec fn log_seq(self) -> Seq<u8> {
        self.log@
    }

    /// The index: key text to the offset of the key's latest record.
    pub closed spec fn index_map(self) -> Map<Seq<char>, u64> {
        assoc_map(self.index@)
    }

    /// Well-formed: the log scans cleanly from offset 0, and the index is
    /// exactly what the recovery scan of the log yields, every entry naming a
    /// checksum-valid record that stores the entry's key.
    pub closed spec fn wf(self) -> bool {
        &&& scan_ok(self.log@, 0)
        &&& self.log@.len() <= u64::MAX
        &&& keys_unique(self.index@)
        &&& assoc_map(self.index@) == log_index(self.log@)
        &&& forall|k: Seq<char>|
            assoc_map(self.index@).contains_key(k) ==> index_entry_ok(
                self.log@,
                k,
                assoc_map(self.index@)[k],
            )
    }

    /// The observable contents of the store: each present key, with the text
    /// its latest record's value bytes read back as.
    pub open spec fn state(self) -> Map<Seq<char>, Seq<char>> {
        Map::new(
            |k: Seq<char>| self.index_map().contains_key(k),
            |k: Seq<char>| text_of(rec_value_bytes(self.log_seq(), self.index_map()[k] as int)),
        )
    }

    /// Opens a store over the given log contents, rebuilding the index by a
    /// full scan. A log that ends inside a record or holds a record whose
    /// checksum does not match fails to open with that error.
    pub fn open(log: Vec<u8>) -> (r: Result<ActionKV, KvError>)
        ensures
            match r {
                Ok(s) => {
                    &&& scan_ok(log@, 0)
                    &&& s.wf()
                    &&& s.log_seq() == log@
                    &&& s.index_map() == log_index(log@)
                },
                Err(e) => {
                    &&& !scan_ok(log@, 0)
                    &&& e != KvError::NotFound
                    &&& (e == KvError::Corruption <==> scan_corrupt(log@, 0))
                },
            },
    {
        let mut akv = ActionKV { log, index: Vec::new() };
        match akv.load() {
            Ok(()) => Ok(akv),
            Err(e) => Err(e),
        }
    }

    /// Retrieves the value stored for `key`. A key absent from the index
    /// fails with `NotFound`; a present key yields the text of its latest
    /// record's value, even when that text is empty.
    pub fn get(&self, key: String) -> (r: Result<String, KvError>)
        requires
            self.wf(),
        ensures
            match r {
                Ok(v) => self.state().contains_key(key@) && v@ == self.state()[key@],
                Err(e) => e == KvError::NotFound && !self.state().contains_key(key@),
            },
    {
        let position = match index_find(&self.index, &key) {
            Some(position) => position,
            None => {
                return Err(KvError::NotFound);
            },
        };
        match self.get_record_at_position(position) {
            Ok(kv) => Ok(kv.value),
            Err(e) => {
                // Propagated as the read path stands, but unreachable: every
                // record a well-formed store's index names is intact and
                // checksum-valid.
                proof {
                    assert(index_entry_ok(self.log@, key@, position));
                    assert(false);
                }
                Err(e)
            },
        }
    }

    /// Creates or updates the entry for `key`: appends one record holding the
    /// key and value and points the index at it. A key or value whose UTF-8
    /// bytes do not fit the record's 32-bit length fields fails with `Io` and
    /// leaves the store unchanged.
    pub fn insert(&mut self, key: String, value: String) -> (r: Result<(), KvError>)
        requires
            old(self).wf(),
        ensures
            final(self).wf(),
            match r {
                Ok(()) => {
                    &&& encode_utf8(key@).len() <= u32::MAX
                    &&& encode_utf8(value@).len() <= u32::MAX
                    &&& final(self).log_seq() == old(self).log_seq() + record_bytes(
                        encode_utf8(key@),
                        encode_utf8(value@),
                    )
                    &&& final(self).index_map() == old(self).index_map().insert(
                        key@,
                        old(self).log_seq().len() as u64,
                    )
                    &&& final(self).state() == old(self).state().insert(key@, value@)
                },
                Err(e) => {
                    &&& e == KvError::Io
                    &&& (encode_utf8(key@).len() > u32::MAX || encode_utf8(value@).len()
                        > u32::MAX)
                    &&& final(self).log_seq() == old(self).log_seq()
                    &&& final(self).index_map() == old(self).index_map()
                },
            },
    {
        let ghost k = key@;
        let ghost v = value@;
        let position = match self.insert_in_database(key.as_str(), value.as_str()) {
            Ok(position) => position,
            Err(e) => {
                return Err(e);
            },
        };
        index_put(&mut self.index, key, position);
        proof {
            self.lemma_reestablish_wf(*old(self), k, v, position);
        }
        Ok(())
    }

    /// Creates or updates the entry for `key`. Calling `update` is equivalent
    /// to calling `insert`.
    pub fn update(&mut self, key: String, value: String) -> (r: Result<(), KvError>)
        requires
            old(self).wf(),
        ensures
            final(self).wf(),
            match r {
                Ok(()) => {
                    &&& encode_utf8(key@).len() <= u32::MAX
                    &&& encode_utf8(value@).len() <= u32::MAX
                    &&& final(self).log_seq() == old(self).log_seq() + record_bytes(
                        encode_utf8(key@),
                        encode_utf8(value@),
                    )
                    &&& final(self).index_map() == old(self).index_map().insert(
                        key@,
                        old(self).log_seq().len() as u64,
                    )
                    &&& final(self).state() == old(self).state().insert(key@, value@)
                },
                Err(e) => {
                    &&& e == KvError::Io
                    &&& (encode_utf8(key@).len() > u32::MAX || encode_utf8(value@).len()
                        > u32::MAX)
                    &&& final(self).log_seq() == old(self).log_seq()
                    &&& final(self).index_map() == old(self).index_map()
                },
            },
    {
        self.insert(key, value)
    }

    /// Deletes the value stored for `key` by appending a tombstone: a record
    /// for the key with an empty value. The key stays in the index, now
    /// reading back as the empty value. A key absent from the index fails
    /// with `NotFound` and leaves the store unchanged.
    pub fn delete(&mut self, key: String) -> (r: Result<(), KvError>)
        requires
            old(self).wf(),
        ensures
            final(self).wf(),
            match r {
                Ok(()) => {
                    &&& old(self).state().contains_key(key@)
                    &&& encode_utf8(key@).len() <= u32::MAX
                    &&& final(self).log_seq() == old(self).log_seq() + record_bytes(
                        encode_utf8(key@),
                        Seq::<u8>::empty(),
                    )
                    &&& final(self).index_map() == old(self).index_map().insert(
                        key@,
                        old(self).log_seq().len() as u64,
                    )
                    &&& final(self).state() == old(self).state().insert(key@, Seq::<char>::empty())
                },
                Err(e) => {
                    &&& final(self).log_seq() == old(self).log_seq()
                    &&& final(self).index_map() == old(self).index_map()
                    &&& (e == KvError::NotFound <==> !old(self).state().contains_key(key@))
                    &&& (e == KvError::Io ==> encode_utf8(key@).len() > u32::MAX)
                    &&& e != KvError::Corruption
                },
            },
    {
        if index_find(&self.index, &key).is_none() {
            return Err(KvError::NotFound);
        }
        let ghost k = key@;
        let value = String::new();
        let position = match self.insert_in_database(key.as_str(), value.as_str()) {
            Ok(position) => position,
            Err(e) => {
                proof {
                    lemma_empty_text();
                }
                return Err(e);
            },
        };
        index_put(&mut self.index, key, position);
        proof {
            lemma_empty_text();
            self.lemma_reestablish_wf(*old(self), k, Seq::<char>::empty(), position);
        }
        Ok(())
    }

    /// The raw bytes of the log, as they stand on disk.
    pub fn log_bytes(&self) -> (r: &Vec<u8>)
        ensures
            r@ == self.log_seq(),
    {
        &self.log
    }

    /// Rebuilds the index by scanning the log front to back from offset 0,
    /// pointing each scanned key at the offset of its latest record. The scan
    /// stops successfully on reaching the end of the log at a record
    /// boundary; any other failure aborts the load with its error.
    fn load(&mut self) -> (r: Result<(), KvError>)
        requires
            old(self).index@.len() == 0,
        ensures
            final(self).log@ == old(self).log@,
            match r {
                Ok(()) => final(self).wf(),
                Err(e) => {
                    &&& !scan_ok(old(self).log@, 0)
                    &&& e != KvError::NotFound
                    &&& (e == KvError::Corruption <==> scan_corrupt(old(self).log@, 0))
                },
            },
    {
        let n = self.log.len();
        let mut position: usize = 0;
        proof {
            assert(assoc_map(self.index@) =~= Map::<Seq<char>, u64>::empty());
        }
        while position < n
            invariant
                position <= n,
                n == self.log@.len(),
                self.log@ == old(self).log@,
                keys_unique(self.index@),
                scan_ok(self.log@, 0) == scan_ok(self.log@, position as int),
                scan_corrupt(self.log@, 0) == scan_corrupt(self.log@, position as int),
                log_index(self.log@) == scan_index(
                    self.log@,
                    position as int,
                    assoc_map(self.index@),
                ),
                forall|k: Seq<char>|
                    assoc_map(self.index@).contains_key(k) ==> index_entry_ok(
                        self.log@,
                        k,
                        assoc_map(self.index@)[k],
                    ),
            decreases n - position,
        {
            let (kv, next) = match Self::process_record(&self.log, position) {
                Ok(r) => r,
                Err(e) => {
                    return Err(e);
                },
            };
            index_put(&mut self.index, kv.key, position as u64);
            proof {
                assert(index_entry_ok(self.log@, kv.key@, position as u64));
            }
            position = next;
        }
        Ok(())
    }

    /// Retrieves the record stored in the log at byte offset `position`.
    fn get_record_at_position(&self, position: u64) -> (r: Result<KeyValuePair, KvError>)
        requires
            position <= self.log@.len(),
        ensures
            match r {
                Ok(kv) => {
                    &&& rec_valid(self.log@, position as int)
                    &&& kv.key@ == text_of(rec_key_bytes(self.log@, position as int))
                    &&& kv.value@ == text_of(rec_value_bytes(self.log@, position as int))
                },
                Err(KvError::Io) => !rec_intact(self.log@, position as int),
                Err(KvError::Corruption) => rec_intact(self.log@, position as int) && rec_crc(
                    self.log@,
                    position as int,
                ) != crc32_of(rec_payload(self.log@, position as int)),
                Err(KvError::NotFound) => false,
            },
    {
        proof {
            vstd::std_specs::vec::axiom_spec_len(&self.log);
        }
        match Self::process_record(&self.log, position as usize) {
            Ok((kv, _)) => Ok(kv),
            Err(e) => Err(e),
        }
    }

    /// Serializes one record for the `key`/`value` pair and appends it to the
    /// log: checksum over the payload, key length, value length, key bytes,
    /// value bytes. Returns the offset at which the record begins, captured
    /// before the write.
    fn insert_in_database(&mut self, key: &str, value: &str) -> (r: Result<u64, KvError>)
        ensures
            final(self).index@ == old(self).index@,
            match r {
                Ok(position) => {
                    &&& encode_utf8(key@).len() <= u32::MAX
                    &&& encode_utf8(value@).len() <= u32::MAX
                    &&& position == old(self).log@.len()
                    &&& final(self).log@ == old(self).log@ + record_bytes(
                        encode_utf8(key@),
                        encode_utf8(value@),
                    )
                },
                Err(e) => {
                    &&& e == KvError::Io
                    &&& (encode_utf8(key@).len() > u32::MAX || encode_utf8(value@).len()
                        > u32::MAX)
                    &&& final(self).log@ == old(self).log@
                },
            },
    {
        let key_bytes = encode_text(key);
        let value_bytes = encode_text(value);
        if key_bytes.len() > u32::MAX as usize || value_bytes.len() > u32::MAX as usize {
            return Err(KvError::Io);
        }
        let key_length = key_bytes.len() as u32;
        let value_length = value_bytes.len() as u32;
        let mut data: Vec<u8> = Vec::new();
        append_bytes(&mut data, key_bytes.as_slice());
        append_bytes(&mut data, value_bytes.as_slice());
        let checksum = crc32(data.as_slice());
        let position = self.log.len() as u64;
        push_be32(&mut self.log, checksum);
        push_be32(&mut self.log, key_length);
        push_be32(&mut self.log, value_length);
        append_bytes(&mut self.log, data.as_slice());
        proof {
            assert(self.log@ =~= old(self).log@ + record_bytes(
                encode_utf8(key@),
                encode_utf8(value@),
            ));
        }
        Ok(position)
    }

    /// Reads one record at offset `position`: the three header fields, then
    /// the payload, whose checksum is recomputed and held against the stored
    /// one. A mismatch is a corruption error; a log that ends inside the
    /// record is an I/O error. Key and value decode lossily.
    fn process_record(log: &Vec<u8>, position: usize) -> (r: Result<(KeyValuePair, usize), KvError>)
        requires
            position <= log@.len(),
        ensures
            match r {
                Ok((kv, next)) => {
                    &&& rec_valid(log@, position as int)
                    &&& kv.key@ == text_of(rec_key_bytes(log@, position as int))
                    &&& kv.value@ == text_of(rec_value_bytes(log@, position as int))
                    &&& next as int == rec_end(log@, position as int)
                    &&& position < next <= log@.len()
                },
                Err(KvError::Io) => !rec_intact(log@, position as int),
                Err(KvError::Corruption) => rec_intact(log@, position as int) && rec_crc(
                    log@,
                    position as int,
                ) != crc32_of(rec_payload(log@, position as int)),
                Err(KvError::NotFound) => false,
            },
    {
        let n = log.len();
        if n - position < 12 {
            return Err(KvError::Io);
        }
        let saved_checksum = read_be32(log, position);
        let key_length = read_be32(log, position + 4);
        let value_length = read_be32(log, position + 8);
        let data_length = key_length as u64 + value_length as u64;
        if ((n - position - 12) as u64) < data_length {
            return Err(KvError::Io);
        }
        let data_end = position + 12 + key_length as usize + value_length as usize;
        let data = slice_subrange(log.as_slice(), position + 12, data_end);
        let checksum = crc32(data);
        if saved_checksum != checksum {
            return Err(KvError::Corruption);
        }
        let key_data = slice_subrange(data, 0, key_length as usize);
        let value_data = slice_subrange(data, key_length as usize, data.len());
        let key = decode_text(key_data);
        let value = decode_text(value_data);
        proof {
            assert(key_data@ =~= rec_key_bytes(log@, position as int));
            assert(value_data@ =~= rec_value_bytes(log@, position as int));
        }
        Ok((KeyValuePair { key, value }, data_end))
    }

    /// After one record for key `k` and value `v` is appended and the index
    /// is pointed at it, the store is well-formed again and its observable
    /// contents gain exactly `k -> v`.
    proof fn lemma_reestablish_wf(self, pre: ActionKV, k: Seq<char>, v: Seq<char>, position: u64)
        requires
            pre.wf(),
            encode_utf8(k).len() <= u32::MAX,
            encode_utf8(v).len() <= u32::MAX,
            position == pre.log@.len(),
            self.log@ == pre.log@ + record_bytes(encode_utf8(k), encode_utf8(v)),
            keys_unique(self.index@),
            assoc_map(self.index@) == assoc_map(pre.index@).insert(k, position),
        ensures
            self.wf(),
            self.state() == pre.state().insert(k, v),
    {
        let kb = encode_utf8(k);
        let vb = encode_utf8(v);
        let rec = record_bytes(kb, vb);
        vstd::std_specs::vec::axiom_spec_len(&self.log);
        assert(self.log@.len() <= usize::MAX);
        lemma_text_roundtrip(k);
        lemma_text_roundtrip(v);
        lemma_scan_append(pre.log@, kb, vb, 0, Map::<Seq<char>, u64>::empty());
        lemma_record_parse(pre.log@, kb, vb);
        assert(log_index(self.log@) == log_index(pre.log@).insert(k, position));
        assert(assoc_map(self.index@) == log_index(self.log@));
        assert forall|key: Seq<char>| assoc_map(self.index@).contains_key(key) implies
            index_entry_ok(self.log@, key, assoc_map(self.index@)[key]) by {
            if key == k {
                assert(rec_valid(self.log@, position as int));
                assert(text_of(rec_key_bytes(self.log@, position as int)) == k);
            } else {
                assert(pre.index_map().contains_key(key));
                let off = assoc_map(pre.index@)[key];
                assert(index_entry_ok(pre.log@, key, off));
                lemma_rec_prefix(pre.log@, rec, off as int);
            }
        }
        assert(self.wf());
        assert forall|key: Seq<char>| #[trigger] self.state().contains_key(key)
            == pre.state().insert(k, v).contains_key(key) by {}
        assert forall|key: Seq<char>| self.state().contains_key(key) implies self.state()[key]
            == pre.state().insert(k, v)[key] by {
            if key == k {
                assert(rec_value_bytes(self.log@, position as int) == vb);
                assert(text_of(vb) == v);
            } else {
                let off = assoc_map(pre.index@)[key];
                assert(index_entry_ok(pre.log@, key, off));
                lemma_rec_prefix(pre.log@, rec, off as int);
                assert(rec_value_bytes(self.log@, off as int) == rec_value_bytes(
                    pre.log@,
                    off as int,
                ));
            }
        }
        assert(self.state() =~= pre.state().insert(k, v));
    }
}

/// Round trip: a store on which `insert(k, v)` has just succeeded maps `k`
/// to `v`, so by `get`'s contract a `get(k)` on it returns `Ok` with exactly
/// `v` — for every key and value, the empty ones included.
pub proof fn lemma_insert_then_get(pre: ActionKV, post: ActionKV, k: Seq<char>, v: Seq<char>)
    requires
        post.state() == pre.state().insert(k, v),
    ensures
        post.state().contains_key(k),
        post.state()[k] == v,
{
}

/// Last write wins: after `insert(k, v1)` and then `insert(k, v2)`, the
/// store maps `k` to `v2`, whatever stood for `k` before.
pub proof fn lemma_last_write_wins(
    s0: ActionKV,
    s1: ActionKV,
    s2: ActionKV,
    k: Seq<char>,
    v1: Seq<char>,
    v2: Seq<char>,
)
    requires
        s1.state() == s0.state().insert(k, v1),
        s2.state() == s1.state().insert(k, v2),
    ensures
        s2.state().contains_key(k),
        s2.state()[k] == v2,
{
}

/// Delete then get: after a successful `delete(k)` the key still reads back
/// — as the empty value, not as a not-found error.
pub proof fn lemma_delete_then_get(pre: ActionKV, post: ActionKV, k: Seq<char>)
    requires
        pre.state().contains_key(k),
        post.state() == pre.state().insert(k, Seq::<char>::empty()),
    ensures
        post.state().contains_key(k),
        post.state()[k] == Seq::<char>::empty(),
{
}

/// Recovery idempotence, first half: the log of a well-formed store scans
/// cleanly, and the scan rebuilds exactly the store's index — so by `open`'s
/// contract, reopening the store's bytes succeeds.
pub proof fn lemma_recovery_succeeds(s: ActionKV)
    requires
        s.wf(),
    ensures
        scan_ok(s.log_seq(), 0),
        log_index(s.log_seq()) == s.index_map(),
{
}

/// Recovery idempotence, second half: two well-formed stores over the same
/// log bytes hold the same index and observe the same contents — the index
/// is a pure function of the log, so every `get` answers the same before and
/// after a reopen.
pub proof fn lemma_same_log_same_state(a: ActionKV, b: ActionKV)
    requires
        a.wf(),
        b.wf(),
        a.log_seq() == b.log_seq(),
    ensures
        a.index_map() == b.index_map(),
        a.state() == b.state(),
{
    assert(a.state() =~= b.state());
}

/// The index resolves each key to its most recently appended record: in a
/// well-formed store, no checksum-valid record the scan reaches lies beyond
/// the offset the index holds for that record's key.
pub proof fn lemma_index_is_latest(s: ActionKV, off: int)
    requires
        s.wf(),
        crate::format::reaches(s.log_seq(), 0, off),
        rec_valid(s.log_seq(), off),
    ensures
        s.index_map().contains_key(text_of(rec_key_bytes(s.log_seq(), off))),
        off <= s.index_map()[text_of(rec_key_bytes(s.log_seq(), off))],
{
    crate::format::lemma_index_points_at_latest(s.log_seq(), off);
}

/// Append-only growth: a mutation only ever concatenates bytes at the end of
/// the log, so every byte already written stays in place and the log never
/// shrinks — a delete included.
pub proof fn lemma_append_only(pre: Seq<u8>, rec: Seq<u8>, post: Seq<u8>)
    requires
        post == pre + rec,
    ensures
        pre.len() <= post.len(),
        post.subrange(0, pre.len() as int) == pre,
{
    assert(post.subrange(0, pre.len() as int) =~= pre);
}

/// Appends the bytes of `src` to `out`.
fn append_bytes(out: &mut Vec<u8>, src: &[u8])
    ensures
        final(out)@ == old(out)@ + src@,
{
    let n = src.len();
    let mut i: usize = 0;
    while i < n
        invariant
            i <= n,
            n == src@.len(),
            out@ == old(out)@ + src@.subrange(0, i as int),
        decreases n - i,
    {
        let b = src[i];
        out.push(b);
        i = i + 1;
        proof {
            assert(out@ =~= old(out)@ + src@.subrange(0, i as int));
        }
    }
    proof {
        assert(old(out)@ + src@.subrange(0, n as int) =~= old(out)@ + src@);
    }
}

} // verus!
