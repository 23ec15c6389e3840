//! The index side of the single-file key-value store: every `set` appends a
//! record to one log file and points the key at it.

use vstd::prelude::*;
use vstd::string::*;
use vstd::utf8::*;

pub use crate::keydir::Value;
use crate::keydir::KeyDir;
use crate::record::{encode_record, record_size, record_bytes, record_value, lemma_record_roundtrip};

verus! {

/// The id recorded for the store's one data file.
pub const FILE_ID: u64 = 1234;

/// The in-memory state of the store: its directory, its key directory and
/// the length of its log file.
pub struct KvStore {
    dir_path: String,
    store: KeyDir,
    pos: u64,
    log: Ghost<Seq<u8>>,
    contents: Ghost<Map<Seq<char>, Seq<char>>>,
}

impl KvStore {
    /// The keys and their values.
    pub closed spec fn view(&self) -> Map<Seq<char>, Seq<char>> {
        self.contents@
    }

    /// The bytes appended to the log through this store.
    pub closed spec fn log(&self) -> Seq<u8> {
        self.log@
    }

    /// Where the latest record of each key lies.
    pub closed spec fn locations(&self) -> Map<Seq<char>, Value> {
        self.store@
    }

    /// The length of the log.
    pub closed spec fn position(&self) -> u64 {
        self.pos
    }

    /// The store's directory.
    pub closed spec fn dir(&self) -> Seq<char> {
        self.dir_path@
    }

    /// The bytes that the location of `key` points at.
    pub open spec fn record_of(&self, key: Seq<char>) -> Seq<u8> {
        let v = self.locations()[key];
        self.log().subrange(v.offset_position as int, v.offset_position + v.size)
    }

    /// The record of `key` lies in the log and holds `key` and its value.
    pub open spec fn holds(&self, key: Seq<char>) -> bool {
        let v = self.locations()[key];
        &&& v.file_id == FILE_ID
        &&& v.offset_position + v.size <= self.log().len()
        &&& self.record_of(key) == record_bytes(
            v.timestamp,
            encode_utf8(key),
            encode_utf8(self@[key]),
        )
    }

    /// Every key's location holds a record of its current value, and the
    /// log's length is the write position.
    pub closed spec fn wf(&self) -> bool {
        &&& self.store.wf()
        &&& self.store@.dom() == self.contents@.dom()
        &&& self.log@.len() == self.pos
        &&& forall|k: Seq<char>| #[trigger] self.contents@.contains_key(k) ==> self.holds(k)
    }

    /// An empty store over the directory `path`.
    pub fn new(path: &str) -> (s: KvStore)
        ensures
            s.wf(),
            s@ == Map::<Seq<char>, Seq<char>>::empty(),
            s.log() == Seq::<u8>::empty(),
            s.position() == 0,
            s.dir() == path@,
    {
        let s = KvStore {
            dir_path: path.to_owned(),
            store: KeyDir::new(),
            pos: 0,
            log: Ghost(Seq::<u8>::empty()),
            contents: Ghost(Map::<Seq<char>, Seq<char>>::empty()),
        };
        proof {
            assert(s.store@.dom() =~= s.contents@.dom());
        }
        s
    }

    /// The store's directory.
    pub fn dir_path(&self) -> (r: &str)
        ensures
            r@ == self.dir(),
    {
        self.dir_path.as_str()
    }

    /// The length of the log.
    pub fn log_position(&self) -> (r: u64)
        ensures
            r == self.position(),
    {
        self.pos
    }

    /// Whether a record for `key` and `value` fits: its length fits a `usize`
    /// and the log's length after it fits a `u64`.
    pub fn has_room_for(&self, key: &str, value: &str) -> (r: bool)
        ensures
            r == (record_size(key@, value@) <= usize::MAX && self.position()
                + record_size(key@, value@) <= u64::MAX),
    {
        let kl = key.as_bytes().len();
        let vl = value.as_bytes().len();
        if kl > usize::MAX - 24 || vl > usize::MAX - 24 - kl {
            return false;
        }
        let size = 24 + kl + vl;
        if size as u64 > u64::MAX - self.pos {
            return false;
        }
        true
    }

    /// Points `key` at a new record of `value` written at `timestamp`, placed
    /// at the end of the log, and returns that record: the bytes to append.
    pub fn set(&mut self, key: String, value: String, timestamp: u64) -> (record: Vec<u8>)
        requires
            old(self).wf(),
            record_size(key@, value@) <= usize::MAX,
            old(self).position() + record_size(key@, value@)
                <= u64::MAX,
        ensures
            final(self).wf(),
            record@ == record_bytes(timestamp, encode_utf8(key@), encode_utf8(value@)),
            final(self)@ == old(self)@.insert(key@, value@),
            final(self).locations() == old(self).locations().insert(
                key@,
                Value {
                    offset_position: old(self).position(),
                    size: record@.len() as usize,
                    file_id: FILE_ID,
                    timestamp,
                },
            ),
            final(self).log() == old(self).log() + record@,
            final(self).position() == old(self).position() + record@.len(),
            final(self).dir() == old(self).dir(),
    {
        let record = encode_record(timestamp, key.as_str().as_bytes(), value.as_str().as_bytes());
        let location = Value {
            offset_position: self.pos,
            size: record.len(),
            file_id: FILE_ID,
            timestamp,
        };
        self.store.insert(key.as_str(), location);
        let ghost old_log = self.log@;
        self.log = Ghost(old_log + record@);
        self.contents = Ghost(self.contents@.insert(key@, value@));
        self.pos = self.pos + record.len() as u64;
        proof {
            assert(self.store@.dom() =~= self.contents@.dom());
            assert forall|k: Seq<char>| #[trigger] self.contents@.contains_key(k) implies self.holds(k) by {
                if k == key@ {
                    assert(self.record_of(k) =~= record@);
                } else {
                    assert(old(self).holds(k));
                    assert(self.record_of(k) =~= old(self).record_of(k));
                }
            }
        }
        record
    }

    /// Where to read `key`'s latest record, if the key was set.
    pub fn locate(&self, key: &str) -> (r: Option<Value>)
        requires
            self.wf(),
        ensures
            r is Some <==> self@.contains_key(key@),
            r matches Some(v) ==> v == self.locations()[key@],
    {
        self.store.get(key)
    }
}

/// A read gives back what the last write wrote: the bytes that a key's
/// location points at are a record whose value bytes encode the key's
/// current value.
pub proof fn lemma_read_back(store: &KvStore, key: Seq<char>)
    requires
        store.wf(),
        store@.contains_key(key),
    ensures
        record_value(store.record_of(key)) == Some(encode_utf8(store@[key])),
        decode_utf8(encode_utf8(store@[key])) == store@[key],
{
    assert(store.holds(key));
    let v = store.locations()[key];
    let kb = encode_utf8(key);
    let vb = encode_utf8(store@[key]);
    assert(store.record_of(key).len() == v.size);
    lemma_record_roundtrip(v.timestamp, kb, vb);
    encode_utf8_decode_utf8(store@[key]);
}

} // verus!
