//! The index side of a Bitcask-style store: data files are append-only logs
//! of records, and an in-memory key directory says where each key's latest
//! record lies. Opening files, writing and reading bytes happen outside; the
//! store is told what was appended and answers where to read.

use vstd::prelude::*;
use vstd::string::*;
use vstd::utf8::*;

use crate::keydir::{KeyDir, Value};
use crate::record::{record_bytes, record_size, record_value, lemma_record_roundtrip};

verus! {

/// Once the active file has grown past this many bytes, the next write
/// starts a new file.
pub const MAX_FILE_SIZE: u64 = 1048576;

#[verifier::external_type_specification]
#[verifier::external_body]
pub struct ExIoError(std::io::Error);

#[verifier::external_type_specification]
#[verifier::external_body]
pub struct ExFromUtf8Error(std::string::FromUtf8Error);

/// What a store operation can fail with.
pub enum KvsError {
    Io(std::io::Error),
    LockPoisoned,
    KeyNotFound,
}

impl From<std::io::Error> for KvsError {
    fn from(value: std::io::Error) -> (r: Self) {
        KvsError::Io(value)
    }
}

impl vstd::std_specs::convert::FromSpecImpl<std::io::Error> for KvsError {
    open spec fn obeys_from_spec() -> bool {
        true
    }

    open spec fn from_spec(value: std::io::Error) -> Self {
        KvsError::Io(value)
    }
}

/// Calls `String::from_utf8`. Its documentation says it succeeds exactly when
/// the bytes are valid UTF-8, and that the string then holds those bytes, so
/// its characters are their decoding.
#[verifier::external_body]
fn string_from_utf8(bytes: Vec<u8>) -> (r: Result<String, std::string::FromUtf8Error>)
    ensures
        r is Ok <==> valid_utf8(bytes@),
        r matches Ok(s) ==> s@ == decode_utf8(bytes@),
{
    String::from_utf8(bytes)
}

/// Calls `std::io::Error::new` with `ErrorKind::InvalidData`. Nothing is
/// claimed of the error it builds.
#[verifier::external_body]
fn invalid_data_error(e: std::string::FromUtf8Error) -> std::io::Error {
    std::io::Error::new(std::io::ErrorKind::InvalidData, e)
}

/// Calls `to_string` on an I/O error, that is its `Display` text. Nothing is
/// claimed of that text.
#[verifier::external_body]
fn io_error_text(e: &std::io::Error) -> String {
    e.to_string()
}

/// `m` is a message for `e`: `lock poisoned`, `key not found`, or `IO
/// error: ` followed by the I/O error's own text.
pub open spec fn describes(e: KvsError, m: Seq<char>) -> bool {
    match e {
        KvsError::LockPoisoned => m == "lock poisoned"@,
        KvsError::KeyNotFound => m == "key not found"@,
        KvsError::Io(_) => m.len() >= "IO error: "@.len() && m.subrange(0, "IO error: "@.len() as int)
            == "IO error: "@,
    }
}

/// The message of an I/O error whose own text is `text`: `IO error: `
/// followed by `text`.
pub fn io_message(text: &str) -> (r: String)
    ensures
        r@ == "IO error: "@ + text@,
{
    let mut s = "IO error: ".to_owned();
    s.append(text);
    s
}

impl KvsError {
    /// The error's message: `IO error: ` and the I/O error's own text,
    /// `lock poisoned`, or `key not found`.
    pub fn describe(&self) -> (r: String)
        ensures
            describes(*self, r@),
    {
        match self {
            KvsError::Io(e) => {
                let text = io_error_text(e);
                let s = io_message(text.as_str());
                assert(s@.subrange(0, "IO error: "@.len() as int) =~= "IO error: "@);
                s
            },
            KvsError::LockPoisoned => "lock poisoned".to_owned(),
            KvsError::KeyNotFound => "key not found".to_owned(),
        }
    }
}

/// The value held in a record's value bytes: the UTF-8 text they encode, or
/// an I/O error of kind `InvalidData` where they are not valid UTF-8.
pub fn value_string(bytes: Vec<u8>) -> (r: Result<String, KvsError>)
    ensures
        r is Ok <==> valid_utf8(bytes@),
        r matches Ok(s) ==> s@ == decode_utf8(bytes@),
        r matches Err(e) ==> e is Io,
{
    match string_from_utf8(bytes) {
        Ok(s) => Ok(s),
        Err(e) => Err(KvsError::Io(invalid_data_error(e))),
    }
}

/// The in-memory state of a store: its directory, its key directory, the
/// active file being appended to and the data files open for reading.
pub struct KvStore {
    dir_path: String,
    store: KeyDir,
    active_pos: u64,
    active_file_id: u64,
    files: Vec<u64>,
    logs: Ghost<Map<u64, Seq<u8>>>,
    contents: Ghost<Map<Seq<char>, Seq<char>>>,
}

impl KvStore {
    /// The keys and their values.
    pub closed spec fn view(&self) -> Map<Seq<char>, Seq<char>> {
        self.contents@
    }

    /// The bytes appended to each data file through this store.
    pub closed spec fn logs(&self) -> Map<u64, Seq<u8>> {
        self.logs@
    }

    /// Where the latest record of each key lies.
    pub closed spec fn locations(&self) -> Map<Seq<char>, Value> {
        self.store@
    }

    /// The file that writes go to.
    pub closed spec fn active_file(&self) -> u64 {
        self.active_file_id
    }

    /// The length of the active file.
    pub closed spec fn position(&self) -> u64 {
        self.active_pos
    }

    /// The store's directory.
    pub closed spec fn dir(&self) -> Seq<char> {
        self.dir_path@
    }

    /// The bytes that the location of `key` points at.
    pub open spec fn record_of(&self, key: Seq<char>) -> Seq<u8> {
        let v = self.locations()[key];
        self.logs()[v.file_id].subrange(
            v.offset_position as int,
            v.offset_position + v.size,
        )
    }

    /// The record of `key` is in its file and holds `key` and its value.
    pub open spec fn holds(&self, key: Seq<char>) -> bool {
        let v = self.locations()[key];
        &&& self.logs().contains_key(v.file_id)
        &&& v.offset_position + v.size <= self.logs()[v.file_id].len()
        &&& self.record_of(key) == record_bytes(
            v.timestamp,
            encode_utf8(key),
            encode_utf8(self@[key]),
        )
    }

    /// The state agrees with itself: every key's location holds a record of
    /// its current value, and the active file's length is the write position.
    pub closed spec fn wf(&self) -> bool {
        &&& self.store.wf()
        &&& self.store@.dom() == self.contents@.dom()
        &&& self.logs@.contains_key(self.active_file_id)
        &&& self.logs@[self.active_file_id].len() == self.active_pos
        &&& forall|f: u64| self.logs@.contains_key(f) <==> self.files@.contains(f)
        &&& forall|k: Seq<char>| #[trigger] self.contents@.contains_key(k) ==> self.holds(k)
    }

    /// A store over the directory `path` whose first data file, still empty,
    /// is `file_id`.
    pub fn new(path: &str, file_id: u64) -> (s: KvStore)
        ensures
            s.wf(),
            s@ == Map::<Seq<char>, Seq<char>>::empty(),
            s.logs() == Map::<u64, Seq<u8>>::empty().insert(file_id, Seq::<u8>::empty()),
            s.active_file() == file_id,
            s.position() == 0,
            s.dir() == path@,
    {
        let mut files: Vec<u64> = Vec::new();
        files.push(file_id);
        let s = KvStore {
            dir_path: path.to_owned(),
            store: KeyDir::new(),
            active_pos: 0,
            active_file_id: file_id,
            files,
            logs: Ghost(Map::<u64, Seq<u8>>::empty().insert(file_id, Seq::<u8>::empty())),
            contents: Ghost(Map::<Seq<char>, Seq<char>>::empty()),
        };
        proof {
            assert(s.files@ =~= seq![file_id]);
            assert forall|f: u64| s.logs@.contains_key(f) <==> s.files@.contains(f) by {
                if f == file_id {
                    assert(s.files@[0] == f);
                }
            }
            assert(s.store@.dom() =~= s.contents@.dom());
        }
        s
    }

    /// The store's directory.
    pub fn dir_path(&self) -> (r: &str)
        ensures
            r@ == self.dir(),
    {
        self.dir_path.as_str()
    }

    /// The file that writes go to.
    pub fn active_file_id(&self) -> (r: u64)
        ensures
            r == self.active_file(),
    {
        self.active_file_id
    }

    /// The length of the active file.
    pub fn active_position(&self) -> (r: u64)
        ensures
            r == self.position(),
    {
        self.active_pos
    }

    /// Whether the next write must start a new file: the active file has
    /// grown past `MAX_FILE_SIZE`.
    pub fn needs_new_file(&self) -> (r: bool)
        ensures
            r == (self.position() > MAX_FILE_SIZE),
    {
        self.active_pos > MAX_FILE_SIZE
    }

    /// Whether `file_id` is one of the store's data files.
    pub fn has_file(&self, file_id: u64) -> (r: bool)
        requires
            self.wf(),
        ensures
            r == self.logs().contains_key(file_id),
    {
        let mut i: usize = 0;
        while i < self.files.len()
            invariant
                i <= self.files@.len(),
                forall|j: int| 0 <= j < i ==> self.files@[j] != file_id,
                self.wf(),
            decreases self.files@.len() - i,
        {
            if self.files[i] == file_id {
                assert(self.files@.contains(file_id));
                return true;
            }
            i = i + 1;
        }
        false
    }

    /// Makes the new, empty file `file_id` the active one; earlier files stay
    /// readable.
    pub fn start_file(&mut self, file_id: u64)
        requires
            old(self).wf(),
            !old(self).logs().contains_key(file_id),
        ensures
            final(self).wf(),
            final(self)@ == old(self)@,
            final(self).locations() == old(self).locations(),
            final(self).logs() == old(self).logs().insert(file_id, Seq::<u8>::empty()),
            final(self).active_file() == file_id,
            final(self).position() == 0,
            final(self).dir() == old(self).dir(),
    {
        self.files.push(file_id);
        self.active_file_id = file_id;
        self.active_pos = 0;
        let ghost logs = self.logs@.insert(file_id, Seq::<u8>::empty());
        self.logs = Ghost(logs);
        proof {
            assert forall|f: u64| self.logs@.contains_key(f) <==> self.files@.contains(f) by {
                if f == file_id {
                    assert(self.files@[self.files@.len() - 1] == f);
                } else if old(self).files@.contains(f) {
                    let j = choose|j: int| 0 <= j < old(self).files@.len() && old(self).files@[j] == f;
                    assert(self.files@[j] == f);
                } else if self.files@.contains(f) {
                    let j = choose|j: int| 0 <= j < self.files@.len() && self.files@[j] == f;
                    assert(old(self).files@[j] == f);
                }
            }
            assert forall|k: Seq<char>| #[trigger] self.contents@.contains_key(k) implies self.holds(k) by {
                assert(old(self).holds(k));
            }
        }
    }

    /// Whether a record for `key` and `value` fits: its length fits a `usize`
    /// and the active file's length after it fits a `u64`.
    pub fn has_room_for(&self, key: &str, value: &str) -> (r: bool)
        ensures
            r == (record_size(key@, value@) <= usize::MAX && self.position() + record_size(key@, value@)
                <= u64::MAX),
    {
        let kl = key.as_bytes().len();
        let vl = value.as_bytes().len();
        if kl > usize::MAX - 24 || vl > usize::MAX - 24 - kl {
            return false;
        }
        let size = 24 + kl + vl;
        if size as u64 > u64::MAX - self.active_pos {
            return false;
        }
        true
    }

    /// Sets `key` to `value` at `timestamp` in the index: the record for
    /// them, appended to the active file (its bytes are `encode_record`'s),
    /// is where the key now points, and the write position moves past it.
    /// The store stays consistent.
    pub fn set(&mut self, key: &str, value: &str, timestamp: u64)
        requires
            old(self).wf(),
            record_size(key@, value@) <= usize::MAX,
            old(self).position() + record_size(key@, value@) <= u64::MAX,
        ensures
            final(self).wf(),
            final(self)@ == old(self)@.insert(key@, value@),
            final(self).locations() == old(self).locations().insert(
                key@,
                Value {
                    offset_position: old(self).position(),
                    size: record_size(key@, value@) as usize,
                    file_id: old(self).active_file(),
                    timestamp,
                },
            ),
            final(self).logs() == old(self).logs().insert(
                old(self).active_file(),
                old(self).logs()[old(self).active_file()] + record_bytes(
                    timestamp,
                    key.spec_bytes(),
                    value.spec_bytes(),
                ),
            ),
            final(self).active_file() == old(self).active_file(),
            final(self).position() == old(self).position() + record_size(key@, value@),
            final(self).dir() == old(self).dir(),
    {
        let size = 24 + key.as_bytes().len() + value.as_bytes().len();
        let location = Value {
            offset_position: self.active_pos,
            size,
            file_id: self.active_file_id,
            timestamp,
        };
        self.store.insert(key, location);
        let ghost rec = record_bytes(timestamp, key.spec_bytes(), value.spec_bytes());
        let ghost fid = self.active_file_id;
        let ghost old_log = self.logs@[fid];
        self.logs = Ghost(self.logs@.insert(fid, old_log + rec));
        self.contents = Ghost(self.contents@.insert(key@, value@));
        self.active_pos = self.active_pos + size as u64;
        proof {
            assert(self.store@.dom() =~= self.contents@.dom());
            assert forall|k: Seq<char>| #[trigger] self.contents@.contains_key(k) implies self.holds(k) by {
                if k == key@ {
                    assert(self.record_of(k) =~= rec);
                } else {
                    assert(old(self).holds(k));
                    let v = old(self).locations()[k];
                    if v.file_id == fid {
                        assert(self.record_of(k) =~= old(self).record_of(k));
                    }
                }
            }
        }
    }

    /// Where to read `key`'s latest record, or `KeyNotFound`.
    pub fn locate(&self, key: &str) -> (r: Result<Value, KvsError>)
        requires
            self.wf(),
        ensures
            r is Ok <==> self@.contains_key(key@),
            r matches Ok(v) ==> v == self.locations()[key@],
            r matches Err(e) ==> e is KeyNotFound,
    {
        match self.store.get(key) {
            Some(v) => Ok(v),
            None => Err(KvsError::KeyNotFound),
        }
    }
}

/// A read gives back what the last write wrote: in a consistent store, the
/// bytes that a key's location points at are a record whose value bytes are
/// the UTF-8 encoding of the key's current value, and decoding them gives
/// that value back.
pub proof fn lemma_read_back(store: &KvStore, key: Seq<char>)
    requires
        store.wf(),
        store@.contains_key(key),
    ensures
        record_value(store.record_of(key)) == Some(encode_utf8(store@[key])),
        valid_utf8(encode_utf8(store@[key])),
        decode_utf8(encode_utf8(store@[key])) == store@[key],
{
    assert(store.holds(key));
    let v = store.locations()[key];
    let kb = encode_utf8(key);
    let vb = encode_utf8(store@[key]);
    assert(store.record_of(key).len() == v.size);
    assert(record_bytes(v.timestamp, kb, vb).len() == 24 + kb.len() + vb.len());
    lemma_record_roundtrip(v.timestamp, kb, vb);
    encode_utf8_valid_utf8(store@[key]);
    encode_utf8_decode_utf8(store@[key]);
}

} // verus!
