use vstd::prelude::*;
use vstd::string::StringExecFns;

use crate::codec::{
    decode_command, encode_command, lemma_parse_record, lemma_parse_record_sound, lemma_skip_skip,
    parse_record, push_all, record_bytes, skip, Command, CommandModel,
};
use crate::paths::strictly_ascending;

verus! {

/// Stale bytes above which the log is compacted.
pub const COMPACTION_THRESHOLD: u64 = 1048576;

/// Where a record lies: the generation of its segment, its offset there, and
/// its length in bytes.
#[derive(Clone, Copy, Debug, PartialEq, Eq)]
pub struct LogPointer {
    pub log_gen: u64,
    pub pos: u64,
    pub len: u64,
}

/// The ways an operation of the store fails.
#[derive(Debug)]
pub enum KvStoreError {
    /// A file or socket operation failed.
    IoErr(std::io::Error),
    /// Bytes that should hold records do not.
    DecodeErr,
    /// `remove` of a key that the store does not hold.
    UnknownKeyError,
    /// A pointer of the index leads to a record that is not a `Set`.
    UnexpectedCommandType,
    /// An error of another backend, or of the other end of a connection.
    StringError(String),
    /// A segment would outgrow 64-bit offsets.
    LogFull,
    /// No generation is left for a new segment.
    GenerationsExhausted,
}

/// `Malformed record`
pub open spec fn malformed_record_text() -> Seq<char> {
    seq!['M', 'a', 'l', 'f', 'o', 'r', 'm', 'e', 'd', ' ', 'r', 'e', 'c', 'o', 'r', 'd']
}

/// `Key not found`
pub open spec fn key_not_found_text() -> Seq<char> {
    seq!['K', 'e', 'y', ' ', 'n', 'o', 't', ' ', 'f', 'o', 'u', 'n', 'd']
}

/// `Unexpected command`
pub open spec fn unexpected_command_text() -> Seq<char> {
    seq!['U', 'n', 'e', 'x', 'p', 'e', 'c', 't', 'e', 'd', ' ', 'c', 'o', 'm', 'm', 'a', 'n', 'd']
}

/// `Log segment full`
pub open spec fn log_full_text() -> Seq<char> {
    seq!['L', 'o', 'g', ' ', 's', 'e', 'g', 'm', 'e', 'n', 't', ' ', 'f', 'u', 'l', 'l']
}

/// `No generation left for a new segment`
pub open spec fn generations_exhausted_text() -> Seq<char> {
    seq!['N', 'o', ' ', 'g', 'e', 'n', 'e', 'r', 'a', 't', 'i', 'o', 'n', ' ', 'l', 'e', 'f', 't', ' ', 'f', 'o', 'r', ' ', 'a', ' ', 'n', 'e', 'w', ' ', 's', 'e', 'g', 'm', 'e', 'n', 't']
}

/// The text of an error, as the protocol and the command line show it.
pub fn error_text(e: &KvStoreError) -> (r: String)
    ensures
        match e {
            KvStoreError::DecodeErr => r@ == malformed_record_text(),
            KvStoreError::UnknownKeyError => r@ == key_not_found_text(),
            KvStoreError::UnexpectedCommandType => r@ == unexpected_command_text(),
            KvStoreError::StringError(s) => r@ == s@,
            KvStoreError::LogFull => r@ == log_full_text(),
            KvStoreError::GenerationsExhausted => r@ == generations_exhausted_text(),
            KvStoreError::IoErr(_) => true,
        },
{
    match e {
        KvStoreError::IoErr(err) => err.to_string(),
        KvStoreError::StringError(s) => s.clone(),
        KvStoreError::DecodeErr => {
            proof {
                reveal_strlit("Malformed record");
            }
            let r = String::from_str("Malformed record");
            assert(r@ =~= malformed_record_text());
            r
        },
        KvStoreError::UnknownKeyError => {
            proof {
                reveal_strlit("Key not found");
            }
            let r = String::from_str("Key not found");
            assert(r@ =~= key_not_found_text());
            r
        },
        KvStoreError::UnexpectedCommandType => {
            proof {
                reveal_strlit("Unexpected command");
            }
            let r = String::from_str("Unexpected command");
            assert(r@ =~= unexpected_command_text());
            r
        },
        KvStoreError::LogFull => {
            proof {
                reveal_strlit("Log segment full");
            }
            let r = String::from_str("Log segment full");
            assert(r@ =~= log_full_text());
            r
        },
        KvStoreError::GenerationsExhausted => {
            proof {
                reveal_strlit("No generation left for a new segment");
            }
            let r = String::from_str("No generation left for a new segment");
            assert(r@ =~= generations_exhausted_text());
            r
        },
    }
}

/// `std::io::Error`, which `KvStoreError::IoErr` carries without looking inside.
#[verifier::external_type_specification]
#[verifier::external_body]
pub struct ExIoError(std::io::Error);

// ---------------------------------------------------------------------------
// The model: what the segments hold, and what they mean.

/// The bytes of a sequence of records, written one after another.
pub open spec fn flatten(cs: Seq<CommandModel>) -> Seq<u8>
    decreases cs.len(),
{
    if cs.len() == 0 {
        seq![]
    } else {
        flatten(cs.drop_last()) + record_bytes(cs.last())
    }
}

pub open spec fn apply_command(m: Map<Seq<char>, Seq<char>>, c: CommandModel) -> Map<Seq<char>, Seq<char>> {
    match c {
        CommandModel::Put { key, value } => m.insert(key, value),
        CommandModel::Remove { key } => m.remove(key),
    }
}

/// The contents that a sequence of records leaves, starting from `m`.
pub open spec fn apply_commands(m: Map<Seq<char>, Seq<char>>, cs: Seq<CommandModel>) -> Map<Seq<char>, Seq<char>>
    decreases cs.len(),
{
    if cs.len() == 0 {
        m
    } else {
        apply_command(apply_commands(m, cs.drop_last()), cs.last())
    }
}

/// The contents that segments holding these records leave, oldest first.
pub open spec fn apply_logs(ls: Seq<Seq<CommandModel>>) -> Map<Seq<char>, Seq<char>>
    decreases ls.len(),
{
    if ls.len() == 0 {
        Map::empty()
    } else {
        apply_commands(apply_logs(ls.drop_last()), ls.last())
    }
}

/// The records that a segment holds, when it is nothing but whole records.
#[verifier::opaque]
pub open spec fn parse_segment(b: Seq<u8>) -> Option<Seq<CommandModel>>
    decreases b.len(),
{
    if b.len() == 0 {
        Some(seq![])
    } else {
        match parse_record(b) {
            Some((c, n)) => if 0 < n <= b.len() {
                match parse_segment(skip(b, n)) {
                    Some(cs) => Some(seq![c] + cs),
                    None => None,
                }
            } else {
                None
            },
            None => None,
        }
    }
}

/// The contents that recovery finds in segments, oldest first, or `None`
/// where one of them is not a sequence of whole records.
pub open spec fn replay_segments(segs: Seq<Seq<u8>>) -> Option<Map<Seq<char>, Seq<char>>>
    decreases segs.len(),
{
    if segs.len() == 0 {
        Some(Map::empty())
    } else {
        match (replay_segments(segs.drop_last()), parse_segment(segs.last())) {
            (Some(m), Some(cs)) => Some(apply_commands(m, cs)),
            _ => None,
        }
    }
}

/// The bytes at `p` in the segment files `files`.
pub open spec fn bytes_at(files: Map<u64, Seq<u8>>, p: LogPointer) -> Seq<u8> {
    files[p.log_gen].subrange(p.pos as int, p.pos + p.len)
}

pub open spec fn points_to(files: Map<u64, Seq<u8>>, p: LogPointer, bytes: Seq<u8>) -> bool {
    &&& files.contains_key(p.log_gen)
    &&& p.pos + p.len <= files[p.log_gen].len()
    &&& bytes_at(files, p) == bytes
}

pub open spec fn keydir_has(kd: Seq<(String, LogPointer)>, k: Seq<char>) -> bool {
    exists|i: int| 0 <= i < kd.len() && (#[trigger] kd[i]).0@ == k
}

/// The pointer of the entry for `k`.
pub open spec fn keydir_pointer(kd: Seq<(String, LogPointer)>, k: Seq<char>) -> LogPointer {
    let i = choose|i: int| 0 <= i < kd.len() && (#[trigger] kd[i]).0@ == k;
    kd[i].1
}

/// An index as a map from each key it holds to its pointer.
pub open spec fn keydir_index(kd: Seq<(String, LogPointer)>) -> Map<Seq<char>, LogPointer> {
    Map::new(|k: Seq<char>| keydir_has(kd, k), |k: Seq<char>| keydir_pointer(kd, k))
}

pub open spec fn keydir_unique(kd: Seq<(String, LogPointer)>) -> bool {
    forall|i: int, j: int| 0 <= i < kd.len() && 0 <= j < kd.len() && i != j ==> (#[trigger] kd[i]).0@ != (#[trigger] kd[j]).0@
}

/// Every entry of the index points to a `Set` record of its key and current
/// value, and the index holds exactly the keys that have a value.
pub open spec fn keydir_ok(
    kd: Seq<(String, LogPointer)>,
    values: Map<Seq<char>, Seq<char>>,
    files: Map<u64, Seq<u8>>,
) -> bool {
    &&& keydir_unique(kd)
    &&& forall|k: Seq<char>| values.contains_key(k) <==> keydir_has(kd, k)
    &&& forall|i: int|
        0 <= i < kd.len() ==> points_to(
            files,
            (#[trigger] kd[i]).1,
            record_bytes(CommandModel::Put { key: kd[i].0@, value: values[kd[i].0@] }),
        )
}

/// Every entry of `kd2` is an entry of `kd1`.
pub open spec fn entries_from(kd2: Seq<(String, LogPointer)>, kd1: Seq<(String, LogPointer)>) -> bool {
    forall|i: int| 0 <= i < kd2.len() ==> kd1.contains(#[trigger] kd2[i])
}

/// Each file of `f2` starts with what the same file of `f1` holds.
pub open spec fn files_grow(f1: Map<u64, Seq<u8>>, f2: Map<u64, Seq<u8>>) -> bool {
    forall|g: u64|
        f1.contains_key(g) ==> f2.contains_key(g) && f1[g].len() <= f2[g].len() && #[trigger] f2[g].subrange(
            0,
            f1[g].len() as int,
        ) == f1[g]
}

/// The in-memory part of the log-structured store: the index from each key to
/// the record of its current value, the live segments, and the position of the
/// writer in the active one. The segment files themselves are read and written
/// by the caller; `files` is what they hold.
pub struct KvStore {
    keydir: Vec<(String, LogPointer)>,
    readers: Vec<u64>,
    log_gen: u64,
    log_pos: u64,
    stale_logs_size: u64,
    files: Ghost<Map<u64, Seq<u8>>>,
    logs: Ghost<Map<u64, Seq<CommandModel>>>,
    values: Ghost<Map<Seq<char>, Seq<char>>>,
}

impl View for KvStore {
    type V = Map<Seq<char>, Seq<char>>;

    /// The value of each key that the store holds.
    closed spec fn view(&self) -> Map<Seq<char>, Seq<char>> {
        self.values@
    }
}

impl KvStore {
    /// The live segments' generations, oldest first; the last is the active one.
    pub closed spec fn generations(&self) -> Seq<u64> {
        self.readers@
    }

    /// What the segment file of each live generation holds.
    pub closed spec fn files(&self) -> Map<u64, Seq<u8>> {
        self.files@
    }

    pub closed spec fn active(&self) -> u64 {
        self.log_gen
    }

    pub closed spec fn stale(&self) -> u64 {
        self.stale_logs_size
    }

    /// The index, in its order.
    pub closed spec fn entries(&self) -> Seq<(String, LogPointer)> {
        self.keydir@
    }

    /// The live segments' contents, oldest first.
    pub open spec fn segments(&self) -> Seq<Seq<u8>> {
        self.generations().map_values(|g: u64| self.files()[g])
    }

    /// The pointer that the index holds for `k`.
    pub open spec fn pointer_of(&self, k: Seq<char>) -> LogPointer {
        keydir_pointer(self.entries(), k)
    }

    /// The index as a map from each key it holds to its pointer.
    pub open spec fn index(&self) -> Map<Seq<char>, LogPointer> {
        keydir_index(self.entries())
    }

    pub closed spec fn log_seq(&self) -> Seq<Seq<CommandModel>> {
        self.readers@.map_values(|g: u64| self.logs@[g])
    }

    pub closed spec fn wf(&self) -> bool {
        &&& strictly_ascending(self.readers@)
        &&& self.readers@.len() > 0
        &&& self.readers@.last() == self.log_gen
        &&& forall|g: u64| self.files@.contains_key(g) <==> self.readers@.contains(g)
        &&& forall|g: u64| self.readers@.contains(g) ==> #[trigger] self.logs@.contains_key(g)
        &&& forall|g: u64| self.readers@.contains(g) ==> #[trigger] self.files@[g] == flatten(self.logs@[g])
        &&& self.log_pos == self.files@[self.log_gen].len()
        &&& self.values@ == apply_logs(self.log_seq())
        &&& keydir_ok(self.keydir@, self.values@, self.files@)
    }
}

// ---------------------------------------------------------------------------
// The index.

fn keydir_find(kd: &Vec<(String, LogPointer)>, key: &String) -> (r: Option<usize>)
    ensures
        match r {
            Some(i) => i < kd@.len() && kd@[i as int].0@ == key@,
            None => !keydir_has(kd@, key@),
        },
{
    let mut i: usize = 0;
    while i < kd.len()
        invariant
            i <= kd@.len(),
            forall|j: int| 0 <= j < i ==> (#[trigger] kd@[j]).0@ != key@,
        decreases kd.len() - i,
    {
        if kd[i].0 == *key {
            return Some(i);
        }
        i += 1;
    }
    None
}

/// Points `key` at `ptr`; returns the pointer it replaced.
fn keydir_put(kd: &mut Vec<(String, LogPointer)>, key: String, ptr: LogPointer) -> (r: Option<
    LogPointer,
>)
    requires
        keydir_unique(old(kd)@),
    ensures
        keydir_unique(final(kd)@),
        forall|k: Seq<char>| keydir_has(final(kd)@, k) <==> (keydir_has(old(kd)@, k) || k == key@),
        forall|i: int|
            0 <= i < final(kd)@.len() && (#[trigger] final(kd)@[i]).0@ == key@ ==> final(kd)@[i].1
                == ptr,
        forall|i: int|
            0 <= i < final(kd)@.len() && (#[trigger] final(kd)@[i]).0@ != key@ ==> old(kd)@.contains(
                final(kd)@[i],
            ),
        match r {
            Some(p) => exists|j: int|
                0 <= j < old(kd)@.len() && (#[trigger] old(kd)@[j]).0@ == key@ && old(kd)@[j].1 == p,
            None => !keydir_has(old(kd)@, key@),
        },
{
    let found = keydir_find(kd, &key);
    let ghost kd0 = kd@;
    match found {
        Some(i) => {
            let prev = kd[i].1;
            kd.set(i, (key, ptr));
            assert forall|k: Seq<char>| keydir_has(kd@, k) <==> (keydir_has(kd0, k) || k == key@) by {
                if keydir_has(kd0, k) {
                    let j = choose|j: int| 0 <= j < kd0.len() && (#[trigger] kd0[j]).0@ == k;
                    assert(kd@[j].0@ == k);
                }
                if keydir_has(kd@, k) {
                    let j = choose|j: int| 0 <= j < kd@.len() && (#[trigger] kd@[j]).0@ == k;
                    if j != i {
                        assert(kd0[j].0@ == k);
                    }
                }
                if k == key@ {
                    assert(kd@[i as int].0@ == k);
                }
            }
            assert forall|a: int|
                0 <= a < kd@.len() && (#[trigger] kd@[a]).0@ != key@ implies kd0.contains(kd@[a]) by {
                assert(kd0[a] == kd@[a]);
            }
            Some(prev)
        },
        None => {
            kd.push((key, ptr));
            assert forall|k: Seq<char>| keydir_has(kd@, k) <==> (keydir_has(kd0, k) || k == key@) by {
                if keydir_has(kd0, k) {
                    let j = choose|j: int| 0 <= j < kd0.len() && (#[trigger] kd0[j]).0@ == k;
                    assert(kd@[j].0@ == k);
                }
                if keydir_has(kd@, k) {
                    let j = choose|j: int| 0 <= j < kd@.len() && (#[trigger] kd@[j]).0@ == k;
                    if j < kd0.len() {
                        assert(kd0[j].0@ == k);
                    }
                }
                if k == key@ {
                    assert(kd@[kd0.len() as int].0@ == k);
                }
            }
            assert forall|a: int|
                0 <= a < kd@.len() && (#[trigger] kd@[a]).0@ != key@ implies kd0.contains(kd@[a]) by {
                assert(kd0[a] == kd@[a]);
            }
            None
        },
    }
}

/// Drops `key` from the index; returns its pointer, if it was there.
fn keydir_remove(kd: &mut Vec<(String, LogPointer)>, key: &String) -> (r: Option<LogPointer>)
    requires
        keydir_unique(old(kd)@),
    ensures
        keydir_unique(final(kd)@),
        forall|k: Seq<char>| keydir_has(final(kd)@, k) <==> (keydir_has(old(kd)@, k) && k != key@),
        entries_from(final(kd)@, old(kd)@),
        match r {
            Some(p) => exists|j: int|
                0 <= j < old(kd)@.len() && (#[trigger] old(kd)@[j]).0@ == key@ && old(kd)@[j].1 == p,
            None => !keydir_has(old(kd)@, key@) && final(kd)@ == old(kd)@,
        },
{
    let found = keydir_find(kd, key);
    let ghost kd0 = kd@;
    assert(kd0 == old(kd)@);
    match found {
        Some(i) => {
            let prev = kd[i].1;
            let ghost last = kd0.len() - 1;
            let _ = kd.swap_remove(i);
            assert forall|a: int| 0 <= a < kd@.len() implies kd0.contains(#[trigger] kd@[a]) by {
                if a == i {
                    assert(kd0[last] == kd@[a]);
                } else {
                    assert(kd0[a] == kd@[a]);
                }
            }
            assert forall|a: int, b: int|
                0 <= a < kd@.len() && 0 <= b < kd@.len() && a != b implies (#[trigger] kd@[a]).0@
                != (#[trigger] kd@[b]).0@ by {
                let ja = if a == i { last } else { a };
                let jb = if b == i { last } else { b };
                assert(kd0[ja] == kd@[a]);
                assert(kd0[jb] == kd@[b]);
            }
            assert forall|k: Seq<char>| keydir_has(kd@, k) <==> (keydir_has(kd0, k) && k != key@) by {
                if keydir_has(kd0, k) && k != key@ {
                    let j = choose|j: int| 0 <= j < kd0.len() && (#[trigger] kd0[j]).0@ == k;
                    if j == last {
                        assert(kd@[i as int].0@ == k);
                    } else {
                        assert(kd@[j].0@ == k);
                    }
                }
                if keydir_has(kd@, k) {
                    let a = choose|a: int| 0 <= a < kd@.len() && (#[trigger] kd@[a]).0@ == k;
                    let ja = if a == i { last } else { a };
                    assert(kd0[ja] == kd@[a]);
                    assert(ja != i);
                }
            }
            assert(entries_from(kd@, kd0));
            Some(prev)
        },
        None => {
            assert forall|a: int| 0 <= a < kd@.len() implies kd0.contains(#[trigger] kd@[a]) by {
                assert(kd0[a] == kd@[a]);
            }
            assert(entries_from(kd@, kd0));
            None
        },
    }
}

proof fn lemma_keydir_pointer(kd: Seq<(String, LogPointer)>, i: int)
    requires
        keydir_unique(kd),
        0 <= i < kd.len(),
    ensures
        keydir_pointer(kd, kd[i].0@) == kd[i].1,
{
    let k = kd[i].0@;
    assert(kd[i].0@ == k);
    let j = choose|j: int| 0 <= j < kd.len() && (#[trigger] kd[j]).0@ == k;
    assert(j == i);
}

proof fn lemma_index_after_put(
    kd0: Seq<(String, LogPointer)>,
    kd1: Seq<(String, LogPointer)>,
    key: Seq<char>,
    ptr: LogPointer,
)
    requires
        keydir_unique(kd0),
        keydir_unique(kd1),
        forall|k: Seq<char>| keydir_has(kd1, k) <==> (keydir_has(kd0, k) || k == key),
        forall|i: int| 0 <= i < kd1.len() && (#[trigger] kd1[i]).0@ == key ==> kd1[i].1 == ptr,
        forall|i: int| 0 <= i < kd1.len() && (#[trigger] kd1[i]).0@ != key ==> kd0.contains(kd1[i]),
    ensures
        keydir_index(kd1) == keydir_index(kd0).insert(key, ptr),
{
    assert forall|k: Seq<char>| #[trigger] keydir_index(kd1).contains_key(k) implies keydir_index(kd1)[k]
        == keydir_index(kd0).insert(key, ptr)[k] by {
        let i = choose|i: int| 0 <= i < kd1.len() && (#[trigger] kd1[i]).0@ == k;
        lemma_keydir_pointer(kd1, i);
        if k != key {
            assert(kd0.contains(kd1[i]));
            let j = choose|j: int| 0 <= j < kd0.len() && kd0[j] == kd1[i];
            lemma_keydir_pointer(kd0, j);
        }
    }
    assert(keydir_index(kd1) =~= keydir_index(kd0).insert(key, ptr));
}

proof fn lemma_index_after_remove(kd0: Seq<(String, LogPointer)>, kd1: Seq<(String, LogPointer)>, key: Seq<char>)
    requires
        keydir_unique(kd0),
        keydir_unique(kd1),
        forall|k: Seq<char>| keydir_has(kd1, k) <==> (keydir_has(kd0, k) && k != key),
        entries_from(kd1, kd0),
    ensures
        keydir_index(kd1) == keydir_index(kd0).remove(key),
{
    assert forall|k: Seq<char>| #[trigger] keydir_index(kd1).contains_key(k) implies keydir_index(kd1)[k]
        == keydir_index(kd0).remove(key)[k] by {
        let i = choose|i: int| 0 <= i < kd1.len() && (#[trigger] kd1[i]).0@ == k;
        lemma_keydir_pointer(kd1, i);
        assert(kd0.contains(kd1[i]));
        let j = choose|j: int| 0 <= j < kd0.len() && kd0[j] == kd1[i];
        lemma_keydir_pointer(kd0, j);
    }
    assert(keydir_index(kd1) =~= keydir_index(kd0).remove(key));
}

/// The pointer that `keydir_put` or `keydir_remove` hands back is the one the
/// index held for the key.
proof fn lemma_prev_pointer(kd0: Seq<(String, LogPointer)>, key: Seq<char>, p: LogPointer)
    requires
        keydir_unique(kd0),
        exists|j: int| 0 <= j < kd0.len() && (#[trigger] kd0[j]).0@ == key && kd0[j].1 == p,
    ensures
        keydir_index(kd0).contains_key(key),
        keydir_index(kd0)[key] == p,
{
    let j = choose|j: int| 0 <= j < kd0.len() && (#[trigger] kd0[j]).0@ == key && kd0[j].1 == p;
    lemma_keydir_pointer(kd0, j);
}

// ---------------------------------------------------------------------------
// Facts of the model.

proof fn lemma_flatten_push(cs: Seq<CommandModel>, c: CommandModel)
    ensures
        flatten(cs.push(c)) == flatten(cs) + record_bytes(c),
{
    assert(cs.push(c).drop_last() =~= cs);
}

proof fn lemma_apply_push(m: Map<Seq<char>, Seq<char>>, cs: Seq<CommandModel>, c: CommandModel)
    ensures
        apply_commands(m, cs.push(c)) == apply_command(apply_commands(m, cs), c),
{
    assert(cs.push(c).drop_last() =~= cs);
}

proof fn lemma_points_to_grow(f1: Map<u64, Seq<u8>>, f2: Map<u64, Seq<u8>>, p: LogPointer, b: Seq<u8>)
    requires
        files_grow(f1, f2),
        points_to(f1, p, b),
    ensures
        points_to(f2, p, b),
{
    let g = p.log_gen;
    assert(f2[g].subrange(0, f1[g].len() as int) == f1[g]);
    assert(bytes_at(f2, p) =~= bytes_at(f1, p)) by {
        assert forall|i: int| 0 <= i < p.len implies #[trigger] bytes_at(f2, p)[i] == bytes_at(f1, p)[i] by {
            assert(f2[g].subrange(0, f1[g].len() as int)[p.pos + i] == f2[g][p.pos + i]);
        }
    }
}

/// Appending a record to the active segment applies it to the contents.
proof fn lemma_log_seq_push(
    gens: Seq<u64>,
    logs: Map<u64, Seq<CommandModel>>,
    c: CommandModel,
)
    requires
        gens.len() > 0,
        strictly_ascending(gens),
        logs.contains_key(gens.last()),
    ensures
        apply_logs(gens.map_values(|g: u64| logs.insert(gens.last(), logs[gens.last()].push(c))[g]))
            == apply_command(apply_logs(gens.map_values(|g: u64| logs[g])), c),
{
    let a = gens.last();
    let l2 = logs.insert(a, logs[a].push(c));
    let s1 = gens.map_values(|g: u64| logs[g]);
    let s2 = gens.map_values(|g: u64| l2[g]);
    assert(s2.drop_last() =~= s1.drop_last()) by {
        assert forall|i: int| 0 <= i < s2.len() - 1 implies s2.drop_last()[i] == s1.drop_last()[i] by {
            assert(gens[i] < gens[gens.len() - 1]);
        }
    }
    assert(s2.last() == s1.last().push(c));
    lemma_apply_push(apply_logs(s1.drop_last()), s1.last(), c);
}

proof fn lemma_record_nonempty(c: CommandModel)
    ensures
        record_bytes(c).len() > 0,
{
    reveal(record_bytes);
    match c {
        CommandModel::Put { .. } => assert(record_bytes(c)[0] == 123u8),
        CommandModel::Remove { .. } => assert(record_bytes(c)[0] == 123u8),
    }
}

proof fn lemma_parse_segment_cons(c: CommandModel, t: Seq<u8>)
    ensures
        parse_segment(record_bytes(c) + t) == match parse_segment(t) {
            Some(ts) => Some(seq![c] + ts),
            None => None,
        },
{
    let rb = record_bytes(c);
    let t2 = rb + t;
    lemma_parse_record(c, t);
    lemma_record_nonempty(c);
    assert(skip(t2, rb.len() as int) =~= t);
    reveal(parse_segment);
}

#[verifier::rlimit(50)]
proof fn lemma_parse_segment_flatten(cs: Seq<CommandModel>, t: Seq<u8>)
    ensures
        parse_segment(flatten(cs) + t) == match parse_segment(t) {
            Some(ts) => Some(cs + ts),
            None => None,
        },
    decreases cs.len(),
{
    if cs.len() == 0 {
        assert(flatten(cs) + t =~= t);
        match parse_segment(t) {
            Some(ts) => assert(cs + ts =~= ts),
            None => {},
        }
    } else {
        let c = cs.last();
        let t2 = record_bytes(c) + t;
        assert(flatten(cs) + t =~= flatten(cs.drop_last()) + t2);
        lemma_parse_segment_flatten(cs.drop_last(), t2);
        lemma_parse_segment_cons(c, t);
        match parse_segment(t) {
            Some(ts) => {
                assert(cs.drop_last() + (seq![c] + ts) =~= cs + ts);
            },
            None => {},
        }
    }
}

/// What the live segments of a well-formed store replay to is its contents.
proof fn lemma_replay_logs(segs: Seq<Seq<u8>>, ls: Seq<Seq<CommandModel>>)
    requires
        segs.len() == ls.len(),
        forall|i: int| 0 <= i < segs.len() ==> #[trigger] segs[i] == flatten(ls[i]),
    ensures
        replay_segments(segs) == Some(apply_logs(ls)),
    decreases segs.len(),
{
    if segs.len() > 0 {
        lemma_replay_logs(segs.drop_last(), ls.drop_last());
        lemma_parse_segment_flatten(ls.last(), seq![]);
        assert(flatten(ls.last()) + Seq::<u8>::empty() =~= flatten(ls.last()));
        assert(parse_segment(Seq::<u8>::empty()) == Some(Seq::<CommandModel>::empty())) by {
            reveal(parse_segment);
        }
        assert(ls.last() + Seq::<CommandModel>::empty() =~= ls.last());
        assert(segs.last() == flatten(ls.last()));
    }
}

/// The record of a key, read in full, is the `Set` of its key and value.
pub open spec fn whole_record(b: Seq<u8>) -> Option<CommandModel> {
    match parse_record(b) {
        Some((c, n)) => if n == b.len() {
            Some(c)
        } else {
            None
        },
        None => None,
    }
}

proof fn lemma_whole_record(c: CommandModel)
    ensures
        whole_record(record_bytes(c)) == Some(c),
{
    lemma_parse_record(c, seq![]);
    assert(record_bytes(c) + Seq::<u8>::empty() =~= record_bytes(c));
}

fn add_saturating(a: u64, b: u64) -> (r: u64)
    ensures
        r == (if a + b > u64::MAX {
            u64::MAX as int
        } else {
            a + b
        }),
{
    if a > u64::MAX - b {
        u64::MAX
    } else {
        a + b
    }
}

/// Reads the value out of the bytes of one `Set` record.
pub fn read_value(record: &[u8]) -> (r: Result<String, KvStoreError>)
    ensures
        match whole_record(record@) {
            Some(CommandModel::Put { value, .. }) => r matches Ok(s) && s@ == value,
            Some(CommandModel::Remove { .. }) => r matches Err(KvStoreError::UnexpectedCommandType),
            None => r matches Err(KvStoreError::DecodeErr),
        },
{
    match decode_command(record, 0) {
        Some((c, n)) => {
            assert(skip(record@, 0) =~= record@);
            if n != record.len() {
                return Err(KvStoreError::DecodeErr);
            }
            match c {
                Command::Put { value, .. } => Ok(value),
                Command::Remove { .. } => Err(KvStoreError::UnexpectedCommandType),
            }
        },
        None => {
            assert(skip(record@, 0) =~= record@);
            Err(KvStoreError::DecodeErr)
        },
    }
}

// ---------------------------------------------------------------------------
// Operations.

impl KvStore {
    /// The files after `c` is appended to the active segment.
    pub open spec fn files_after(&self, c: CommandModel) -> Map<u64, Seq<u8>> {
        self.files().insert(self.active(), self.files()[self.active()] + record_bytes(c))
    }

    /// Whether the record `c` still fits in the active segment.
    pub open spec fn fits(&self, c: CommandModel) -> bool {
        self.files()[self.active()].len() + record_bytes(c).len() <= u64::MAX
    }

    /// Shows that appending `c` to the active segment, with the index, contents and
    /// files changed to match, keeps the store well formed.
    proof fn lemma_append(
        &self,
        c: CommandModel,
        new_logs: Map<u64, Seq<CommandModel>>,
        new_files: Map<u64, Seq<u8>>,
    )
        requires
            self.wf(),
            new_logs == self.logs@.insert(self.log_gen, self.logs@[self.log_gen].push(c)),
            new_files == self.files@.insert(self.log_gen, self.files@[self.log_gen] + record_bytes(c)),
        ensures
            files_grow(self.files@, new_files),
            forall|g: u64| new_files.contains_key(g) <==> self.readers@.contains(g),
            forall|g: u64| self.readers@.contains(g) ==> #[trigger] new_logs.contains_key(g),
            forall|g: u64| self.readers@.contains(g) ==> #[trigger] new_files[g] == flatten(new_logs[g]),
            apply_logs(self.readers@.map_values(|g: u64| new_logs[g])) == apply_command(self.values@, c),
    {
        let a = self.log_gen;
        assert(self.readers@.contains(a)) by {
            assert(self.readers@[self.readers@.len() - 1] == a);
        }
        lemma_flatten_push(self.logs@[a], c);
        assert forall|g: u64| self.files@.contains_key(g) implies new_files.contains_key(g)
            && self.files@[g].len() <= new_files[g].len() && #[trigger] new_files[g].subrange(
            0,
            self.files@[g].len() as int,
        ) == self.files@[g] by {
            if g == a {
                assert(new_files[g].subrange(0, self.files@[g].len() as int) =~= self.files@[g]);
            }
        }
        assert forall|g: u64| self.readers@.contains(g) implies #[trigger] new_logs.contains_key(g) by {
            assert(self.files@[g] == flatten(self.logs@[g]));
        }
        assert forall|g: u64| self.readers@.contains(g) implies #[trigger] new_files[g] == flatten(
            new_logs[g],
        ) by {
            assert(self.files@[g] == flatten(self.logs@[g]));
            if g == a {
                assert(new_logs[g] == self.logs@[a].push(c));
                assert(new_files[g] == self.files@[a] + record_bytes(c));
            } else {
                assert(new_logs[g] == self.logs@[g]);
                assert(new_files[g] == self.files@[g]);
            }
        }
        lemma_log_seq_push(self.readers@, self.logs@, c);
    }

    /// The pointer of `key`, if the store holds it; the bytes there are the
    /// `Set` record of `key` and its value.
    pub fn lookup(&self, key: &String) -> (r: Option<LogPointer>)
        requires
            self.wf(),
        ensures
            r is Some <==> self@.contains_key(key@),
            r matches Some(p) ==> {
                &&& self.generations().contains(p.log_gen)
                &&& p == self.pointer_of(key@)
                &&& points_to(
                    self.files(),
                    p,
                    record_bytes(CommandModel::Put { key: key@, value: self@[key@] }),
                )
            },
    {
        match keydir_find(&self.keydir, key) {
            Some(i) => {
                let p = self.keydir[i].1;
                proof {
                    let j = choose|j: int| 0 <= j < self.keydir@.len() && (#[trigger] self.keydir@[j]).0@ == key@;
                    assert(j == i);
                    assert(self.keydir@[i as int].0@ == key@);
                    assert(keydir_has(self.keydir@, key@));
                    assert(self.files@.contains_key(p.log_gen));
                }
                Some(p)
            },
            None => None,
        }
    }

    /// Takes note that the `Set` record of `key` and `value` (as
    /// `encode_command` writes it) has been appended to the active segment:
    /// `key` now points to it, and the record it replaces counts as stale.
    ///
    /// Returns whether the stale bytes now exceed `COMPACTION_THRESHOLD`. When
    /// they do, compaction is due before the next operation: the caller reads
    /// the records at `live_pointers()`, writes the segments of
    /// `plan_compaction` with them, and calls `compact` with the same records.
    pub fn set(&mut self, key: String, value: String) -> (r: Result<bool, KvStoreError>)
        requires
            old(self).wf(),
        ensures
            final(self).wf(),
            r is Ok <==> old(self).fits(CommandModel::Put { key: key@, value: value@ }),
            r matches Ok(due) ==> due == (final(self).stale() > COMPACTION_THRESHOLD),
            r is Ok ==> {
                &&& final(self)@ == old(self)@.insert(key@, value@)
                &&& final(self).files() == old(self).files_after(
                    CommandModel::Put { key: key@, value: value@ },
                )
                &&& final(self).index() == old(self).index().insert(
                    key@,
                    (LogPointer {
                        log_gen: old(self).active(),
                        pos: old(self).files()[old(self).active()].len() as u64,
                        len: record_bytes(CommandModel::Put { key: key@, value: value@ }).len() as u64,
                    }),
                )
                &&& final(self).generations() == old(self).generations()
                &&& final(self).active() == old(self).active()
                &&& final(self).stale() == if old(self)@.contains_key(key@) {
                    if old(self).stale() + old(self).pointer_of(key@).len > u64::MAX {
                        u64::MAX as int
                    } else {
                        old(self).stale() + old(self).pointer_of(key@).len
                    }
                } else {
                    old(self).stale() as int
                }
            },
            r is Err ==> (r matches Err(KvStoreError::LogFull)) && *final(self) == *old(self),
    {
        let ghost c = CommandModel::Put { key: key@, value: value@ };
        let record = encode_command(&Command::Put { key: key.clone(), value: value.clone() });
        let len = record.len() as u64;
        if len > u64::MAX - self.log_pos {
            return Err(KvStoreError::LogFull);
        }
        let ghost old_self = *self;
        let ptr = LogPointer { log_gen: self.log_gen, pos: self.log_pos, len };
        let ghost new_logs = self.logs@.insert(self.log_gen, self.logs@[self.log_gen].push(c));
        let ghost new_files = self.files@.insert(self.log_gen, self.files@[self.log_gen] + record@);
        let ghost new_values = self.values@.insert(key@, value@);
        proof {
            self.lemma_append(c, new_logs, new_files);
        }
        let ghost kd0 = self.keydir@;
        let ghost k = key@;
        let prev = keydir_put(&mut self.keydir, key, ptr);
        proof {
            lemma_index_after_put(kd0, self.keydir@, k, ptr);
        }
        if let Some(p) = prev {
            self.stale_logs_size = add_saturating(self.stale_logs_size, p.len);
        }
        self.log_pos = self.log_pos + len;
        self.logs = Ghost(new_logs);
        self.files = Ghost(new_files);
        self.values = Ghost(new_values);
        proof {
            let a = old_self.log_gen;
            assert(self.log_seq() == old_self.readers@.map_values(|g: u64| new_logs[g]));
            assert(bytes_at(new_files, ptr) =~= record@);
            assert forall|i: int| 0 <= i < self.keydir@.len() implies points_to(
                new_files,
                (#[trigger] self.keydir@[i]).1,
                record_bytes(CommandModel::Put { key: self.keydir@[i].0@, value: new_values[self.keydir@[i].0@] }),
            ) by {
                let e = self.keydir@[i];
                if e.0@ != key@ {
                    assert(kd0.contains(e));
                    let j = choose|j: int| 0 <= j < kd0.len() && kd0[j] == e;
                    assert(points_to(old_self.files@, kd0[j].1, record_bytes(CommandModel::Put { key: kd0[j].0@, value: old_self.values@[kd0[j].0@] })));
                    lemma_points_to_grow(old_self.files@, new_files, e.1, record_bytes(CommandModel::Put { key: e.0@, value: new_values[e.0@] }));
                }
            }
            assert forall|k: Seq<char>| new_values.contains_key(k) <==> keydir_has(self.keydir@, k) by {}
            assert(self.wf());
            if old_self.values@.contains_key(key@) {
                assert(keydir_has(kd0, key@));
                assert(prev is Some);
                let j = choose|j: int| 0 <= j < kd0.len() && (#[trigger] kd0[j]).0@ == key@ && kd0[j].1 == prev->0;
                let i = choose|i: int| 0 <= i < old_self.entries().len() && (#[trigger] old_self.entries()[i]).0@ == key@;
                assert(old_self.entries() == kd0);
                assert(i == j);
                assert(old_self.pointer_of(key@) == prev->0);
            } else {
                assert(!keydir_has(kd0, key@));
                assert(prev is None);
            }
            assert(self.stale() == if old_self@.contains_key(key@) {
                if old_self.stale() + old_self.pointer_of(key@).len > u64::MAX {
                    u64::MAX as int
                } else {
                    old_self.stale() + old_self.pointer_of(key@).len
                }
            } else {
                old_self.stale() as int
            });
        }
        Ok(self.stale_logs_size > COMPACTION_THRESHOLD)
    }

    /// Removes `key`. Fails with `UnknownKeyError`, and changes nothing, where
    /// the store does not hold it. Otherwise takes note that the `Remove`
    /// record of `key` (as `encode_command` writes it) has been appended to the
    /// active segment: the record of its value and the `Remove` record both
    /// count as stale.
    ///
    /// Returns whether compaction is now due, as `set` does.
    pub fn remove(&mut self, key: String) -> (r: Result<bool, KvStoreError>)
        requires
            old(self).wf(),
        ensures
            final(self).wf(),
            (r matches Err(KvStoreError::UnknownKeyError)) <==> !old(self)@.contains_key(key@),
            (r matches Err(KvStoreError::LogFull)) <==> old(self)@.contains_key(key@) && !old(
                self,
            ).fits(CommandModel::Remove { key: key@ }),
            r is Err ==> *final(self) == *old(self),
            old(self)@.contains_key(key@) && old(self).fits(CommandModel::Remove { key: key@ }) ==> r is Ok,
            r matches Ok(due) ==> due == (final(self).stale() > COMPACTION_THRESHOLD),
            r is Ok ==> {
                &&& final(self)@ == old(self)@.remove(key@)
                &&& final(self).index() == old(self).index().remove(key@)
                &&& final(self).files() == old(self).files_after(CommandModel::Remove { key: key@ })
                &&& final(self).generations() == old(self).generations()
                &&& final(self).active() == old(self).active()
                &&& final(self).stale() == saturating(
                    saturating(old(self).stale() + old(self).pointer_of(key@).len)
                        + record_bytes(CommandModel::Remove { key: key@ }).len(),
                )
            },
    {
        let ghost c = CommandModel::Remove { key: key@ };
        match keydir_find(&self.keydir, &key) {
            None => {
                return Err(KvStoreError::UnknownKeyError);
            },
            Some(i) => {
                assert(self.keydir@[i as int].0@ == key@);
                assert(keydir_has(self.keydir@, key@));
            },
        }
        let record = encode_command(&Command::Remove { key: key.clone() });
        let len = record.len() as u64;
        if len > u64::MAX - self.log_pos {
            return Err(KvStoreError::LogFull);
        }
        let ghost old_self = *self;
        let ghost new_logs = self.logs@.insert(self.log_gen, self.logs@[self.log_gen].push(c));
        let ghost new_files = self.files@.insert(self.log_gen, self.files@[self.log_gen] + record@);
        let ghost new_values = self.values@.remove(key@);
        proof {
            self.lemma_append(c, new_logs, new_files);
        }
        let ghost kd0 = self.keydir@;
        let prev = keydir_remove(&mut self.keydir, &key);
        proof {
            lemma_index_after_remove(kd0, self.keydir@, key@);
        }
        if let Some(p) = prev {
            self.stale_logs_size = add_saturating(add_saturating(self.stale_logs_size, p.len), len);
        }
        self.log_pos = self.log_pos + len;
        self.logs = Ghost(new_logs);
        self.files = Ghost(new_files);
        self.values = Ghost(new_values);
        proof {
            assert(self.log_seq() == old_self.readers@.map_values(|g: u64| new_logs[g]));
            assert forall|i: int| 0 <= i < self.keydir@.len() implies points_to(
                new_files,
                (#[trigger] self.keydir@[i]).1,
                record_bytes(CommandModel::Put { key: self.keydir@[i].0@, value: new_values[self.keydir@[i].0@] }),
            ) by {
                let e = self.keydir@[i];
                assert(kd0.contains(e));
                let j = choose|j: int| 0 <= j < kd0.len() && kd0[j] == e;
                assert(keydir_has(self.keydir@, e.0@));
                assert(e.0@ != key@);
                assert(points_to(old_self.files@, kd0[j].1, record_bytes(CommandModel::Put { key: kd0[j].0@, value: old_self.values@[kd0[j].0@] })));
                lemma_points_to_grow(old_self.files@, new_files, e.1, record_bytes(CommandModel::Put { key: e.0@, value: new_values[e.0@] }));
            }
            assert forall|k: Seq<char>| new_values.contains_key(k) <==> keydir_has(self.keydir@, k) by {}
            assert(keydir_has(kd0, key@));
            assert(prev is Some);
            let j = choose|j: int| 0 <= j < kd0.len() && (#[trigger] kd0[j]).0@ == key@ && kd0[j].1 == prev->0;
            let i = choose|i: int| 0 <= i < old_self.entries().len() && (#[trigger] old_self.entries()[i]).0@ == key@;
            assert(old_self.entries() == kd0);
            assert(i == j);
            assert(old_self.pointer_of(key@) == prev->0);
            assert(self.wf());
        }
        Ok(self.stale_logs_size > COMPACTION_THRESHOLD)
    }
}

pub open spec fn saturating(a: int) -> int {
    if a > u64::MAX {
        u64::MAX as int
    } else {
        a
    }
}

// ---------------------------------------------------------------------------
// Recovery.

proof fn lemma_files_grow_refl(f: Map<u64, Seq<u8>>)
    ensures
        files_grow(f, f),
{
    assert forall|g: u64| f.contains_key(g) implies f.contains_key(g) && f[g].len() <= f[g].len()
        && #[trigger] f[g].subrange(0, f[g].len() as int) == f[g] by {
        assert(f[g].subrange(0, f[g].len() as int) =~= f[g]);
    }
}

/// The index after `keydir_put` serves the contents with `key` set to `v`.
proof fn lemma_keydir_put_ok(
    kd0: Seq<(String, LogPointer)>,
    kd1: Seq<(String, LogPointer)>,
    values: Map<Seq<char>, Seq<char>>,
    files: Map<u64, Seq<u8>>,
    files2: Map<u64, Seq<u8>>,
    key: Seq<char>,
    ptr: LogPointer,
    v: Seq<char>,
)
    requires
        keydir_ok(kd0, values, files),
        files_grow(files, files2),
        points_to(files2, ptr, record_bytes(CommandModel::Put { key, value: v })),
        keydir_unique(kd1),
        forall|k: Seq<char>| keydir_has(kd1, k) <==> (keydir_has(kd0, k) || k == key),
        forall|i: int| 0 <= i < kd1.len() && (#[trigger] kd1[i]).0@ == key ==> kd1[i].1 == ptr,
        forall|i: int| 0 <= i < kd1.len() && (#[trigger] kd1[i]).0@ != key ==> kd0.contains(kd1[i]),
    ensures
        keydir_ok(kd1, values.insert(key, v), files2),
{
    let nv = values.insert(key, v);
    assert forall|i: int| 0 <= i < kd1.len() implies points_to(
        files2,
        (#[trigger] kd1[i]).1,
        record_bytes(CommandModel::Put { key: kd1[i].0@, value: nv[kd1[i].0@] }),
    ) by {
        let e = kd1[i];
        if e.0@ != key {
            assert(kd0.contains(e));
            let j = choose|j: int| 0 <= j < kd0.len() && kd0[j] == e;
            assert(points_to(files, kd0[j].1, record_bytes(CommandModel::Put { key: kd0[j].0@, value: values[kd0[j].0@] })));
            lemma_points_to_grow(files, files2, e.1, record_bytes(CommandModel::Put { key: e.0@, value: nv[e.0@] }));
        }
    }
    assert forall|k: Seq<char>| nv.contains_key(k) <==> keydir_has(kd1, k) by {}
}

/// The index after `keydir_remove` serves the contents without `key`.
proof fn lemma_keydir_remove_ok(
    kd0: Seq<(String, LogPointer)>,
    kd1: Seq<(String, LogPointer)>,
    values: Map<Seq<char>, Seq<char>>,
    files: Map<u64, Seq<u8>>,
    files2: Map<u64, Seq<u8>>,
    key: Seq<char>,
)
    requires
        keydir_ok(kd0, values, files),
        files_grow(files, files2),
        keydir_unique(kd1),
        forall|k: Seq<char>| keydir_has(kd1, k) <==> (keydir_has(kd0, k) && k != key),
        entries_from(kd1, kd0),
    ensures
        keydir_ok(kd1, values.remove(key), files2),
{
    let nv = values.remove(key);
    assert forall|i: int| 0 <= i < kd1.len() implies points_to(
        files2,
        (#[trigger] kd1[i]).1,
        record_bytes(CommandModel::Put { key: kd1[i].0@, value: nv[kd1[i].0@] }),
    ) by {
        let e = kd1[i];
        assert(kd0.contains(e));
        let j = choose|j: int| 0 <= j < kd0.len() && kd0[j] == e;
        assert(keydir_has(kd1, e.0@));
        assert(points_to(files, kd0[j].1, record_bytes(CommandModel::Put { key: kd0[j].0@, value: values[kd0[j].0@] })));
        lemma_points_to_grow(files, files2, e.1, record_bytes(CommandModel::Put { key: e.0@, value: nv[e.0@] }));
    }
    assert forall|k: Seq<char>| nv.contains_key(k) <==> keydir_has(kd1, k) by {}
}

proof fn lemma_replay_prefix_none(segs: Seq<Seq<u8>>, k: int)
    requires
        0 <= k <= segs.len(),
        replay_segments(segs.subrange(0, k)) is None,
    ensures
        replay_segments(segs) is None,
    decreases segs.len() - k,
{
    if k < segs.len() {
        let p = segs.subrange(0, k + 1);
        assert(p.drop_last() =~= segs.subrange(0, k));
        lemma_replay_prefix_none(segs, k + 1);
    } else {
        assert(segs.subrange(0, k) =~= segs);
    }
}

pub open spec fn seg_views(segments: Seq<Vec<u8>>) -> Seq<Seq<u8>> {
    segments.map_values(|v: Vec<u8>| v@)
}

pub open spec fn prepend(cs: Seq<CommandModel>, r: Option<Seq<CommandModel>>) -> Option<Seq<CommandModel>> {
    match r {
        Some(ts) => Some(cs + ts),
        None => None,
    }
}

/// The generation that a store opened on segments of `gens` writes to.
pub open spec fn next_generation(gens: Seq<u64>) -> int {
    if gens.len() == 0 {
        1
    } else {
        gens.last() + 1
    }
}

/// One record replayed into an index and a count of stale bytes: a `Set`
/// points its key at the record and makes the record it replaces stale; a
/// `Remove` drops its key, and the record it replaces and the `Remove` record
/// itself become stale.
pub open spec fn replay_step(
    st: (Map<Seq<char>, LogPointer>, int),
    c: CommandModel,
    p: LogPointer,
) -> (Map<Seq<char>, LogPointer>, int) {
    let (idx, stale) = st;
    match c {
        CommandModel::Put { key, .. } => (
            idx.insert(key, p),
            if idx.contains_key(key) {
                saturating(stale + idx[key].len)
            } else {
                stale
            },
        ),
        CommandModel::Remove { key } => (
            idx.remove(key),
            if idx.contains_key(key) {
                saturating(saturating(stale + idx[key].len) + p.len)
            } else {
                saturating(stale + p.len)
            },
        ),
    }
}

/// The records of one segment of generation `g` replayed in order, each at
/// the offset where the ones before it end.
pub open spec fn replay_commands(
    st: (Map<Seq<char>, LogPointer>, int),
    g: u64,
    cs: Seq<CommandModel>,
) -> (Map<Seq<char>, LogPointer>, int)
    decreases cs.len(),
{
    if cs.len() == 0 {
        st
    } else {
        replay_step(
            replay_commands(st, g, cs.drop_last()),
            cs.last(),
            LogPointer {
                log_gen: g,
                pos: flatten(cs.drop_last()).len() as u64,
                len: record_bytes(cs.last()).len() as u64,
            },
        )
    }
}

/// The index and the count of stale bytes that recovery rebuilds from the
/// segments of generations `gens`, oldest first: each key points at its last
/// `Set` record, where no later `Remove` drops it.
pub open spec fn replay_index(gens: Seq<u64>, segs: Seq<Seq<u8>>) -> (Map<Seq<char>, LogPointer>, int)
    decreases segs.len(),
{
    if segs.len() == 0 || gens.len() != segs.len() {
        (Map::empty(), 0)
    } else {
        let prev = replay_index(gens.drop_last(), segs.drop_last());
        match parse_segment(segs.last()) {
            Some(cs) => replay_commands(prev, gens.last(), cs),
            None => prev,
        }
    }
}

/// Replays one record into the index; returns the new count of stale bytes.
fn replay_record(
    kd: &mut Vec<(String, LogPointer)>,
    stale: u64,
    c: Command,
    ptr: LogPointer,
    Ghost(values): Ghost<Map<Seq<char>, Seq<char>>>,
    Ghost(files): Ghost<Map<u64, Seq<u8>>>,
) -> (r: u64)
    requires
        keydir_ok(old(kd)@, values, files),
        c is Put ==> points_to(files, ptr, record_bytes(c@)),
    ensures
        keydir_ok(final(kd)@, apply_command(values, c@), files),
        (keydir_index(final(kd)@), r as int) == replay_step((keydir_index(old(kd)@), stale as int), c@, ptr),
{
    let ghost kd0 = kd@;
    proof {
        lemma_files_grow_refl(files);
    }
    match c {
        Command::Put { key, value } => {
            let ghost k = key@;
            let ghost v = value@;
            let prev = keydir_put(kd, key, ptr);
            proof {
                lemma_keydir_put_ok(kd0, kd@, values, files, files, k, ptr, v);
                lemma_index_after_put(kd0, kd@, k, ptr);
                if let Some(p) = prev {
                    lemma_prev_pointer(kd0, k, p);
                }
            }
            match prev {
                Some(p) => add_saturating(stale, p.len),
                None => stale,
            }
        },
        Command::Remove { key } => {
            let prev = keydir_remove(kd, &key);
            proof {
                lemma_keydir_remove_ok(kd0, kd@, values, files, files, key@);
                lemma_index_after_remove(kd0, kd@, key@);
                if let Some(p) = prev {
                    lemma_prev_pointer(kd0, key@, p);
                }
            }
            match prev {
                Some(p) => add_saturating(add_saturating(stale, p.len), ptr.len),
                None => add_saturating(stale, ptr.len),
            }
        },
    }
}

impl KvStore {
    /// Rebuilds the index from the segments of the store's directory, oldest
    /// first: `gens` are their generations, `segments` what they hold. The new
    /// active segment, which the caller creates empty, comes after the newest.
    pub fn open(gens: &Vec<u64>, segments: &Vec<Vec<u8>>) -> (r: Result<KvStore, KvStoreError>)
        requires
            gens.len() == segments.len(),
            strictly_ascending(gens@),
        ensures
            (r matches Err(KvStoreError::GenerationsExhausted)) <==> next_generation(gens@) > u64::MAX,
            (r matches Err(KvStoreError::DecodeErr)) <==> next_generation(gens@) <= u64::MAX
                && replay_segments(seg_views(segments@)) is None,
            r is Ok <==> next_generation(gens@) <= u64::MAX && replay_segments(seg_views(segments@)) is Some,
            r matches Ok(s) ==> {
                &&& s.wf()
                &&& s@ == replay_segments(seg_views(segments@))->0
                &&& s.active() == next_generation(gens@)
                &&& s.generations() == gens@.push(s.active())
                &&& s.files()[s.active()] == Seq::<u8>::empty()
                &&& s.index() == replay_index(gens@, seg_views(segments@)).0
                &&& s.stale() == replay_index(gens@, seg_views(segments@)).1
                &&& forall|i: int| 0 <= i < gens.len() ==> s.files()[#[trigger] gens@[i]] == segments@[i]@
            },
    {
        let ghost segs = seg_views(segments@);
        if gens.len() > 0 && gens[gens.len() - 1] == u64::MAX {
            return Err(KvStoreError::GenerationsExhausted);
        }
        let mut kd: Vec<(String, LogPointer)> = Vec::new();
        let mut readers: Vec<u64> = Vec::new();
        let mut stale: u64 = 0;
        let ghost mut files: Map<u64, Seq<u8>> = Map::empty();
        let ghost mut logs: Map<u64, Seq<CommandModel>> = Map::empty();
        let ghost mut values: Map<Seq<char>, Seq<char>> = Map::empty();
        proof {
            assert(segs.subrange(0, 0) =~= Seq::<Seq<u8>>::empty());
            assert(readers@.map_values(|g: u64| logs[g]) =~= Seq::<Seq<CommandModel>>::empty());
        }
        assert(next_generation(gens@) <= u64::MAX);
        let mut i: usize = 0;
        while i < gens.len()
            invariant
                next_generation(gens@) <= u64::MAX,
                gens.len() == segments.len(),
                segs == seg_views(segments@),
                strictly_ascending(gens@),
                i <= gens.len(),
                readers@ == gens@.subrange(0, i as int),
                forall|g: u64| files.contains_key(g) <==> readers@.contains(g),
                forall|g: u64| readers@.contains(g) ==> #[trigger] logs.contains_key(g),
                forall|g: u64| readers@.contains(g) ==> #[trigger] files[g] == flatten(logs[g]),
                forall|k: int| 0 <= k < i ==> files[#[trigger] gens@[k]] == segs[k],
                values == apply_logs(readers@.map_values(|g: u64| logs[g])),
                replay_segments(segs.subrange(0, i as int)) == Some(values),
                (keydir_index(kd@), stale as int) == replay_index(gens@.subrange(0, i as int), segs.subrange(0, i as int)),
                keydir_ok(kd@, values, files),
            decreases gens.len() - i,
        {
            let gen = gens[i];
            let data = &segments[i];
            let ghost base = values;
            let ghost base_st = (keydir_index(kd@), stale as int);
            let ghost old_readers = readers@;
            let ghost old_logs = logs;
            let ghost old_files = files;
            proof {
                assert(segs[i as int] == data@);
                assert forall|g: u64| readers@.contains(g) implies g < gen by {
                    let k = choose|k: int| 0 <= k < readers@.len() && readers@[k] == g;
                    assert(gens@[k] < gens@[i as int]);
                }
            }
            proof {
                files = files.insert(gen, data@);
                assert(files_grow(old_files, files)) by {
                    assert forall|g: u64| old_files.contains_key(g) implies files.contains_key(g)
                        && old_files[g].len() <= files[g].len() && #[trigger] files[g].subrange(
                        0,
                        old_files[g].len() as int,
                    ) == old_files[g] by {
                        assert(g != gen);
                        assert(files[g].subrange(0, old_files[g].len() as int) =~= old_files[g]);
                    }
                }
                assert forall|k: int| 0 <= k < kd@.len() implies points_to(
                    files,
                    (#[trigger] kd@[k]).1,
                    record_bytes(CommandModel::Put { key: kd@[k].0@, value: values[kd@[k].0@] }),
                ) by {
                    lemma_points_to_grow(old_files, files, kd@[k].1, record_bytes(CommandModel::Put { key: kd@[k].0@, value: values[kd@[k].0@] }));
                }
                assert(skip(data@, 0) =~= data@);
                assert(data@.subrange(0, 0) =~= flatten(Seq::<CommandModel>::empty()));
                assert(prepend(Seq::<CommandModel>::empty(), parse_segment(data@)) == parse_segment(data@)) by {
                    match parse_segment(data@) {
                        Some(ts) => assert(Seq::<CommandModel>::empty() + ts =~= ts),
                        None => {},
                    }
                }
            }
            let mut pos: usize = 0;
            let ghost mut cmds: Seq<CommandModel> = seq![];
            while pos < data.len()
                invariant
                    gens.len() == segments.len(),
                    segs == seg_views(segments@),
                    i < gens.len(),
                    data@ == segs[i as int],
                    next_generation(gens@) <= u64::MAX,
                    pos <= data.len(),
                    files.contains_key(gen),
                    files[gen] == data@,
                    data@.subrange(0, pos as int) == flatten(cmds),
                    parse_segment(data@) == prepend(cmds, parse_segment(skip(data@, pos as int))),
                    values == apply_commands(base, cmds),
                    (keydir_index(kd@), stale as int) == replay_commands(base_st, gen, cmds),
                    keydir_ok(kd@, values, files),
                decreases data.len() - pos,
            {
                let ghost b = skip(data@, pos as int);
                match decode_command(data.as_slice(), pos) {
                    None => {
                        proof {
                            reveal(parse_segment);
                            assert(parse_segment(b) is None);
                            let p = segs.subrange(0, i + 1);
                            assert(p.drop_last() =~= segs.subrange(0, i as int));
                            assert(p.last() == data@);
                            lemma_replay_prefix_none(segs, i + 1);
                        }
                        return Err(KvStoreError::DecodeErr);
                    },
                    Some((c, n)) => {
                        let ghost cm = c@;
                        proof {
                            lemma_parse_record_sound(b);
                            lemma_record_nonempty(cm);
                            reveal(parse_segment);
                            lemma_skip_skip(data@, pos as int, n as int);
                            assert(data@.subrange(0, pos + n) =~= data@.subrange(0, pos as int) + b.subrange(0, n as int));
                            lemma_flatten_push(cmds, cm);
                            match parse_segment(skip(data@, pos + n)) {
                                Some(ts) => assert(cmds + (seq![cm] + ts) =~= cmds.push(cm) + ts),
                                None => {},
                            }
                            lemma_apply_push(base, cmds, cm);
                        }
                        let ptr = LogPointer { log_gen: gen, pos: pos as u64, len: n as u64 };
                        proof {
                            assert(bytes_at(files, ptr) =~= b.subrange(0, n as int));
                        }
                        proof {
                            assert(flatten(cmds).len() == pos);
                            assert(cmds.push(cm).drop_last() =~= cmds);
                        }
                        stale = replay_record(&mut kd, stale, c, ptr, Ghost(values), Ghost(files));
                        proof {
                            values = apply_command(values, cm);
                        }
                        proof {
                            cmds = cmds.push(cm);
                        }
                        pos = pos + n;
                    },
                }
            }
            proof {
                assert(data@.subrange(0, data@.len() as int) =~= data@);
                assert(skip(data@, pos as int) =~= Seq::<u8>::empty());
                reveal(parse_segment);
                assert(parse_segment(Seq::<u8>::empty()) == Some(Seq::<CommandModel>::empty()));
                assert(cmds + Seq::<CommandModel>::empty() =~= cmds);
                assert(parse_segment(data@) == Some(cmds));
                let gp = gens@.subrange(0, i + 1);
                let sp = segs.subrange(0, i + 1);
                assert(gp.drop_last() =~= gens@.subrange(0, i as int));
                assert(sp.drop_last() =~= segs.subrange(0, i as int));
                assert(sp.last() == data@);
                assert(gp.last() == gen);
            }
            readers.push(gen);
            proof {
                logs = logs.insert(gen, cmds);
                let ls = readers@.map_values(|g: u64| logs[g]);
                let ls0 = old_readers.map_values(|g: u64| old_logs[g]);
                assert(ls.drop_last() =~= ls0) by {
                    assert forall|k: int| 0 <= k < ls0.len() implies ls.drop_last()[k] == ls0[k] by {
                        assert(old_readers.contains(old_readers[k]));
                    }
                }
                assert(ls.last() == cmds);
                let p = segs.subrange(0, i + 1);
                assert(p.drop_last() =~= segs.subrange(0, i as int));
                assert(readers@ =~= gens@.subrange(0, i + 1));
                assert forall|g: u64| files.contains_key(g) <==> readers@.contains(g) by {
                    if g == gen {
                        assert(readers@[i as int] == gen);
                    }
                    if readers@.contains(g) && g != gen {
                        let k = choose|k: int| 0 <= k < readers@.len() && readers@[k] == g;
                        assert(old_readers[k] == g);
                    }
                }
                assert forall|g: u64| readers@.contains(g) implies #[trigger] logs.contains_key(g) by {
                    if g != gen {
                        let k = choose|k: int| 0 <= k < readers@.len() && readers@[k] == g;
                        assert(old_readers[k] == g);
                    }
                }
                assert forall|g: u64| readers@.contains(g) implies #[trigger] files[g] == flatten(logs[g]) by {
                    if g != gen {
                        let k = choose|k: int| 0 <= k < readers@.len() && readers@[k] == g;
                        assert(old_readers[k] == g);
                        assert(old_readers.contains(g));
                    }
                }
                assert forall|k: int| 0 <= k < i + 1 implies files[#[trigger] gens@[k]] == segs[k] by {
                    if k < i {
                        assert(gens@[k] < gens@[i as int]);
                    }
                }
            }
            i += 1;
        }
        let new_gen: u64 = if gens.len() == 0 {
            1
        } else {
            gens[gens.len() - 1] + 1
        };
        let ghost old_files = files;
        let ghost old_logs = logs;
        let ghost old_readers = readers@;
        proof {
            assert(segs.subrange(0, gens.len() as int) =~= segs);
            assert(gens@.subrange(0, gens.len() as int) =~= gens@);
            assert forall|g: u64| readers@.contains(g) implies g < new_gen by {
                let k = choose|k: int| 0 <= k < readers@.len() && readers@[k] == g;
                if k < readers@.len() - 1 {
                    assert(gens@[k] < gens@[gens.len() - 1]);
                }
            }
        }
        readers.push(new_gen);
        proof {
            files = files.insert(new_gen, Seq::<u8>::empty());
            logs = logs.insert(new_gen, Seq::<CommandModel>::empty());
            assert(files_grow(old_files, files)) by {
                assert forall|g: u64| old_files.contains_key(g) implies files.contains_key(g)
                    && old_files[g].len() <= files[g].len() && #[trigger] files[g].subrange(
                    0,
                    old_files[g].len() as int,
                ) == old_files[g] by {
                    assert(old_readers.contains(g));
                    assert(files[g].subrange(0, old_files[g].len() as int) =~= old_files[g]);
                }
            }
            assert forall|k: int| 0 <= k < kd@.len() implies points_to(
                files,
                (#[trigger] kd@[k]).1,
                record_bytes(CommandModel::Put { key: kd@[k].0@, value: values[kd@[k].0@] }),
            ) by {
                lemma_points_to_grow(old_files, files, kd@[k].1, record_bytes(CommandModel::Put { key: kd@[k].0@, value: values[kd@[k].0@] }));
            }
            let ls = readers@.map_values(|g: u64| logs[g]);
            let ls0 = old_readers.map_values(|g: u64| old_logs[g]);
            assert(ls.drop_last() =~= ls0) by {
                assert forall|k: int| 0 <= k < ls0.len() implies ls.drop_last()[k] == ls0[k] by {
                    assert(old_readers.contains(old_readers[k]));
                }
            }
            assert(ls.last() == Seq::<CommandModel>::empty());
            assert(flatten(Seq::<CommandModel>::empty()) == Seq::<u8>::empty());
            assert(strictly_ascending(readers@)) by {
                assert forall|a: int, b: int| 0 <= a < b < readers@.len() implies readers@[a] < readers@[b] by {
                    if b == readers@.len() - 1 {
                        assert(old_readers.contains(readers@[a]));
                    } else {
                        assert(gens@[a] < gens@[b]);
                    }
                }
            }
            assert forall|g: u64| files.contains_key(g) <==> readers@.contains(g) by {
                if g == new_gen {
                    assert(readers@[readers@.len() - 1] == new_gen);
                }
                if old_readers.contains(g) {
                    let k = choose|k: int| 0 <= k < old_readers.len() && old_readers[k] == g;
                    assert(readers@[k] == g);
                }
                if readers@.contains(g) && g != new_gen {
                    let k = choose|k: int| 0 <= k < readers@.len() && readers@[k] == g;
                    assert(old_readers[k] == g);
                }
            }
            assert forall|g: u64| readers@.contains(g) implies #[trigger] logs.contains_key(g) by {
                if g != new_gen {
                    let k = choose|k: int| 0 <= k < readers@.len() && readers@[k] == g;
                    assert(old_readers[k] == g);
                }
            }
            assert forall|g: u64| readers@.contains(g) implies #[trigger] files[g] == flatten(logs[g]) by {
                if g != new_gen {
                    let k = choose|k: int| 0 <= k < readers@.len() && readers@[k] == g;
                    assert(old_readers[k] == g);
                    assert(old_readers.contains(g));
                }
            }
            assert forall|k: int| 0 <= k < gens.len() implies files[#[trigger] gens@[k]] == segments@[k]@ by {
                assert(old_readers[k] == gens@[k]);
                assert(old_readers.contains(gens@[k]));
                assert(segs[k] == segments@[k]@);
            }
        }
        let store = KvStore {
            keydir: kd,
            readers,
            log_gen: new_gen,
            log_pos: 0,
            stale_logs_size: stale,
            files: Ghost(files),
            logs: Ghost(logs),
            values: Ghost(values),
        };
        assert(store.readers@ =~= gens@.push(new_gen));
        Ok(store)
    }
}


// ---------------------------------------------------------------------------
// Compaction.

/// What compaction leaves the caller to do on disk: write `data` as the segment
/// of `compact_gen`, create the empty segment of `new_gen`, and delete the
/// segments of `stale_gens`.
pub struct Compaction {
    pub data: Vec<u8>,
    pub compact_gen: u64,
    pub new_gen: u64,
    pub stale_gens: Vec<u64>,
}

/// Byte sequences written one after another.
pub open spec fn concat(bs: Seq<Seq<u8>>) -> Seq<u8>
    decreases bs.len(),
{
    if bs.len() == 0 {
        seq![]
    } else {
        concat(bs.drop_last()) + bs.last()
    }
}

/// Whether `r` is a `Set` record of key `k`.
pub open spec fn is_put_of(r: Option<CommandModel>, k: Seq<char>) -> bool {
    match r {
        Some(CommandModel::Put { key, .. }) => key == k,
        _ => false,
    }
}

impl KvStore {
    /// The generation of the active segment, which writes go to.
    pub fn active_gen(&self) -> (r: u64)
        ensures
            r == self.active(),
    {
        self.log_gen
    }

    /// How many more bytes the active segment can take: a record fits
    /// exactly when it is no longer than this.
    pub fn room(&self) -> (r: u64)
        requires
            self.wf(),
        ensures
            r == u64::MAX - self.files()[self.active()].len(),
    {
        u64::MAX - self.log_pos
    }

    /// The count of stale bytes: records that no key points to any more.
    pub fn stale_bytes(&self) -> (r: u64)
        ensures
            r == self.stale(),
    {
        self.stale_logs_size
    }

    /// Whether enough stale bytes have piled up to compact.
    pub fn needs_compaction(&self) -> (r: bool)
        ensures
            r == (self.stale() > COMPACTION_THRESHOLD),
    {
        self.stale_logs_size > COMPACTION_THRESHOLD
    }

    /// The pointers of the index, in its order: the records that compaction
    /// reads.
    pub fn live_pointers(&self) -> (r: Vec<LogPointer>)
        ensures
            r@.len() == self.entries().len(),
            forall|i: int| 0 <= i < r@.len() ==> r@[i] == #[trigger] self.entries()[i].1,
    {
        let mut r: Vec<LogPointer> = Vec::new();
        let mut i: usize = 0;
        while i < self.keydir.len()
            invariant
                i <= self.keydir@.len(),
                r@.len() == i,
                forall|j: int| 0 <= j < i ==> r@[j] == #[trigger] self.keydir@[j].1,
            decreases self.keydir.len() - i,
        {
            r.push(self.keydir[i].1);
            i += 1;
        }
        r
    }

    /// Whether `records` are the bytes that the index's pointers lead to, in
    /// its order.
    pub open spec fn records_match(&self, records: Seq<Vec<u8>>) -> bool {
        &&& records.len() == self.entries().len()
        &&& forall|i: int|
            0 <= i < records.len() ==> (#[trigger] records[i])@ == bytes_at(
                self.files(),
                self.entries()[i].1,
            )
    }

    /// Whether each of `records` is, in full, a `Set` record of the key that
    /// the index holds at its place.
    pub open spec fn records_well_formed(&self, records: Seq<Vec<u8>>) -> bool {
        &&& records.len() == self.entries().len()
        &&& forall|i: int|
            0 <= i < records.len() ==> is_put_of(whole_record((#[trigger] records[i])@), self.entries()[i].0@)
    }

    proof fn lemma_match_well_formed(&self, records: Seq<Vec<u8>>, i: int)
        requires
            self.wf(),
            self.records_match(records),
            0 <= i < records.len(),
        ensures
            is_put_of(whole_record(records[i]@), self.keydir@[i].0@),
    {
        let k = self.keydir@[i].0@;
        assert(keydir_has(self.keydir@, k));
        assert(records[i]@ == bytes_at(self.files@, self.keydir@[i].1));
        lemma_whole_record(CommandModel::Put { key: k, value: self.values@[k] });
    }

    /// Rewrites the live records into one new segment and starts an empty
    /// active segment after it; every older segment becomes stale. `records`
    /// are what the caller read at `live_pointers()`, in that order.
    /// The compacted segment and the index over it, without taking them in.
    #[verifier::rlimit(60)]
    fn build_compaction(&self, records: &Vec<Vec<u8>>) -> (r: Result<
        (Vec<u8>, Vec<(String, LogPointer)>, Ghost<Map<Seq<char>, Seq<char>>>, Ghost<Seq<CommandModel>>),
        KvStoreError,
    >)
        requires
            self.wf(),
        ensures
            (r matches Err(KvStoreError::GenerationsExhausted)) <==> self.active() > u64::MAX - 2,
            (r matches Err(KvStoreError::DecodeErr)) <==> self.active() <= u64::MAX - 2
                && !self.records_well_formed(records@),
            self.active() <= u64::MAX - 2 && self.records_match(records@) ==> r is Ok,
            r matches Ok((data, new_kd, nv, cmds)) ==> {
                let rs = records@.map_values(|v: Vec<u8>| v@);
                let cg = (self.log_gen + 1) as u64;
                let new_values = nv@;
                &&& self.log_gen <= u64::MAX - 2
                &&& new_kd@.len() == records.len()
                &&& records.len() == self.keydir@.len()
                &&& data@ == concat(rs)
                &&& data@ == flatten(cmds@)
                &&& new_values == apply_commands(Map::empty(), cmds@)
                &&& forall|j: int| 0 <= j < records.len() ==> (#[trigger] new_kd@[j]).0@ == self.keydir@[j].0@
                &&& forall|j: int| 0 <= j < records.len() ==> (#[trigger] new_kd@[j]).1.log_gen == cg
                &&& forall|j: int|
                    0 <= j < records.len() ==> (#[trigger] new_kd@[j]).1 == (LogPointer {
                        log_gen: cg,
                        pos: concat(rs.subrange(0, j)).len() as u64,
                        len: rs[j].len() as u64,
                    })
                &&& forall|j: int|
                    0 <= j < records.len() ==> {
                        let p = (#[trigger] new_kd@[j]).1;
                        p.pos + p.len <= data@.len() && data@.subrange(p.pos as int, p.pos + p.len)
                            == record_bytes(CommandModel::Put { key: new_kd@[j].0@, value: new_values[new_kd@[j].0@] })
                    }
                &&& forall|j: int|
                    0 <= j < records.len() ==> whole_record(#[trigger] records@[j]@) == Some(
                        CommandModel::Put { key: self.keydir@[j].0@, value: new_values[self.keydir@[j].0@] },
                    )
                &&& forall|k: Seq<char>|
                    new_values.contains_key(k) <==> exists|j: int| 0 <= j < records.len() && (#[trigger] self.keydir@[j]).0@ == k
                &&& self.records_match(records@) ==> forall|k: Seq<char>|
                    #[trigger] new_values.contains_key(k) ==> new_values[k] == self.values@[k]
            },
    {
        if self.log_gen > u64::MAX - 2 {
            return Err(KvStoreError::GenerationsExhausted);
        }
        if records.len() != self.keydir.len() {
            return Err(KvStoreError::DecodeErr);
        }
        let cg = self.log_gen + 1;
        let ng = self.log_gen + 2;
        let ghost rs = records@.map_values(|v: Vec<u8>| v@);
        let mut data: Vec<u8> = Vec::new();
        let mut new_kd: Vec<(String, LogPointer)> = Vec::new();
        let ghost mut new_values: Map<Seq<char>, Seq<char>> = Map::empty();
        let ghost mut cmds: Seq<CommandModel> = seq![];
        let mut i: usize = 0;
        proof {
            assert(rs.subrange(0, 0) =~= Seq::<Seq<u8>>::empty());
        }
        while i < records.len()
            invariant
                self.wf(),
                self.log_gen <= u64::MAX - 2,
                records.len() == self.keydir@.len(),
                rs == records@.map_values(|v: Vec<u8>| v@),
                i <= records.len(),
                new_kd@.len() == i,
                data@ == concat(rs.subrange(0, i as int)),
                data@ == flatten(cmds),
                new_values == apply_commands(Map::empty(), cmds),
                forall|j: int| 0 <= j < i ==> (#[trigger] new_kd@[j]).0@ == self.keydir@[j].0@,
                forall|j: int| 0 <= j < i ==> (#[trigger] new_kd@[j]).1.log_gen == cg,
                cg == self.log_gen + 1,
                forall|j: int|
                    0 <= j < i ==> (#[trigger] new_kd@[j]).1 == (LogPointer {
                        log_gen: cg,
                        pos: concat(rs.subrange(0, j)).len() as u64,
                        len: rs[j].len() as u64,
                    }),
                forall|j: int|
                    0 <= j < i ==> {
                        let p = (#[trigger] new_kd@[j]).1;
                        p.pos + p.len <= data@.len() && data@.subrange(p.pos as int, p.pos + p.len)
                            == record_bytes(CommandModel::Put { key: new_kd@[j].0@, value: new_values[new_kd@[j].0@] })
                    },
                forall|j: int|
                    0 <= j < i ==> whole_record(#[trigger] records@[j]@) == Some(
                        CommandModel::Put { key: self.keydir@[j].0@, value: new_values[self.keydir@[j].0@] },
                    ),
                forall|k: Seq<char>|
                    new_values.contains_key(k) <==> exists|j: int| 0 <= j < i && (#[trigger] self.keydir@[j]).0@ == k,
                self.records_match(records@) ==> forall|k: Seq<char>|
                    #[trigger] new_values.contains_key(k) ==> new_values[k] == self.values@[k],
            decreases records.len() - i,
        {
            let rec = &records[i];
            let ghost old_data = data@;
            let decoded = decode_command(rec.as_slice(), 0);
            proof {
                assert(skip(rec@, 0) =~= rec@);
            }
            let (key, value, n) = match decoded {
                Some((Command::Put { key, value }, n)) => (key, value, n),
                _ => {
                    proof {
                        assert(!is_put_of(whole_record(records@[i as int]@), self.keydir@[i as int].0@));
                        if self.records_match(records@) {
                            self.lemma_match_well_formed(records@, i as int);
                        }
                    }
                    return Err(KvStoreError::DecodeErr);
                },
            };
            if n != rec.len() || key != self.keydir[i].0 {
                proof {
                    assert(!is_put_of(whole_record(records@[i as int]@), self.keydir@[i as int].0@));
                    if self.records_match(records@) {
                        self.lemma_match_well_formed(records@, i as int);
                    }
                }
                return Err(KvStoreError::DecodeErr);
            }
            proof {
                assert(data@.len() == concat(rs.subrange(0, i as int)).len());
                assert(rs[i as int] == rec@);
            }
            let pos = data.len() as u64;
            push_all(&mut data, rec.as_slice());
            let ptr = LogPointer { log_gen: cg, pos, len: n as u64 };
            let ghost cm = CommandModel::Put { key: key@, value: value@ };
            proof {
                lemma_parse_record_sound(rec@);
                assert(rec@.subrange(0, n as int) =~= rec@);
                assert(rec@ == record_bytes(cm));
                lemma_flatten_push(cmds, cm);
                lemma_apply_push(Map::empty(), cmds, cm);
                let p = rs.subrange(0, i + 1);
                assert(p.drop_last() =~= rs.subrange(0, i as int));
                assert(data@.subrange(pos as int, pos + n) =~= rec@);
                assert forall|j: int| 0 <= j < i implies {
                    let p = (#[trigger] new_kd@[j]).1;
                    data@.subrange(p.pos as int, p.pos + p.len) == old_data.subrange(p.pos as int, p.pos + p.len)
                } by {
                    let p = new_kd@[j].1;
                    assert(data@.subrange(p.pos as int, p.pos + p.len) =~= old_data.subrange(p.pos as int, p.pos + p.len));
                }
                assert forall|j: int| 0 <= j < i implies (#[trigger] self.keydir@[j]).0@ != key@ by {
                    assert(self.keydir@[i as int].0@ == key@);
                }
                if self.records_match(records@) {
                    assert(records@[i as int]@ == bytes_at(self.files@, self.keydir@[i as int].1));
                    lemma_whole_record(CommandModel::Put { key: key@, value: self.values@[key@] });
                    assert(keydir_has(self.keydir@, key@));
                }
                new_values = new_values.insert(key@, value@);
                cmds = cmds.push(cm);
                assert forall|k: Seq<char>|
                    new_values.contains_key(k) <==> exists|j: int| 0 <= j < i + 1 && (#[trigger] self.keydir@[j]).0@ == k by {
                    if k == key@ {
                        assert(self.keydir@[i as int].0@ == k);
                    }
                }
            }
            new_kd.push((key, ptr));
            i += 1;
        }
        proof {
            assert(rs.subrange(0, records.len() as int) =~= rs);
        }
        Ok((data, new_kd, Ghost(new_values), Ghost(cmds)))
    }

    /// The compaction that `compact` would carry out, computed without
    /// changing the store: the caller writes its segments first, then calls
    /// `compact` with the same records to take them in.
    pub fn plan_compaction(&self, records: &Vec<Vec<u8>>) -> (r: Result<Compaction, KvStoreError>)
        requires
            self.wf(),
        ensures
            (r matches Err(KvStoreError::GenerationsExhausted)) <==> self.active() > u64::MAX - 2,
            (r matches Err(KvStoreError::DecodeErr)) <==> self.active() <= u64::MAX - 2
                && !self.records_well_formed(records@),
            self.active() <= u64::MAX - 2 && self.records_match(records@) ==> r is Ok,
            r matches Ok(c) ==> {
                &&& c.compact_gen == self.active() + 1
                &&& c.new_gen == self.active() + 2
                &&& c.stale_gens@ == self.generations()
                &&& c.data@ == concat(records@.map_values(|v: Vec<u8>| v@))
            },
    {
        let (data, _new_kd, _nv, _cmds) = match self.build_compaction(records) {
            Ok(built) => built,
            Err(e) => {
                return Err(e);
            },
        };
        let stale_gens = self.generation_list();
        Ok(Compaction { data, compact_gen: self.log_gen + 1, new_gen: self.log_gen + 2, stale_gens })
    }

    fn generation_list(&self) -> (r: Vec<u64>)
        ensures
            r@ == self.readers@,
    {
        let mut stale_gens: Vec<u64> = Vec::new();
        let mut j: usize = 0;
        while j < self.readers.len()
            invariant
                j <= self.readers@.len(),
                stale_gens@ == self.readers@.subrange(0, j as int),
            decreases self.readers.len() - j,
        {
            stale_gens.push(self.readers[j]);
            j += 1;
            assert(stale_gens@ =~= self.readers@.subrange(0, j as int));
        }
        assert(stale_gens@ =~= self.readers@);
        stale_gens
    }

    #[verifier::rlimit(60)]
    pub fn compact(&mut self, records: &Vec<Vec<u8>>) -> (r: Result<Compaction, KvStoreError>)
        requires
            old(self).wf(),
        ensures
            final(self).wf(),
            (r matches Err(KvStoreError::GenerationsExhausted)) <==> old(self).active() > u64::MAX - 2,
            (r matches Err(KvStoreError::DecodeErr)) <==> old(self).active() <= u64::MAX - 2
                && !old(self).records_well_formed(records@),
            r is Err ==> *final(self) == *old(self),
            old(self).active() <= u64::MAX - 2 && old(self).records_match(records@) ==> r is Ok
                && final(self)@ == old(self)@,
            r matches Ok(c) ==> {
                &&& c.compact_gen == old(self).active() + 1
                &&& c.new_gen == old(self).active() + 2
                &&& c.stale_gens@ == old(self).generations()
                &&& final(self).generations() == seq![c.compact_gen, c.new_gen]
                &&& final(self).active() == c.new_gen
                &&& final(self).files() == map![c.compact_gen => c.data@, c.new_gen => Seq::<u8>::empty()]
                &&& c.data@ == concat(records@.map_values(|v: Vec<u8>| v@))
                &&& final(self).stale() == 0
                &&& final(self)@.dom() == old(self)@.dom()
                &&& final(self).index().dom() == old(self)@.dom()
                &&& forall|i: int|
                    0 <= i < records.len() ==> #[trigger] final(self).index()[old(self).entries()[i].0@]
                        == (LogPointer {
                        log_gen: c.compact_gen,
                        pos: concat(records@.map_values(|v: Vec<u8>| v@).subrange(0, i)).len() as u64,
                        len: records@[i]@.len() as u64,
                    })
                &&& forall|i: int|
                    0 <= i < records.len() ==> whole_record(#[trigger] records@[i]@) == Some(
                        CommandModel::Put {
                            key: old(self).entries()[i].0@,
                            value: final(self)@[old(self).entries()[i].0@],
                        },
                    )
            },
    {
        let (data, new_kd, nv, cm) = match self.build_compaction(records) {
            Ok(built) => built,
            Err(e) => {
                return Err(e);
            },
        };
        let ghost new_values = nv@;
        let ghost cmds = cm@;
        let ghost rs = records@.map_values(|v: Vec<u8>| v@);
        assert(records.len() == self.keydir@.len());
        assert(forall|k: Seq<char>|
            new_values.contains_key(k) <==> exists|j: int| 0 <= j < records.len() && (#[trigger] self.keydir@[j]).0@ == k);
        let cg = self.log_gen + 1;
        let ng = self.log_gen + 2;
        let stale_gens = self.generation_list();
        let ghost old_self = *self;
        let ghost files = map![cg => data@, ng => Seq::<u8>::empty()];
        let ghost logs = map![cg => cmds, ng => Seq::<CommandModel>::empty()];
        proof {
            assert forall|k: Seq<char>| new_values.contains_key(k) <==> old_self.values@.contains_key(k) by {
                if old_self.values@.contains_key(k) {
                    assert(keydir_has(old_self.keydir@, k));
                    let j = choose|j: int| 0 <= j < old_self.keydir@.len() && (#[trigger] old_self.keydir@[j]).0@ == k;
                    assert(0 <= j < records.len() && old_self.keydir@[j].0@ == k);
                    assert(new_values.contains_key(k));
                }
                if new_values.contains_key(k) {
                    let j = choose|j: int| 0 <= j < records.len() && (#[trigger] old_self.keydir@[j]).0@ == k;
                    assert(keydir_has(old_self.keydir@, k));
                }
            }
            if old_self.records_match(records@) {
                assert(new_values =~= old_self.values@);
            }
        }
        self.keydir = new_kd;
        self.readers = vec![cg, ng];
        self.log_gen = ng;
        self.log_pos = 0;
        self.stale_logs_size = 0;
        self.files = Ghost(files);
        self.logs = Ghost(logs);
        self.values = Ghost(new_values);
        proof {
            let ls = self.log_seq();
            assert(ls =~= seq![cmds, Seq::<CommandModel>::empty()]);
            assert(ls.drop_last() =~= seq![cmds]);
            assert(seq![cmds].drop_last() =~= Seq::<Seq<CommandModel>>::empty());
            assert(apply_logs(seq![cmds]) == apply_commands(apply_logs(Seq::<Seq<CommandModel>>::empty()), cmds));
            assert(apply_logs(ls) == apply_commands(apply_logs(seq![cmds]), Seq::<CommandModel>::empty()));
            assert(apply_logs(ls) == new_values);
            assert(flatten(Seq::<CommandModel>::empty()) == Seq::<u8>::empty());
            assert forall|g: u64| self.files@.contains_key(g) <==> self.readers@.contains(g) by {
                if g == cg {
                    assert(self.readers@[0] == cg);
                }
                if g == ng {
                    assert(self.readers@[1] == ng);
                }
            }
            assert(keydir_unique(self.keydir@)) by {
                assert forall|a: int, b: int|
                    0 <= a < self.keydir@.len() && 0 <= b < self.keydir@.len() && a != b implies (#[trigger] self.keydir@[a]).0@
                    != (#[trigger] self.keydir@[b]).0@ by {
                    assert(old_self.keydir@[a].0@ != old_self.keydir@[b].0@);
                }
            }
            assert forall|k: Seq<char>| new_values.contains_key(k) <==> keydir_has(self.keydir@, k) by {
                if new_values.contains_key(k) {
                    let j = choose|j: int| 0 <= j < records.len() && (#[trigger] old_self.keydir@[j]).0@ == k;
                    assert(self.keydir@[j].0@ == k);
                }
                if keydir_has(self.keydir@, k) {
                    let j = choose|j: int| 0 <= j < self.keydir@.len() && (#[trigger] self.keydir@[j]).0@ == k;
                    assert(old_self.keydir@[j].0@ == k);
                }
            }
            assert forall|a: int| 0 <= a < self.keydir@.len() implies points_to(
                self.files@,
                (#[trigger] self.keydir@[a]).1,
                record_bytes(CommandModel::Put { key: self.keydir@[a].0@, value: new_values[self.keydir@[a].0@] }),
            ) by {
                assert(self.keydir@[a].1.log_gen == cg);
            }
            assert(self.wf());
            assert forall|i: int| 0 <= i < records.len() implies #[trigger] self.index()[old_self.entries()[i].0@]
                == new_kd@[i].1 by {
                lemma_keydir_pointer(self.keydir@, i);
                assert(self.keydir@[i].0@ == old_self.keydir@[i].0@);
                assert(keydir_has(self.keydir@, self.keydir@[i].0@));
            }
            assert(self.index().dom() =~= new_values.dom());
        }
        Ok(Compaction { data, compact_gen: cg, new_gen: ng, stale_gens })
    }
}

// ---------------------------------------------------------------------------
// Laws.

impl KvStore {
    /// What `get` of `k` returns when the caller reads the bytes at the
    /// pointer that `lookup` gives and hands them to `read_value`.
    pub open spec fn get_result(&self, k: Seq<char>) -> Option<Seq<char>> {
        if self@.contains_key(k) {
            match whole_record(bytes_at(self.files(), self.pointer_of(k))) {
                Some(CommandModel::Put { value, .. }) => Some(value),
                _ => None,
            }
        } else {
            None
        }
    }

    /// The record that a key points to is the `Set` record of its value.
    pub proof fn lemma_read_back(&self, k: Seq<char>)
        requires
            self.wf(),
            self@.contains_key(k),
        ensures
            points_to(self.files(), self.pointer_of(k), record_bytes(CommandModel::Put { key: k, value: self@[k] })),
            self.get_result(k) == Some(self@[k]),
    {
        assert(keydir_has(self.keydir@, k));
        let i = choose|i: int| 0 <= i < self.entries().len() && (#[trigger] self.entries()[i]).0@ == k;
        assert(self.keydir@[i].0@ == k);
        lemma_whole_record(CommandModel::Put { key: k, value: self@[k] });
    }
}

/// After `set(k, v)`, `get(k)` returns `v`.
pub proof fn lemma_get_after_set(before: KvStore, after: KvStore, k: Seq<char>, v: Seq<char>)
    requires
        after.wf(),
        after@ == before@.insert(k, v),
    ensures
        after.get_result(k) == Some(v),
{
    after.lemma_read_back(k);
}

/// After `set(k, v1)` and then `set(k, v2)`, `get(k)` returns `v2`.
pub proof fn lemma_get_after_overwrite(
    before: KvStore,
    mid: KvStore,
    after: KvStore,
    k: Seq<char>,
    v1: Seq<char>,
    v2: Seq<char>,
)
    requires
        after.wf(),
        mid@ == before@.insert(k, v1),
        after@ == mid@.insert(k, v2),
    ensures
        after.get_result(k) == Some(v2),
{
    after.lemma_read_back(k);
}

/// After `remove(k)`, `get(k)` returns nothing.
pub proof fn lemma_get_after_remove(before: KvStore, after: KvStore, k: Seq<char>)
    requires
        after.wf(),
        after@ == before@.remove(k),
    ensures
        after.get_result(k) is None,
{
}

/// Reopening a store: its live segments, replayed as `open` replays them, give
/// back exactly its contents, and `open` accepts them unless no generation is
/// left after the active one.
pub proof fn lemma_reopen(s: KvStore)
    requires
        s.wf(),
    ensures
        strictly_ascending(s.generations()),
        replay_segments(s.segments()) == Some(s@),
        next_generation(s.generations()) <= u64::MAX <==> s.active() < u64::MAX,
{
    let segs = s.segments();
    let ls = s.log_seq();
    assert forall|i: int| 0 <= i < segs.len() implies #[trigger] segs[i] == flatten(ls[i]) by {
        assert(s.readers@.contains(s.readers@[i]));
    }
    lemma_replay_logs(segs, ls);
}

/// After compaction with the records that the index points to, every key
/// still reads back its value.
pub proof fn lemma_get_after_compaction(before: KvStore, after: KvStore, k: Seq<char>)
    requires
        after.wf(),
        after@ == before@,
        before@.contains_key(k),
    ensures
        after.get_result(k) == Some(before@[k]),
{
    after.lemma_read_back(k);
}

/// Compaction of a store that holds one key leaves, on disk, the one `Set`
/// record of its value and an empty active segment.
pub proof fn lemma_compacted_single_key(s: KvStore, records: Seq<Vec<u8>>, k: Seq<char>, v: Seq<char>)
    requires
        s.wf(),
        s@ == Map::<Seq<char>, Seq<char>>::empty().insert(k, v),
        s.records_match(records),
    ensures
        concat(records.map_values(|r: Vec<u8>| r@)) == record_bytes(CommandModel::Put { key: k, value: v }),
{
    let kd = s.keydir@;
    assert(s@.contains_key(k));
    assert(keydir_has(kd, k));
    if kd.len() >= 2 {
        assert(s@.contains_key(kd[0].0@) && s@.contains_key(kd[1].0@)) by {
            assert(keydir_has(kd, kd[0].0@));
            assert(keydir_has(kd, kd[1].0@));
        }
        assert(kd[0].0@ != kd[1].0@);
    }
    assert(kd.len() == 1);
    let rs = records.map_values(|r: Vec<u8>| r@);
    assert(rs.len() == 1);
    assert(rs.drop_last() =~= Seq::<Seq<u8>>::empty());
    assert(concat(Seq::<Seq<u8>>::empty()) == Seq::<u8>::empty());
    assert(concat(rs) == concat(rs.drop_last()) + rs.last());
    assert(concat(rs) =~= rs[0]);
    assert(kd[0].0@ == k);
    s.lemma_read_back(k);
    let i = choose|i: int| 0 <= i < s.entries().len() && (#[trigger] s.entries()[i]).0@ == k;
    assert(i == 0);
}

} // verus!
