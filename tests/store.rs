use std::collections::HashMap;

use kvs::client::{get_reply, remove_reply, set_reply};
use kvs::{
    error_text, encode_command, read_value, sorted_log_gens, Command, KvStore, KvStoreError, Response,
};

/// The store with its segment files held in memory, by generation.
struct MemStore {
    disk: HashMap<u64, Vec<u8>>,
    core: KvStore,
}

impl MemStore {
    fn open(mut disk: HashMap<u64, Vec<u8>>) -> Result<MemStore, KvStoreError> {
        let names: Vec<String> = disk.keys().map(|g| format!("{}.log", g)).collect();
        let gens = sorted_log_gens(&names);
        let segments: Vec<Vec<u8>> = gens.iter().map(|g| disk[g].clone()).collect();
        let core = KvStore::open(&gens, &segments)?;
        disk.insert(core.active_gen(), Vec::new());
        Ok(MemStore { disk, core })
    }

    fn append(&mut self, c: &Command) {
        let rec = encode_command(c);
        self.disk.get_mut(&self.core.active_gen()).unwrap().extend_from_slice(&rec);
    }

    fn set(&mut self, k: &str, v: &str) -> Result<(), KvStoreError> {
        self.append(&Command::Put { key: k.to_string(), value: v.to_string() });
        if self.core.set(k.to_string(), v.to_string())? {
            assert!(self.core.needs_compaction());
            self.compact()?;
        }
        Ok(())
    }

    fn get(&self, k: &str) -> Result<Option<String>, KvStoreError> {
        match self.core.lookup(&k.to_string()) {
            None => Ok(None),
            Some(p) => {
                let f = &self.disk[&p.log_gen];
                read_value(&f[p.pos as usize..(p.pos + p.len) as usize]).map(Some)
            }
        }
    }

    fn remove(&mut self, k: &str) -> Result<(), KvStoreError> {
        if self.core.lookup(&k.to_string()).is_none() {
            return Err(KvStoreError::UnknownKeyError);
        }
        self.append(&Command::Remove { key: k.to_string() });
        if self.core.remove(k.to_string())? {
            self.compact()?;
        }
        Ok(())
    }

    fn compact(&mut self) -> Result<(), KvStoreError> {
        let records: Vec<Vec<u8>> = self
            .core
            .live_pointers()
            .iter()
            .map(|p| self.disk[&p.log_gen][p.pos as usize..(p.pos + p.len) as usize].to_vec())
            .collect();
        let plan = self.core.plan_compaction(&records)?;
        let c = self.core.compact(&records)?;
        assert_eq!(plan.data, c.data);
        assert_eq!((plan.compact_gen, plan.new_gen), (c.compact_gen, c.new_gen));
        self.disk.insert(c.compact_gen, c.data);
        self.disk.insert(c.new_gen, Vec::new());
        for g in c.stale_gens.iter() {
            self.disk.remove(g);
        }
        Ok(())
    }

    fn reopen(self) -> MemStore {
        MemStore::open(self.disk).unwrap()
    }

    fn disk_bytes(&self) -> usize {
        self.disk.values().map(|f| f.len()).sum()
    }
}

fn empty() -> MemStore {
    MemStore::open(HashMap::new()).unwrap()
}

#[test]
fn round_trip_after_reopen() {
    let mut s = empty();
    s.set("key1", "value1").unwrap();
    s.set("key2", "value2").unwrap();
    let s = s.reopen();
    assert_eq!(s.get("key1").unwrap(), Some("value1".to_string()));
    assert_eq!(s.get("key2").unwrap(), Some("value2".to_string()));
    assert_eq!(s.get("key3").unwrap(), None);
}

#[test]
fn overwrite_keeps_latest() {
    let mut s = empty();
    s.set("a", "1").unwrap();
    s.set("a", "2").unwrap();
    s.set("a", "3").unwrap();
    assert_eq!(s.get("a").unwrap(), Some("3".to_string()));
    let s = s.reopen();
    assert_eq!(s.get("a").unwrap(), Some("3".to_string()));
}

#[test]
fn remove_and_set_again() {
    let mut s = empty();
    s.set("x", "1").unwrap();
    s.remove("x").unwrap();
    assert_eq!(s.get("x").unwrap(), None);
    assert!(matches!(s.remove("x"), Err(KvStoreError::UnknownKeyError)));
    s.set("x", "2").unwrap();
    assert_eq!(s.get("x").unwrap(), Some("2".to_string()));
}

#[test]
fn remove_unknown_key_changes_nothing() {
    let mut s = empty();
    s.set("a", "1").unwrap();
    let before = s.disk.clone();
    assert!(matches!(s.core.remove("zzz".to_string()), Err(KvStoreError::UnknownKeyError)));
    assert_eq!(s.disk, before);
    assert_eq!(s.get("a").unwrap(), Some("1".to_string()));
}

#[test]
fn stale_bytes_count_replaced_and_removed_records() {
    let mut s = empty();
    s.set("a", "1").unwrap();
    assert!(!s.core.needs_compaction());
    let big = "v".repeat(1 << 20);
    s.set("a", &big).unwrap();
    assert!(!s.core.needs_compaction());
    s.set("a", "2").unwrap();
    // the 1 MiB record is now stale, together with the first one: compaction ran
    assert_eq!(s.disk.len(), 2);
    assert_eq!(s.get("a").unwrap(), Some("2".to_string()));
}

#[test]
fn reopen_after_mixed_operations() {
    let mut s = empty();
    for i in 0..50 {
        s.set(&format!("k{}", i), &format!("v{}", i)).unwrap();
    }
    for i in 0..50 {
        if i % 3 == 0 {
            s.remove(&format!("k{}", i)).unwrap();
        } else if i % 3 == 1 {
            s.set(&format!("k{}", i), &format!("w{}", i)).unwrap();
        }
    }
    let before: Vec<Option<String>> = (0..50).map(|i| s.get(&format!("k{}", i)).unwrap()).collect();
    let s = s.reopen();
    let after: Vec<Option<String>> = (0..50).map(|i| s.get(&format!("k{}", i)).unwrap()).collect();
    assert_eq!(before, after);
    assert_eq!(after[0], None);
    assert_eq!(after[1], Some("w1".to_string()));
    assert_eq!(after[2], Some("v2".to_string()));
}

#[test]
fn compaction_reclaims_space() {
    let mut s = empty();
    let big = "x".repeat(1200);
    for i in 0..1000 {
        s.set(&format!("key-{}", i), &big).unwrap();
    }
    let mut fewest = s.disk.len();
    for i in 0..1000 {
        s.set(&format!("key-{}", i), "<new-v>").unwrap();
        fewest = fewest.min(s.disk.len());
    }
    assert!(fewest <= 2);
    for i in 0..1000 {
        assert_eq!(s.get(&format!("key-{}", i)).unwrap(), Some("<new-v>".to_string()));
    }
    let s = s.reopen();
    assert_eq!(s.get("key-999").unwrap(), Some("<new-v>".to_string()));
}

#[test]
fn compaction_leaves_two_segments() {
    let mut s = empty();
    s.set("a", "1").unwrap();
    let s = s.reopen();
    let mut s = s.reopen();
    s.set("b", "2").unwrap();
    assert_eq!(s.disk.len(), 3);
    s.compact().unwrap();
    assert_eq!(s.disk.len(), 2);
    assert_eq!(s.get("a").unwrap(), Some("1".to_string()));
    assert_eq!(s.get("b").unwrap(), Some("2".to_string()));
}

#[test]
fn compaction_of_one_key_keeps_one_record() {
    let mut s = empty();
    for i in 0..100 {
        s.set("k", &format!("value-{}", i)).unwrap();
    }
    s.compact().unwrap();
    let last = encode_command(&Command::Put { key: "k".to_string(), value: "value-99".to_string() });
    assert_eq!(s.disk_bytes(), last.len());
    assert_eq!(s.get("k").unwrap(), Some("value-99".to_string()));
}

#[test]
fn compaction_of_empty_store() {
    let mut s = empty();
    s.set("a", "1").unwrap();
    s.remove("a").unwrap();
    s.compact().unwrap();
    assert_eq!(s.disk.len(), 2);
    assert_eq!(s.disk_bytes(), 0);
}

#[test]
fn compaction_rejects_wrong_records() {
    let mut s = empty();
    s.set("a", "1").unwrap();
    let wrong = vec![encode_command(&Command::Put { key: "b".to_string(), value: "1".to_string() })];
    assert!(matches!(s.core.compact(&wrong), Err(KvStoreError::DecodeErr)));
    assert!(matches!(s.core.compact(&Vec::new()), Err(KvStoreError::DecodeErr)));
    assert_eq!(s.get("a").unwrap(), Some("1".to_string()));
}

#[test]
fn large_value_round_trip() {
    let mut s = empty();
    let big = "x".repeat(1 << 20);
    s.set("big", &big).unwrap();
    assert_eq!(s.get("big").unwrap(), Some(big.clone()));
    let s = s.reopen();
    assert_eq!(s.get("big").unwrap(), Some(big));
}

#[test]
fn open_rejects_corrupt_segment() {
    let mut disk = HashMap::new();
    let mut seg = encode_command(&Command::Put { key: "a".to_string(), value: "1".to_string() });
    seg.extend_from_slice(b"{\"Set\":{\"key\"");
    disk.insert(1u64, seg);
    assert!(matches!(MemStore::open(disk), Err(KvStoreError::DecodeErr)));
}

#[test]
fn open_rejects_last_generation() {
    let r = KvStore::open(&vec![u64::MAX], &vec![Vec::new()]);
    assert!(matches!(r, Err(KvStoreError::GenerationsExhausted)));
}

#[test]
fn open_picks_next_generation() {
    let s = empty();
    assert_eq!(s.core.active_gen(), 1);
    let mut disk = HashMap::new();
    disk.insert(4u64, Vec::new());
    disk.insert(9u64, Vec::new());
    let s = MemStore::open(disk).unwrap();
    assert_eq!(s.core.active_gen(), 10);
}

#[test]
fn replies_from_responses() {
    assert_eq!(get_reply(Response::Get(Ok(Some("v".to_string())))).unwrap(), Some("v".to_string()));
    assert_eq!(get_reply(Response::Get(Ok(None))).unwrap(), None);
    assert!(set_reply(Response::Put(Ok(()))).is_ok());
    match remove_reply(Response::Remove(Err("Key not found".to_string()))) {
        Err(KvStoreError::StringError(s)) => assert_eq!(s, "Key not found"),
        _ => panic!("expected the server's error"),
    }
    match get_reply(Response::Put(Ok(()))) {
        Err(KvStoreError::StringError(s)) => assert_eq!(s, "Unexpected response"),
        _ => panic!("expected an unexpected-response error"),
    }
}

fn put(k: &str, v: &str) -> Vec<u8> {
    encode_command(&Command::Put { key: k.to_string(), value: v.to_string() })
}

fn rm(k: &str) -> Vec<u8> {
    encode_command(&Command::Remove { key: k.to_string() })
}

#[test]
fn set_points_at_end_of_active_segment() {
    let mut s = empty();
    s.set("a", "1").unwrap();
    let la = put("a", "1").len() as u64;
    let p = s.core.lookup(&"a".to_string()).unwrap();
    assert_eq!((p.log_gen, p.pos, p.len), (1, 0, la));
    s.set("b", "22").unwrap();
    let p = s.core.lookup(&"b".to_string()).unwrap();
    assert_eq!((p.log_gen, p.pos, p.len), (1, la, put("b", "22").len() as u64));
    let p = s.core.lookup(&"a".to_string()).unwrap();
    assert_eq!((p.log_gen, p.pos, p.len), (1, 0, la));
    assert_eq!(s.core.stale_bytes(), 0);
    s.set("a", "3").unwrap();
    assert_eq!(s.core.stale_bytes(), la);
}

#[test]
fn reopen_points_at_last_set() {
    let mut disk = HashMap::new();
    disk.insert(1u64, put("a", "1"));
    disk.insert(2u64, put("a", "1"));
    let s = MemStore::open(disk).unwrap();
    let p = s.core.lookup(&"a".to_string()).unwrap();
    assert_eq!((p.log_gen, p.pos), (2, 0));
    assert_eq!(s.core.stale_bytes(), put("a", "1").len() as u64);
    assert_eq!(s.core.active_gen(), 3);
}

#[test]
fn reopen_rebuilds_stale_count() {
    let mut seg = put("a", "1");
    seg.extend_from_slice(&put("a", "2"));
    seg.extend_from_slice(&rm("b"));
    seg.extend_from_slice(&put("c", "3"));
    seg.extend_from_slice(&rm("c"));
    let mut disk = HashMap::new();
    disk.insert(1u64, seg);
    let s = MemStore::open(disk).unwrap();
    let expected = put("a", "1").len() + rm("b").len() + put("c", "3").len() + rm("c").len();
    assert_eq!(s.core.stale_bytes(), expected as u64);
    assert_eq!(s.get("a").unwrap(), Some("2".to_string()));
    assert_eq!(s.get("c").unwrap(), None);
    let p = s.core.lookup(&"a".to_string()).unwrap();
    assert_eq!(p.pos, put("a", "1").len() as u64);
}

#[test]
fn empty_directory_opens_with_nothing_stale() {
    let s = empty();
    assert_eq!(s.core.stale_bytes(), 0);
    assert!(s.core.room() == u64::MAX);
}

#[test]
fn compaction_lays_records_out_in_index_order() {
    let mut s = empty();
    s.set("a", "1").unwrap();
    s.set("bb", "22").unwrap();
    s.set("a", "333").unwrap();
    s.compact().unwrap();
    let pa = s.core.lookup(&"a".to_string()).unwrap();
    let pb = s.core.lookup(&"bb".to_string()).unwrap();
    let la = put("a", "333").len() as u64;
    let lb = put("bb", "22").len() as u64;
    assert_eq!(pa.log_gen, pb.log_gen);
    let mut spans = vec![(pa.pos, pa.len), (pb.pos, pb.len)];
    spans.sort();
    assert_eq!(spans[0].0, 0);
    assert_eq!(spans[0].0 + spans[0].1, spans[1].0);
    assert_eq!(spans[1].0 + spans[1].1, la + lb);
    assert_eq!(s.core.stale_bytes(), 0);
}

#[test]
fn set_reports_when_compaction_is_due() {
    let mut core = KvStore::open(&Vec::new(), &Vec::new()).unwrap();
    let big = "v".repeat(1 << 20);
    assert!(!core.set("a".to_string(), big.clone()).unwrap());
    assert!(!core.set("b".to_string(), "1".to_string()).unwrap());
    // the 1 MiB record of "a" becomes stale: past the threshold
    assert!(core.set("a".to_string(), "2".to_string()).unwrap());
    assert!(core.stale_bytes() > kvs::COMPACTION_THRESHOLD);
}

#[test]
fn remove_reports_when_compaction_is_due() {
    let mut core = KvStore::open(&Vec::new(), &Vec::new()).unwrap();
    assert!(!core.set("a".to_string(), "1".to_string()).unwrap());
    assert!(!core.remove("a".to_string()).unwrap());
    assert!(core.set("b".to_string(), "x".repeat(1 << 20)).is_ok());
    assert!(core.remove("b".to_string()).unwrap());
}

#[test]
fn error_texts() {
    assert_eq!(error_text(&KvStoreError::UnknownKeyError), "Key not found");
    assert_eq!(error_text(&KvStoreError::UnexpectedCommandType), "Unexpected command");
    assert_eq!(error_text(&KvStoreError::DecodeErr), "Malformed record");
    assert_eq!(error_text(&KvStoreError::StringError("boom".to_string())), "boom");
    let io = std::io::Error::new(std::io::ErrorKind::Other, "disk gone");
    assert_eq!(error_text(&KvStoreError::IoErr(io)), "disk gone");
}
