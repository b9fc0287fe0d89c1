use std::collections::HashMap;

use seekstorm_core::storage::lsm::{table_file_name, BatchStep, FlushJob, GetStep, PendingWrite};
use seekstorm_core::storage::table_file::{build_table, fits_table};
use seekstorm_core::{
    IoBackendKind, LsmConfig, LsmEngine, LsmKey, LsmValue, Manifest, SSTable, SSTableMeta, Wal, WalSync, NS_DOC, NS_META,
    NS_VEC,
};

type Files = HashMap<String, Vec<u8>>;

/// An engine over files that are kept in memory.
struct Store {
    files: Files,
    engine: LsmEngine,
}

fn copy_manifest(m: &Manifest) -> Manifest {
    Manifest {
        index_id: m.index_id,
        index_name: m.index_name.clone(),
        sstables: m.sstables.iter().map(copy_meta).collect(),
        wal_path: m.wal_path.clone(),
        last_checkpoint_lsn: m.last_checkpoint_lsn,
        created_at: m.created_at,
        updated_at: m.updated_at,
    }
}

fn copy_meta(m: &SSTableMeta) -> SSTableMeta {
    SSTableMeta {
        id: m.id,
        path: m.path.clone(),
        entry_count: m.entry_count,
        min_key_bytes: m.min_key_bytes,
        max_key_bytes: m.max_key_bytes,
    }
}

fn open_table(files: &Files, path: &str) -> SSTable {
    let file = &files[path];
    let at = SSTable::footer_offset(file.len() as u64).unwrap();
    let index_offset = SSTable::read_footer(&file[at as usize..]).unwrap();
    let len = SSTable::index_len(file.len() as u64, index_offset).unwrap();
    let index = &file[index_offset as usize..(index_offset + len) as usize];
    SSTable::open(path.to_string(), index_offset, index).unwrap()
}

fn read_span(files: &Files, table: &SSTable, first: usize, end: usize) -> Vec<Vec<u8>> {
    assert!(table.has_ordered_blocks());
    let file = &files[&table.path];
    (first..end)
        .map(|i| {
            let (offset, len) = table.block_span(i);
            file[offset as usize..(offset + len) as usize].to_vec()
        })
        .collect()
}

impl Store {
    fn open(files: Files, manifest: Option<Manifest>, config: LsmConfig) -> Store {
        let log = files.get("wal.log").cloned().unwrap_or_default();
        let wal = Wal::open("wal.log".to_string(), log.len() as u64, config.wal_sync.clone());
        let manifest = match manifest {
            Some(m) => m,
            None => Manifest::new(7, "default".to_string(), "wal.log".to_string(), 7),
        };
        let tables = manifest.sstables.iter().map(|m| open_table(&files, &m.path)).collect();
        let engine = LsmEngine::open("data".to_string(), config, wal, manifest, tables, &log);
        Store { files, engine }
    }

    fn new(config: LsmConfig) -> Store {
        Store::open(Files::new(), None, config)
    }

    fn reopen(self, config: LsmConfig) -> Store {
        let manifest = copy_manifest(self.engine.manifest());
        Store::open(self.files, Some(manifest), config)
    }

    fn write(&mut self, w: PendingWrite) -> u64 {
        let log = self.files.entry("wal.log".to_string()).or_default();
        assert_eq!(log.len() as u64, w.append.offset);
        log.extend_from_slice(&w.append.record);
        if self.engine.apply(&w.entries, w.extra_bytes) {
            if self.flush() {
                self.compact();
            }
        }
        w.append.lsn
    }

    fn put(&mut self, key: LsmKey, value: &[u8]) -> u64 {
        let w = self.engine.put(key, LsmValue::Data(value.to_vec()));
        self.write(w)
    }

    fn batch_put(&mut self, entries: Vec<(LsmKey, LsmValue)>) -> u64 {
        match self.engine.batch_put(entries) {
            BatchStep::Nothing { next_lsn } => next_lsn,
            BatchStep::Write(w) => self.write(w),
        }
    }

    fn delete(&mut self, namespace: u8, doc_id: u64) -> u64 {
        let w = self.engine.delete(namespace, doc_id);
        self.write(w)
    }

    fn get(&self, key: LsmKey) -> Option<LsmValue> {
        let mut step = self.engine.begin_get(&key);
        loop {
            match step {
                GetStep::Found(value) => return Some(value),
                GetStep::Missing => return None,
                GetStep::Read { table, first, end } => {
                    let blocks = read_span(&self.files, &self.engine.tables()[table], first, end);
                    step = self.engine.resume_get(&key, table, &blocks).unwrap();
                }
            }
        }
    }

    fn scan_prefix(&self, namespace: u8, partition: u32) -> Vec<(LsmKey, LsmValue)> {
        let mut blocks = Vec::new();
        for i in 0..self.engine.tables().len() {
            let (first, end) = self.engine.blocks_for_prefix(i, namespace, partition);
            blocks.push(read_span(&self.files, &self.engine.tables()[i], first, end));
        }
        self.engine.scan_prefix(namespace, partition, &blocks).unwrap()
    }

    fn write_table(&mut self, job: &FlushJob) -> SSTable {
        assert!(fits_table(&job.entries));
        let built = build_table(job.id as u32, format!("data/{}", job.file_name), &job.entries).unwrap();
        let mut file = Vec::new();
        for w in &built.writes {
            assert_eq!(w.offset as usize, file.len());
            file.extend_from_slice(&w.bytes);
        }
        self.files.insert(built.path.clone(), file);
        open_table(&self.files, &built.path)
    }

    fn flush(&mut self) -> bool {
        let Some(job) = self.engine.begin_flush() else { return false };
        let table = self.write_table(&job);
        self.engine.record_table(&table, 8);
        self.engine.finish_flush(table)
    }

    fn compact(&mut self) {
        let mut all = Vec::new();
        let mut ids = Vec::new();
        let mut paths = Vec::new();
        for t in self.engine.tables() {
            let blocks = read_span(&self.files, t, 0, t.index.len());
            all.extend(t.iter_all_raw(&blocks).unwrap());
            ids.push(t.id);
            paths.push(t.path.clone());
        }
        let merged = self.engine.begin_compaction(&all).map(|job| self.write_table(&job));
        self.engine.install_compaction(ids, merged, 9);
        for p in paths {
            self.files.remove(&p);
        }
    }
}

fn is_data(value: &Option<LsmValue>, bytes: &[u8]) -> bool {
    matches!(value, Some(LsmValue::Data(b)) if b.as_slice() == bytes)
}

#[test]
fn test_put_get_basic() {
    let mut lsm = Store::new(LsmConfig::default());
    let key = LsmKey { namespace: 0x01, partition_or_segment: 0, doc_id: 1, lsn: 0 };
    lsm.put(key, b"hello");
    assert!(is_data(&lsm.get(key), b"hello"));
}

#[test]
fn test_tombstone() {
    let mut lsm = Store::new(LsmConfig::default());
    lsm.put(LsmKey::doc(1), b"hello");
    lsm.delete(0x01, 1);
    assert!(matches!(lsm.get(LsmKey::doc(1)), Some(LsmValue::Tombstone)));
}

#[test]
fn test_compaction_drops_tombstone() {
    let mut cfg = LsmConfig::default();
    cfg.memtable_max_bytes = 1024;
    cfg.sstable_compact_threshold = 2;
    let mut lsm = Store::new(cfg);
    lsm.put(LsmKey::doc(1), b"v1");
    lsm.flush();
    lsm.delete(0x01, 1);
    lsm.flush();
    lsm.compact();
    assert!(lsm.get(LsmKey::doc(1)).is_none());
    assert_eq!(lsm.engine.sstable_count(), 0);
    assert!(lsm.engine.manifest().sstables.is_empty());
}

#[test]
fn test_scan_prefix() {
    let mut lsm = Store::new(LsmConfig::default());
    lsm.put(LsmKey::vec(5, 1), b"v1");
    lsm.put(LsmKey::vec(5, 2), b"v2");
    lsm.put(LsmKey::vec(7, 3), b"v3");
    assert_eq!(lsm.scan_prefix(NS_VEC, 5).len(), 2);
    assert_eq!(lsm.scan_prefix(NS_VEC, 7).len(), 1);
    assert_eq!(lsm.scan_prefix(NS_VEC, 999).len(), 0);
}

#[test]
fn test_wal_recovery() {
    let mut lsm = Store::new(LsmConfig::default());
    lsm.put(LsmKey::doc(1), b"v1");
    lsm.put(LsmKey::doc(2), b"v2");
    let lsm = lsm.reopen(LsmConfig::default());
    assert!(is_data(&lsm.get(LsmKey::doc(1)), b"v1"));
    assert!(is_data(&lsm.get(LsmKey::doc(2)), b"v2"));
}

#[test]
fn test_wal_recovery_with_tombstone() {
    let mut lsm = Store::new(LsmConfig::default());
    lsm.put(LsmKey::doc(10), b"hello");
    lsm.delete(NS_DOC, 10);
    let lsm = lsm.reopen(LsmConfig::default());
    assert!(matches!(lsm.get(LsmKey::doc(10)), Some(LsmValue::Tombstone)));
}

#[test]
fn test_overwrite_latest_wins() {
    let mut lsm = Store::new(LsmConfig::default());
    lsm.put(LsmKey::doc(1), b"v1");
    lsm.put(LsmKey::doc(1), b"v2");
    lsm.put(LsmKey::doc(1), b"v3");
    assert!(is_data(&lsm.get(LsmKey::doc(1)), b"v3"));
}

#[test]
fn test_flush_then_get() {
    let mut lsm = Store::new(LsmConfig::default());
    for i in 0..50u64 {
        lsm.put(LsmKey::doc(i), format!("v{}", i).as_bytes());
    }
    lsm.flush();
    assert!(lsm.engine.sstable_count() >= 1);
    for i in 0..50u64 {
        assert!(is_data(&lsm.get(LsmKey::doc(i)), format!("v{}", i).as_bytes()), "doc {} mismatch after flush", i);
    }
}

#[test]
fn test_compaction_merges_duplicates() {
    let mut cfg = LsmConfig::default();
    cfg.sstable_compact_threshold = 2;
    let mut lsm = Store::new(cfg);
    lsm.put(LsmKey::doc(1), b"v1");
    lsm.flush();
    lsm.put(LsmKey::doc(1), b"v2");
    lsm.flush();
    lsm.compact();
    assert_eq!(lsm.engine.sstable_count(), 1);
    assert!(is_data(&lsm.get(LsmKey::doc(1)), b"v2"));
}

#[test]
fn test_wal_sync_none_still_recovers_from_memtable() {
    let mut cfg = LsmConfig::default();
    cfg.wal_sync = WalSync::Never;
    let mut lsm = Store::new(cfg.clone());
    let w = lsm.engine.put(LsmKey::doc(42), LsmValue::Data(b"answer".to_vec()));
    assert!(!w.append.fsync);
    lsm.write(w);
    let lsm = lsm.reopen(cfg);
    assert!(lsm.get(LsmKey::doc(42)).is_some());
}

#[test]
fn test_io_backend_kind_default() {
    let cfg = LsmConfig::default();
    assert!(matches!(cfg.io_backend, IoBackendKind::AsyncFs));
    assert_eq!(cfg.memtable_max_bytes, 64 * 1024 * 1024);
    assert_eq!(cfg.sstable_compact_threshold, 4);
    assert!(matches!(cfg.wal_sync, WalSync::EveryCommit));
}

#[test]
fn batch_shares_one_sequence_number() {
    let mut lsm = Store::new(LsmConfig::default());
    assert_eq!(lsm.batch_put(Vec::new()), 0);
    lsm.put(LsmKey::doc(9), b"before");
    let lsn = lsm.batch_put(vec![
        (LsmKey::doc(1), LsmValue::Data(b"a".to_vec())),
        (LsmKey::vec(3, 1), LsmValue::Data(b"b".to_vec())),
        (LsmKey::doc(9), LsmValue::Tombstone),
    ]);
    assert_eq!(lsn, 1);
    assert!(is_data(&lsm.get(LsmKey::doc(1)), b"a"));
    assert!(is_data(&lsm.get(LsmKey::vec(3, 1)), b"b"));
    assert!(matches!(lsm.get(LsmKey::doc(9)), Some(LsmValue::Tombstone)));
    for (key, _) in lsm.scan_prefix(NS_VEC, 3) {
        assert_eq!(key.lsn, 1);
    }
    let lsm = lsm.reopen(LsmConfig::default());
    assert!(is_data(&lsm.get(LsmKey::doc(1)), b"a"));
    assert!(matches!(lsm.get(LsmKey::doc(9)), Some(LsmValue::Tombstone)));
}

#[test]
fn recovery_skips_torn_batch() {
    let mut lsm = Store::new(LsmConfig::default());
    lsm.put(LsmKey::doc(1), b"whole");
    lsm.batch_put(vec![
        (LsmKey::doc(2), LsmValue::Data(b"torn".to_vec())),
        (LsmKey::doc(3), LsmValue::Data(b"torn".to_vec())),
    ]);
    let log = lsm.files.get_mut("wal.log").unwrap();
    let cut = log.len() - 1;
    log.truncate(cut);
    let lsm = lsm.reopen(LsmConfig::default());
    assert!(is_data(&lsm.get(LsmKey::doc(1)), b"whole"));
    assert!(lsm.get(LsmKey::doc(2)).is_none());
    assert!(lsm.get(LsmKey::doc(3)).is_none());
}

#[test]
fn small_memory_flushes_and_merges_by_itself() {
    let mut cfg = LsmConfig::default();
    cfg.memtable_max_bytes = 200;
    cfg.sstable_compact_threshold = 3;
    let mut lsm = Store::new(cfg);
    for round in 0..5u64 {
        for i in 0..40u64 {
            lsm.put(LsmKey::doc(i), format!("{}-{}", i, round).as_bytes());
        }
    }
    assert!(lsm.engine.sstable_count() < 3);
    assert_eq!(lsm.engine.manifest().sstables.len(), lsm.engine.sstable_count());
    for i in 0..40u64 {
        assert!(is_data(&lsm.get(LsmKey::doc(i)), format!("{}-4", i).as_bytes()));
    }
    let scan = lsm.scan_prefix(NS_DOC, 0);
    assert_eq!(scan.len(), 40);
    for (key, value) in scan {
        assert!(is_data(&Some(value), format!("{}-4", key.doc_id).as_bytes()));
    }
}

#[test]
fn scan_sees_newest_version_across_layers() {
    let mut lsm = Store::new(LsmConfig::default());
    lsm.put(LsmKey::vec(1, 1), b"old");
    lsm.put(LsmKey::vec(1, 2), b"kept");
    lsm.flush();
    lsm.put(LsmKey::vec(1, 1), b"mid");
    lsm.put(LsmKey::vec(1, 1), b"new");
    lsm.put(LsmKey::vec(1, 3), b"third");
    let mut found: Vec<(u64, Vec<u8>)> = lsm
        .scan_prefix(NS_VEC, 1)
        .into_iter()
        .map(|(k, v)| match v {
            LsmValue::Data(b) => (k.doc_id, b),
            LsmValue::Tombstone => panic!("no deletion was written"),
        })
        .collect();
    found.sort();
    assert_eq!(
        found,
        vec![(1, b"new".to_vec()), (2, b"kept".to_vec()), (3, b"third".to_vec())]
    );
}

#[test]
fn reopened_engine_numbers_tables_on() {
    let mut lsm = Store::new(LsmConfig::default());
    lsm.put(LsmKey::doc(1), b"a");
    lsm.flush();
    assert_eq!(lsm.engine.tables()[0].id, 1);
    assert_eq!(lsm.engine.tables()[0].path, "data/sstable-0001.bin");
    let mut lsm = lsm.reopen(LsmConfig::default());
    lsm.put(LsmKey::doc(2), b"b");
    lsm.flush();
    assert_eq!(lsm.engine.tables()[1].id, 2);
    assert_eq!(lsm.engine.dir(), "data");
    assert!(is_data(&lsm.get(LsmKey::doc(1)), b"a"));
    assert!(is_data(&lsm.get(LsmKey::doc(2)), b"b"));
}

#[test]
fn table_names_have_four_digits() {
    assert_eq!(table_file_name(7), "sstable-0007.bin");
    assert_eq!(table_file_name(12345), "sstable-12345.bin");
}

#[test]
fn memory_bytes_count_keys_and_values() {
    let mut lsm = Store::new(LsmConfig::default());
    assert_eq!(lsm.engine.memtable_bytes(), 0);
    lsm.put(LsmKey::doc(1), b"abc");
    assert_eq!(lsm.engine.memtable_bytes(), 21 + 5 + 3);
    lsm.delete(NS_DOC, 1);
    assert_eq!(lsm.engine.memtable_bytes(), 29 + 21 + 1);
}

#[test]
fn meta_keys_depend_on_the_name() {
    let a = LsmKey::meta("schema");
    let b = LsmKey::meta("schema");
    let c = LsmKey::meta("next_doc_id");
    assert_eq!(a, b);
    assert_eq!(a.namespace, NS_META);
    assert_ne!(a.doc_id, c.doc_id);
}

#[test]
fn deletions_reach_partition_zero_only() {
    let mut lsm = Store::new(LsmConfig::default());
    lsm.put(LsmKey::doc(1), b"one");
    lsm.put(LsmKey::doc(2), b"two");
    lsm.put(LsmKey::vec(5, 1), b"vector");
    lsm.delete(0x01, 1);
    lsm.delete(0x01, 9);
    assert!(matches!(lsm.get(LsmKey::doc(1)), Some(LsmValue::Tombstone)));
    assert!(matches!(lsm.get(LsmKey::doc(9)), Some(LsmValue::Tombstone)));
    assert_eq!(lsm.get(LsmKey::doc(2)), Some(LsmValue::Data(b"two".to_vec())));
    assert_eq!(lsm.get(LsmKey::vec(5, 1)), Some(LsmValue::Data(b"vector".to_vec())));
}

#[test]
fn rotation_changes_no_read() {
    let mut lsm = Store::new(LsmConfig::default());
    lsm.put(LsmKey::doc(1), b"flushed");
    lsm.flush();
    lsm.put(LsmKey::doc(2), b"in memory");
    lsm.delete(0x01, 1);
    lsm.engine.wal_rotated();
    assert!(matches!(lsm.get(LsmKey::doc(1)), Some(LsmValue::Tombstone)));
    assert_eq!(lsm.get(LsmKey::doc(2)), Some(LsmValue::Data(b"in memory".to_vec())));
}

#[test]
fn reopening_over_a_rotated_log() {
    let mut lsm = Store::new(LsmConfig::default());
    lsm.put(LsmKey::doc(1), b"flushed");
    lsm.put(LsmKey::doc(2), b"old");
    lsm.flush();
    lsm.files.insert("wal.log".to_string(), Vec::new());
    lsm.engine.wal_rotated();
    lsm.put(LsmKey::doc(2), b"new");
    let lsm = lsm.reopen(LsmConfig::default());
    assert!(is_data(&lsm.get(LsmKey::doc(1)), b"flushed"));
    assert!(is_data(&lsm.get(LsmKey::doc(2)), b"new"));
}
