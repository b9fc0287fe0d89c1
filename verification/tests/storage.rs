use seekstorm_core::storage::compaction::merge_entries;
use seekstorm_core::storage::key::{number_value, read_number, KeyLengthError, ValueError};
use seekstorm_core::storage::sstable::{SSTable, SStableWriter, TableError};
use seekstorm_core::storage::table_file::build_table;
use seekstorm_core::storage::wal::{frame_record, parse_record, read_log, Wal, WalError, WalOp, WalSync};
use seekstorm_core::{LsmKey, LsmValue, Manifest, MemTable, SSTableMeta, NS_DOC, NS_VEC};

fn data(bytes: &[u8]) -> LsmValue {
    LsmValue::Data(bytes.to_vec())
}

#[test]
fn key_bytes_are_big_endian() {
    let key = LsmKey { namespace: 2, partition_or_segment: 0x01020304, doc_id: 258, lsn: 7 };
    let bytes = key.encode();
    assert_eq!(bytes, [2, 1, 2, 3, 4, 0, 0, 0, 0, 0, 0, 1, 2, 0, 0, 0, 0, 0, 0, 0, 7]);
    assert_eq!(LsmKey::decode(&bytes).unwrap(), key);
    assert_eq!(LsmKey::ENCODED_LEN, 21);
    assert_eq!(LsmKey::decode(&bytes[..20]), Err(KeyLengthError { got: 20 }));
}

#[test]
fn key_order_is_byte_order() {
    let mut keys = Vec::new();
    for namespace in [1u8, 2] {
        for partition_or_segment in [0u32, 256] {
            for doc_id in [0u64, 255, 256] {
                for lsn in [0u64, u64::MAX] {
                    keys.push(LsmKey { namespace, partition_or_segment, doc_id, lsn });
                }
            }
        }
    }
    for a in &keys {
        for b in &keys {
            assert_eq!(a < b, a.encode() < b.encode());
            assert_eq!(a.less(b), a < b);
        }
    }
}

#[test]
fn value_bytes_and_errors() {
    assert_eq!(data(b"ab").encode(), vec![0, 0, 0, 0, 2, 97, 98]);
    assert_eq!(LsmValue::Tombstone.encode(), vec![1]);
    assert_eq!(data(b"ab").encoded_len(), 7);
    assert_eq!(LsmValue::Tombstone.encoded_len(), 1);
    assert!(LsmValue::Tombstone.is_tombstone());
    assert_eq!(LsmValue::decode(&[0, 0, 0, 0, 2, 97, 98]).unwrap(), data(b"ab"));
    let (value, len) = LsmValue::decode_with_len(&[1, 9, 9]).unwrap();
    assert_eq!((value, len), (LsmValue::Tombstone, 1));
    assert!(matches!(LsmValue::decode(&[]), Err(ValueError::Empty)));
    assert!(matches!(LsmValue::decode(&[0, 0, 0]), Err(ValueError::DataTooShort)));
    assert!(matches!(
        LsmValue::decode(&[0, 0, 0, 0, 5, 1]),
        Err(ValueError::Truncated { expected: 5, got: 1 })
    ));
    assert!(matches!(LsmValue::decode(&[9]), Err(ValueError::UnknownType { tag: 9 })));
}

#[test]
fn numbers_are_stored_in_eight_bytes() {
    assert_eq!(read_number(&Some(number_value(u64::MAX - 1))), u64::MAX - 1);
    assert_eq!(read_number(&Some(data(&[0, 0, 0, 0, 0, 0, 1, 0, 77]))), 256);
    assert_eq!(read_number(&Some(data(&[1, 2, 3]))), 0);
    assert_eq!(read_number(&Some(LsmValue::Tombstone)), 0);
    assert_eq!(read_number(&None), 0);
}

#[test]
fn memtable_keeps_versions_and_reads_the_newest() {
    let mut t = MemTable::new();
    assert!(t.is_empty());
    let at = |doc_id: u64, lsn: u64| LsmKey { namespace: NS_DOC, partition_or_segment: 0, doc_id, lsn };
    t.insert(at(2, 5), data(b"b5"));
    t.insert(at(1, 3), data(b"a3"));
    t.insert(at(2, 9), LsmValue::Tombstone);
    t.insert(at(2, 7), data(b"b7"));
    assert_eq!(t.get(&LsmKey::doc(1)), Some(data(b"a3")));
    assert_eq!(t.get(&LsmKey::doc(2)), Some(LsmValue::Tombstone));
    assert_eq!(t.get(&LsmKey::doc(3)), None);
    let listed: Vec<LsmKey> = t.iter().into_iter().map(|(k, _)| k).collect();
    assert_eq!(listed, vec![at(1, 3), at(2, 5), at(2, 7), at(2, 9)]);
    assert_eq!(t.range_scan(NS_DOC, 0).len(), 4);
    assert_eq!(t.range_scan(NS_DOC, 1).len(), 0);
    assert_eq!(t.approx_bytes(), 21 + 7 + 21 + 7 + 21 + 1 + 21 + 7);
    assert_eq!(t.into_iter().len(), 4);
    assert!(MemTable::default().is_empty());
}

/// A table in a file that is kept in memory.
struct File {
    bytes: Vec<u8>,
    table: SSTable,
}

fn open_file(path: &str, bytes: Vec<u8>) -> Result<File, TableError> {
    let at = SSTable::footer_offset(bytes.len() as u64)?;
    let index_offset = SSTable::read_footer(&bytes[at as usize..])?;
    let len = SSTable::index_len(bytes.len() as u64, index_offset).unwrap();
    let index = bytes[index_offset as usize..(index_offset + len) as usize].to_vec();
    let table = SSTable::open(path.to_string(), index_offset, &index)?;
    Ok(File { bytes, table })
}

fn write_file(id: u32, entries: Vec<(LsmKey, LsmValue)>) -> File {
    let path = format!("sstable-{}.bin", id);
    let mut bytes = Vec::new();
    let mut writer = SStableWriter::new(id, path.clone());
    for (key, value) in entries {
        if let Some(w) = writer.write(key, value) {
            assert_eq!(w.offset as usize, bytes.len());
            bytes.extend_from_slice(&w.bytes);
        }
    }
    let tail = writer.finish().unwrap();
    for w in &tail.writes {
        assert_eq!(w.offset as usize, bytes.len());
        bytes.extend_from_slice(&w.bytes);
    }
    assert_eq!(tail.file_size as usize, bytes.len());
    open_file(&path, bytes).unwrap()
}

impl File {
    fn blocks(&self, span: (usize, usize)) -> Vec<Vec<u8>> {
        assert!(self.table.has_ordered_blocks());
        (span.0..span.1)
            .map(|i| {
                let (offset, len) = self.table.block_span(i);
                self.bytes[offset as usize..(offset + len) as usize].to_vec()
            })
            .collect()
    }

    fn get(&self, key: LsmKey) -> Option<LsmValue> {
        self.table.get(&key, &self.blocks(self.table.blocks_for_key(&key))).unwrap()
    }

    fn scan_prefix(&self, ns: u8, partition: u32) -> Vec<(LsmKey, LsmValue)> {
        let blocks = self.blocks(self.table.blocks_for_prefix(ns, partition));
        self.table.scan_prefix(ns, partition, &blocks).unwrap()
    }
}

#[test]
fn test_sstable_write_read() {
    let entries = (0..1000u64)
        .map(|i| (LsmKey::doc(i), data(format!("value-{}", i).as_bytes())))
        .collect();
    let sst = write_file(1, entries);
    assert_eq!(sst.table.entry_count, 1000);
    assert_eq!(sst.table.entry_count(), 1000);
    assert!(sst.table.index.len() > 1);
    for i in 0..1000u64 {
        let v = sst.get(LsmKey::doc(i)).unwrap();
        assert!(
            matches!(v, LsmValue::Data(ref b) if b == &format!("value-{}", i).into_bytes()),
            "doc {} mismatch",
            i
        );
    }
    assert!(sst.get(LsmKey::doc(1001)).is_none());
}

#[test]
fn test_sstable_scan_prefix() {
    let sst = write_file(
        2,
        vec![
            (LsmKey::doc(1), data(b"d1")),
            (LsmKey::doc(2), data(b"d2")),
            (LsmKey::vec(5, 10), data(b"v5-10")),
            (LsmKey::vec(5, 11), data(b"v5-11")),
            (LsmKey::vec(7, 20), data(b"v7-20")),
        ],
    );
    assert_eq!(sst.scan_prefix(NS_VEC, 5).len(), 2);
    assert_eq!(sst.scan_prefix(NS_VEC, 7).len(), 1);
    assert_eq!(sst.scan_prefix(NS_DOC, 0).len(), 2);
    assert_eq!(sst.scan_prefix(NS_VEC, 999).len(), 0);
}

#[test]
fn test_sstable_tombstone() {
    let sst = write_file(3, vec![(LsmKey::doc(1), data(b"v1")), (LsmKey::doc(2), LsmValue::Tombstone)]);
    let v1 = sst.get(LsmKey::doc(1)).unwrap();
    assert!(matches!(v1, LsmValue::Data(ref b) if b == b"v1"));
    let v2 = sst.get(LsmKey::doc(2)).unwrap();
    assert!(matches!(v2, LsmValue::Tombstone));
}

#[test]
fn sstable_reads_newest_version_across_blocks() {
    let entries: Vec<(LsmKey, LsmValue)> = (0..400u64)
        .map(|lsn| {
            let key = LsmKey { namespace: NS_DOC, partition_or_segment: 0, doc_id: 5, lsn };
            (key, data(format!("version-{}", lsn).as_bytes()))
        })
        .collect();
    let sst = write_file(4, entries);
    assert!(sst.table.index.len() > 2);
    assert_eq!(sst.get(LsmKey::doc(5)), Some(data(b"version-399")));
    let scan = sst.scan_prefix(NS_DOC, 0);
    assert_eq!(scan.len(), 1);
    assert_eq!(scan[0].0.lsn, 399);
    let all = sst.table.iter_all_raw(&sst.blocks((0, sst.table.index.len()))).unwrap();
    assert_eq!(all.len(), 400);
}

#[test]
fn sstable_file_layout_is_fixed() {
    let built = build_table(9, "t".to_string(), &vec![(LsmKey::doc(1), data(b"v"))]).unwrap();
    let bytes: Vec<u8> = built.writes.iter().flat_map(|w| w.bytes.clone()).collect();
    let key = LsmKey::doc(1).encode();
    let mut expected = Vec::new();
    expected.extend_from_slice(&key);
    expected.extend_from_slice(&[0, 0, 0, 0, 1, b'v']);
    expected.extend_from_slice(b"SKST");
    expected.extend_from_slice(&[0, 0, 0, 1, 0, 0, 0, 9, 0, 0, 0, 1, 0, 0, 0, 1]);
    expected.extend_from_slice(&key);
    expected.extend_from_slice(&key);
    expected.extend_from_slice(&key);
    expected.extend_from_slice(&[0; 8]);
    expected.extend_from_slice(&[0, 0, 0, 0, 0, 0, 0, 27]);
    expected.extend_from_slice(b"SKST_END");
    assert_eq!(bytes, expected);
}

#[test]
fn sstable_open_errors() {
    let good = write_file(5, vec![(LsmKey::doc(1), data(b"v1"))]).bytes;
    let error = |bytes: Vec<u8>| match open_file("t", bytes) {
        Err(e) => e,
        Ok(_) => panic!("the table was opened"),
    };
    assert_eq!(error(vec![0; 15]), TableError::TooSmall { size: 15 });
    let mut footer = good.clone();
    let last = footer.len() - 1;
    footer[last] = 0;
    assert_eq!(error(footer), TableError::FooterMagic);
    let index_at = 21 + 7;
    let mut magic = good.clone();
    magic[index_at] = 0;
    assert_eq!(error(magic), TableError::IndexMagic);
    let mut version = good.clone();
    version[index_at + 7] = 2;
    assert_eq!(error(version), TableError::UnsupportedVersion { version: 2 });
    let mut blocks = good.clone();
    blocks[index_at + 19] = 2;
    assert_eq!(error(blocks), TableError::IndexEntryTruncated);
    assert!(matches!(
        SSTable::open("t".to_string(), 0, &good[index_at..index_at + 61]),
        Err(TableError::IndexTooShort)
    ));
    assert!(matches!(SStableWriter::new(1, "t".to_string()).finish(), Err(TableError::NoEntries)));
    assert_eq!(SSTable::index_len(20, 5), None);
}

#[test]
fn merging_keeps_the_newest_and_drops_deletions() {
    let at = |doc_id: u64, lsn: u64| LsmKey { namespace: NS_DOC, partition_or_segment: 0, doc_id, lsn };
    let merged = merge_entries(&vec![
        (at(1, 1), data(b"a1")),
        (at(3, 2), data(b"c2")),
        (at(1, 4), data(b"a4")),
        (at(3, 9), LsmValue::Tombstone),
        (at(2, 0), data(b"b0")),
        (at(1, 3), LsmValue::Tombstone),
    ]);
    assert_eq!(merged, vec![(at(1, 4), data(b"a4")), (at(2, 0), data(b"b0"))]);
}

fn wal_put(doc_id: u64, bytes: &[u8]) -> WalOp {
    WalOp::Put { key: LsmKey::doc(doc_id), value: data(bytes) }
}

#[test]
fn test_wal_append_recover() {
    let mut wal = Wal::open("test.wal".to_string(), 0, WalSync::EveryCommit);
    let mut log = Vec::new();
    let a1 = wal.append(wal_put(1, b"v1"));
    assert_eq!(a1.offset, 0);
    assert!(a1.fsync);
    log.extend_from_slice(&a1.record);
    let a2 = wal.append(wal_put(2, b"v2"));
    assert_eq!(a2.offset as usize, log.len());
    log.extend_from_slice(&a2.record);
    assert_eq!(a1.lsn, 0);
    assert_eq!(a2.lsn, 1);

    let records = wal.recover(&log);
    assert_eq!(records.len(), 2);
    assert_eq!(records[0].lsn, 0);
    assert_eq!(records[1].lsn, 1);
    assert!(matches!(records[0].op, WalOp::Put { .. }));
    assert_eq!(wal.next_lsn(), 2);
}

#[test]
fn test_wal_recover_after_drop() {
    let mut log = Vec::new();
    {
        let mut wal = Wal::open("test.wal".to_string(), 0, WalSync::EveryCommit);
        log.extend_from_slice(&wal.append(wal_put(1, b"v1")).record);
        log.extend_from_slice(&wal.append(WalOp::Delete { namespace: 1, doc_id: 5 }).record);
    }
    let mut wal = Wal::open("test.wal".to_string(), log.len() as u64, WalSync::EveryCommit);
    let records = wal.recover(&log);
    assert_eq!(records.len(), 2);
    assert!(matches!(records[0].op, WalOp::Put { .. }));
    assert!(matches!(records[1].op, WalOp::Delete { .. }));
}

#[test]
fn test_wal_truncate() {
    let mut wal = Wal::open("test.wal".to_string(), 0, WalSync::EveryCommit);
    let mut log = Vec::new();
    log.extend_from_slice(&wal.append(wal_put(1, b"v1")).record);
    log.extend_from_slice(&wal.append(wal_put(2, b"v2")).record);
    log.extend_from_slice(&wal.append(wal_put(3, b"v3")).record);

    let len = wal.truncate_to(&log, 2);
    log.truncate(len as usize);
    assert_eq!(wal.size(), len);
    let records = wal.recover(&log);
    assert_eq!(records.len(), 2);
}

#[test]
fn wal_round_trips_every_operation() {
    let ops = vec![
        WalOp::Put { key: LsmKey::doc(1), value: LsmValue::Tombstone },
        WalOp::BatchPut { entries: vec![(LsmKey::doc(2), data(b"x")), (LsmKey::vec(1, 3), LsmValue::Tombstone)] },
        WalOp::Delete { namespace: 1, doc_id: 4 },
        WalOp::PartitionSplit { old: 1, new: 2, moved: 3 },
        WalOp::Checkpoint { last_applied_lsn: 77 },
    ];
    let mut wal = Wal::open("w".to_string(), 0, WalSync::Never);
    let mut log = Vec::new();
    for op in ops {
        let a = wal.append(op);
        assert!(!a.fsync);
        assert!(!a.rotate);
        log.extend_from_slice(&a.record);
    }
    let records = read_log(&log);
    assert_eq!(records.len(), 5);
    assert!(matches!(&records[0].op, WalOp::Put { key, value: LsmValue::Tombstone } if key.doc_id == 1 && key.lsn == 0));
    match &records[1].op {
        WalOp::BatchPut { entries } => {
            assert_eq!(entries.len(), 2);
            assert_eq!(entries[0].0.lsn, 1);
            assert_eq!(entries[0].1, data(b"x"));
            assert_eq!(entries[1].0.doc_id, 3);
        }
        _ => panic!("expected a batch"),
    }
    assert!(matches!(records[2].op, WalOp::Delete { namespace: 1, doc_id: 4 }));
    assert!(matches!(records[3].op, WalOp::PartitionSplit { old: 1, new: 2, moved: 3 }));
    assert!(matches!(records[4].op, WalOp::Checkpoint { last_applied_lsn: 77 }));
    let total: usize = records.iter().map(|r| r.total_len).sum();
    assert_eq!(total, log.len());
}

#[test]
fn wal_record_layout_and_checksum() {
    let record = frame_record(3, 3, &[0, 0, 0, 0, 0, 0, 0, 5]);
    let body: Vec<u8> = vec![0, 0, 0, 0, 0, 0, 0, 3, 3, 0, 0, 0, 0, 0, 0, 0, 5];
    let mut expected = vec![0, 0, 0, 21];
    expected.extend_from_slice(&body);
    expected.extend_from_slice(&crc32fast::hash(&body).to_be_bytes());
    assert_eq!(record, expected);
    assert_eq!(crc32fast::hash(b"123456789"), 0xcbf43926);
}

#[test]
fn wal_record_errors() {
    let good = frame_record(3, 3, &[0, 0, 0, 0, 0, 0, 0, 5]);
    let error = |bytes: &[u8]| match parse_record(bytes) {
        Err(e) => e,
        Ok(_) => panic!("the record was read"),
    };
    assert!(matches!(error(&good[..3]), WalError::IncompleteLength));
    assert!(matches!(error(&good[..24]), WalError::IncompleteBody));
    assert!(matches!(error(&[0, 0, 0, 2, 1, 1]), WalError::BodyTooShort { len: 2 }));
    let mut bad = good.clone();
    bad[20] = 6;
    assert!(matches!(error(&bad), WalError::CrcMismatch { lsn: 3 }));
    assert!(matches!(error(&frame_record(3, 3, &[1])), WalError::PayloadTooShort { op_code: 3, len: 1 }));
    assert!(matches!(error(&frame_record(3, 99, &[])), WalError::UnknownOp { op_code: 99 }));
    let mut put = LsmKey::doc(1).encode().to_vec();
    put.push(7);
    assert!(matches!(
        error(&frame_record(3, 0, &put)),
        WalError::BadValue { error: ValueError::UnknownType { tag: 7 } }
    ));
    let mut two = good.clone();
    two.extend_from_slice(&good);
    two[good.len() + 5] = 1;
    assert_eq!(read_log(&two).len(), 1);
}

#[test]
fn large_log_asks_for_rotation() {
    let mut wal = Wal::open("w".to_string(), 67_108_860, WalSync::EveryCommit);
    let a = wal.append(wal_put(1, b"v1"));
    assert!(a.rotate);
    wal.rotated();
    assert_eq!(wal.size(), 0);
    assert_eq!(wal.next_lsn(), 1);
    assert_eq!(wal.path(), "w");
}

fn meta(id: u32, entry_count: u32) -> SSTableMeta {
    SSTableMeta {
        id,
        path: format!("sstable-{}.bin", id),
        entry_count,
        min_key_bytes: [0; 21],
        max_key_bytes: [0xff; 21],
    }
}

#[test]
fn test_manifest_replace() {
    let mut m = Manifest::new(1, "idx".to_string(), "w.wal".to_string(), 5);
    for i in 1..=4 {
        m.add_sstable(meta(i, i * 10), 6);
    }
    assert_eq!(m.sstables.len(), 4);
    m.replace_sstables(vec![1, 2, 3, 4], meta(5, 100), 7);
    assert_eq!(m.sstables.len(), 1);
    assert_eq!(m.sstables[0].id, 5);
    assert_eq!(m.created_at, 5);
    assert_eq!(m.updated_at, 7);
}

#[test]
fn manifest_keeps_the_other_tables() {
    let mut m = Manifest::new(1, "idx".to_string(), "w.wal".to_string(), 5);
    for i in 1..=4 {
        m.add_sstable(meta(i, i * 10), 6);
    }
    assert_eq!(m.max_sstable_id(), 4);
    m.replace_sstables(vec![2, 9], meta(5, 100), 7);
    let ids: Vec<u32> = m.sstables.iter().map(|s| s.id).collect();
    assert_eq!(ids, vec![1, 3, 4, 5]);
    m.add_sstable(SSTableMeta { path: String::new(), ..meta(0, 0) }, 8);
    m.drop_placeholders();
    assert_eq!(m.sstables.len(), 4);
}

#[test]
fn logs_with_any_sequence_numbers_are_read() {
    let delete = |doc_id: u64| {
        let mut payload = vec![NS_DOC];
        payload.extend_from_slice(&doc_id.to_be_bytes());
        payload
    };
    let mut log = Vec::new();
    for (lsn, doc_id) in [(7u64, 1u64), (3, 2), (40, 3), (3, 4)] {
        let record = frame_record(lsn, 1, &delete(doc_id));
        for cut in 0..record.len() {
            assert!(parse_record(&record[..cut]).is_err());
        }
        assert_eq!(parse_record(&record).unwrap().1, 9 + 17);
        log.extend_from_slice(&record);
    }
    log.extend_from_slice(&frame_record(50, 1, &delete(5))[..20]);
    let mut wal = Wal::open("wal.log".to_string(), log.len() as u64, WalSync::Never);
    let records = wal.recover(&log);
    assert_eq!(records.iter().map(|r| r.lsn).collect::<Vec<u64>>(), vec![7, 3, 40, 3]);
    for (record, expected) in records.iter().zip(1u64..) {
        assert!(matches!(record.op, WalOp::Delete { namespace: NS_DOC, doc_id } if doc_id == expected));
    }
    assert_eq!(wal.next_lsn(), 41);
}

#[test]
fn operations_are_decoded_from_their_payloads() {
    let key = LsmKey { namespace: 1, partition_or_segment: 2, doc_id: 3, lsn: 4 };
    let ops = [
        WalOp::Put { key, value: data(b"v") },
        WalOp::Delete { namespace: 1, doc_id: 9 },
        WalOp::PartitionSplit { old: 1, new: 2, moved: 3 },
        WalOp::Checkpoint { last_applied_lsn: 5 },
        WalOp::BatchPut { entries: vec![(key, LsmValue::Tombstone)] },
    ];
    for (code, op) in ops.iter().enumerate() {
        assert_eq!(op.op_code() as usize, code);
        let payload = op.encode_payload(77);
        let decoded = WalOp::decode(op.op_code(), 77, &payload).unwrap();
        assert_eq!(decoded.op_code(), op.op_code());
        assert_eq!(decoded.encode_payload(77), payload);
    }
    match WalOp::decode(0, 77, &ops[0].encode_payload(77)).unwrap() {
        WalOp::Put { key: decoded, value } => {
            assert_eq!(decoded, LsmKey { lsn: 77, ..key });
            assert_eq!(value, data(b"v"));
        }
        _ => panic!("expected a put"),
    }
}

#[test]
fn damaged_records_are_refused() {
    let record = frame_record(7, 3, &[0, 0, 0, 0, 0, 0, 0, 5]);
    assert!(parse_record(&record).is_ok());
    for i in 4..record.len() {
        for bit in 0..8 {
            let mut damaged = record.clone();
            damaged[i] ^= 1 << bit;
            assert!(matches!(parse_record(&damaged), Err(WalError::CrcMismatch { .. })));
        }
    }
}
