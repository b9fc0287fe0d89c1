use seekstorm_core::index::{
    next_doc_id_key, read_document, restore_next_doc_id, schema_snapshot_key, DocIdCheckpoint, IndexError,
};
use seekstorm_core::json::JsonValue;
use seekstorm_core::lexical::search::{
    intersect_docs, keep_live, lexical_stats_key, match_postings, matched_docs, read_total_docs, PostingHit, SearchError,
};
use seekstorm_core::lexical::{partition_of_hash, posting_entry, term_partition, Posting, TermOccurrence};
use seekstorm_core::rank::{order_key, top_ranked};
use seekstorm_core::schema::SchemaSnapshot;
use seekstorm_core::storage::key::{NS_LEXICAL_POSTING, NS_LEXICAL_STATS};
use seekstorm_core::storage::lsm::{BatchStep, GetStep, PendingWrite};
use seekstorm_core::vector::{KeyedVector, VectorError};
use seekstorm_core::{
    DynamicSchema, FieldType, Index, IndexConfig, LexicalEngine, LsmConfig, LsmEngine, LsmKey, LsmValue, Manifest,
    SchemalessDoc, TokenizerType, VectorConfig, VectorEngine, VectorSimilarity, Wal, WalSync, NS_DOC,
};

/// Storage that is kept in memory.
struct Store {
    engine: LsmEngine,
    log: Vec<u8>,
}

impl Store {
    fn open(log: Vec<u8>) -> Store {
        let wal = Wal::open("wal.log".to_string(), log.len() as u64, WalSync::EveryCommit);
        let manifest = Manifest::new(1, "default".to_string(), "wal.log".to_string(), 1);
        let engine = LsmEngine::open("data".to_string(), LsmConfig::default(), wal, manifest, Vec::new(), &log);
        Store { engine, log }
    }

    fn write(&mut self, w: PendingWrite) {
        self.log.extend_from_slice(&w.append.record);
        assert!(!self.engine.apply(&w.entries, w.extra_bytes));
    }

    fn get(&self, key: LsmKey) -> Option<LsmValue> {
        match self.engine.begin_get(&key) {
            GetStep::Found(value) => Some(value),
            GetStep::Missing => None,
            GetStep::Read { .. } => panic!("there are no tables"),
        }
    }

    fn scan(&self, namespace: u8, partition: u32) -> Vec<(LsmKey, LsmValue)> {
        self.engine.scan_prefix(namespace, partition, &Vec::new()).unwrap()
    }
}

/// An index over storage that is kept in memory.
struct Documents {
    index: Index,
    store: Store,
}

impl Documents {
    fn open(store: Store, snapshot: Option<SchemaSnapshot>, is_create: bool) -> Documents {
        let schema = match snapshot {
            Some(s) => DynamicSchema::from_snapshot(s),
            None => DynamicSchema::new(),
        };
        let checkpoint = store.get(next_doc_id_key());
        let docs = store.scan(NS_DOC, 0);
        let stats = store.get(lexical_stats_key());
        let config = IndexConfig::default();
        let index = Index::open(config, schema, &checkpoint, &docs, &stats, "wal.log".to_string(), is_create, 99);
        Documents { index, store }
    }

    fn create() -> Documents {
        Documents::open(Store::open(Vec::new()), None, true)
    }

    fn reopen(self) -> Documents {
        let snapshot = self.index.schema.to_snapshot();
        Documents::open(Store::open(self.store.log), Some(snapshot), false)
    }

    fn add(&mut self, json: &str) -> Result<u64, IndexError> {
        let doc = SchemalessDoc::from_json(json).unwrap();
        let pending = self.index.begin_add(&doc)?;
        let doc_id = pending.doc_id;
        let batch = self.index.finish_add(pending, &Vec::new(), b"snapshot".to_vec())?;
        match self.store.engine.batch_put(batch.entries) {
            BatchStep::Write(w) => self.store.write(w),
            BatchStep::Nothing { .. } => panic!("a document is never nothing"),
        }
        self.index.count_vectors(doc_id, &batch.partitions);
        Ok(doc_id)
    }

    fn get(&self, doc_id: u64) -> Option<SchemalessDoc> {
        read_document(&self.store.get(LsmKey::doc(doc_id))).unwrap()
    }

    fn delete(&mut self, doc_id: u64) {
        let w = self.store.engine.delete(NS_DOC, doc_id);
        self.store.write(w);
    }

    fn commit(&mut self) {
        for (key, value) in self.index.commit_entries() {
            let w = self.store.engine.put(key, value);
            self.store.write(w);
        }
    }

    fn search(&mut self, query: &str, top_k: usize) -> Result<Vec<(u64, f64)>, SearchError> {
        let plan = self.index.lexical.begin_search(query, &self.index.schema)?;
        let total = self.index.lexical.total_docs() as f64;
        let mut hits = Vec::new();
        let mut idfs = Vec::new();
        for t in &plan.lookups {
            let entries = self.store.scan(NS_LEXICAL_POSTING, term_partition(t.field_id, &t.text));
            let df = entries.len() as f64;
            idfs.push(if df > 0.0 { ((total - df + 0.5) / (df + 0.5) + 1.0).ln() } else { 0.0 });
            let found = match_postings(&entries).unwrap();
            let docs = found.iter().map(|h| self.store.get(LsmKey::doc(h.doc_id))).collect();
            hits.push(keep_live(&found, &docs));
        }
        let mut scored = Vec::new();
        for m in matched_docs(&hits, &plan.terms) {
            let mut score = 0.0;
            for (idf, freqs) in idfs.iter().zip(&m.freqs) {
                for f in freqs {
                    let tf = *f as f64;
                    score += idf * (tf * 2.2) / (tf + 1.2);
                }
            }
            scored.push((m.doc_id, score));
        }
        let keys: Vec<u64> = scored.iter().map(|(_, s)| order_key(s.to_bits())).collect();
        Ok(top_ranked(&keys, top_k).into_iter().map(|i| scored[i]).collect())
    }
}

fn text(value: &str) -> JsonValue {
    JsonValue::String(value.to_string())
}

#[test]
fn test_create_and_add_document() {
    let mut idx = Documents::create();
    let doc_id = idx.add(r#"{"title":"hello"}"#).unwrap();
    assert!(doc_id > 0);

    let got = idx.get(doc_id).unwrap();
    assert_eq!(got.get("title").unwrap(), &text("hello"));
}

#[test]
fn test_reopen_preserves_docs() {
    let mut idx = Documents::create();
    let doc_id = idx.add(r#"{"title":"first"}"#).unwrap();
    idx.commit();

    let idx = idx.reopen();
    let got = idx.get(doc_id).unwrap();
    assert_eq!(got.get("title").unwrap(), &text("first"));
}

#[test]
fn mod_test_delete_document() {
    let mut idx = Documents::create();
    let doc_id = idx.add(r#"{"title":"x"}"#).unwrap();

    idx.delete(doc_id);
    assert!(idx.get(doc_id).is_none());
}

#[test]
fn test_add_and_get_document() {
    let mut index = Documents::create();
    let doc_id = index.add(r#"{"title":"hello"}"#).unwrap();
    let doc = index.get(doc_id).unwrap();
    assert_eq!(doc.get("title").unwrap(), &text("hello"));
}

#[test]
fn test_schemaless_different_fields() {
    let mut index = Documents::create();
    index.add(r#"{"title":"a"}"#).unwrap();
    index.add(r#"{"body":"b","tags":["x"]}"#).unwrap();

    let schema = &index.index.schema;
    assert!(schema.get_field("title").is_some());
    assert!(schema.get_field("body").is_some());
    assert!(schema.get_field("tags").is_some());
}

#[test]
fn test_type_conflict() {
    let mut index = Documents::create();
    index.add(r#"{"count":42}"#).unwrap();

    match index.add(r#"{"count":"text"}"#) {
        Err(IndexError::Schema(conflict)) => assert_eq!(conflict.name, "count"),
        _ => panic!("expected a conflict on 'count'"),
    }
    assert_eq!(index.index.next_doc_id(), 2);
}

#[test]
fn test_schema_persisted_to_meta_namespace() {
    let mut index = Documents::create();
    index.add(r#"{"title":"x","count":1}"#).unwrap();
    index.commit();
    assert_eq!(index.store.get(schema_snapshot_key()), Some(LsmValue::Data(b"snapshot".to_vec())));

    let index = index.reopen();
    assert!(index.index.schema.get_field("title").is_some());
    assert!(index.index.schema.get_field("count").is_some());
}

#[test]
fn schema_is_stored_only_when_it_changed() {
    let mut index = Documents::create();
    let first = index.index.begin_add(&SchemalessDoc::from_json(r#"{"a":1}"#).unwrap()).unwrap();
    assert!(first.schema_changed);
    let second = index.index.begin_add(&SchemalessDoc::from_json(r#"{"a":2}"#).unwrap()).unwrap();
    assert!(!second.schema_changed);
    let batch = index.index.finish_add(second, &Vec::new(), Vec::new()).unwrap();
    assert_eq!(batch.entries.len(), 2);
    assert_eq!(batch.entries[0].0, LsmKey::doc(2));
    assert_eq!(batch.entries[1].0.namespace, NS_LEXICAL_POSTING);
    assert!(batch.partitions.is_empty());
}

#[test]
fn test_doc_id_monotonic_after_reopen() {
    let mut index = Documents::create();
    let first_id = index.add(r#"{"x":1}"#).unwrap();
    index.commit();

    let mut index = index.reopen();
    let second_id = index.add(r#"{"x":2}"#).unwrap();
    assert!(second_id > first_id);
}

#[test]
fn next_ids_are_restored() {
    let doc = |id: u64| (LsmKey::doc(id), LsmValue::Tombstone);
    assert_eq!(restore_next_doc_id(&None, &Vec::new()), 1);
    assert_eq!(restore_next_doc_id(&None, &vec![doc(4), doc(9), doc(2)]), 10);
    let kept = Some(LsmValue::Data(20u64.to_be_bytes().to_vec()));
    assert_eq!(restore_next_doc_id(&kept, &vec![doc(9)]), 20);
    assert_eq!(restore_next_doc_id(&kept, &vec![doc(20)]), 21);
    let checkpoint = DocIdCheckpoint { next_doc_id: 7 };
    assert_eq!(checkpoint.next_doc_id, 7);
}

#[test]
fn test_vector_field_inferred() {
    let mut index = Documents::create();
    index.add(r#"{"title":"x","vec":[1.0,2.0,3.0,4.0]}"#).unwrap();

    let vec_meta = index.index.schema.get_field("vec").unwrap();
    match &vec_meta.data_type {
        FieldType::Vector(dim, sim) => {
            assert_eq!(*dim, 4);
            assert!(matches!(sim, VectorSimilarity::Cosine));
        }
        other => panic!("expected Vector, got {:?}", other),
    }
    assert!(vec_meta.index_vector);
    assert_eq!(vec_meta.vector_dim, Some(4));
}

#[test]
fn index_numbers() {
    let index = Documents::create();
    assert_eq!(index.index.manifest.index_id, 99);
    assert_eq!(index.index.manifest.index_name, "default");
    let index = index.reopen();
    assert_eq!(index.index.manifest.index_id, 0);
    let mut config = IndexConfig::default();
    config.index_id = 5;
    let schema = DynamicSchema::new();
    let index = Index::open(config, schema, &None, &Vec::new(), &None, "w".to_string(), true, 99);
    assert_eq!(index.manifest.index_id, 5);
    assert_eq!(index.manifest.wal_path, "w");
}

#[test]
fn documents_with_vectors() {
    let mut index = Documents::create();
    let mut config = VectorConfig::default();
    config.vector_dim = 2;
    let mut engine = VectorEngine::new(config).unwrap();
    engine.initialize_centroids(vec![vec![1, 2], vec![3, 4]]);
    assert!(index.index.set_vector(engine));
    assert!(!index.index.set_vector(VectorEngine::new(config).unwrap()));
    let doc = SchemalessDoc::from_json(r#"{"t":"x","v":[1,2]}"#).unwrap();
    let pending = index.index.begin_add(&doc).unwrap();
    assert_eq!(pending.vectors.as_ref().unwrap().len(), 1);
    let vectors = vec![KeyedVector { vector: vec![7, 8], keys: vec![1, 2] }];
    let batch = index.index.finish_add(pending, &vectors, b"s".to_vec()).unwrap();
    assert_eq!(batch.partitions, vec![1]);
    assert_eq!(batch.entries.len(), 4);
    assert_eq!(batch.entries[2].0, LsmKey::vec(1, 1));
    assert_eq!(batch.entries[3].0, schema_snapshot_key());
    index.index.count_vectors(1, &batch.partitions);
    let engine = index.index.vector.as_ref().unwrap();
    assert_eq!(engine.ivf().get_partition(1).unwrap().vector_count(), 1);
    assert_eq!(engine.ivf().get_partition(0).unwrap().vector_count(), 0);

    let pending = index.index.begin_add(&doc).unwrap();
    let bad = vec![KeyedVector { vector: vec![7], keys: Vec::new() }];
    assert!(matches!(
        index.index.finish_add(pending, &bad, Vec::new()),
        Err(IndexError::Vector(VectorError::DimensionMismatch { expected: 2, got: 1 }))
    ));
}

#[test]
fn test_lexical_basic_search() {
    let mut index = Documents::create();
    index.add(r#"{"title":"hello world"}"#).unwrap();
    index.add(r#"{"title":"foo bar"}"#).unwrap();
    index.commit();

    let results = index.search("hello", 10).unwrap();
    assert_eq!(results.len(), 1, "expected 1 result for 'hello'");
    assert_eq!(results[0].0, 1);
}

#[test]
fn test_lexical_field_query() {
    let mut index = Documents::create();
    index.add(r#"{"title":"hello","body":"world"}"#).unwrap();
    index.add(r#"{"title":"world","body":"hello"}"#).unwrap();
    index.commit();

    let results = index.search("title:hello", 10).unwrap();
    assert_eq!(results.len(), 1);
    assert_eq!(results[0].0, 1);

    let results = index.search("body:hello", 10).unwrap();
    assert_eq!(results.len(), 1);
    assert_eq!(results[0].0, 2);
}

#[test]
fn test_lexical_delete_lazy() {
    let mut index = Documents::create();
    let id1 = index.add(r#"{"title":"hello"}"#).unwrap();
    let id2 = index.add(r#"{"title":"hello"}"#).unwrap();
    index.commit();

    index.delete(id1);
    index.commit();

    let results = index.search("hello", 10).unwrap();
    assert_eq!(results.len(), 1, "expected 1 result after delete");
    assert_eq!(results[0].0, id2);
    assert_ne!(results[0].0, id1);
}

#[test]
fn test_lexical_reopen_persistence() {
    let mut index = Documents::create();
    index.add(r#"{"title":"persisted"}"#).unwrap();
    index.commit();

    let mut index = index.reopen();
    assert_eq!(index.index.lexical.total_docs(), 1);
    let results = index.search("persisted", 10).unwrap();
    assert_eq!(results.len(), 1);
}

#[test]
fn test_lexical_multiple_terms() {
    let mut index = Documents::create();
    index.add(r#"{"title":"hello world foo"}"#).unwrap();
    index.add(r#"{"title":"hello bar"}"#).unwrap();
    index.add(r#"{"title":"world baz"}"#).unwrap();
    index.commit();

    let results = index.search("hello world", 10).unwrap();
    assert_eq!(results.len(), 1, "expected 1 doc with both 'hello' and 'world'");
    assert_eq!(results[0].0, 1);
}

#[test]
fn test_lexical_scoring() {
    let mut index = Documents::create();
    index.add(r#"{"title":"hello"}"#).unwrap();
    index.add(r#"{"title":"hello hello hello"}"#).unwrap();
    index.commit();

    let results = index.search("hello", 10).unwrap();
    assert_eq!(results.len(), 2);
    assert_eq!(results[0].0, 2);
    assert!(results[0].1 > results[1].1);
    assert_eq!(index.search("hello", 1).unwrap().len(), 1);
}

#[test]
fn test_lexical_case_insensitive() {
    let mut index = Documents::create();
    index.add(r#"{"title":"Hello World"}"#).unwrap();
    index.commit();

    let results = index.search("hello", 10).unwrap();
    assert_eq!(results.len(), 1);

    let results = index.search("HELLO", 10).unwrap();
    assert_eq!(results.len(), 1);
}

#[test]
fn searches_that_find_nothing() {
    let mut index = Documents::create();
    index.add(r#"{"title":"hello","n":1}"#).unwrap();
    assert!(index.search("nowhere:hello", 10).unwrap().is_empty());
    assert!(index.search("absent", 10).unwrap().is_empty());
    assert!(index.search("n:2", 10).unwrap().is_empty());
    assert!(index.search("1", 10).unwrap().is_empty());
    assert!(matches!(index.search("", 10), Err(SearchError::Query(_))));
    assert!(matches!(index.search("title:", 10), Err(SearchError::Query(_))));
}

#[test]
fn test_numeric_field_lexical_search() {
    let mut index = Documents::create();
    index.add(r#"{"count":42,"active":true}"#).unwrap();
    index.commit();

    let results = index.search("count:42", 10).unwrap();
    assert_eq!(results.len(), 1);

    let results = index.search("active:true", 10).unwrap();
    assert_eq!(results.len(), 1);
}

#[test]
fn values_are_found_by_their_texts() {
    let mut index = Documents::create();
    index.add(r#"{"n":-7,"price":2.5,"open":false,"at":"2024-01-02T03:04:05Z","title":"one"}"#).unwrap();
    index.add(r#"{"n":42,"price":0.125,"open":true,"at":"2025-01-02T03:04:05Z","title":"two"}"#).unwrap();
    let mut found =
        |query: &str| -> Vec<u64> { index.search(query, 10).unwrap().into_iter().map(|(id, _)| id).collect() };
    assert_eq!(found("n:-7"), vec![1]);
    assert_eq!(found("n:42"), vec![2]);
    assert_eq!(found("price:2.5"), vec![1]);
    assert_eq!(found("open:true"), vec![2]);
    assert_eq!(found("at:2024-01-02T03:04:05Z"), vec![1]);
    assert_eq!(found("at:2025-01-02T03:04:05Z two"), vec![2]);
    assert!(found("n:42 open:false").is_empty());
}

#[test]
fn a_term_without_a_field_may_stand_in_any() {
    let mut docs = Documents::create();
    docs.add(r#"{"title":"hello there","body":"about the world"}"#).unwrap();
    docs.add(r#"{"title":"hello world","body":"nothing else"}"#).unwrap();
    docs.add(r#"{"title":"goodbye","body":"hello world"}"#).unwrap();
    let mut found = |query: &str| {
        let mut ids: Vec<u64> = docs.search(query, 10).unwrap().into_iter().map(|(id, _)| id).collect();
        ids.sort();
        ids
    };
    assert_eq!(found("world"), vec![1, 2, 3]);
    assert_eq!(found("title:hello world"), vec![1, 2]);
    assert_eq!(found("title:hello body:world"), vec![1]);
    assert_eq!(found("hello-world"), vec![2, 3]);
    assert_eq!(found("title:world else"), vec![2]);
    assert_eq!(found("nothing there"), Vec::<u64>::new());
    assert_eq!(found("unknown:x goodbye"), Vec::<u64>::new());
    assert_eq!(found("goodbye unknown:goodbye"), Vec::<u64>::new());
    assert_eq!(found("goodbye !!!"), vec![3]);
}

#[test]
fn plans_of_searches() {
    let mut docs = Documents::create();
    docs.add(r#"{"title":"x","body":"y"}"#).unwrap();
    let title = docs.index.schema.get_field("title").unwrap().id;
    let body = docs.index.schema.get_field("body").unwrap().id;
    let plan = docs.index.lexical.begin_search("title:A-b none:x Body !!!", &docs.index.schema).unwrap();
    let lookups: Vec<(u32, &str)> = plan.lookups.iter().map(|t| (t.field_id, t.text.as_str())).collect();
    let (first, second) = if title < body { (title, body) } else { (body, title) };
    assert_eq!(lookups, vec![(title, "a"), (title, "b"), (first, "body"), (second, "body")]);
    assert_eq!(plan.terms, vec![vec![(0, 2)], vec![], vec![(2, 3), (3, 4)]]);
}

#[test]
fn fields_keep_their_first_analyzer() {
    let mut engine = LexicalEngine::new(3);
    let first = engine.get_or_create_analyzer(1, &Some(TokenizerType::Raw)).unwrap();
    assert_eq!(first.tokens("A b"), vec!["A b"]);
    let again = engine.get_or_create_analyzer(1, &Some(TokenizerType::Default)).unwrap();
    assert_eq!(again.tokens("A b"), vec!["A b"]);
    let other = engine.get_or_create_analyzer(2, &None).unwrap();
    assert_eq!(other.tokens("A b"), vec!["a", "b"]);
    let broken = engine.get_or_create_analyzer(3, &Some(TokenizerType::Ngram { n: 0 }));
    assert_eq!(broken.unwrap_err().n, 0);
    assert_eq!(engine.total_docs(), 3);
}

#[test]
fn postings_of_a_document() {
    let mut schema = DynamicSchema::new();
    let doc = SchemalessDoc::from_json(r#"{"t":"b a b","n":7}"#).unwrap();
    schema.infer_and_add(&doc).unwrap();
    let n = schema.get_field("n").unwrap().id;
    let t = schema.get_field("t").unwrap().id;
    let mut engine = LexicalEngine::new(0);
    let entries = engine.prepare_add_document(6, &doc, &schema).unwrap();
    assert_eq!(engine.total_docs(), 1);
    assert_eq!(entries.len(), 3);
    let expected = [(n, "7", vec![0u32]), (t, "b", vec![0, 2]), (t, "a", vec![1])];
    for (entry, (field_id, term, positions)) in entries.iter().zip(expected) {
        assert_eq!(entry.0.namespace, NS_LEXICAL_POSTING);
        assert_eq!(entry.0.partition_or_segment, term_partition(field_id, term));
        assert_eq!(entry.0.doc_id, 6);
        match &entry.1 {
            LsmValue::Data(bytes) => {
                let p = Posting::decode(bytes).unwrap();
                assert_eq!(p.term, term);
                assert_eq!(p.positions, positions);
                assert_eq!(p.term_freq as usize, positions.len());
                assert_eq!(p.field_id, field_id);
            }
            LsmValue::Tombstone => panic!("expected a posting"),
        }
    }
}

#[test]
fn a_broken_tokenizer_stops_the_document() {
    let doc = SchemalessDoc::from_json(r#"{"t":"x"}"#).unwrap();
    let mut schema = DynamicSchema::new();
    schema.infer_and_add(&doc).unwrap();
    let mut snapshot = schema.to_snapshot();
    snapshot.fields[0].tokenizer = Some(TokenizerType::Ngram { n: 0 });
    let schema = DynamicSchema::from_snapshot(snapshot);
    let mut engine = LexicalEngine::new(0);
    assert_eq!(engine.prepare_add_document(1, &doc, &schema).unwrap_err().n, 0);
    assert_eq!(engine.total_docs(), 1);
    assert!(matches!(engine.begin_search("x", &schema), Err(SearchError::Analyzer(_))));
    let mut index = Index::open(IndexConfig::default(), schema, &None, &Vec::new(), &None, String::new(), true, 1);
    assert!(matches!(index.begin_add(&doc), Err(IndexError::Analyzer(_))));
    assert_eq!(index.next_doc_id(), 2);
}

#[test]
fn partitions_depend_on_field_and_term() {
    assert_eq!(term_partition(1, "a"), term_partition(1, "a"));
    let spread: std::collections::HashSet<u32> =
        (0..50u32).flat_map(|f| [term_partition(f, "a"), term_partition(f, "b")]).collect();
    assert!(spread.len() > 90);
}

#[test]
fn partitions_are_the_low_order_half_of_hashes() {
    assert_eq!(partition_of_hash(0x0123_4567_89ab_cdef), 0x89ab_cdef);
    assert_eq!(partition_of_hash(7), 7);
    assert_eq!(partition_of_hash(u64::MAX), u32::MAX);
    assert_eq!(partition_of_hash(0x1_0000_0000), 0);
}

#[test]
fn hits_are_matched_filtered_and_intersected() {
    let occurrence = |positions: Vec<u32>| TermOccurrence { field_id: 1, term: "t".to_string(), positions };
    let entries = vec![
        posting_entry(occurrence(vec![0, 4]), 1, 9),
        (LsmKey::doc(5), LsmValue::Tombstone),
        posting_entry(occurrence(vec![2]), 2, 9),
    ];
    let hits = match_postings(&entries).unwrap();
    assert_eq!(hits, vec![PostingHit { doc_id: 1, term_freq: 2 }, PostingHit { doc_id: 2, term_freq: 1 }]);
    let live = keep_live(&hits, &vec![Some(LsmValue::Tombstone), Some(LsmValue::Data(vec![1]))]);
    assert_eq!(live, vec![PostingHit { doc_id: 2, term_freq: 1 }]);
    assert!(keep_live(&hits, &vec![None, None]).is_empty());
    let both = vec![hits.clone(), live.clone()];
    assert_eq!(intersect_docs(&both, &vec![vec![(0, 1)], vec![(1, 2)]]), vec![2]);
    assert_eq!(intersect_docs(&both, &vec![vec![(0, 2)]]), vec![2]);
    assert_eq!(intersect_docs(&both, &vec![vec![(1, 2), (0, 1)]]), vec![2, 1]);
    assert_eq!(intersect_docs(&both, &vec![vec![(0, 1)], vec![(0, 1)]]), vec![1, 2]);
    assert!(intersect_docs(&both, &vec![vec![(0, 1)], Vec::new()]).is_empty());
    assert!(intersect_docs(&both, &Vec::new()).is_empty());
    let matched = matched_docs(&both, &vec![vec![(0, 1)], vec![(1, 2)]]);
    assert_eq!(matched.len(), 1);
    assert_eq!(matched[0].doc_id, 2);
    assert_eq!(matched[0].freqs, vec![vec![1], vec![1]]);
    assert!(match_postings(&vec![(LsmKey::doc(1), LsmValue::Data(vec![1]))]).is_err());
}

#[test]
fn statistics_are_stored() {
    let engine = LexicalEngine::new(513);
    let (key, value) = engine.stats_entry();
    assert_eq!(key.namespace, NS_LEXICAL_STATS);
    assert_eq!(value, LsmValue::Data(vec![0, 0, 0, 0, 0, 0, 2, 1]));
    assert_eq!(read_total_docs(&Some(value)), 513);
    assert_eq!(read_total_docs(&None), 0);
}

#[test]
fn document_numbers_grow_over_reopenings() {
    let mut index = Documents::create();
    let mut last = 0;
    for round in 0..4 {
        for _ in 0..3 {
            let id = index.add(r#"{"x":1}"#).unwrap();
            assert!(id > last);
            last = id;
        }
        if round % 2 == 0 {
            index.commit();
        }
        index = index.reopen();
        assert!(index.index.next_doc_id() > last);
    }
    assert_eq!(last, 12);
}

#[test]
fn documents_stay_readable_over_reopenings() {
    let mut index = Documents::create();
    for n in 1..=5u64 {
        assert_eq!(index.add(&format!(r#"{{"n":{n}}}"#)).unwrap(), n);
        assert!(index.add(r#"{"n":"text"}"#).is_err());
        index.commit();
        index = index.reopen();
    }
    for n in 1..=5u64 {
        assert_eq!(index.get(n).unwrap().get("n"), Some(&JsonValue::from_text(&n.to_string()).unwrap()));
    }
    index.delete(3);
    let index = index.reopen();
    assert!(index.get(3).is_none());
    assert!(index.get(2).is_some());
}
