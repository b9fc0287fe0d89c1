use seekstorm_core::rank::{first_above, last_maximum, order_key, top_ranked};
use seekstorm_core::storage::key::NS_VEC;
use seekstorm_core::vector::clustering::{
    cluster_count, cluster_plan, ClusterPlan, Clustering, LEAST_SIMILARITY, MAX_ROUNDS,
};
use seekstorm_core::vector::similarity::VectorSimilarity;
use seekstorm_core::vector::{CentroidTable, KeyedVector, VectorError};
use seekstorm_core::{
    F32Quantization, IvfIndex, LsmKey, LsmValue, Partition, QuantizationType, VectorConfig, VectorEngine,
    VectorSimilarity as SchemaSimilarity,
};

fn bits(v: &[f32]) -> Vec<u32> {
    v.iter().map(|x| x.to_bits()).collect()
}

fn floats(v: &[u32]) -> Vec<f32> {
    v.iter().map(|x| f32::from_bits(*x)).collect()
}

fn cosine(a: &[f32], b: &[f32]) -> f32 {
    let dot: f32 = a.iter().zip(b).map(|(x, y)| x * y).sum();
    let na = a.iter().map(|x| x * x).sum::<f32>().sqrt();
    let nb = b.iter().map(|x| x * x).sum::<f32>().sqrt();
    if na < 1e-10 || nb < 1e-10 {
        return 0.0;
    }
    dot / (na * nb)
}

fn key_of(x: f32) -> u64 {
    if x.is_nan() {
        0
    } else {
        order_key((x as f64).to_bits())
    }
}

fn centroid_keys(table: &CentroidTable, query: &[f32]) -> Vec<u64> {
    table.entries.iter().map(|(_, c)| key_of(cosine(query, &floats(c)))).collect()
}

fn k_medoid_pam(vectors: &[Vec<f32>], k: usize) -> Vec<Vec<f32>> {
    match cluster_plan(vectors.len(), k) {
        ClusterPlan::Nothing => Vec::new(),
        ClusterPlan::All => vectors.to_vec(),
        ClusterPlan::Average => panic!("no single cluster is asked for"),
        ClusterPlan::Medoids => {
            let mut c = Clustering::start(vectors.len(), k);
            let mut rounds = 0;
            while !c.is_done() {
                let similarities: Vec<Vec<u64>> = vectors
                    .iter()
                    .map(|v| c.medoids().iter().map(|m| key_of(cosine(v, &vectors[*m]))).collect())
                    .collect();
                let clusters = c.split(&similarities);
                let total = |members: &Vec<usize>, a: usize| -> f32 {
                    members.iter().map(|b| cosine(&vectors[a], &vectors[*b])).sum()
                };
                let totals: Vec<Vec<u64>> = clusters
                    .iter()
                    .map(|members| members.iter().map(|a| key_of(total(members, *a))).collect())
                    .collect();
                c.reselect(&clusters, &totals);
                rounds += 1;
            }
            assert!(rounds <= MAX_ROUNDS);
            c.medoids().iter().map(|m| vectors[*m].clone()).collect()
        }
    }
}

#[test]
fn test_f32_quantization_roundtrip() {
    let dim = 128;
    let quant = F32Quantization::new(dim, VectorSimilarity::Cosine);
    let original: Vec<f32> = (0..dim).map(|i| i as f32 / dim as f32).collect();

    let encoded = quant.encode(&bits(&original));
    let decoded = floats(&quant.decode(&encoded));

    assert_eq!(decoded.len(), dim);
    for i in 0..dim {
        assert!((decoded[i] - original[i]).abs() < 1e-6);
    }
}

#[test]
fn quantization_test_f32_bytes_per_vector() {
    let quant = F32Quantization::new(64, VectorSimilarity::Cosine);
    assert_eq!(quant.bytes_per_vector(), 64 * 4);
    assert_eq!(quant.dim(), 64);
}

#[test]
fn vector_bytes_have_the_low_order_byte_first() {
    let quant = F32Quantization::new(2, VectorSimilarity::Dot);
    let bytes = quant.encode(&[0x01020304, 0xfffefdfc]);
    assert_eq!(bytes, vec![4, 3, 2, 1, 0xfc, 0xfd, 0xfe, 0xff]);
    assert_eq!(bytes, bytemuck::cast_slice::<u32, u8>(&[0x01020304u32.to_le(), 0xfffefdfcu32.to_le()]).to_vec());
    assert_eq!(quant.decode(&bytes), vec![0x01020304, 0xfffefdfc]);
    assert!(quant.decode(&[]).is_empty());
}

#[test]
fn test_k_medoid_pam_k2() {
    let vectors: Vec<Vec<f32>> = vec![
        vec![1.0, 0.0, 0.0],
        vec![1.0, 0.1, 0.0],
        vec![1.0, 0.0, 0.1],
        vec![0.0, 1.0, 0.0],
        vec![0.0, 1.1, 0.0],
        vec![0.0, 1.0, 0.1],
    ];
    let centroids = k_medoid_pam(&vectors, 2);
    assert_eq!(centroids.len(), 2);

    let has_large_x = centroids.iter().any(|c| c[0] > 0.5);
    let has_small_x = centroids.iter().any(|c| c[0] < 0.5);
    assert!(has_large_x, "should have a centroid with x > 0.5");
    assert!(has_small_x, "should have a centroid with x < 0.5");
}

#[test]
fn test_k_medoid_pam_k_equals_vectors() {
    let vectors: Vec<Vec<f32>> = vec![vec![1.0, 0.0], vec![0.0, 1.0]];
    let centroids = k_medoid_pam(&vectors, 2);
    assert_eq!(centroids.len(), 2);
}

#[test]
fn test_k_medoid_pam_k_exceeds_vectors() {
    let vectors: Vec<Vec<f32>> = vec![vec![1.0, 0.0], vec![0.0, 1.0]];
    let centroids = k_medoid_pam(&vectors, 10);
    assert_eq!(centroids.len(), 2);
}

#[test]
fn cluster_plans_and_counts() {
    assert_eq!(cluster_plan(0, 3), ClusterPlan::Nothing);
    assert_eq!(cluster_plan(3, 0), ClusterPlan::Nothing);
    assert_eq!(cluster_plan(3, 1), ClusterPlan::Average);
    assert_eq!(cluster_plan(3, 3), ClusterPlan::All);
    assert_eq!(cluster_plan(4, 3), ClusterPlan::Medoids);
    for n in 1..2000usize {
        assert_eq!(cluster_count(n), (n as f64).sqrt() as usize + 1);
    }
    assert_eq!(key_of(f32::MIN), LEAST_SIMILARITY);
}

#[test]
fn random_medoids_are_distinct_vectors() {
    let mut moved = false;
    for _ in 0..20 {
        let c = Clustering::start(30, 12);
        let mut medoids = c.medoids().clone();
        assert_eq!(medoids.len(), 12);
        moved = moved || medoids != (0..12).collect::<Vec<usize>>();
        medoids.sort();
        medoids.dedup();
        assert_eq!(medoids.len(), 12);
        assert!(medoids.iter().all(|m| *m < 30));
    }
    assert!(moved);
}

#[test]
fn clustering_rounds() {
    let mut c = Clustering::with_order(4, 2, vec![3, 1, 0, 2]);
    assert_eq!(c.medoids(), &vec![3, 1]);
    let assignments = c.assign(&vec![
        vec![key_of(0.2), key_of(0.9)],
        vec![key_of(0.5), key_of(0.5)],
        vec![0, 0],
        vec![0, key_of(-1.0)],
    ]);
    assert_eq!(assignments, vec![1, 0, 0, 1]);
    assert_eq!(c.members(&assignments, 0), vec![1, 2]);
    assert_eq!(c.members(&assignments, 1), vec![0, 3]);
    assert_eq!(c.choose_medoid(0, &vec![1, 2], &vec![key_of(1.0), key_of(1.0)]), 1);
    assert_eq!(c.choose_medoid(0, &vec![], &vec![]), 3);
    assert_eq!(c.choose_medoid(1, &vec![0, 3], &vec![0, 0]), 1);
    c.finish_round(vec![1, 0]);
    assert!(!c.is_done());
    let clusters = c.split(&vec![vec![9, 9], vec![0, 0], vec![0, u64::MAX], vec![u64::MAX, 0]]);
    assert_eq!(clusters, vec![vec![0, 1, 3], vec![2]]);
    c.reselect(&clusters, &vec![vec![0, u64::MAX, 1], vec![0]]);
    assert_eq!(c.medoids(), &vec![1, 0]);
    assert!(c.is_done());
}

#[test]
fn test_centroid_table_new() {
    let table = CentroidTable::new();
    assert_eq!(table.entries.len(), 0);
    assert!(table.find_nearest(&Vec::new(), 3).is_empty());
}

#[test]
fn test_centroid_table_add() {
    let mut table = CentroidTable::new();
    table.add(0, bits(&[0.5, 0.5]));
    table.add(1, bits(&[1.0, 0.0]));

    assert_eq!(table.entries.len(), 2);
    assert_eq!(table.entries[0].0, 0);
    assert_eq!(table.entries[1].0, 1);
}

#[test]
fn test_centroid_table_find_nearest() {
    let mut table = CentroidTable::new();
    table.add(0, bits(&[1.0, 0.0]));
    table.add(1, bits(&[0.0, 1.0]));
    table.add(2, bits(&[0.5, 0.0]));

    let query = vec![1.0, 0.1];
    let keys = centroid_keys(&table, &query);
    let nearest = table.find_nearest(&keys, 2);

    assert_eq!(nearest.len(), 2);
    assert!(nearest.contains(&0));
    assert_eq!(table.find_nearest(&keys, 99).len(), 3);
}

#[test]
fn test_ivf_index_new() {
    let ivf = IvfIndex::new();
    assert_eq!(ivf.partition_count(), 0);
}

#[test]
fn ivf_index_test_ivf_index_add_partition() {
    let mut ivf = IvfIndex::new();
    let pid = ivf.add_partition(bits(&[0.0; 10]));
    assert_eq!(pid, 0);

    let pid2 = ivf.add_partition(bits(&[1.0; 10]));
    assert_eq!(pid2, 1);

    assert_eq!(ivf.partition_count(), 2);
}

#[test]
fn test_ivf_index_get_partition() {
    let mut ivf = IvfIndex::new();
    let pid = ivf.add_partition(bits(&[0.0; 10]));

    let partition = ivf.get_partition(pid);
    assert!(partition.is_some());
    assert_eq!(partition.unwrap().id, pid);

    assert!(ivf.get_partition(999).is_none());
}

#[test]
fn test_ivf_index_scan_partition_empty() {
    let ivf = IvfIndex::new();
    assert_eq!(ivf.scan_partition(&Vec::new()).len(), 0);
}

#[test]
fn scanning_a_partition_skips_deletions() {
    let ivf = IvfIndex::new();
    let found = ivf.scan_partition(&vec![
        (LsmKey::vec(0, 1), LsmValue::Data(vec![1])),
        (LsmKey::vec(0, 2), LsmValue::Tombstone),
        (LsmKey::vec(0, 3), LsmValue::Data(vec![3])),
    ]);
    assert_eq!(found, vec![(1, vec![1]), (3, vec![3])]);
}

#[test]
fn mod_test_vector_similarity_from_schema() {
    assert_eq!(VectorSimilarity::from(SchemaSimilarity::Cosine), VectorSimilarity::Cosine);
    assert_eq!(VectorSimilarity::from(SchemaSimilarity::L2), VectorSimilarity::Euclidean);
    assert_eq!(VectorSimilarity::from(SchemaSimilarity::InnerProduct), VectorSimilarity::Dot);
}

#[test]
fn test_partition_new() {
    let centroid = bits(&[0.5, 0.5, 0.5]);
    let partition = Partition::new(0, centroid.clone());
    assert_eq!(partition.id, 0);
    assert_eq!(partition.vector_count(), 0);
    assert_eq!(partition.tombstones.len(), 0);
    assert_eq!(partition.centroid(), &centroid);
}

#[test]
fn test_partition_add_vector() {
    let mut partition = Partition::new(1, bits(&[0.0; 10]));
    partition.add_vector(100);
    assert_eq!(partition.vector_count(), 1);

    partition.add_vector(200);
    assert_eq!(partition.vector_count(), 2);
}

#[test]
fn test_partition_delete_vector() {
    let mut partition = Partition::new(2, bits(&[0.0; 10]));
    partition.add_vector(100);
    assert!(!partition.is_tombstoned(100));

    partition.delete_vector(100);
    assert!(partition.is_tombstoned(100));
    assert_eq!(partition.vector_count(), 1);
}

#[test]
fn test_partition_update_centroid() {
    let mut partition = Partition::new(3, bits(&[0.0, 0.0]));
    assert_eq!(partition.centroid(), &bits(&[0.0, 0.0]));

    partition.update_centroid(bits(&[1.0, 2.0]));
    assert_eq!(partition.centroid(), &bits(&[1.0, 2.0]));
}

/// A vector engine over partitions that are kept in memory.
struct Vectors {
    engine: VectorEngine,
    stored: Vec<(LsmKey, LsmValue)>,
}

impl Vectors {
    fn new(cfg: VectorConfig, samples: &[Vec<f32>]) -> Vectors {
        let mut engine = VectorEngine::new(cfg).unwrap();
        let k = VectorEngine::centroid_count(samples.len()).unwrap();
        let centroids = k_medoid_pam(samples, k);
        engine.initialize_centroids(centroids.iter().map(|c| bits(c)).collect());
        Vectors { engine, stored: Vec::new() }
    }

    fn add_vector(&mut self, doc_id: u64, vector: &[f32]) -> Result<u32, VectorError> {
        let keys = centroid_keys(&self.engine.ivf().centroid_table, vector);
        let (entry, id) = self.engine.prepare_add_vector(doc_id, &bits(vector), &keys)?;
        self.stored.push(entry);
        self.engine.update_partition_count(doc_id, id);
        Ok(id)
    }

    fn search(&self, query: &[f32], top_k: usize) -> Result<Vec<(u64, f32)>, VectorError> {
        let keys = centroid_keys(&self.engine.ivf().centroid_table, query);
        let probed = self.engine.begin_search(query.len(), &keys)?;
        let scans = probed
            .iter()
            .map(|id| {
                self.stored
                    .iter()
                    .filter(|(k, _)| k.namespace == NS_VEC && k.partition_or_segment == *id)
                    .map(|(k, v)| (*k, v.clone()))
                    .collect()
            })
            .collect();
        let found: Vec<(u64, f32)> = self
            .engine
            .all_candidates(&probed, &scans)
            .into_iter()
            .map(|(doc_id, vector)| (doc_id, cosine(query, &floats(&vector))))
            .collect();
        let keys: Vec<u64> = found.iter().map(|(_, s)| key_of(*s)).collect();
        Ok(top_ranked(&keys, top_k).into_iter().map(|i| found[i]).collect())
    }
}

#[test]
fn stored_vectors_are_found() {
    let mut cfg = VectorConfig::default();
    cfg.vector_dim = 64;
    cfg.nprobe = 64;
    let samples: Vec<Vec<f32>> = (0..64).map(|i| (0..64).map(|j| if i == j { 1.0 } else { 0.0 }).collect()).collect();
    let mut engine = Vectors::new(cfg, &samples);
    assert!(engine.engine.is_initialized());
    for (i, v) in samples.iter().enumerate() {
        engine.add_vector(i as u64, v).unwrap();
    }
    let results = engine.search(&samples[0], 10).unwrap();
    assert!(!results.is_empty());
    assert_eq!(results[0].0, 0);
    assert!(results[0].1 > 0.0);
    assert!(results.len() <= 10);
}

#[test]
fn test_vector_engine_delete() {
    let mut cfg = VectorConfig::default();
    cfg.vector_dim = 32;
    cfg.nprobe = 1;
    let samples: Vec<Vec<f32>> = (0..10).map(|i| vec![i as f32; 32]).collect();
    let mut engine = Vectors::new(cfg, &samples);
    let mut at = Vec::new();
    for (i, v) in samples.iter().enumerate() {
        at.push(engine.add_vector(i as u64, v).unwrap());
    }
    engine.engine.delete_vector(5, at[5]);
    let results = engine.search(&samples[5], 10).unwrap();
    assert!(!results.iter().any(|r| r.0 == 5));
}

#[test]
fn test_vector_partition_count() {
    let mut cfg = VectorConfig::default();
    cfg.vector_dim = 16;
    let samples: Vec<Vec<f32>> = (0..200).map(|i| vec![i as f32 / 200.0; 16]).collect();
    let engine = Vectors::new(cfg, &samples);
    assert!(engine.engine.partition_count() > 0);
    assert_eq!(engine.engine.partition_count(), 15);
}

#[test]
fn test_vector_engine_not_initialized() {
    let engine = VectorEngine::new(VectorConfig::default()).unwrap();
    assert_eq!(engine.begin_search(16, &Vec::new()), Err(VectorError::NotInitialized));
    assert!(matches!(
        engine.prepare_add_vector(1, &bits(&[0.0; 16]), &Vec::new()),
        Err(VectorError::NotInitialized)
    ));
    assert!(!engine.is_initialized());
}

#[test]
fn test_vector_dimension_mismatch() {
    let samples: Vec<Vec<f32>> = (0..10).map(|i| vec![i as f32; 64]).collect();
    let mut engine = Vectors::new(VectorConfig::default(), &samples);
    assert_eq!(
        engine.add_vector(0, &vec![0.0; 32]),
        Err(VectorError::DimensionMismatch { expected: 128, got: 32 })
    );
    assert_eq!(
        engine.search(&vec![0.0; 65], 3),
        Err(VectorError::DimensionMismatch { expected: 128, got: 65 })
    );
}

#[test]
fn other_vector_errors() {
    let mut cfg = VectorConfig::default();
    assert_eq!(cfg.vector_dim, 128);
    assert_eq!(cfg.nprobe, 10);
    assert_eq!(cfg.max_partition_size, 10000);
    cfg.quantization = QuantizationType::TurboQuantI8;
    assert!(matches!(VectorEngine::new(cfg), Err(VectorError::QuantizationUnavailable)));
    cfg.quantization = QuantizationType::ScalarQuantizationI8;
    assert!(matches!(VectorEngine::new(cfg), Err(VectorError::QuantizationUnavailable)));
    assert_eq!(VectorEngine::centroid_count(0), Err(VectorError::NoSamples));
    assert_eq!(VectorEngine::centroid_count(1), Ok(2));
}

#[test]
fn centroids_can_be_replaced() {
    let mut cfg = VectorConfig::default();
    cfg.vector_dim = 1;
    let mut engine = VectorEngine::new(cfg).unwrap();
    engine.initialize_centroids(vec![vec![1], vec![2]]);
    engine.initialize_centroids(vec![vec![3]]);
    assert_eq!(engine.partition_count(), 3);
    assert_eq!(engine.ivf().centroid_table.entries, vec![(2, vec![3])]);
    let (entry, id) = engine.prepare_add_vector(9, &[7], &vec![5]).unwrap();
    assert_eq!(id, 2);
    assert_eq!(entry.0, LsmKey::vec(2, 9));
    engine.update_partition_count(9, 2);
    engine.update_partition_count(9, 77);
    assert_eq!(engine.ivf().get_partition(2).unwrap().vector_count(), 1);
}

#[test]
fn documents_with_several_vectors() {
    let mut cfg = VectorConfig::default();
    cfg.vector_dim = 1;
    let mut engine = VectorEngine::new(cfg).unwrap();
    engine.initialize_centroids(vec![vec![1], vec![2]]);
    let good = vec![
        KeyedVector { vector: vec![10], keys: vec![4, 4] },
        KeyedVector { vector: vec![11], keys: vec![5, 4] },
    ];
    let (entries, ids) = engine.prepare_add_document(3, &good).unwrap();
    assert_eq!(ids, vec![1, 0]);
    assert_eq!(entries[1], (LsmKey::vec(0, 3), LsmValue::Data(vec![11, 0, 0, 0])));
    let bad = vec![KeyedVector { vector: vec![10, 11], keys: Vec::new() }];
    assert_eq!(
        engine.prepare_add_document(3, &bad).unwrap_err(),
        VectorError::DimensionMismatch { expected: 1, got: 2 }
    );
}

#[test]
fn similarity_test_find_nearest_centroid() {
    let centroids = vec![vec![1.0f32, 0.0, 0.0], vec![0.0, 1.0, 0.0], vec![0.0, 0.0, 1.0]];
    let keys: Vec<u64> = centroids.iter().map(|c| key_of(cosine(&[1.0, 0.1, 0.0], c))).collect();
    assert_eq!(last_maximum(&keys), 0);
}

#[test]
fn keys_order_as_numbers_do() {
    let numbers = [f64::NEG_INFINITY, -1e300, -1.0, -1e-310, 0.0, 1e-310, 0.5, 1.0, 1e300, f64::INFINITY];
    for a in numbers {
        for b in numbers {
            assert_eq!(order_key(a.to_bits()) < order_key(b.to_bits()), a < b);
        }
    }
    assert_eq!(order_key((-0.0f64).to_bits()), order_key(0.0f64.to_bits()));
    assert_eq!(order_key(0), 0x8000_0000_0000_0000);
}

#[test]
fn ranking_is_stable() {
    assert_eq!(top_ranked(&vec![3, 9, 3, 9, 1], 4), vec![1, 3, 0, 2]);
    assert_eq!(top_ranked(&vec![3, 9], 0), Vec::<usize>::new());
    assert_eq!(top_ranked(&vec![], 5), Vec::<usize>::new());
    assert_eq!(last_maximum(&vec![3, 9, 3, 9, 1]), 3);
    assert_eq!(first_above(&vec![3, 9, 3, 9, 1], 2), 1);
    assert_eq!(first_above(&vec![3, 9], 9), 0);
}

#[test]
fn test_quantization_f32_roundtrip() {
    let dim = 128;
    let quant = F32Quantization::new(dim, VectorSimilarity::Cosine);
    let vector: Vec<f32> = (0..dim).map(|i| i as f32 / dim as f32).collect();

    let encoded = quant.encode(&bits(&vector));
    let decoded = floats(&quant.decode(&encoded));

    assert_eq!(decoded.len(), dim);
    for i in 0..dim {
        assert!((decoded[i] - vector[i]).abs() < 1e-6);
    }
}

#[test]
fn vector_test_test_f32_bytes_per_vector() {
    let quant = F32Quantization::new(64, VectorSimilarity::Cosine);
    assert_eq!(quant.bytes_per_vector(), 64 * 4);
}

#[test]
fn test_partition_operations() {
    let centroid = bits(&[0.5, 0.5, 0.5]);
    let mut partition = Partition::new(0, centroid.clone());

    partition.add_vector(100);
    assert_eq!(partition.vector_count(), 1);

    partition.add_vector(200);
    assert_eq!(partition.vector_count(), 2);

    assert!(!partition.is_tombstoned(100));
    partition.delete_vector(100);
    assert!(partition.is_tombstoned(100));

    assert_eq!(partition.centroid(), &centroid);
}

#[test]
fn vector_test_test_ivf_index_add_partition() {
    let mut ivf = IvfIndex::new();

    let pid1 = ivf.add_partition(bits(&[0.0; 10]));
    let pid2 = ivf.add_partition(bits(&[1.0; 10]));

    assert_eq!(pid1, 0);
    assert_eq!(pid2, 1);
    assert_eq!(ivf.partition_count(), 2);

    let p1 = ivf.get_partition(pid1);
    assert!(p1.is_some());
    assert_eq!(p1.unwrap().id, pid1);
}

#[test]
fn vector_test_test_find_nearest_centroid() {
    let centroids = vec![vec![1.0f32, 0.0, 0.0], vec![0.0, 1.0, 0.0], vec![0.0, 0.0, 1.0]];
    let similarities: Vec<f32> = centroids.iter().map(|c| cosine(&[1.0, 0.1, 0.0], c)).collect();
    let keys: Vec<u64> = similarities.iter().map(|s| key_of(*s)).collect();
    let nearest = last_maximum(&keys);
    assert_eq!(nearest, 0);
    assert!(similarities[nearest] > 0.9);
}

#[test]
fn vector_test_test_vector_similarity_from_schema() {
    let sim = VectorSimilarity::from(SchemaSimilarity::Cosine);
    assert_eq!(sim, VectorSimilarity::Cosine);

    let sim = VectorSimilarity::from(SchemaSimilarity::L2);
    assert_eq!(sim, VectorSimilarity::Euclidean);

    let sim = VectorSimilarity::from(SchemaSimilarity::InnerProduct);
    assert_eq!(sim, VectorSimilarity::Dot);
}
