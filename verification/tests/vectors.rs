use p_memory::bits;
use p_memory::cache::VectorCache;
use p_memory::embeddings::EmbeddingSpace;
use p_memory::error::Error;
use p_memory::ranking::Scored;
use p_memory::types::{RecordKey, RecordKind};
use p_memory::vectors::{
    decode_sq8, decode_values, dot_codes, dot_codes_scalar, encode_values, read_row, Partition, StoredRow, StoredVector,
    VectorFilter, VectorRow,
};

fn no_filter() -> VectorFilter {
    VectorFilter { kinds: vec![], tags: vec![], note_ids: vec![], allowed: None }
}

fn row(id: i64, kind: RecordKind, tags: &[&str], note: i64) -> VectorRow {
    VectorRow {
        key: RecordKey { id },
        kind,
        tags: tags.iter().map(|tag| tag.to_string()).collect(),
        note,
        fingerprint: String::new(),
    }
}

fn singles(values: &[f32]) -> StoredVector {
    StoredVector::Singles(values.iter().map(|v| v.to_bits()).collect())
}

fn dot(a: &[f32], b: &[f32]) -> f32 {
    a.iter().zip(b).map(|(x, y)| x * y).sum()
}

fn normalized(values: &[f32]) -> Vec<f32> {
    let norm = values.iter().map(|v| f64::from(*v).powi(2)).sum::<f64>().sqrt();
    values.iter().map(|v| (f64::from(*v) / norm) as f32).collect()
}

fn quantized(values: &[f32]) -> (Vec<i8>, f32) {
    let max = values.iter().fold(0f32, |m, v| m.max(v.abs()));
    let scale = if max == 0.0 { 1.0 } else { max / 127.0 };
    (values.iter().map(|v| (v / scale).round().clamp(-127.0, 127.0) as i8).collect(), scale)
}

/// The product in blocks and the plain one agree bit for bit, also where the length is no multiple
/// of a block.
#[test]
fn integer_kernel_matches_scalar() {
    for dimension in [1usize, 15, 16, 17, 250, 1024] {
        let left: Vec<i8> = (0..dimension).map(|i| ((i * 37 % 255) as i32 - 127) as i8).collect();
        let right: Vec<i8> = (0..dimension).map(|i| ((i * 91 % 255) as i32 - 127) as i8).collect();
        assert_eq!(dot_codes(&left, &right), dot_codes_scalar(&left, &right), "dimension {dimension}");
    }
}

/// Equal scores rank by the ascending key, whatever the order in which rows were read.
#[test]
fn tied_scores_break_by_key_whatever_the_row_order() {
    let query = [1.0f32, 0.0, 0.0, 0.0];
    let build = |order: &[i64]| Partition {
        rows: order.iter().map(|id| row(*id, RecordKind::Memory, &[], 0)).collect(),
        vectors: order.iter().map(|_| singles(&[1.0, 0.0, 0.0, 0.0])).collect(),
    };
    let top_two = |partition: &Partition| -> Vec<i64> {
        let at = partition.matching(&no_filter());
        let scores: Vec<u64> = at
            .iter()
            .map(|place| match &partition.vectors[*place] {
                StoredVector::Singles(values) => {
                    let values: Vec<f32> = values.iter().map(|v| f32::from_bits(*v)).collect();
                    f64::from(dot(&query, &values)).to_bits()
                }
                StoredVector::Quantized { .. } => unreachable!(),
            })
            .collect();
        partition.search(&at, &scores, 2).iter().map(|hit| hit.id).collect()
    };
    assert_eq!(top_two(&build(&[1, 2, 3, 4])), vec![1, 2]);
    assert_eq!(top_two(&build(&[4, 3, 2, 1])), vec![1, 2]);
}

/// Scores of quantized vectors stay close to those of the decoded ones.
#[test]
fn quantized_query_tracks_decoded_f32_kernel() {
    let dimension = 256usize;
    let stored_raw: Vec<f32> = (0..dimension).map(|i| (i as f32 * 0.37).sin() + 0.25).collect();
    let query_raw: Vec<f32> = (0..dimension).map(|i| (i as f32 * 0.11).cos() - 0.1).collect();
    let stored = normalized(&stored_raw);
    let query = normalized(&query_raw);
    let (stored_codes, stored_scale) = quantized(&stored);
    let encoded = encode_values(&StoredVector::Quantized { scale: stored_scale.to_bits(), codes: stored_codes });
    let (scale, codes) = decode_sq8(&encoded, dimension).unwrap();
    let scale = f32::from_bits(scale);
    let decoded: Vec<f32> = codes.iter().map(|c| f32::from(*c) * scale).collect();
    let reference = dot(&query, &decoded);
    let (query_codes, query_scale) = quantized(&query);
    let actual = query_scale * scale * dot_codes(&query_codes, &codes) as f32;
    assert!((reference - actual).abs() < 1e-3, "reference {reference} vs actual {actual}");
}

/// Invalidation goes by namespace: what was written is dropped and its version moves on, the rest
/// stays as it was.
#[test]
fn invalidating_one_namespace_leaves_the_others_alone() {
    let mut cache: VectorCache<u8> = VectorCache::new();
    let epoch = cache.epoch_of("a");
    assert!(cache.keep_loaded("v", "a", "public", None, epoch));
    let epoch = cache.epoch_of("b");
    assert!(cache.keep_loaded("v", "b", "public", None, epoch));
    let epoch_b = cache.epoch_of("b");

    cache.invalidate_namespaces(&vec!["a".to_string()]);

    assert!(cache.get("v", "a", "public").is_none());
    assert!(cache.get("v", "b", "public").is_some());
    assert_eq!(cache.epoch_of("b"), epoch_b);
    assert_ne!(cache.epoch_of("a"), epoch_b);

    let epoch_a = cache.epoch_of("a");
    cache.invalidate();
    assert!(cache.get("v", "b", "public").is_none());
    assert!(cache.epoch_of("a") > epoch_a && cache.epoch_of("b") > epoch_b);
}

/// A partition that was loaded before a write is not kept.
#[test]
fn stale_partitions_are_not_kept() {
    let mut cache: VectorCache<u8> = VectorCache::new();
    let epoch = cache.epoch_of("a");
    cache.invalidate_namespaces(&vec!["a".to_string()]);
    assert!(!cache.keep_loaded("v", "a", "public", Some(1), epoch));
    assert!(cache.get("v", "a", "public").is_none());
    let epoch = cache.epoch_of("a");
    assert!(cache.keep_loaded("v", "a", "public", Some(2), epoch));
    assert_eq!(cache.get("v", "a", "public"), Some(&Some(2)));
}

#[test]
fn stored_vectors_are_read_back() {
    let plain = singles(&[1.0, -0.5, 0.25]);
    let bytes = encode_values(&plain);
    assert_eq!(bytes, [1.0f32, -0.5, 0.25].iter().flat_map(|v| v.to_le_bytes()).collect::<Vec<u8>>());
    match decode_values(&bytes, 3, "f32").unwrap() {
        StoredVector::Singles(values) => {
            assert_eq!(values, vec![1.0f32.to_bits(), (-0.5f32).to_bits(), 0.25f32.to_bits()])
        }
        other => panic!("{other:?}"),
    }
    let packed = StoredVector::Quantized { scale: 0.5f32.to_bits(), codes: vec![-127, -1, 0, 1, 127] };
    let bytes = encode_values(&packed);
    assert_eq!(bytes[..4], 0.5f32.to_le_bytes());
    assert_eq!(bytes[4..], [129, 255, 0, 1, 127]);
    match decode_values(&bytes, 5, "sq8").unwrap() {
        StoredVector::Quantized { scale, codes } => {
            assert_eq!(scale, 0.5f32.to_bits());
            assert_eq!(codes, vec![-127, -1, 0, 1, 127]);
        }
        other => panic!("{other:?}"),
    }
}

#[test]
fn vectors_of_the_wrong_length_are_refused() {
    let mismatch = |out: Result<StoredVector, Error>| match out {
        Err(Error::InvalidVector(message)) => assert_eq!(message, "stored vector dimension mismatch"),
        other => panic!("{other:?}"),
    };
    mismatch(decode_values(&vec![0; 12], 4, "f32"));
    mismatch(decode_values(&vec![0; 13], 3, "f32"));
    mismatch(decode_values(&vec![0; 3], 0, "sq8"));
    mismatch(decode_values(&vec![0; 8], 5, "sq8"));
    assert!(decode_values(&vec![0; 4], 0, "sq8").is_ok());
    match decode_values(&vec![], 0, "f16") {
        Err(Error::Validation(message)) => assert_eq!(message, "unknown encoding f16"),
        other => panic!("{other:?}"),
    }
}

fn stored(id: i64, bytes: Vec<u8>) -> StoredRow {
    StoredRow {
        id,
        kind_code: RecordKind::Memory.code(),
        bytes,
        tags: Ok(vec!["t".to_string()]),
        note: 0,
        fingerprint: "f".to_string(),
    }
}

fn space(dimension: usize, encoding: &str) -> EmbeddingSpace {
    EmbeddingSpace {
        id: "v".to_string(),
        model: "fixture/v1".to_string(),
        dimension,
        text_version: 1,
        encoding: encoding.to_string(),
    }
}

#[test]
fn rows_that_cannot_be_used_refuse_the_partition() {
    let good = encode_values(&singles(&[1.0, 0.0]));
    let partition = Partition::load(vec![stored(1, good.clone()), stored(2, good.clone())], &space(2, "f32")).unwrap().unwrap();
    assert_eq!(partition.rows.iter().map(|row| row.key.id).collect::<Vec<_>>(), vec![1, 2]);
    assert_eq!(partition.rows[0].tags, vec!["t".to_string()]);
    assert!(Partition::load(vec![], &space(2, "f32")).unwrap().is_none());

    let mut unknown = stored(3, good.clone());
    unknown.kind_code = 99;
    match read_row(unknown, &space(2, "f32")) {
        Err(Error::InvalidVector(message)) => assert_eq!(message, "invalid stored record kind"),
        other => panic!("{other:?}"),
    }
    let mut broken = stored(4, good.clone());
    broken.tags = Err("expected value".to_string());
    match read_row(broken, &space(2, "f32")) {
        Err(Error::Json(message)) => assert_eq!(message, "expected value"),
        other => panic!("{other:?}"),
    }
    match read_row(stored(5, encode_values(&singles(&[1.0, f32::NAN]))), &space(2, "f32")) {
        Err(Error::InvalidVector(message)) => assert_eq!(message, "stored vector contains nonfinite values"),
        other => panic!("{other:?}"),
    }
    let endless = StoredVector::Quantized { scale: f32::INFINITY.to_bits(), codes: vec![1, 2] };
    assert!(Partition::load(vec![stored(6, encode_values(&endless))], &space(2, "sq8")).is_err());
    assert!(Partition::load(vec![stored(7, good)], &space(2, "sq8")).is_err());
}

#[test]
fn filters_pick_the_rows_that_are_scored() {
    let partition = Partition {
        rows: vec![
            row(1, RecordKind::Memory, &["a", "b"], 0),
            row(2, RecordKind::Chunk, &["a"], 7),
            row(3, RecordKind::Chunk, &[], 8),
            row(4, RecordKind::Entity, &["b"], 0),
        ],
        vectors: vec![singles(&[1.0]), singles(&[1.0]), singles(&[1.0]), singles(&[1.0])],
    };
    assert_eq!(partition.matching(&no_filter()), vec![0, 1, 2, 3]);
    assert_eq!(partition.matching(&VectorFilter { kinds: vec![RecordKind::Chunk], ..no_filter() }), vec![1, 2]);
    assert_eq!(partition.matching(&VectorFilter { tags: vec!["a".into()], ..no_filter() }), vec![0, 1]);
    assert_eq!(partition.matching(&VectorFilter { tags: vec!["a".into(), "b".into()], ..no_filter() }), vec![0]);
    assert_eq!(partition.matching(&VectorFilter { note_ids: vec![8], ..no_filter() }), vec![2]);
    let allowed = Some([1i64, 4].into_iter().collect());
    assert_eq!(partition.matching(&VectorFilter { allowed, ..no_filter() }), vec![0, 3]);
}

#[test]
fn the_best_rows_are_kept_and_scores_are_clamped() {
    let partition = Partition {
        rows: (1..=4).map(|id| row(id, RecordKind::Memory, &[], 0)).collect(),
        vectors: (1..=4).map(|_| singles(&[1.0])).collect(),
    };
    let scores: Vec<u64> = [0.25f64, 1.5, -3.0, 1.0].iter().map(|score| score.to_bits()).collect();
    let at = partition.matching(&no_filter());
    let best = partition.search(&at, &scores, 3);
    let one = bits::order_key(1.0f64.to_bits());
    assert_eq!(
        best,
        vec![
            Scored { id: 2, score: one },
            Scored { id: 4, score: one },
            Scored { id: 1, score: bits::order_key(0.25f64.to_bits()) },
        ]
    );
    let all = partition.search(&at, &scores, 9);
    assert_eq!(all.last(), Some(&Scored { id: 3, score: bits::order_key((-1.0f64).to_bits()) }));
    assert!(partition.search(&at, &scores, 0).is_empty());
}

/// Which rows are kept does not look at the sign of zero; how they stand does.
#[test]
fn both_zeros_are_kept_alike() {
    let search = |order: &[(i64, f64)], limit: usize| -> Vec<i64> {
        let partition = Partition {
            rows: order.iter().map(|(id, _)| row(*id, RecordKind::Memory, &[], 0)).collect(),
            vectors: order.iter().map(|_| singles(&[1.0])).collect(),
        };
        let scores: Vec<u64> = order.iter().map(|(_, score)| score.to_bits()).collect();
        partition.search(&partition.matching(&no_filter()), &scores, limit).iter().map(|hit| hit.id).collect()
    };
    assert_eq!(search(&[(5, -0.0), (7, 0.0)], 1), vec![5]);
    assert_eq!(search(&[(7, 0.0), (5, -0.0)], 1), vec![5]);
    assert_eq!(search(&[(7, 0.0), (5, -0.0)], 2), vec![7, 5]);
    assert_eq!(search(&[(1, -0.5), (7, 0.0), (5, -0.0), (6, 0.0)], 2), vec![6, 5]);
    assert_eq!(search(&[(6, 0.0), (5, -0.0), (7, 0.0), (1, -0.5), (9, 0.25)], 3), vec![9, 6, 5]);
}
