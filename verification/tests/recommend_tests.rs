//! Training, aggregation and ranking of the federated recommender.

use dafs::recommend::{
    aggregate_model_bytes, aggregate_remote_model, clone_model, train_local_model, AIError,
    NCFModel, PARAM_LIMIT,
};
use dafs::store::FileMetadata;
use dafs::util::StringMap;

fn meta_with_id(id: &str) -> FileMetadata {
    FileMetadata {
        file_id: id.to_string(),
        filename: format!("{}.bin", id),
        tags: Vec::new(),
        owner_peer_id: "owner".to_string(),
        checksum: String::new(),
        size: 0,
        encrypted_file_key: Vec::new(),
        shared_keys: StringMap::new(),
        allowed_peers: vec!["owner".to_string()],
    }
}

#[test]
fn recommendation_top_k() {
    let mut model = NCFModel::new();
    let interactions = vec![
        ("u".to_string(), "A".to_string()),
        ("u".to_string(), "B".to_string()),
    ];
    model.train(&interactions).unwrap();
    let files = vec![meta_with_id("A"), meta_with_id("B"), meta_with_id("C")];
    let top = model.recommend("u", &files, 2).unwrap();
    assert_eq!(top.len(), 2);
    let s0 = model.forward("u", top[0].file_id.as_str()).unwrap();
    let s1 = model.forward("u", top[1].file_id.as_str()).unwrap();
    assert!(s0 >= s1);
}

#[test]
fn recommend_returns_all_when_few_candidates() {
    let model = NCFModel::new();
    let files = vec![meta_with_id("A")];
    let top = model.recommend("u", &files, 10).unwrap();
    assert_eq!(top.len(), 1);
    assert_eq!(top[0].file_id, "A");
}

#[test]
fn federated_averaging() {
    let mut m1 = NCFModel::new();
    let mut m2 = NCFModel::new();
    m1.train(&vec![("u1".to_string(), "A".to_string())]).unwrap();
    m2.train(&vec![("u2".to_string(), "B".to_string())]).unwrap();
    m2.train(&vec![("u2".to_string(), "B".to_string())]).unwrap();
    let w1_before: Vec<Vec<i64>> = m1.w1.clone();
    let w1_other: Vec<Vec<i64>> = m2.w1.clone();
    let e1 = m1.epoch;
    let e2 = m2.epoch;
    m1.aggregate(&m2).unwrap();
    for i in 0..16 {
        for j in 0..64 {
            let a = w1_before[i][j];
            let b = w1_other[i][j];
            let s = a + b;
            let expected = if s >= 0 { s / 2 } else { -((-s) / 2) };
            assert_eq!(m1.w1[i][j], expected);
        }
    }
    assert_eq!(m1.epoch, e1.max(e2));
    // Embeddings only on one side are adopted unchanged.
    assert_eq!(
        m1.user_embeddings.get("u2").unwrap(),
        m2.user_embeddings.get("u2").unwrap(),
    );
    assert!(m1.user_embeddings.get("u1").is_some());
}

#[test]
fn aggregation_identity_is_fixed_point() {
    let mut model = NCFModel::new();
    model.train(&vec![("u".to_string(), "A".to_string())]).unwrap();
    let copy = clone_model(&model);
    let w1_before = model.w1.clone();
    let b1_before = model.b1.clone();
    let b2_before = model.b2.clone();
    let ue_before = model.user_embeddings.get("u").unwrap().clone();
    let epoch_before = model.epoch;
    model.aggregate(&copy).unwrap();
    assert_eq!(model.w1, w1_before);
    assert_eq!(model.b1, b1_before);
    assert_eq!(model.b2, b2_before);
    assert_eq!(model.user_embeddings.get("u").unwrap(), &ue_before);
    assert_eq!(model.epoch, epoch_before);
}

#[test]
fn epochs_never_decrease() {
    let mut model = NCFModel::new();
    assert_eq!(model.epoch, 0);
    train_local_model(&mut model, &vec![("u".to_string(), "A".to_string())]).unwrap();
    assert_eq!(model.epoch, 1);
    train_local_model(&mut model, &Vec::new()).unwrap();
    assert_eq!(model.epoch, 2);
    let mut newer = NCFModel::new();
    newer.train(&Vec::new()).unwrap();
    newer.train(&Vec::new()).unwrap();
    newer.train(&Vec::new()).unwrap();
    let before = model.epoch;
    aggregate_remote_model(&mut model, &newer).unwrap();
    assert!(model.epoch >= before);
    assert_eq!(model.epoch, 3);
}

#[test]
fn aggregate_rejects_bad_shapes() {
    let mut model = NCFModel::new();
    let mut bad = NCFModel::new();
    bad.w1 = Vec::new();
    let r = model.aggregate(&bad);
    assert!(matches!(r, Err(AIError::ModelValidation(_))));
}

#[test]
fn forward_detects_out_of_range_intermediates() {
    let mut model = NCFModel::new();
    for row in model.w1.iter_mut() {
        for w in row.iter_mut() {
            *w = PARAM_LIMIT;
        }
    }
    let mut big = Vec::new();
    for _ in 0..32 {
        big.push(PARAM_LIMIT);
    }
    model.user_embeddings.insert("u".to_string(), big.clone());
    model.file_embeddings.insert("A".to_string(), big);
    let r = model.forward("u", "A");
    assert!(matches!(r, Err(AIError::NumericalInstability)));
}

#[test]
fn training_seeds_missing_embeddings() {
    let mut model = NCFModel::new();
    assert!(model.user_embeddings.get("u").is_none());
    model.train(&vec![("u".to_string(), "A".to_string())]).unwrap();
    assert_eq!(model.user_embeddings.get("u").unwrap().len(), 32);
    assert_eq!(model.file_embeddings.get("A").unwrap().len(), 32);
}

#[test]
fn export_import_round_trip() {
    let mut model = NCFModel::new();
    model
        .train(&vec![("u".to_string(), "A".to_string()), ("v".to_string(), "B".to_string())])
        .unwrap();
    let blob = model.export_model();
    let back = NCFModel::import_model(&blob).unwrap();
    assert_eq!(back.w1, model.w1);
    assert_eq!(back.w2, model.w2);
    assert_eq!(back.b1, model.b1);
    assert_eq!(back.b2, model.b2);
    assert_eq!(back.epoch, model.epoch);
    assert_eq!(back.user_embeddings.entries, model.user_embeddings.entries);
    assert_eq!(back.file_embeddings.entries, model.file_embeddings.entries);
}

#[test]
fn aggregate_from_blob() {
    let mut local = NCFModel::new();
    let mut remote = NCFModel::new();
    remote.train(&vec![("u".to_string(), "A".to_string())]).unwrap();
    let blob = remote.export_model();
    aggregate_model_bytes(&mut local, &blob).unwrap();
    assert_eq!(local.epoch, 1);
    assert!(local.user_embeddings.get("u").is_some());
    // Garbage is rejected whole.
    let before = local.w1.clone();
    let r = aggregate_model_bytes(&mut local, &vec![1, 2, 3]);
    assert!(matches!(r, Err(AIError::ModelValidation(_))));
    assert_eq!(local.w1, before);
}
