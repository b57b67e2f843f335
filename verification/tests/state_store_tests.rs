use state_store::state_db::KeyHash;
use state_store::state_db::NodeBatch;
use state_store::state_db::StateDB;
use state_store::state_db::StateDbError;

fn hash(n: u8) -> KeyHash {
    KeyHash([n; 32])
}

fn value_batch(entries: Vec<(u64, KeyHash, Option<Vec<u8>>)>) -> NodeBatch {
    NodeBatch { nodes: Vec::new(), values: entries }
}

#[test]
fn concrete_version_scenario() {
    let mut db = StateDB::temporary();
    let h1 = hash(1);
    db.put_preimage(h1.clone(), b"alice".to_vec());

    db.write_node_batch(&value_batch(vec![(1, h1.clone(), Some(b"100".to_vec()))]))
        .unwrap();
    db.write_node_batch(&value_batch(vec![(5, h1.clone(), Some(b"250".to_vec()))]))
        .unwrap();

    assert_eq!(db.get_value_option(0, &h1).unwrap(), None);
    assert_eq!(db.get_value_option(1, &h1).unwrap(), Some(b"100".to_vec()));
    assert_eq!(db.get_value_option(3, &h1).unwrap(), Some(b"100".to_vec()));
    assert_eq!(db.get_value_option(5, &h1).unwrap(), Some(b"250".to_vec()));
    assert_eq!(db.get_value_option(100, &h1).unwrap(), Some(b"250".to_vec()));
}

#[test]
fn unknown_key_reads_none() {
    let mut db = StateDB::temporary();
    let known = hash(1);
    db.put_preimage(known.clone(), b"known".to_vec());
    db.write_node_batch(&value_batch(vec![(1, known.clone(), Some(vec![1]))]))
        .unwrap();

    let unknown = hash(9);
    for version in [0, 1, 7, u64::MAX] {
        assert_eq!(db.get_value_option(version, &unknown).unwrap(), None);
    }
}

#[test]
fn missing_preimage_fails_batch_without_partial_effects() {
    let mut db = StateDB::temporary();
    let resolved = hash(1);
    db.put_preimage(resolved.clone(), b"resolved".to_vec());

    let unresolved = hash(2);
    let batch = NodeBatch {
        nodes: vec![(b"node-key".to_vec(), b"node-bytes".to_vec())],
        values: vec![
            (3, resolved.clone(), Some(b"fine".to_vec())),
            (3, unresolved.clone(), Some(b"broken".to_vec())),
        ],
    };
    assert_eq!(db.write_node_batch(&batch), Err(StateDbError::MissingPreimage));

    // the whole batch was rejected: neither the node nor the resolvable
    // value entry is visible
    assert_eq!(db.get_node_option(&b"node-key".to_vec()), None);
    assert_eq!(db.get_value_option(3, &resolved).unwrap(), None);
    assert_eq!(db.get_value_option(3, &unresolved).unwrap(), None);
}

#[test]
fn node_round_trip() {
    let mut db = StateDB::temporary();
    let batch = NodeBatch {
        nodes: vec![(b"k1".to_vec(), b"n1".to_vec()), (b"k2".to_vec(), b"n2".to_vec())],
        values: Vec::new(),
    };
    db.write_node_batch(&batch).unwrap();
    assert_eq!(db.get_node_option(&b"k1".to_vec()), Some(b"n1".to_vec()));
    assert_eq!(db.get_node_option(&b"k2".to_vec()), Some(b"n2".to_vec()));
    assert_eq!(db.get_node_option(&b"k3".to_vec()), None);

    // an idempotent overwrite is permitted and the newest write wins
    let overwrite = NodeBatch {
        nodes: vec![(b"k1".to_vec(), b"n1-bis".to_vec())],
        values: Vec::new(),
    };
    db.write_node_batch(&overwrite).unwrap();
    assert_eq!(db.get_node_option(&b"k1".to_vec()), Some(b"n1-bis".to_vec()));
}

#[test]
fn tombstone_hides_later_reads_only() {
    let mut db = StateDB::temporary();
    let h = hash(4);
    db.put_preimage(h.clone(), b"doomed".to_vec());
    db.write_node_batch(&value_batch(vec![(1, h.clone(), Some(b"alive".to_vec()))]))
        .unwrap();
    db.write_node_batch(&value_batch(vec![(5, h.clone(), None)])).unwrap();

    assert_eq!(db.get_value_option(0, &h).unwrap(), None);
    assert_eq!(db.get_value_option(1, &h).unwrap(), Some(b"alive".to_vec()));
    assert_eq!(db.get_value_option(4, &h).unwrap(), Some(b"alive".to_vec()));
    assert_eq!(db.get_value_option(5, &h).unwrap(), None);
    assert_eq!(db.get_value_option(100, &h).unwrap(), None);
}

#[test]
fn batches_may_arrive_out_of_version_order() {
    let mut db = StateDB::temporary();
    let h = hash(6);
    db.put_preimage(h.clone(), b"late".to_vec());
    db.write_node_batch(&value_batch(vec![(5, h.clone(), Some(b"v5".to_vec()))]))
        .unwrap();
    db.write_node_batch(&value_batch(vec![(1, h.clone(), Some(b"v1".to_vec()))]))
        .unwrap();

    assert_eq!(db.get_value_option(1, &h).unwrap(), Some(b"v1".to_vec()));
    assert_eq!(db.get_value_option(4, &h).unwrap(), Some(b"v1".to_vec()));
    assert_eq!(db.get_value_option(5, &h).unwrap(), Some(b"v5".to_vec()));
}

#[test]
fn rewrite_of_same_version_wins() {
    let mut db = StateDB::temporary();
    let h = hash(7);
    db.put_preimage(h.clone(), b"twice".to_vec());
    db.write_node_batch(&value_batch(vec![(2, h.clone(), Some(b"first".to_vec()))]))
        .unwrap();
    db.write_node_batch(&value_batch(vec![(2, h.clone(), Some(b"second".to_vec()))]))
        .unwrap();
    assert_eq!(db.get_value_option(2, &h).unwrap(), Some(b"second".to_vec()));
}

#[test]
fn preimage_index_stores_and_resolves() {
    let mut db = StateDB::temporary();
    let h = hash(3);
    assert_eq!(db.get_preimage(&h), None);
    db.put_preimage(h.clone(), b"bytes".to_vec());
    assert_eq!(db.get_preimage(&h), Some(b"bytes".to_vec()));
    // re-recording the identical mapping is idempotent
    db.put_preimage(h.clone(), b"bytes".to_vec());
    assert_eq!(db.get_preimage(&h), Some(b"bytes".to_vec()));
}

#[test]
fn rightmost_leaf_is_greatest_key() {
    let db = StateDB::temporary();
    assert_eq!(db.get_rightmost_leaf(), None);

    let mut db = StateDB::temporary();
    let batch = NodeBatch {
        nodes: vec![
            (vec![2, 1], b"mid".to_vec()),
            (vec![9], b"right".to_vec()),
            (vec![2, 1, 0], b"left".to_vec()),
        ],
        values: Vec::new(),
    };
    db.write_node_batch(&batch).unwrap();
    assert_eq!(db.get_rightmost_leaf(), Some((vec![9], b"right".to_vec())));
}

#[test]
fn values_shared_prefix_keys_stay_separate() {
    let mut db = StateDB::temporary();
    let ha = hash(10);
    let hb = hash(11);
    db.put_preimage(ha.clone(), b"a".to_vec());
    db.put_preimage(hb.clone(), b"ab".to_vec());
    db.write_node_batch(&value_batch(vec![
        (1, ha.clone(), Some(b"va".to_vec())),
        (1, hb.clone(), Some(b"vab".to_vec())),
    ]))
    .unwrap();

    assert_eq!(db.get_value_option(9, &ha).unwrap(), Some(b"va".to_vec()));
    assert_eq!(db.get_value_option(9, &hb).unwrap(), Some(b"vab".to_vec()));
}
