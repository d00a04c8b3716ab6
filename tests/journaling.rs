use linera_kv::errors::ErrorKind;
use std::collections::BTreeMap;

use linera_kv::batch::SimpleUnorderedBatch;
use linera_kv::dynamo_db::{
    DynamoDbDatabaseInternal, DynamoDbStoreInternal, DynamoDbStoreInternalConfig,
    DynamoDbStoreInternalError, TransactItem,
};
use linera_kv::journaling::{
    decode_record, plan_commit, plan_recovery, visible_keys, JournalConsistencyError,
    MAX_JOURNALED_KEY_SIZE,
};
use linera_kv::value_splitting::{join_parts, part_key_of, part_keys, read_first_part, FirstPart};

type Table = BTreeMap<(Vec<u8>, Vec<u8>), Vec<u8>>;

fn store() -> DynamoDbStoreInternal {
    let config = DynamoDbStoreInternalConfig::new_test_config();
    let mut store = DynamoDbDatabaseInternal::connect(&config, "table_1")
        .unwrap()
        .open_shared(b"r")
        .unwrap();
    store.registration_committed();
    store
}

fn send(table: &mut Table, transactions: &[Vec<TransactItem>]) {
    for transaction in transactions {
        for item in transaction {
            let key = (item.partition.clone(), item.key.clone());
            match &item.value {
                Some(v) => {
                    table.insert(key, v.clone());
                }
                None => {
                    table.remove(&key);
                }
            }
        }
    }
}

fn read(table: &Table, partition: &[u8], key: &[u8]) -> Option<Vec<u8>> {
    let get = |k: Vec<u8>| table.get(&(partition.to_vec(), k)).cloned();
    match read_first_part(&get(part_key_of(key, 0))?).unwrap() {
        FirstPart::Single(v) => Some(v),
        FirstPart::Multi { count, total_len } => {
            let parts = part_keys(key, count).into_iter().map(get).collect();
            join_parts(total_len, parts).ok()
        }
    }
}

fn recover(store: &DynamoDbStoreInternal, table: &mut Table) {
    if let Some(record) = read(table, &store.start_key, &[1]) {
        let plan = plan_recovery(store, &record).unwrap();
        send(table, &plan.data);
        send(table, &plan.cleanup);
    }
}

fn big_batch() -> SimpleUnorderedBatch {
    SimpleUnorderedBatch {
        deletions: vec![b"old".to_vec()],
        insertions: (0..250u32)
            .map(|i| (i.to_be_bytes().to_vec(), vec![i as u8; 3]))
            .collect(),
    }
}

#[test]
fn small_batch_is_written_directly() {
    let batch = SimpleUnorderedBatch {
        deletions: vec![b"x".to_vec()],
        insertions: vec![(b"y".to_vec(), b"1".to_vec())],
    };
    let plan = plan_commit(&store(), batch).unwrap();
    assert!(plan.journal.is_empty());
    assert!(plan.cleanup.is_empty());
    assert_eq!(plan.data.len(), 1);
    assert_eq!(
        plan.ops,
        vec![
            (vec![0, b'x'], None),
            (vec![0, b'y'], Some(b"1".to_vec()))
        ]
    );
}

#[test]
fn large_batch_is_journaled_and_record_decodes() {
    let plan = plan_commit(&store(), big_batch()).unwrap();
    assert_eq!(plan.data.len(), 3);
    assert!(!plan.journal.is_empty());
    assert_eq!(plan.cleanup.len(), 1);
    let mut table = Table::new();
    send(&mut table, &plan.journal);
    let record = read(&table, &[0, b'r'], &[1]).unwrap();
    assert_eq!(decode_record(&record), Ok(plan.ops));
}

#[test]
fn few_large_values_are_journaled() {
    let batch = SimpleUnorderedBatch {
        deletions: vec![],
        insertions: (0..60u8).map(|i| (vec![i], vec![i; 100_000])).collect(),
    };
    let plan = plan_commit(&store(), batch).unwrap();
    assert!(plan.data.len() >= 2);
    assert!(!plan.journal.is_empty());
}

#[test]
fn keys_beyond_the_journaled_cap_are_rejected() {
    let batch = |k: Vec<u8>| SimpleUnorderedBatch { deletions: vec![], insertions: vec![(k, vec![1])] };
    assert!(plan_commit(&store(), batch(vec![7; MAX_JOURNALED_KEY_SIZE])).is_ok());
    assert_eq!(
        plan_commit(&store(), batch(vec![7; MAX_JOURNALED_KEY_SIZE + 1])).err(),
        Some(DynamoDbStoreInternalError::KeyTooLong)
    );
    assert_eq!(
        plan_commit(&store(), SimpleUnorderedBatch { deletions: vec![vec![]], insertions: vec![] }).err(),
        Some(DynamoDbStoreInternalError::ZeroLengthKey)
    );
}

#[test]
fn recovery_after_partial_commit_matches_full_batch() {
    let store = store();
    let mut initial = Table::new();
    let old = plan_commit(
        &store,
        SimpleUnorderedBatch {
            deletions: vec![],
            insertions: vec![(b"old".to_vec(), vec![9]), (b"z".to_vec(), vec![8])],
        },
    )
    .unwrap();
    send(&mut initial, &old.data);
    let plan = plan_commit(&store, big_batch()).unwrap();
    let mut expected = initial.clone();
    send(&mut expected, &plan.data);
    for k in 0..=plan.data.len() {
        let mut table = initial.clone();
        send(&mut table, &plan.journal);
        send(&mut table, &plan.data[..k]);
        recover(&store, &mut table);
        assert_eq!(table, expected);
    }
}

#[test]
fn torn_journal_write_reads_as_absent() {
    let store = store();
    let batch = SimpleUnorderedBatch {
        deletions: vec![],
        insertions: (0..15u8).map(|i| (vec![i], vec![i; 300_000])).collect(),
    };
    let plan = plan_commit(&store, batch).unwrap();
    assert!(plan.journal.len() >= 2);
    let mut table = Table::new();
    send(&mut table, &plan.journal[..plan.journal.len() - 1]);
    assert_eq!(read(&table, &store.start_key, &[1]), None);
}

#[test]
fn unparseable_record_is_reported() {
    assert_eq!(
        decode_record(&[7, 0, 0]),
        Err(JournalConsistencyError::UnparseableRecord)
    );
    assert_eq!(
        decode_record(&[0, 5, 0, 0, 0, 0, 0, 0, 0, 1]),
        Err(JournalConsistencyError::UnparseableRecord)
    );
}

#[test]
fn empty_record_has_no_writes() {
    assert_eq!(decode_record(&[]), Ok(vec![]));
}

#[test]
fn journal_error_kinds() {
    assert_eq!(JournalConsistencyError::UnparseableRecord.kind(), ErrorKind::DataIntegrity);
    assert_eq!(JournalConsistencyError::RecoveryIncomplete.kind(), ErrorKind::JournalConsistency);
}

#[test]
fn scans_list_values_not_parts() {
    let mut first = b"ab".to_vec();
    first.extend_from_slice(&0u64.to_le_bytes());
    let mut later = b"ab".to_vec();
    later.extend_from_slice(&3u64.to_le_bytes());
    let keys = vec![first, later, b"short".to_vec()];
    assert_eq!(visible_keys(keys), vec![b"ab".to_vec()]);
}

#[test]
fn one_megabyte_value_under_longest_key_commits() {
    let store = store();
    let key = vec![5u8; MAX_JOURNALED_KEY_SIZE];
    let value: Vec<u8> = (0..1_048_576u32).map(|i| (i % 253) as u8).collect();
    let batch = SimpleUnorderedBatch { deletions: vec![], insertions: vec![(key.clone(), value.clone())] };
    let plan = plan_commit(&store, batch).unwrap();
    let items: Vec<&TransactItem> = plan.data.iter().flatten().collect();
    assert!(items.len() >= 4);
    assert!(items.iter().all(|it| it.key.len() <= 1024 && it.value.as_ref().unwrap().len() <= 409_600));
    let mut table = Table::new();
    send(&mut table, &plan.journal);
    send(&mut table, &plan.data);
    send(&mut table, &plan.cleanup);
    let mut stored = vec![0u8];
    stored.extend_from_slice(&key);
    assert_eq!(read(&table, &store.start_key, &stored), Some(value));
    assert_eq!(read(&table, &store.start_key, &[1]), None);
}
