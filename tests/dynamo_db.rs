use linera_kv::dynamo_db::{probe_key, table_exists, TableProbe};
use linera_kv::batch::SimpleUnorderedBatch;
use linera_kv::dynamo_db::{
    check_key_size, check_namespace, chunk_transactions, extract_key, extract_key_value,
    extract_value, extract_value_owned, start_key_of, AttributeValue, DynamoDbDatabaseInternal,
    DynamoDbStoreInternalConfig, DynamoDbStoreInternalError, InvalidNamespace, Item,
    QueryResponses, TransactItem,
};
use linera_kv::errors::ErrorKind;
use linera_kv::limits::get_uleb128_size;

fn database() -> DynamoDbDatabaseInternal {
    DynamoDbDatabaseInternal::connect(&DynamoDbStoreInternalConfig::new_test_config(), "table_1")
        .unwrap()
}

#[test]
fn test_serialization_len() {
    for n in [0, 10, 127, 128, 129, 16383, 16384, 20000] {
        let vec = vec![0u8; n];
        let est_size = get_uleb128_size(n) + n;
        let serial_size = bcs::serialized_size(&vec).unwrap();
        assert_eq!(est_size, serial_size);
    }
}

#[test]
fn uleb128_sizes() {
    assert_eq!(get_uleb128_size(0), 1);
    assert_eq!(get_uleb128_size(127), 1);
    assert_eq!(get_uleb128_size(128), 2);
    assert_eq!(get_uleb128_size(409600), 3);
    assert_eq!(get_uleb128_size(usize::MAX), 10);
}

#[test]
fn oversize_key_is_rejected_by_read_and_write() {
    let key = vec![1u8; 1025];
    let mut store = database().open_shared(b"root").unwrap();
    let read = store.read_key(&key);
    assert_eq!(read, Err(DynamoDbStoreInternalError::KeyTooLong));
    assert_eq!(read.unwrap_err().kind(), ErrorKind::Validation);
    for value in [vec![], vec![5u8; 10]] {
        let batch = SimpleUnorderedBatch {
            deletions: vec![],
            insertions: vec![(key.clone(), value)],
        };
        assert_eq!(store.write_batch(batch), Err(DynamoDbStoreInternalError::KeyTooLong));
    }
    let batch = SimpleUnorderedBatch { deletions: vec![key.clone()], insertions: vec![] };
    assert_eq!(store.write_batch(batch), Err(DynamoDbStoreInternalError::KeyTooLong));
    assert!(!store.root_key_written);
}

#[test]
fn key_sizes() {
    assert_eq!(check_key_size(&[]), Err(DynamoDbStoreInternalError::ZeroLengthKey));
    assert_eq!(check_key_size(&[0u8; 1024]), Ok(()));
    assert_eq!(check_key_size(&[0u8; 1025]), Err(DynamoDbStoreInternalError::KeyTooLong));
}

#[test]
fn oversize_value_is_rejected() {
    let mut store = database().open_shared(b"root").unwrap();
    let batch = SimpleUnorderedBatch {
        deletions: vec![],
        insertions: vec![(b"k".to_vec(), vec![0u8; 409601])],
    };
    assert_eq!(store.write_batch(batch), Err(DynamoDbStoreInternalError::ValueLengthTooLarge));
}

#[test]
fn empty_prefix_is_rejected() {
    let store = database().open_shared(b"root").unwrap();
    assert_eq!(store.prefix_query(&[]), Err(DynamoDbStoreInternalError::ZeroLengthKey));
    let query = store.prefix_query(b"ab").unwrap();
    assert_eq!(query.partition, vec![0, b'r', b'o', b'o', b't']);
    assert_eq!(query.key, b"ab".to_vec());
}

#[test]
fn namespaces() {
    assert_eq!(check_namespace("ab"), Err(InvalidNamespace::TooShort));
    assert_eq!(check_namespace(&"a".repeat(256)), Err(InvalidNamespace::TooLong));
    assert_eq!(check_namespace(&"a".repeat(255)), Ok(()));
    assert_eq!(check_namespace("my table"), Err(InvalidNamespace::InvalidCharacter));
    assert_eq!(check_namespace("tablé_1"), Err(InvalidNamespace::InvalidCharacter));
    assert_eq!(check_namespace("A-b.c_9"), Ok(()));
    assert_eq!(
        DynamoDbDatabaseInternal::connect(&DynamoDbStoreInternalConfig::new_test_config(), "x!y"),
        Err(DynamoDbStoreInternalError::InvalidNamespace(InvalidNamespace::InvalidCharacter))
    );
}

#[test]
fn root_keys_get_distinct_partitions() {
    let db = database();
    let a = db.open_shared(b"a").unwrap();
    let b = db.open_exclusive(b"b").unwrap();
    assert_eq!(a.start_key, vec![0, b'a']);
    assert_eq!(b.start_key, vec![0, b'b']);
    assert_eq!(start_key_of(b""), vec![0]);
    assert_eq!(db.root_key_registry().start_key, vec![1]);
    let ka = a.read_key(b"k").unwrap();
    let kb = b.read_key(b"k").unwrap();
    assert_ne!(ka, kb);
}

#[test]
fn first_write_registers_root_key() {
    let mut store = database().open_shared(b"r").unwrap();
    let batch = SimpleUnorderedBatch {
        deletions: vec![b"d".to_vec()],
        insertions: vec![(b"k".to_vec(), b"v".to_vec())],
    };
    let transactions = store.write_batch(batch.clone()).unwrap();
    assert_eq!(transactions.len(), 2);
    assert_eq!(
        transactions[0],
        vec![TransactItem { partition: vec![1], key: vec![0, b'r'], value: Some(vec![]) }]
    );
    assert_eq!(
        transactions[1],
        vec![
            TransactItem { partition: vec![0, b'r'], key: b"d".to_vec(), value: None },
            TransactItem {
                partition: vec![0, b'r'],
                key: b"k".to_vec(),
                value: Some(b"v".to_vec())
            },
        ]
    );
    assert!(!store.root_key_written);
    assert_eq!(store.write_batch(batch.clone()).unwrap().len(), 2);
    store.registration_committed();
    assert!(store.root_key_written);
    let again = store.write_batch(batch).unwrap();
    assert_eq!(again.len(), 1);
}

#[test]
fn empty_batch_only_registers() {
    let mut store = database().open_shared(b"r").unwrap();
    let transactions = store.write_batch(SimpleUnorderedBatch::default()).unwrap();
    assert_eq!(transactions.len(), 1);
    store.registration_committed();
    assert!(store.write_batch(SimpleUnorderedBatch::default()).unwrap().is_empty());
}

#[test]
fn large_batch_is_chunked_by_item_count() {
    let mut store = database().open_shared(b"r").unwrap();
    store.root_key_written = true;
    let batch = SimpleUnorderedBatch {
        deletions: vec![],
        insertions: (0..250u32).map(|i| (i.to_be_bytes().to_vec(), vec![1u8])).collect(),
    };
    let transactions = store.write_batch(batch).unwrap();
    let sizes: Vec<usize> = transactions.iter().map(|t| t.len()).collect();
    assert_eq!(sizes, vec![100, 100, 50]);
}

#[test]
fn chunks_respect_byte_limit() {
    let items: Vec<TransactItem> = (0..5u8)
        .map(|i| TransactItem { partition: vec![0], key: vec![i], value: Some(vec![0u8; 8]) })
        .collect();
    let chunks = chunk_transactions(items.clone(), 100, 25);
    let sizes: Vec<usize> = chunks.iter().map(|t| t.len()).collect();
    assert_eq!(sizes, vec![2, 2, 1]);
    assert_eq!(chunks.concat(), items);
}

#[test]
fn item_extraction() {
    let good = Item {
        key: Some(AttributeValue::B(b"prefix-key".to_vec())),
        value: Some(AttributeValue::B(b"value".to_vec())),
    };
    assert_eq!(extract_key(7, &good), Ok(b"key".to_vec()));
    assert_eq!(extract_value(&good), Ok(b"value".to_vec()));
    assert_eq!(extract_key_value(7, &good), Ok((b"key".to_vec(), b"value".to_vec())));
    let mut owned = good.clone();
    assert_eq!(extract_value_owned(&mut owned), Ok(b"value".to_vec()));
    assert_eq!(owned.value, None);
    assert_eq!(extract_value(&owned), Err(DynamoDbStoreInternalError::MissingValue));
}

#[test]
fn malformed_items_are_data_errors() {
    let no_key = Item { key: None, value: None };
    assert_eq!(extract_key(0, &no_key), Err(DynamoDbStoreInternalError::MissingKey));
    let short = Item { key: Some(AttributeValue::B(vec![1])), value: None };
    assert_eq!(extract_key(2, &short), Err(DynamoDbStoreInternalError::MissingKey));
    let number = Item { key: Some(AttributeValue::N), value: Some(AttributeValue::Ss) };
    let e = extract_key(0, &number).unwrap_err();
    assert_eq!(e, DynamoDbStoreInternalError::WrongKeyType("a number".to_string()));
    assert_eq!(e.kind(), ErrorKind::DataIntegrity);
    assert_eq!(
        extract_value(&number),
        Err(DynamoDbStoreInternalError::WrongValueType("a list of strings".to_string()))
    );
    assert_eq!(
        DynamoDbStoreInternalError::wrong_key_type(&AttributeValue::Unknown),
        DynamoDbStoreInternalError::WrongKeyType("an unknown type".to_string())
    );
    assert_eq!(
        DynamoDbStoreInternalError::wrong_value_type(&AttributeValue::Bool),
        DynamoDbStoreInternalError::WrongValueType("a boolean".to_string())
    );
}

#[test]
fn query_responses_collect_keys_and_values() {
    let item = |k: &[u8], v: &[u8]| Item {
        key: Some(AttributeValue::B(k.to_vec())),
        value: Some(AttributeValue::B(v.to_vec())),
    };
    let responses = QueryResponses {
        prefix_len: 1,
        responses: vec![vec![item(b"pa", b"1"), item(b"pb", b"2")], vec![], vec![item(b"pc", b"3")]],
    };
    assert_eq!(responses.keys(), Ok(vec![b"a".to_vec(), b"b".to_vec(), b"c".to_vec()]));
    assert_eq!(
        responses.key_values(),
        Ok(vec![
            (b"a".to_vec(), b"1".to_vec()),
            (b"b".to_vec(), b"2".to_vec()),
            (b"c".to_vec(), b"3".to_vec())
        ])
    );
    let broken = QueryResponses {
        prefix_len: 1,
        responses: vec![vec![item(b"pa", b"1"), Item { key: Some(AttributeValue::B(b"pb".to_vec())), value: Some(AttributeValue::Null) }]],
    };
    assert_eq!(broken.keys().map(|k| k.len()), Ok(2));
    assert_eq!(
        broken.key_values(),
        Err(DynamoDbStoreInternalError::WrongValueType("a null value".to_string()))
    );
}

#[test]
fn error_kinds() {
    assert_eq!(DynamoDbStoreInternalError::Get("timeout".to_string()).kind(), ErrorKind::Backend);
    assert_eq!(DynamoDbStoreInternalError::ZeroLengthKeyPrefix.kind(), ErrorKind::Validation);
    assert_eq!(
        DynamoDbStoreInternalError::JournalConsistencyError(
            linera_kv::journaling::JournalConsistencyError::RecoveryIncomplete
        )
        .kind(),
        ErrorKind::JournalConsistency
    );
}

#[test]
fn config_and_name() {
    let config = DynamoDbStoreInternalConfig::new_test_config();
    assert!(config.use_dynamodb_local);
    assert_eq!(config.max_concurrent_queries, Some(10));
    assert_eq!(config.max_stream_queries, 10);
    assert_eq!(DynamoDbDatabaseInternal::get_name(), "dynamodb internal");
    let store = database().open_shared(b"r").unwrap();
    assert_eq!(store.max_stream_queries(), 10);
    assert_eq!(store.namespace, "table_1");
}

#[test]
fn table_existence_from_probe() {
    let key = probe_key();
    assert_eq!((key.partition, key.key), (vec![0], vec![0]));
    assert_eq!(table_exists(TableProbe::Answered), Ok(true));
    let missing = TableProbe::ResourceNotFound {
        message: Some("Cannot do operations on a non-existent table".to_string()),
        error: DynamoDbStoreInternalError::Get("not found".to_string()),
    };
    assert_eq!(table_exists(missing), Ok(false));
    let other = TableProbe::ResourceNotFound {
        message: Some("Requested resource not found".to_string()),
        error: DynamoDbStoreInternalError::Get("not found".to_string()),
    };
    assert_eq!(table_exists(other), Err(DynamoDbStoreInternalError::Get("not found".to_string())));
    let failed = TableProbe::Failed(DynamoDbStoreInternalError::Get("timeout".to_string()));
    assert_eq!(table_exists(failed), Err(DynamoDbStoreInternalError::Get("timeout".to_string())));
}
