use linera_kv::errors::ErrorKind;
use std::collections::HashMap;

use linera_kv::limits::RAW_MAX_VALUE_SIZE;
use linera_kv::value_splitting::{
    join_parts, part_key_of, part_keys, read_first_part, split_value, FirstPart,
    ValueSplittingError,
};

fn write(store: &mut HashMap<Vec<u8>, Vec<u8>>, records: Vec<(Vec<u8>, Vec<u8>)>) {
    for (k, v) in records {
        store.insert(k, v);
    }
}

fn read(
    store: &HashMap<Vec<u8>, Vec<u8>>,
    key: &[u8],
) -> Result<Option<Vec<u8>>, ValueSplittingError> {
    let first = match store.get(&part_key_of(key, 0)) {
        None => return Ok(None),
        Some(first) => first,
    };
    match read_first_part(first)? {
        FirstPart::Single(v) => Ok(Some(v)),
        FirstPart::Multi { count, total_len } => {
            let parts = part_keys(key, count)
                .iter()
                .map(|k| store.get(k).cloned())
                .collect();
            join_parts(total_len, parts).map(Some)
        }
    }
}

#[test]
fn one_megabyte_value_is_split_and_read_back() {
    let value: Vec<u8> = (0..1_000_000u32).map(|i| (i % 251) as u8).collect();
    let records = split_value(b"big", &value, RAW_MAX_VALUE_SIZE);
    assert_eq!(records.len(), 4);
    assert!(records.iter().all(|(_, v)| v.len() <= RAW_MAX_VALUE_SIZE));
    let mut store = HashMap::new();
    write(&mut store, records);
    assert_eq!(store.len(), 4);
    assert_eq!(read(&store, b"big"), Ok(Some(value)));
}

#[test]
fn small_value_is_one_record() {
    let records = split_value(b"k", b"hello", 100);
    assert_eq!(records.len(), 1);
    assert_eq!(records[0].0, vec![b'k', 0, 0, 0, 0, 0, 0, 0, 0]);
    assert_eq!(records[0].1, vec![0, b'h', b'e', b'l', b'l', b'o']);
    let mut store = HashMap::new();
    write(&mut store, records);
    assert_eq!(read(&store, b"k"), Ok(Some(b"hello".to_vec())));
}

#[test]
fn empty_value_round_trips() {
    let mut store = HashMap::new();
    write(&mut store, split_value(b"e", b"", 17));
    assert_eq!(read(&store, b"e"), Ok(Some(vec![])));
}

#[test]
fn value_at_the_cap_is_split() {
    let value = vec![7u8; 20];
    let records = split_value(b"k", &value, 20);
    assert_eq!(records.len(), 2);
    assert_eq!(records[1].1[0], 1);
    assert_eq!(records[1].0, part_key_of(b"k", 0));
    let mut store = HashMap::new();
    write(&mut store, records);
    assert_eq!(read(&store, b"k"), Ok(Some(value)));
}

#[test]
fn threshold_change_keeps_values_readable() {
    let mut store = HashMap::new();
    let long = vec![3u8; 100];
    let short = vec![4u8; 10];
    write(&mut store, split_value(b"a", &long, 30));
    write(&mut store, split_value(b"b", &long, 1000));
    write(&mut store, split_value(b"c", &short, 17));
    assert_eq!(read(&store, b"a"), Ok(Some(long.clone())));
    assert_eq!(read(&store, b"b"), Ok(Some(long)));
    assert_eq!(read(&store, b"c"), Ok(Some(short)));
}

#[test]
fn overwrite_with_fewer_parts() {
    let mut store = HashMap::new();
    write(&mut store, split_value(b"a", &vec![1u8; 100], 20));
    write(&mut store, split_value(b"a", &vec![2u8; 30], 20));
    assert_eq!(read(&store, b"a"), Ok(Some(vec![2u8; 30])));
}

#[test]
fn missing_part_is_reported() {
    let mut store = HashMap::new();
    write(&mut store, split_value(b"a", &vec![1u8; 100], 20));
    store.remove(&part_key_of(b"a", 2));
    assert_eq!(read(&store, b"a"), Err(ValueSplittingError::MissingPart));
}

#[test]
fn truncated_part_is_reported() {
    let mut store = HashMap::new();
    write(&mut store, split_value(b"a", &vec![1u8; 100], 20));
    store.insert(part_key_of(b"a", 1), vec![1u8; 5]);
    assert_eq!(read(&store, b"a"), Err(ValueSplittingError::LengthMismatch));
}

#[test]
fn bad_first_record_is_reported() {
    assert_eq!(read_first_part(&[]), Err(ValueSplittingError::InvalidEnvelope));
    assert_eq!(read_first_part(&[1, 2, 3]), Err(ValueSplittingError::InvalidEnvelope));
    assert_eq!(read_first_part(&[9; 17]), Err(ValueSplittingError::InvalidEnvelope));
}

#[test]
fn envelope_is_decoded() {
    let mut first = vec![1u8];
    first.extend_from_slice(&5u64.to_le_bytes());
    first.extend_from_slice(&300u64.to_le_bytes());
    assert_eq!(
        read_first_part(&first),
        Ok(FirstPart::Multi { count: 5, total_len: 300 })
    );
}

#[test]
fn splitting_errors_are_data_errors() {
    assert_eq!(ValueSplittingError::MissingPart.kind(), ErrorKind::DataIntegrity);
}
