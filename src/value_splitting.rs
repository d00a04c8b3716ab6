//! Value splitting: values larger than the backend's raw cap are stored as
//! several records whose concatenation is the value.
//!
//! A value `v` under `key` is stored under `key` followed by the eight-byte
//! little-endian part index. When `v` fits one record, part 0 holds a zero tag
//! followed by `v`. Otherwise part 0 holds an envelope, a one tag followed by the
//! number of further parts and the total length, and parts 1 to n hold the
//! consecutive pieces of `v`.

use vstd::bytes::{
    lemma_auto_spec_u64_to_from_le_bytes, spec_u64_from_le_bytes, spec_u64_to_le_bytes,
    u64_from_le_bytes, u64_to_le_bytes,
};
use vstd::prelude::*;

use crate::bytes::{append_bytes, copy_range};
use crate::errors::ErrorKind;
use crate::limits::MAX_KEY_SIZE;

verus! {

/// The longest key above value splitting: the part index adds eight bytes to
/// each key.
pub const MAX_SPLIT_KEY_SIZE: usize = MAX_KEY_SIZE - 8;

/// The tag of a value stored in one record.
pub const SINGLE_TAG: u8 = 0;

/// The tag of an envelope.
pub const MULTI_TAG: u8 = 1;

/// The length of an envelope: the tag and two eight-byte numbers.
pub const ENVELOPE_LEN: usize = 17;

/// Errors found when reading back a split value.
#[derive(Debug, Clone, Copy, PartialEq, Eq, Structural)]
pub enum ValueSplittingError {
    /// The first record is neither a tagged value nor an envelope.
    InvalidEnvelope,
    /// A part announced by the envelope is missing.
    MissingPart,
    /// The parts do not add up to the length announced by the envelope.
    LengthMismatch,
}

impl ValueSplittingError {
    /// A missing or inconsistent part is corruption, or a write cut short.
    pub fn kind(&self) -> (r: ErrorKind)
        ensures
            r == ErrorKind::DataIntegrity,
    {
        ErrorKind::DataIntegrity
    }
}

/// The key of part `index` of the value under `key`.
pub open spec fn part_key(key: Seq<u8>, index: u64) -> Seq<u8> {
    key + spec_u64_to_le_bytes(index)
}

/// The envelope of a value of `total` bytes stored in `count` further parts.
pub open spec fn envelope(count: u64, total: u64) -> Seq<u8> {
    seq![MULTI_TAG] + spec_u64_to_le_bytes(count) + spec_u64_to_le_bytes(total)
}

/// The values of the records before the envelope.
pub open spec fn parts_of(records: Seq<(Seq<u8>, Seq<u8>)>) -> Seq<Seq<u8>> {
    records.drop_last().map_values(|r: (Seq<u8>, Seq<u8>)| r.1)
}

/// The part index under which record `i` of `n` records is stored: the pieces
/// come first, as parts 1 to `n - 1`, and the first record, part 0, comes last.
pub open spec fn record_index(n: int, i: int) -> u64 {
    if i == n - 1 {
        0
    } else {
        (i + 1) as u64
    }
}

/// `records` store `value` under `key` for a backend whose records hold at most
/// `max` bytes. When the value is split, the envelope is the last record: a write
/// cut short before it leaves no envelope, so the value reads as absent rather
/// than as a torn value.
pub open spec fn is_split_of(
    records: Seq<(Seq<u8>, Seq<u8>)>,
    key: Seq<u8>,
    value: Seq<u8>,
    max: nat,
) -> bool {
    if value.len() + 1 <= max {
        records == seq![(part_key(key, 0), seq![SINGLE_TAG] + value)]
    } else {
        &&& value.len() <= u64::MAX
        &&& 2 <= records.len() <= u64::MAX + 1
        &&& records.last() == (part_key(key, 0), envelope((records.len() - 1) as u64, value.len() as u64))
        &&& forall|i: int|
            0 <= i < records.len() - 1 ==> (#[trigger] records[i]).0 == part_key(key, (i + 1) as u64)
                && 1 <= records[i].1.len() <= max
        &&& parts_of(records).flatten() == value
    }
}

/// Applies writes to a store, in order.
pub open spec fn apply_writes(
    m: Map<Seq<u8>, Seq<u8>>,
    records: Seq<(Seq<u8>, Seq<u8>)>,
) -> Map<Seq<u8>, Seq<u8>>
    decreases records.len(),
{
    if records.len() == 0 {
        m
    } else {
        apply_writes(m, records.drop_last()).insert(records.last().0, records.last().1)
    }
}

/// The value that reading `key` from the store `m` gives, when its records are
/// complete and consistent.
pub open spec fn read_split(m: Map<Seq<u8>, Seq<u8>>, key: Seq<u8>) -> Option<Seq<u8>> {
    let first_key = part_key(key, 0);
    if !m.contains_key(first_key) {
        None
    } else {
        let first = m[first_key];
        if first.len() >= 1 && first[0] == SINGLE_TAG {
            Some(first.drop_first())
        } else if first.len() == ENVELOPE_LEN && first[0] == MULTI_TAG {
            let count = spec_u64_from_le_bytes(first.subrange(1, 9));
            let total = spec_u64_from_le_bytes(first.subrange(9, 17));
            let parts = Seq::new(count as nat, |i: int| m[part_key(key, (i + 1) as u64)]);
            if (forall|i: int| 1 <= i <= count ==> m.contains_key(#[trigger] part_key(key, i as u64)))
                && parts.flatten().len() == total {
                Some(parts.flatten())
            } else {
                None
            }
        } else {
            None
        }
    }
}

/// The records of a sequence of owned key-value pairs.
pub open spec fn records_view(records: Seq<(Vec<u8>, Vec<u8>)>) -> Seq<(Seq<u8>, Seq<u8>)> {
    records.map_values(|r: (Vec<u8>, Vec<u8>)| (r.0@, r.1@))
}

/// Returns the key of part `index` of the value under `key`.
pub fn part_key_of(key: &[u8], index: u64) -> (r: Vec<u8>)
    ensures
        r@ == part_key(key@, index),
{
    let mut out = copy_range(key, 0, key.len());
    let suffix = u64_to_le_bytes(index);
    append_bytes(&mut out, suffix.as_slice());
    assert(key@.subrange(0, key@.len() as int) == key@);
    out
}

/// Returns the records that store `value` under `key` for a backend whose records
/// hold at most `max_value_size` bytes.
pub fn split_value(key: &[u8], value: &[u8], max_value_size: usize) -> (r: Vec<(Vec<u8>, Vec<u8>)>)
    requires
        max_value_size >= ENVELOPE_LEN,
    ensures
        is_split_of(records_view(r@), key@, value@, max_value_size as nat),
        forall|i: int| 0 <= i < r@.len() ==> (#[trigger] r@[i]).1@.len() <= max_value_size,
{
    proof {
        lemma_auto_spec_u64_to_from_le_bytes();
    }
    if value.len() < max_value_size {
        let mut records: Vec<(Vec<u8>, Vec<u8>)> = Vec::new();
        let mut single: Vec<u8> = Vec::new();
        single.push(SINGLE_TAG);
        append_bytes(&mut single, value);
        records.push((part_key_of(key, 0), single));
        assert(records_view(records@) =~= seq![(part_key(key@, 0), seq![SINGLE_TAG] + value@)]);
        return records;
    }
    let mut parts: Vec<(Vec<u8>, Vec<u8>)> = Vec::new();
    let mut offset: usize = 0;
    let ghost f = |r: (Vec<u8>, Vec<u8>)| r.1@;
    while offset < value.len()
        invariant
            offset <= value@.len(),
            max_value_size >= ENVELOPE_LEN,
            f == (|r: (Vec<u8>, Vec<u8>)| r.1@),
            parts@.len() <= offset,
            parts@.map_values(f).flatten() == value@.subrange(0, offset as int),
            forall|i: int|
                0 <= i < parts@.len() ==> (#[trigger] parts@[i]).0@ == part_key(key@, (i + 1) as u64)
                    && 1 <= parts@[i].1@.len() <= max_value_size,
        decreases value@.len() - offset,
    {
        let end: usize = if value.len() - offset <= max_value_size {
            value.len()
        } else {
            offset + max_value_size
        };
        let index: u64 = (parts.len() + 1) as u64;
        let piece = copy_range(value, offset, end);
        let part = (part_key_of(key, index), piece);
        proof {
            assert(parts@.push(part).map_values(f) =~= parts@.map_values(f).push(piece@));
            parts@.map_values(f).lemma_flatten_push(piece@);
            assert(value@.subrange(0, end as int) =~= value@.subrange(0, offset as int) + piece@);
        }
        parts.push(part);
        offset = end;
    }
    assert(value@.subrange(0, value@.len() as int) =~= value@);
    let count: u64 = parts.len() as u64;
    let mut first = Vec::new();
    first.push(MULTI_TAG);
    let count_bytes = u64_to_le_bytes(count);
    append_bytes(&mut first, count_bytes.as_slice());
    let total_bytes = u64_to_le_bytes(value.len() as u64);
    append_bytes(&mut first, total_bytes.as_slice());
    let ghost parts_view = parts@;
    let mut records = parts;
    records.push((part_key_of(key, 0), first));
    proof {
        let rv = records_view(records@);
        assert(rv.len() == parts_view.len() + 1);
        assert(parts_of(rv) =~= parts_view.map_values(f));
        assert(first@ =~= envelope(count, value@.len() as u64));
        assert forall|i: int| 0 <= i < rv.len() - 1 implies (#[trigger] rv[i]).0 == part_key(
            key@,
            (i + 1) as u64,
        ) && 1 <= rv[i].1.len() <= max_value_size by {
            assert(records@[i] == parts_view[i]);
        }
    }
    records
}

/// What the first record of a stored value says.
#[derive(Debug, Clone, PartialEq, Eq)]
pub enum FirstPart {
    /// The whole value.
    Single(Vec<u8>),
    /// The value is in `count` further parts, of `total_len` bytes together.
    Multi { count: u64, total_len: u64 },
}

/// Decodes the first record of a stored value.
pub fn read_first_part(first: &[u8]) -> (r: Result<FirstPart, ValueSplittingError>)
    ensures
        match r {
            Ok(FirstPart::Single(v)) => first@.len() >= 1 && first@[0] == SINGLE_TAG && v@
                == first@.drop_first(),
            Ok(FirstPart::Multi { count, total_len }) => !(first@.len() >= 1 && first@[0]
                == SINGLE_TAG) && first@.len() == ENVELOPE_LEN && first@[0] == MULTI_TAG && count
                == spec_u64_from_le_bytes(first@.subrange(1, 9)) && total_len
                == spec_u64_from_le_bytes(first@.subrange(9, 17)),
            Err(e) => e == ValueSplittingError::InvalidEnvelope && !(first@.len() >= 1 && first@[0]
                == SINGLE_TAG) && !(first@.len() == ENVELOPE_LEN && first@[0] == MULTI_TAG),
        },
{
    if first.len() >= 1 && first[0] == SINGLE_TAG {
        let v = copy_range(first, 1, first.len());
        assert(v@ =~= first@.drop_first());
        return Ok(FirstPart::Single(v));
    }
    if first.len() == ENVELOPE_LEN && first[0] == MULTI_TAG {
        let count_bytes = copy_range(first, 1, 9);
        let total_bytes = copy_range(first, 9, 17);
        let count = u64_from_le_bytes(count_bytes.as_slice());
        let total_len = u64_from_le_bytes(total_bytes.as_slice());
        return Ok(FirstPart::Multi { count, total_len });
    }
    Err(ValueSplittingError::InvalidEnvelope)
}

/// The parts, when every one of them was found.
pub open spec fn found_parts(parts: Seq<Option<Vec<u8>>>) -> Seq<Seq<u8>> {
    parts.map_values(|p: Option<Vec<u8>>| p.unwrap()@)
}

/// Returns the keys of parts 1 to `count` of the value under `key`, to be read.
pub fn part_keys(key: &[u8], count: u64) -> (r: Vec<Vec<u8>>)
    ensures
        r@.len() == count,
        forall|i: int| 0 <= i < count ==> (#[trigger] r@[i])@ == part_key(key@, (i + 1) as u64),
{
    let mut out: Vec<Vec<u8>> = Vec::new();
    let mut i: u64 = 0;
    while i < count
        invariant
            i <= count,
            out@.len() == i,
            forall|j: int| 0 <= j < i ==> (#[trigger] out@[j])@ == part_key(key@, (j + 1) as u64),
        decreases count - i,
    {
        out.push(part_key_of(key, i + 1));
        i = i + 1;
    }
    out
}

/// Joins the parts of a value read back, in order: fails if a part is missing or
/// if the parts do not add up to `total_len` bytes.
pub fn join_parts(total_len: u64, parts: Vec<Option<Vec<u8>>>) -> (r: Result<
    Vec<u8>,
    ValueSplittingError,
>)
    ensures
        r is Ok <==> (forall|i: int| 0 <= i < parts@.len() ==> (#[trigger] parts@[i]) is Some)
            && found_parts(parts@).flatten().len() == total_len,
        r matches Ok(v) ==> v@ == found_parts(parts@).flatten(),
        r matches Err(e) ==> if exists|i: int| 0 <= i < parts@.len() && (#[trigger] parts@[i]) is None {
            e == ValueSplittingError::MissingPart
        } else {
            e == ValueSplittingError::LengthMismatch
        },
{
    let ghost input = parts@;
    let mut value: Vec<u8> = Vec::new();
    let ghost f = |p: Option<Vec<u8>>| p.unwrap()@;
    let mut i: usize = 0;
    while i < parts.len()
        invariant
            i <= input.len(),
            parts@ == input,
            f == (|p: Option<Vec<u8>>| p.unwrap()@),
            forall|j: int| 0 <= j < i ==> (#[trigger] input[j]) is Some,
            value@ == input.take(i as int).map_values(f).flatten(),
        decreases input.len() - i,
    {
        match &parts[i] {
            None => {
                return Err(ValueSplittingError::MissingPart);
            },
            Some(part) => {
                proof {
                    assert(input.take(i + 1).map_values(f) =~= input.take(i as int).map_values(
                        f,
                    ).push(part@));
                    input.take(i as int).map_values(f).lemma_flatten_push(part@);
                }
                append_bytes(&mut value, part.as_slice());
            },
        }
        i = i + 1;
    }
    assert(input.take(input.len() as int) =~= input);
    assert(found_parts(input) =~= input.map_values(f));
    if value.len() as u64 != total_len {
        return Err(ValueSplittingError::LengthMismatch);
    }
    Ok(value)
}

/// Distinct keys, each written once.
pub open spec fn keys_distinct(records: Seq<(Seq<u8>, Seq<u8>)>) -> bool {
    forall|i: int, j: int|
        0 <= i < j < records.len() ==> (#[trigger] records[i]).0 != (#[trigger] records[j]).0
}

proof fn lemma_apply_writes_get(m: Map<Seq<u8>, Seq<u8>>, records: Seq<(Seq<u8>, Seq<u8>)>, j: int)
    requires
        keys_distinct(records),
        0 <= j < records.len(),
    ensures
        apply_writes(m, records).contains_key(records[j].0),
        apply_writes(m, records)[records[j].0] == records[j].1,
    decreases records.len(),
{
    if j < records.len() - 1 {
        let rest = records.drop_last();
        assert(records[j] == rest[j]);
        assert(records[j].0 != records[records.len() - 1].0);
        lemma_apply_writes_get(m, rest, j);
    }
}

proof fn lemma_apply_writes_other(
    m: Map<Seq<u8>, Seq<u8>>,
    records: Seq<(Seq<u8>, Seq<u8>)>,
    k: Seq<u8>,
)
    requires
        forall|i: int| 0 <= i < records.len() ==> (#[trigger] records[i]).0 != k,
    ensures
        apply_writes(m, records).contains_key(k) == m.contains_key(k),
        apply_writes(m, records)[k] == m[k],
    decreases records.len(),
{
    if records.len() > 0 {
        let rest = records.drop_last();
        assert(records[records.len() - 1].0 != k);
        assert forall|i: int| 0 <= i < rest.len() implies (#[trigger] rest[i]).0 != k by {
            assert(rest[i] == records[i]);
        }
        lemma_apply_writes_other(m, rest, k);
    }
}

proof fn lemma_part_key_injective(k1: Seq<u8>, i: u64, k2: Seq<u8>, j: u64)
    requires
        part_key(k1, i) == part_key(k2, j),
    ensures
        k1 == k2,
        i == j,
{
    lemma_auto_spec_u64_to_from_le_bytes();
    let p = part_key(k1, i);
    assert(k1 =~= p.subrange(0, k1.len() as int));
    assert(k2 =~= p.subrange(0, k2.len() as int));
    assert(spec_u64_to_le_bytes(i) =~= p.subrange(k1.len() as int, p.len() as int));
    assert(spec_u64_to_le_bytes(j) =~= p.subrange(k2.len() as int, p.len() as int));
}

/// Round trip: whatever the store held, after the records of a split of `value`
/// under `key` are written, reading `key` gives `value`, whether or not it was
/// split.
pub proof fn lemma_split_round_trip(
    m: Map<Seq<u8>, Seq<u8>>,
    records: Seq<(Seq<u8>, Seq<u8>)>,
    key: Seq<u8>,
    value: Seq<u8>,
    max: nat,
)
    requires
        is_split_of(records, key, value, max),
    ensures
        read_split(apply_writes(m, records), key) == Some(value),
{
    lemma_auto_spec_u64_to_from_le_bytes();
    let w = apply_writes(m, records);
    if value.len() + 1 <= max {
        assert(records.drop_last() =~= Seq::<(Seq<u8>, Seq<u8>)>::empty());
        assert(apply_writes(m, records.drop_last()) == m);
        assert(w == m.insert(part_key(key, 0), seq![SINGLE_TAG] + value));
        assert((seq![SINGLE_TAG] + value).drop_first() =~= value);
    } else {
        let n = (records.len() - 1) as u64;
        lemma_split_keys(records, key, value, max);
        assert(keys_distinct(records)) by {
            assert forall|i: int, j: int| 0 <= i < j < records.len() implies (#[trigger] records[i]).0
                != (#[trigger] records[j]).0 by {
                if records[i].0 == records[j].0 {
                    lemma_part_key_injective(
                        key,
                        record_index(records.len() as int, i),
                        key,
                        record_index(records.len() as int, j),
                    );
                }
            }
        }
        lemma_apply_writes_get(m, records, n as int);
        let first = w[part_key(key, 0)];
        assert(first == envelope(n, value.len() as u64));
        assert(first.subrange(1, 9) =~= spec_u64_to_le_bytes(n));
        assert(first.subrange(9, 17) =~= spec_u64_to_le_bytes(value.len() as u64));
        let parts = Seq::new(n as nat, |i: int| w[part_key(key, (i + 1) as u64)]);
        assert forall|i: int| 1 <= i <= n implies w.contains_key(#[trigger] part_key(key, i as u64)) by {
            lemma_apply_writes_get(m, records, i - 1);
        }
        assert(parts =~= parts_of(records)) by {
            assert forall|i: int| 0 <= i < n implies parts[i] == parts_of(records)[i] by {
                lemma_apply_writes_get(m, records, i);
            }
        }
    }
}

/// A split value needs enough parts: each holds at most `max` bytes, so there are
/// at least `value.len() / max` of them, plus the envelope.
pub proof fn lemma_split_record_count(
    records: Seq<(Seq<u8>, Seq<u8>)>,
    key: Seq<u8>,
    value: Seq<u8>,
    max: nat,
)
    requires
        is_split_of(records, key, value, max),
        value.len() + 1 > max,
    ensures
        value.len() <= (records.len() - 1) * max,
{
    let parts = parts_of(records);
    assert forall|i: int| 0 <= i < parts.len() implies (#[trigger] parts[i]).len() <= max by {
        assert(parts[i] == records[i].1);
    }
    parts.lemma_flatten_length_le_mul(max as int);
    parts.lemma_flatten_and_flatten_alt_are_equivalent();
}

/// Each record of a split is stored under a part key of its value's key.
pub proof fn lemma_split_keys(
    records: Seq<(Seq<u8>, Seq<u8>)>,
    key: Seq<u8>,
    value: Seq<u8>,
    max: nat,
)
    requires
        is_split_of(records, key, value, max),
    ensures
        forall|i: int|
            0 <= i < records.len() ==> (#[trigger] records[i]).0 == part_key(
                key,
                record_index(records.len() as int, i),
            ),
{
    assert forall|i: int| 0 <= i < records.len() implies (#[trigger] records[i]).0 == part_key(
        key,
        record_index(records.len() as int, i),
    ) by {
        if i < records.len() - 1 {
        }
    }
}

/// Two stores agree on every record of the value under `key`.
pub open spec fn agree_on(m1: Map<Seq<u8>, Seq<u8>>, m2: Map<Seq<u8>, Seq<u8>>, key: Seq<u8>) -> bool {
    forall|i: u64|
        #![trigger part_key(key, i)]
        m1.contains_key(part_key(key, i)) == m2.contains_key(part_key(key, i)) && m1[part_key(
            key,
            i,
        )] == m2[part_key(key, i)]
}

proof fn lemma_read_split_agree(m1: Map<Seq<u8>, Seq<u8>>, m2: Map<Seq<u8>, Seq<u8>>, key: Seq<u8>)
    requires
        agree_on(m1, m2, key),
    ensures
        read_split(m1, key) == read_split(m2, key),
{
    let k0 = part_key(key, 0);
    assert(m1.contains_key(k0) == m2.contains_key(k0));
    if m1.contains_key(k0) {
        let first = m1[k0];
        if first.len() == ENVELOPE_LEN && first[0] == MULTI_TAG {
            let count = spec_u64_from_le_bytes(first.subrange(1, 9));
            let first_parts = Seq::new(count as nat, |i: int| m1[part_key(key, (i + 1) as u64)]);
            let second_parts = Seq::new(count as nat, |i: int| m2[part_key(key, (i + 1) as u64)]);
            assert forall|i: int| 0 <= i < count implies first_parts[i] == second_parts[i] by {
                assert(m1[part_key(key, (i + 1) as u64)] == m2[part_key(key, (i + 1) as u64)]);
            }
            assert(first_parts =~= second_parts);
            assert forall|i: int| 1 <= i <= count implies m1.contains_key(
                #[trigger] part_key(key, i as u64),
            ) == m2.contains_key(part_key(key, i as u64)) by {
                assert(m1.contains_key(part_key(key, i as u64)) == m2.contains_key(
                    part_key(key, i as u64),
                ));
            }
        }
    }
}

/// Splitting is invisible across a change of threshold: a value written under one
/// threshold and another value, under another key, written under a second
/// threshold both read back exactly, whether each was split or not.
pub proof fn lemma_threshold_change(
    m: Map<Seq<u8>, Seq<u8>>,
    records1: Seq<(Seq<u8>, Seq<u8>)>,
    key1: Seq<u8>,
    value1: Seq<u8>,
    max1: nat,
    records2: Seq<(Seq<u8>, Seq<u8>)>,
    key2: Seq<u8>,
    value2: Seq<u8>,
    max2: nat,
)
    requires
        is_split_of(records1, key1, value1, max1),
        is_split_of(records2, key2, value2, max2),
        key1 != key2,
    ensures
        read_split(apply_writes(apply_writes(m, records1), records2), key1) == Some(value1),
        read_split(apply_writes(apply_writes(m, records1), records2), key2) == Some(value2),
{
    let m1 = apply_writes(m, records1);
    let m2 = apply_writes(m1, records2);
    lemma_split_round_trip(m, records1, key1, value1, max1);
    lemma_split_round_trip(m1, records2, key2, value2, max2);
    lemma_split_keys(records2, key2, value2, max2);
    assert(agree_on(m2, m1, key1)) by {
        assert forall|i: u64| #![trigger part_key(key1, i)]
            m2.contains_key(part_key(key1, i)) == m1.contains_key(part_key(key1, i)) && m2[part_key(
                key1,
                i,
            )] == m1[part_key(key1, i)] by {
            assert forall|j: int| 0 <= j < records2.len() implies (#[trigger] records2[j]).0
                != part_key(key1, i) by {
                if records2[j].0 == part_key(key1, i) {
                    lemma_part_key_injective(
                        key2,
                        record_index(records2.len() as int, j),
                        key1,
                        i,
                    );
                }
            }
            lemma_apply_writes_other(m1, records2, part_key(key1, i));
        }
    }
    lemma_read_split_agree(m2, m1, key1);
}

} // verus!
