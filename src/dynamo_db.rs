//! The DynamoDB adapter's logic: key and namespace validation, the two-part
//! physical key, the transactions that a batch becomes, and the decoding of the
//! items that the service returns. The service calls themselves are made by the
//! caller, which hands the results back as plain values.

use vstd::prelude::*;
use vstd::string::{StringExecFns, StringSliceAdditionalSpecFns};

use crate::batch::SimpleUnorderedBatch;
use crate::bytes::{copy_all, copy_range};
use crate::errors::ErrorKind;
use crate::journaling::JournalConsistencyError;
use crate::limits::{
    MAX_KEY_SIZE, MAX_TRANSACT_WRITE_ITEM_SIZE, MAX_TRANSACT_WRITE_ITEM_TOTAL_SIZE,
    RAW_MAX_VALUE_SIZE,
};

verus! {

/// Error when validating a namespace.
#[derive(Debug, Clone, Copy, PartialEq, Eq, Structural)]
pub enum InvalidNamespace {
    /// The namespace should be at least 3 characters.
    TooShort,
    /// The namespace should be at most 255 characters.
    TooLong,
    /// Allowed characters are ASCII letters, digits, periods, hyphens and underscores.
    InvalidCharacter,
}

/// An attribute of a stored item, as the service returns it. Only binary blobs
/// carry their contents: the other shapes only ever signal a malformed item.
#[derive(Debug, Clone, PartialEq, Eq)]
pub enum AttributeValue {
    /// A binary blob.
    B(Vec<u8>),
    /// A boolean.
    Bool,
    /// A list of binary blobs.
    Bs,
    /// A list.
    L,
    /// A map.
    M,
    /// A number.
    N,
    /// A list of numbers.
    Ns,
    /// A null value.
    Null,
    /// A string.
    S,
    /// A list of strings.
    Ss,
    /// A shape that this adapter does not know.
    Unknown,
}

/// Errors that occur when using the DynamoDB adapter.
#[derive(Debug, Clone, PartialEq, Eq)]
pub enum DynamoDbStoreInternalError {
    /// An error occurred while getting the item.
    Get(String),
    /// An error occurred while writing a transaction of items.
    TransactWriteItem(String),
    /// An error occurred while doing a query.
    Query(String),
    /// An error occurred while deleting a table.
    DeleteTable(String),
    /// An error occurred while listing tables.
    ListTables(String),
    /// An error occurred while creating the table.
    CreateTable(String),
    /// An error occurred while building a request.
    Build(String),
    /// A transaction holds more than `MAX_TRANSACT_WRITE_ITEM_SIZE` items.
    TransactUpperLimitSize,
    /// Keys have to be of non-zero length.
    ZeroLengthKey,
    /// The key must have at most 1024 bytes.
    KeyTooLong,
    /// The key prefix must have at most 1024 bytes.
    KeyPrefixTooLong,
    /// Key prefixes have to be of non-zero length.
    ZeroLengthKeyPrefix,
    /// The journal is not coherent.
    JournalConsistencyError(JournalConsistencyError),
    /// The length of the value should be at most 400 KB.
    ValueLengthTooLarge,
    /// The stored key attribute is missing.
    MissingKey,
    /// The key was stored with another shape than a binary blob.
    WrongKeyType(String),
    /// The stored value attribute is missing.
    MissingValue,
    /// The value was stored with another shape than a binary blob.
    WrongValueType(String),
    /// A stored record could not be decoded.
    BcsError(String),
    /// A wrong namespace.
    InvalidNamespace(InvalidNamespace),
}

/// The kind of each error.
pub open spec fn error_kind(e: DynamoDbStoreInternalError) -> ErrorKind {
    match e {
        DynamoDbStoreInternalError::Get(_)
        | DynamoDbStoreInternalError::TransactWriteItem(_)
        | DynamoDbStoreInternalError::Query(_)
        | DynamoDbStoreInternalError::DeleteTable(_)
        | DynamoDbStoreInternalError::ListTables(_)
        | DynamoDbStoreInternalError::CreateTable(_)
        | DynamoDbStoreInternalError::Build(_) => ErrorKind::Backend,
        DynamoDbStoreInternalError::TransactUpperLimitSize
        | DynamoDbStoreInternalError::ZeroLengthKey
        | DynamoDbStoreInternalError::KeyTooLong
        | DynamoDbStoreInternalError::KeyPrefixTooLong
        | DynamoDbStoreInternalError::ZeroLengthKeyPrefix
        | DynamoDbStoreInternalError::ValueLengthTooLarge
        | DynamoDbStoreInternalError::InvalidNamespace(_) => ErrorKind::Validation,
        DynamoDbStoreInternalError::JournalConsistencyError(j) => match j {
            JournalConsistencyError::UnparseableRecord => ErrorKind::DataIntegrity,
            JournalConsistencyError::RecoveryIncomplete => ErrorKind::JournalConsistency,
        },
        DynamoDbStoreInternalError::MissingKey
        | DynamoDbStoreInternalError::WrongKeyType(_)
        | DynamoDbStoreInternalError::MissingValue
        | DynamoDbStoreInternalError::WrongValueType(_)
        | DynamoDbStoreInternalError::BcsError(_) => ErrorKind::DataIntegrity,
    }
}

/// How a non-blob attribute is described in an error message.
pub open spec fn type_description(value: AttributeValue) -> Seq<char> {
    match value {
        AttributeValue::B(_) => Seq::empty(),
        AttributeValue::Bool => "a boolean"@,
        AttributeValue::Bs => "a list of binary blobs"@,
        AttributeValue::L => "a list"@,
        AttributeValue::M => "a map"@,
        AttributeValue::N => "a number"@,
        AttributeValue::Ns => "a list of numbers"@,
        AttributeValue::Null => "a null value"@,
        AttributeValue::S => "a string"@,
        AttributeValue::Ss => "a list of strings"@,
        AttributeValue::Unknown => "an unknown type"@,
    }
}

impl DynamoDbStoreInternalError {
    /// The kind of this error.
    pub fn kind(&self) -> (r: ErrorKind)
        ensures
            r == error_kind(*self),
    {
        match self {
            DynamoDbStoreInternalError::Get(_)
            | DynamoDbStoreInternalError::TransactWriteItem(_)
            | DynamoDbStoreInternalError::Query(_)
            | DynamoDbStoreInternalError::DeleteTable(_)
            | DynamoDbStoreInternalError::ListTables(_)
            | DynamoDbStoreInternalError::CreateTable(_)
            | DynamoDbStoreInternalError::Build(_) => ErrorKind::Backend,
            DynamoDbStoreInternalError::TransactUpperLimitSize
            | DynamoDbStoreInternalError::ZeroLengthKey
            | DynamoDbStoreInternalError::KeyTooLong
            | DynamoDbStoreInternalError::KeyPrefixTooLong
            | DynamoDbStoreInternalError::ZeroLengthKeyPrefix
            | DynamoDbStoreInternalError::ValueLengthTooLarge
            | DynamoDbStoreInternalError::InvalidNamespace(_) => ErrorKind::Validation,
            DynamoDbStoreInternalError::JournalConsistencyError(j) => match j {
                JournalConsistencyError::UnparseableRecord => ErrorKind::DataIntegrity,
                JournalConsistencyError::RecoveryIncomplete => ErrorKind::JournalConsistency,
            },
            DynamoDbStoreInternalError::MissingKey
            | DynamoDbStoreInternalError::WrongKeyType(_)
            | DynamoDbStoreInternalError::MissingValue
            | DynamoDbStoreInternalError::WrongValueType(_)
            | DynamoDbStoreInternalError::BcsError(_) => ErrorKind::DataIntegrity,
        }
    }

    /// Creates a `WrongKeyType` error that describes the shape of `value`, which
    /// must not be a binary blob.
    pub fn wrong_key_type(value: &AttributeValue) -> (r: Self)
        requires
            !(value is B),
        ensures
            r matches DynamoDbStoreInternalError::WrongKeyType(d) && d@ == type_description(*value),
    {
        DynamoDbStoreInternalError::WrongKeyType(Self::type_description_of(value))
    }

    /// Creates a `WrongValueType` error that describes the shape of `value`, which
    /// must not be a binary blob.
    pub fn wrong_value_type(value: &AttributeValue) -> (r: Self)
        requires
            !(value is B),
        ensures
            r matches DynamoDbStoreInternalError::WrongValueType(d) && d@ == type_description(
                *value,
            ),
    {
        DynamoDbStoreInternalError::WrongValueType(Self::type_description_of(value))
    }

    fn type_description_of(value: &AttributeValue) -> (r: String)
        requires
            !(value is B),
        ensures
            r@ == type_description(*value),
    {
        let text = match value {
            AttributeValue::B(_) => "",
            AttributeValue::Bool => "a boolean",
            AttributeValue::Bs => "a list of binary blobs",
            AttributeValue::L => "a list",
            AttributeValue::M => "a map",
            AttributeValue::N => "a number",
            AttributeValue::Ns => "a list of numbers",
            AttributeValue::Null => "a null value",
            AttributeValue::S => "a string",
            AttributeValue::Ss => "a list of strings",
            AttributeValue::Unknown => "an unknown type",
        };
        text.to_owned()
    }
}

/// A key is valid when it is non-empty and at most `MAX_KEY_SIZE` bytes long.
pub open spec fn key_size_error(key: Seq<u8>) -> Option<DynamoDbStoreInternalError> {
    if key.len() == 0 {
        Some(DynamoDbStoreInternalError::ZeroLengthKey)
    } else if key.len() > MAX_KEY_SIZE {
        Some(DynamoDbStoreInternalError::KeyTooLong)
    } else {
        None
    }
}

/// Checks that a key is of the correct size.
pub fn check_key_size(key: &[u8]) -> (r: Result<(), DynamoDbStoreInternalError>)
    ensures
        r is Ok <==> key_size_error(key@) is None,
        r matches Err(e) ==> key_size_error(key@) == Some(e),
{
    if key.len() == 0 {
        return Err(DynamoDbStoreInternalError::ZeroLengthKey);
    }
    if key.len() > MAX_KEY_SIZE {
        return Err(DynamoDbStoreInternalError::KeyTooLong);
    }
    Ok(())
}

/// The bytes allowed in a table name: ASCII letters and digits, `.`, `-` and `_`.
pub open spec fn namespace_byte_allowed(b: u8) -> bool {
    (48 <= b <= 57) || (65 <= b <= 90) || (97 <= b <= 122) || b == 46 || b == 45 || b == 95
}

/// The rule that a namespace breaks, if any. A character outside ASCII is encoded
/// as bytes of 128 and above, which are never allowed.
pub open spec fn namespace_error(bytes: Seq<u8>) -> Option<InvalidNamespace> {
    if bytes.len() < 3 {
        Some(InvalidNamespace::TooShort)
    } else if bytes.len() > 255 {
        Some(InvalidNamespace::TooLong)
    } else if exists|i: int| 0 <= i < bytes.len() && !namespace_byte_allowed(#[trigger] bytes[i]) {
        Some(InvalidNamespace::InvalidCharacter)
    } else {
        None
    }
}

fn namespace_byte_is_allowed(b: u8) -> (r: bool)
    ensures
        r == namespace_byte_allowed(b),
{
    (48 <= b && b <= 57) || (65 <= b && b <= 90) || (97 <= b && b <= 122) || b == 46 || b == 45
        || b == 95
}

/// Checks that a namespace is a valid DynamoDB table name.
pub fn check_namespace(namespace: &str) -> (r: Result<(), InvalidNamespace>)
    ensures
        r is Ok <==> namespace_error(namespace.spec_bytes()) is None,
        r matches Err(e) ==> namespace_error(namespace.spec_bytes()) == Some(e),
{
    let bytes = namespace.as_bytes();
    if bytes.len() < 3 {
        return Err(InvalidNamespace::TooShort);
    }
    if bytes.len() > 255 {
        return Err(InvalidNamespace::TooLong);
    }
    let mut i: usize = 0;
    while i < bytes.len()
        invariant
            i <= bytes@.len(),
            bytes@ == namespace.spec_bytes(),
            3 <= bytes@.len() <= 255,
            forall|j: int| 0 <= j < i ==> namespace_byte_allowed(#[trigger] bytes@[j]),
        decreases bytes@.len() - i,
    {
        if !namespace_byte_is_allowed(bytes[i]) {
            assert(!namespace_byte_allowed(bytes@[i as int]));
            return Err(InvalidNamespace::InvalidCharacter);
        }
        i = i + 1;
    }
    Ok(())
}

/// The first byte of the partition of every root key. DynamoDB cannot enumerate
/// partitions, so the root keys in use are registered in a partition of their own,
/// `[1]`, which no root key's partition can equal.
pub const EMPTY_ROOT_KEY: u8 = 0;

/// The partition where the root keys in use are registered.
pub const PARTITION_KEY_ROOT_KEY: u8 = 1;

/// The partition that holds the keys of `root_key`.
pub open spec fn partition_of(root_key: Seq<u8>) -> Seq<u8> {
    seq![EMPTY_ROOT_KEY] + root_key
}

/// The partition where the root keys are registered.
pub open spec fn registry_partition() -> Seq<u8> {
    seq![PARTITION_KEY_ROOT_KEY]
}

/// The two-part key of a physical record: its partition and its key inside the
/// partition.
#[derive(Debug, Clone, PartialEq, Eq)]
pub struct PhysicalKey {
    pub partition: Vec<u8>,
    pub key: Vec<u8>,
}

impl View for PhysicalKey {
    type V = (Seq<u8>, Seq<u8>);

    open spec fn view(&self) -> (Seq<u8>, Seq<u8>) {
        (self.partition@, self.key@)
    }
}

/// One write of a DynamoDB transaction: a put when `value` holds bytes, else a
/// delete.
#[derive(Debug, Clone, PartialEq, Eq)]
pub struct TransactItem {
    pub partition: Vec<u8>,
    pub key: Vec<u8>,
    pub value: Option<Vec<u8>>,
}

/// What a transaction item writes: its physical key and the new value, or `None`
/// for a deletion.
pub open spec fn item_view(item: TransactItem) -> ((Seq<u8>, Seq<u8>), Option<Seq<u8>>) {
    (
        (item.partition@, item.key@),
        match item.value {
            Some(v) => Some(v@),
            None => None,
        },
    )
}

/// The number of bytes that a transaction item counts for.
pub open spec fn item_size(item: TransactItem) -> nat {
    item.partition@.len() + item.key@.len() + match item.value {
        Some(v) => v@.len(),
        None => 0,
    }
}

/// Returns the partition of `root_key`.
pub fn start_key_of(root_key: &[u8]) -> (r: Vec<u8>)
    ensures
        r@ == partition_of(root_key@),
{
    let mut start_key: Vec<u8> = Vec::new();
    start_key.push(EMPTY_ROOT_KEY);
    let mut i: usize = 0;
    while i < root_key.len()
        invariant
            i <= root_key@.len(),
            start_key@ == seq![EMPTY_ROOT_KEY] + root_key@.subrange(0, i as int),
        decreases root_key@.len() - i,
    {
        start_key.push(root_key[i]);
        i = i + 1;
        assert(root_key@.subrange(0, i as int) == root_key@.subrange(0, i - 1).push(
            root_key@[i - 1],
        ));
    }
    assert(root_key@.subrange(0, root_key@.len() as int) == root_key@);
    start_key
}

/// Builds the key attributes for a table item.
pub fn build_key(start_key: &[u8], key: Vec<u8>) -> (r: PhysicalKey)
    ensures
        r@ == (start_key@, key@),
{
    PhysicalKey { partition: copy_all(start_key), key }
}

/// Builds the attributes for storing a table item.
pub fn build_key_value(start_key: &[u8], key: Vec<u8>, value: Vec<u8>) -> (r: TransactItem)
    ensures
        item_view(r) == ((start_key@, key@), Some(value@)),
{
    TransactItem { partition: copy_all(start_key), key, value: Some(value) }
}

/// The attributes of a stored item that this adapter reads.
#[derive(Debug, Clone, PartialEq, Eq)]
pub struct Item {
    /// The key attribute, if the item has one.
    pub key: Option<AttributeValue>,
    /// The value attribute, if the item has one.
    pub value: Option<AttributeValue>,
}

/// The key that `item` holds after the first `prefix_len` bytes, when it holds a
/// binary key at least that long.
pub open spec fn stored_key(prefix_len: nat, item: Item) -> Option<Seq<u8>> {
    match item.key {
        Some(AttributeValue::B(b)) => if b@.len() >= prefix_len {
            Some(b@.subrange(prefix_len as int, b@.len() as int))
        } else {
            None
        },
        _ => None,
    }
}

/// The error that reading the key of `item` gives: a missing key, or a key that
/// is shorter than the prefix it was found under, is `MissingKey`; a key of
/// another shape is `WrongKeyType` with its description.
pub open spec fn key_error(prefix_len: nat, item: Item, e: DynamoDbStoreInternalError) -> bool {
    match item.key {
        None => e == DynamoDbStoreInternalError::MissingKey,
        Some(AttributeValue::B(_)) => e == DynamoDbStoreInternalError::MissingKey,
        Some(v) => e matches DynamoDbStoreInternalError::WrongKeyType(d) && d@ == type_description(
            v,
        ),
    }
}

/// The value that `item` holds, when it holds a binary value.
pub open spec fn stored_value(item: Item) -> Option<Seq<u8>> {
    match item.value {
        Some(AttributeValue::B(b)) => Some(b@),
        _ => None,
    }
}

/// The error that reading the value of `item` gives.
pub open spec fn value_error(item: Item, e: DynamoDbStoreInternalError) -> bool {
    match item.value {
        None => e == DynamoDbStoreInternalError::MissingValue,
        Some(AttributeValue::B(_)) => false,
        Some(v) => e matches DynamoDbStoreInternalError::WrongValueType(d) && d@
            == type_description(v),
    }
}

/// Extracts the key attribute from an item, without its first `prefix_len` bytes.
pub fn extract_key(prefix_len: usize, attributes: &Item) -> (r: Result<
    Vec<u8>,
    DynamoDbStoreInternalError,
>)
    ensures
        match r {
            Ok(k) => stored_key(prefix_len as nat, *attributes) == Some(k@),
            Err(e) => stored_key(prefix_len as nat, *attributes) is None && key_error(
                prefix_len as nat,
                *attributes,
                e,
            ),
        },
{
    match &attributes.key {
        None => Err(DynamoDbStoreInternalError::MissingKey),
        Some(AttributeValue::B(blob)) => {
            if blob.len() < prefix_len {
                return Err(DynamoDbStoreInternalError::MissingKey);
            }
            Ok(copy_range(blob.as_slice(), prefix_len, blob.len()))
        },
        Some(key) => Err(DynamoDbStoreInternalError::wrong_key_type(key)),
    }
}

/// Extracts the value attribute from an item.
pub fn extract_value(attributes: &Item) -> (r: Result<Vec<u8>, DynamoDbStoreInternalError>)
    ensures
        match r {
            Ok(v) => stored_value(*attributes) == Some(v@),
            Err(e) => stored_value(*attributes) is None && value_error(*attributes, e),
        },
{
    match &attributes.value {
        None => Err(DynamoDbStoreInternalError::MissingValue),
        Some(AttributeValue::B(blob)) => Ok(blob.clone()),
        Some(value) => Err(DynamoDbStoreInternalError::wrong_value_type(value)),
    }
}

/// Extracts the value attribute from an item, taking it out of the item.
pub fn extract_value_owned(attributes: &mut Item) -> (r: Result<
    Vec<u8>,
    DynamoDbStoreInternalError,
>)
    ensures
        final(attributes).key == old(attributes).key,
        final(attributes).value is None,
        match r {
            Ok(v) => stored_value(*old(attributes)) == Some(v@),
            Err(e) => stored_value(*old(attributes)) is None && value_error(*old(attributes), e),
        },
{
    let value = attributes.value.take();
    match value {
        None => Err(DynamoDbStoreInternalError::MissingValue),
        Some(AttributeValue::B(blob)) => Ok(blob),
        Some(value) => Err(DynamoDbStoreInternalError::wrong_value_type(&value)),
    }
}

/// Extracts the key and value attributes from an item.
pub fn extract_key_value(prefix_len: usize, attributes: &Item) -> (r: Result<
    (Vec<u8>, Vec<u8>),
    DynamoDbStoreInternalError,
>)
    ensures
        match r {
            Ok((k, v)) => stored_key(prefix_len as nat, *attributes) == Some(k@) && stored_value(
                *attributes,
            ) == Some(v@),
            Err(e) => (stored_key(prefix_len as nat, *attributes) is None && key_error(
                prefix_len as nat,
                *attributes,
                e,
            )) || (stored_key(prefix_len as nat, *attributes) is Some && stored_value(
                *attributes,
            ) is None && value_error(*attributes, e)),
        },
{
    let key = extract_key(prefix_len, attributes)?;
    let value = extract_value(attributes)?;
    Ok((key, value))
}

/// The total size of a sequence of transaction items.
pub open spec fn total_size(items: Seq<TransactItem>) -> nat
    decreases items.len(),
{
    if items.len() == 0 {
        0
    } else {
        total_size(items.drop_last()) + item_size(items.last())
    }
}

/// The items of a sequence of transactions, in order.
pub open spec fn flat(transactions: Seq<Vec<TransactItem>>) -> Seq<TransactItem> {
    transactions.map_values(|t: Vec<TransactItem>| t@).flatten()
}

/// A transaction that DynamoDB accepts: non-empty, with at most `max_items` items
/// and `max_bytes` bytes.
pub open spec fn transaction_fits(t: Seq<TransactItem>, max_items: nat, max_bytes: nat) -> bool {
    1 <= t.len() <= max_items && total_size(t) <= max_bytes
}

proof fn lemma_flat_push(ts: Seq<Vec<TransactItem>>, t: Vec<TransactItem>)
    ensures
        flat(ts.push(t)) == flat(ts) + t@,
{
    let f = |t: Vec<TransactItem>| t@;
    assert(ts.push(t).map_values(f) =~= ts.map_values(f).push(t@));
    ts.map_values(f).lemma_flatten_push(t@);
}

proof fn lemma_flat_concat(a: Seq<Vec<TransactItem>>, b: Seq<Vec<TransactItem>>)
    ensures
        flat(a + b) == flat(a) + flat(b),
    decreases b.len(),
{
    if b.len() == 0 {
        assert(a + b =~= a);
        assert(flat(b) =~= Seq::<TransactItem>::empty());
        assert(flat(a) + flat(b) =~= flat(a));
    } else {
        let c = b.drop_last();
        lemma_flat_concat(a, c);
        assert(a + b =~= (a + c).push(b.last()));
        assert(b =~= c.push(b.last()));
        lemma_flat_push(a + c, b.last());
        lemma_flat_push(c, b.last());
        assert(flat(a) + flat(c) + b.last()@ =~= flat(a) + (flat(c) + b.last()@));
    }
}

proof fn lemma_items_view_concat(a: Seq<TransactItem>, b: Seq<TransactItem>)
    ensures
        items_view(a + b) == items_view(a) + items_view(b),
{
    assert(items_view(a + b) =~= items_view(a) + items_view(b));
}

proof fn lemma_total_size_push(items: Seq<TransactItem>, item: TransactItem)
    ensures
        total_size(items.push(item)) == total_size(items) + item_size(item),
{
    assert(items.push(item).drop_last() =~= items);
}

fn size_of_item(item: &TransactItem) -> (r: usize)
    requires
        item_size(*item) <= usize::MAX,
    ensures
        r == item_size(*item),
{
    let value_len: usize = match &item.value {
        Some(v) => v.len(),
        None => 0,
    };
    item.partition.len() + item.key.len() + value_len
}

/// Splits a sequence of transaction items into consecutive transactions of at most
/// `max_items` items and `max_bytes` bytes each, filling each one greedily.
pub fn chunk_transactions(items: Vec<TransactItem>, max_items: usize, max_bytes: usize) -> (r: Vec<
    Vec<TransactItem>,
>)
    requires
        max_items >= 1,
        forall|i: int| 0 <= i < items@.len() ==> item_size(#[trigger] items@[i]) <= max_bytes,
    ensures
        flat(r@) == items@,
        forall|i: int|
            0 <= i < r@.len() ==> transaction_fits(
                #[trigger] r@[i]@,
                max_items as nat,
                max_bytes as nat,
            ),
{
    let ghost input = items@;
    let mut transactions: Vec<Vec<TransactItem>> = Vec::new();
    let mut current: Vec<TransactItem> = Vec::new();
    let mut current_bytes: usize = 0;
    for item in it: items.into_iter()
        invariant
            it.seq() == input,
            max_items >= 1,
            forall|i: int| 0 <= i < input.len() ==> item_size(#[trigger] input[i]) <= max_bytes,
            flat(transactions@) + current@ == input.take(it.index() as int),
            forall|i: int|
                0 <= i < transactions@.len() ==> transaction_fits(
                    #[trigger] transactions@[i]@,
                    max_items as nat,
                    max_bytes as nat,
                ),
            current@.len() <= max_items,
            current_bytes == total_size(current@),
            current_bytes <= max_bytes,
    {
        assert(item == input[it.index() as int]);
        let size = size_of_item(&item);
        if current.len() == max_items || current_bytes > max_bytes - size {
            proof {
                lemma_flat_push(transactions@, current);
                if current@.len() == 0 {
                    assert(total_size(current@) == 0);
                }
            }
            transactions.push(current);
            current = Vec::new();
            current_bytes = 0;
        }
        proof {
            lemma_total_size_push(current@, item);
            assert(input.take(it.index() + 1) =~= input.take(it.index() as int).push(item));
        }
        current.push(item);
        current_bytes = current_bytes + size;
    }
    proof {
        assert(input.take(input.len() as int) =~= input);
    }
    if current.len() > 0 {
        proof {
            lemma_flat_push(transactions@, current);
        }
        transactions.push(current);
    } else {
        assert(current@ =~= Seq::<TransactItem>::empty());
        assert(flat(transactions@) + current@ =~= flat(transactions@));
    }
    transactions
}

/// What a transaction item writes, for each item of a sequence.
pub open spec fn items_view(items: Seq<TransactItem>) -> Seq<((Seq<u8>, Seq<u8>), Option<Seq<u8>>)> {
    items.map_values(|it: TransactItem| item_view(it))
}

/// The error that writing `value` under `key` gives, if any.
pub open spec fn put_error(key: Seq<u8>, value: Seq<u8>) -> Option<DynamoDbStoreInternalError> {
    match key_size_error(key) {
        Some(e) => Some(e),
        None => if value.len() > RAW_MAX_VALUE_SIZE {
            Some(DynamoDbStoreInternalError::ValueLengthTooLarge)
        } else {
            None
        },
    }
}

/// The deletions of a batch, as writes to the partition `start_key`.
pub open spec fn deletion_items(start_key: Seq<u8>, deletions: Seq<Vec<u8>>) -> Seq<
    ((Seq<u8>, Seq<u8>), Option<Seq<u8>>),
> {
    Seq::new(deletions.len(), |i: int| ((start_key, deletions[i]@), None))
}

/// The insertions of a batch, as writes to the partition `start_key`.
pub open spec fn insertion_items(start_key: Seq<u8>, insertions: Seq<(Vec<u8>, Vec<u8>)>) -> Seq<
    ((Seq<u8>, Seq<u8>), Option<Seq<u8>>),
> {
    Seq::new(insertions.len(), |i: int| ((start_key, insertions[i].0@), Some(insertions[i].1@)))
}

/// Every key and value of the batch is within the backend's limits.
pub open spec fn batch_valid(batch: SimpleUnorderedBatch) -> bool {
    &&& forall|i: int|
        0 <= i < batch.deletions@.len() ==> key_size_error(#[trigger] batch.deletions@[i]@) is None
    &&& forall|i: int|
        0 <= i < batch.insertions@.len() ==> put_error(
            (#[trigger] batch.insertions@[i]).0@,
            batch.insertions@[i].1@,
        ) is None
}

/// The error is the one of the first invalid write of the batch, deletions first.
pub open spec fn batch_error(batch: SimpleUnorderedBatch, e: DynamoDbStoreInternalError) -> bool {
    ||| exists|i: int|
        0 <= i < batch.deletions@.len() && (forall|j: int|
            0 <= j < i ==> key_size_error(#[trigger] batch.deletions@[j]@) is None) && key_size_error(
            #[trigger] batch.deletions@[i]@,
        ) == Some(e)
    ||| (forall|j: int|
        0 <= j < batch.deletions@.len() ==> key_size_error(#[trigger] batch.deletions@[j]@) is None)
        && exists|i: int|
        0 <= i < batch.insertions@.len() && (forall|j: int|
            0 <= j < i ==> put_error(
                (#[trigger] batch.insertions@[j]).0@,
                batch.insertions@[j].1@,
            ) is None) && put_error(
            (#[trigger] batch.insertions@[i]).0@,
            batch.insertions@[i].1@,
        ) == Some(e)
}

/// The entry that registers the partition `start_key` as in use.
pub open spec fn registration_item(start_key: Seq<u8>) -> ((Seq<u8>, Seq<u8>), Option<Seq<u8>>) {
    ((registry_partition(), start_key), Some(Seq::empty()))
}

/// The state of a store opened on one root key of a namespace. The service calls
/// are made by the caller with the requests that its methods return.
#[derive(Debug, Clone, PartialEq, Eq)]
pub struct DynamoDbStoreInternal {
    /// The table.
    pub namespace: String,
    /// The preferred buffer size for streams of queries.
    pub max_stream_queries: usize,
    /// The partition of this store's root key.
    pub start_key: Vec<u8>,
    /// Whether the root key was already registered by this store.
    pub root_key_written: bool,
}

impl DynamoDbStoreInternal {
    /// The preferred buffer size for streams of queries.
    pub fn max_stream_queries(&self) -> (r: usize)
        ensures
            r == self.max_stream_queries,
    {
        self.max_stream_queries
    }

    /// Builds the deletion of `key` in the partition `start_key`.
    pub fn build_delete_transaction(&self, start_key: &[u8], key: Vec<u8>) -> (r: Result<
        TransactItem,
        DynamoDbStoreInternalError,
    >)
        ensures
            r is Ok <==> key_size_error(key@) is None,
            r matches Err(e) ==> key_size_error(key@) == Some(e),
            r matches Ok(it) ==> item_view(it) == ((start_key@, key@), None::<Seq<u8>>),
    {
        check_key_size(key.as_slice())?;
        Ok(TransactItem { partition: copy_all(start_key), key, value: None })
    }

    /// Builds the insertion of `value` under `key` in the partition `start_key`.
    pub fn build_put_transaction(&self, start_key: &[u8], key: Vec<u8>, value: Vec<u8>) -> (r:
        Result<TransactItem, DynamoDbStoreInternalError>)
        ensures
            r is Ok <==> put_error(key@, value@) is None,
            r matches Err(e) ==> put_error(key@, value@) == Some(e),
            r matches Ok(it) ==> item_view(it) == ((start_key@, key@), Some(value@)),
    {
        check_key_size(key.as_slice())?;
        if value.len() > RAW_MAX_VALUE_SIZE {
            return Err(DynamoDbStoreInternalError::ValueLengthTooLarge);
        }
        Ok(build_key_value(start_key, key, value))
    }

    /// Returns the physical key under which `key` is read.
    pub fn read_key(&self, key: &[u8]) -> (r: Result<PhysicalKey, DynamoDbStoreInternalError>)
        ensures
            r is Ok <==> key_size_error(key@) is None,
            r matches Err(e) ==> key_size_error(key@) == Some(e),
            r matches Ok(k) ==> k@ == (self.start_key@, key@),
    {
        check_key_size(key)?;
        Ok(build_key(self.start_key.as_slice(), copy_all(key)))
    }

    /// Returns the physical keys under which `keys` are read; any invalid key fails
    /// the whole request before anything is read.
    pub fn read_keys(&self, keys: Vec<Vec<u8>>) -> (r: Result<
        Vec<PhysicalKey>,
        DynamoDbStoreInternalError,
    >)
        ensures
            r is Ok <==> forall|i: int|
                0 <= i < keys@.len() ==> key_size_error(#[trigger] keys@[i]@) is None,
            r matches Err(e) ==> exists|i: int|
                0 <= i < keys@.len() && (forall|j: int|
                    0 <= j < i ==> key_size_error(#[trigger] keys@[j]@) is None) && key_size_error(
                    #[trigger] keys@[i]@,
                ) == Some(e),
            r matches Ok(ks) ==> ks@.len() == keys@.len() && forall|i: int|
                0 <= i < keys@.len() ==> (#[trigger] ks@[i])@ == (self.start_key@, keys@[i]@),
    {
        let ghost input = keys@;
        let mut out: Vec<PhysicalKey> = Vec::new();
        for key in it: keys.into_iter()
            invariant
                it.seq() == input,
                out@.len() == it.index(),
                forall|i: int| 0 <= i < it.index() ==> key_size_error(#[trigger] input[i]@) is None,
                forall|i: int|
                    0 <= i < it.index() ==> (#[trigger] out@[i])@ == (self.start_key@, input[i]@),
        {
            assert(key == input[it.index() as int]);
            if let Err(e) = check_key_size(key.as_slice()) {
                assert(key_size_error(input[it.index() as int]@) == Some(e));
                return Err(e);
            }
            out.push(build_key(self.start_key.as_slice(), key));
        }
        Ok(out)
    }

    /// Returns the partition and the prefix of a scan of the keys that start with
    /// `key_prefix`.
    pub fn prefix_query(&self, key_prefix: &[u8]) -> (r: Result<
        PhysicalKey,
        DynamoDbStoreInternalError,
    >)
        ensures
            r is Ok <==> key_size_error(key_prefix@) is None,
            r matches Err(e) ==> key_size_error(key_prefix@) == Some(e),
            r matches Ok(k) ==> k@ == (self.start_key@, key_prefix@),
    {
        self.read_key(key_prefix)
    }

    /// Records that the registration of the root key was committed: later
    /// batches no longer carry it.
    pub fn registration_committed(&mut self)
        ensures
            final(self).root_key_written,
            final(self).namespace == old(self).namespace,
            final(self).max_stream_queries == old(self).max_stream_queries,
            final(self).start_key == old(self).start_key,
    {
        self.root_key_written = true;
    }

    /// Returns the transactions that write `batch`, to be sent in order, each
    /// durable before the next. Until the registration of the root key is
    /// committed, a transaction of its own that registers it comes first.
    pub fn write_batch(&self, batch: SimpleUnorderedBatch) -> (r: Result<
        Vec<Vec<TransactItem>>,
        DynamoDbStoreInternalError,
    >)
        ensures
            r is Ok <==> key_size_error(self.start_key@) is None && batch_valid(batch),
            r matches Err(e) ==> key_size_error(self.start_key@) == Some(e) || batch_error(
                batch,
                e,
            ),
            r matches Ok(ts) ==> {
                &&& items_view(flat(ts@)) == (if self.root_key_written {
                    Seq::empty()
                } else {
                    seq![registration_item(self.start_key@)]
                }) + deletion_items(self.start_key@, batch.deletions@) + insertion_items(
                    self.start_key@,
                    batch.insertions@,
                )
                &&& !self.root_key_written ==> items_view(ts@[0]@) == seq![
                    registration_item(self.start_key@),
                ]
                &&& forall|i: int|
                    0 <= i < ts@.len() ==> transaction_fits(
                        #[trigger] ts@[i]@,
                        MAX_TRANSACT_WRITE_ITEM_SIZE as nat,
                        MAX_TRANSACT_WRITE_ITEM_TOTAL_SIZE as nat,
                    )
            },
    {
        check_key_size(self.start_key.as_slice())?;
        let ghost sk = self.start_key@;
        let ghost dels = batch.deletions@;
        let ghost ins = batch.insertions@;
        let mut items: Vec<TransactItem> = Vec::new();
        for key in it: batch.deletions.into_iter()
            invariant
                it.seq() == dels,
                sk == self.start_key@,
                sk.len() <= MAX_KEY_SIZE,
                items_view(items@) == deletion_items(sk, dels.take(it.index() as int)),
                forall|i: int| 0 <= i < it.index() ==> key_size_error(#[trigger] dels[i]@) is None,
                forall|i: int|
                    0 <= i < items@.len() ==> item_size(#[trigger] items@[i])
                        <= MAX_TRANSACT_WRITE_ITEM_TOTAL_SIZE,
        {
            assert(key == dels[it.index() as int]);
            let built = self.build_delete_transaction(self.start_key.as_slice(), key);
            let item = match built {
                Ok(item) => item,
                Err(e) => {
                    assert(key_size_error(dels[it.index() as int]@) == Some(e));
                    return Err(e);
                },
            };
            proof {
                assert(items_view(items@.push(item)) =~= items_view(items@).push(item_view(item)));
                assert(deletion_items(sk, dels.take(it.index() + 1)) =~= deletion_items(
                    sk,
                    dels.take(it.index() as int),
                ).push(item_view(item)));
            }
            items.push(item);
        }
        proof {
            assert(dels.take(dels.len() as int) =~= dels);
        }
        let ghost deleted = items_view(items@);
        for entry in it: batch.insertions.into_iter()
            invariant
                it.seq() == ins,
                dels == batch.deletions@,
                ins == batch.insertions@,
                sk == self.start_key@,
                sk.len() <= MAX_KEY_SIZE,
                deleted == deletion_items(sk, dels),
                forall|i: int| 0 <= i < dels.len() ==> key_size_error(#[trigger] dels[i]@) is None,
                items_view(items@) == deleted + insertion_items(sk, ins.take(it.index() as int)),
                forall|i: int|
                    0 <= i < it.index() ==> put_error(
                        (#[trigger] ins[i]).0@,
                        ins[i].1@,
                    ) is None,
                forall|i: int|
                    0 <= i < items@.len() ==> item_size(#[trigger] items@[i])
                        <= MAX_TRANSACT_WRITE_ITEM_TOTAL_SIZE,
        {
            assert(entry == ins[it.index() as int]);
            let (key, value) = entry;
            let built = self.build_put_transaction(self.start_key.as_slice(), key, value);
            let item = match built {
                Ok(item) => item,
                Err(e) => {
                    let ghost i = it.index() as int;
                    assert(put_error(ins[i].0@, ins[i].1@) == Some(e));
                    assert(batch_error(batch, e)) by {
                        assert(dels == batch.deletions@);
                        assert(ins == batch.insertions@);
                        assert(forall|j: int|
                            0 <= j < dels.len() ==> key_size_error(#[trigger] dels[j]@) is None);
                        assert(0 <= i < ins.len() && (forall|j: int|
                            0 <= j < i ==> put_error((#[trigger] ins[j]).0@, ins[j].1@) is None)
                            && put_error(ins[i].0@, ins[i].1@) == Some(e));
                    }
                    return Err(e);
                },
            };
            proof {
                assert(items_view(items@.push(item)) =~= items_view(items@).push(item_view(item)));
                assert(insertion_items(sk, ins.take(it.index() + 1)) =~= insertion_items(
                    sk,
                    ins.take(it.index() as int),
                ).push(item_view(item)));
            }
            items.push(item);
        }
        proof {
            assert(ins.take(ins.len() as int) =~= ins);
        }
        let mut transactions: Vec<Vec<TransactItem>> = Vec::new();
        if !self.root_key_written {
            let mut registration: Vec<TransactItem> = Vec::new();
            registration.push(
                build_key_value(&[PARTITION_KEY_ROOT_KEY], copy_all(self.start_key.as_slice()), Vec::new()),
            );
            assert(registration@[0].partition@ == registry_partition());
            assert(items_view(registration@) =~= seq![registration_item(sk)]);
            assert(total_size(registration@) == total_size(registration@.drop_last()) + item_size(
                registration@[0],
            ));
            assert(registration@.drop_last() =~= Seq::<TransactItem>::empty());
            transactions.push(registration);
        }
        let ghost registered = flat(transactions@);
        proof {
            lemma_items_view_concat(registered, items@);
            if transactions@.len() == 1 {
                lemma_flat_push(Seq::empty(), transactions@[0]);
                assert(transactions@ =~= Seq::<Vec<TransactItem>>::empty().push(transactions@[0]));
                assert(flat(Seq::<Vec<TransactItem>>::empty()) =~= Seq::<TransactItem>::empty());
            } else {
                assert(flat(transactions@) =~= Seq::<TransactItem>::empty());
            }
        }
        let mut chunks = chunk_transactions(
            items,
            MAX_TRANSACT_WRITE_ITEM_SIZE,
            MAX_TRANSACT_WRITE_ITEM_TOTAL_SIZE,
        );
        proof {
            lemma_flat_concat(transactions@, chunks@);
        }
        transactions.append(&mut chunks);
        Ok(transactions)
    }
}

/// The items that one scan of a partition returned, page after page, with the
/// length of the prefix that the scan was made with.
pub struct QueryResponses {
    /// The length of the scanned prefix, cut off each returned key.
    pub prefix_len: usize,
    /// The items of each page.
    pub responses: Vec<Vec<Item>>,
}

/// The items of all pages, in order.
pub open spec fn all_items(responses: Seq<Vec<Item>>) -> Seq<Item> {
    responses.map_values(|page: Vec<Item>| page@).flatten()
}

impl QueryResponses {
    /// The items of all pages, in order.
    fn items(&self) -> (r: Vec<&Item>)
        ensures
            r@.len() == all_items(self.responses@).len(),
            forall|i: int| 0 <= i < r@.len() ==> *r@[i] == all_items(self.responses@)[i],
    {
        let mut out: Vec<&Item> = Vec::new();
        let mut p: usize = 0;
        while p < self.responses.len()
            invariant
                p <= self.responses@.len(),
                out@.len() == all_items(self.responses@.take(p as int)).len(),
                forall|i: int|
                    0 <= i < out@.len() ==> *out@[i] == all_items(self.responses@.take(p as int))[i],
            decreases self.responses@.len() - p,
        {
            let page = &self.responses[p];
            let ghost before = out@;
            let mut j: usize = 0;
            while j < page.len()
                invariant
                    j <= page@.len(),
                    out@.len() == before.len() + j,
                    forall|i: int| 0 <= i < before.len() ==> out@[i] == before[i],
                    forall|i: int| 0 <= i < j ==> *out@[before.len() + i] == page@[i],
                decreases page@.len() - j,
            {
                out.push(&page[j]);
                j = j + 1;
            }
            proof {
                let f = |page: Vec<Item>| page@;
                let t = self.responses@.take(p as int);
                assert(self.responses@.take(p + 1) =~= t.push(*page));
                assert(t.push(*page).map_values(f) =~= t.map_values(f).push(page@));
                t.map_values(f).lemma_flatten_push(page@);
                assert(all_items(self.responses@.take(p + 1)) == all_items(t) + page@);
                assert forall|i: int| 0 <= i < out@.len() implies *out@[i] == all_items(
                    self.responses@.take(p + 1),
                )[i] by {
                    if i >= before.len() {
                        assert(*out@[before.len() + (i - before.len())] == page@[i - before.len()]);
                    } else {
                        assert(out@[i] == before[i]);
                        assert(*before[i] == all_items(t)[i]);
                    }
                }
            }
            p = p + 1;
        }
        assert(self.responses@.take(self.responses@.len() as int) =~= self.responses@);
        out
    }

    /// The keys of the returned items, without the scanned prefix; the first
    /// malformed item fails the whole scan.
    pub fn keys(&self) -> (r: Result<Vec<Vec<u8>>, DynamoDbStoreInternalError>)
        ensures
            r is Ok <==> forall|i: int|
                0 <= i < all_items(self.responses@).len() ==> stored_key(
                    self.prefix_len as nat,
                    #[trigger] all_items(self.responses@)[i],
                ) is Some,
            r matches Ok(ks) ==> ks@.len() == all_items(self.responses@).len() && forall|i: int|
                0 <= i < ks@.len() ==> stored_key(
                    self.prefix_len as nat,
                    all_items(self.responses@)[i],
                ) == Some((#[trigger] ks@[i])@),
            r matches Err(e) ==> exists|i: int|
                0 <= i < all_items(self.responses@).len() && key_error(
                    self.prefix_len as nat,
                    #[trigger] all_items(self.responses@)[i],
                    e,
                ),
    {
        let items = self.items();
        let ghost all = all_items(self.responses@);
        let mut keys: Vec<Vec<u8>> = Vec::new();
        let mut i: usize = 0;
        while i < items.len()
            invariant
                i <= items@.len(),
                all == all_items(self.responses@),
                items@.len() == all.len(),
                forall|j: int| 0 <= j < items@.len() ==> *items@[j] == all[j],
                keys@.len() == i,
                forall|j: int|
                    0 <= j < i ==> stored_key(self.prefix_len as nat, all[j]) == Some(
                        (#[trigger] keys@[j])@,
                    ),
            decreases items@.len() - i,
        {
            match extract_key(self.prefix_len, items[i]) {
                Ok(k) => keys.push(k),
                Err(e) => {
                    assert(key_error(self.prefix_len as nat, all[i as int], e));
                    return Err(e);
                },
            }
            i = i + 1;
        }
        assert forall|j: int| 0 <= j < all.len() implies stored_key(
            self.prefix_len as nat,
            #[trigger] all[j],
        ) is Some by {
            assert(stored_key(self.prefix_len as nat, all[j]) == Some(keys@[j]@));
        }
        Ok(keys)
    }

    /// The keys, without the scanned prefix, and the values of the returned items;
    /// the first malformed item fails the whole scan.
    pub fn key_values(&self) -> (r: Result<Vec<(Vec<u8>, Vec<u8>)>, DynamoDbStoreInternalError>)
        ensures
            r is Ok <==> forall|i: int|
                0 <= i < all_items(self.responses@).len() ==> stored_key(
                    self.prefix_len as nat,
                    #[trigger] all_items(self.responses@)[i],
                ) is Some && stored_value(all_items(self.responses@)[i]) is Some,
            r matches Ok(kvs) ==> kvs@.len() == all_items(self.responses@).len() && forall|i: int|
                0 <= i < kvs@.len() ==> stored_key(
                    self.prefix_len as nat,
                    all_items(self.responses@)[i],
                ) == Some((#[trigger] kvs@[i]).0@) && stored_value(all_items(self.responses@)[i])
                    == Some(kvs@[i].1@),
            r matches Err(e) ==> exists|i: int|
                0 <= i < all_items(self.responses@).len() && (key_error(
                    self.prefix_len as nat,
                    #[trigger] all_items(self.responses@)[i],
                    e,
                ) || value_error(all_items(self.responses@)[i], e)),
    {
        let items = self.items();
        let ghost all = all_items(self.responses@);
        let mut out: Vec<(Vec<u8>, Vec<u8>)> = Vec::new();
        let mut i: usize = 0;
        while i < items.len()
            invariant
                i <= items@.len(),
                all == all_items(self.responses@),
                items@.len() == all.len(),
                forall|j: int| 0 <= j < items@.len() ==> *items@[j] == all[j],
                out@.len() == i,
                forall|j: int|
                    0 <= j < i ==> stored_key(self.prefix_len as nat, all[j]) == Some(
                        (#[trigger] out@[j]).0@,
                    ) && stored_value(all[j]) == Some(out@[j].1@),
            decreases items@.len() - i,
        {
            match extract_key_value(self.prefix_len, items[i]) {
                Ok(kv) => out.push(kv),
                Err(e) => {
                    assert(key_error(self.prefix_len as nat, all[i as int], e) || value_error(
                        all[i as int],
                        e,
                    ));
                    return Err(e);
                },
            }
            i = i + 1;
        }
        assert forall|j: int| 0 <= j < all.len() implies stored_key(
            self.prefix_len as nat,
            #[trigger] all[j],
        ) is Some && stored_value(all[j]) is Some by {
            assert(stored_key(self.prefix_len as nat, all[j]) == Some(out@[j].0@));
        }
        Ok(out)
    }
}

/// The initial configuration of the system.
#[derive(Debug, Clone, PartialEq, Eq)]
pub struct DynamoDbStoreInternalConfig {
    /// Whether to use DynamoDB local or not.
    pub use_dynamodb_local: bool,
    /// Maximum number of concurrent database queries allowed for this client.
    pub max_concurrent_queries: Option<usize>,
    /// Preferred buffer size for async streams.
    pub max_stream_queries: usize,
}

/// The number of concurrent queries allowed in tests.
pub const TEST_DYNAMO_DB_MAX_CONCURRENT_QUERIES: usize = 10;

/// The number of entries in a stream of queries in tests.
pub const TEST_DYNAMO_DB_MAX_STREAM_QUERIES: usize = 10;

impl DynamoDbStoreInternalConfig {
    /// The configuration used by tests: DynamoDB local, with bounded concurrency.
    pub fn new_test_config() -> (r: Self)
        ensures
            r.use_dynamodb_local,
            r.max_concurrent_queries == Some(TEST_DYNAMO_DB_MAX_CONCURRENT_QUERIES),
            r.max_stream_queries == TEST_DYNAMO_DB_MAX_STREAM_QUERIES,
    {
        DynamoDbStoreInternalConfig {
            use_dynamodb_local: true,
            max_concurrent_queries: Some(TEST_DYNAMO_DB_MAX_CONCURRENT_QUERIES),
            max_stream_queries: TEST_DYNAMO_DB_MAX_STREAM_QUERIES,
        }
    }
}

/// A connection to one namespace, that is one table, before a root key is chosen.
#[derive(Debug, Clone, PartialEq, Eq)]
pub struct DynamoDbDatabaseInternal {
    /// The table.
    pub namespace: String,
    /// The preferred buffer size for streams of queries.
    pub max_stream_queries: usize,
}

impl DynamoDbDatabaseInternal {
    /// The name of this backend.
    pub fn get_name() -> (r: String)
        ensures
            r@ == "dynamodb internal"@,
    {
        "dynamodb internal".to_owned()
    }

    /// Checks that a namespace is a valid DynamoDB table name.
    pub fn check_namespace(namespace: &str) -> (r: Result<(), InvalidNamespace>)
        ensures
            r is Ok <==> namespace_error(namespace.spec_bytes()) is None,
            r matches Err(e) ==> namespace_error(namespace.spec_bytes()) == Some(e),
    {
        check_namespace(namespace)
    }

    /// Connects to `namespace`, which must be a valid table name.
    pub fn connect(config: &DynamoDbStoreInternalConfig, namespace: &str) -> (r: Result<
        Self,
        DynamoDbStoreInternalError,
    >)
        ensures
            r is Ok <==> namespace_error(namespace.spec_bytes()) is None,
            r matches Err(e) ==> e == DynamoDbStoreInternalError::InvalidNamespace(
                namespace_error(namespace.spec_bytes()).unwrap(),
            ),
            r matches Ok(db) ==> db.namespace@ == namespace@ && db.max_stream_queries
                == config.max_stream_queries,
    {
        match check_namespace(namespace) {
            Err(e) => Err(DynamoDbStoreInternalError::InvalidNamespace(e)),
            Ok(()) => Ok(
                DynamoDbDatabaseInternal {
                    namespace: namespace.to_owned(),
                    max_stream_queries: config.max_stream_queries,
                },
            ),
        }
    }

    fn open_internal(&self, start_key: Vec<u8>) -> (r: DynamoDbStoreInternal)
        ensures
            r.namespace == self.namespace,
            r.max_stream_queries == self.max_stream_queries,
            r.start_key@ == start_key@,
            !r.root_key_written,
    {
        DynamoDbStoreInternal {
            namespace: self.namespace.clone(),
            max_stream_queries: self.max_stream_queries,
            start_key,
            root_key_written: false,
        }
    }

    /// Opens the store of `root_key`, whose keys live in a partition of their own.
    pub fn open_shared(&self, root_key: &[u8]) -> (r: Result<
        DynamoDbStoreInternal,
        DynamoDbStoreInternalError,
    >)
        ensures
            r matches Ok(store) && store.namespace == self.namespace && store.max_stream_queries
                == self.max_stream_queries && store.start_key@ == partition_of(root_key@)
                && !store.root_key_written,
    {
        Ok(self.open_internal(start_key_of(root_key)))
    }

    /// Opens the store of `root_key` for exclusive use; DynamoDB makes no difference.
    pub fn open_exclusive(&self, root_key: &[u8]) -> (r: Result<
        DynamoDbStoreInternal,
        DynamoDbStoreInternalError,
    >)
        ensures
            r matches Ok(store) && store.namespace == self.namespace && store.max_stream_queries
                == self.max_stream_queries && store.start_key@ == partition_of(root_key@)
                && !store.root_key_written,
    {
        self.open_shared(root_key)
    }

    /// The store whose keys are the registered partitions; scanning it for the
    /// prefix `[0]` lists the root keys in use.
    pub fn root_key_registry(&self) -> (r: DynamoDbStoreInternal)
        ensures
            r.namespace == self.namespace,
            r.start_key@ == registry_partition(),
    {
        let mut start_key: Vec<u8> = Vec::new();
        start_key.push(PARTITION_KEY_ROOT_KEY);
        self.open_internal(start_key)
    }
}

/// A DynamoDB table: the value under each (partition, key) pair.
pub type Table = Map<(Seq<u8>, Seq<u8>), Seq<u8>>;

/// Applies one transaction item to a table.
pub open spec fn apply_item(m: Table, item: ((Seq<u8>, Seq<u8>), Option<Seq<u8>>)) -> Table {
    match item.1 {
        Some(v) => m.insert(item.0, v),
        None => m.remove(item.0),
    }
}

/// Applies transaction items to a table, in order.
pub open spec fn apply_items(m: Table, items: Seq<((Seq<u8>, Seq<u8>), Option<Seq<u8>>)>) -> Table
    decreases items.len(),
{
    if items.len() == 0 {
        m
    } else {
        apply_items(apply_item(m, items[0]), items.drop_first())
    }
}

/// Writes made for root key `a`, its data and its registration, are never seen
/// when reading under another root key `b` of the same namespace.
pub proof fn lemma_root_key_isolation(
    m: Table,
    items: Seq<((Seq<u8>, Seq<u8>), Option<Seq<u8>>)>,
    a: Seq<u8>,
    b: Seq<u8>,
    key: Seq<u8>,
)
    requires
        a != b,
        forall|i: int|
            0 <= i < items.len() ==> (#[trigger] items[i]).0.0 == partition_of(a) || items[i].0.0
                == registry_partition(),
    ensures
        apply_items(m, items).contains_key((partition_of(b), key)) == m.contains_key(
            (partition_of(b), key),
        ),
        apply_items(m, items)[(partition_of(b), key)] == m[(partition_of(b), key)],
    decreases items.len(),
{
    if items.len() > 0 {
        let pb = partition_of(b);
        assert(items[0].0.0 != pb) by {
            if items[0].0.0 == partition_of(a) {
                if partition_of(a) == pb {
                    assert(a =~= partition_of(a).drop_first());
                    assert(b =~= pb.drop_first());
                }
            } else {
                assert(registry_partition()[0] != pb[0]);
            }
        }
        let rest = items.drop_first();
        assert forall|i: int| 0 <= i < rest.len() implies (#[trigger] rest[i]).0.0 == partition_of(a)
            || rest[i].0.0 == registry_partition() by {
            assert(rest[i] == items[i + 1]);
        }
        lemma_root_key_isolation(apply_item(m, items[0]), rest, a, b, key);
    }
}

/// The message with which DynamoDB reports that a table does not exist.
pub open spec fn missing_table_message() -> Seq<char> {
    "Cannot do operations on a non-existent table"@
}

/// What reading the probe item of a table gave.
#[derive(Debug, Clone, PartialEq, Eq)]
pub enum TableProbe {
    /// The read succeeded, whether or not the item exists.
    Answered,
    /// The service reported a missing resource, with its message and the error it
    /// converts to.
    ResourceNotFound { message: Option<String>, error: DynamoDbStoreInternalError },
    /// Any other failure.
    Failed(DynamoDbStoreInternalError),
}

/// Returns the key of the item that is read to test whether a table exists.
pub fn probe_key() -> (r: PhysicalKey)
    ensures
        r@ == (seq![EMPTY_ROOT_KEY], seq![EMPTY_ROOT_KEY]),
{
    let mut partition: Vec<u8> = Vec::new();
    partition.push(EMPTY_ROOT_KEY);
    let mut key: Vec<u8> = Vec::new();
    key.push(EMPTY_ROOT_KEY);
    PhysicalKey { partition, key }
}

/// Decides from the read of the probe item whether the table exists: it does when
/// the read was answered, and does not when the service reports the missing
/// table; any other failure is returned.
pub fn table_exists(probe: TableProbe) -> (r: Result<bool, DynamoDbStoreInternalError>)
    ensures
        match probe {
            TableProbe::Answered => r == Ok::<bool, DynamoDbStoreInternalError>(true),
            TableProbe::ResourceNotFound { message, error } => if message matches Some(m) && m@
                == missing_table_message() {
                r == Ok::<bool, DynamoDbStoreInternalError>(false)
            } else {
                r == Err::<bool, DynamoDbStoreInternalError>(error)
            },
            TableProbe::Failed(e) => r == Err::<bool, DynamoDbStoreInternalError>(e),
        },
{
    match probe {
        TableProbe::Answered => Ok(true),
        TableProbe::ResourceNotFound { message, error } => {
            let expected = String::from_str("Cannot do operations on a non-existent table");
            match message {
                Some(m) => {
                    if m == expected {
                        Ok(false)
                    } else {
                        Err(error)
                    }
                },
                None => Err(error),
            }
        },
        TableProbe::Failed(e) => Err(e),
    }
}

/// Two tables agree on a physical key.
pub open spec fn same_entry(a: Table, b: Table, k: (Seq<u8>, Seq<u8>)) -> bool {
    &&& a.contains_key(k) == b.contains_key(k)
    &&& a.contains_key(k) ==> a[k] == b[k]
}

proof fn lemma_apply_items_concat(
    m: Table,
    a: Seq<((Seq<u8>, Seq<u8>), Option<Seq<u8>>)>,
    b: Seq<((Seq<u8>, Seq<u8>), Option<Seq<u8>>)>,
)
    ensures
        apply_items(m, a + b) == apply_items(apply_items(m, a), b),
    decreases a.len(),
{
    if a.len() == 0 {
        assert(a + b =~= b);
    } else {
        assert((a + b).drop_first() =~= a.drop_first() + b);
        assert((a + b)[0] == a[0]);
        lemma_apply_items_concat(apply_item(m, a[0]), a.drop_first(), b);
    }
}

proof fn lemma_apply_items_untouched(
    m: Table,
    items: Seq<((Seq<u8>, Seq<u8>), Option<Seq<u8>>)>,
    k: (Seq<u8>, Seq<u8>),
)
    requires
        forall|i: int| 0 <= i < items.len() ==> (#[trigger] items[i]).0 != k,
    ensures
        same_entry(apply_items(m, items), m, k),
    decreases items.len(),
{
    if items.len() > 0 {
        let rest = items.drop_first();
        assert(items[0].0 != k);
        assert forall|i: int| 0 <= i < rest.len() implies (#[trigger] rest[i]).0 != k by {
            assert(rest[i] == items[i + 1]);
        }
        lemma_apply_items_untouched(apply_item(m, items[0]), rest, k);
    }
}

/// Round trip at the adapter: after the transactions that `write_batch` returned
/// for a batch were applied, the physical key that `read_key` gives for the key
/// of an insertion, with no later insertion of that key in the batch, holds the
/// inserted bytes verbatim.
pub proof fn lemma_write_then_read(
    m: Table,
    store: DynamoDbStoreInternal,
    batch: SimpleUnorderedBatch,
    i: int,
)
    requires
        0 <= i < batch.insertions@.len(),
        forall|j: int|
            i < j < batch.insertions@.len() ==> (#[trigger] batch.insertions@[j]).0@
                != batch.insertions@[i].0@,
    ensures
        ({
            let written = apply_items(
                m,
                (if store.root_key_written {
                    Seq::empty()
                } else {
                    seq![registration_item(store.start_key@)]
                }) + deletion_items(store.start_key@, batch.deletions@) + insertion_items(
                    store.start_key@,
                    batch.insertions@,
                ),
            );
            let k = (store.start_key@, batch.insertions@[i].0@);
            written.contains_key(k) && written[k] == batch.insertions@[i].1@
        }),
{
    let sk = store.start_key@;
    let reg: Seq<((Seq<u8>, Seq<u8>), Option<Seq<u8>>)> = if store.root_key_written {
        Seq::empty()
    } else {
        seq![registration_item(sk)]
    };
    let ins = insertion_items(sk, batch.insertions@);
    let front = reg + deletion_items(sk, batch.deletions@) + ins.take(i);
    let item = ins[i];
    let back = ins.skip(i + 1);
    let k = (sk, batch.insertions@[i].0@);
    assert(reg + deletion_items(sk, batch.deletions@) + ins =~= front + (seq![item] + back));
    lemma_apply_items_concat(m, front, seq![item] + back);
    lemma_apply_items_concat(apply_items(m, front), seq![item], back);
    let after = apply_items(apply_items(m, front), seq![item]);
    assert(seq![item].drop_first() =~= Seq::<((Seq<u8>, Seq<u8>), Option<Seq<u8>>)>::empty());
    assert(item == (k, Some(batch.insertions@[i].1@)));
    assert(seq![item][0] == item);
    assert(apply_items(apply_item(apply_items(m, front), item), Seq::empty()) == apply_item(
        apply_items(m, front),
        item,
    ));
    assert(after == apply_items(m, front).insert(k, batch.insertions@[i].1@));
    assert forall|j: int| 0 <= j < back.len() implies (#[trigger] back[j]).0 != k by {
        assert(back[j] == ins[i + 1 + j]);
        assert(batch.insertions@[i + 1 + j].0@ != batch.insertions@[i].0@);
    }
    lemma_apply_items_untouched(after, back, k);
}

} // verus!
