//! Backend limits and size helpers shared by the storage layers.

use vstd::prelude::*;

verus! {

/// The maximum size of a key in DynamoDB, in bytes.
pub const MAX_KEY_SIZE: usize = 1024;

/// The maximum size of a raw value in DynamoDB: 400 KB.
pub const RAW_MAX_VALUE_SIZE: usize = 409600;

/// The largest value a caller may store in one record: a raw record may also hold
/// the serialization of a one-entry batch, so the key (at most `MAX_KEY_SIZE`
/// bytes), the ULEB128 length prefixes of the value (3 bytes) and of the key
/// (2 bytes), and two one-byte tags are set aside: 408569 bytes.
pub const VISIBLE_MAX_VALUE_SIZE: usize = RAW_MAX_VALUE_SIZE - MAX_KEY_SIZE - 3 - 2 - 1 - 1;

/// The maximum number of items in one DynamoDB transaction.
pub const MAX_TRANSACT_WRITE_ITEM_SIZE: usize = 100;

/// A conservative bound on the total size of one DynamoDB transaction (4 MB).
pub const MAX_TRANSACT_WRITE_ITEM_TOTAL_SIZE: usize = 4000000;

/// The number of bytes of the ULEB128 encoding of `n`: one per group of seven bits,
/// and one for zero.
pub open spec fn uleb128_size(n: nat) -> nat
    decreases n,
{
    if n < 128 {
        1
    } else {
        1 + uleb128_size(n / 128)
    }
}

proof fn lemma_uleb128_size_bound(n: nat)
    requires
        n >= 1,
    ensures
        uleb128_size(n) <= n,
    decreases n,
{
    if n >= 128 {
        lemma_uleb128_size_bound(n / 128);
    }
}

/// The room set aside in `VISIBLE_MAX_VALUE_SIZE` is the ULEB128 sizes of the
/// largest value and key, and two tags.
pub proof fn lemma_visible_max_value_size()
    ensures
        VISIBLE_MAX_VALUE_SIZE == RAW_MAX_VALUE_SIZE - MAX_KEY_SIZE - uleb128_size(
            RAW_MAX_VALUE_SIZE as nat,
        ) - uleb128_size(MAX_KEY_SIZE as nat) - 1 - 1,
        VISIBLE_MAX_VALUE_SIZE == 408569,
{
    assert(uleb128_size(25) == 1);
    assert(uleb128_size(3200) == 2);
    assert(uleb128_size(409600) == 3);
    assert(uleb128_size(8) == 1);
    assert(uleb128_size(1024) == 2);
}

/// Returns the number of bytes of the ULEB128 encoding of `n`.
pub fn get_uleb128_size(n: usize) -> (r: usize)
    ensures
        r == uleb128_size(n as nat),
{
    proof {
        if n >= 1 {
            lemma_uleb128_size_bound(n as nat);
        }
    }
    let mut value: usize = n;
    let mut size: usize = 1;
    while value >= 128
        invariant
            size + uleb128_size(value as nat) == 1 + uleb128_size(n as nat),
            n >= 1 ==> uleb128_size(n as nat) <= n,
        decreases value,
    {
        assert(uleb128_size(value as nat) == 1 + uleb128_size((value / 128) as nat));
        assert(uleb128_size((value / 128) as nat) >= 1);
        value = value / 128;
        size = size + 1;
    }
    size
}

} // verus!
