//! Random names for tests: strings drawn from a character set.

use rand::rngs::{SmallRng, ThreadRng};
use rand::{Rng, SeedableRng};
use vstd::prelude::*;
use vstd::string::StringExecFns;

verus! {

/// The seed of the deterministic RNG: as many ones as zeros, "01" repeated 32
/// times in binary.
pub const RNG_SEED: u64 = 6148914691236517205;

/// A deterministic RNG.
pub type DeterministicRng = SmallRng;

#[verifier::external_type_specification]
#[verifier::external_body]
pub struct ExSmallRng(SmallRng);

/// Relies on `SeedableRng::seed_from_u64`: the generator seeded with
/// `RNG_SEED`, for tests.
#[verifier::external_body]
pub fn make_deterministic_rng() -> (r: DeterministicRng) {
    SmallRng::seed_from_u64(RNG_SEED)
}

/// A RNG that is non-deterministic.
pub type NonDeterministicRng = ThreadRng;

#[verifier::external_type_specification]
#[verifier::external_body]
pub struct ExThreadRng(ThreadRng);

/// Relies on `rand::thread_rng`: returns the generator of this thread.
#[verifier::external_body]
pub fn make_nondeterministic_rng() -> (r: NonDeterministicRng) {
    rand::thread_rng()
}

/// Relies on `Rng::gen_range`, which panics on an empty range: an index below
/// `bound`.
#[verifier::external_body]
fn gen_index(rng: &mut NonDeterministicRng, bound: usize) -> (r: usize)
    requires
        bound > 0,
    ensures
        r < bound,
{
    rng.gen_range(0..bound)
}

/// Relies on `String::push`: appends one character.
#[verifier::external_body]
fn push_char(s: &mut String, c: char)
    ensures
        final(s)@ == old(s)@.push(c),
{
    s.push(c)
}

/// Every character of `s` is one of the bytes of `charset`.
pub open spec fn drawn_from(s: Seq<char>, charset: Seq<u8>) -> bool {
    forall|i: int|
        #![trigger s[i]]
        0 <= i < s.len() ==> exists|j: int| 0 <= j < charset.len() && s[i] == (#[trigger] charset[j]) as char
}

/// Returns a random string of `length` characters, each drawn from `charset`.
pub fn generate_random_alphanumeric_string(length: usize, charset: &[u8]) -> (r: String)
    requires
        length == 0 || charset@.len() > 0,
    ensures
        r@.len() == length,
        drawn_from(r@, charset@),
{
    let mut out = String::new();
    let mut i: usize = 0;
    while i < length
        invariant
            i <= length,
            length == 0 || charset@.len() > 0,
            out@.len() == i,
            drawn_from(out@, charset@),
        decreases length - i,
    {
        let mut rng = make_nondeterministic_rng();
        let random_index = gen_index(&mut rng, charset.len());
        let c = charset[random_index] as char;
        let ghost before = out@;
        push_char(&mut out, c);
        assert forall|k: int| #![trigger out@[k]] 0 <= k < out@.len() implies exists|j: int|
            0 <= j < charset@.len() && out@[k] == (#[trigger] charset@[j]) as char by {
            if k == i {
                assert(out@[k] == charset@[random_index as int] as char);
            } else {
                assert(out@[k] == before[k]);
            }
        }
        i = i + 1;
    }
    out
}

/// The characters of the random part of a test namespace: digits, then lowercase
/// letters.
pub open spec fn namespace_charset() -> Seq<u8> {
    Seq::new(36, |i: int| if i < 10 { (48 + i) as u8 } else { (97 + i - 10) as u8 })
}

fn make_namespace_charset() -> (r: Vec<u8>)
    ensures
        r@ == namespace_charset(),
{
    let mut charset: Vec<u8> = Vec::new();
    let mut i: u8 = 0;
    while i < 36
        invariant
            i <= 36,
            charset@ == namespace_charset().take(i as int),
        decreases 36 - i,
    {
        let c: u8 = if i < 10 { 48 + i } else { 97 + i - 10 };
        charset.push(c);
        i = i + 1;
        assert(charset@ =~= namespace_charset().take(i as int));
    }
    assert(namespace_charset().take(36) =~= namespace_charset());
    charset
}

/// Returns a unique namespace for testing: `table_` followed by twenty random
/// digits and lowercase letters.
pub fn generate_test_namespace() -> (r: String)
    ensures
        r@.len() == 26,
        r@.subrange(0, 6) == "table_"@,
        drawn_from(r@.subrange(6, 26), namespace_charset()),
{
    let charset = make_namespace_charset();
    let entry = generate_random_alphanumeric_string(20, charset.as_slice());
    let mut namespace = String::from_str("table_");
    proof {
        reveal_strlit("table_");
    }
    namespace.append(entry.as_str());
    assert(namespace@.subrange(0, 6) =~= "table_"@);
    assert(namespace@.subrange(6, 26) =~= entry@);
    namespace
}

} // verus!
