//! Assignment of keys to reduce partitions by hashing.
use vstd::prelude::*;
use vstd::std_specs::hash::DefaultHasherAdditionalSpecFns;
use std::collections::hash_map::DefaultHasher;
use std::hash::{Hash, Hasher};

verus! {

/// What `<str as Hash>::hash` feeds a hasher for the text `key`.
pub uninterp spec fn str_hash_writes(key: Seq<char>) -> Seq<Seq<u8>>;

/// Feeds `key` to `hasher` through `<str as Hash>::hash`. The contract names
/// what is written (`str_hash_writes`) without saying which bytes those are.
#[verifier::external_body]
fn hash_str_into(key: &str, hasher: &mut DefaultHasher)
    ensures
        final(hasher)@ == old(hasher)@ + str_hash_writes(key@),
{
    key.hash(hasher)
}

/// The hash of `key` under a fresh `DefaultHasher`.
pub open spec fn key_hash(key: Seq<char>) -> u64 {
    DefaultHasher::spec_finish(str_hash_writes(key))
}

/// The partition, among `num_items`, to which `key` belongs.
pub open spec fn key_bucket(key: Seq<char>, num_items: nat) -> nat {
    (key_hash(key) as nat) % num_items
}

/// The partition of `key` among `num_items` partitions: its hash under a
/// fresh `DefaultHasher`, modulo `num_items`.
pub fn generate_hash(key: &str, num_items: u32) -> (h: u64)
    requires
        num_items > 0,
    ensures
        h as nat == key_bucket(key@, num_items as nat),
        h as nat == (key_hash(key@) as nat) % (num_items as nat),
        h < num_items,
{
    let mut hasher = DefaultHasher::new();
    hash_str_into(key, &mut hasher);
    assert(hasher@ =~= str_hash_writes(key@));
    hasher.finish() % (num_items as u64)
}

/// A key's partition is its hash modulo the number of partitions, for every
/// number of partitions.
pub proof fn lemma_key_bucket_is_hash_mod(key: Seq<char>, num_items: nat)
    requires
        num_items > 0,
    ensures
        key_bucket(key, num_items) == (key_hash(key) as nat) % num_items,
        key_bucket(key, num_items) < num_items,
{
}

/// Partitioning among `a * b` partitions refines partitioning among `a`:
/// a key's partition among `a * b`, modulo `a`, is its partition among `a`.
pub proof fn lemma_key_bucket_refines(key: Seq<char>, a: nat, b: nat)
    requires
        a > 0,
        b > 0,
    ensures
        key_bucket(key, a * b) % a == key_bucket(key, a),
{
    assert(a * b > 0) by (nonlinear_arith)
        requires
            a > 0,
            b > 0,
    ;
    vstd::arithmetic::div_mod::lemma_mod_mod(key_hash(key) as int, a as int, b as int);
}

} // verus!
