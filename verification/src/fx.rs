//! Hash tables over the `rustc_hash` hasher, keyed by integers and by texts, and
//! its hash of texts.
//!
//! A hasher that is not seeded hashes a key alike every time, so the standard
//! tables behave as maps and sets under it, and a hash of texts depends on them
//! and on the kind of machine alone. That, and no more, is taken on trust here.

use rustc_hash::{FxBuildHasher, FxHasher};
use std::collections::{HashMap, HashSet};
use std::hash::{Hash, Hasher};
use vstd::prelude::*;

verus! {

/// `rustc_hash::FxBuildHasher`, the builder of unseeded Fx hashers.
#[verifier::external_type_specification]
#[verifier::external_body]
pub struct ExFxBuildHasher(FxBuildHasher);

/// `rustc_hash::FxHashSet::default`: a set that holds nothing.
#[verifier::external_body]
pub(crate) fn fx_set() -> (set: HashSet<u64, FxBuildHasher>)
    ensures
        set@ == Set::<u64>::empty(),
{
    rustc_hash::FxHashSet::default()
}

/// `HashSet::insert` under the Fx hasher: the set then holds `key` as well,
/// and the answer says whether it did not before.
#[verifier::external_body]
pub(crate) fn fx_set_insert(set: &mut HashSet<u64, FxBuildHasher>, key: u64) -> (added: bool)
    ensures
        final(set)@ == old(set)@.insert(key),
        added == !old(set)@.contains(key),
{
    set.insert(key)
}

/// `HashSet::contains` under the Fx hasher: whether the set holds `key`.
#[verifier::external_body]
pub(crate) fn fx_set_contains(set: &HashSet<u64, FxBuildHasher>, key: u64) -> (held: bool)
    ensures
        held == set@.contains(key),
{
    set.contains(&key)
}

/// `rustc_hash::FxHashMap::default`: a map without entries.
#[verifier::external_body]
pub(crate) fn fx_map() -> (table: HashMap<u64, u32, FxBuildHasher>)
    ensures
        forall|key: u64| !(#[trigger] table@.contains_key(key)),
{
    rustc_hash::FxHashMap::default()
}

/// `HashMap::insert` under the Fx hasher: `key` then maps to `value`.
#[verifier::external_body]
pub(crate) fn fx_map_insert(map: &mut HashMap<u64, u32, FxBuildHasher>, key: u64, value: u32)
    ensures
        final(map)@ == old(map)@.insert(key, value),
{
    map.insert(key, value);
}

/// `HashMap::get` under the Fx hasher: what `key` maps to.
#[verifier::external_body]
pub(crate) fn fx_map_get(map: &HashMap<u64, u32, FxBuildHasher>, key: u64) -> (value: Option<u32>)
    ensures
        value == (if map@.contains_key(key) {
            Some(map@[key])
        } else {
            None
        }),
{
    map.get(&key).copied()
}

/// What a map from texts holds, by the texts' characters.
pub uninterp spec fn fx_entries(map: HashMap<String, u32, FxBuildHasher>) -> Map<Seq<char>, u32>;

/// `rustc_hash::FxHashMap::default`: a map from texts, without entries.
#[verifier::external_body]
pub(crate) fn fx_text_map() -> (table: HashMap<String, u32, FxBuildHasher>)
    ensures
        fx_entries(table).dom() == Set::<Seq<char>>::empty(),
{
    rustc_hash::FxHashMap::default()
}

/// `HashMap::insert` under the Fx hasher: `text` then maps to `value`.
#[verifier::external_body]
pub(crate) fn fx_text_map_insert(
    map: &mut HashMap<String, u32, FxBuildHasher>,
    text: String,
    value: u32,
)
    ensures
        fx_entries(*final(map)) == fx_entries(*old(map)).insert(text@, value),
{
    map.insert(text, value);
}

/// `HashMap::get` under the Fx hasher: what `text` maps to.
#[verifier::external_body]
pub(crate) fn fx_text_map_get(map: &HashMap<String, u32, FxBuildHasher>, text: &str) -> (value:
    Option<u32>)
    ensures
        value == (if fx_entries(*map).contains_key(text@) {
            Some(fx_entries(*map)[text@])
        } else {
            None
        }),
{
    map.get(text).copied()
}

/// `rustc_hash::FxHasher`, the state of an Fx hash.
#[verifier::external_type_specification]
#[verifier::external_body]
pub struct ExFxHasher(FxHasher);

/// What `FxHasher::finish` returns for a hasher, on a machine whose words have
/// `word_bits` bits.
pub uninterp spec fn fx_value(hasher: FxHasher, word_bits: u32) -> u64;

/// What an Fx hash of the value `before` comes to once a text is mixed into it,
/// as `str`'s `Hash` does. It depends on the width of the machine's words, and
/// on whether a product of two words of sixty-four bits is taken in full.
pub uninterp spec fn fx_text(before: u64, text: Seq<char>, word_bits: u32, full: bool) -> u64;

/// What an Fx hash of the value `before` comes to once a byte is mixed into it,
/// as `u8`'s `Hash` does.
pub uninterp spec fn fx_byte(before: u64, byte: u8, word_bits: u32) -> u64;

/// `rustc_hash::FxHasher::default`: a hash of nothing, which is zero.
#[verifier::external_body]
pub(crate) fn fx_hasher() -> (hasher: FxHasher)
    ensures
        fx_value(hasher, usize::BITS) == 0,
{
    FxHasher::default()
}

/// `str`'s `Hash` under the Fx hasher: what the hash comes to depends on what
/// it was, on the text and on the machine. How wide the machine's words are is
/// known. Whether it takes products in full is not, so either is possible.
#[verifier::external_body]
pub(crate) fn fx_hash_text(hasher: &mut FxHasher, text: &str)
    ensures
        exists|full: bool|
            fx_value(*final(hasher), usize::BITS) == #[trigger] fx_text(
                fx_value(*old(hasher), usize::BITS),
                text@,
                usize::BITS,
                full,
            ),
{
    text.hash(hasher)
}

/// `u8`'s `Hash` under the Fx hasher: what the hash comes to depends on what it
/// was, on the byte and on how wide the machine's words are.
#[verifier::external_body]
pub(crate) fn fx_hash_byte(hasher: &mut FxHasher, byte: u8)
    ensures
        fx_value(*final(hasher), usize::BITS) == fx_byte(
            fx_value(*old(hasher), usize::BITS),
            byte,
            usize::BITS,
        ),
{
    byte.hash(hasher)
}

/// `FxHasher::finish`: the hash of all that was mixed into it.
#[verifier::external_body]
pub(crate) fn fx_finish(hasher: &FxHasher) -> (hash: u64)
    ensures
        hash == fx_value(*hasher, usize::BITS),
{
    hasher.finish()
}

} // verus!
