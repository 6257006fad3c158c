//! Trusted interface to the path-prefix map of the `patricia_tree` crate.
//!
//! Packages are looked up by the longest registered path prefix of a file
//! path.  The prefix store itself comes from `patricia_tree`; everything the
//! rest of the crate knows about it is stated here over [`trie_entries`].

use patricia_tree::GenericPatriciaMap;
use vstd::prelude::*;

verus! {

#[verifier::external_type_specification]
#[verifier::external_body]
#[verifier::reject_recursive_types(K)]
#[verifier::reject_recursive_types(V)]
pub struct ExGenericPatriciaMap<K, V>(GenericPatriciaMap<K, V>);

/// The prefix map as the index uses it: package ids keyed by path prefix.
pub type PackageTrie = GenericPatriciaMap<String, usize>;

/// The entries that a string-keyed prefix map currently holds.
pub uninterp spec fn trie_entries(m: PackageTrie) -> Map<Seq<char>, usize>;

/// Relies on `GenericPatriciaMap::new`: the new map holds no entries.
#[verifier::external_body]
pub(crate) fn trie_new() -> (result: PackageTrie)
    ensures
        trie_entries(result) =~= Map::empty(),
{
    GenericPatriciaMap::new()
}

/// Relies on `GenericPatriciaMap::insert`: sets the value at `key` and keeps
/// every other entry.
#[verifier::external_body]
pub(crate) fn trie_insert(m: &mut PackageTrie, key: String, value: usize)
    ensures
        trie_entries(*final(m)) == trie_entries(*old(m)).insert(key@, value),
{
    m.insert(key, value);
}

/// Relies on `GenericPatriciaMap::get_longest_common_prefix`: among the keys
/// of the map that are prefixes of `key`, it returns the entry with the
/// longest one, or `None` when no key is a prefix of `key`.
#[verifier::external_body]
pub(crate) fn trie_longest_prefix_value(m: &PackageTrie, key: &str) -> (r: Option<usize>)
    ensures
        match r {
            Some(v) => exists|p: Seq<char>|
                #[trigger] trie_entries(*m).contains_key(p) && p.is_prefix_of(key@)
                    && trie_entries(*m)[p] == v
                    && (forall|q: Seq<char>|
                        #[trigger] trie_entries(*m).contains_key(q) && q.is_prefix_of(key@)
                            ==> q.len() <= p.len()),
            None => forall|q: Seq<char>|
                #[trigger] trie_entries(*m).contains_key(q) ==> !q.is_prefix_of(key@),
        },
{
    m.get_longest_common_prefix(key).map(|(_, v)| *v)
}

} // verus!
