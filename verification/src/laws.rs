//! Laws of the key-set model: how the operations' contracts, which all
//! speak of `AutocompleteSystem::keys`, relate to one another.

use vstd::prelude::*;

use crate::trie::keys_after_insert;
use crate::trie::keys_with_prefix;
use crate::trie::AutocompleteSystem;

verus! {

/// After a non-empty key is inserted, the key set holds it: an exact lookup
/// of that key right after the insertion answers true.
pub proof fn lemma_insert_then_contains(ks: Set<Seq<char>>, s: Seq<char>)
    requires
        s.len() > 0,
    ensures
        keys_after_insert(ks, s).contains(s),
{
}

/// The empty string is never a member: whatever was inserted before, an
/// exact lookup of the empty string answers false.
pub proof fn lemma_empty_never_member(t: AutocompleteSystem)
    ensures
        !t.keys().contains(Seq::<char>::empty()),
{
}

/// Inserting the empty string leaves the key set exactly as it was, so no
/// later lookup or enumeration can tell that the call happened.
pub proof fn lemma_insert_empty_no_op(ks: Set<Seq<char>>)
    ensures
        keys_after_insert(ks, Seq::<char>::empty()) == ks,
{
}

/// Insertion is idempotent: inserting a key a second time leaves the key
/// set, and with it every lookup and enumeration answer, unchanged.
pub proof fn lemma_insert_idempotent(ks: Set<Seq<char>>, s: Seq<char>)
    ensures
        keys_after_insert(keys_after_insert(ks, s), s) == keys_after_insert(ks, s),
{
    if s.len() > 0 {
        assert(keys_after_insert(keys_after_insert(ks, s), s) =~= keys_after_insert(ks, s));
    }
}

/// The empty prefix selects every stored key: enumerating with it returns
/// the full set of distinct keys inserted so far.
pub proof fn lemma_empty_prefix_selects_all(ks: Set<Seq<char>>)
    ensures
        keys_with_prefix(ks, Seq::<char>::empty()) == ks,
{
    assert forall|k: Seq<char>| ks.contains(k) implies keys_with_prefix(
        ks,
        Seq::<char>::empty(),
    ).contains(k) by {
        assert(Seq::<char>::empty() =~= k.subrange(0, 0));
    }
    assert(keys_with_prefix(ks, Seq::<char>::empty()) =~= ks);
}

/// A prefix that no stored key starts with selects nothing: the enumeration
/// comes back empty.
pub proof fn lemma_unmatched_prefix_empty(ks: Set<Seq<char>>, p: Seq<char>)
    requires
        forall|k: Seq<char>| #[trigger] ks.contains(k) ==> !p.is_prefix_of(k),
    ensures
        keys_with_prefix(ks, p) == Set::<Seq<char>>::empty(),
{
    assert(keys_with_prefix(ks, p) =~= Set::<Seq<char>>::empty());
}

} // verus!
