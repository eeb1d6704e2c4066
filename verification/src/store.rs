//! The trie that backs the dictionary, held behind trusted declarations:
//! a byte-keyed qp-trie from the `qptrie` crate, seen by the verifier as a
//! map from byte sequences to byte sequences.

use vstd::prelude::*;
use vstd::utf8::{encode_utf8, valid_utf8};

use crate::model::no_entries;

verus! {

/// The byte-keyed qp-trie of the `qptrie` crate that backs the dictionary.
/// The verifier sees a value of this type only through `trie_contents` and
/// the wrappers below.
#[verifier::external_body]
pub struct ByteTrie {
    trie: qptrie::Trie<Vec<u8>, Vec<u8>>,
}

/// The key/value pairs that a byte-keyed trie holds, as a map of byte
/// sequences.
pub uninterp spec fn trie_contents(t: ByteTrie) -> Map<Seq<u8>, Seq<u8>>;

/// Relies on `qptrie::Trie::new`: a freshly created trie holds no entries.
#[verifier::external_body]
pub(crate) fn trie_new() -> (t: ByteTrie)
    ensures
        trie_contents(t) == no_entries(),
{
    ByteTrie { trie: qptrie::Trie::new() }
}

/// Relies on `qptrie::Trie::insert`: stores `val` under `key`, replacing any
/// earlier value for that key. `new` leaves the trie's height bound at
/// `usize::MAX`, so the branch of `insert` that refuses an entry over the
/// bound is never taken.
#[verifier::external_body]
pub(crate) fn trie_insert(t: &mut ByteTrie, key: Vec<u8>, val: Vec<u8>)
    ensures
        trie_contents(*final(t)) == trie_contents(*old(t)).insert(key@, val@),
{
    t.trie.insert(key, val);
}

/// Relies on `qptrie::Trie::get`: returns the value stored under `key`, or
/// `None` when the trie holds no entry for it.
#[verifier::external_body]
pub(crate) fn trie_get<'a>(t: &'a ByteTrie, key: &[u8]) -> (r: Option<&'a [u8]>)
    ensures
        match r {
            Some(v) => trie_contents(*t).contains_key(key@) && v@ == trie_contents(*t)[key@],
            None => !trie_contents(*t).contains_key(key@),
        },
{
    t.trie.get(&key.to_vec()).map(|v| v.as_slice())
}

/// Relies on `String::from_utf8`: succeeds exactly on well-formed input, and
/// the returned string's encoding is the input bytes.
#[verifier::external_body]
pub(crate) fn bytes_to_string(v: Vec<u8>) -> (r: Option<String>)
    ensures
        r is Some <==> valid_utf8(v@),
        r matches Some(s) ==> encode_utf8(s@) == v@,
{
    String::from_utf8(v).ok()
}

} // verus!
