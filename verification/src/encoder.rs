//! The table from the bytes of a token to its entry.
use ahash::{AHashMap, RandomState};
use vstd::prelude::*;

use crate::Rank;

verus! {

/// What the vocabulary knows of a token besides its bytes.
pub struct EncoderEntry {
    /// Where the token can be made by a merge: for each length that the left part may have, the
    /// place of that merge in the list of merges.
    pub priorities: Option<Vec<Option<Rank>>>,
    pub rank: Rank,
}

/// The mathematical content of an [`EncoderEntry`].
pub struct Entry {
    pub priorities: Option<Seq<Option<Rank>>>,
    pub rank: Rank,
}

impl View for EncoderEntry {
    type V = Entry;

    open spec fn view(&self) -> Entry {
        Entry {
            priorities: match self.priorities {
                Some(p) => Some(p@),
                None => None,
            },
            rank: self.rank,
        }
    }
}

pub type EncoderMap = AHashMap<Box<[u8]>, EncoderEntry>;

#[verifier::external_type_specification]
#[verifier::external_body]
#[verifier::reject_recursive_types(K)]
#[verifier::reject_recursive_types(V)]
#[verifier::reject_recursive_types(S)]
pub struct ExAHashMap<K, V, S>(AHashMap<K, V, S>);

#[verifier::external_type_specification]
#[verifier::external_body]
pub struct ExRandomState(RandomState);

/// What an encoder map holds: from the bytes of each key to the content of its entry.
pub uninterp spec fn entries(map: EncoderMap) -> Map<Seq<u8>, Entry>;

/// `AHashMap::default`: an empty map.
#[verifier::external_body]
pub(crate) fn encoder_new() -> (fresh: EncoderMap)
    ensures
        forall|key: Seq<u8>| !entries(fresh).contains_key(key),
{
    AHashMap::default()
}

/// `HashMap::insert` through `AHashMap`: the key now has this entry, whatever it had before.
#[verifier::external_body]
pub(crate) fn encoder_insert(map: &mut EncoderMap, key: Vec<u8>, entry: EncoderEntry)
    ensures
        entries(*final(map)) == entries(*old(map)).insert(key@, entry@),
{
    map.insert(key.into_boxed_slice(), entry);
}

/// `AHashMap::get`: the entry of the key, if it has one.
#[verifier::external_body]
pub(crate) fn encoder_get<'a>(map: &'a EncoderMap, key: &[u8]) -> (entry: Option<&'a EncoderEntry>)
    ensures
        entry matches Some(e) ==> entries(*map).contains_key(key@) && e@ == entries(*map)[key@],
        entry is None ==> !entries(*map).contains_key(key@),
{
    map.get(key)
}

/// `HashMap::get_mut` through `AHashMap`: the entry of the key, if it has one, open to change;
/// what is written there is what the map holds afterwards, and nothing else changes.
#[verifier::external_body]
pub(crate) fn encoder_get_mut<'a>(map: &'a mut EncoderMap, key: &[u8]) -> (entry: Option<
    &'a mut EncoderEntry,
>)
    ensures
        entry matches Some(e) ==> entries(*old(map)).contains_key(key@)
            && e@ == entries(*old(map))[key@]
            && entries(*final(map)) == entries(*old(map)).insert(key@, final(e)@),
        entry is None ==> !entries(*old(map)).contains_key(key@)
            && entries(*final(map)) == entries(*old(map)),
{
    map.get_mut(key)
}

} // verus!
