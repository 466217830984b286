//! The tags file: which chunks belong to which tag, and the exact vectors, as
//! bytes.
use std::collections::HashMap;
use vstd::prelude::*;

verus! {

/// What the tags file holds.
pub struct TagsFile {
    /// The chunk ids of each tag.
    pub tag_to_ids: HashMap<u128, Vec<u64>>,
    /// The next chunk id to hand out.
    pub next_id: u64,
    /// The exact vectors by chunk id, if they are kept.
    pub raw_vectors: HashMap<u64, Vec<u32>>,
}

/// A map of lists, with the lists as sequences.
pub open spec fn lists<K, T>(m: Map<K, Vec<T>>) -> Map<K, Seq<T>> {
    m.map_values(|v: Vec<T>| v@)
}

pub(crate) proof fn lemma_lists_removed<K, T>(m: Map<K, Vec<T>>, k: K)
    ensures
        lists(m.remove(k)) == lists(m).remove(k),
{
    assert(lists(m.remove(k)) =~= lists(m).remove(k));
}

pub(crate) proof fn lemma_lists_inserted<K, T>(m: Map<K, Vec<T>>, k: K, v: Vec<T>)
    ensures
        lists(m.insert(k, v)) == lists(m).insert(k, v@),
{
    assert(lists(m.insert(k, v)) =~= lists(m).insert(k, v@));
}

/// What the bytes of a tags file say: each tag's chunk ids, the next chunk id and
/// the exact vectors by chunk id, or the text with which they are refused.
pub uninterp spec fn tags_decoded(
    bytes: Seq<u8>,
) -> Result<(Map<u128, Seq<u64>>, u64, Map<u64, Seq<u32>>), Seq<char>>;

/// `bincode::deserialize`, into the three parts of a tags file with the tags as
/// `uuid::Uuid`s: what the bytes say, or the text of the error.
#[verifier::external_body]
pub(crate) fn decode_tags(bytes: &[u8]) -> (r: Result<TagsFile, String>)
    ensures
        match r {
            Ok(f) => tags_decoded(bytes@) == Ok::<_, Seq<char>>(
                (lists(f.tag_to_ids@), f.next_id, lists(f.raw_vectors@)),
            ),
            Err(m) => tags_decoded(bytes@) == Err::<
                (Map<u128, Seq<u64>>, u64, Map<u64, Seq<u32>>),
                _,
            >(m@),
        },
{
    let parts: (HashMap<uuid::Uuid, Vec<u64>>, u64, HashMap<u64, Vec<u32>>) =
        bincode::deserialize(bytes).map_err(|e| e.to_string())?;
    Ok(
        TagsFile {
            tag_to_ids: parts.0.into_iter().map(|(t, ids)| (t.as_u128(), ids)).collect(),
            next_id: parts.1,
            raw_vectors: parts.2,
        },
    )
}

/// `bincode::serialize`, of the three parts of a tags file with the tags as
/// `uuid::Uuid`s: bytes that `bincode::deserialize` reads as the same parts. With
/// maps and lists of known length and no limit on the size it does not fail. In
/// which order the maps are written is left open.
#[verifier::external_body]
pub(crate) fn encode_tags(
    tag_to_ids: &HashMap<u128, Vec<u64>>,
    next_id: u64,
    raw_vectors: &HashMap<u64, Vec<u32>>,
) -> (r: Result<Vec<u8>, String>)
    ensures
        match r {
            Ok(bytes) => tags_decoded(bytes@) == Ok::<_, Seq<char>>(
                (lists(tag_to_ids@), next_id, lists(raw_vectors@)),
            ),
            Err(_) => false,
        },
{
    let tags: HashMap<uuid::Uuid, &Vec<u64>> = tag_to_ids.iter().map(
        |(t, ids)| (uuid::Uuid::from_u128(*t), ids),
    ).collect();
    bincode::serialize(&(tags, next_id, raw_vectors)).map_err(|e| e.to_string())
}

} // verus!
