use vstd::prelude::*;

use crate::chunk::Chunk;

verus! {

/// The storage of a world: a `hashbrown::HashMap<u64, Chunk>` from packed chunk
/// coordinates to chunks. Hidden from the verifier; what it holds is named by
/// `chunk_map_contents`, and each method that the world calls has a wrapper below.
#[verifier::external_body]
#[derive(Debug)]
pub struct ChunkMap {
    map: hashbrown::HashMap<u64, Chunk>,
}

/// A map that holds no chunk.
pub open spec fn no_chunks() -> Map<u64, Seq<u32>> {
    Map::empty()
}

/// What a chunk map holds: for each key, the rows of its chunk.
pub uninterp spec fn chunk_map_contents(m: ChunkMap) -> Map<u64, Seq<u32>>;

/// `hashbrown::HashMap::new`: an empty map.
#[verifier::external_body]
pub fn chunk_map_new() -> (m: ChunkMap)
    ensures
        chunk_map_contents(m) == no_chunks(),
{
    ChunkMap { map: hashbrown::HashMap::new() }
}

/// `hashbrown::HashMap::get`: the chunk stored under `k`, if any.
#[verifier::external_body]
pub fn chunk_map_get(m: &ChunkMap, k: u64) -> (r: Option<&Chunk>)
    ensures
        match r {
            Some(c) => chunk_map_contents(*m).contains_key(k) && chunk_map_contents(*m)[k] == c@,
            None => !chunk_map_contents(*m).contains_key(k),
        },
{
    m.map.get(&k)
}

/// `hashbrown::HashMap::insert`: stores `c` under `k`, replacing any chunk there.
#[verifier::external_body]
pub fn chunk_map_insert(m: &mut ChunkMap, k: u64, c: Chunk)
    ensures
        chunk_map_contents(*final(m)) == chunk_map_contents(*old(m)).insert(k, c@),
{
    m.map.insert(k, c);
}

/// `hashbrown::HashMap::clear`: removes every chunk.
#[verifier::external_body]
pub fn chunk_map_clear(m: &mut ChunkMap)
    ensures
        chunk_map_contents(*final(m)) == no_chunks(),
{
    m.map.clear();
}

/// `hashbrown::HashMap::entry` followed by `Entry::or_insert`: the chunk stored
/// under `k`, after storing `default` there if the key was absent. What is
/// written through the returned reference is what the map holds under `k`.
#[verifier::external_body]
pub fn chunk_map_entry_or_insert<'a>(m: &'a mut ChunkMap, k: u64, default: Chunk) -> (r: &'a mut Chunk)
    ensures
        r@ == if chunk_map_contents(*old(m)).contains_key(k) {
            chunk_map_contents(*old(m))[k]
        } else {
            default@
        },
        chunk_map_contents(*final(m)) == chunk_map_contents(*old(m)).insert(k, final(r)@),
{
    m.map.entry(k).or_insert(default)
}

/// `hashbrown::HashMap::iter`: every key with its chunk, each key once, in the
/// map's own order, which this contract leaves open.
#[verifier::external_body]
pub fn chunk_map_iter(m: &ChunkMap) -> (r: Vec<(u64, &Chunk)>)
    ensures
        forall|i: int, j: int| 0 <= i < j < r@.len() ==> r@[i].0 != r@[j].0,
        forall|i: int|
            0 <= i < r@.len() ==> chunk_map_contents(*m).contains_key(#[trigger] r@[i].0)
                && chunk_map_contents(*m)[r@[i].0] == r@[i].1@,
        forall|k: u64|
            chunk_map_contents(*m).contains_key(k) ==> exists|i: int|
                0 <= i < r@.len() && #[trigger] r@[i].0 == k,
{
    m.map.iter().map(|(k, c)| (*k, c)).collect()
}

/// A set of packed chunk coordinates: a `hashbrown::HashSet<u64>`, hidden from
/// the verifier; what it holds is named by `key_set_contents`.
#[verifier::external_body]
pub struct KeySet {
    set: hashbrown::HashSet<u64>,
}

/// What a key set holds.
pub uninterp spec fn key_set_contents(s: KeySet) -> Set<u64>;

/// `hashbrown::HashSet::new`: an empty set.
#[verifier::external_body]
pub fn key_set_new() -> (s: KeySet)
    ensures
        key_set_contents(s) == Set::<u64>::empty(),
{
    KeySet { set: hashbrown::HashSet::new() }
}

/// `hashbrown::HashSet::insert`: adds `k`.
#[verifier::external_body]
pub fn key_set_insert(s: &mut KeySet, k: u64)
    ensures
        key_set_contents(*final(s)) == key_set_contents(*old(s)).insert(k),
{
    s.set.insert(k);
}

/// `hashbrown::HashSet::iter`: every key once, in the set's own order, which
/// this contract leaves open.
#[verifier::external_body]
pub fn key_set_iter(s: &KeySet) -> (r: Vec<u64>)
    ensures
        r@.no_duplicates(),
        forall|k: u64| #[trigger] r@.contains(k) <==> key_set_contents(*s).contains(k),
{
    s.set.iter().copied().collect()
}

} // verus!
