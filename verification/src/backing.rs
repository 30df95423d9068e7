use vstd::prelude::*;

verus! {

/// The backing of the topic map: an ordered map from identifiers to encoded
/// records, kept in region 0 of a paged memory manager that multiplexes one
/// flat byte-storage resource. The resource is a `VectorMemory` built fresh
/// for this store, so every `StoreBack` owns its own empty storage on every
/// target; attaching a store to a platform resource that outlives the
/// process (and so may already hold records) is outside the verified model.
/// The collection itself belongs to ic_stable_structures; Verus sees it only
/// through `back_contents` and the wrappers below.
#[verifier::external_body]
pub struct StoreBack {
    inner: ic_stable_structures::StableBTreeMap<
        u64,
        Vec<u8>,
        ic_stable_structures::memory_manager::VirtualMemory<ic_stable_structures::VectorMemory>,
    >,
}

/// What the backing map holds: each stored identifier with its record bytes.
pub uninterp spec fn back_contents(m: StoreBack) -> Map<u64, Seq<u8>>;

/// Relies on VectorMemory::default (a fresh, empty, in-process byte store on
/// every target), MemoryManager::init, MemoryManager::get on region 0, and
/// StableBTreeMap::new, which creates an empty map over the region it is
/// given: the new store holds no entries.
#[verifier::external_body]
pub fn back_new() -> (store: StoreBack)
    ensures
        back_contents(store).dom() =~= Set::<u64>::empty(),
{
    let memory: ic_stable_structures::VectorMemory = ic_stable_structures::VectorMemory::default();
    let manager = ic_stable_structures::memory_manager::MemoryManager::init(memory);
    let region = manager.get(ic_stable_structures::memory_manager::MemoryId::new(0));
    StoreBack { inner: ic_stable_structures::StableBTreeMap::new(region) }
}

/// Relies on StableBTreeMap::get: the bytes stored under the key, if any.
#[verifier::external_body]
pub fn back_get(m: &StoreBack, key: u64) -> (r: Option<Vec<u8>>)
    ensures
        match r {
            Some(v) => back_contents(*m).dom().contains(key) && v@ == back_contents(*m)[key],
            None => !back_contents(*m).dom().contains(key),
        },
{
    m.inner.get(&key)
}

/// Relies on StableBTreeMap::insert: stores the bytes under the key,
/// replacing and returning any prior value.
#[verifier::external_body]
pub fn back_insert(m: &mut StoreBack, key: u64, value: Vec<u8>) -> (prev: Option<Vec<u8>>)
    ensures
        back_contents(*final(m)) == back_contents(*old(m)).insert(key, value@),
        match prev {
            Some(v) => back_contents(*old(m)).dom().contains(key) && v@ == back_contents(
                *old(m),
            )[key],
            None => !back_contents(*old(m)).dom().contains(key),
        },
{
    m.inner.insert(key, value)
}

/// Relies on StableBTreeMap::len: the number of entries in the map.
#[verifier::external_body]
pub fn back_len(m: &StoreBack) -> (n: u64)
    ensures
        n as nat == back_contents(*m).dom().len(),
{
    m.inner.len()
}

} // verus!
