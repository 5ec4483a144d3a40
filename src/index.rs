//! The hash index: slab indices grouped by entry hash, held in a hashbrown map.
use vstd::prelude::*;

verus! {

/// Largest number of extra entries that one call to `reserve` asks the index for.
pub const RESERVE_LIMIT: usize = 0x1000_0000;

/// Slab indices by entry hash. The hashbrown map carries an allocator type parameter,
/// so it is held in a private field and reached only through the methods below.
#[verifier::external_body]
pub struct HashIndex {
    map: hashbrown::HashMap<u64, Vec<usize>>,
}

/// What the index holds: for each hash present, its bucket of slab indices.
pub uninterp spec fn index_contents(m: HashIndex) -> Map<u64, Seq<usize>>;

/// The index with no bucket.
pub open spec fn no_buckets() -> Map<u64, Seq<usize>> {
    Map::empty()
}

impl HashIndex {
    /// Relies on hashbrown::HashMap::new: the map starts empty.
    #[verifier::external_body]
    pub(crate) fn new() -> (r: Self)
        ensures
            index_contents(r) == no_buckets(),
    {
        HashIndex { map: hashbrown::HashMap::new() }
    }

    /// Relies on hashbrown::HashMap::get: the bucket stored under `h`, if any.
    #[verifier::external_body]
    pub(crate) fn get(&self, h: u64) -> (r: Option<&Vec<usize>>)
        ensures
            match r {
                Some(b) => index_contents(*self).contains_key(h) && index_contents(*self)[h] == b@,
                None => !index_contents(*self).contains_key(h),
            },
    {
        self.map.get(&h)
    }

    /// Relies on hashbrown::HashMap::remove: takes out the bucket under `h`, if any.
    #[verifier::external_body]
    pub(crate) fn remove(&mut self, h: u64) -> (r: Option<Vec<usize>>)
        ensures
            index_contents(*final(self)) == index_contents(*old(self)).remove(h),
            match r {
                Some(b) => index_contents(*old(self)).contains_key(h) && index_contents(*old(self))[h] == b@,
                None => !index_contents(*old(self)).contains_key(h),
            },
    {
        self.map.remove(&h)
    }

    /// Relies on hashbrown::HashMap::insert: stores `b` under `h`, replacing any bucket there.
    #[verifier::external_body]
    pub(crate) fn insert(&mut self, h: u64, b: Vec<usize>)
        ensures
            index_contents(*final(self)) == index_contents(*old(self)).insert(h, b@),
    {
        self.map.insert(h, b);
    }

    /// Relies on hashbrown::HashMap::reserve: grows the table, keeping what it holds.
    /// hashbrown panics when the new size overflows, which the bound keeps out.
    #[verifier::external_body]
    pub(crate) fn reserve(&mut self, additional: usize)
        requires
            additional <= RESERVE_LIMIT,
        ensures
            index_contents(*final(self)) == index_contents(*old(self)),
    {
        self.map.reserve(additional)
    }
}

} // verus!
