use std::collections::HashMap;
use std::sync::Arc;
use vstd::prelude::*;
use vstd::rwlock::{RwLock, RwLockPredicate};
use super::{fnv_hash, Pool, SlicesWrap};

verus! {

broadcast use vstd::std_specs::hash::group_hash_axioms;

/// The bytes of one interned value, owned by the store and shared by every
/// handle to that value.
pub struct SliceHashWrap(Vec<u8>);

impl View for SliceHashWrap {
    type V = Seq<u8>;

    closed spec fn view(&self) -> Seq<u8> {
        self.0@
    }
}

impl SliceHashWrap {
    pub fn as_bytes(&self) -> (r: &[u8])
        ensures
            r@ == self@,
    {
        self.0.as_slice()
    }
}

/// Relies on `Arc::clone`: a new handle to the same allocation.
#[verifier::external_body]
fn share(a: &Arc<SliceHashWrap>) -> (r: Arc<SliceHashWrap>)
    ensures
        r@ == a@,
{
    Arc::clone(a)
}

/// Entries of one bucket all hash to the bucket's key, and no two of them
/// hold the same bytes.
pub open spec fn bucket_ok(b: Seq<Arc<SliceHashWrap>>, h: u64) -> bool {
    &&& forall|i: int| 0 <= i < b.len() ==> fnv_hash(#[trigger] b[i]@) == h
    &&& forall|i: int, j: int| 0 <= i < b.len() && 0 <= j < b.len() && i != j ==> b[i]@ != b[j]@
}

/// The deduplicating set: interned values grouped by the hash of their bytes.
pub struct Entries {
    buckets: HashMap<u64, Vec<Arc<SliceHashWrap>>>,
}

impl Entries {
    pub closed spec fn wf(&self) -> bool {
        forall|h: u64| #[trigger] self.buckets@.contains_key(h) ==> bucket_ok(self.buckets@[h]@, h)
    }

    /// Whether some entry holds exactly the bytes `s`.
    pub closed spec fn has(&self, s: Seq<u8>) -> bool {
        let h = fnv_hash(s);
        &&& self.buckets@.contains_key(h)
        &&& exists|i: int| 0 <= i < self.buckets@[h]@.len() && #[trigger] self.buckets@[h]@[i]@ == s
    }

    /// The entries, as a map from bucket key to the bytes of each entry in it.
    pub closed spec fn entry_bytes(&self) -> Map<u64, Seq<Seq<u8>>> {
        self.buckets@.map_values(|b: Vec<Arc<SliceHashWrap>>| b@.map_values(|a: Arc<SliceHashWrap>| a@))
    }

    /// No two entries of a well-formed set hold the same bytes, in one
    /// bucket or in two.
    pub proof fn lemma_unique(&self, h1: u64, i: int, h2: u64, j: int)
        requires
            self.wf(),
            self.entry_bytes().contains_key(h1),
            self.entry_bytes().contains_key(h2),
            0 <= i < self.entry_bytes()[h1].len(),
            0 <= j < self.entry_bytes()[h2].len(),
            self.entry_bytes()[h1][i] == self.entry_bytes()[h2][j],
        ensures
            h1 == h2 && i == j,
    {
        let b1 = self.buckets@[h1]@;
        let b2 = self.buckets@[h2]@;
        assert(bucket_ok(b1, h1));
        assert(bucket_ok(b2, h2));
        assert(self.entry_bytes()[h1][i] == b1[i]@);
        assert(self.entry_bytes()[h2][j] == b2[j]@);
        assert(fnv_hash(b1[i]@) == h1);
        assert(fnv_hash(b2[j]@) == h2);
    }

    pub fn new() -> (r: Entries)
        ensures
            r.wf(),
            forall|s: Seq<u8>| !r.has(s),
    {
        Entries { buckets: HashMap::new() }
    }

    /// The entry for the joined bytes of `slices`, if there is one.
    pub fn find(&self, slices: &SlicesWrap, h: u64) -> (r: Option<Arc<SliceHashWrap>>)
        requires
            self.wf(),
            h == fnv_hash(slices@),
        ensures
            r is Some <==> self.has(slices@),
            r matches Some(a) ==> a@ == slices@,
    {
        match self.buckets.get(&h) {
            None => None,
            Some(bucket) => {
                assert(bucket_ok(bucket@, h));
                let mut i: usize = 0;
                while i < bucket.len()
                    invariant
                        i <= bucket@.len(),
                        h == fnv_hash(slices@),
                        self.buckets@.contains_key(h),
                        self.buckets@[h] == *bucket,
                        forall|k: int| 0 <= k < i ==> bucket@[k]@ != slices@,
                    decreases bucket@.len() - i,
                {
                    if slices.equivalent(bucket[i].as_bytes()) {
                        assert(self.buckets@[h]@[i as int]@ == slices@);
                        return Some(share(&bucket[i]));
                    }
                    i += 1;
                }
                None
            },
        }
    }

    /// The entry for the joined bytes of `slices`, made and added first if
    /// there is none.
    pub fn get_or_insert(&mut self, slices: &SlicesWrap, h: u64) -> (r: Arc<SliceHashWrap>)
        requires
            old(self).wf(),
            h == fnv_hash(slices@),
        ensures
            final(self).wf(),
            r@ == slices@,
            forall|s: Seq<u8>| #[trigger] final(self).has(s) <==> old(self).has(s) || s == slices@,
    {
        match self.find(slices, h) {
            Some(a) => a,
            None => {
                let ghost old_map = self.buckets@;
                let mut bucket = match self.buckets.remove(&h) {
                    Some(b) => b,
                    None => Vec::new(),
                };
                proof {
                    assert(bucket_ok(bucket@, h)) by {
                        if old_map.contains_key(h) {
                            assert(bucket_ok(old_map[h]@, h));
                        }
                    }
                }
                let entry = Arc::new(SliceHashWrap(slices.to_vec()));
                let r = share(&entry);
                let ghost before = bucket@;
                bucket.push(entry);
                self.buckets.insert(h, bucket);
                proof {
                    assert(bucket@ == before.push(entry));
                    assert forall|i: int, j: int| 0 <= i < bucket@.len() && 0 <= j < bucket@.len() && i != j
                        implies bucket@[i]@ != bucket@[j]@ by {
                        if i < before.len() && j < before.len() {
                        } else if i == before.len() {
                            assert(!old(self).has(slices@));
                            assert(old_map.contains_key(h) ==> old_map[h]@ == before);
                            if !old_map.contains_key(h) {
                                assert(before.len() == 0);
                            }
                        } else {
                            assert(!old(self).has(slices@));
                            if !old_map.contains_key(h) {
                                assert(before.len() == 0);
                            }
                        }
                    }
                    assert(bucket_ok(bucket@, h));
                    assert forall|k: u64| #[trigger] self.buckets@.contains_key(k) implies bucket_ok(self.buckets@[k]@, k) by {
                        if k != h {
                            assert(old_map.contains_key(k));
                        }
                    }
                    assert forall|s: Seq<u8>| #[trigger] self.has(s) <==> old(self).has(s) || s == slices@ by {
                        let hs = fnv_hash(s);
                        if s == slices@ {
                            assert(self.buckets@[h]@[before.len() as int]@ == s);
                        }
                        if hs != h {
                            assert(self.buckets@[hs] == old_map[hs] || !old_map.contains_key(hs));
                        } else {
                            if old(self).has(s) {
                                let i = choose|i: int| 0 <= i < old_map[h]@.len() && #[trigger] old_map[h]@[i]@ == s;
                                assert(self.buckets@[h]@[i]@ == s);
                            }
                            if self.has(s) && s != slices@ {
                                let i = choose|i: int| 0 <= i < self.buckets@[h]@.len() && #[trigger] self.buckets@[h]@[i]@ == s;
                                assert(i < before.len());
                                assert(old_map.contains_key(h));
                                assert(old_map[h]@[i]@ == s);
                            }
                        }
                    }
                }
                r
            },
        }
    }
}

/// What the lock guarding the set keeps true between writers.
pub struct EntriesInv;

impl RwLockPredicate<Entries> for EntriesInv {
    open spec fn inv(self, v: Entries) -> bool {
        v.wf()
    }
}

/// The deduplicating pool: a set of reference-counted byte buffers behind a
/// read-write lock. Clones of a pool share its set, so every handle made
/// through them for the same bytes shares one allocation. A pool made by
/// [`GlobalPool::new`] starts a set of its own; the process-wide pool is one
/// such pool, made once and handed out by clone.
#[derive(Clone)]
pub struct GlobalPool {
    store: Arc<RwLock<Entries, EntriesInv>>,
}

impl GlobalPool {
    /// Whether the lock that guards this pool's set is the one whose
    /// invariant keeps the set free of duplicates.
    pub closed spec fn guards_unique(&self) -> bool {
        (*self.store).pred() == EntriesInv
    }

    /// Whether `e` is a state of the set that this pool's lock admits: every
    /// state the set is ever in, between two writers.
    pub closed spec fn admits(&self, e: Entries) -> bool {
        (*self.store).inv(e)
    }

    /// A pool with a new, empty set of its own. Every clone of the pool
    /// shares that set; a second `new` makes a second set.
    pub fn new() -> (r: GlobalPool)
        ensures
            r.guards_unique(),
    {
        GlobalPool { store: Arc::new(RwLock::new(Entries::new(), Ghost(EntriesInv))) }
    }

    /// The set of a pool never holds two entries with the same bytes: in any
    /// state its lock admits, equal bytes are one and the same entry.
    pub proof fn lemma_set_unique(&self, e: Entries, h1: u64, i: int, h2: u64, j: int)
        requires
            self.admits(e),
            e.entry_bytes().contains_key(h1),
            e.entry_bytes().contains_key(h2),
            0 <= i < e.entry_bytes()[h1].len(),
            0 <= j < e.entry_bytes()[h2].len(),
            e.entry_bytes()[h1][i] == e.entry_bytes()[h2][j],
        ensures
            h1 == h2 && i == j,
    {
        e.lemma_unique(h1, i, h2, j);
    }
}

impl Default for GlobalPool {
    /// A pool with a new, empty set of its own.
    fn default() -> (r: GlobalPool)
        ensures
            r.guards_unique(),
    {
        GlobalPool::new()
    }
}

impl Pool for GlobalPool {
    type Raw = Arc<SliceHashWrap>;

    open spec fn raw_view(raw: &Arc<SliceHashWrap>) -> Seq<u8> {
        raw@
    }

    /// Looks the bytes up under a shared lock and takes the entry found;
    /// only on a miss takes the exclusive lock, looks again (another thread
    /// may have added the bytes meanwhile) and adds them if still absent.
    fn raw_from_slices(&self, slices: SlicesWrap) -> (r: Arc<SliceHashWrap>) {
        let h = slices.content_hash();
        let read = self.store.acquire_read();
        let found = read.borrow().find(&slices, h);
        read.release_read();
        match found {
            Some(raw) => raw,
            None => {
                let (mut entries, write) = self.store.acquire_write();
                let raw = entries.get_or_insert(&slices, h);
                write.release_write(entries);
                raw
            },
        }
    }

    fn raw_to_slice<'r>(&self, raw: &'r Arc<SliceHashWrap>) -> (r: &'r [u8]) {
        raw.as_bytes()
    }

    fn raw_clone(&self, raw: &Arc<SliceHashWrap>) -> (r: Arc<SliceHashWrap>) {
        share(raw)
    }
}

} // verus!
