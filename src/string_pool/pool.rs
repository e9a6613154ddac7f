use vstd::prelude::*;
use vstd::slice::slice_to_vec;

pub mod global;

pub use self::global::{GlobalPool, SliceHashWrap};

verus! {

/// The bytes of `segs[i..]`, one segment after the other.
pub open spec fn concat_from(segs: Seq<&[u8]>, i: int) -> Seq<u8>
    decreases segs.len() - i,
{
    if i < 0 || i >= segs.len() {
        Seq::empty()
    } else {
        segs[i]@ + concat_from(segs, i + 1)
    }
}

pub const FNV_OFFSET: u64 = 0xcbf29ce484222325;

pub const FNV_PRIME: u64 = 0x100000001b3;

/// Folds one byte into a running FNV-1a hash.
pub open spec fn fnv_step(h: u64, b: u8) -> u64 {
    (h ^ (b as u64)).wrapping_mul(FNV_PRIME)
}

/// The FNV-1a hash of a byte sequence, fed one byte at a time.
pub open spec fn fnv_hash(s: Seq<u8>) -> u64
    decreases s.len(),
{
    if s.len() == 0 {
        FNV_OFFSET
    } else {
        fnv_step(fnv_hash(s.drop_last()), s.last())
    }
}

/// A storage strategy for immutable byte content. A strategy makes a handle
/// from the joined bytes of a list of slices, and gives the bytes of a handle
/// back; the other operations are derived from those two, and a strategy may
/// override them where it has a faster way.
pub trait Pool: Sized + Clone {
    type Raw;

    /// The bytes that `raw` holds. They depend on the handle alone, so every
    /// clone of a pool reads a handle the same way.
    spec fn raw_view(raw: &Self::Raw) -> Seq<u8>;

    /// A handle whose bytes are the joined bytes of `slices`.
    fn raw_from_slices(&self, slices: SlicesWrap) -> (r: Self::Raw)
        ensures
            Self::raw_view(&r) == slices@,
    ;

    /// The bytes of a handle, borrowed for as long as the handle.
    fn raw_to_slice<'r>(&self, raw: &'r Self::Raw) -> (r: &'r [u8])
        ensures
            r@ == Self::raw_view(raw),
    ;

    /// A handle holding the bytes of one slice.
    fn raw_from_slice(&self, slice: &[u8]) -> (r: Self::Raw)
        ensures
            Self::raw_view(&r) == slice@,
    {
        let parts: Vec<&[u8]> = vec![slice];
        proof {
            assert(concat_from(parts@, 1) == Seq::<u8>::empty());
            assert(slice@ + Seq::<u8>::empty() == slice@);
        }
        self.raw_from_slices(SlicesWrap(parts.as_slice()))
    }

    /// A handle holding the bytes of a vector.
    fn raw_from_vec(&self, vec: Vec<u8>) -> (r: Self::Raw)
        ensures
            Self::raw_view(&r) == vec@,
    {
        self.raw_from_slice(vec.as_slice())
    }

    /// A handle holding no bytes.
    fn raw_empty(&self) -> (r: Self::Raw)
        ensures
            Self::raw_view(&r) == Seq::<u8>::empty(),
    {
        let empty: Vec<u8> = Vec::new();
        self.raw_from_slice(empty.as_slice())
    }

    /// The bytes of a handle, copied into a vector.
    fn raw_into_vec(&self, raw: Self::Raw) -> (r: Vec<u8>)
        ensures
            r@ == Self::raw_view(&raw),
    {
        slice_to_vec(self.raw_to_slice(&raw))
    }

    /// The bytes of a handle, copied into a boxed slice.
    fn raw_into_boxed_slice(&self, raw: Self::Raw) -> (r: Box<[u8]>)
        ensures
            r@ == Self::raw_view(&raw),
    {
        into_boxed(self.raw_into_vec(raw))
    }

    /// Another handle holding the same bytes.
    fn raw_clone(&self, raw: &Self::Raw) -> (r: Self::Raw)
        ensures
            Self::raw_view(&r) == Self::raw_view(raw),
    {
        let slice = self.raw_to_slice(raw);
        self.raw_from_slice(slice)
    }
}

/// A strategy without deduplication: every handle owns a copy of its bytes.
#[derive(Clone, Copy, Debug, Default)]
pub struct OwnedPool;

impl Pool for OwnedPool {
    type Raw = Vec<u8>;

    open spec fn raw_view(raw: &Vec<u8>) -> Seq<u8> {
        raw@
    }

    fn raw_from_slices(&self, slices: SlicesWrap) -> (r: Vec<u8>) {
        slices.to_vec()
    }

    fn raw_to_slice<'r>(&self, raw: &'r Vec<u8>) -> (r: &'r [u8]) {
        raw.as_slice()
    }
}

/// Interning the same bytes twice, from the same slices or from slices split
/// differently, gives two handles with the same bytes.
pub proof fn lemma_intern_twice<P: Pool>(s1: SlicesWrap, s2: SlicesWrap, r1: P::Raw, r2: P::Raw)
    requires
        s1@ == s2@,
        P::raw_view(&r1) == s1@,
        P::raw_view(&r2) == s2@,
    ensures
        P::raw_view(&r1) == P::raw_view(&r2),
{
}

/// Interning the joined bytes of some slices and copying the handle's bytes
/// back out gives the joined bytes again.
pub proof fn lemma_round_trip<P: Pool>(slices: SlicesWrap, raw: P::Raw, out: Vec<u8>)
    requires
        P::raw_view(&raw) == slices@,
        out@ == P::raw_view(&raw),
    ensures
        out@ == slices@,
{
}

/// Hashing and comparing see the joined bytes only: two lists of slices that
/// join to the same bytes, however they are split, hash alike and compare
/// alike against any flat byte sequence.
pub proof fn lemma_split_agnostic(a: SlicesWrap, b: SlicesWrap, flat: Seq<u8>)
    requires
        a@ == b@,
    ensures
        fnv_hash(a@) == fnv_hash(b@),
        (a@ == flat) == (b@ == flat),
{
}

/// Relies on `Vec::into_boxed_slice`: the same elements, in a boxed slice.
#[verifier::external_body]
fn into_boxed(v: Vec<u8>) -> (r: Box<[u8]>)
    ensures
        r@ == v@,
{
    v.into_boxed_slice()
}

/// A list of byte slices read as the one byte sequence that they make when
/// joined in order. Hashing and comparing go byte by byte, so the way the
/// bytes are split into slices never shows.
pub struct SlicesWrap<'h>(pub &'h [&'h [u8]]);

impl<'h> View for SlicesWrap<'h> {
    type V = Seq<u8>;

    open spec fn view(&self) -> Seq<u8> {
        concat_from(self.0@, 0)
    }
}

/// Walks the bytes of a [`SlicesWrap`] in order, passing over empty slices.
pub struct SlicesWrapIter<'h> {
    slices: &'h [&'h [u8]],
    seg: usize,
    pos: usize,
}

impl<'h> SlicesWrapIter<'h> {
    pub closed spec fn wf(&self) -> bool {
        &&& self.seg <= self.slices@.len()
        &&& self.seg < self.slices@.len() ==> self.pos <= self.slices@[self.seg as int]@.len()
    }
}

impl<'h> View for SlicesWrapIter<'h> {
    type V = Seq<u8>;

    /// The bytes that are still to come.
    closed spec fn view(&self) -> Seq<u8> {
        if self.seg < self.slices@.len() {
            self.slices@[self.seg as int]@.subrange(self.pos as int, self.slices@[self.seg as int]@.len() as int)
                + concat_from(self.slices@, self.seg + 1)
        } else {
            Seq::empty()
        }
    }
}

impl<'h> SlicesWrapIter<'h> {
    /// The next byte, or `None` once every slice is used up.
    pub fn next(&mut self) -> (r: Option<u8>)
        requires
            old(self).wf(),
        ensures
            final(self).wf(),
            old(self)@.len() == 0 ==> r is None && final(self)@ == old(self)@,
            old(self)@.len() > 0 ==> r == Some(old(self)@[0]) && final(self)@ == old(self)@.drop_first(),
    {
        while self.seg < self.slices.len() && self.pos == self.slices[self.seg].len()
            invariant
                self.wf(),
                self@ == old(self)@,
            decreases self.slices@.len() - self.seg,
        {
            let ghost before = self@;
            self.seg = self.seg + 1;
            self.pos = 0;
            proof {
                if self.seg < self.slices@.len() {
                    assert(self.slices@[self.seg as int]@.subrange(0, self.slices@[self.seg as int]@.len() as int)
                        == self.slices@[self.seg as int]@);
                }
                assert(before == concat_from(self.slices@, self.seg as int));
            }
        }
        if self.seg == self.slices.len() {
            None
        } else {
            let b = self.slices[self.seg][self.pos];
            let ghost s = self.slices@[self.seg as int]@;
            proof {
                assert(s.subrange(self.pos as int + 1, s.len() as int) == s.subrange(self.pos as int, s.len() as int).drop_first());
            }
            self.pos = self.pos + 1;
            proof {
                assert(self@ == old(self)@.drop_first());
            }
            Some(b)
        }
    }
}

impl<'h> SlicesWrap<'h> {
    /// An iterator over the joined bytes.
    pub fn iter(&self) -> (r: SlicesWrapIter<'h>)
        ensures
            r.wf(),
            r@ == self@,
    {
        let r = SlicesWrapIter { slices: self.0, seg: 0, pos: 0 };
        proof {
            if self.0@.len() > 0 {
                assert(self.0@[0]@.subrange(0, self.0@[0]@.len() as int) == self.0@[0]@);
            }
        }
        r
    }

    /// The joined bytes in one new allocation of exactly their length.
    pub fn to_vec(&self) -> (r: Vec<u8>)
        ensures
            r@ == self@,
    {
        let mut total: usize = 0;
        let mut i: usize = 0;
        while i < self.0.len()
            invariant
                i <= self.0@.len(),
            decreases self.0@.len() - i,
        {
            total = total.saturating_add(self.0[i].len());
            i += 1;
        }
        let mut out: Vec<u8> = Vec::with_capacity(total);
        let mut it = self.iter();
        loop
            invariant
                it.wf(),
                out@ + it@ == self@,
            decreases it@.len(),
        {
            let ghost rest = it@;
            match it.next() {
                Some(b) => {
                    out.push(b);
                    proof {
                        assert(out@ + it@ == self@) by {
                            assert(rest == seq![b] + it@);
                            assert(out@ + it@ =~= out@.drop_last() + rest);
                        }
                    }
                },
                None => {
                    proof {
                        assert(out@ == self@) by {
                            assert(out@ + it@ =~= out@);
                        }
                    }
                    return out;
                },
            }
        }
    }

    /// The joined bytes as a boxed slice.
    pub fn to_boxed_slice(&self) -> (r: Box<[u8]>)
        ensures
            r@ == self@,
    {
        into_boxed(self.to_vec())
    }

    /// Feeds the joined bytes one at a time into an FNV-1a hash, so the result
    /// depends on the bytes alone and not on how they are split into slices.
    pub fn content_hash(&self) -> (r: u64)
        ensures
            r == fnv_hash(self@),
    {
        let mut h: u64 = FNV_OFFSET;
        let mut it = self.iter();
        let ghost done: Seq<u8> = Seq::empty();
        loop
            invariant
                it.wf(),
                done + it@ == self@,
                h == fnv_hash(done),
            decreases it@.len(),
        {
            let ghost rest = it@;
            match it.next() {
                Some(b) => {
                    proof {
                        let d2 = done.push(b);
                        assert(d2.drop_last() == done);
                        assert(d2 + it@ =~= done + rest);
                        done = d2;
                    }
                    h = (h ^ (b as u64)).wrapping_mul(FNV_PRIME);
                },
                None => {
                    proof {
                        assert(done + it@ =~= done);
                    }
                    return h;
                },
            }
        }
    }

    /// Whether the joined bytes equal `key`, byte for byte; stops at the
    /// first difference and allocates nothing.
    pub fn equivalent(&self, key: &[u8]) -> (r: bool)
        ensures
            r == (self@ == key@),
    {
        let mut it = self.iter();
        let mut i: usize = 0;
        loop
            invariant
                it.wf(),
                i <= key@.len(),
                key@.subrange(0, i as int) + it@ == self@,
            decreases it@.len(),
        {
            let ghost rest = it@;
            match it.next() {
                Some(b) => {
                    if i == key.len() {
                        proof {
                            assert(key@.subrange(0, i as int) =~= key@);
                            assert(self@.len() > key@.len());
                        }
                        return false;
                    }
                    if key[i] != b {
                        proof {
                            assert(self@[i as int] == b);
                        }
                        return false;
                    }
                    proof {
                        assert(key@.subrange(0, i + 1) + it@ =~= key@.subrange(0, i as int) + rest);
                    }
                    i += 1;
                },
                None => {
                    proof {
                        assert(key@.subrange(0, i as int) + it@ =~= key@.subrange(0, i as int));
                        if i < key@.len() {
                            assert(self@.len() < key@.len());
                        } else {
                            assert(key@.subrange(0, i as int) =~= key@);
                        }
                    }
                    return i == key.len();
                },
            }
        }
    }
}

} // verus!
