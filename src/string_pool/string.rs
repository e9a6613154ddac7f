use std::cmp::Ordering;
use vstd::prelude::*;
use vstd::utf8::*;
use super::chars::{
    char_bytes, decode_first, decode_utf16_lossy, encode_char, lossy_utf8, str_from_utf8, utf16_lossy_to_utf8,
    utf16_to_utf8, utf8_lossy, valid_utf16,
};
use super::pool::{concat_from, GlobalPool, Pool, SlicesWrap};

verus! {

broadcast use {valid_utf8_concat, valid_utf8_split, encode_utf8_valid_utf8, is_char_boundary_start_end_of_seq};

/// The error of the checked constructors: the bytes or code units handed in
/// are not valid text.
#[derive(Clone, Copy, Debug, PartialEq, Eq)]
pub struct InvalidEncoding;

proof fn lemma_concat_one(s: Seq<&[u8]>)
    requires
        s.len() == 1,
    ensures
        concat_from(s, 0) == s[0]@,
{
    assert(concat_from(s, 1) == Seq::<u8>::empty());
    assert(s[0]@ + Seq::<u8>::empty() == s[0]@);
}

proof fn lemma_concat_two(s: Seq<&[u8]>)
    requires
        s.len() == 2,
    ensures
        concat_from(s, 0) == s[0]@ + s[1]@,
{
    assert(concat_from(s, 2) == Seq::<u8>::empty());
    assert(concat_from(s, 1) == s[1]@ + concat_from(s, 2));
    assert(s[1]@ + Seq::<u8>::empty() == s[1]@);
    assert(concat_from(s, 0) == s[0]@ + concat_from(s, 1));
}

proof fn lemma_concat_three(s: Seq<&[u8]>)
    requires
        s.len() == 3,
    ensures
        concat_from(s, 0) == s[0]@ + s[1]@ + s[2]@,
{
    assert(concat_from(s, 3) == Seq::<u8>::empty());
    assert(concat_from(s, 2) == s[2]@ + concat_from(s, 3));
    assert(s[2]@ + Seq::<u8>::empty() == s[2]@);
    assert(concat_from(s, 1) == s[1]@ + concat_from(s, 2));
    assert(concat_from(s, 0) == s[0]@ + concat_from(s, 1));
    assert(s[0]@ + (s[1]@ + s[2]@) =~= s[0]@ + s[1]@ + s[2]@);
}

/// Lexicographic order of byte sequences: the first differing byte decides,
/// and a proper prefix comes first.
pub open spec fn bytes_cmp(a: Seq<u8>, b: Seq<u8>) -> Ordering
    decreases a.len(),
{
    if a.len() == 0 {
        if b.len() == 0 {
            Ordering::Equal
        } else {
            Ordering::Less
        }
    } else if b.len() == 0 {
        Ordering::Greater
    } else if a[0] < b[0] {
        Ordering::Less
    } else if a[0] > b[0] {
        Ordering::Greater
    } else {
        bytes_cmp(a.drop_first(), b.drop_first())
    }
}

proof fn lemma_cmp_equal(a: Seq<u8>, b: Seq<u8>)
    ensures
        (bytes_cmp(a, b) == Ordering::Equal) <==> a == b,
    decreases a.len(),
{
    if a.len() > 0 && b.len() > 0 && a[0] == b[0] {
        lemma_cmp_equal(a.drop_first(), b.drop_first());
        if a.drop_first() == b.drop_first() {
            assert(a =~= seq![a[0]] + a.drop_first());
            assert(b =~= seq![b[0]] + b.drop_first());
        }
    } else if a.len() == 0 && b.len() == 0 {
        assert(a =~= b);
    }
}

fn compare_bytes(a: &[u8], b: &[u8]) -> (r: Ordering)
    ensures
        r == bytes_cmp(a@, b@),
{
    let mut i: usize = 0;
    proof {
        assert(a@.skip(0) =~= a@);
        assert(b@.skip(0) =~= b@);
    }
    while i < a.len() && i < b.len()
        invariant
            i <= a@.len(),
            i <= b@.len(),
            bytes_cmp(a@, b@) == bytes_cmp(a@.skip(i as int), b@.skip(i as int)),
        decreases a@.len() - i,
    {
        if a[i] < b[i] {
            return Ordering::Less;
        }
        if a[i] > b[i] {
            return Ordering::Greater;
        }
        proof {
            assert(a@.skip(i as int).drop_first() =~= a@.skip(i + 1));
            assert(b@.skip(i as int).drop_first() =~= b@.skip(i + 1));
        }
        i += 1;
    }
    if i < a.len() {
        Ordering::Greater
    } else if i < b.len() {
        Ordering::Less
    } else {
        Ordering::Equal
    }
}

/// The characters of `chars` whose flag in `keep` is set, in order.
pub open spec fn kept(chars: Seq<char>, keep: Seq<bool>) -> Seq<char>
    decreases chars.len(),
{
    if chars.len() == 0 || keep.len() == 0 {
        Seq::empty()
    } else {
        let rest = kept(chars.drop_last(), keep.drop_last());
        if keep.last() {
            rest.push(chars.last())
        } else {
            rest
        }
    }
}

proof fn lemma_encode_push(s: Seq<char>, c: char)
    ensures
        encode_utf8(s.push(c)) == encode_utf8(s) + char_bytes(c),
    decreases s.len(),
{
    if s.len() == 0 {
        assert(s.push(c) =~= seq![c]);
        assert(encode_utf8(s) == Seq::<u8>::empty());
        assert(encode_utf8(s) + char_bytes(c) =~= char_bytes(c));
    } else {
        lemma_encode_push(s.drop_first(), c);
        assert(s.push(c).drop_first() =~= s.drop_first().push(c));
        assert(s.push(c)[0] == s[0]);
        assert(encode_utf8(s.push(c)) =~= encode_scalar(s[0] as u32) + (encode_utf8(s.drop_first()) + char_bytes(c)));
    }
}

proof fn lemma_concat_push(s: Seq<&[u8]>, x: &[u8], i: int)
    requires
        0 <= i <= s.len(),
    ensures
        concat_from(s.push(x), i) == concat_from(s, i) + x@,
    decreases s.len() - i,
{
    if i == s.len() {
        assert(concat_from(s.push(x), i + 1) == Seq::<u8>::empty());
        assert(concat_from(s, i) == Seq::<u8>::empty());
        assert(concat_from(s.push(x), i) =~= concat_from(s, i) + x@);
    } else {
        lemma_concat_push(s, x, i + 1);
        assert(s.push(x)[i] == s[i]);
        assert(concat_from(s.push(x), i) =~= concat_from(s, i) + x@);
    }
}

/// A string whose bytes are interned by a pool. Every edit computes the new
/// content as a list of slices of the old content and the new text, and has
/// the pool intern it; shared content is never changed in place.
pub struct String<P: Pool = GlobalPool> {
    raw: P::Raw,
    pool: P,
}

impl<P: Pool> View for String<P> {
    type V = Seq<u8>;

    /// The bytes of the string.
    closed spec fn view(&self) -> Seq<u8> {
        P::raw_view(&self.raw)
    }
}

impl<P: Pool> String<P> {
    #[verifier::type_invariant]
    closed spec fn inv(&self) -> bool {
        valid_utf8(P::raw_view(&self.raw))
    }

    /// The pool that interns this string's content.
    pub closed spec fn pool(&self) -> P {
        self.pool
    }

    /// The text of the string.
    pub open spec fn text(&self) -> Seq<char> {
        decode_utf8(self@)
    }

    /// Interns the joined bytes of `parts` in `pool`.
    fn from_parts(parts: &[&[u8]], pool: P) -> (r: Self)
        requires
            valid_utf8(concat_from(parts@, 0)),
        ensures
            r.pool() == pool,
            r@ == concat_from(parts@, 0),
    {
        let raw = pool.raw_from_slices(SlicesWrap(parts));
        String { raw, pool }
    }

    /// Interns the joined bytes of `parts` in this string's pool.
    fn intern_parts(&self, parts: &[&[u8]]) -> (r: P::Raw)
        ensures
            P::raw_view(&r) == concat_from(parts@, 0),
    {
        self.pool.raw_from_slices(SlicesWrap(parts))
    }

    /// An empty string in `pool`.
    pub fn new_in(pool: P) -> (r: Self)
        ensures
            r.pool() == pool,
            r@ == Seq::<u8>::empty(),
    {
        let raw = pool.raw_empty();
        String { raw, pool }
    }

    /// A string holding `s`, in `pool`.
    pub fn from_str_in(s: &str, pool: P) -> (r: Self)
        ensures
            r.pool() == pool,
            r@ == encode_utf8(s@),
    {
        let raw = pool.raw_from_slice(s.as_bytes());
        String { raw, pool }
    }

    /// A string holding `vec`, in `pool`, if it is valid UTF-8.
    pub fn from_utf8_in(vec: Vec<u8>, pool: P) -> (r: Result<Self, InvalidEncoding>)
        ensures
            r matches Ok(s) ==> s.pool() == pool,
            r is Ok <==> valid_utf8(vec@),
            r matches Ok(s) ==> s@ == vec@,
    {
        Self::from_utf8_slice_in(vec.as_slice(), pool)
    }

    /// A string holding `slice`, in `pool`, if it is valid UTF-8.
    pub fn from_utf8_slice_in(slice: &[u8], pool: P) -> (r: Result<Self, InvalidEncoding>)
        ensures
            r matches Ok(s) ==> s.pool() == pool,
            r is Ok <==> valid_utf8(slice@),
            r matches Ok(s) ==> s@ == slice@,
    {
        match str_from_utf8(slice) {
            Some(_) => {
                let raw = pool.raw_from_slice(slice);
                Ok(String { raw, pool })
            },
            None => Err(InvalidEncoding),
        }
    }

    /// A string holding `v`, in `pool`, each invalid sequence replaced by
    /// U+FFFD.
    pub fn from_utf8_lossy_in(v: &[u8], pool: P) -> (r: Self)
        ensures
            r.pool() == pool,
            r@ == utf8_lossy(v@),
            valid_utf8(v@) ==> r@ == v@,
    {
        let bytes = lossy_utf8(v);
        let raw = pool.raw_from_vec(bytes);
        String { raw, pool }
    }

    /// A string holding the text of UTF-16 code units, in `pool`, if they are
    /// well-formed.
    pub fn from_utf16_in(v: &[u16], pool: P) -> (r: Result<Self, InvalidEncoding>)
        ensures
            r matches Ok(s) ==> s.pool() == pool,
            r is Ok <==> valid_utf16(v@),
            r matches Ok(s) ==> s@ == encode_utf8(decode_utf16_lossy(v@)),
    {
        match utf16_to_utf8(v) {
            Some(bytes) => {
                let raw = pool.raw_from_vec(bytes);
                Ok(String { raw, pool })
            },
            None => Err(InvalidEncoding),
        }
    }

    /// A string holding the text of UTF-16 code units, in `pool`, each
    /// unpaired surrogate replaced by U+FFFD.
    pub fn from_utf16_lossy_in(v: &[u16], pool: P) -> (r: Self)
        ensures
            r.pool() == pool,
            r@ == encode_utf8(decode_utf16_lossy(v@)),
    {
        let bytes = utf16_lossy_to_utf8(v);
        let raw = pool.raw_from_vec(bytes);
        String { raw, pool }
    }

    /// A string holding `bytes`, in `pool`; the caller vouches for them.
    pub fn from_utf8_unchecked_in(bytes: Vec<u8>, pool: P) -> (r: Self)
        requires
            valid_utf8(bytes@),
        ensures
            r.pool() == pool,
            r@ == bytes@,
    {
        let raw = pool.raw_from_vec(bytes);
        String { raw, pool }
    }

    /// A string holding `slice`, in `pool`; the caller vouches for it.
    pub fn from_utf8_unchecked_slice_in(slice: &[u8], pool: P) -> (r: Self)
        requires
            valid_utf8(slice@),
        ensures
            r.pool() == pool,
            r@ == slice@,
    {
        let raw = pool.raw_from_slice(slice);
        String { raw, pool }
    }

    /// The same text interned anew in another pool.
    pub fn to_other_pool<P2: Pool>(&self, pool: P2) -> (r: String<P2>)
        ensures
            r.pool() == pool,
            r@ == self@,
    {
        proof {
            use_type_invariant(self);
        }
        let raw = pool.raw_from_slice(self.as_bytes());
        String { raw, pool }
    }

    /// The same text moved into another pool.
    pub fn into_other_pool<P2: Pool>(self, pool: P2) -> (r: String<P2>)
        ensures
            r.pool() == pool,
            r@ == self@,
    {
        proof {
            use_type_invariant(&self);
        }
        let vec = self.pool.raw_into_vec(self.raw);
        let raw = pool.raw_from_vec(vec);
        String { raw, pool }
    }

    /// The same text interned anew in another pool.
    pub fn clone_to<P2: Pool>(&self, pool: P2) -> (r: String<P2>)
        ensures
            r.pool() == pool,
            r@ == self@,
    {
        self.to_other_pool(pool)
    }

    /// The bytes, in a vector of their own.
    pub fn into_bytes(self) -> (r: Vec<u8>)
        ensures
            r@ == self@,
    {
        self.pool.raw_into_vec(self.raw)
    }

    /// The bytes, which are always valid UTF-8.
    pub fn as_bytes(&self) -> (r: &[u8])
        ensures
            r@ == self@,
            valid_utf8(r@),
    {
        proof {
            use_type_invariant(self);
        }
        self.pool.raw_to_slice(&self.raw)
    }

    pub fn as_str(&self) -> (r: &str)
        ensures
            r@ == self.text(),
    {
        proof {
            use_type_invariant(self);
        }
        match str_from_utf8(self.as_bytes()) {
            Some(s) => s,
            None => {
                assert(false);
                ""
            },
        }
    }

    /// The length in bytes.
    pub fn len(&self) -> (r: usize)
        ensures
            r == self@.len(),
    {
        self.as_bytes().len()
    }

    pub fn is_empty(&self) -> (r: bool)
        ensures
            r == (self@.len() == 0),
    {
        self.as_bytes().len() == 0
    }

    /// Appends `string`.
    pub fn push_str(&mut self, string: &str)
        ensures
            final(self).pool() == old(self).pool(),
            final(self)@ == old(self)@ + encode_utf8(string@),
    {
        proof {
            use_type_invariant(&*self);
        }
        let parts: Vec<&[u8]> = vec![self.as_bytes(), string.as_bytes()];
        proof {
            lemma_concat_two(parts@);
        }
        let raw = self.intern_parts(parts.as_slice());
        self.raw = raw;
    }

    /// Appends one character.
    pub fn push(&mut self, ch: char)
        ensures
            final(self).pool() == old(self).pool(),
            final(self)@ == old(self)@ + char_bytes(ch),
    {
        proof {
            use_type_invariant(&*self);
        }
        let encoded = encode_char(ch);
        let parts: Vec<&[u8]> = vec![self.as_bytes(), encoded.as_slice()];
        proof {
            lemma_concat_two(parts@);
        }
        let raw = self.intern_parts(parts.as_slice());
        self.raw = raw;
    }

    /// Inserts `string` at byte offset `i`, which must be a character boundary.
    pub fn insert_str(&mut self, i: usize, string: &str)
        requires
            is_char_boundary(old(self)@, i as int),
        ensures
            final(self).pool() == old(self).pool(),
            final(self)@ == old(self)@.subrange(0, i as int) + encode_utf8(string@) + old(self)@.subrange(
                i as int,
                old(self)@.len() as int,
            ),
    {
        proof {
            use_type_invariant(&*self);
        }
        let bytes = self.as_bytes();
        let parts: Vec<&[u8]> = vec![&bytes[0..i], string.as_bytes(), &bytes[i..bytes.len()]];
        proof {
            lemma_concat_three(parts@);
            valid_utf8_split(bytes@, i as int);
            let pre = bytes@.subrange(0, i as int);
            let post = bytes@.subrange(i as int, bytes@.len() as int);
            encode_utf8_valid_utf8(string@);
            valid_utf8_concat(pre, encode_utf8(string@));
            valid_utf8_concat(pre + encode_utf8(string@), post);
        }
        let raw = self.intern_parts(parts.as_slice());
        self.raw = raw;
    }

    /// Inserts one character at byte offset `i`, which must be a character
    /// boundary.
    pub fn insert(&mut self, i: usize, ch: char)
        requires
            is_char_boundary(old(self)@, i as int),
        ensures
            final(self).pool() == old(self).pool(),
            final(self)@ == old(self)@.subrange(0, i as int) + char_bytes(ch) + old(self)@.subrange(
                i as int,
                old(self)@.len() as int,
            ),
    {
        proof {
            use_type_invariant(&*self);
        }
        let encoded = encode_char(ch);
        let bytes = self.as_bytes();
        let parts: Vec<&[u8]> = vec![&bytes[0..i], encoded.as_slice(), &bytes[i..bytes.len()]];
        proof {
            lemma_concat_three(parts@);
            valid_utf8_split(bytes@, i as int);
            let pre = bytes@.subrange(0, i as int);
            let post = bytes@.subrange(i as int, bytes@.len() as int);
            encode_utf8_valid_utf8(seq![ch]);
            valid_utf8_concat(pre, char_bytes(ch));
            valid_utf8_concat(pre + char_bytes(ch), post);
        }
        let raw = self.intern_parts(parts.as_slice());
        self.raw = raw;
    }

    /// Keeps the first `new_len` bytes; does nothing when `new_len` is not
    /// below the length. A shorter length must be a character boundary.
    pub fn truncate(&mut self, new_len: usize)
        requires
            new_len >= old(self)@.len() || is_char_boundary(old(self)@, new_len as int),
        ensures
            final(self).pool() == old(self).pool(),
            new_len >= old(self)@.len() ==> final(self)@ == old(self)@,
            new_len < old(self)@.len() ==> final(self)@ == old(self)@.subrange(0, new_len as int),
    {
        proof {
            use_type_invariant(&*self);
        }
        if new_len >= self.len() {
            return;
        }
        let bytes = self.as_bytes();
        let parts: Vec<&[u8]> = vec![&bytes[0..new_len]];
        proof {
            lemma_concat_one(parts@);
        }
        let raw = self.intern_parts(parts.as_slice());
        self.raw = raw;
    }

    /// Splits at byte offset `at`, which must be a character boundary: this
    /// string keeps the bytes before it, and the bytes from it on go to a new
    /// string in `pool`.
    pub fn split_off_in<P2: Pool>(&mut self, at: usize, pool: P2) -> (r: String<P2>)
        requires
            is_char_boundary(old(self)@, at as int),
        ensures
            r.pool() == pool,
            final(self).pool() == old(self).pool(),
            final(self)@ == old(self)@.subrange(0, at as int),
            r@ == old(self)@.subrange(at as int, old(self)@.len() as int),
            final(self)@ + r@ == old(self)@,
    {
        proof {
            use_type_invariant(&*self);
        }
        let bytes = self.as_bytes();
        let tail: Vec<&[u8]> = vec![&bytes[at..bytes.len()]];
        proof {
            lemma_concat_one(tail@);
        }
        let other = String::<P2>::from_parts(tail.as_slice(), pool);
        let head: Vec<&[u8]> = vec![&bytes[0..at]];
        proof {
            lemma_concat_one(head@);
        }
        let raw = self.intern_parts(head.as_slice());
        self.raw = raw;
        proof {
            assert(self@ + other@ =~= old(self)@);
        }
        other
    }

    /// Removes the character that starts at byte offset `i`, which must be a
    /// character boundary before the end, and returns it.
    pub fn remove(&mut self, i: usize) -> (ch: char)
        requires
            i < old(self)@.len(),
            is_char_boundary(old(self)@, i as int),
        ensures
            final(self).pool() == old(self).pool(),
            i + char_bytes(ch).len() <= old(self)@.len(),
            char_bytes(ch) == old(self)@.subrange(i as int, i + char_bytes(ch).len()),
            final(self)@ == old(self)@.subrange(0, i as int) + old(self)@.subrange(
                i + char_bytes(ch).len(),
                old(self)@.len() as int,
            ),
    {
        proof {
            use_type_invariant(&*self);
        }
        let bytes = self.as_bytes();
        proof {
            valid_utf8_split(bytes@, i as int);
        }
        let (ch, n) = decode_first(&bytes[i..bytes.len()]);
        let next = i + n;
        let parts: Vec<&[u8]> = vec![&bytes[0..i], &bytes[next..bytes.len()]];
        proof {
            lemma_concat_two(parts@);
            let rest = bytes@.subrange(i as int, bytes@.len() as int);
            assert(rest.subrange(n as int, rest.len() as int) =~= bytes@.subrange(next as int, bytes@.len() as int));
            assert(rest.subrange(0, n as int) =~= bytes@.subrange(i as int, next as int));
        }
        let raw = self.intern_parts(parts.as_slice());
        self.raw = raw;
        ch
    }

    /// Removes the last character and returns it, or `None` when the string
    /// is empty.
    pub fn pop(&mut self) -> (r: Option<char>)
        ensures
            final(self).pool() == old(self).pool(),
            r is None <==> old(self)@.len() == 0,
            r is None ==> final(self)@ == old(self)@,
            r matches Some(c) ==> old(self)@ == final(self)@ + char_bytes(c),
    {
        proof {
            use_type_invariant(&*self);
        }
        let bytes = self.as_bytes();
        if bytes.len() == 0 {
            return None;
        }
        let mut k: usize = bytes.len() - 1;
        while k > 0 && 0x80 <= bytes[k] && bytes[k] <= 0xbf
            invariant
                k < bytes@.len(),
                forall|j: int| k < j < bytes@.len() ==> is_continuation_byte(#[trigger] bytes@[j]),
            decreases k,
        {
            k -= 1;
        }
        proof {
            if k > 0 {
                is_char_boundary_iff_not_is_continuation_byte(bytes@, k as int);
            }
            valid_utf8_split(bytes@, k as int);
        }
        let (c, n) = decode_first(&bytes[k..bytes.len()]);
        proof {
            let suf = bytes@.subrange(k as int, bytes@.len() as int);
            if n < suf.len() {
                let after = suf.subrange(n as int, suf.len() as int);
                assert(after[0] == bytes@[k + n]);
                assert(is_continuation_byte(after[0]));
                assert(valid_first_scalar(after));
            }
            assert(suf.subrange(0, n as int) =~= suf);
            assert(bytes@ =~= bytes@.subrange(0, k as int) + suf);
        }
        let parts: Vec<&[u8]> = vec![&bytes[0..k]];
        proof {
            lemma_concat_one(parts@);
        }
        let raw = self.intern_parts(parts.as_slice());
        self.raw = raw;
        Some(c)
    }

    /// Keeps the characters for which `f` holds and drops the others. The
    /// kept characters are gathered as runs of consecutive bytes, and only
    /// those runs are interned as the new content.
    pub fn retain<F: Fn(char) -> bool>(&mut self, f: F)
        requires
            forall|c: char| f.requires((c,)),
        ensures
            final(self).pool() == old(self).pool(),
            exists|keep: Seq<bool>|
                {
                    &&& keep.len() == decode_utf8(old(self)@).len()
                    &&& forall|j: int| 0 <= j < keep.len() ==> f.ensures((decode_utf8(old(self)@)[j],), #[trigger] keep[j])
                    &&& final(self)@ == encode_utf8(kept(decode_utf8(old(self)@), keep))
                },
    {
        proof {
            use_type_invariant(&*self);
        }
        let bytes = self.as_bytes();
        let len = bytes.len();
        let mut runs: Vec<&[u8]> = Vec::new();
        let mut start: usize = 0;
        let mut in_run = false;
        let mut i: usize = 0;
        let ghost mut done: Seq<char> = Seq::empty();
        let ghost mut keep: Seq<bool> = Seq::empty();
        proof {
            assert(bytes@.subrange(0, len as int) =~= bytes@);
            assert(done + decode_utf8(bytes@) =~= decode_utf8(bytes@));
        }
        while i < len
            invariant
                len == bytes@.len(),
                i <= len,
                valid_utf8(bytes@),
                valid_utf8(bytes@.subrange(i as int, len as int)),
                decode_utf8(bytes@) == done + decode_utf8(bytes@.subrange(i as int, len as int)),
                keep.len() == done.len(),
                forall|j: int| 0 <= j < keep.len() ==> f.ensures((done[j],), #[trigger] keep[j]),
                forall|c: char| f.requires((c,)),
                in_run ==> start <= i && encode_utf8(kept(done, keep)) == concat_from(runs@, 0)
                    + bytes@.subrange(start as int, i as int),
                !in_run ==> encode_utf8(kept(done, keep)) == concat_from(runs@, 0),
            decreases len - i,
        {
            let ghost rest = bytes@.subrange(i as int, len as int);
            let (c, n) = decode_first(&bytes[i..len]);
            let k = f(c);
            let ghost old_runs = runs@;
            if k {
                if !in_run {
                    start = i;
                    in_run = true;
                }
            } else if in_run {
                runs.push(&bytes[start..i]);
                in_run = false;
                proof {
                    lemma_concat_push(old_runs, runs@.last(), 0);
                }
            }
            proof {
                let next = i + n;
                assert(rest.subrange(n as int, rest.len() as int) =~= bytes@.subrange(next, len as int));
                assert(rest.subrange(0, n as int) =~= bytes@.subrange(i as int, next));
                assert(done + (seq![c] + decode_utf8(bytes@.subrange(next, len as int))) =~= done.push(c)
                    + decode_utf8(bytes@.subrange(next, len as int)));
                let d2 = done.push(c);
                let k2 = keep.push(k);
                assert(d2.drop_last() =~= done);
                assert(k2.drop_last() =~= keep);
                if k {
                    lemma_encode_push(kept(done, keep), c);
                    assert(bytes@.subrange(start as int, i as int) + bytes@.subrange(i as int, next) =~= bytes@.subrange(
                        start as int,
                        next,
                    ));
                    assert(concat_from(runs@, 0) + bytes@.subrange(start as int, i as int) + bytes@.subrange(
                        i as int,
                        next,
                    ) =~= concat_from(runs@, 0) + bytes@.subrange(start as int, next));
                    if start == i {
                        assert(bytes@.subrange(start as int, i as int) =~= Seq::<u8>::empty());
                        assert(concat_from(runs@, 0) + Seq::<u8>::empty() =~= concat_from(runs@, 0));
                    }
                }
                assert forall|j: int| 0 <= j < k2.len() implies f.ensures((d2[j],), #[trigger] k2[j]) by {
                    if j < keep.len() {
                        assert(d2[j] == done[j]);
                        assert(k2[j] == keep[j]);
                    }
                }
                done = d2;
                keep = k2;
            }
            i = i + n;
        }
        if in_run {
            let ghost old_runs = runs@;
            runs.push(&bytes[start..len]);
            proof {
                lemma_concat_push(old_runs, runs@.last(), 0);
            }
        }
        proof {
            assert(bytes@.subrange(len as int, len as int) =~= Seq::<u8>::empty());
            assert(decode_utf8(Seq::<u8>::empty()) =~= Seq::<char>::empty());
            assert(done + Seq::<char>::empty() =~= done);
            encode_utf8_valid_utf8(kept(done, keep));
        }
        let raw = self.intern_parts(runs.as_slice());
        self.raw = raw;
    }

    /// Splits at byte offset `at`, which must be a character boundary: this
    /// string keeps the bytes before it, and the bytes from it on go to a new
    /// string in a clone of this string's pool.
    pub fn split_off(&mut self, at: usize) -> (r: Self)
        requires
            is_char_boundary(old(self)@, at as int),
        ensures
            final(self).pool() == old(self).pool(),
            final(self)@ == old(self)@.subrange(0, at as int),
            r@ == old(self)@.subrange(at as int, old(self)@.len() as int),
            final(self)@ + r@ == old(self)@,
    {
        let pool = self.pool.clone();
        self.split_off_in(at, pool)
    }

    /// The text as a boxed string slice.
    pub fn into_boxed_str(self) -> (r: Box<str>)
        ensures
            r@ == self.text(),
    {
        boxed_str(self.as_str())
    }

    /// Empties the string.
    pub fn clear(&mut self)
        ensures
            final(self).pool() == old(self).pool(),
            final(self)@ == Seq::<u8>::empty(),
    {
        self.raw = self.pool.raw_empty();
    }
}

impl<P: Pool> Clone for String<P> {
    /// Another handle to the same content, with a clone of the pool.
    fn clone(&self) -> (r: Self)
        ensures
            r@ == self@,
    {
        proof {
            use_type_invariant(self);
        }
        let raw = self.pool.raw_clone(&self.raw);
        let pool = self.pool.clone();
        String { raw, pool }
    }
}

impl<P: Pool> PartialEq for String<P> {
    /// Equal exactly when the bytes are equal, whatever the pools.
    fn eq(&self, other: &Self) -> (r: bool) {
        let r = compare_bytes(self.as_bytes(), other.as_bytes());
        proof {
            lemma_cmp_equal(self@, other@);
        }
        match r {
            Ordering::Equal => true,
            _ => false,
        }
    }
}

impl<P: Pool> vstd::std_specs::cmp::PartialEqSpecImpl for String<P> {
    open spec fn obeys_eq_spec() -> bool {
        true
    }

    open spec fn eq_spec(&self, other: &String<P>) -> bool {
        self@ == other@
    }
}

impl<P: Pool> Eq for String<P> {
}

impl<P: Pool> PartialOrd for String<P> {
    /// Strings are ordered as their bytes are.
    fn partial_cmp(&self, other: &Self) -> (r: Option<Ordering>) {
        Some(compare_bytes(self.as_bytes(), other.as_bytes()))
    }
}

impl<P: Pool> vstd::std_specs::cmp::PartialOrdSpecImpl for String<P> {
    open spec fn obeys_partial_cmp_spec() -> bool {
        true
    }

    open spec fn partial_cmp_spec(&self, other: &String<P>) -> Option<Ordering> {
        Some(bytes_cmp(self@, other@))
    }
}

impl<P: Pool> std::ops::Deref for String<P> {
    type Target = str;

    fn deref(&self) -> &str {
        self.as_str()
    }
}

impl<P: Pool> AsRef<[u8]> for String<P> {
    fn as_ref(&self) -> &[u8] {
        self.as_bytes()
    }
}

impl<P: Pool> AsRef<str> for String<P> {
    fn as_ref(&self) -> &str {
        self.as_str()
    }
}

impl<P: Pool> std::borrow::Borrow<str> for String<P> {
    fn borrow(&self) -> &str {
        self.as_str()
    }
}

impl<P: Pool> std::ops::AddAssign<&str> for String<P> {
    fn add_assign(&mut self, rhs: &str) {
        self.push_str(rhs);
    }
}

impl<P: Pool, P2: Pool> std::ops::AddAssign<&String<P2>> for String<P> {
    fn add_assign(&mut self, rhs: &String<P2>) {
        self.push_str(rhs.as_str());
    }
}

impl<P: Pool + Default> Default for String<P> {
    /// An empty string in a default pool.
    fn default() -> (r: Self)
        ensures
            r@ == Seq::<u8>::empty(),
    {
        Self::new_in(P::default())
    }
}

impl<P: Pool> std::ops::Add<&str> for String<P> {
    type Output = String<P>;

    /// This string with `rhs` appended, in the same pool.
    fn add(self, rhs: &str) -> (r: String<P>)
        ensures
            r@ == self@ + encode_utf8(rhs@),
            r.pool() == self.pool(),
    {
        let mut s = self;
        s.push_str(rhs);
        s
    }
}

impl<P: Pool> vstd::std_specs::ops::AddSpecImpl<&str> for String<P> {
    /// The result is described by the `ensures` of `add`, not by a spec value.
    open spec fn obeys_add_spec() -> bool {
        false
    }

    open spec fn add_req(self, rhs: &str) -> bool {
        true
    }

    open spec fn add_spec(self, rhs: &str) -> String<P> {
        arbitrary()
    }
}

impl<'a, P: Pool> std::ops::Add<&str> for &'a String<P> {
    type Output = String<P>;

    /// A new string holding this string's bytes followed by `rhs`, interned
    /// in a clone of this string's pool.
    fn add(self, rhs: &str) -> (r: String<P>)
        ensures
            r@ == self@ + encode_utf8(rhs@),
    {
        proof {
            use_type_invariant(self);
        }
        let parts: Vec<&[u8]> = vec![self.as_bytes(), rhs.as_bytes()];
        proof {
            lemma_concat_two(parts@);
        }
        String::<P>::from_parts(parts.as_slice(), self.pool.clone())
    }
}

impl<'a, P: Pool> vstd::std_specs::ops::AddSpecImpl<&str> for &'a String<P> {
    /// The result is described by the `ensures` of `add`, not by a spec value.
    open spec fn obeys_add_spec() -> bool {
        false
    }

    open spec fn add_req(self, rhs: &str) -> bool {
        true
    }

    open spec fn add_spec(self, rhs: &str) -> String<P> {
        arbitrary()
    }
}

impl<P: Pool> From<(&str, P)> for String<P> {
    /// A string holding the text, in the pool given with it.
    fn from(v: (&str, P)) -> (r: String<P>)
        ensures
            r@ == encode_utf8(v.0@),
            r.pool() == v.1,
    {
        let (s, pool) = v;
        Self::from_str_in(s, pool)
    }
}

impl<P: Pool> vstd::std_specs::convert::FromSpecImpl<(&str, P)> for String<P> {
    /// The result is described by the `ensures` of `from`, not by a spec value.
    open spec fn obeys_from_spec() -> bool {
        false
    }

    open spec fn from_spec(v: (&str, P)) -> String<P> {
        arbitrary()
    }
}

impl From<&str> for String {
    /// A string holding the text, in a new pool of its own.
    fn from(s: &str) -> (r: String)
        ensures
            r@ == encode_utf8(s@),
    {
        Self::from_str_in(s, GlobalPool::new())
    }
}

impl vstd::std_specs::convert::FromSpecImpl<&str> for String {
    /// The result is described by the `ensures` of `from`, not by a spec value.
    open spec fn obeys_from_spec() -> bool {
        false
    }

    open spec fn from_spec(v: &str) -> String {
        arbitrary()
    }
}

/// Relies on `Box::<str>::from`: a boxed copy of the same text.
#[verifier::external_body]
fn boxed_str(s: &str) -> (r: Box<str>)
    ensures
        r@ == s@,
{
    Box::from(s)
}

/// Constructors in a new pool. Each of them starts a set of its own, so
/// strings made by two of these calls share no content; to deduplicate
/// across strings, make them with the `_in` constructors and clones of one
/// pool.
impl String {
    /// An empty string in a new `GlobalPool` of its own.
    pub fn new() -> (r: Self)
        ensures
            r@ == Seq::<u8>::empty(),
    {
        Self::new_in(GlobalPool::new())
    }

    /// A string holding `vec`, if it is valid UTF-8, in a new `GlobalPool` of
    /// its own.
    pub fn from_utf8(vec: Vec<u8>) -> (r: Result<Self, InvalidEncoding>)
        ensures
            r is Ok <==> valid_utf8(vec@),
            r matches Ok(s) ==> s@ == vec@,
    {
        Self::from_utf8_in(vec, GlobalPool::new())
    }

    /// A string holding `slice`, if it is valid UTF-8, in a new `GlobalPool`
    /// of its own.
    pub fn from_utf8_slice(slice: &[u8]) -> (r: Result<Self, InvalidEncoding>)
        ensures
            r is Ok <==> valid_utf8(slice@),
            r matches Ok(s) ==> s@ == slice@,
    {
        Self::from_utf8_slice_in(slice, GlobalPool::new())
    }

    /// A string holding `v`, each invalid sequence replaced by U+FFFD, in a
    /// new `GlobalPool` of its own.
    pub fn from_utf8_lossy(v: &[u8]) -> (r: Self)
        ensures
            r@ == utf8_lossy(v@),
            valid_utf8(v@) ==> r@ == v@,
    {
        Self::from_utf8_lossy_in(v, GlobalPool::new())
    }

    /// A string holding the text of UTF-16 code units, if they are
    /// well-formed, in a new `GlobalPool` of its own.
    pub fn from_utf16(v: &[u16]) -> (r: Result<Self, InvalidEncoding>)
        ensures
            r is Ok <==> valid_utf16(v@),
            r matches Ok(s) ==> s@ == encode_utf8(decode_utf16_lossy(v@)),
    {
        Self::from_utf16_in(v, GlobalPool::new())
    }

    /// A string holding the text of UTF-16 code units, each unpaired
    /// surrogate replaced by U+FFFD, in a new `GlobalPool` of its own.
    pub fn from_utf16_lossy(v: &[u16]) -> (r: Self)
        ensures
            r@ == encode_utf8(decode_utf16_lossy(v@)),
    {
        Self::from_utf16_lossy_in(v, GlobalPool::new())
    }

    /// A string holding `bytes`, in a new `GlobalPool` of its own; the
    /// caller vouches that they are valid UTF-8.
    pub fn from_utf8_unchecked(bytes: Vec<u8>) -> (r: Self)
        requires
            valid_utf8(bytes@),
        ensures
            r@ == bytes@,
    {
        Self::from_utf8_unchecked_in(bytes, GlobalPool::new())
    }

    /// A string holding `slice`, in a new `GlobalPool` of its own; the caller
    /// vouches that it is valid UTF-8.
    pub fn from_utf8_unchecked_slice(slice: &[u8]) -> (r: Self)
        requires
            valid_utf8(slice@),
        ensures
            r@ == slice@,
    {
        Self::from_utf8_unchecked_slice_in(slice, GlobalPool::new())
    }
}

} // verus!
