use vstd::prelude::*;
use vstd::utf8::*;

verus! {

broadcast use vstd::utf8::char_is_scalar;

/// The UTF-8 bytes of one character.
pub open spec fn char_bytes(c: char) -> Seq<u8> {
    encode_utf8(seq![c])
}

proof fn lemma_char_bytes(c: char)
    ensures
        char_bytes(c) == encode_scalar(c as u32),
{
    assert(seq![c].drop_first() =~= Seq::<char>::empty());
    assert(encode_utf8(Seq::<char>::empty()) == Seq::<u8>::empty());
    assert(seq![c][0] == c);
    assert(encode_scalar(c as u32) + Seq::<u8>::empty() == encode_scalar(c as u32));
}

/// Encodes one character as UTF-8.
pub fn encode_char(c: char) -> (r: Vec<u8>)
    ensures
        r@ == char_bytes(c),
        1 <= r@.len() <= 4,
{
    proof {
        lemma_char_bytes(c);
    }
    let v = c as u32;
    let r = if v <= 0x7F {
        vec![(v & 0x7F) as u8]
    } else if v <= 0x7FF {
        vec![0xC0 | ((v >> 6) & 0x1F) as u8, 0x80 | (v & 0x3F) as u8]
    } else if v <= 0xFFFF {
        vec![0xE0 | ((v >> 12) & 0x0F) as u8, 0x80 | ((v >> 6) & 0x3F) as u8, 0x80 | (v & 0x3F) as u8]
    } else {
        vec![
            0xF0 | ((v >> 18) & 0x7) as u8,
            0x80 | ((v >> 12) & 0x3F) as u8,
            0x80 | ((v >> 6) & 0x3F) as u8,
            0x80 | (v & 0x3F) as u8,
        ]
    };
    proof {
        assert(r@ =~= encode_scalar(c as u32));
    }
    r
}

/// Relies on `char::from_u32`: `None` exactly for values that are no Unicode
/// scalar value, else the character with that value.
#[verifier::external_body]
fn char_from_u32(v: u32) -> (r: Option<char>)
    ensures
        r is Some <==> is_scalar(v),
        r matches Some(c) ==> c == v as char,
{
    char::from_u32(v)
}

/// Relies on `std::str::from_utf8`: a string slice over the same bytes
/// exactly when they are valid UTF-8.
#[verifier::external_body]
pub(crate) fn str_from_utf8(b: &[u8]) -> (r: Option<&str>)
    ensures
        r is Some <==> valid_utf8(b@),
        r matches Some(s) ==> s@ == decode_utf8(b@),
{
    std::str::from_utf8(b).ok()
}

proof fn lemma_width_2_bound(b0: u8, b1: u8)
    ensures
        ((((b0 & 0x1F) as u32) << 6) | ((b1 & 0x3f) as u32)) <= 0x7FF,
{
    assert(((((b0 & 0x1F) as u32) << 6) | ((b1 & 0x3f) as u32)) <= 0x7FF) by (bit_vector);
}

proof fn lemma_width_3_bound(b0: u8, b1: u8, b2: u8)
    ensures
        ((((b0 & 0x0F) as u32) << 12) | (((b1 & 0x3f) as u32) << 6) | ((b2 & 0x3f) as u32)) <= 0xFFFF,
{
    assert(((((b0 & 0x0F) as u32) << 12) | (((b1 & 0x3f) as u32) << 6) | ((b2 & 0x3f) as u32))
        <= 0xFFFF) by (bit_vector);
}

/// The first character of valid UTF-8 bytes, and the length of its encoding.
pub fn decode_first(b: &[u8]) -> (r: (char, usize))
    requires
        valid_utf8(b@),
        b@.len() > 0,
    ensures
        r.1 as int == length_of_first_scalar(b@),
        1 <= r.1 <= 4,
        r.1 <= b@.len(),
        char_bytes(r.0) == b@.subrange(0, r.1 as int),
        valid_utf8(b@.subrange(r.1 as int, b@.len() as int)),
        decode_utf8(b@) == seq![r.0] + decode_utf8(b@.subrange(r.1 as int, b@.len() as int)),
{
    let b0 = b[0];
    let (v, n): (u32, usize) = if b0 <= 0x7f {
        assert((b0 & 0x7F) as u32 <= 0x7F) by (bit_vector);
        ((b0 & 0x7F) as u32, 1)
    } else if 0xc0 <= b0 && b0 <= 0xdf {
        proof {
            lemma_width_2_bound(b0, b@[1]);
        }
        ((((b0 & 0x1F) as u32) << 6) | ((b[1] & 0x3f) as u32), 2)
    } else if 0xe0 <= b0 && b0 <= 0xef {
        proof {
            lemma_width_3_bound(b0, b@[1], b@[2]);
        }
        ((((b0 & 0x0F) as u32) << 12) | (((b[1] & 0x3f) as u32) << 6) | ((b[2] & 0x3f) as u32), 3)
    } else {
        (
            (((b0 & 0x07) as u32) << 18) | (((b[1] & 0x3f) as u32) << 12) | (((b[2] & 0x3f) as u32)
                << 6) | ((b[3] & 0x3f) as u32),
            4,
        )
    };
    assert(v == decode_first_scalar(b@));
    let c = match char_from_u32(v) {
        Some(c) => c,
        None => {
            assert(false);
            ' '
        },
    };
    proof {
        decode_utf8_first_scalar(b@);
        lemma_char_bytes(c);
    }
    (c, n)
}

pub open spec fn is_high_surrogate(u: u16) -> bool {
    0xD800 <= u <= 0xDBFF
}

pub open spec fn is_low_surrogate(u: u16) -> bool {
    0xDC00 <= u <= 0xDFFF
}

/// The character of a surrogate pair.
pub open spec fn pair_char(hi: u16, lo: u16) -> char {
    (0x10000 + (hi - 0xD800) * 0x400 + (lo - 0xDC00)) as u32 as char
}

/// Whether the code units are well-formed UTF-16: every high surrogate is
/// followed by a low one, and no low surrogate stands alone.
pub open spec fn valid_utf16(v: Seq<u16>) -> bool
    decreases v.len(),
{
    if v.len() == 0 {
        true
    } else if is_high_surrogate(v[0]) {
        v.len() >= 2 && is_low_surrogate(v[1]) && valid_utf16(v.subrange(2, v.len() as int))
    } else if is_low_surrogate(v[0]) {
        false
    } else {
        valid_utf16(v.subrange(1, v.len() as int))
    }
}

/// The characters of UTF-16 code units, each unpaired surrogate read as
/// U+FFFD; on well-formed input, simply the decoded text.
pub open spec fn decode_utf16_lossy(v: Seq<u16>) -> Seq<char>
    decreases v.len(),
{
    if v.len() == 0 {
        Seq::empty()
    } else if v.len() >= 2 && is_high_surrogate(v[0]) && is_low_surrogate(v[1]) {
        seq![pair_char(v[0], v[1])] + decode_utf16_lossy(v.subrange(2, v.len() as int))
    } else if is_high_surrogate(v[0]) || is_low_surrogate(v[0]) {
        seq!['\u{FFFD}'] + decode_utf16_lossy(v.subrange(1, v.len() as int))
    } else {
        seq![v[0] as u32 as char] + decode_utf16_lossy(v.subrange(1, v.len() as int))
    }
}

/// What `String::from_utf8_lossy` makes of some bytes.
pub uninterp spec fn utf8_lossy(b: Seq<u8>) -> Seq<u8>;

/// Relies on `String::from_utf8_lossy`: valid UTF-8 in any case, each
/// invalid sequence replaced by U+FFFD, and valid input kept as it is.
#[verifier::external_body]
pub(crate) fn lossy_utf8(v: &[u8]) -> (r: Vec<u8>)
    ensures
        r@ == utf8_lossy(v@),
        valid_utf8(r@),
        valid_utf8(v@) ==> r@ == v@,
{
    std::string::String::from_utf8_lossy(v).into_owned().into_bytes()
}

/// Relies on `String::from_utf16`: the UTF-8 bytes of the decoded text,
/// or `None` when the code units are not well-formed UTF-16.
#[verifier::external_body]
pub(crate) fn utf16_to_utf8(v: &[u16]) -> (r: Option<Vec<u8>>)
    ensures
        r is Some <==> valid_utf16(v@),
        r matches Some(b) ==> b@ == encode_utf8(decode_utf16_lossy(v@)),
{
    std::string::String::from_utf16(v).ok().map(|s| s.into_bytes())
}

/// Relies on `String::from_utf16_lossy`: the UTF-8 bytes of the decoded
/// text, each unpaired surrogate replaced by U+FFFD.
#[verifier::external_body]
pub(crate) fn utf16_lossy_to_utf8(v: &[u16]) -> (r: Vec<u8>)
    ensures
        r@ == encode_utf8(decode_utf16_lossy(v@)),
{
    std::string::String::from_utf16_lossy(v).into_bytes()
}

} // verus!
