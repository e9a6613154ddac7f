use vstd::prelude::*;
use vstd::utf8::{encode_utf8, is_ascii_chars, is_ascii_chars_encode_utf8};

verus! {

/// The hex digit for a value below sixteen, as an ASCII character.
pub open spec fn hex_digit(n: int, upper: bool) -> char {
    if n < 10 {
        ((n + 48) as u8) as char
    } else if upper {
        ((n + 55) as u8) as char
    } else {
        ((n + 87) as u8) as char
    }
}

/// Two hex digits for each byte, the high half first.
pub open spec fn hex_text(b: Seq<u8>, upper: bool) -> Seq<char>
    decreases b.len(),
{
    if b.len() == 0 {
        Seq::empty()
    } else {
        let last = b.last();
        hex_text(b.drop_last(), upper).push(hex_digit(last as int / 16, upper)).push(hex_digit(last as int % 16, upper))
    }
}

/// Relies on `String::push`: the character is appended at the end.
#[verifier::external_body]
pub(crate) fn push_char(s: &mut String, c: char)
    ensures
        final(s)@ == old(s)@.push(c),
{
    s.push(c)
}

/// Relies on `String::with_capacity`: an empty string with room for `n`
/// bytes; it panics above `isize::MAX` bytes.
#[verifier::external_body]
pub(crate) fn string_with_capacity(n: usize) -> (r: String)
    requires
        n <= isize::MAX as usize,
    ensures
        r@ == Seq::<char>::empty(),
{
    String::with_capacity(n)
}

fn digit(n: u8, upper: bool) -> (c: char)
    requires
        n < 16,
    ensures
        c == hex_digit(n as int, upper),
{
    if n < 10 {
        (n + 48) as char
    } else if upper {
        (n + 55) as char
    } else {
        (n + 87) as char
    }
}

fn encode(bytes: &[u8], upper: bool) -> (r: String)
    ensures
        r@ == hex_text(bytes@, upper),
{
    let cap = if bytes.len() <= (isize::MAX as usize) / 2 {
        bytes.len() * 2
    } else {
        0
    };
    let mut out = string_with_capacity(cap);
    let mut i: usize = 0;
    while i < bytes.len()
        invariant
            i <= bytes@.len(),
            out@ == hex_text(bytes@.subrange(0, i as int), upper),
        decreases bytes@.len() - i,
    {
        let b = bytes[i];
        proof {
            assert(bytes@.subrange(0, i + 1).drop_last() == bytes@.subrange(0, i as int));
        }
        push_char(&mut out, digit(b / 16, upper));
        push_char(&mut out, digit(b % 16, upper));
        i += 1;
    }
    proof {
        assert(bytes@.subrange(0, bytes@.len() as int) == bytes@);
    }
    out
}

/// Encodes bytes as lower-case hex.
pub fn encode_hex(bytes: &[u8]) -> (r: String)
    ensures
        r@ == hex_text(bytes@, false),
{
    encode(bytes, false)
}

/// Encodes bytes as upper-case hex.
pub fn encode_hex_upper(bytes: &[u8]) -> (r: String)
    ensures
        r@ == hex_text(bytes@, true),
{
    encode(bytes, true)
}

/// Why hex text could not be decoded.
#[derive(Clone, Copy, Debug, PartialEq, Eq)]
pub enum DecodeError {
    /// The text has an odd number of characters.
    InvalidLength,
    /// The text holds a character that is no hex digit.
    InvalidChar,
}

/// Whether a byte is a hex digit of either case.
pub open spec fn is_hex_digit(c: u8) -> bool {
    (48 <= c <= 57) || (65 <= c <= 70) || (97 <= c <= 102)
}

/// The value of a hex digit.
pub open spec fn hex_value(c: u8) -> int {
    if 48 <= c <= 57 {
        c - 48
    } else if 65 <= c <= 70 {
        c - 55
    } else {
        c - 87
    }
}

/// The bytes that hex text of even length and only hex digits stands for,
/// two digits per byte, the high half first.
pub open spec fn hex_decoded(t: Seq<u8>) -> Seq<u8> {
    Seq::new(t.len() / 2, |i: int| (16 * hex_value(t[2 * i]) + hex_value(t[2 * i + 1])) as u8)
}

proof fn lemma_hex_text_index(b: Seq<u8>, upper: bool)
    ensures
        hex_text(b, upper).len() == 2 * b.len(),
        forall|i: int|
            0 <= i < b.len() ==> {
                &&& #[trigger] hex_text(b, upper)[2 * i] == hex_digit(b[i] as int / 16, upper)
                &&& hex_text(b, upper)[2 * i + 1] == hex_digit(b[i] as int % 16, upper)
            },
    decreases b.len(),
{
    if b.len() > 0 {
        let p = b.drop_last();
        lemma_hex_text_index(p, upper);
        assert forall|i: int| 0 <= i < b.len() implies {
            &&& #[trigger] hex_text(b, upper)[2 * i] == hex_digit(b[i] as int / 16, upper)
            &&& hex_text(b, upper)[2 * i + 1] == hex_digit(b[i] as int % 16, upper)
        } by {
            if i < p.len() {
                assert(p[i] == b[i]);
                assert(hex_text(p, upper)[2 * i] == hex_digit(p[i] as int / 16, upper));
            }
        }
    }
}

proof fn lemma_digit_round_trip(n: int, upper: bool)
    requires
        0 <= n < 16,
    ensures
        '\0' <= hex_digit(n, upper) <= '\u{7f}',
        is_hex_digit(hex_digit(n, upper) as u8),
        hex_value(hex_digit(n, upper) as u8) == n,
{
}

/// Decoding what encoding gave, as the bytes of its text, gives back the
/// original bytes, in either case.
pub proof fn lemma_hex_round_trip(b: Seq<u8>, upper: bool)
    ensures
        encode_utf8(hex_text(b, upper)).len() % 2 == 0,
        forall|i: int| 0 <= i < encode_utf8(hex_text(b, upper)).len()
            ==> is_hex_digit(#[trigger] encode_utf8(hex_text(b, upper))[i]),
        hex_decoded(encode_utf8(hex_text(b, upper))) == b,
{
    let t = hex_text(b, upper);
    lemma_hex_text_index(b, upper);
    assert forall|k: int| 0 <= k < t.len() implies '\0' <= #[trigger] t[k] <= '\u{7f}' by {
        let i = k / 2;
        if k % 2 == 0 {
            assert(k == 2 * i);
            assert(t[2 * i] == hex_digit(b[i] as int / 16, upper));
            lemma_digit_round_trip(b[i] as int / 16, upper);
        } else {
            assert(k == 2 * i + 1);
            assert(t[2 * i] == hex_digit(b[i] as int / 16, upper));
            assert(t[2 * i + 1] == hex_digit(b[i] as int % 16, upper));
            lemma_digit_round_trip(b[i] as int % 16, upper);
        }
    }
    assert(is_ascii_chars(t));
    is_ascii_chars_encode_utf8(t);
    let e = encode_utf8(t);
    assert forall|i: int| 0 <= i < e.len() implies is_hex_digit(#[trigger] e[i]) by {
        let j = i / 2;
        if i % 2 == 0 {
            assert(i == 2 * j);
            assert(t[2 * j] == hex_digit(b[j] as int / 16, upper));
            lemma_digit_round_trip(b[j] as int / 16, upper);
        } else {
            assert(i == 2 * j + 1);
            assert(t[2 * j] == hex_digit(b[j] as int / 16, upper));
            assert(t[2 * j + 1] == hex_digit(b[j] as int % 16, upper));
            lemma_digit_round_trip(b[j] as int % 16, upper);
        }
        assert(t[i] as u8 == e[i]);
    }
    assert forall|i: int| 0 <= i < b.len() implies #[trigger] hex_decoded(e)[i] == b[i] by {
        lemma_digit_round_trip(b[i] as int / 16, upper);
        lemma_digit_round_trip(b[i] as int % 16, upper);
        assert(t[2 * i] as u8 == e[2 * i]);
        assert(t[2 * i + 1] as u8 == e[2 * i + 1]);
    }
    assert(hex_decoded(e) =~= b);
}

fn digit_value(c: u8) -> (r: Option<u8>)
    ensures
        r is Some <==> is_hex_digit(c),
        r matches Some(v) ==> v as int == hex_value(c) && v < 16,
{
    if 48 <= c && c <= 57 {
        Some(c - 48)
    } else if 65 <= c && c <= 70 {
        Some(c - 55)
    } else if 97 <= c && c <= 102 {
        Some(c - 87)
    } else {
        None
    }
}

/// Decodes hex text of either case into bytes.
pub fn decode_hex(bytes: &[u8]) -> (r: Result<Vec<u8>, DecodeError>)
    ensures
        bytes@.len() % 2 == 1 <==> r == Err::<Vec<u8>, DecodeError>(DecodeError::InvalidLength),
        r == Err::<Vec<u8>, DecodeError>(DecodeError::InvalidChar) <==> (bytes@.len() % 2 == 0 && exists|i: int|
            0 <= i < bytes@.len() && !is_hex_digit(#[trigger] bytes@[i])),
        r matches Ok(v) ==> v@ == hex_decoded(bytes@),
{
    let len = bytes.len();
    if len % 2 != 0 {
        return Err(DecodeError::InvalidLength);
    }
    let mut out: Vec<u8> = Vec::with_capacity(len / 2);
    let mut i: usize = 0;
    while i < len / 2
        invariant
            len == bytes@.len(),
            len % 2 == 0,
            i <= len / 2,
            out@.len() == i,
            forall|j: int| 0 <= j < 2 * i ==> is_hex_digit(#[trigger] bytes@[j]),
            forall|j: int| 0 <= j < i ==> out@[j] == hex_decoded(bytes@)[j],
        decreases len / 2 - i,
    {
        let hi = match digit_value(bytes[2 * i]) {
            Some(v) => v,
            None => {
                return Err(DecodeError::InvalidChar);
            },
        };
        let lo = match digit_value(bytes[2 * i + 1]) {
            Some(v) => v,
            None => {
                return Err(DecodeError::InvalidChar);
            },
        };
        out.push(hi * 16 + lo);
        i += 1;
    }
    proof {
        assert(out@ =~= hex_decoded(bytes@));
    }
    Ok(out)
}

} // verus!
