use vstd::prelude::*;
use crate::encoding_utils::ChunkedSlice;
use crate::hex::{push_char, string_with_capacity};

verus! {

/// Bytes per frame of input.
pub const BINARY_FRAME_LEN: usize = 5;

/// Characters per frame of output.
pub const STRING_FRAME_LEN: usize = 8;

/// The symbol for a five-bit value: `A`-`Z` then `2`-`7`, or with the
/// extended hex alphabet `0`-`9` then `A`-`V`.
pub open spec fn symbol(v: int, hex_alphabet: bool) -> char {
    if hex_alphabet {
        if v < 10 {
            ((v + 48) as u8) as char
        } else {
            ((v + 55) as u8) as char
        }
    } else {
        if v < 26 {
            ((v + 65) as u8) as char
        } else {
            ((v + 24) as u8) as char
        }
    }
}

/// Thirty-two to the power `n`.
pub open spec fn pow32(n: nat) -> int
    decreases n,
{
    if n == 0 {
        1
    } else {
        32 * pow32((n - 1) as nat)
    }
}

proof fn lemma_pow32_positive(n: nat)
    ensures
        pow32(n) >= 1,
    decreases n,
{
    if n > 0 {
        lemma_pow32_positive((n - 1) as nat);
    }
}

/// Byte `i` of a frame, with missing bytes read as zero.
pub open spec fn frame_byte(f: Seq<u8>, i: int) -> int {
    if i < f.len() {
        f[i] as int
    } else {
        0
    }
}

/// The forty bits of a frame as one number, the first byte highest.
pub open spec fn frame_value(f: Seq<u8>) -> int {
    (((frame_byte(f, 0) * 256 + frame_byte(f, 1)) * 256 + frame_byte(f, 2)) * 256 + frame_byte(f, 3))
        * 256 + frame_byte(f, 4)
}

/// How many of the eight characters of a frame of `n` bytes carry bits;
/// the rest are `=`.
pub open spec fn significant(n: int) -> int {
    if n == 1 {
        2
    } else if n == 2 {
        4
    } else if n == 3 {
        5
    } else if n == 4 {
        7
    } else {
        8
    }
}

/// The eight characters for a frame of one to five bytes.
pub open spec fn frame_text(f: Seq<u8>, hex_alphabet: bool) -> Seq<char> {
    Seq::new(
        8,
        |k: int|
            if k < significant(f.len() as int) {
                symbol((frame_value(f) / pow32((7 - k) as nat)) % 32, hex_alphabet)
            } else {
                '='
            },
    )
}

/// The text of the first `n` whole frames of `b`.
pub open spec fn full_frames(b: Seq<u8>, n: nat, hex_alphabet: bool) -> Seq<char>
    decreases n,
{
    if n == 0 {
        Seq::empty()
    } else {
        full_frames(b, (n - 1) as nat, hex_alphabet) + frame_text(
            b.subrange(5 * (n - 1), 5 * n as int),
            hex_alphabet,
        )
    }
}

/// Base32 of `b` as RFC 4648 gives it: whole frames, then the last partial
/// frame padded with `=`.
pub open spec fn base32_text(b: Seq<u8>, hex_alphabet: bool) -> Seq<char> {
    let n = b.len() / 5;
    if b.len() % 5 == 0 {
        full_frames(b, n, hex_alphabet)
    } else {
        full_frames(b, n, hex_alphabet) + frame_text(b.subrange(5 * n as int, b.len() as int), hex_alphabet)
    }
}

fn symbol_of(v: u64, hex_alphabet: bool) -> (c: char)
    requires
        v < 32,
    ensures
        c == symbol(v as int, hex_alphabet),
{
    let v = v as u8;
    if hex_alphabet {
        if v < 10 {
            (v + 48) as char
        } else {
            (v + 55) as char
        }
    } else {
        if v < 26 {
            (v + 65) as char
        } else {
            (v + 24) as char
        }
    }
}

fn frame_byte_at(frame: &[u8], i: usize) -> (r: u64)
    ensures
        r as int == frame_byte(frame@, i as int),
        r < 256,
{
    if i < frame.len() {
        frame[i] as u64
    } else {
        0
    }
}

/// Appends the eight characters of a frame of one to five bytes.
fn encode_frame(frame: &[u8], hex_alphabet: bool, out: &mut String)
    requires
        1 <= frame@.len() <= 5,
    ensures
        final(out)@ == old(out)@ + frame_text(frame@, hex_alphabet),
{
    let ghost f = frame@;
    let b0 = frame_byte_at(frame, 0);
    let b1 = frame_byte_at(frame, 1);
    let b2 = frame_byte_at(frame, 2);
    let b3 = frame_byte_at(frame, 3);
    let b4 = frame_byte_at(frame, 4);
    assert(((((b0 * 256 + b1) * 256 + b2) * 256 + b3) * 256 + b4) < 0x10000000000) by (nonlinear_arith)
        requires
            b0 < 256,
            b1 < 256,
            b2 < 256,
            b3 < 256,
            b4 < 256,
    ;
    let value: u64 = (((b0 * 256 + b1) * 256 + b2) * 256 + b3) * 256 + b4;
    let ghost before = out@;
    let n = frame.len();
    let shown: usize = if n == 1 {
        2
    } else if n == 2 {
        4
    } else if n == 3 {
        5
    } else if n == 4 {
        7
    } else {
        8
    };
    let mut divisor: u64 = 34359738368;
    assert(pow32(7) == 34359738368) by {
        reveal_with_fuel(pow32, 8);
    }
    let mut k: usize = 0;
    while k < 8
        invariant
            k <= 8,
            f == frame@,
            value as int == frame_value(f),
            shown as int == significant(f.len() as int),
            k < 8 ==> divisor as int == pow32((7 - k) as nat),
            out@ == before + frame_text(f, hex_alphabet).subrange(0, k as int),
        decreases 8 - k,
    {
        proof {
            lemma_pow32_positive((7 - k) as nat);
        }
        if k < shown {
            push_char(out, symbol_of((value / divisor) % 32, hex_alphabet));
        } else {
            push_char(out, '=');
        }
        proof {
            if k < 7 {
                assert(pow32((7 - k) as nat) == 32 * pow32((6 - k) as nat));
            }
        }
        divisor = divisor / 32;
        k += 1;
    }
}

fn encode(bytes: &[u8], hex_alphabet: bool) -> (r: String)
    ensures
        r@ == base32_text(bytes@, hex_alphabet),
{
    let len = bytes.len();
    let frames = len / BINARY_FRAME_LEN;
    let frames_out = if len % BINARY_FRAME_LEN == 0 {
        frames
    } else {
        frames + 1
    };
    let cap = if frames_out <= (isize::MAX as usize) / STRING_FRAME_LEN {
        frames_out * STRING_FRAME_LEN
    } else {
        0
    };
    let mut out = string_with_capacity(cap);
    let mut chunks = ChunkedSlice::<BINARY_FRAME_LEN>::new(bytes);
    let mut f: usize = 0;
    while chunks.has_frame()
        invariant
            len == bytes@.len(),
            5 * f <= len,
            chunks@ == bytes@.subrange(5 * f as int, len as int),
            out@ == full_frames(bytes@, f as nat, hex_alphabet),
        decreases chunks@.len(),
    {
        let frame = chunks.next_frame();
        proof {
            assert(frame@ == bytes@.subrange(5 * f as int, 5 * (f + 1) as int));
            assert(chunks@ =~= bytes@.subrange(5 * (f + 1) as int, len as int));
        }
        encode_frame(frame, hex_alphabet, &mut out);
        f += 1;
    }
    let rest = chunks.remainder();
    proof {
        assert(f == len / 5);
    }
    if rest.len() > 0 {
        encode_frame(rest, hex_alphabet, &mut out);
    }
    out
}

/// Encodes bytes as base32 with the standard alphabet and `=` padding.
pub fn encode_base32(bytes: &[u8]) -> (r: String)
    ensures
        r@ == base32_text(bytes@, false),
{
    encode(bytes, false)
}

/// Encodes bytes as base32 with the extended hex alphabet and `=` padding.
pub fn encode_base32hex(bytes: &[u8]) -> (r: String)
    ensures
        r@ == base32_text(bytes@, true),
{
    encode(bytes, true)
}

} // verus!
