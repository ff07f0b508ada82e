//! Text-safe envelope for encoded image bytes: standard base64 with `=`
//! padding. The alphabet is computed arithmetically, every output byte is
//! ASCII, and the resulting text is an exact function of the input bytes.

use vstd::prelude::*;

verus! {

/// The base64 alphabet, by 6-bit value: A-Z, a-z, 0-9, '+', '/'.
pub open spec fn b64_digit(v: int) -> u8 {
    if v < 26 {
        (0x41 + v) as u8
    } else if v < 52 {
        (0x61 + v - 26) as u8
    } else if v < 62 {
        (0x30 + v - 52) as u8
    } else if v == 62 {
        0x2B
    } else {
        0x2F
    }
}

/// The four digits of one full three-byte group.
pub open spec fn b64_group(b0: u8, b1: u8, b2: u8) -> Seq<u8> {
    let n = b0 * 0x10000 + b1 * 0x100 + b2;
    seq![
        b64_digit(n / 0x40000),
        b64_digit(n / 0x1000 % 64),
        b64_digit(n / 64 % 64),
        b64_digit(n % 64),
    ]
}

/// Base64 of a byte sequence, groups from the front, padded tail.
pub open spec fn b64_of(s: Seq<u8>) -> Seq<u8>
    decreases s.len(),
{
    if s.len() == 0 {
        Seq::empty()
    } else if s.len() == 1 {
        let n = s[0] * 0x10000;
        seq![b64_digit(n / 0x40000), b64_digit(n / 0x1000 % 64), 0x3Du8, 0x3Du8]
    } else if s.len() == 2 {
        let n = s[0] * 0x10000 + s[1] * 0x100;
        seq![b64_digit(n / 0x40000), b64_digit(n / 0x1000 % 64), b64_digit(n / 64 % 64), 0x3Du8]
    } else {
        b64_group(s[0], s[1], s[2]) + b64_of(s.skip(3))
    }
}

/// Base64 text as characters.
pub open spec fn b64_chars(s: Seq<u8>) -> Seq<char> {
    Seq::new(b64_of(s).len(), |i: int| b64_of(s)[i] as char)
}

/// Base64 output length, and every output byte ASCII.
pub proof fn lemma_b64_props(s: Seq<u8>)
    ensures
        b64_of(s).len() == (s.len() + 2) / 3 * 4,
        forall|i: int| 0 <= i < b64_of(s).len() ==> b64_of(s)[i] < 128,
    decreases s.len(),
{
    if s.len() == 0 || s.len() == 1 || s.len() == 2 {
    } else {
        lemma_b64_props(s.skip(3));
        assert((s.len() + 2) / 3 == 1 + (s.len() - 1) / 3) by {
            vstd::arithmetic::div_mod::lemma_hoist_over_denominator(
                s.len() - 1, 1, 3);
        }
    }
}

/// One 6-bit value to its alphabet byte.
fn b64_byte(v: u8) -> (r: u8)
    requires
        v < 64,
    ensures
        r == b64_digit(v as int),
{
    if v < 26 {
        0x41 + v
    } else if v < 52 {
        0x61 + (v - 26)
    } else if v < 62 {
        0x30 + (v - 52)
    } else if v == 62 {
        0x2B
    } else {
        0x2F
    }
}

/// Relies on std's String::from_utf8: ASCII bytes are valid UTF-8 and decode
/// to the characters of the same scalar values.
#[verifier::external_body]
fn ascii_to_string(v: Vec<u8>) -> (r: String)
    requires
        forall|i: int| 0 <= i < v@.len() ==> v@[i] < 128,
    ensures
        r@ == Seq::new(v@.len(), |i: int| v@[i] as char),
{
    String::from_utf8(v).unwrap_or_default()
}

/// Base64 text of `data`, as a `String`.
#[verifier::rlimit(100)]
pub fn base64_string(data: &Vec<u8>) -> (r: String)
    ensures
        r@ == b64_chars(data@),
        r@.len() == (data@.len() + 2) / 3 * 4,
{
    let n = data.len();
    let mut out: Vec<u8> = Vec::new();
    let mut i: usize = 0;
    proof {
        assert(data@.skip(0) =~= data@);
        assert(out@ + b64_of(data@) =~= b64_of(data@));
    }
    while n - i >= 3
        invariant
            n == data@.len(),
            0 <= i <= n,
            i % 3 == 0,
            out@ + b64_of(data@.skip(i as int)) == b64_of(data@),
        decreases n - i,
    {
        let b0 = data[i];
        let b1 = data[i + 1];
        let b2 = data[i + 2];
        let g: u32 = (b0 as u32) * 0x10000 + (b1 as u32) * 0x100 + (b2 as u32);
        let ghost pre = out@;
        out.push(b64_byte((g / 0x40000) as u8));
        out.push(b64_byte((g / 0x1000 % 64) as u8));
        out.push(b64_byte((g / 64 % 64) as u8));
        out.push(b64_byte((g % 64) as u8));
        proof {
            let rest = data@.skip(i as int);
            assert(rest[0] == b0 && rest[1] == b1 && rest[2] == b2);
            assert(out@ =~= pre + b64_group(b0, b1, b2));
            assert(rest.skip(3) =~= data@.skip(i as int + 3));
            assert(b64_of(rest) == b64_group(b0, b1, b2) + b64_of(data@.skip(i as int + 3)));
            assert(out@ + b64_of(data@.skip(i as int + 3)) =~= b64_of(data@));
            vstd::arithmetic::div_mod::lemma_mod_adds(i as int, 3, 3);
        }
        i = i + 3;
    }
    let rem = n - i;
    if rem == 1 {
        let b0 = data[i];
        let g: u32 = (b0 as u32) * 0x10000;
        let ghost pre = out@;
        out.push(b64_byte((g / 0x40000) as u8));
        out.push(b64_byte((g / 0x1000 % 64) as u8));
        out.push(0x3D);
        out.push(0x3D);
        proof {
            let rest = data@.skip(i as int);
            assert(rest.len() == 1 && rest[0] == b0);
            assert(out@ =~= pre + b64_of(rest));
            assert(out@ =~= b64_of(data@));
        }
    } else if rem == 2 {
        let b0 = data[i];
        let b1 = data[i + 1];
        let g: u32 = (b0 as u32) * 0x10000 + (b1 as u32) * 0x100;
        let ghost pre = out@;
        out.push(b64_byte((g / 0x40000) as u8));
        out.push(b64_byte((g / 0x1000 % 64) as u8));
        out.push(b64_byte((g / 64 % 64) as u8));
        out.push(0x3D);
        proof {
            let rest = data@.skip(i as int);
            assert(rest.len() == 2 && rest[0] == b0 && rest[1] == b1);
            assert(out@ =~= pre + b64_of(rest));
            assert(out@ =~= b64_of(data@));
        }
    } else {
        proof {
            let rest = data@.skip(i as int);
            assert(rest.len() == 0);
            assert(out@ + b64_of(rest) =~= out@);
            assert(out@ =~= b64_of(data@));
        }
    }
    proof {
        lemma_b64_props(data@);
    }
    let r = ascii_to_string(out);
    proof {
        assert(r@ =~= b64_chars(data@));
    }
    r
}

} // verus!
