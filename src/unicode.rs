//! `\uXXXX` escapes: hex digits, surrogate pairs and the encoding of a code
//! point into bytes.
use vstd::prelude::*;

verus! {

/// `b` is an ASCII hex digit.
pub open spec fn is_hex_digit(b: u8) -> bool {
    (0x30 <= b <= 0x39) || (0x41 <= b <= 0x46) || (0x61 <= b <= 0x66)
}

/// Value of a hex digit.
pub open spec fn hex_digit_value(b: u8) -> int {
    if 0x30 <= b <= 0x39 {
        b - 0x30
    } else if 0x41 <= b <= 0x46 {
        b - 0x41 + 10
    } else {
        b - 0x61 + 10
    }
}

/// Four hex digits stand at `p`.
pub open spec fn hex4_ok(s: Seq<u8>, p: int) -> bool {
    0 <= p && p + 4 <= s.len() && is_hex_digit(s[p]) && is_hex_digit(s[p + 1]) && is_hex_digit(
        s[p + 2],
    ) && is_hex_digit(s[p + 3])
}

/// Value of the four hex digits at `p`, most significant first.
pub open spec fn hex4_value(s: Seq<u8>, p: int) -> int {
    hex_digit_value(s[p]) * 4096 + hex_digit_value(s[p + 1]) * 256 + hex_digit_value(s[p + 2]) * 16
        + hex_digit_value(s[p + 3])
}

pub open spec fn is_high_surrogate(c: int) -> bool {
    0xD800 <= c < 0xDC00
}

pub open spec fn is_low_surrogate(c: int) -> bool {
    0xDC00 <= c < 0xE000
}

/// Bytes of source that the `\u` escape whose backslash is at `p` takes:
/// twelve for a surrogate pair, six otherwise.
pub open spec fn unicode_escape_len(s: Seq<u8>, p: int) -> int {
    if hex4_ok(s, p + 2) && is_high_surrogate(hex4_value(s, p + 2)) {
        12
    } else {
        6
    }
}

/// Code point of the `\u` escape whose backslash is at `p`; `None` where the
/// digits are malformed or a surrogate is unpaired.
pub open spec fn unicode_escape_value(s: Seq<u8>, p: int) -> Option<u32> {
    if !hex4_ok(s, p + 2) {
        None
    } else {
        let hi = hex4_value(s, p + 2);
        if is_high_surrogate(hi) {
            if hex4_ok(s, p + 8) && s[p + 6] == 0x5cu8 && s[p + 7] == 0x75u8 && is_low_surrogate(
                hex4_value(s, p + 8),
            ) {
                Some((0x10000 + (hi - 0xD800) * 1024 + (hex4_value(s, p + 8) - 0xDC00)) as u32)
            } else {
                None
            }
        } else if is_low_surrogate(hi) {
            None
        } else {
            Some(hi as u32)
        }
    }
}

/// The bytes that encode code point `c`: one to four of them.
pub open spec fn utf8_encode(c: u32) -> Seq<u8> {
    if c < 0x80 {
        seq![c as u8]
    } else if c < 0x800 {
        seq![(0xC0 + c / 64) as u8, (0x80 + c % 64) as u8]
    } else if c < 0x10000 {
        seq![(0xE0 + c / 4096) as u8, (0x80 + (c / 64) % 64) as u8, (0x80 + c % 64) as u8]
    } else {
        seq![
            (0xF0 + c / 262144) as u8,
            (0x80 + (c / 4096) % 64) as u8,
            (0x80 + (c / 64) % 64) as u8,
            (0x80 + c % 64) as u8,
        ]
    }
}

fn hex_digit(b: u8) -> (r: Option<u32>)
    ensures
        r == (if is_hex_digit(b) { Some(hex_digit_value(b) as u32) } else { None::<u32> }),
{
    if 0x30 <= b && b <= 0x39 {
        Some((b - 0x30) as u32)
    } else if 0x41 <= b && b <= 0x46 {
        Some((b - 0x41 + 10) as u32)
    } else if 0x61 <= b && b <= 0x66 {
        Some((b - 0x61 + 10) as u32)
    } else {
        None
    }
}

/// Reads four hex digits at `p`.
pub fn hex_to_u32(s: &[u8], p: usize) -> (r: Option<u32>)
    ensures
        r == (if hex4_ok(s@, p as int) { Some(hex4_value(s@, p as int) as u32) } else { None::<u32> }),
{
    if p > s.len() || s.len() - p < 4 {
        return None;
    }
    let a = hex_digit(s[p]);
    let b = hex_digit(s[p + 1]);
    let c = hex_digit(s[p + 2]);
    let d = hex_digit(s[p + 3]);
    match (a, b, c, d) {
        (Some(a), Some(b), Some(c), Some(d)) => Some(a * 4096 + b * 256 + c * 16 + d),
        _ => None,
    }
}

/// Decodes the `\u` escape whose backslash is at `p`: its code point and the
/// number of source bytes it takes.
pub fn handle_unicode_codepoint(s: &[u8], p: usize) -> (r: Option<(u32, usize)>)
    requires
        p + 12 <= usize::MAX,
    ensures
        match r {
            Some((c, n)) => unicode_escape_value(s@, p as int) == Some(c) && n == unicode_escape_len(
                s@,
                p as int,
            ),
            None => unicode_escape_value(s@, p as int) is None,
        },
{
    let hi = match hex_to_u32(s, p + 2) {
        Some(v) => v,
        None => return None,
    };
    if 0xD800 <= hi && hi < 0xDC00 {
        let lo = match hex_to_u32(s, p + 8) {
            Some(v) => v,
            None => return None,
        };
        if s[p + 6] == 0x5cu8 && s[p + 7] == 0x75u8 && 0xDC00 <= lo && lo < 0xE000 {
            Some((0x10000 + (hi - 0xD800) * 1024 + (lo - 0xDC00), 12))
        } else {
            None
        }
    } else if 0xDC00 <= hi && hi < 0xE000 {
        None
    } else {
        Some((hi, 6))
    }
}

/// Writes the encoding of `c` into `out` at `at` and returns its length.
pub fn codepoint_to_utf8(c: u32, out: &mut Vec<u8>, at: usize) -> (r: usize)
    requires
        c <= 0x10FFFF,
        at + utf8_encode(c).len() <= old(out)@.len(),
    ensures
        r == utf8_encode(c).len(),
        final(out)@ == old(out)@.subrange(0, at as int) + utf8_encode(c) + old(out)@.subrange(
            at + r,
            old(out)@.len() as int,
        ),
{
    let ghost before = out@;
    let n = out.len();
    assert(at + utf8_encode(c).len() <= n);
    if c < 0x80 {
        assert(utf8_encode(c).len() == 1);
        out[at] = c as u8;
        assert(out@ =~= before.subrange(0, at as int) + utf8_encode(c) + before.subrange(at + 1, before.len() as int));
        1
    } else if c < 0x800 {
        assert(utf8_encode(c).len() == 2);
        out[at] = (0xC0 + c / 64) as u8;
        out[at + 1] = (0x80 + c % 64) as u8;
        assert(out@ =~= before.subrange(0, at as int) + utf8_encode(c) + before.subrange(at + 2, before.len() as int));
        2
    } else if c < 0x10000 {
        assert(utf8_encode(c).len() == 3);
        out[at] = (0xE0 + c / 4096) as u8;
        out[at + 1] = (0x80 + (c / 64) % 64) as u8;
        out[at + 2] = (0x80 + c % 64) as u8;
        assert(out@ =~= before.subrange(0, at as int) + utf8_encode(c) + before.subrange(at + 3, before.len() as int));
        3
    } else {
        assert(utf8_encode(c).len() == 4);
        out[at] = (0xF0 + c / 262144) as u8;
        out[at + 1] = (0x80 + (c / 4096) % 64) as u8;
        out[at + 2] = (0x80 + (c / 64) % 64) as u8;
        out[at + 3] = (0x80 + c % 64) as u8;
        assert(out@ =~= before.subrange(0, at as int) + utf8_encode(c) + before.subrange(at + 4, before.len() as int));
        4
    }
}

} // verus!
