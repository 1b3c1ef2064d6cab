//! Reading a CSS `#rrggbb` colour.

use vstd::prelude::*;

verus! {

/// The value of a hexadecimal digit byte.
pub open spec fn hex_digit_value(b: u8) -> Option<u8> {
    if 0x30 <= b && b <= 0x39 {
        Some((b - 0x30) as u8)
    } else if 0x41 <= b && b <= 0x46 {
        Some((b - 0x41 + 10) as u8)
    } else if 0x61 <= b && b <= 0x66 {
        Some((b - 0x61 + 10) as u8)
    } else {
        None
    }
}

/// What `u8::from_str_radix` gives in base 16 for the two-byte text `a b`,
/// or 0 where it fails: two hex digits, or `+` and one hex digit.
pub open spec fn hex_pair_value(a: u8, b: u8) -> u8 {
    match (hex_digit_value(a), hex_digit_value(b)) {
        (Some(x), Some(y)) => (16 * x + y) as u8,
        (None, Some(y)) => if a == 0x2b { y } else { 0 },
        _ => 0,
    }
}

/// `s` without its leading `#` bytes.
pub open spec fn strip_hashes(s: Seq<u8>) -> Seq<u8>
    decreases s.len(),
{
    if s.len() > 0 && s[0] == 0x23 { strip_hashes(s.drop_first()) } else { s }
}

/// The red, green and blue components of the colour text `hex` (its UTF-8
/// bytes): after the leading `#`s, the first three pairs of bytes read in
/// base 16; all 0 if fewer than six bytes remain.
pub open spec fn color_spec(hex: Seq<u8>) -> (u8, u8, u8) {
    let h = strip_hashes(hex);
    if h.len() >= 6 {
        (hex_pair_value(h[0], h[1]), hex_pair_value(h[2], h[3]), hex_pair_value(h[4], h[5]))
    } else {
        (0, 0, 0)
    }
}

/// A byte that continues a UTF-8 character rather than starting one.
pub open spec fn is_utf8_continuation(b: u8) -> bool {
    0x80 <= b && b <= 0xbf
}

/// The colour text can be cut into its pairs: the cuts after two, four and
/// six bytes fall between characters (slicing a `str` elsewhere panics).
pub open spec fn color_cuts_ok(hex: Seq<u8>) -> bool {
    let h = strip_hashes(hex);
    h.len() >= 6 ==> {
        &&& !is_utf8_continuation(h[2])
        &&& !is_utf8_continuation(h[4])
        &&& (h.len() > 6 ==> !is_utf8_continuation(h[6]))
    }
}

fn hex_digit(b: u8) -> (r: Option<u8>)
    ensures
        r == hex_digit_value(b),
{
    if 0x30 <= b && b <= 0x39 {
        Some(b - 0x30)
    } else if 0x41 <= b && b <= 0x46 {
        Some(b - 0x41 + 10)
    } else if 0x61 <= b && b <= 0x66 {
        Some(b - 0x61 + 10)
    } else {
        None
    }
}

fn hex_pair(a: u8, b: u8) -> (r: u8)
    ensures
        r == hex_pair_value(a, b),
{
    match (hex_digit(a), hex_digit(b)) {
        (Some(x), Some(y)) => 16 * x + y,
        (None, Some(y)) => if a == 0x2b { y } else { 0 },
        _ => 0,
    }
}

/// Where the colour proper starts: after the leading `#`s.
fn hashes_end(hex: &[u8]) -> (i: usize)
    ensures
        i <= hex@.len(),
        strip_hashes(hex@) == hex@.skip(i as int),
{
    let n = hex.len();
    let mut i: usize = 0;
    assert(hex@.skip(0) =~= hex@);
    while i < n && hex[i] == 0x23
        invariant
            i <= n,
            n == hex@.len(),
            strip_hashes(hex@) == strip_hashes(hex@.skip(i as int)),
        decreases n - i,
    {
        assert(hex@.skip(i as int).drop_first() =~= hex@.skip(i + 1));
        i = i + 1;
    }
    i
}

/// Whether the colour text can be cut into pairs without splitting a
/// character (see [`color_cuts_ok`]).
pub fn color_cuts_fit(hex: &[u8]) -> (r: bool)
    ensures
        r == color_cuts_ok(hex@),
{
    let s = hashes_end(hex);
    let n = hex.len();
    if n - s < 6 {
        return true;
    }
    let cont = |b: u8| -> (c: bool)
        ensures
            c == is_utf8_continuation(b),
        { 0x80 <= b && b <= 0xbf };
    !cont(hex[s + 2]) && !cont(hex[s + 4]) && (n - s == 6 || !cont(hex[s + 6]))
}

/// The red, green and blue components of a CSS `#rrggbb` colour given as
/// UTF-8 bytes; 0 for a pair that is not hexadecimal, all 0 for a text that
/// is too short.
pub fn parse_color(hex: &[u8]) -> (r: (u8, u8, u8))
    requires
        color_cuts_ok(hex@),
    ensures
        r == color_spec(hex@),
{
    let s = hashes_end(hex);
    let n = hex.len();
    if n - s >= 6 {
        (hex_pair(hex[s], hex[s + 1]), hex_pair(hex[s + 2], hex[s + 3]), hex_pair(hex[s + 4], hex[s + 5]))
    } else {
        (0, 0, 0)
    }
}

} // verus!

verus! {

/// The byte of the lower-case hexadecimal digit `d < 16`.
pub open spec fn hex_byte(d: u8) -> u8 {
    if d < 10 { (0x30 + d) as u8 } else { (0x61 + d - 10) as u8 }
}

/// The text `#rrggbb` of the colour `(r, g, b)`, in lower-case hexadecimal.
pub open spec fn color_text(r: u8, g: u8, b: u8) -> Seq<u8> {
    seq![0x23u8, hex_byte(r / 16), hex_byte(r % 16), hex_byte(g / 16), hex_byte(g % 16), hex_byte(b / 16), hex_byte(b % 16)]
}

/// Reading a colour gives back its components: for every red, green and
/// blue value, its `#rrggbb` text (with or without the `#`) reads as those
/// three values, in that order.
pub proof fn lemma_color_reads_back(r: u8, g: u8, b: u8)
    ensures
        color_cuts_ok(color_text(r, g, b)),
        color_spec(color_text(r, g, b)) == (r, g, b),
        color_spec(color_text(r, g, b).drop_first()) == (r, g, b),
{
    let t = color_text(r, g, b);
    let h = t.drop_first();
    assert(h[0] != 0x23);
    assert(strip_hashes(h) == h);
    assert(strip_hashes(t) == strip_hashes(t.drop_first()));
    assert(16 * (r / 16) + r % 16 == r);
    assert(16 * (g / 16) + g % 16 == g);
    assert(16 * (b / 16) + b % 16 == b);
}

} // verus!
