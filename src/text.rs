//! Lossy UTF-8 decoding: bytes to text, with a replacement character for each
//! byte sequence that is not well-formed.
use vstd::prelude::*;
use vstd::utf8::*;

verus! {

/// The character shown in place of bytes that are not well-formed UTF-8.
pub const REPLACEMENT: char = '\u{FFFD}';

/// Whether `b` can continue a multi-byte sequence.
pub open spec fn is_continuation(b: u8) -> bool {
    0x80 <= b && b <= 0xBF
}

/// The length of the sequence that the lead byte `b` announces; 0 for a byte that
/// cannot begin one.
pub open spec fn lead_width(b: u8) -> nat {
    if b < 0x80 {
        1
    } else if 0xC2 <= b && b <= 0xDF {
        2
    } else if 0xE0 <= b && b <= 0xEF {
        3
    } else if 0xF0 <= b && b <= 0xF4 {
        4
    } else {
        0
    }
}

/// Whether `b1` may follow the lead byte `b0`. The narrower ranges after 0xE0,
/// 0xED, 0xF0 and 0xF4 exclude overlong forms, surrogates and values past U+10FFFF.
pub open spec fn second_byte_ok(b0: u8, b1: u8) -> bool {
    if b0 == 0xE0 {
        0xA0 <= b1 && b1 <= 0xBF
    } else if b0 == 0xED {
        0x80 <= b1 && b1 <= 0x9F
    } else if b0 == 0xF0 {
        0x90 <= b1 && b1 <= 0xBF
    } else if b0 == 0xF4 {
        0x80 <= b1 && b1 <= 0x8F
    } else {
        is_continuation(b1)
    }
}

/// The number of bytes taken by the first unit of `s`: a whole well-formed
/// sequence, or else the longest prefix of one (at least one byte), which is
/// replaced as a single unit.
pub open spec fn unit_len(s: Seq<u8>) -> nat
    recommends
        s.len() > 0,
{
    let w = lead_width(s[0]);
    if w <= 1 {
        1
    } else if s.len() < 2 || !second_byte_ok(s[0], s[1]) {
        1
    } else if w == 2 {
        2
    } else if s.len() < 3 || !is_continuation(s[2]) {
        2
    } else if w == 3 {
        3
    } else if s.len() < 4 || !is_continuation(s[3]) {
        3
    } else {
        4
    }
}

/// Whether the first unit of `s` is a well-formed sequence.
pub open spec fn unit_is_char(s: Seq<u8>) -> bool
    recommends
        s.len() > 0,
{
    lead_width(s[0]) >= 1 && unit_len(s) == lead_width(s[0])
}

/// The scalar value that the first unit of `s` encodes, when it is well-formed.
pub open spec fn unit_value(s: Seq<u8>) -> u32
    recommends
        s.len() > 0,
        unit_is_char(s),
{
    let w = lead_width(s[0]);
    if w == 1 {
        s[0] as u32
    } else if w == 2 {
        ((s[0] - 0xC0) * 64 + (s[1] - 0x80)) as u32
    } else if w == 3 {
        ((s[0] - 0xE0) * 4096 + (s[1] - 0x80) * 64 + (s[2] - 0x80)) as u32
    } else {
        ((s[0] - 0xF0) * 262144 + (s[1] - 0x80) * 4096 + (s[2] - 0x80) * 64 + (s[3]
            - 0x80)) as u32
    }
}

/// The character that the first unit of `s` stands for.
pub open spec fn unit_char(s: Seq<u8>) -> char
    recommends
        s.len() > 0,
{
    if unit_is_char(s) {
        unit_value(s) as char
    } else {
        REPLACEMENT
    }
}

/// The text that `s` decodes to: each unit in turn, well-formed sequences as their
/// character and every other unit as one replacement character.
pub open spec fn lossy_text(s: Seq<u8>) -> Seq<char>
    decreases s.len(),
{
    if s.len() == 0 {
        seq![]
    } else {
        seq![unit_char(s)] + lossy_text(s.subrange(unit_len(s) as int, s.len() as int))
    }
}

/// Whether every unit of `s` is a well-formed sequence.
pub open spec fn well_formed(s: Seq<u8>) -> bool
    decreases s.len(),
{
    s.len() > 0 ==> unit_is_char(s) && well_formed(s.subrange(unit_len(s) as int, s.len() as int))
}

/// Whether `v` is a Unicode scalar value.
pub open spec fn is_scalar_value(v: u32) -> bool {
    v <= 0x10FFFF && !(0xD800 <= v && v <= 0xDFFF)
}

proof fn lemma_unit_len_bounds(s: Seq<u8>)
    requires
        s.len() > 0,
    ensures
        1 <= unit_len(s) <= s.len(),
        unit_len(s) <= 4,
{
}

proof fn lemma_unit_value_scalar(s: Seq<u8>)
    requires
        s.len() > 0,
        unit_is_char(s),
    ensures
        is_scalar_value(unit_value(s)),
{
}

/// Relies on char::from_u32: the character with that value, or none for a value
/// that is not a scalar value.
#[verifier::external_body]
fn char_from_u32(v: u32) -> (r: Option<char>)
    ensures
        r == (if is_scalar_value(v) {
            Some(v as char)
        } else {
            None
        }),
{
    char::from_u32(v)
}

/// Relies on String::push: the character is appended at the end.
#[verifier::external_body]
pub(crate) fn push_char(s: &mut String, c: char)
    ensures
        final(s)@ == old(s)@.push(c),
{
    s.push(c)
}

/// Decodes the first unit of `b[i..]`: its length and its character.
fn decode_unit(b: &[u8], i: usize) -> (r: (usize, char))
    requires
        i < b@.len(),
    ensures
        r.0 as nat == unit_len(b@.subrange(i as int, b@.len() as int)),
        r.1 == unit_char(b@.subrange(i as int, b@.len() as int)),
{
    let ghost s = b@.subrange(i as int, b@.len() as int);
    let n = b.len();
    let b0 = b[i];
    let w: usize = if b0 < 0x80 {
        1
    } else if 0xC2 <= b0 && b0 <= 0xDF {
        2
    } else if 0xE0 <= b0 && b0 <= 0xEF {
        3
    } else if 0xF0 <= b0 && b0 <= 0xF4 {
        4
    } else {
        0
    };
    assert(w as nat == lead_width(s[0]));
    let len: usize = if w <= 1 {
        1
    } else if n - i < 2 || !second_ok(b0, b[i + 1]) {
        1
    } else if w == 2 {
        2
    } else if n - i < 3 || !(0x80 <= b[i + 2] && b[i + 2] <= 0xBF) {
        2
    } else if w == 3 {
        3
    } else if n - i < 4 || !(0x80 <= b[i + 3] && b[i + 3] <= 0xBF) {
        3
    } else {
        4
    };
    assert(len as nat == unit_len(s));
    if w == 0 || len != w {
        return (len, REPLACEMENT);
    }
    let v: u32 = if w == 1 {
        b0 as u32
    } else if w == 2 {
        (b0 as u32 - 0xC0) * 64 + (b[i + 1] as u32 - 0x80)
    } else if w == 3 {
        (b0 as u32 - 0xE0) * 4096 + (b[i + 1] as u32 - 0x80) * 64 + (b[i + 2] as u32 - 0x80)
    } else {
        (b0 as u32 - 0xF0) * 262144 + (b[i + 1] as u32 - 0x80) * 4096 + (b[i + 2] as u32
            - 0x80) * 64 + (b[i + 3] as u32 - 0x80)
    };
    assert(v == unit_value(s));
    proof {
        lemma_unit_value_scalar(s);
    }
    match char_from_u32(v) {
        Some(c) => (len, c),
        None => (len, REPLACEMENT),
    }
}

/// Whether `b1` may follow the lead byte `b0`.
fn second_ok(b0: u8, b1: u8) -> (r: bool)
    ensures
        r == second_byte_ok(b0, b1),
{
    if b0 == 0xE0 {
        0xA0 <= b1 && b1 <= 0xBF
    } else if b0 == 0xED {
        0x80 <= b1 && b1 <= 0x9F
    } else if b0 == 0xF0 {
        0x90 <= b1 && b1 <= 0xBF
    } else if b0 == 0xF4 {
        0x80 <= b1 && b1 <= 0x8F
    } else {
        0x80 <= b1 && b1 <= 0xBF
    }
}

/// Decodes `bytes` as UTF-8 without ever failing: each byte sequence that is not
/// well-formed becomes one replacement character, and decoding goes on after it.
pub fn decode_lossy(bytes: &[u8]) -> (r: String)
    ensures
        r@ == lossy_text(bytes@),
{
    let mut out = String::new();
    let n = bytes.len();
    let mut i: usize = 0;
    proof {
        assert(bytes@.subrange(0, n as int) =~= bytes@);
        assert(out@ + lossy_text(bytes@) =~= lossy_text(bytes@));
    }
    while i < n
        invariant
            i <= n,
            n == bytes@.len(),
            out@ + lossy_text(bytes@.subrange(i as int, n as int)) == lossy_text(bytes@),
        decreases n - i,
    {
        let ghost s = bytes@.subrange(i as int, n as int);
        let (len, c) = decode_unit(bytes, i);
        proof {
            lemma_unit_len_bounds(s);
            assert(s.subrange(len as int, s.len() as int) =~= bytes@.subrange(
                i + len,
                n as int,
            ));
            assert(out@.push(c) + lossy_text(bytes@.subrange(i + len, n as int)) =~= out@
                + lossy_text(s));
        }
        push_char(&mut out, c);
        i = i + len;
    }
    proof {
        assert(out@ + lossy_text(bytes@.subrange(n as int, n as int)) =~= out@);
    }
    out
}

proof fn lemma_bits_width_2(b0: u8, b1: u8)
    requires
        0xC0 <= b0 <= 0xDF,
        0x80 <= b1 <= 0xBF,
    ensures
        ((((b0 & 0x1F) as u32) << 6u32) | ((b1 & 0x3F) as u32)) == ((b0 as u32) - 0xC0u32)
            * 64u32 + ((b1 as u32) - 0x80u32),
{
    assert(((((b0 & 0x1F) as u32) << 6u32) | ((b1 & 0x3F) as u32)) == ((b0 as u32) - 0xC0u32)
        * 64u32 + ((b1 as u32) - 0x80u32)) by (bit_vector)
        requires
            0xC0 <= b0 <= 0xDF,
            0x80 <= b1 <= 0xBF,
    ;
}

proof fn lemma_bits_width_3(b0: u8, b1: u8, b2: u8)
    requires
        0xE0 <= b0 <= 0xEF,
        0x80 <= b1 <= 0xBF,
        0x80 <= b2 <= 0xBF,
    ensures
        ((((b0 & 0x0F) as u32) << 12u32) | (((b1 & 0x3F) as u32) << 6u32) | ((b2 & 0x3F) as u32))
            == ((b0 as u32) - 0xE0u32) * 4096u32 + ((b1 as u32) - 0x80u32) * 64u32 + ((b2 as u32)
            - 0x80u32),
{
    assert(((((b0 & 0x0F) as u32) << 12u32) | (((b1 & 0x3F) as u32) << 6u32) | ((b2 & 0x3F) as u32))
        == ((b0 as u32) - 0xE0u32) * 4096u32 + ((b1 as u32) - 0x80u32) * 64u32 + ((b2 as u32)
        - 0x80u32)) by (bit_vector)
        requires
            0xE0 <= b0 <= 0xEF,
            0x80 <= b1 <= 0xBF,
            0x80 <= b2 <= 0xBF,
    ;
}

proof fn lemma_bits_width_4(b0: u8, b1: u8, b2: u8, b3: u8)
    requires
        0xF0 <= b0 <= 0xF7,
        0x80 <= b1 <= 0xBF,
        0x80 <= b2 <= 0xBF,
        0x80 <= b3 <= 0xBF,
    ensures
        ((((b0 & 0x07) as u32) << 18u32) | (((b1 & 0x3F) as u32) << 12u32) | (((b2 & 0x3F) as u32)
            << 6u32) | ((b3 & 0x3F) as u32)) == ((b0 as u32) - 0xF0u32) * 262144u32 + ((b1 as u32)
            - 0x80u32) * 4096u32 + ((b2 as u32) - 0x80u32) * 64u32 + ((b3 as u32) - 0x80u32),
{
    assert(((((b0 & 0x07) as u32) << 18u32) | (((b1 & 0x3F) as u32) << 12u32) | (((b2 & 0x3F) as u32)
        << 6u32) | ((b3 & 0x3F) as u32)) == ((b0 as u32) - 0xF0u32) * 262144u32 + ((b1 as u32)
        - 0x80u32) * 4096u32 + ((b2 as u32) - 0x80u32) * 64u32 + ((b3 as u32) - 0x80u32))
        by (bit_vector)
        requires
            0xF0 <= b0 <= 0xF7,
            0x80 <= b1 <= 0xBF,
            0x80 <= b2 <= 0xBF,
            0x80 <= b3 <= 0xBF,
    ;
}

/// The first unit of `s` is a well-formed sequence exactly when `s` starts with
/// the UTF-8 encoding of a scalar value, and then both readings agree.
proof fn lemma_first_unit_agrees(s: Seq<u8>)
    requires
        s.len() > 0,
    ensures
        valid_first_scalar(s) <==> unit_is_char(s),
        unit_is_char(s) ==> unit_len(s) == length_of_first_scalar(s) && unit_value(s)
            == decode_first_scalar(s),
{
    let b0 = s[0];
    if b0 < 0x80 {
        assert((b0 & 0x7F) == b0) by (bit_vector)
            requires
                b0 < 0x80,
        ;
    }
    if 0xC0 <= b0 <= 0xDF && s.len() >= 2 && is_continuation(s[1]) {
        lemma_bits_width_2(b0, s[1]);
    }
    if 0xE0 <= b0 <= 0xEF && s.len() >= 3 && is_continuation(s[1]) && is_continuation(s[2]) {
        lemma_bits_width_3(b0, s[1], s[2]);
    }
    if 0xF0 <= b0 <= 0xF7 && s.len() >= 4 && is_continuation(s[1]) && is_continuation(s[2])
        && is_continuation(s[3]) {
        lemma_bits_width_4(b0, s[1], s[2], s[3]);
    }
}

/// Bytes are well-formed in the sense used here exactly when they are valid UTF-8,
/// and then lossy decoding gives their ordinary decoding: no replacement
/// character is added to valid text.
pub proof fn lemma_lossy_of_valid_utf8(s: Seq<u8>)
    ensures
        well_formed(s) <==> valid_utf8(s),
        valid_utf8(s) ==> lossy_text(s) == decode_utf8(s),
    decreases s.len(),
{
    if s.len() > 0 {
        lemma_first_unit_agrees(s);
        lemma_unit_len_bounds(s);
        let rest = s.subrange(unit_len(s) as int, s.len() as int);
        lemma_lossy_of_valid_utf8(rest);
        if unit_is_char(s) {
            assert(pop_first_scalar(s) == rest);
        }
    }
}

/// Bytes that are not valid UTF-8 decode to text that holds a replacement
/// character.
pub proof fn lemma_invalid_utf8_is_marked(s: Seq<u8>)
    requires
        !valid_utf8(s),
    ensures
        lossy_text(s).contains(REPLACEMENT),
    decreases s.len(),
{
    lemma_lossy_of_valid_utf8(s);
    lemma_unit_len_bounds(s);
    let rest = s.subrange(unit_len(s) as int, s.len() as int);
    if unit_is_char(s) {
        lemma_lossy_of_valid_utf8(rest);
        lemma_invalid_utf8_is_marked(rest);
        let k = choose|k: int| 0 <= k < lossy_text(rest).len() && lossy_text(rest)[k] == REPLACEMENT;
        assert(lossy_text(s)[k + 1] == REPLACEMENT);
    } else {
        assert(lossy_text(s)[0] == REPLACEMENT);
    }
}

} // verus!
