//! The byte alphabet: every byte value has one base token, and each base
//! token has an end-of-word counterpart 256 above it.
use vstd::prelude::*;

verus! {

/// Number of byte values whose character stands for the byte itself.
pub const PRINTABLE_COUNT: u16 = 188;

/// Offset from a base token to its end-of-word counterpart.
pub const END_OF_WORD_OFFSET: u16 = 256;

/// Bytes that are written as their own Latin-1 character in the vocabulary.
pub open spec fn is_printable(b: u8) -> bool {
    (0x21 <= b && b <= 0x7e) || (0xa1 <= b && b <= 0xac) || 0xae <= b
}

/// The base token of byte `b`: printable bytes first in ascending order,
/// then the remaining bytes in ascending order.
pub open spec fn byte_token(b: u8) -> u16 {
    if 0x21 <= b && b <= 0x7e {
        (b - 0x21) as u16
    } else if 0xa1 <= b && b <= 0xac {
        (b - 0xa1 + 94) as u16
    } else if 0xae <= b {
        (b - 0xae + 106) as u16
    } else if b <= 0x20 {
        (188 + b) as u16
    } else if b <= 0xa0 {
        (188 + 33 + (b - 0x7f)) as u16
    } else {
        255
    }
}

/// The byte whose base token is `t` (for `t < 256`).
pub open spec fn token_byte(t: int) -> u8 {
    if t < 94 {
        (t + 0x21) as u8
    } else if t < 106 {
        (t - 94 + 0xa1) as u8
    } else if t < 188 {
        (t - 106 + 0xae) as u8
    } else if t < 221 {
        (t - 188) as u8
    } else if t < 255 {
        (t - 221 + 0x7f) as u8
    } else {
        0xad
    }
}

/// The code point of the character that names base token `t` in the
/// vocabulary source.
pub open spec fn token_code(t: int) -> u32 {
    if t < 188 {
        token_byte(t) as u32
    } else {
        (256 + (t - 188)) as u32
    }
}

/// The base token named by code point `c`, or -1 when `c` names none.
pub open spec fn code_token(c: u32) -> int {
    if 0x21 <= c && c <= 0x7e {
        c - 0x21
    } else if 0xa1 <= c && c <= 0xac {
        c - 0xa1 + 94
    } else if 0xae <= c && c <= 0xff {
        c - 0xae + 106
    } else if 256 <= c && c < 324 {
        c - 256 + 188
    } else {
        -1
    }
}

/// The end-of-word counterpart of a base token.
pub open spec fn end_of_word(t: u16) -> int {
    t + 256
}

/// Every byte has exactly one base token below 256, distinct bytes have
/// distinct base tokens, and each base token's end-of-word counterpart is
/// 256 above it and is itself no base token.
pub proof fn lemma_byte_alphabet(b: u8, c: u8)
    ensures
        byte_token(b) < 256,
        token_byte(byte_token(b) as int) == b,
        b != c ==> byte_token(b) != byte_token(c),
        256 <= end_of_word(byte_token(b)) < 512,
        end_of_word(byte_token(b)) == byte_token(b) + 256,
{
}

/// Base tokens and the characters naming them correspond one to one.
pub proof fn lemma_token_code(t: int)
    requires
        0 <= t < 256,
    ensures
        code_token(token_code(t)) == t,
        byte_token(token_byte(t)) == t,
{
}

/// Only the character of base token `t` names it.
pub proof fn lemma_code_token_inverse(c: u32, t: int)
    requires
        0 <= t < 256,
        code_token(c) == t,
    ensures
        c == token_code(t),
{
}

/// The byte whose base token is `t`.
pub fn token_byte_exec(t: u16) -> (r: u8)
    requires
        t < 256,
    ensures
        r == token_byte(t as int),
{
    if t < 94 {
        (t + 0x21) as u8
    } else if t < 106 {
        (t - 94 + 0xa1) as u8
    } else if t < 188 {
        (t - 106 + 0xae) as u8
    } else if t < 221 {
        (t - 188) as u8
    } else if t < 255 {
        (t - 221 + 0x7f) as u8
    } else {
        0xad
    }
}

/// The code point of the character that names base token `t`.
pub fn token_code_exec(t: u16) -> (r: u32)
    requires
        t < 256,
    ensures
        r == token_code(t as int),
{
    if t < 188 {
        token_byte_exec(t) as u32
    } else {
        256 + (t - 188) as u32
    }
}

/// Builds the byte table: entry `b` holds the base token of byte `b`.
pub fn byte_table() -> (r: Vec<u16>)
    ensures
        r@.len() == 256,
        forall|b: u8| #[trigger] r@[b as int] == byte_token(b),
{
    let mut table: Vec<u16> = Vec::new();
    let mut i: usize = 0;
    while i < 256
        invariant
            i <= 256,
            table@.len() == i,
            forall|b: u8| b < i ==> #[trigger] table@[b as int] == byte_token(b),
        decreases 256 - i,
    {
        table.push(byte_token_exec(i as u8));
        i = i + 1;
    }
    table
}

/// The base token of one byte.
pub fn byte_token_exec(b: u8) -> (r: u16)
    ensures
        r == byte_token(b),
{
    if 0x21 <= b && b <= 0x7e {
        (b - 0x21) as u16
    } else if 0xa1 <= b && b <= 0xac {
        (b - 0xa1 + 94) as u16
    } else if 0xae <= b {
        (b - 0xae + 106) as u16
    } else if b <= 0x20 {
        188 + b as u16
    } else if b <= 0xa0 {
        188 + 33 + (b - 0x7f) as u16
    } else {
        255
    }
}

} // verus!
