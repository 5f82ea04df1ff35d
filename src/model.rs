//! The mathematical model of the listing: what a word is worth, how a value
//! is written in hexadecimal, and what the whole output of a byte sequence is.
use vstd::prelude::*;

verus! {

/// The value of `w` read as an unsigned little-endian integer: the first
/// byte is the least significant one. Missing high-order bytes count as zero,
/// so a short final word reads as if it were padded with zeros.
pub open spec fn le_value(w: Seq<u8>) -> int
    decreases w.len(),
{
    if w.len() == 0 {
        0
    } else {
        w[0] + 256 * le_value(w.drop_first())
    }
}

/// `16` raised to the power `n`.
pub open spec fn pow16(n: nat) -> int
    decreases n,
{
    if n == 0 {
        1
    } else {
        16 * pow16((n - 1) as nat)
    }
}

/// The lowercase ASCII character for a hexadecimal digit `0 <= d < 16`.
pub open spec fn hex_char(d: int) -> u8 {
    if d < 10 {
        (48 + d) as u8
    } else {
        (87 + d) as u8
    }
}

/// Whether `c` is one of `0`..`9`, `a`..`f`.
pub open spec fn is_lower_hex(c: u8) -> bool {
    (48 <= c && c <= 57) || (97 <= c && c <= 102)
}

/// The line-feed byte.
pub open spec fn newline() -> u8 {
    10
}

/// The `n` lowest hexadecimal digits of `v`, most significant first.
pub open spec fn hex_digits(v: int, n: nat) -> Seq<u8>
    decreases n,
{
    if n == 0 {
        Seq::empty()
    } else {
        hex_digits(v / 16, (n - 1) as nat).push(hex_char(v % 16))
    }
}

/// One output line: eight zero-padded lowercase hexadecimal digits of `v`
/// followed by a line-feed.
pub open spec fn hex_line(v: int) -> Seq<u8> {
    hex_digits(v, 8).push(newline())
}

/// Number of bytes that make up the next word of `b`: four, or what is left.
pub open spec fn word_len(b: Seq<u8>) -> int {
    if b.len() < 4 {
        b.len() as int
    } else {
        4
    }
}

/// The complete listing of `b`: one line per word of four bytes, the last
/// word possibly shorter and zero-extended on its high-order side. Empty
/// input gives empty output.
pub open spec fn listing(b: Seq<u8>) -> Seq<u8>
    decreases b.len(),
{
    if b.len() == 0 {
        Seq::empty()
    } else {
        hex_line(le_value(b.take(word_len(b)))) + listing(b.skip(word_len(b)))
    }
}

/// The longest prefix of `b` made of whole words.
pub open spec fn whole_words(b: Seq<u8>) -> Seq<u8> {
    b.take(b.len() - b.len() % 4)
}

/// What is left of `b` after its whole words: fewer than four bytes.
pub open spec fn partial_word(b: Seq<u8>) -> Seq<u8> {
    b.skip(b.len() - b.len() % 4)
}

/// The output of a converter that holds the unfinished word `pending`, is
/// fed `chunks` one after another, and is then finished.
pub open spec fn streamed(pending: Seq<u8>, chunks: Seq<Seq<u8>>) -> Seq<u8>
    decreases chunks.len(),
{
    if chunks.len() == 0 {
        listing(pending)
    } else {
        listing(whole_words(pending + chunks[0])) + streamed(
            partial_word(pending + chunks[0]),
            chunks.drop_first(),
        )
    }
}

/// The digit value of a lowercase hexadecimal character.
pub open spec fn hex_value(c: u8) -> int {
    if c <= 57 {
        c - 48
    } else {
        c - 87
    }
}

/// The number written by the hexadecimal digits `s`, most significant first.
pub open spec fn parse_hex(s: Seq<u8>) -> int
    decreases s.len(),
{
    if s.len() == 0 {
        0
    } else {
        16 * parse_hex(s.drop_last()) + hex_value(s.last())
    }
}

/// The `n` low-order bytes of `v`, least significant first.
pub open spec fn le_bytes(v: int, n: nat) -> Seq<u8>
    decreases n,
{
    if n == 0 {
        Seq::empty()
    } else {
        seq![(v % 256) as u8] + le_bytes(v / 256, (n - 1) as nat)
    }
}

/// `s` with every line-feed removed.
pub open spec fn without_newlines(s: Seq<u8>) -> Seq<u8>
    decreases s.len(),
{
    if s.len() == 0 {
        Seq::empty()
    } else if s[0] == newline() {
        without_newlines(s.drop_first())
    } else {
        seq![s[0]] + without_newlines(s.drop_first())
    }
}

/// Reads `d` as consecutive groups of eight hexadecimal digits and writes
/// out each group's value as four little-endian bytes.
pub open spec fn decode_groups(d: Seq<u8>) -> Seq<u8>
    decreases d.len(),
{
    if d.len() < 8 {
        Seq::empty()
    } else {
        le_bytes(parse_hex(d.take(8)), 4) + decode_groups(d.skip(8))
    }
}

} // verus!
