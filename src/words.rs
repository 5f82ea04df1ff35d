//! Executable conversion from bytes to the hexadecimal word listing.
use vstd::prelude::*;
use crate::model::{le_value, hex_line, hex_digits, hex_char, listing, word_len};
use crate::laws::lemma_le_value_bound;

verus! {

/// The little-endian value of the `count` bytes of `bytes` that start at
/// `start`, with missing high-order bytes taken as zero.
pub fn word_value(bytes: &[u8], start: usize, count: usize) -> (r: u32)
    requires
        count <= 4,
        start + count <= bytes@.len(),
    ensures
        r == le_value(bytes@.subrange(start as int, start + count)),
{
    let ghost w = bytes@.subrange(start as int, start + count);
    let mut v: u32 = 0;
    let mut i: usize = count;
    proof {
        assert(w.skip(count as int) =~= Seq::<u8>::empty());
    }
    while i > 0
        invariant
            i <= count,
            count <= 4,
            start + count <= bytes.len(),
            w == bytes@.subrange(start as int, start + count),
            v == le_value(w.skip(i as int)),
        decreases i,
    {
        i = i - 1;
        proof {
            assert(w.skip(i as int).drop_first() =~= w.skip(i + 1));
            lemma_le_value_bound(w.skip(i as int));
            assert(crate::model::pow16((2 * (count - i)) as nat) <= 4294967296) by {
                reveal_with_fuel(crate::model::pow16, 9);
            }
        }
        v = bytes[start + i] as u32 + 256 * v;
    }
    proof {
        assert(w.skip(0) =~= w);
    }
    v
}

/// The ASCII character of the hexadecimal digit `d`.
fn digit_char(d: u32) -> (c: u8)
    requires
        d < 16,
    ensures
        c == hex_char(d as int),
{
    if d < 10 {
        48 + d as u8
    } else {
        87 + d as u8
    }
}

/// Appends one line of the listing for the word value `v`: its eight
/// lowercase hexadecimal digits, most significant first, and a line-feed.
pub fn push_hex_line(out: &mut Vec<u8>, v: u32)
    ensures
        final(out)@ == old(out)@ + hex_line(v as int),
{
    let mut digits: Vec<u8> = vec![0u8; 8];
    let mut x: u32 = v;
    let mut k: usize = 0;
    while k < 8
        invariant
            k <= 8,
            digits@.len() == 8,
            hex_digits(v as int, 8) == hex_digits(x as int, (8 - k) as nat) + digits@.skip(
                8 - k,
            ),
        decreases 8 - k,
    {
        let ghost before = digits@;
        let c = digit_char(x % 16);
        digits.set(7 - k, c);
        proof {
            assert(hex_digits(x as int, (8 - k) as nat) == hex_digits(
                (x / 16) as int,
                (7 - k) as nat,
            ).push(c));
            assert(digits@.skip(7 - k) =~= seq![c] + before.skip(8 - k));
            assert(hex_digits((x / 16) as int, (7 - k) as nat).push(c) + before.skip(8 - k)
                =~= hex_digits((x / 16) as int, (7 - k) as nat) + digits@.skip(7 - k));
        }
        x = x / 16;
        k = k + 1;
    }
    proof {
        assert(digits@.skip(0) =~= digits@);
    }
    let ghost start = out@;
    let mut i: usize = 0;
    while i < 8
        invariant
            i <= 8,
            digits@.len() == 8,
            digits@ == hex_digits(v as int, 8),
            out@ == start + digits@.take(i as int),
        decreases 8 - i,
    {
        out.push(digits[i]);
        proof {
            assert(digits@.take(i + 1) =~= digits@.take(i as int).push(digits@[i as int]));
        }
        i = i + 1;
    }
    out.push(10u8);
    proof {
        assert(digits@.take(8) =~= digits@);
        assert(out@ =~= start + hex_line(v as int));
    }
}

/// Appends to `output` the listing of `input`: one line per group of four
/// bytes read as a little-endian word, a final shorter group zero-extended on
/// its high-order side, and nothing at all for empty input.
pub fn convert(input: &[u8], output: &mut Vec<u8>)
    ensures
        final(output)@ == old(output)@ + listing(input@),
{
    let ghost start = output@;
    let mut pos: usize = 0;
    proof {
        assert(input@.skip(0) =~= input@);
    }
    while pos < input.len()
        invariant
            pos <= input.len(),
            output@ + listing(input@.skip(pos as int)) == start + listing(input@),
        decreases input.len() - pos,
    {
        let ghost rest = input@.skip(pos as int);
        let count: usize = if input.len() - pos < 4 {
            input.len() - pos
        } else {
            4
        };
        let v = word_value(input, pos, count);
        let ghost before = output@;
        push_hex_line(output, v);
        proof {
            assert(count == word_len(rest));
            assert(rest.take(count as int) =~= input@.subrange(pos as int, pos + count));
            assert(rest.skip(count as int) =~= input@.skip(pos + count));
            assert(listing(rest) == hex_line(v as int) + listing(input@.skip(pos + count)));
            assert(before + listing(rest) =~= output@ + listing(input@.skip(pos + count)));
        }
        pos = pos + count;
    }
    proof {
        assert(input@.skip(pos as int) =~= Seq::<u8>::empty());
        assert(output@ =~= output@ + listing(Seq::<u8>::empty()));
    }
}

} // verus!
