//! Properties of the listing, proved over the model.
use vstd::prelude::*;
use crate::model::{
    listing, word_len, streamed, whole_words, partial_word, hex_digits, hex_line, hex_char,
    is_lower_hex, newline, le_value, pow16, hex_value, parse_hex, le_bytes, without_newlines,
    decode_groups,
};

verus! {

/// Listing is compositional at word boundaries: when `a` consists of whole
/// words, the listing of `a + b` is the listing of `a` followed by that of `b`.
pub proof fn lemma_listing_append(a: Seq<u8>, b: Seq<u8>)
    requires
        a.len() % 4 == 0,
    ensures
        listing(a + b) == listing(a) + listing(b),
    decreases a.len(),
{
    if a.len() == 0 {
        assert(a + b =~= b);
        assert(listing(a) + listing(b) =~= listing(b));
    } else {
        let ab = a + b;
        assert(word_len(ab) == 4 && word_len(a) == 4);
        assert(ab.take(4) =~= a.take(4));
        assert(ab.skip(4) =~= a.skip(4) + b);
        lemma_listing_append(a.skip(4), b);
        assert(listing(ab) =~= listing(a) + listing(b));
    }
}

/// Where the input is split does not matter: a converter fed any sequence
/// of chunks and then finished produces the listing of their concatenation,
/// byte for byte what one whole conversion gives.
pub proof fn lemma_chunking_irrelevant(chunks: Seq<Seq<u8>>)
    ensures
        streamed(Seq::empty(), chunks) == listing(chunks.flatten()),
{
    lemma_streamed(Seq::empty(), chunks);
    assert(Seq::<u8>::empty() + chunks.flatten() =~= chunks.flatten());
}

proof fn lemma_streamed(pending: Seq<u8>, chunks: Seq<Seq<u8>>)
    ensures
        streamed(pending, chunks) == listing(pending + chunks.flatten()),
    decreases chunks.len(),
{
    if chunks.len() == 0 {
        assert(pending + chunks.flatten() =~= pending);
    } else {
        let all = pending + chunks[0];
        let rest = chunks.drop_first();
        lemma_streamed(partial_word(all), rest);
        lemma_listing_append(whole_words(all), partial_word(all) + rest.flatten());
        assert(whole_words(all) + (partial_word(all) + rest.flatten()) =~= pending
            + chunks.flatten());
    }
}

proof fn lemma_hex_digits_shape(v: int, n: nat)
    requires
        v >= 0,
    ensures
        hex_digits(v, n).len() == n,
        forall|i: int| 0 <= i < n ==> is_lower_hex(#[trigger] hex_digits(v, n)[i]),
    decreases n,
{
    if n > 0 {
        lemma_hex_digits_shape(v / 16, (n - 1) as nat);
        let d = v % 16;
        assert(is_lower_hex(hex_char(d)));
    }
}

/// Shape of the listing: for `L` input bytes it holds exactly `ceil(L / 4)`
/// lines of nine bytes each, eight lowercase hexadecimal digits and then a
/// line-feed; empty input gives empty output. Every byte is therefore one of
/// `0`..`9`, `a`..`f` or a line-feed.
pub proof fn lemma_listing_shape(b: Seq<u8>)
    ensures
        listing(b).len() == 9 * ((b.len() + 3) / 4),
        forall|i: int|
            0 <= i < listing(b).len() ==> (#[trigger] listing(b)[i] == newline() <==> i % 9 == 8),
        forall|i: int|
            0 <= i < listing(b).len() && i % 9 != 8 ==> is_lower_hex(#[trigger] listing(b)[i]),
        forall|i: int|
            0 <= i < listing(b).len() ==> is_lower_hex(#[trigger] listing(b)[i])
                || listing(b)[i] == newline(),
    decreases b.len(),
{
    if b.len() > 0 {
        let n = word_len(b);
        let rest = b.skip(n);
        let v = le_value(b.take(n));
        lemma_le_value_nonneg(b.take(n));
        lemma_hex_digits_shape(v, 8);
        lemma_listing_shape(rest);
        let line = hex_line(v);
        assert(line.len() == 9);
        assert forall|i: int| 0 <= i < listing(b).len() implies (#[trigger] listing(b)[i]
            == newline() <==> i % 9 == 8) && (i % 9 != 8 ==> is_lower_hex(listing(b)[i])) by {
            if i >= 9 {
                assert(listing(b)[i] == listing(rest)[i - 9]);
                assert((i - 9) % 9 == i % 9);
            } else {
                assert(listing(b)[i] == line[i]);
                if i < 8 {
                    assert(line[i] == hex_digits(v, 8)[i]);
                }
            }
        }
    }
}

proof fn lemma_le_value_nonneg(w: Seq<u8>)
    ensures
        le_value(w) >= 0,
    decreases w.len(),
{
    if w.len() > 0 {
        lemma_le_value_nonneg(w.drop_first());
    }
}

/// The value `le_value` gives for fewer than five bytes fits in 32 bits.
pub(crate) proof fn lemma_le_value_bound(w: Seq<u8>)
    requires
        w.len() <= 4,
    ensures
        0 <= le_value(w) < pow16((2 * w.len()) as nat),
    decreases w.len(),
{
    reveal_with_fuel(pow16, 9);
    if w.len() > 0 {
        lemma_le_value_bound(w.drop_first());
        let r = le_value(w.drop_first());
        let p = pow16((2 * (w.len() - 1)) as nat);
        assert(pow16((2 * w.len()) as nat) == 256 * p);
        assert(w[0] + 256 * r < 256 * p) by (nonlinear_arith)
            requires w[0] < 256, r < p, r >= 0;
    }
}

proof fn lemma_without_newlines_append(a: Seq<u8>, c: Seq<u8>)
    ensures
        without_newlines(a + c) == without_newlines(a) + without_newlines(c),
    decreases a.len(),
{
    if a.len() == 0 {
        assert(a + c =~= c);
    } else {
        assert((a + c).drop_first() =~= a.drop_first() + c);
        lemma_without_newlines_append(a.drop_first(), c);
        assert((a + c)[0] == a[0]);
        if a[0] != newline() {
            assert(seq![a[0]] + (without_newlines(a.drop_first()) + without_newlines(c))
                =~= without_newlines(a) + without_newlines(c));
        }
    }
}

proof fn lemma_without_newlines_digits(s: Seq<u8>)
    requires
        forall|i: int| 0 <= i < s.len() ==> is_lower_hex(#[trigger] s[i]),
    ensures
        without_newlines(s) == s,
    decreases s.len(),
{
    if s.len() > 0 {
        assert(is_lower_hex(s[0]));
        assert forall|i: int| 0 <= i < s.drop_first().len() implies is_lower_hex(
            #[trigger] s.drop_first()[i],
        ) by {
            assert(s.drop_first()[i] == s[i + 1]);
        }
        lemma_without_newlines_digits(s.drop_first());
        assert(seq![s[0]] + s.drop_first() =~= s);
    }
}

proof fn lemma_parse_hex_digits(v: int, n: nat)
    requires
        0 <= v < pow16(n),
    ensures
        parse_hex(hex_digits(v, n)) == v,
    decreases n,
{
    if n > 0 {
        let p = pow16((n - 1) as nat);
        assert(v / 16 < p) by (nonlinear_arith)
            requires v < 16 * p, v >= 0;
        lemma_parse_hex_digits(v / 16, (n - 1) as nat);
        let s = hex_digits(v, n);
        assert(s.drop_last() =~= hex_digits(v / 16, (n - 1) as nat));
        assert(hex_value(hex_char(v % 16)) == v % 16);
    }
}

proof fn lemma_le_bytes_value(w: Seq<u8>)
    ensures
        le_bytes(le_value(w), w.len()) == w,
    decreases w.len(),
{
    if w.len() > 0 {
        let r = le_value(w.drop_first());
        lemma_le_value_nonneg(w.drop_first());
        lemma_le_bytes_value(w.drop_first());
        let x = w[0] as int;
        assert((x + 256 * r) % 256 == x && (x + 256 * r) / 256 == r) by (nonlinear_arith)
            requires 0 <= x < 256, r >= 0;
        assert(seq![w[0]] + w.drop_first() =~= w);
    }
}

/// Reading the listing back: for input made of whole words, removing the
/// line-feeds and decoding each group of eight hexadecimal digits as a
/// little-endian 32-bit value gives back the input bytes exactly.
pub proof fn lemma_listing_decodes(b: Seq<u8>)
    requires
        b.len() % 4 == 0,
    ensures
        decode_groups(without_newlines(listing(b))) == b,
    decreases b.len(),
{
    if b.len() == 0 {
        assert(without_newlines(listing(b)) =~= Seq::<u8>::empty());
    } else {
        let w = b.take(4);
        let rest = b.skip(4);
        let v = le_value(w);
        lemma_le_value_bound(w);
        assert(pow16(8) == 4294967296) by {
            reveal_with_fuel(pow16, 9);
        }
        lemma_hex_digits_shape(v, 8);
        let digits = hex_digits(v, 8);
        lemma_without_newlines_digits(digits);
        lemma_without_newlines_append(digits, seq![newline()]);
        let lf = seq![newline()];
        assert(lf.drop_first() =~= Seq::<u8>::empty());
        assert(lf[0] == newline());
        assert(without_newlines(lf) == without_newlines(lf.drop_first()));
        assert(without_newlines(lf) =~= Seq::<u8>::empty());
        assert(without_newlines(hex_line(v)) =~= digits);
        assert(word_len(b) == 4);
        lemma_without_newlines_append(hex_line(v), listing(rest));
        let d = without_newlines(listing(b));
        assert(d == digits + without_newlines(listing(rest)));
        assert(d.take(8) =~= digits);
        assert(d.skip(8) =~= without_newlines(listing(rest)));
        lemma_parse_hex_digits(v, 8);
        lemma_le_bytes_value(w);
        lemma_listing_decodes(rest);
        assert(w + rest =~= b);
    }
}

proof fn lemma_le_value_zero_extend(p: Seq<u8>, z: nat)
    ensures
        le_value(p + Seq::new(z, |i: int| 0u8)) == le_value(p),
    decreases p.len() + z,
{
    let zeros = Seq::new(z, |i: int| 0u8);
    if p.len() == 0 {
        assert(p + zeros =~= zeros);
        if z > 0 {
            assert(zeros.drop_first() =~= Seq::new((z - 1) as nat, |i: int| 0u8));
            lemma_le_value_zero_extend(p, (z - 1) as nat);
            assert(p + Seq::new((z - 1) as nat, |i: int| 0u8) =~= Seq::new(
                (z - 1) as nat,
                |i: int| 0u8,
            ));
        }
    } else {
        assert((p + zeros).drop_first() =~= p.drop_first() + zeros);
        lemma_le_value_zero_extend(p.drop_first(), z);
    }
}

/// The final partial word: when the input length `L` leaves a remainder
/// `r = L % 4` of one to three bytes, the last line of the listing is the
/// line of the little-endian value of those last `r` bytes followed by
/// `4 - r` zero bytes.
pub proof fn lemma_last_line_padded(b: Seq<u8>)
    requires
        b.len() % 4 != 0,
    ensures
        listing(b).len() >= 9,
        listing(b).subrange(listing(b).len() - 9, listing(b).len() as int) == hex_line(
            le_value(
                b.skip(b.len() - b.len() % 4) + Seq::new((4 - b.len() % 4) as nat, |i: int| 0u8),
            ),
        ),
{
    let whole = whole_words(b);
    let tail = partial_word(b);
    assert(whole + tail =~= b);
    lemma_listing_append(whole, tail);
    assert(word_len(tail) == tail.len());
    assert(tail.take(tail.len() as int) =~= tail);
    assert(tail.skip(tail.len() as int) =~= Seq::<u8>::empty());
    let line = hex_line(le_value(tail));
    assert(listing(tail) =~= line + listing(Seq::<u8>::empty()));
    lemma_le_value_nonneg(tail);
    lemma_hex_digits_shape(le_value(tail), 8);
    let out = listing(b);
    assert(out == listing(whole) + line);
    assert(out.subrange(out.len() - 9, out.len() as int) =~= line);
    lemma_le_value_zero_extend(tail, (4 - b.len() % 4) as nat);
}

} // verus!
