//! Incremental conversion for input that arrives in chunks of any size.
use vstd::prelude::*;
use crate::model::{listing, whole_words, partial_word, le_value, word_len};
use crate::words::{word_value, push_hex_line};
use crate::laws::lemma_listing_append;

verus! {

/// Converts a byte stream delivered in pieces. It holds the bytes of the
/// current word until four have arrived, so that where the input was split
/// has no effect on the output.
pub struct Converter {
    pending: Vec<u8>,
}

impl View for Converter {
    type V = Seq<u8>;

    /// The bytes received for a word that is not yet complete.
    closed spec fn view(&self) -> Seq<u8> {
        self.pending@
    }
}

impl Converter {
    /// A converter never holds a complete word.
    pub open spec fn wf(&self) -> bool {
        self@.len() < 4
    }

    /// A converter that has received nothing yet.
    pub fn new() -> (r: Converter)
        ensures
            r.wf(),
            r@ == Seq::<u8>::empty(),
    {
        Converter { pending: Vec::new() }
    }

    /// Takes the next piece of input and appends to `output` the lines of the
    /// words that it completes; the bytes of an unfinished word are kept.
    pub fn feed(&mut self, chunk: &[u8], output: &mut Vec<u8>)
        requires
            old(self).wf(),
        ensures
            final(self).wf(),
            final(self)@ == partial_word(old(self)@ + chunk@),
            final(output)@ == old(output)@ + listing(whole_words(old(self)@ + chunk@)),
    {
        let ghost all = self@ + chunk@;
        let ghost first = self@.len();
        let ghost start = output@;
        proof {
            assert(all.take(first as int) =~= self@);
            assert(whole_words(self@) =~= Seq::<u8>::empty());
            assert(partial_word(self@) =~= self@);
        }
        let mut i: usize = 0;
        while i < chunk.len()
            invariant
                i <= chunk.len(),
                all == old(self)@ + chunk@,
                first == old(self)@.len(),
                self@.len() < 4,
                self@ == partial_word(all.take(first + i)),
                output@ == start + listing(whole_words(all.take(first + i))),
            decreases chunk.len() - i,
        {
            let ghost seen = all.take(first + i);
            let ghost seen2 = all.take(first + i + 1);
            self.pending.push(chunk[i]);
            proof {
                assert(seen2 =~= seen.push(chunk@[i as int]));
            }
            if self.pending.len() == 4 {
                let ghost before = output@;
                let v = word_value(self.pending.as_slice(), 0, 4);
                push_hex_line(output, v);
                proof {
                    let word = self.pending@;
                    assert(seen.len() % 4 == 3);
                    assert(whole_words(seen2) =~= whole_words(seen) + word);
                    assert(word.subrange(0, 4) =~= word);
                    assert(word_len(word) == 4);
                    assert(word.take(4) =~= word);
                    assert(word.skip(4) =~= Seq::<u8>::empty());
                    assert(listing(word) =~= listing(word) + listing(Seq::<u8>::empty()));
                    lemma_listing_append(whole_words(seen), word);
                    assert(partial_word(seen2) =~= Seq::<u8>::empty());
                }
                self.pending.clear();
            } else {
                proof {
                    assert(whole_words(seen2) =~= whole_words(seen));
                    assert(partial_word(seen2) =~= self@);
                }
            }
            i = i + 1;
        }
        proof {
            assert(all.take(first + i) =~= all);
        }
    }

    /// Ends the stream: appends to `output` the line of the unfinished word,
    /// zero-extended on its high-order side, if any bytes of it were received.
    pub fn finish(self, output: &mut Vec<u8>)
        requires
            self.wf(),
        ensures
            final(output)@ == old(output)@ + listing(self@),
    {
        let n = self.pending.len();
        if n > 0 {
            let ghost before = output@;
            let v = word_value(self.pending.as_slice(), 0, n);
            push_hex_line(output, v);
            proof {
                let p = self@;
                assert(p.subrange(0, n as int) =~= p);
                assert(p.take(word_len(p)) =~= p);
                assert(p.skip(word_len(p)) =~= Seq::<u8>::empty());
                assert(listing(p) =~= crate::model::hex_line(le_value(p)) + listing(Seq::<u8>::empty()));
            }
        } else {
            proof {
                assert(output@ =~= output@ + listing(self@));
            }
        }
    }
}

} // verus!
