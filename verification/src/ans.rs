//! Entropy-coded delta codec: deltas quantized to signed bytes are fed
//! to a table-driven entropy coder whose model is built from an explicit
//! frequency histogram; the histogram travels inside the blob, since the
//! stream cannot be decoded without it.
//!
//! Blob layout (little-endian): `n_vectors: u32`, `dim: u32`, the anchor's
//! `dim` words, `histogram_size: u32`, that many `(symbol: i8, count: u32)`
//! pairs, `payload_length: u32`, then that many bytes of coded words.

use vstd::prelude::*;
use vstd::bytes::*;
use crate::wire::{words_le, le_words, push_words, read_words, push_u32_le, read_u32_le,
    syms_shifted, bytes_unshifted, push_syms_shifted, unshift_prefix, lemma_unshift_shift,
    lemma_le_words_of_words_le};
use crate::histogram::{counts_seq, probs_of, build_counts, sum_counts, compute_probs,
    hist_entries, entries_bytes, push_hist, read_hist, lemma_counts_total, lemma_probs_valid,
    lemma_hist_round_trip, lemma_entries_upto_len};
use crate::entropy::{ans_words_of, ans_encode, ans_decode};
use crate::MalformedBlobError;
use crate::PayloadTooLargeError;

verus! {

/// A sequence quantized for the entropy-coded delta codec: the anchor
/// vector's words and a signed byte per delta component.
pub struct SymbolSeq {
    pub n_vectors: usize,
    pub dim: usize,
    pub anchor: Vec<u32>,
    pub symbols: Vec<i8>,
}

/// Mathematical image of a `SymbolSeq`.
#[verifier::ext_equal]
pub ghost struct SymbolSeqModel {
    pub n_vectors: nat,
    pub dim: nat,
    pub anchor: Seq<u32>,
    pub symbols: Seq<i8>,
}

impl SymbolSeqModel {
    /// Besides the shared shape, the symbol count must fit the 32-bit
    /// count fields of the histogram section.
    pub open spec fn wf(self) -> bool {
        &&& self.n_vectors <= u32::MAX
        &&& self.dim <= u32::MAX
        &&& self.symbols.len() <= u32::MAX
        &&& if self.n_vectors == 0 {
            self.dim == 0 && self.anchor.len() == 0 && self.symbols.len() == 0
        } else {
            self.anchor.len() == self.dim && self.symbols.len() == (self.n_vectors - 1) * self.dim
        }
    }
}

pub open spec fn empty_symbol_model() -> SymbolSeqModel {
    SymbolSeqModel { n_vectors: 0, dim: 0, anchor: Seq::empty(), symbols: Seq::empty() }
}

impl View for SymbolSeq {
    type V = SymbolSeqModel;

    open spec fn view(&self) -> SymbolSeqModel {
        SymbolSeqModel {
            n_vectors: self.n_vectors as nat,
            dim: self.dim as nat,
            anchor: self.anchor@,
            symbols: self.symbols@,
        }
    }
}

impl SymbolSeq {
    /// Wraps the parts of a quantized sequence after checking their
    /// shape; rejects exactly the shapes the codec cannot carry, among
    /// them a delta stream too long for the histogram's count fields.
    pub fn new(n_vectors: usize, dim: usize, anchor: Vec<u32>, symbols: Vec<i8>) -> (r: Option<
        SymbolSeq,
    >)
        ensures
            r is Some ==> r->0@ == (SymbolSeqModel {
                n_vectors: n_vectors as nat,
                dim: dim as nat,
                anchor: anchor@,
                symbols: symbols@,
            }) && r->0@.wf(),
            r is Some <==> (SymbolSeqModel {
                n_vectors: n_vectors as nat,
                dim: dim as nat,
                anchor: anchor@,
                symbols: symbols@,
            }).wf(),
    {
        if n_vectors > 0xffff_ffffusize || dim > 0xffff_ffffusize || symbols.len()
            > 0xffff_ffffusize {
            return None;
        }
        if n_vectors == 0 {
            if dim != 0 || anchor.len() != 0 || symbols.len() != 0 {
                return None;
            }
        } else {
            proof {
                assert(((n_vectors - 1) as u64) * (dim as u64) < 0x1_0000_0000_0000_0000)
                    by (nonlinear_arith)
                    requires
                        n_vectors >= 1 && n_vectors <= 0xffff_ffff && dim <= 0xffff_ffff,
                ;
            }
            if anchor.len() != dim || (symbols.len() as u64) != ((n_vectors - 1) as u64) * (
            dim as u64) {
                return None;
            }
        }
        Some(SymbolSeq { n_vectors, dim, anchor, symbols })
    }
}

/// The coded words of a sequence's symbol stream under its own histogram.
pub open spec fn ans_payload_words(g: SymbolSeqModel) -> Seq<u32> {
    ans_words_of(syms_shifted(g.symbols), probs_of(counts_seq(g.symbols)))
}

/// The payload bytes: empty when there are no deltas at all.
pub open spec fn ans_payload(g: SymbolSeqModel) -> Seq<u8> {
    if g.symbols.len() == 0 {
        Seq::empty()
    } else {
        words_le(ans_payload_words(g))
    }
}

/// The blob the entropy-coded codec writes; empty for the empty sequence.
pub open spec fn ans_blob(g: SymbolSeqModel) -> Seq<u8> {
    if g.n_vectors == 0 {
        Seq::empty()
    } else {
        let counts = counts_seq(g.symbols);
        let hist = entries_bytes(hist_entries(counts));
        let payload = ans_payload(g);
        spec_u32_to_le_bytes(g.n_vectors as u32) + spec_u32_to_le_bytes(g.dim as u32) + words_le(
            g.anchor,
        ) + spec_u32_to_le_bytes(hist_entries(counts).len() as u32) + hist + spec_u32_to_le_bytes(
            payload.len() as u32,
        ) + payload
    }
}

/// The coded payload's length fits the blob's 32-bit length field.
pub open spec fn ans_payload_fits(g: SymbolSeqModel) -> bool {
    ans_payload(g).len() <= u32::MAX
}

pub proof fn lemma_ans_blob_parts(g: SymbolSeqModel)
    requires
        g.wf(),
        g.n_vectors > 0,
    ensures
        ({
            let b = ans_blob(g);
            let counts = counts_seq(g.symbols);
            let hn = hist_entries(counts).len() as int;
            let d = g.dim as int;
            let payload = ans_payload(g);
            &&& hn <= 256
            &&& b.len() == 16 + 4 * d + 5 * hn + payload.len()
            &&& b.subrange(0, 4) =~= spec_u32_to_le_bytes(g.n_vectors as u32)
            &&& b.subrange(4, 8) =~= spec_u32_to_le_bytes(g.dim as u32)
            &&& b.subrange(8, 8 + 4 * d) =~= words_le(g.anchor)
            &&& b.subrange(8 + 4 * d, 12 + 4 * d) =~= spec_u32_to_le_bytes(
                hist_entries(counts).len() as u32,
            )
            &&& b.subrange(12 + 4 * d, 12 + 4 * d + 5 * hn) =~= entries_bytes(
                hist_entries(counts),
            )
            &&& b.subrange(12 + 4 * d + 5 * hn, 16 + 4 * d + 5 * hn) =~= spec_u32_to_le_bytes(
                payload.len() as u32,
            )
            &&& b.subrange(16 + 4 * d + 5 * hn, b.len() as int) =~= payload
        }),
{
    lemma_auto_spec_u32_to_from_le_bytes();
    lemma_entries_upto_len(counts_seq(g.symbols), 256);
}

/// Encodes a quantized sequence with its histogram and coded payload.
/// The empty sequence yields the empty blob; the only failure is a coded
/// payload too long for the 32-bit length field.
pub fn delta_ans_compress(seq: &SymbolSeq) -> (r: Result<Vec<u8>, PayloadTooLargeError>)
    requires
        seq@.wf(),
    ensures
        r is Ok ==> r->Ok_0@ == ans_blob(seq@),
        r is Ok <==> (seq@.n_vectors == 0 || ans_payload_fits(seq@)),
{
    if seq.n_vectors == 0 {
        return Ok(Vec::new());
    }
    let counts = build_counts(&seq.symbols);
    let mut out: Vec<u8> = Vec::new();
    push_u32_le(&mut out, seq.n_vectors as u32);
    push_u32_le(&mut out, seq.dim as u32);
    push_words(&mut out, &seq.anchor);
    let mut hist_sec: Vec<u8> = Vec::new();
    let hn = push_hist(&mut hist_sec, &counts);
    push_u32_le(&mut out, hn);
    out.append(&mut hist_sec);
    if seq.symbols.len() == 0 {
        push_u32_le(&mut out, 0);
        assert(out@ =~= ans_blob(seq@));
        return Ok(out);
    }
    let total = sum_counts(&counts);
    proof {
        lemma_counts_total(seq@.symbols);
    }
    let probs = compute_probs(&counts, total);
    proof {
        lemma_probs_valid(counts@);
    }
    let mut shifted: Vec<u8> = Vec::new();
    push_syms_shifted(&mut shifted, &seq.symbols);
    let words = ans_encode(&shifted, &probs);
    let mut payload: Vec<u8> = Vec::new();
    push_words(&mut payload, &words);
    if payload.len() > 0xffff_ffffusize {
        return Err(PayloadTooLargeError);
    }
    push_u32_le(&mut out, payload.len() as u32);
    out.append(&mut payload);
    assert(out@ =~= ans_blob(seq@));
    Ok(out)
}

/// Decodes an entropy-coded delta blob. A blob shorter than the 8-byte
/// header decodes to the empty sequence; internal lengths that do not
/// fit the buffer, or a histogram that does not cover the declared
/// deltas, are malformed. Every blob `delta_ans_compress` can produce
/// decodes to exactly the quantized sequence it came from.
pub fn delta_ans_decompress(blob: &[u8]) -> (r: Result<SymbolSeq, MalformedBlobError>)
    ensures
        r is Ok ==> r->Ok_0@.wf(),
        blob@.len() < 8 ==> r is Ok && r->Ok_0@ == empty_symbol_model(),
        forall|g: SymbolSeqModel|
            g.wf() && ans_payload_fits(g) && blob@ == ans_blob(g) ==> r is Ok && r->Ok_0@ == g,
{
    let blen = blob.len();
    if blen < 8 {
        let empty = SymbolSeq { n_vectors: 0, dim: 0, anchor: Vec::new(), symbols: Vec::new() };
        proof {
            assert forall|g: SymbolSeqModel|
                g.wf() && ans_payload_fits(g) && blob@ == ans_blob(g) implies empty@ == g by {
                if g.n_vectors > 0 {
                    lemma_ans_blob_parts(g);
                }
                assert(g =~= empty_symbol_model());
            }
        }
        return Ok(empty);
    }
    let n_u32 = read_u32_le(blob, 0);
    let dim_u32 = read_u32_le(blob, 4);
    proof {
        lemma_auto_spec_u32_to_from_le_bytes();
    }
    if n_u32 == 0 {
        let empty = SymbolSeq { n_vectors: 0, dim: 0, anchor: Vec::new(), symbols: Vec::new() };
        proof {
            assert forall|g: SymbolSeqModel|
                g.wf() && ans_payload_fits(g) && blob@ == ans_blob(g) implies empty@ == g by {
                if g.n_vectors > 0 {
                    lemma_ans_blob_parts(g);
                    assert(spec_u32_from_le_bytes(blob@.subrange(0, 4)) == g.n_vectors as u32);
                }
            }
        }
        return Ok(empty);
    }
    let need: u64 = 12u64 + 4u64 * (dim_u32 as u64);
    if (blen as u64) < need {
        proof {
            assert forall|g: SymbolSeqModel|
                g.wf() && ans_payload_fits(g) && blob@ == ans_blob(g) implies false by {
                if g.n_vectors > 0 {
                    lemma_ans_blob_parts(g);
                    assert(spec_u32_from_le_bytes(blob@.subrange(4, 8)) == g.dim as u32);
                } else {
                    assert(ans_blob(g).len() == 0);
                }
            }
        }
        return Err(MalformedBlobError);
    }
    let dim = dim_u32 as usize;
    let anchor = read_words(blob, 8, dim);
    let hsoff = 8 + 4 * dim;
    let hn_u32 = read_u32_le(blob, hsoff);
    let need2: u64 = (hsoff as u64) + 8u64 + 5u64 * (hn_u32 as u64);
    if (blen as u64) < need2 {
        proof {
            assert forall|g: SymbolSeqModel|
                g.wf() && ans_payload_fits(g) && blob@ == ans_blob(g) implies false by {
                if g.n_vectors > 0 {
                    lemma_ans_blob_parts(g);
                    assert(spec_u32_from_le_bytes(blob@.subrange(4, 8)) == g.dim as u32);
                    assert(spec_u32_from_le_bytes(
                        blob@.subrange(8 + 4 * g.dim as int, 12 + 4 * g.dim as int),
                    ) == hist_entries(counts_seq(g.symbols)).len() as u32);
                } else {
                    assert(ans_blob(g).len() == 0);
                }
            }
        }
        return Err(MalformedBlobError);
    }
    let hn = hn_u32 as usize;
    let hoff = hsoff + 4;
    let counts = read_hist(blob, hoff, hn);
    let poff = hoff + 5 * hn;
    let plen_u32 = read_u32_le(blob, poff);
    let plen = plen_u32 as usize;
    let dstart = poff + 4;
    if (blen as u64) < (dstart as u64) + (plen_u32 as u64) {
        proof {
            assert forall|g: SymbolSeqModel|
                g.wf() && ans_payload_fits(g) && blob@ == ans_blob(g) implies false by {
                if g.n_vectors > 0 {
                    lemma_ans_blob_parts(g);
                    let d = g.dim as int;
                    let hng = hist_entries(counts_seq(g.symbols)).len() as int;
                    assert(spec_u32_from_le_bytes(blob@.subrange(4, 8)) == g.dim as u32);
                    assert(spec_u32_from_le_bytes(blob@.subrange(8 + 4 * d, 12 + 4 * d))
                        == hng as u32);
                    assert(spec_u32_from_le_bytes(
                        blob@.subrange(12 + 4 * d + 5 * hng, 16 + 4 * d + 5 * hng),
                    ) == ans_payload(g).len() as u32);
                } else {
                    assert(ans_blob(g).len() == 0);
                }
            }
        }
        return Err(MalformedBlobError);
    }
    let n_minus_1: u64 = (n_u32 - 1) as u64;
    proof {
        assert(n_minus_1 * (dim_u32 as u64) < 0x1_0000_0000_0000_0000) by (nonlinear_arith)
            requires
                n_minus_1 < 0x1_0000_0000 && dim_u32 < 0x1_0000_0000,
        ;
    }
    let count64: u64 = n_minus_1 * (dim_u32 as u64);
    proof {
        assert forall|g: SymbolSeqModel|
            g.wf() && ans_payload_fits(g) && blob@ == ans_blob(g) implies g.n_vectors > 0 && {
            &&& n_u32 == g.n_vectors as u32
            &&& dim_u32 == g.dim as u32
            &&& anchor@ == g.anchor
            &&& counts@ == counts_seq(g.symbols)
            &&& count64 == g.symbols.len()
            &&& blob@.subrange(dstart as int, dstart as int + plen as int) =~= ans_payload(g)
        } by {
            if g.n_vectors > 0 {
                lemma_ans_blob_parts(g);
                let d = g.dim as int;
                let gcounts = counts_seq(g.symbols);
                let hng = hist_entries(gcounts).len() as int;
                assert(spec_u32_from_le_bytes(blob@.subrange(0, 4)) == g.n_vectors as u32);
                assert(spec_u32_from_le_bytes(blob@.subrange(4, 8)) == g.dim as u32);
                assert(spec_u32_from_le_bytes(blob@.subrange(8 + 4 * d, 12 + 4 * d))
                    == hng as u32);
                assert(anchor@ =~= le_words(blob@.subrange(8, 8 + 4 * d)));
                lemma_le_words_of_words_le(g.anchor);
                assert(blob@.subrange(hoff as int, hoff as int + 5 * hn as int) =~= entries_bytes(
                    hist_entries(gcounts),
                ));
                lemma_hist_round_trip(gcounts);
                assert(counts@ =~= gcounts);
                assert(spec_u32_from_le_bytes(
                    blob@.subrange(12 + 4 * d + 5 * hng, 16 + 4 * d + 5 * hng),
                ) == ans_payload(g).len() as u32);
                assert(blob@.subrange(dstart as int, dstart as int + plen as int) =~= ans_payload(
                    g,
                ));
            } else {
                assert(ans_blob(g).len() == 0);
            }
        }
    }
    if count64 > 0xffff_ffffu64 {
        proof {
            assert forall|g: SymbolSeqModel|
                g.wf() && ans_payload_fits(g) && blob@ == ans_blob(g) implies false by {
                assert(count64 == g.symbols.len());
            }
        }
        return Err(MalformedBlobError);
    }
    let count = count64 as usize;
    if count == 0 {
        let result = SymbolSeq { n_vectors: n_u32 as usize, dim, anchor, symbols: Vec::new() };
        proof {
            assert(result@.wf());
            assert forall|g: SymbolSeqModel|
                g.wf() && ans_payload_fits(g) && blob@ == ans_blob(g) implies result@ == g by {
                assert(count64 == g.symbols.len());
                assert(result@.symbols =~= g.symbols);
                assert(result@ =~= g);
            }
        }
        return Ok(result);
    }
    let total = sum_counts(&counts);
    if total == 0 {
        proof {
            assert forall|g: SymbolSeqModel|
                g.wf() && ans_payload_fits(g) && blob@ == ans_blob(g) implies false by {
                assert(counts@ == counts_seq(g.symbols));
                lemma_counts_total(g.symbols);
                assert(count64 == g.symbols.len());
            }
        }
        return Err(MalformedBlobError);
    }
    let probs = compute_probs(&counts, total);
    proof {
        lemma_probs_valid(counts@);
    }
    let nwords = plen / 4;
    let words = read_words(blob, dstart, nwords);
    let shifted = match ans_decode(&words, &probs, count) {
        Ok(s) => s,
        Err(e) => {
            proof {
                assert forall|g: SymbolSeqModel|
                    g.wf() && ans_payload_fits(g) && blob@ == ans_blob(g) implies false by {
                    assert(count64 == g.symbols.len());
                    lemma_ans_decode_match(g, blob@, dstart as int, plen as int, counts@, words@);
                    assert(probs@ == probs_of(counts_seq(g.symbols)));
                    assert(words@ == ans_words_of(syms_shifted(g.symbols), probs@));
                    assert(syms_shifted(g.symbols).len() == count);
                }
            }
            return Err(e);
        },
    };
    let symbols = unshift_prefix(&shifted, count);
    let result = SymbolSeq { n_vectors: n_u32 as usize, dim, anchor, symbols };
    proof {
        assert(result@.wf());
        assert forall|g: SymbolSeqModel|
            g.wf() && ans_payload_fits(g) && blob@ == ans_blob(g) implies result@ == g by {
            assert(count64 == g.symbols.len());
            lemma_ans_decode_match(g, blob@, dstart as int, plen as int, counts@, words@);
            assert(probs@ == probs_of(counts_seq(g.symbols)));
            assert(words@ == ans_words_of(syms_shifted(g.symbols), probs@));
            assert(syms_shifted(g.symbols).len() == count);
            assert(shifted@ == syms_shifted(g.symbols));
            lemma_unshift_shift(g.symbols);
            assert(result@.symbols =~= bytes_unshifted(syms_shifted(g.symbols)).take(
                count as int,
            ));
            assert(result@.symbols =~= g.symbols);
            assert(result@ =~= g);
        }
    }
    Ok(result)
}

/// For a blob this codec wrote, the words read back from the payload
/// section are exactly the coder's words for the sequence's own symbols
/// and table.
proof fn lemma_ans_decode_match(
    g: SymbolSeqModel,
    blob: Seq<u8>,
    dstart: int,
    plen: int,
    counts: Seq<u32>,
    words: Seq<u32>,
)
    requires
        g.wf(),
        g.symbols.len() > 0,
        counts == counts_seq(g.symbols),
        0 <= dstart,
        0 <= plen,
        dstart + plen <= blob.len(),
        blob.subrange(dstart, dstart + plen) =~= ans_payload(g),
        words == le_words(blob.subrange(dstart, dstart + 4 * (plen / 4))),
    ensures
        words == ans_payload_words(g),
{
    assert(blob.subrange(dstart, dstart + plen).len() == plen);
    assert(ans_payload(g).len() == plen);
    assert(ans_payload(g) == words_le(ans_payload_words(g)));
    assert(plen == 4 * ans_payload_words(g).len());
    assert(4 * (plen / 4) == plen);
    assert(blob.subrange(dstart, dstart + 4 * (plen / 4)) =~= ans_payload(g));
    lemma_le_words_of_words_le(ans_payload_words(g));
}

} // verus!
