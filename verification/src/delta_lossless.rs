//! Lossless delta codec: anchor vector, then run-length records of the
//! bit-identical consecutive delta words, squeezed through the
//! deflate-family backend.
//!
//! Blob layout (little-endian): `n_vectors: u32`, `dim: u32`, the anchor's
//! `dim` words, `payload_length: u32`, then that many bytes of compressed
//! payload holding the `(count, word)` run-length records.

use vstd::prelude::*;
use vstd::bytes::*;
use vstd::slice::slice_subrange;
use crate::wire::{words_le, le_words, push_words, read_words, push_u32_le, read_u32_le,
    take_prefix, lemma_le_words_of_words_le};
use crate::backends::{gzip_best_of, gzip_pack_best, gzip_unpack};
use crate::rle::{rle_words, rle_encode, rle_decode, lemma_rle_round_trip};
use crate::delta::{DeltaSeq, DeltaSeqModel, empty_delta_model};
use crate::MalformedBlobError;
use crate::PayloadTooLargeError;

verus! {

/// The blob the lossless delta codec writes for a sequence; empty for the
/// empty sequence.
pub open spec fn lossless_blob(g: DeltaSeqModel) -> Seq<u8> {
    if g.n_vectors == 0 {
        Seq::empty()
    } else {
        let payload = gzip_best_of(words_le(rle_words(g.deltas)));
        spec_u32_to_le_bytes(g.n_vectors as u32) + spec_u32_to_le_bytes(g.dim as u32) + words_le(
            g.anchor,
        ) + spec_u32_to_le_bytes(payload.len() as u32) + payload
    }
}

/// The compressed payload's length fits the blob's 32-bit length field.
pub open spec fn lossless_payload_fits(g: DeltaSeqModel) -> bool {
    gzip_best_of(words_le(rle_words(g.deltas))).len() <= u32::MAX
}

pub proof fn lemma_lossless_blob_parts(g: DeltaSeqModel)
    requires
        g.wf(),
        g.n_vectors > 0,
    ensures
        ({
            let b = lossless_blob(g);
            let payload = gzip_best_of(words_le(rle_words(g.deltas)));
            &&& b.len() == 12 + 4 * g.dim + payload.len()
            &&& b.subrange(0, 4) =~= spec_u32_to_le_bytes(g.n_vectors as u32)
            &&& b.subrange(4, 8) =~= spec_u32_to_le_bytes(g.dim as u32)
            &&& b.subrange(8, 8 + 4 * g.dim as int) =~= words_le(g.anchor)
            &&& b.subrange(8 + 4 * g.dim as int, 12 + 4 * g.dim as int) =~= spec_u32_to_le_bytes(
                payload.len() as u32,
            )
            &&& b.subrange(12 + 4 * g.dim as int, b.len() as int) =~= payload
        }),
{
    lemma_auto_spec_u32_to_from_le_bytes();
}

/// Encodes a delta-decomposed sequence with the run-length stage. The
/// empty sequence yields the empty blob; the only failure is a compressed
/// payload too long for the 32-bit length field.
pub fn delta_lossless_compress(seq: &DeltaSeq) -> (r: Result<Vec<u8>, PayloadTooLargeError>)
    requires
        seq@.wf(),
    ensures
        r is Ok ==> r->Ok_0@ == lossless_blob(seq@),
        r is Ok <==> (seq@.n_vectors == 0 || lossless_payload_fits(seq@)),
{
    if seq.n_vectors == 0 {
        return Ok(Vec::new());
    }
    let records = rle_encode(&seq.deltas);
    let mut raw: Vec<u8> = Vec::new();
    push_words(&mut raw, &records);
    let mut packed = gzip_pack_best(&raw);
    if packed.len() > 0xffff_ffffusize {
        return Err(PayloadTooLargeError);
    }
    let mut out: Vec<u8> = Vec::new();
    push_u32_le(&mut out, seq.n_vectors as u32);
    push_u32_le(&mut out, seq.dim as u32);
    push_words(&mut out, &seq.anchor);
    push_u32_le(&mut out, packed.len() as u32);
    out.append(&mut packed);
    assert(out@ =~= lossless_blob(seq@));
    Ok(out)
}

/// Decodes a lossless delta blob. A blob shorter than the 8-byte header
/// decodes to the empty sequence; internal lengths that do not fit the
/// buffer are malformed. Every blob `delta_lossless_compress` can produce
/// decodes to exactly the sequence it came from: the variant is lossless.
pub fn delta_lossless_decompress(blob: &[u8]) -> (r: Result<DeltaSeq, MalformedBlobError>)
    ensures
        r is Ok ==> r->Ok_0@.wf(),
        blob@.len() < 8 ==> r is Ok && r->Ok_0@ == empty_delta_model(),
        forall|g: DeltaSeqModel|
            g.wf() && lossless_payload_fits(g) && blob@ == lossless_blob(g) ==> r is Ok
                && r->Ok_0@ == g,
{
    let blen = blob.len();
    if blen < 8 {
        let empty = DeltaSeq { n_vectors: 0, dim: 0, anchor: Vec::new(), deltas: Vec::new() };
        proof {
            assert forall|g: DeltaSeqModel|
                g.wf() && lossless_payload_fits(g) && blob@ == lossless_blob(g) implies empty@
                == g by {
                if g.n_vectors > 0 {
                    lemma_lossless_blob_parts(g);
                }
                assert(g =~= empty_delta_model());
            }
        }
        return Ok(empty);
    }
    let n_u32 = read_u32_le(blob, 0);
    let dim_u32 = read_u32_le(blob, 4);
    proof {
        lemma_auto_spec_u32_to_from_le_bytes();
    }
    if n_u32 == 0 {
        let empty = DeltaSeq { n_vectors: 0, dim: 0, anchor: Vec::new(), deltas: Vec::new() };
        proof {
            assert forall|g: DeltaSeqModel|
                g.wf() && lossless_payload_fits(g) && blob@ == lossless_blob(g) implies empty@
                == g by {
                if g.n_vectors > 0 {
                    lemma_lossless_blob_parts(g);
                    assert(spec_u32_from_le_bytes(blob@.subrange(0, 4)) == g.n_vectors as u32);
                }
            }
        }
        return Ok(empty);
    }
    let need: u64 = 12u64 + 4u64 * (dim_u32 as u64);
    if (blen as u64) < need {
        proof {
            assert forall|g: DeltaSeqModel|
                g.wf() && lossless_payload_fits(g) && blob@ == lossless_blob(g) implies false by {
                if g.n_vectors > 0 {
                    lemma_lossless_blob_parts(g);
                    assert(spec_u32_from_le_bytes(blob@.subrange(4, 8)) == g.dim as u32);
                } else {
                    assert(lossless_blob(g).len() == 0);
                }
            }
        }
        return Err(MalformedBlobError);
    }
    let dim = dim_u32 as usize;
    let anchor = read_words(blob, 8, dim);
    let poff = 8 + 4 * dim;
    let plen_u32 = read_u32_le(blob, poff);
    let plen = plen_u32 as usize;
    let dstart = poff + 4;
    if (blen as u64) < (dstart as u64) + (plen_u32 as u64) {
        proof {
            assert forall|g: DeltaSeqModel|
                g.wf() && lossless_payload_fits(g) && blob@ == lossless_blob(g) implies false by {
                if g.n_vectors > 0 {
                    lemma_lossless_blob_parts(g);
                    let payload = gzip_best_of(words_le(rle_words(g.deltas)));
                    assert(spec_u32_from_le_bytes(blob@.subrange(4, 8)) == g.dim as u32);
                    assert(spec_u32_from_le_bytes(
                        blob@.subrange(8 + 4 * g.dim as int, 12 + 4 * g.dim as int),
                    ) == payload.len() as u32);
                } else {
                    assert(lossless_blob(g).len() == 0);
                }
            }
        }
        return Err(MalformedBlobError);
    }
    let payload = slice_subrange(blob, dstart, dstart + plen);
    let data = match gzip_unpack(payload) {
        Ok(d) => d,
        Err(e) => {
            proof {
                assert forall|g: DeltaSeqModel|
                    g.wf() && lossless_payload_fits(g) && blob@ == lossless_blob(g) implies false by {
                    if g.n_vectors > 0 {
                        lemma_lossless_blob_parts(g);
                        let gp = gzip_best_of(words_le(rle_words(g.deltas)));
                        assert(spec_u32_from_le_bytes(blob@.subrange(4, 8)) == g.dim as u32);
                        assert(spec_u32_from_le_bytes(
                            blob@.subrange(8 + 4 * g.dim as int, 12 + 4 * g.dim as int),
                        ) == gp.len() as u32);
                        assert(payload@ =~= gp);
                    } else {
                        assert(lossless_blob(g).len() == 0);
                    }
                }
            }
            return Err(e);
        },
    };
    let nwords = data.len() / 4;
    let records = read_words(data.as_slice(), 0, nwords);
    let expanded = rle_decode(&records);
    let n_minus_1: u64 = (n_u32 - 1) as u64;
    proof {
        assert(n_minus_1 * (dim_u32 as u64) < 0x1_0000_0000_0000_0000) by (nonlinear_arith)
            requires
                n_minus_1 < 0x1_0000_0000 && dim_u32 < 0x1_0000_0000,
        ;
        assert(data@.subrange(0, 4 * (data@.len() / 4) as int) =~= data@.take(4 * (data@.len() / 4) as int));
    }
    proof {
        assert forall|g: DeltaSeqModel|
            g.wf() && lossless_payload_fits(g) && blob@ == lossless_blob(g) implies g.n_vectors
            > 0 && {
            &&& n_u32 == g.n_vectors as u32
            &&& dim_u32 == g.dim as u32
            &&& anchor@ == g.anchor
            &&& expanded@ == g.deltas
        } by {
            if g.n_vectors > 0 {
                lemma_lossless_blob_parts(g);
                let gw = words_le(rle_words(g.deltas));
                let gp = gzip_best_of(gw);
                assert(spec_u32_from_le_bytes(blob@.subrange(0, 4)) == g.n_vectors as u32);
                assert(spec_u32_from_le_bytes(blob@.subrange(4, 8)) == g.dim as u32);
                assert(spec_u32_from_le_bytes(
                    blob@.subrange(8 + 4 * g.dim as int, 12 + 4 * g.dim as int),
                ) == gp.len() as u32);
                assert(anchor@ =~= le_words(blob@.subrange(8, 8 + 4 * g.dim as int)));
                lemma_le_words_of_words_le(g.anchor);
                assert(payload@ =~= gp);
                assert(data@ == gw);
                assert(data@.subrange(0, 4 * (data@.len() / 4) as int) =~= data@);
                assert(records@ == le_words(gw));
                lemma_le_words_of_words_le(rle_words(g.deltas));
                lemma_rle_round_trip(g.deltas);
            } else {
                assert(lossless_blob(g).len() == 0);
            }
        }
    }
    let count64: u64 = n_minus_1 * (dim_u32 as u64);
    if (expanded.len() as u64) < count64 {
        proof {
            assert forall|g: DeltaSeqModel|
                g.wf() && lossless_payload_fits(g) && blob@ == lossless_blob(g) implies false by {
                assert(expanded@ == g.deltas);
                assert(count64 == g.deltas.len());
            }
        }
        return Err(MalformedBlobError);
    }
    let count = count64 as usize;
    let deltas = take_prefix(&expanded, count);
    let result = DeltaSeq { n_vectors: n_u32 as usize, dim, anchor, deltas };
    proof {
        assert(result@.wf());
        assert forall|g: DeltaSeqModel|
            g.wf() && lossless_payload_fits(g) && blob@ == lossless_blob(g) implies result@
            == g by {
            assert(expanded@ == g.deltas);
            assert(count as int == g.deltas.len());
            assert(result@.deltas =~= g.deltas);
            assert(result@ =~= g);
        }
    }
    Ok(result)
}

} // verus!
