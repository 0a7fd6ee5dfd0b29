//! Raw delta codec: anchor vector plus component-wise differences,
//! squeezed through the deflate-family backend.
//!
//! Blob layout (little-endian): `n_vectors: u32`, `dim: u32`, the anchor's
//! `dim` words, `payload_length: u32`, then that many bytes of compressed
//! payload holding the `(n_vectors - 1) * dim` delta words.

use vstd::prelude::*;
use vstd::bytes::*;
use vstd::slice::slice_subrange;
use crate::wire::{words_le, le_words, push_words, read_words, push_u32_le, read_u32_le,
    lemma_le_words_of_words_le};
use crate::backends::{gzip_best_of, gzip_pack_best, gzip_unpack};
use crate::MalformedBlobError;
use crate::PayloadTooLargeError;

verus! {

/// A delta-decomposed vector sequence: the first vector exactly, and for
/// each later vector the component-wise difference from its predecessor.
/// Components and differences are opaque 32-bit words.
pub struct DeltaSeq {
    pub n_vectors: usize,
    pub dim: usize,
    pub anchor: Vec<u32>,
    pub deltas: Vec<u32>,
}

/// Mathematical image of a `DeltaSeq`.
#[verifier::ext_equal]
pub ghost struct DeltaSeqModel {
    pub n_vectors: nat,
    pub dim: nat,
    pub anchor: Seq<u32>,
    pub deltas: Seq<u32>,
}

impl DeltaSeqModel {
    /// Counts fit the header's 32-bit fields and the streams carry exactly
    /// one anchor and `(n_vectors - 1) * dim` deltas; the empty sequence is
    /// the single degenerate shape.
    pub open spec fn wf(self) -> bool {
        &&& self.n_vectors <= u32::MAX
        &&& self.dim <= u32::MAX
        &&& if self.n_vectors == 0 {
            self.dim == 0 && self.anchor.len() == 0 && self.deltas.len() == 0
        } else {
            self.anchor.len() == self.dim && self.deltas.len() == (self.n_vectors - 1) * self.dim
        }
    }
}

pub open spec fn empty_delta_model() -> DeltaSeqModel {
    DeltaSeqModel { n_vectors: 0, dim: 0, anchor: Seq::empty(), deltas: Seq::empty() }
}

impl View for DeltaSeq {
    type V = DeltaSeqModel;

    open spec fn view(&self) -> DeltaSeqModel {
        DeltaSeqModel {
            n_vectors: self.n_vectors as nat,
            dim: self.dim as nat,
            anchor: self.anchor@,
            deltas: self.deltas@,
        }
    }
}

impl DeltaSeq {
    /// Wraps the parts of a delta-decomposed sequence after checking
    /// their shape; rejects exactly the shapes the codec cannot carry.
    pub fn new(n_vectors: usize, dim: usize, anchor: Vec<u32>, deltas: Vec<u32>) -> (r: Option<
        DeltaSeq,
    >)
        ensures
            r is Some ==> r->0@ == (DeltaSeqModel {
                n_vectors: n_vectors as nat,
                dim: dim as nat,
                anchor: anchor@,
                deltas: deltas@,
            }) && r->0@.wf(),
            r is Some <==> (DeltaSeqModel {
                n_vectors: n_vectors as nat,
                dim: dim as nat,
                anchor: anchor@,
                deltas: deltas@,
            }).wf(),
    {
        if n_vectors > 0xffff_ffffusize || dim > 0xffff_ffffusize {
            return None;
        }
        if n_vectors == 0 {
            if dim != 0 || anchor.len() != 0 || deltas.len() != 0 {
                return None;
            }
        } else {
            proof {
                assert(((n_vectors - 1) as u64) * (dim as u64) < 0x1_0000_0000_0000_0000)
                    by (nonlinear_arith)
                    requires
                        n_vectors >= 1 && n_vectors <= 0xffff_ffff && dim <= 0xffff_ffff,
                ;
            }
            if anchor.len() != dim || (deltas.len() as u64) != ((n_vectors - 1) as u64) * (
            dim as u64) {
                return None;
            }
        }
        Some(DeltaSeq { n_vectors, dim, anchor, deltas })
    }
}

/// The blob the raw delta codec writes for a sequence; empty for the
/// empty sequence.
pub open spec fn delta_blob(g: DeltaSeqModel) -> Seq<u8> {
    if g.n_vectors == 0 {
        Seq::empty()
    } else {
        let payload = gzip_best_of(words_le(g.deltas));
        spec_u32_to_le_bytes(g.n_vectors as u32) + spec_u32_to_le_bytes(g.dim as u32) + words_le(
            g.anchor,
        ) + spec_u32_to_le_bytes(payload.len() as u32) + payload
    }
}

/// The compressed payload's length fits the blob's 32-bit length field.
pub open spec fn delta_payload_fits(g: DeltaSeqModel) -> bool {
    gzip_best_of(words_le(g.deltas)).len() <= u32::MAX
}

pub proof fn lemma_delta_blob_parts(g: DeltaSeqModel)
    requires
        g.wf(),
        g.n_vectors > 0,
    ensures
        ({
            let b = delta_blob(g);
            let payload = gzip_best_of(words_le(g.deltas));
            &&& b.len() == 12 + 4 * g.dim + payload.len()
            &&& b.subrange(0, 4) =~= spec_u32_to_le_bytes(g.n_vectors as u32)
            &&& b.subrange(4, 8) =~= spec_u32_to_le_bytes(g.dim as u32)
            &&& b.subrange(8, 8 + 4 * g.dim as int) =~= words_le(g.anchor)
            &&& b.subrange(8 + 4 * g.dim as int, 12 + 4 * g.dim as int) =~= spec_u32_to_le_bytes(
                payload.len() as u32,
            )
            &&& b.subrange(12 + 4 * g.dim as int, b.len() as int) =~= payload
        }),
{
    lemma_auto_spec_u32_to_from_le_bytes();
}

/// Encodes a delta-decomposed sequence into a self-describing blob.
/// The empty sequence yields the empty blob; the only failure is a
/// compressed payload too long for the 32-bit length field.
pub fn delta_compress(seq: &DeltaSeq) -> (r: Result<Vec<u8>, PayloadTooLargeError>)
    requires
        seq@.wf(),
    ensures
        r is Ok ==> r->Ok_0@ == delta_blob(seq@),
        r is Ok <==> (seq@.n_vectors == 0 || delta_payload_fits(seq@)),
{
    if seq.n_vectors == 0 {
        return Ok(Vec::new());
    }
    let mut raw: Vec<u8> = Vec::new();
    push_words(&mut raw, &seq.deltas);
    let mut packed = gzip_pack_best(&raw);
    if packed.len() > 0xffff_ffffusize {
        return Err(PayloadTooLargeError);
    }
    let mut out: Vec<u8> = Vec::new();
    push_u32_le(&mut out, seq.n_vectors as u32);
    push_u32_le(&mut out, seq.dim as u32);
    push_words(&mut out, &seq.anchor);
    push_u32_le(&mut out, packed.len() as u32);
    out.append(&mut packed);
    assert(out@ =~= delta_blob(seq@));
    Ok(out)
}

/// Decodes a raw delta blob. A blob shorter than the 8-byte header decodes
/// to the empty sequence; a blob whose internal lengths do not fit its
/// buffer is malformed. Every blob `delta_compress` can produce decodes to
/// exactly the sequence it came from.
pub fn delta_decompress(blob: &[u8]) -> (r: Result<DeltaSeq, MalformedBlobError>)
    ensures
        r is Ok ==> r->Ok_0@.wf(),
        blob@.len() < 8 ==> r is Ok && r->Ok_0@ == empty_delta_model(),
        forall|g: DeltaSeqModel|
            g.wf() && delta_payload_fits(g) && blob@ == delta_blob(g) ==> r is Ok && r->Ok_0@
                == g,
{
    let blen = blob.len();
    if blen < 8 {
        let empty = DeltaSeq { n_vectors: 0, dim: 0, anchor: Vec::new(), deltas: Vec::new() };
        proof {
            assert forall|g: DeltaSeqModel|
                g.wf() && delta_payload_fits(g) && blob@ == delta_blob(g) implies empty@
                == g by {
                if g.n_vectors > 0 {
                    lemma_delta_blob_parts(g);
                }
                assert(g =~= empty_delta_model());
            }
        }
        return Ok(empty);
    }
    let n_u32 = read_u32_le(blob, 0);
    let dim_u32 = read_u32_le(blob, 4);
    proof {
        lemma_auto_spec_u32_to_from_le_bytes();
    }
    if n_u32 == 0 {
        let empty = DeltaSeq { n_vectors: 0, dim: 0, anchor: Vec::new(), deltas: Vec::new() };
        proof {
            assert forall|g: DeltaSeqModel|
                g.wf() && delta_payload_fits(g) && blob@ == delta_blob(g) implies empty@
                == g by {
                if g.n_vectors > 0 {
                    lemma_delta_blob_parts(g);
                    assert(spec_u32_from_le_bytes(blob@.subrange(0, 4)) == g.n_vectors as u32);
                }
            }
        }
        return Ok(empty);
    }
    let need: u64 = 12u64 + 4u64 * (dim_u32 as u64);
    if (blen as u64) < need {
        proof {
            assert forall|g: DeltaSeqModel|
                g.wf() && delta_payload_fits(g) && blob@ == delta_blob(g) implies false by {
                if g.n_vectors > 0 {
                    lemma_delta_blob_parts(g);
                    assert(spec_u32_from_le_bytes(blob@.subrange(4, 8)) == g.dim as u32);
                } else {
                    assert(delta_blob(g).len() == 0);
                }
            }
        }
        return Err(MalformedBlobError);
    }
    let dim = dim_u32 as usize;
    let anchor = read_words(blob, 8, dim);
    let poff = 8 + 4 * dim;
    let plen_u32 = read_u32_le(blob, poff);
    let plen = plen_u32 as usize;
    let dstart = poff + 4;
    if (blen as u64) < (dstart as u64) + (plen_u32 as u64) {
        proof {
            assert forall|g: DeltaSeqModel|
                g.wf() && delta_payload_fits(g) && blob@ == delta_blob(g) implies false by {
                if g.n_vectors > 0 {
                    lemma_delta_blob_parts(g);
                    let payload = gzip_best_of(words_le(g.deltas));
                    assert(spec_u32_from_le_bytes(blob@.subrange(4, 8)) == g.dim as u32);
                    assert(spec_u32_from_le_bytes(
                        blob@.subrange(8 + 4 * g.dim as int, 12 + 4 * g.dim as int),
                    ) == payload.len() as u32);
                } else {
                    assert(delta_blob(g).len() == 0);
                }
            }
        }
        return Err(MalformedBlobError);
    }
    let payload = slice_subrange(blob, dstart, dstart + plen);
    let data = match gzip_unpack(payload) {
        Ok(d) => d,
        Err(e) => {
            proof {
                assert forall|g: DeltaSeqModel|
                    g.wf() && delta_payload_fits(g) && blob@ == delta_blob(g) implies false by {
                    if g.n_vectors > 0 {
                        lemma_delta_blob_parts(g);
                        let gp = gzip_best_of(words_le(g.deltas));
                        assert(spec_u32_from_le_bytes(blob@.subrange(4, 8)) == g.dim as u32);
                        assert(spec_u32_from_le_bytes(
                            blob@.subrange(8 + 4 * g.dim as int, 12 + 4 * g.dim as int),
                        ) == gp.len() as u32);
                        assert(payload@ =~= gp);
                    } else {
                        assert(delta_blob(g).len() == 0);
                    }
                }
            }
            return Err(e);
        },
    };
    let n_minus_1: u64 = (n_u32 - 1) as u64;
    proof {
        assert(n_minus_1 * (dim_u32 as u64) < 0x1_0000_0000_0000_0000) by (nonlinear_arith)
            requires
                n_minus_1 < 0x1_0000_0000 && dim_u32 < 0x1_0000_0000,
        ;
    }
    let count64: u64 = n_minus_1 * (dim_u32 as u64);
    if count64 > (data.len() as u64) / 4 {
        proof {
            assert forall|g: DeltaSeqModel|
                g.wf() && delta_payload_fits(g) && blob@ == delta_blob(g) implies false by {
                if g.n_vectors > 0 {
                    lemma_delta_blob_parts(g);
                    let gp = gzip_best_of(words_le(g.deltas));
                    assert(spec_u32_from_le_bytes(blob@.subrange(0, 4)) == g.n_vectors as u32);
                    assert(spec_u32_from_le_bytes(blob@.subrange(4, 8)) == g.dim as u32);
                    assert(spec_u32_from_le_bytes(
                        blob@.subrange(8 + 4 * g.dim as int, 12 + 4 * g.dim as int),
                    ) == gp.len() as u32);
                    assert(payload@ =~= gp);
                    assert(data@ == words_le(g.deltas));
                } else {
                    assert(delta_blob(g).len() == 0);
                }
            }
        }
        return Err(MalformedBlobError);
    }
    let count = count64 as usize;
    let deltas = read_words(data.as_slice(), 0, count);
    let result = DeltaSeq { n_vectors: n_u32 as usize, dim, anchor, deltas };
    proof {
        assert(result@.wf());
        assert forall|g: DeltaSeqModel|
            g.wf() && delta_payload_fits(g) && blob@ == delta_blob(g) implies result@ == g by {
            if g.n_vectors > 0 {
                lemma_delta_blob_parts(g);
                let gp = gzip_best_of(words_le(g.deltas));
                assert(spec_u32_from_le_bytes(blob@.subrange(0, 4)) == g.n_vectors as u32);
                assert(spec_u32_from_le_bytes(blob@.subrange(4, 8)) == g.dim as u32);
                assert(spec_u32_from_le_bytes(
                    blob@.subrange(8 + 4 * g.dim as int, 12 + 4 * g.dim as int),
                ) == gp.len() as u32);
                assert(result@.anchor =~= le_words(blob@.subrange(8, 8 + 4 * g.dim as int)));
                lemma_le_words_of_words_le(g.anchor);
                assert(payload@ =~= gp);
                assert(data@ == words_le(g.deltas));
                assert(count as int == g.deltas.len());
                assert(data@.subrange(0, 4 * count as int) =~= data@);
                lemma_le_words_of_words_le(g.deltas);
                assert(result@.deltas =~= g.deltas);
                assert(result@ =~= g);
            } else {
                assert(delta_blob(g).len() == 0);
            }
        }
    }
    Ok(result)
}

} // verus!

