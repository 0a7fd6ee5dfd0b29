//! Uniform 8-bit delta codec: deltas are quantized to signed bytes under
//! one scale factor chosen per sequence, shifted to `0..=255`, and squeezed
//! through the deflate-family backend.
//!
//! Blob layout (little-endian): `n_vectors: u32`, `dim: u32`, the scale
//! factor's 32-bit word, the anchor's `dim` words, `payload_length: u32`,
//! then that many bytes of compressed shifted symbols.

use vstd::prelude::*;
use vstd::bytes::*;
use vstd::slice::slice_subrange;
use crate::wire::{words_le, le_words, push_words, read_words, push_u32_le, read_u32_le,
    syms_shifted, bytes_unshifted, push_syms_shifted, unshift_prefix, lemma_unshift_shift,
    lemma_le_words_of_words_le};
use crate::backends::{gzip_best_of, gzip_pack_best, gzip_unpack};
use crate::MalformedBlobError;
use crate::PayloadTooLargeError;

verus! {

/// A sequence quantized for the uniform 8-bit delta codec: the anchor
/// vector's words, one scale word, and a signed byte per delta component.
pub struct ScaledSymbolSeq {
    pub n_vectors: usize,
    pub dim: usize,
    pub scale_bits: u32,
    pub anchor: Vec<u32>,
    pub symbols: Vec<i8>,
}

/// Mathematical image of a `ScaledSymbolSeq`.
#[verifier::ext_equal]
pub ghost struct ScaledSymbolSeqModel {
    pub n_vectors: nat,
    pub dim: nat,
    pub scale_bits: u32,
    pub anchor: Seq<u32>,
    pub symbols: Seq<i8>,
}

impl ScaledSymbolSeqModel {
    pub open spec fn wf(self) -> bool {
        &&& self.n_vectors <= u32::MAX
        &&& self.dim <= u32::MAX
        &&& if self.n_vectors == 0 {
            self.dim == 0 && self.scale_bits == 0 && self.anchor.len() == 0 && self.symbols.len()
                == 0
        } else {
            self.anchor.len() == self.dim && self.symbols.len() == (self.n_vectors - 1) * self.dim
        }
    }
}

pub open spec fn empty_scaled_model() -> ScaledSymbolSeqModel {
    ScaledSymbolSeqModel {
        n_vectors: 0,
        dim: 0,
        scale_bits: 0,
        anchor: Seq::empty(),
        symbols: Seq::empty(),
    }
}

impl View for ScaledSymbolSeq {
    type V = ScaledSymbolSeqModel;

    open spec fn view(&self) -> ScaledSymbolSeqModel {
        ScaledSymbolSeqModel {
            n_vectors: self.n_vectors as nat,
            dim: self.dim as nat,
            scale_bits: self.scale_bits,
            anchor: self.anchor@,
            symbols: self.symbols@,
        }
    }
}

impl ScaledSymbolSeq {
    /// Wraps the parts of a quantized sequence after checking their
    /// shape; rejects exactly the shapes the codec cannot carry.
    pub fn new(
        n_vectors: usize,
        dim: usize,
        scale_bits: u32,
        anchor: Vec<u32>,
        symbols: Vec<i8>,
    ) -> (r: Option<ScaledSymbolSeq>)
        ensures
            r is Some ==> r->0@ == (ScaledSymbolSeqModel {
                n_vectors: n_vectors as nat,
                dim: dim as nat,
                scale_bits: scale_bits,
                anchor: anchor@,
                symbols: symbols@,
            }) && r->0@.wf(),
            r is Some <==> (ScaledSymbolSeqModel {
                n_vectors: n_vectors as nat,
                dim: dim as nat,
                scale_bits: scale_bits,
                anchor: anchor@,
                symbols: symbols@,
            }).wf(),
    {
        if n_vectors > 0xffff_ffffusize || dim > 0xffff_ffffusize {
            return None;
        }
        if n_vectors == 0 {
            if dim != 0 || scale_bits != 0 || anchor.len() != 0 || symbols.len() != 0 {
                return None;
            }
        } else {
            proof {
                assert(((n_vectors - 1) as u64) * (dim as u64) < 0x1_0000_0000_0000_0000)
                    by (nonlinear_arith)
                    requires
                        n_vectors >= 1 && n_vectors <= 0xffff_ffff && dim <= 0xffff_ffff,
                ;
            }
            if anchor.len() != dim || (symbols.len() as u64) != ((n_vectors - 1) as u64) * (
            dim as u64) {
                return None;
            }
        }
        Some(ScaledSymbolSeq { n_vectors, dim, scale_bits, anchor, symbols })
    }
}

/// The blob the uniform 8-bit codec writes; empty for the empty sequence.
pub open spec fn scaled_blob(g: ScaledSymbolSeqModel) -> Seq<u8> {
    if g.n_vectors == 0 {
        Seq::empty()
    } else {
        let payload = gzip_best_of(syms_shifted(g.symbols));
        spec_u32_to_le_bytes(g.n_vectors as u32) + spec_u32_to_le_bytes(g.dim as u32)
            + spec_u32_to_le_bytes(g.scale_bits) + words_le(g.anchor) + spec_u32_to_le_bytes(
            payload.len() as u32,
        ) + payload
    }
}

/// The compressed payload's length fits the blob's 32-bit length field.
pub open spec fn scaled_payload_fits(g: ScaledSymbolSeqModel) -> bool {
    gzip_best_of(syms_shifted(g.symbols)).len() <= u32::MAX
}

pub proof fn lemma_scaled_blob_parts(g: ScaledSymbolSeqModel)
    requires
        g.wf(),
        g.n_vectors > 0,
    ensures
        ({
            let b = scaled_blob(g);
            let payload = gzip_best_of(syms_shifted(g.symbols));
            &&& b.len() == 16 + 4 * g.dim + payload.len()
            &&& b.subrange(0, 4) =~= spec_u32_to_le_bytes(g.n_vectors as u32)
            &&& b.subrange(4, 8) =~= spec_u32_to_le_bytes(g.dim as u32)
            &&& b.subrange(8, 12) =~= spec_u32_to_le_bytes(g.scale_bits)
            &&& b.subrange(12, 12 + 4 * g.dim as int) =~= words_le(g.anchor)
            &&& b.subrange(12 + 4 * g.dim as int, 16 + 4 * g.dim as int) =~= spec_u32_to_le_bytes(
                payload.len() as u32,
            )
            &&& b.subrange(16 + 4 * g.dim as int, b.len() as int) =~= payload
        }),
{
    lemma_auto_spec_u32_to_from_le_bytes();
}

/// Encodes a quantized sequence. The empty sequence yields the empty
/// blob; the only failure is a compressed payload too long for the
/// 32-bit length field.
pub fn delta_ans_compress(seq: &ScaledSymbolSeq) -> (r: Result<Vec<u8>, PayloadTooLargeError>)
    requires
        seq@.wf(),
    ensures
        r is Ok ==> r->Ok_0@ == scaled_blob(seq@),
        r is Ok <==> (seq@.n_vectors == 0 || scaled_payload_fits(seq@)),
{
    if seq.n_vectors == 0 {
        return Ok(Vec::new());
    }
    let mut raw: Vec<u8> = Vec::new();
    push_syms_shifted(&mut raw, &seq.symbols);
    let mut packed = gzip_pack_best(&raw);
    if packed.len() > 0xffff_ffffusize {
        return Err(PayloadTooLargeError);
    }
    let mut out: Vec<u8> = Vec::new();
    push_u32_le(&mut out, seq.n_vectors as u32);
    push_u32_le(&mut out, seq.dim as u32);
    push_u32_le(&mut out, seq.scale_bits);
    push_words(&mut out, &seq.anchor);
    push_u32_le(&mut out, packed.len() as u32);
    out.append(&mut packed);
    assert(out@ =~= scaled_blob(seq@));
    Ok(out)
}

/// Decodes a uniform 8-bit delta blob. A blob shorter than its 12-byte
/// minimum decodes to the empty sequence; internal lengths that do not
/// fit the buffer are malformed. Every blob `delta_ans_compress` can
/// produce decodes to exactly the quantized sequence it came from.
pub fn delta_ans_decompress(blob: &[u8]) -> (r: Result<ScaledSymbolSeq, MalformedBlobError>)
    ensures
        r is Ok ==> r->Ok_0@.wf(),
        blob@.len() < 12 ==> r is Ok && r->Ok_0@ == empty_scaled_model(),
        forall|g: ScaledSymbolSeqModel|
            g.wf() && scaled_payload_fits(g) && blob@ == scaled_blob(g) ==> r is Ok && r->Ok_0@
                == g,
{
    let blen = blob.len();
    if blen < 12 {
        let empty = ScaledSymbolSeq {
            n_vectors: 0,
            dim: 0,
            scale_bits: 0,
            anchor: Vec::new(),
            symbols: Vec::new(),
        };
        proof {
            assert forall|g: ScaledSymbolSeqModel|
                g.wf() && scaled_payload_fits(g) && blob@ == scaled_blob(g) implies empty@
                == g by {
                if g.n_vectors > 0 {
                    lemma_scaled_blob_parts(g);
                }
                assert(g =~= empty_scaled_model());
            }
        }
        return Ok(empty);
    }
    let n_u32 = read_u32_le(blob, 0);
    let dim_u32 = read_u32_le(blob, 4);
    let scale_bits = read_u32_le(blob, 8);
    proof {
        lemma_auto_spec_u32_to_from_le_bytes();
    }
    if n_u32 == 0 {
        let empty = ScaledSymbolSeq {
            n_vectors: 0,
            dim: 0,
            scale_bits: 0,
            anchor: Vec::new(),
            symbols: Vec::new(),
        };
        proof {
            assert forall|g: ScaledSymbolSeqModel|
                g.wf() && scaled_payload_fits(g) && blob@ == scaled_blob(g) implies empty@
                == g by {
                if g.n_vectors > 0 {
                    lemma_scaled_blob_parts(g);
                    assert(spec_u32_from_le_bytes(blob@.subrange(0, 4)) == g.n_vectors as u32);
                }
            }
        }
        return Ok(empty);
    }
    let need: u64 = 16u64 + 4u64 * (dim_u32 as u64);
    if (blen as u64) < need {
        proof {
            assert forall|g: ScaledSymbolSeqModel|
                g.wf() && scaled_payload_fits(g) && blob@ == scaled_blob(g) implies false by {
                if g.n_vectors > 0 {
                    lemma_scaled_blob_parts(g);
                    assert(spec_u32_from_le_bytes(blob@.subrange(4, 8)) == g.dim as u32);
                } else {
                    assert(scaled_blob(g).len() == 0);
                }
            }
        }
        return Err(MalformedBlobError);
    }
    let dim = dim_u32 as usize;
    let anchor = read_words(blob, 12, dim);
    let poff = 12 + 4 * dim;
    let plen_u32 = read_u32_le(blob, poff);
    let plen = plen_u32 as usize;
    let dstart = poff + 4;
    if (blen as u64) < (dstart as u64) + (plen_u32 as u64) {
        proof {
            assert forall|g: ScaledSymbolSeqModel|
                g.wf() && scaled_payload_fits(g) && blob@ == scaled_blob(g) implies false by {
                if g.n_vectors > 0 {
                    lemma_scaled_blob_parts(g);
                    let payload = gzip_best_of(syms_shifted(g.symbols));
                    assert(spec_u32_from_le_bytes(blob@.subrange(4, 8)) == g.dim as u32);
                    assert(spec_u32_from_le_bytes(
                        blob@.subrange(12 + 4 * g.dim as int, 16 + 4 * g.dim as int),
                    ) == payload.len() as u32);
                } else {
                    assert(scaled_blob(g).len() == 0);
                }
            }
        }
        return Err(MalformedBlobError);
    }
    let payload = slice_subrange(blob, dstart, dstart + plen);
    let data = match gzip_unpack(payload) {
        Ok(d) => d,
        Err(e) => {
            proof {
                assert forall|g: ScaledSymbolSeqModel|
                    g.wf() && scaled_payload_fits(g) && blob@ == scaled_blob(g) implies false by {
                    if g.n_vectors > 0 {
                        lemma_scaled_blob_parts(g);
                        let gp = gzip_best_of(syms_shifted(g.symbols));
                        assert(spec_u32_from_le_bytes(blob@.subrange(4, 8)) == g.dim as u32);
                        assert(spec_u32_from_le_bytes(
                            blob@.subrange(12 + 4 * g.dim as int, 16 + 4 * g.dim as int),
                        ) == gp.len() as u32);
                        assert(payload@ =~= gp);
                    } else {
                        assert(scaled_blob(g).len() == 0);
                    }
                }
            }
            return Err(e);
        },
    };
    let n_minus_1: u64 = (n_u32 - 1) as u64;
    proof {
        assert(n_minus_1 * (dim_u32 as u64) < 0x1_0000_0000_0000_0000) by (nonlinear_arith)
            requires
                n_minus_1 < 0x1_0000_0000 && dim_u32 < 0x1_0000_0000,
        ;
    }
    let count64: u64 = n_minus_1 * (dim_u32 as u64);
    proof {
        assert forall|g: ScaledSymbolSeqModel|
            g.wf() && scaled_payload_fits(g) && blob@ == scaled_blob(g) implies g.n_vectors > 0
            && {
            &&& n_u32 == g.n_vectors as u32
            &&& dim_u32 == g.dim as u32
            &&& scale_bits == g.scale_bits
            &&& anchor@ == g.anchor
            &&& bytes_unshifted(data@) == g.symbols
            &&& count64 == g.symbols.len()
        } by {
            if g.n_vectors > 0 {
                lemma_scaled_blob_parts(g);
                let gw = syms_shifted(g.symbols);
                let gp = gzip_best_of(gw);
                assert(spec_u32_from_le_bytes(blob@.subrange(0, 4)) == g.n_vectors as u32);
                assert(spec_u32_from_le_bytes(blob@.subrange(4, 8)) == g.dim as u32);
                assert(spec_u32_from_le_bytes(blob@.subrange(8, 12)) == g.scale_bits);
                assert(spec_u32_from_le_bytes(
                    blob@.subrange(12 + 4 * g.dim as int, 16 + 4 * g.dim as int),
                ) == gp.len() as u32);
                assert(anchor@ =~= le_words(blob@.subrange(12, 12 + 4 * g.dim as int)));
                lemma_le_words_of_words_le(g.anchor);
                assert(payload@ =~= gp);
                assert(data@ == gw);
                lemma_unshift_shift(g.symbols);
            } else {
                assert(scaled_blob(g).len() == 0);
            }
        }
    }
    if (data.len() as u64) < count64 {
        proof {
            assert forall|g: ScaledSymbolSeqModel|
                g.wf() && scaled_payload_fits(g) && blob@ == scaled_blob(g) implies false by {
                assert(bytes_unshifted(data@) == g.symbols);
                assert(count64 == g.symbols.len());
            }
        }
        return Err(MalformedBlobError);
    }
    let count = count64 as usize;
    let symbols = unshift_prefix(&data, count);
    let result = ScaledSymbolSeq { n_vectors: n_u32 as usize, dim, scale_bits, anchor, symbols };
    proof {
        assert(result@.wf());
        assert forall|g: ScaledSymbolSeqModel|
            g.wf() && scaled_payload_fits(g) && blob@ == scaled_blob(g) implies result@ == g by {
            assert(bytes_unshifted(data@) == g.symbols);
            assert(count as int == g.symbols.len());
            assert(result@.symbols =~= g.symbols);
            assert(result@ =~= g);
        }
    }
    Ok(result)
}

} // verus!
