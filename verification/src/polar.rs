//! Polar delta codec: vectors in hyperspherical form, the first stored
//! exactly, later ones as a magnitude delta word plus angle deltas
//! quantized to signed 16-bit at scale pi over 32767.
//!
//! Blob layout (little-endian): `n_vectors: u32`, `dim: u32`, the first
//! transformed point's `dim` words (magnitude, then `dim - 1` angles),
//! `payload_length: u32`, then that many bytes of compressed payload:
//! the `n_vectors - 1` magnitude delta words followed by the
//! `(n_vectors - 1) * (dim - 1)` quantized angle deltas.

use vstd::prelude::*;
use vstd::bytes::*;
use vstd::slice::slice_subrange;
use crate::wire::{words_le, le_words, i16s_le, le_i16s, push_words, read_words, push_i16s,
    read_i16s, push_u32_le, read_u32_le, lemma_le_words_of_words_le, lemma_le_i16s_of_i16s_le};
use crate::backends::{gzip_best_of, gzip_pack_best, gzip_unpack};
use crate::MalformedBlobError;
use crate::PayloadTooLargeError;

verus! {

/// A sequence in polar delta form: the first transformed point exactly
/// (magnitude word, then angle words), then per further vector one
/// magnitude delta word and `dim - 1` quantized angle deltas.
pub struct PolarDeltaSeq {
    pub n_vectors: usize,
    pub dim: usize,
    pub anchor: Vec<u32>,
    pub mag_deltas: Vec<u32>,
    pub angle_deltas: Vec<i16>,
}

/// Mathematical image of a `PolarDeltaSeq`.
#[verifier::ext_equal]
pub ghost struct PolarDeltaSeqModel {
    pub n_vectors: nat,
    pub dim: nat,
    pub anchor: Seq<u32>,
    pub mag_deltas: Seq<u32>,
    pub angle_deltas: Seq<i16>,
}

impl PolarDeltaSeqModel {
    /// The hyperspherical transform needs at least two coordinates, so a
    /// nonempty sequence has `dim >= 2`.
    pub open spec fn wf(self) -> bool {
        &&& self.n_vectors <= u32::MAX
        &&& self.dim <= u32::MAX
        &&& if self.n_vectors == 0 {
            self.dim == 0 && self.anchor.len() == 0 && self.mag_deltas.len() == 0
                && self.angle_deltas.len() == 0
        } else {
            &&& self.dim >= 2
            &&& self.anchor.len() == self.dim
            &&& self.mag_deltas.len() == self.n_vectors - 1
            &&& self.angle_deltas.len() == (self.n_vectors - 1) * (self.dim - 1)
        }
    }
}

pub open spec fn empty_polar_model() -> PolarDeltaSeqModel {
    PolarDeltaSeqModel {
        n_vectors: 0,
        dim: 0,
        anchor: Seq::empty(),
        mag_deltas: Seq::empty(),
        angle_deltas: Seq::empty(),
    }
}

impl View for PolarDeltaSeq {
    type V = PolarDeltaSeqModel;

    open spec fn view(&self) -> PolarDeltaSeqModel {
        PolarDeltaSeqModel {
            n_vectors: self.n_vectors as nat,
            dim: self.dim as nat,
            anchor: self.anchor@,
            mag_deltas: self.mag_deltas@,
            angle_deltas: self.angle_deltas@,
        }
    }
}

impl PolarDeltaSeq {
    /// Wraps the parts of a polar delta sequence after checking their
    /// shape; rejects exactly the shapes the codec cannot carry, among
    /// them a dimension below two.
    pub fn new(
        n_vectors: usize,
        dim: usize,
        anchor: Vec<u32>,
        mag_deltas: Vec<u32>,
        angle_deltas: Vec<i16>,
    ) -> (r: Option<PolarDeltaSeq>)
        ensures
            r is Some ==> r->0@ == (PolarDeltaSeqModel {
                n_vectors: n_vectors as nat,
                dim: dim as nat,
                anchor: anchor@,
                mag_deltas: mag_deltas@,
                angle_deltas: angle_deltas@,
            }) && r->0@.wf(),
            r is Some <==> (PolarDeltaSeqModel {
                n_vectors: n_vectors as nat,
                dim: dim as nat,
                anchor: anchor@,
                mag_deltas: mag_deltas@,
                angle_deltas: angle_deltas@,
            }).wf(),
    {
        if n_vectors > 0xffff_ffffusize || dim > 0xffff_ffffusize {
            return None;
        }
        if n_vectors == 0 {
            if dim != 0 || anchor.len() != 0 || mag_deltas.len() != 0 || angle_deltas.len() != 0 {
                return None;
            }
        } else {
            if dim < 2 || anchor.len() != dim || mag_deltas.len() != n_vectors - 1 {
                return None;
            }
            proof {
                assert(((n_vectors - 1) as u64) * ((dim - 1) as u64) < 0x1_0000_0000_0000_0000)
                    by (nonlinear_arith)
                    requires
                        n_vectors >= 1 && n_vectors <= 0xffff_ffff && 1 <= dim <= 0xffff_ffff,
                ;
            }
            if (angle_deltas.len() as u64) != ((n_vectors - 1) as u64) * ((dim - 1) as u64) {
                return None;
            }
        }
        Some(PolarDeltaSeq { n_vectors, dim, anchor, mag_deltas, angle_deltas })
    }
}

/// The delta stream before the backend squeeze: magnitude delta words,
/// then quantized angle deltas.
pub open spec fn polar_payload_src(g: PolarDeltaSeqModel) -> Seq<u8> {
    words_le(g.mag_deltas) + i16s_le(g.angle_deltas)
}

/// The blob the polar delta codec writes; empty for the empty sequence.
pub open spec fn polar_blob(g: PolarDeltaSeqModel) -> Seq<u8> {
    if g.n_vectors == 0 {
        Seq::empty()
    } else {
        let payload = gzip_best_of(polar_payload_src(g));
        spec_u32_to_le_bytes(g.n_vectors as u32) + spec_u32_to_le_bytes(g.dim as u32) + words_le(
            g.anchor,
        ) + spec_u32_to_le_bytes(payload.len() as u32) + payload
    }
}

/// The compressed payload's length fits the blob's 32-bit length field.
pub open spec fn polar_payload_fits(g: PolarDeltaSeqModel) -> bool {
    gzip_best_of(polar_payload_src(g)).len() <= u32::MAX
}

pub proof fn lemma_polar_blob_parts(g: PolarDeltaSeqModel)
    requires
        g.wf(),
        g.n_vectors > 0,
    ensures
        ({
            let b = polar_blob(g);
            let payload = gzip_best_of(polar_payload_src(g));
            &&& b.len() == 12 + 4 * g.dim + payload.len()
            &&& b.subrange(0, 4) =~= spec_u32_to_le_bytes(g.n_vectors as u32)
            &&& b.subrange(4, 8) =~= spec_u32_to_le_bytes(g.dim as u32)
            &&& b.subrange(8, 8 + 4 * g.dim as int) =~= words_le(g.anchor)
            &&& b.subrange(8 + 4 * g.dim as int, 12 + 4 * g.dim as int) =~= spec_u32_to_le_bytes(
                payload.len() as u32,
            )
            &&& b.subrange(12 + 4 * g.dim as int, b.len() as int) =~= payload
        }),
{
    lemma_auto_spec_u32_to_from_le_bytes();
}

/// Encodes a polar delta sequence. The empty sequence yields the empty
/// blob; the only failure is a compressed payload too long for the
/// 32-bit length field.
pub fn polar_delta_compress(seq: &PolarDeltaSeq) -> (r: Result<Vec<u8>, PayloadTooLargeError>)
    requires
        seq@.wf(),
    ensures
        r is Ok ==> r->Ok_0@ == polar_blob(seq@),
        r is Ok <==> (seq@.n_vectors == 0 || polar_payload_fits(seq@)),
{
    if seq.n_vectors == 0 {
        return Ok(Vec::new());
    }
    let mut raw: Vec<u8> = Vec::new();
    push_words(&mut raw, &seq.mag_deltas);
    push_i16s(&mut raw, &seq.angle_deltas);
    assert(raw@ =~= polar_payload_src(seq@));
    let mut packed = gzip_pack_best(&raw);
    if packed.len() > 0xffff_ffffusize {
        return Err(PayloadTooLargeError);
    }
    let mut out: Vec<u8> = Vec::new();
    push_u32_le(&mut out, seq.n_vectors as u32);
    push_u32_le(&mut out, seq.dim as u32);
    push_words(&mut out, &seq.anchor);
    push_u32_le(&mut out, packed.len() as u32);
    out.append(&mut packed);
    assert(out@ =~= polar_blob(seq@));
    Ok(out)
}

/// Decodes a polar delta blob. A blob shorter than the 8-byte header
/// decodes to the empty sequence; internal lengths that do not fit the
/// buffer, or a dimension below two, are malformed. Every blob
/// `polar_delta_compress` can produce decodes to exactly the polar
/// delta sequence it came from.
pub fn polar_delta_decompress(blob: &[u8]) -> (r: Result<PolarDeltaSeq, MalformedBlobError>)
    ensures
        r is Ok ==> r->Ok_0@.wf(),
        blob@.len() < 8 ==> r is Ok && r->Ok_0@ == empty_polar_model(),
        forall|g: PolarDeltaSeqModel|
            g.wf() && polar_payload_fits(g) && blob@ == polar_blob(g) ==> r is Ok && r->Ok_0@
                == g,
{
    let blen = blob.len();
    if blen < 8 {
        let empty = PolarDeltaSeq {
            n_vectors: 0,
            dim: 0,
            anchor: Vec::new(),
            mag_deltas: Vec::new(),
            angle_deltas: Vec::new(),
        };
        proof {
            assert forall|g: PolarDeltaSeqModel|
                g.wf() && polar_payload_fits(g) && blob@ == polar_blob(g) implies empty@ == g by {
                if g.n_vectors > 0 {
                    lemma_polar_blob_parts(g);
                }
                assert(g =~= empty_polar_model());
            }
        }
        return Ok(empty);
    }
    let n_u32 = read_u32_le(blob, 0);
    let dim_u32 = read_u32_le(blob, 4);
    proof {
        lemma_auto_spec_u32_to_from_le_bytes();
    }
    if n_u32 == 0 {
        let empty = PolarDeltaSeq {
            n_vectors: 0,
            dim: 0,
            anchor: Vec::new(),
            mag_deltas: Vec::new(),
            angle_deltas: Vec::new(),
        };
        proof {
            assert forall|g: PolarDeltaSeqModel|
                g.wf() && polar_payload_fits(g) && blob@ == polar_blob(g) implies empty@ == g by {
                if g.n_vectors > 0 {
                    lemma_polar_blob_parts(g);
                    assert(spec_u32_from_le_bytes(blob@.subrange(0, 4)) == g.n_vectors as u32);
                }
            }
        }
        return Ok(empty);
    }
    if dim_u32 < 2 {
        proof {
            assert forall|g: PolarDeltaSeqModel|
                g.wf() && polar_payload_fits(g) && blob@ == polar_blob(g) implies false by {
                if g.n_vectors > 0 {
                    lemma_polar_blob_parts(g);
                    assert(spec_u32_from_le_bytes(blob@.subrange(0, 4)) == g.n_vectors as u32);
                    assert(spec_u32_from_le_bytes(blob@.subrange(4, 8)) == g.dim as u32);
                } else {
                    assert(polar_blob(g).len() == 0);
                }
            }
        }
        return Err(MalformedBlobError);
    }
    let need: u64 = 12u64 + 4u64 * (dim_u32 as u64);
    if (blen as u64) < need {
        proof {
            assert forall|g: PolarDeltaSeqModel|
                g.wf() && polar_payload_fits(g) && blob@ == polar_blob(g) implies false by {
                if g.n_vectors > 0 {
                    lemma_polar_blob_parts(g);
                    assert(spec_u32_from_le_bytes(blob@.subrange(4, 8)) == g.dim as u32);
                } else {
                    assert(polar_blob(g).len() == 0);
                }
            }
        }
        return Err(MalformedBlobError);
    }
    let dim = dim_u32 as usize;
    let anchor = read_words(blob, 8, dim);
    let poff = 8 + 4 * dim;
    let plen_u32 = read_u32_le(blob, poff);
    let plen = plen_u32 as usize;
    let dstart = poff + 4;
    if (blen as u64) < (dstart as u64) + (plen_u32 as u64) {
        proof {
            assert forall|g: PolarDeltaSeqModel|
                g.wf() && polar_payload_fits(g) && blob@ == polar_blob(g) implies false by {
                if g.n_vectors > 0 {
                    lemma_polar_blob_parts(g);
                    let payload = gzip_best_of(polar_payload_src(g));
                    assert(spec_u32_from_le_bytes(blob@.subrange(4, 8)) == g.dim as u32);
                    assert(spec_u32_from_le_bytes(
                        blob@.subrange(8 + 4 * g.dim as int, 12 + 4 * g.dim as int),
                    ) == payload.len() as u32);
                } else {
                    assert(polar_blob(g).len() == 0);
                }
            }
        }
        return Err(MalformedBlobError);
    }
    let payload = slice_subrange(blob, dstart, dstart + plen);
    let data = match gzip_unpack(payload) {
        Ok(d) => d,
        Err(e) => {
            proof {
                assert forall|g: PolarDeltaSeqModel|
                    g.wf() && polar_payload_fits(g) && blob@ == polar_blob(g) implies false by {
                    if g.n_vectors > 0 {
                        lemma_polar_blob_parts(g);
                        let gp = gzip_best_of(polar_payload_src(g));
                        assert(spec_u32_from_le_bytes(blob@.subrange(4, 8)) == g.dim as u32);
                        assert(spec_u32_from_le_bytes(
                            blob@.subrange(8 + 4 * g.dim as int, 12 + 4 * g.dim as int),
                        ) == gp.len() as u32);
                        assert(payload@ =~= gp);
                    } else {
                        assert(polar_blob(g).len() == 0);
                    }
                }
            }
            return Err(e);
        },
    };
    let n_minus_1: u64 = (n_u32 - 1) as u64;
    proof {
        assert(n_minus_1 * ((dim_u32 - 1) as u64) < 0x1_0000_0000_0000_0000) by (nonlinear_arith)
            requires
                n_minus_1 < 0x1_0000_0000 && dim_u32 < 0x1_0000_0000 && dim_u32 >= 2,
        ;
    }
    let ca64: u64 = n_minus_1 * ((dim_u32 - 1) as u64);
    proof {
        assert forall|g: PolarDeltaSeqModel|
            g.wf() && polar_payload_fits(g) && blob@ == polar_blob(g) implies g.n_vectors > 0
            && {
            &&& n_u32 == g.n_vectors as u32
            &&& dim_u32 == g.dim as u32
            &&& anchor@ == g.anchor
            &&& data@ == polar_payload_src(g)
            &&& n_minus_1 == g.mag_deltas.len()
            &&& ca64 == g.angle_deltas.len()
        } by {
            if g.n_vectors > 0 {
                lemma_polar_blob_parts(g);
                let gp = gzip_best_of(polar_payload_src(g));
                assert(spec_u32_from_le_bytes(blob@.subrange(0, 4)) == g.n_vectors as u32);
                assert(spec_u32_from_le_bytes(blob@.subrange(4, 8)) == g.dim as u32);
                assert(spec_u32_from_le_bytes(
                    blob@.subrange(8 + 4 * g.dim as int, 12 + 4 * g.dim as int),
                ) == gp.len() as u32);
                assert(anchor@ =~= le_words(blob@.subrange(8, 8 + 4 * g.dim as int)));
                lemma_le_words_of_words_le(g.anchor);
                assert(payload@ =~= gp);
            } else {
                assert(polar_blob(g).len() == 0);
            }
        }
    }
    let dlen = data.len();
    if (dlen as u64) < 4u64 * n_minus_1 {
        proof {
            assert forall|g: PolarDeltaSeqModel|
                g.wf() && polar_payload_fits(g) && blob@ == polar_blob(g) implies false by {
                assert(data@ == polar_payload_src(g));
            }
        }
        return Err(MalformedBlobError);
    }
    let nm1 = n_minus_1 as usize;
    let moff = 4 * nm1;
    if ((dlen - moff) as u64) / 2 < ca64 {
        proof {
            assert forall|g: PolarDeltaSeqModel|
                g.wf() && polar_payload_fits(g) && blob@ == polar_blob(g) implies false by {
                assert(data@ == polar_payload_src(g));
                assert(ca64 == g.angle_deltas.len());
            }
        }
        return Err(MalformedBlobError);
    }
    let ca = ca64 as usize;
    let mag_deltas = read_words(data.as_slice(), 0, nm1);
    let angle_deltas = read_i16s(data.as_slice(), moff, ca);
    let result = PolarDeltaSeq {
        n_vectors: n_u32 as usize,
        dim,
        anchor,
        mag_deltas,
        angle_deltas,
    };
    proof {
        assert(result@.wf());
        assert forall|g: PolarDeltaSeqModel|
            g.wf() && polar_payload_fits(g) && blob@ == polar_blob(g) implies result@ == g by {
            assert(data@ == polar_payload_src(g));
            assert(n_minus_1 == g.mag_deltas.len());
            assert(ca64 == g.angle_deltas.len());
            assert(data@.subrange(0, 4 * nm1 as int) =~= words_le(g.mag_deltas));
            lemma_le_words_of_words_le(g.mag_deltas);
            assert(result@.mag_deltas =~= g.mag_deltas);
            assert(data@.subrange(moff as int, moff as int + 2 * ca as int) =~= i16s_le(
                g.angle_deltas,
            ));
            lemma_le_i16s_of_i16s_le(g.angle_deltas);
            assert(result@.angle_deltas =~= g.angle_deltas);
            assert(result@ =~= g);
        }
    }
    Ok(result)
}

} // verus!
