//! Attractor codec: a low-dimensional trajectory extracted from the
//! sequence. The retained coordinates are the `k` original dimensions of
//! highest variance (descending, ties broken by lower index); the blob
//! carries the per-dimension mean, the retained indices, the first
//! projected point exactly, and later points as 16-bit quantized deltas.
//!
//! Blob layout (little-endian): `n_vectors: u32`, `dim: u32`, `k: u32`,
//! the mean's `dim` words, the `k` retained indices, `payload_length:
//! u32`, then that many bytes of compressed payload: the first projected
//! point's `k` words followed by the `(n_vectors - 1) * k` deltas.

use vstd::prelude::*;
use vstd::bytes::*;
use vstd::slice::slice_subrange;
use crate::wire::{words_le, le_words, i16s_le, le_i16s, push_words, read_words, push_i16s,
    read_i16s, push_u32_le, read_u32_le, lemma_le_words_of_words_le, lemma_le_i16s_of_i16s_le};
use crate::backends::{gzip_best_of, gzip_pack_best, gzip_unpack};
use crate::MalformedBlobError;
use crate::PayloadTooLargeError;

verus! {

/// Ranking used to retain dimensions: higher variance first, lower
/// index on equal variance.
pub open spec fn dim_precedes(v: Seq<u64>, a: int, b: int) -> bool {
    v[a] > v[b] || (v[a] == v[b] && a < b)
}

/// Some slot of `r` names dimension `d`.
pub open spec fn selected(r: Seq<u32>, d: int) -> bool {
    exists|j: int| 0 <= j < r.len() && r[j] == d
}

/// How many dimensions the codec retains: the requested count, capped
/// by the dimension and by fifty.
pub open spec fn retained_count(n_components: int, dim: int) -> int {
    let a = if n_components <= dim {
        n_components
    } else {
        dim
    };
    if a <= 50 {
        a
    } else {
        50
    }
}

spec fn count_true(s: Seq<bool>) -> nat
    decreases s.len(),
{
    if s.len() == 0 {
        0
    } else {
        count_true(s.drop_last()) + if s.last() {
            1nat
        } else {
            0nat
        }
    }
}

proof fn lemma_count_true_update(s: Seq<bool>, d: int)
    requires
        0 <= d < s.len(),
        !s[d],
    ensures
        count_true(s.update(d, true)) == count_true(s) + 1,
    decreases s.len(),
{
    if d == s.len() - 1 {
        assert(s.update(d, true).drop_last() =~= s.drop_last());
    } else {
        assert(s.update(d, true).drop_last() =~= s.drop_last().update(d, true));
        lemma_count_true_update(s.drop_last(), d);
    }
}

proof fn lemma_count_true_all(s: Seq<bool>)
    requires
        forall|d: int| 0 <= d < s.len() ==> s[d],
    ensures
        count_true(s) == s.len(),
    decreases s.len(),
{
    if s.len() > 0 {
        lemma_count_true_all(s.drop_last());
    }
}

/// Ranks the dimensions by variance and returns the retained ones:
/// every retained dimension precedes every dropped one, and the list
/// itself is in ranking order. Variances compare as unsigned words,
/// which orders the bit patterns of nonnegative doubles like the
/// doubles themselves.
pub fn select_top_variance_dims(variances: &Vec<u64>, n_components: usize) -> (r: Vec<u32>)
    requires
        variances@.len() <= u32::MAX,
    ensures
        r@.len() == retained_count(n_components as int, variances@.len() as int),
        forall|i: int| 0 <= i < r@.len() ==> (#[trigger] r@[i]) < variances@.len(),
        forall|i: int, j: int|
            0 <= i < j < r@.len() ==> dim_precedes(variances@, r@[i] as int, r@[j] as int),
        forall|i: int, j: int| 0 <= i < j < r@.len() ==> r@[i] != r@[j],
        forall|i: int, d: int|
            0 <= i < r@.len() && 0 <= d < variances@.len() && !selected(r@, d) ==> dim_precedes(
                variances@,
                r@[i] as int,
                d,
            ),
{
    let dim = variances.len();
    let mut k = n_components;
    if k > dim {
        k = dim;
    }
    if k > 50 {
        k = 50;
    }
    let mut taken: Vec<bool> = Vec::new();
    let mut d: usize = 0;
    while d < dim
        invariant
            d <= dim,
            taken@.len() == d,
            forall|m: int| 0 <= m < d ==> !taken@[m],
        decreases dim - d,
    {
        taken.push(false);
        d = d + 1;
    }
    proof {
        lemma_prefix_false(taken@);
    }
    let mut r: Vec<u32> = Vec::new();
    let mut t: usize = 0;
    while t < k
        invariant
            t <= k,
            k <= dim,
            k == retained_count(n_components as int, dim as int),
            dim == variances@.len() <= u32::MAX,
            taken@.len() == dim,
            r@.len() == t,
            count_true(taken@) == t,
            forall|d2: int| 0 <= d2 < dim ==> ((#[trigger] taken@[d2]) <==> selected(r@, d2)),
            forall|i: int| 0 <= i < t ==> (#[trigger] r@[i]) < dim,
            forall|i: int, j: int|
                0 <= i < j < t ==> dim_precedes(variances@, r@[i] as int, r@[j] as int),
            forall|i: int, d2: int|
                0 <= i < t && 0 <= d2 < dim && !taken@[d2] ==> dim_precedes(
                    variances@,
                    r@[i] as int,
                    d2,
                ),
        decreases k - t,
    {
        let mut best: usize = 0;
        let mut found = false;
        let mut j: usize = 0;
        while j < dim
            invariant
                j <= dim,
                dim == variances@.len(),
                taken@.len() == dim,
                found ==> best < j && !taken@[best as int],
                found ==> forall|m: int|
                    0 <= m < j && !taken@[m] ==> (best == m || dim_precedes(
                        variances@,
                        best as int,
                        m,
                    )),
                !found ==> forall|m: int| 0 <= m < j ==> taken@[m],
                !found ==> best == 0,
            decreases dim - j,
        {
            if !taken[j] {
                if !found {
                    best = j;
                    found = true;
                } else if variances[j] > variances[best] {
                    best = j;
                }
            }
            j = j + 1;
        }
        if !found {
            proof {
                lemma_count_true_all(taken@);
            }
            assert(false);
        }
        let ghost r_old = r@;
        r.push(best as u32);
        let ghost taken_old = taken@;
        taken.set(best, true);
        proof {
            lemma_count_true_update(taken_old, best as int);
            assert forall|d2: int| 0 <= d2 < dim implies ((#[trigger] taken@[d2]) <==> selected(
                r@,
                d2,
            )) by {
                if d2 == best as int {
                    assert(r@[t as int] == best as u32);
                } else {
                    if selected(r@, d2) {
                        let w = choose|w: int| 0 <= w < r@.len() && r@[w] == d2;
                        assert(w < t);
                        assert(selected(r_old, d2));
                    }
                    if selected(r_old, d2) {
                        let w = choose|w: int| 0 <= w < r_old.len() && r_old[w] == d2;
                        assert(r@[w] == d2);
                    }
                }
            }
            assert forall|i: int, j2: int|
                0 <= i < j2 < t + 1 implies dim_precedes(variances@, r@[i] as int, r@[j2] as int) by {
                if j2 == t as int {
                    assert(!taken_old[r@[t as int] as int]);
                }
            }
        }
        t = t + 1;
    }
    proof {
        assert forall|i: int, j: int| 0 <= i < j < r@.len() implies r@[i] != r@[j] by {
            assert(dim_precedes(variances@, r@[i] as int, r@[j] as int));
        }
        assert forall|i: int, d2: int|
            0 <= i < r@.len() && 0 <= d2 < variances@.len() && !selected(r@, d2) implies
            dim_precedes(variances@, r@[i] as int, d2) by {
            assert(!taken@[d2]);
        }
    }
    r
}

proof fn lemma_prefix_false(s: Seq<bool>)
    requires
        forall|m: int| 0 <= m < s.len() ==> !s[m],
    ensures
        count_true(s) == 0,
    decreases s.len(),
{
    if s.len() > 0 {
        lemma_prefix_false(s.drop_last());
    }
}

/// Checks that a retained-dimension list is in range and repeats no
/// index.
fn dims_valid(dims: &Vec<u32>, dim: u32) -> (ok: bool)
    ensures
        ok <==> ((forall|a: int| 0 <= a < dims@.len() ==> (#[trigger] dims@[a]) < dim) && (forall|
            a: int,
            b: int,
        |
            0 <= a < b < dims@.len() ==> dims@[a] != dims@[b])),
{
    let k = dims.len();
    let mut i: usize = 0;
    while i < k
        invariant
            i <= k,
            k == dims@.len(),
            forall|a: int| 0 <= a < i ==> (#[trigger] dims@[a]) < dim,
            forall|a: int, b: int| 0 <= a < b < i ==> dims@[a] != dims@[b],
        decreases k - i,
    {
        if dims[i] >= dim {
            return false;
        }
        let mut j: usize = 0;
        while j < i
            invariant
                j <= i < k,
                k == dims@.len(),
                forall|b: int| 0 <= b < j ==> dims@[b] != dims@[i as int],
            decreases i - j,
        {
            if dims[j] == dims[i] {
                return false;
            }
            j = j + 1;
        }
        i = i + 1;
    }
    true
}

/// A sequence in attractor form: per-dimension mean words, the retained
/// dimension indices, the first projected point exactly, and 16-bit
/// quantized deltas for the rest of the trajectory.
pub struct AttractorSeq {
    pub n_vectors: usize,
    pub dim: usize,
    pub k: usize,
    pub mean: Vec<u32>,
    pub dims: Vec<u32>,
    pub anchor: Vec<u32>,
    pub deltas: Vec<i16>,
}

/// Mathematical image of an `AttractorSeq`.
#[verifier::ext_equal]
pub ghost struct AttractorSeqModel {
    pub n_vectors: nat,
    pub dim: nat,
    pub k: nat,
    pub mean: Seq<u32>,
    pub dims: Seq<u32>,
    pub anchor: Seq<u32>,
    pub deltas: Seq<i16>,
}

impl AttractorSeqModel {
    /// At most fifty retained dimensions, each a distinct index below
    /// `dim`; streams sized by `k` and the vector count.
    pub open spec fn wf(self) -> bool {
        &&& self.n_vectors <= u32::MAX
        &&& self.dim <= u32::MAX
        &&& if self.n_vectors == 0 {
            self.dim == 0 && self.k == 0 && self.mean.len() == 0 && self.dims.len() == 0
                && self.anchor.len() == 0 && self.deltas.len() == 0
        } else {
            &&& self.k <= self.dim
            &&& self.k <= 50
            &&& self.mean.len() == self.dim
            &&& self.dims.len() == self.k
            &&& forall|i: int| 0 <= i < self.k ==> (#[trigger] self.dims[i]) < self.dim
            &&& forall|i: int, j: int| 0 <= i < j < self.k ==> self.dims[i] != self.dims[j]
            &&& self.anchor.len() == self.k
            &&& self.deltas.len() == (self.n_vectors - 1) * self.k
        }
    }
}

pub open spec fn empty_attractor_model() -> AttractorSeqModel {
    AttractorSeqModel {
        n_vectors: 0,
        dim: 0,
        k: 0,
        mean: Seq::empty(),
        dims: Seq::empty(),
        anchor: Seq::empty(),
        deltas: Seq::empty(),
    }
}

impl View for AttractorSeq {
    type V = AttractorSeqModel;

    open spec fn view(&self) -> AttractorSeqModel {
        AttractorSeqModel {
            n_vectors: self.n_vectors as nat,
            dim: self.dim as nat,
            k: self.k as nat,
            mean: self.mean@,
            dims: self.dims@,
            anchor: self.anchor@,
            deltas: self.deltas@,
        }
    }
}

impl AttractorSeq {
    /// Wraps the parts of an attractor sequence after checking their
    /// shape; rejects exactly the shapes the codec cannot carry, among
    /// them an oversized, out-of-range or repeating retained-dimension
    /// list.
    pub fn new(
        n_vectors: usize,
        dim: usize,
        k: usize,
        mean: Vec<u32>,
        dims: Vec<u32>,
        anchor: Vec<u32>,
        deltas: Vec<i16>,
    ) -> (r: Option<AttractorSeq>)
        ensures
            r is Some ==> r->0@ == (AttractorSeqModel {
                n_vectors: n_vectors as nat,
                dim: dim as nat,
                k: k as nat,
                mean: mean@,
                dims: dims@,
                anchor: anchor@,
                deltas: deltas@,
            }) && r->0@.wf(),
            r is Some <==> (AttractorSeqModel {
                n_vectors: n_vectors as nat,
                dim: dim as nat,
                k: k as nat,
                mean: mean@,
                dims: dims@,
                anchor: anchor@,
                deltas: deltas@,
            }).wf(),
    {
        if n_vectors > 0xffff_ffffusize || dim > 0xffff_ffffusize {
            return None;
        }
        if n_vectors == 0 {
            if dim != 0 || k != 0 || mean.len() != 0 || dims.len() != 0 || anchor.len() != 0
                || deltas.len() != 0 {
                return None;
            }
        } else {
            if k > dim || k > 50 || mean.len() != dim || dims.len() != k || anchor.len() != k {
                return None;
            }
            proof {
                assert(((n_vectors - 1) as u64) * (k as u64) < 0x1_0000_0000_0000_0000)
                    by (nonlinear_arith)
                    requires
                        n_vectors >= 1 && n_vectors <= 0xffff_ffff && k <= 50,
                ;
            }
            if (deltas.len() as u64) != ((n_vectors - 1) as u64) * (k as u64) {
                return None;
            }
            if !dims_valid(&dims, dim as u32) {
                return None;
            }
        }
        Some(AttractorSeq { n_vectors, dim, k, mean, dims, anchor, deltas })
    }
}

/// The trajectory bytes before the backend squeeze: the first projected
/// point's words, then the quantized deltas.
pub open spec fn attractor_payload_src(g: AttractorSeqModel) -> Seq<u8> {
    words_le(g.anchor) + i16s_le(g.deltas)
}

/// The blob the attractor codec writes; empty for the empty sequence.
pub open spec fn attractor_blob(g: AttractorSeqModel) -> Seq<u8> {
    if g.n_vectors == 0 {
        Seq::empty()
    } else {
        let payload = gzip_best_of(attractor_payload_src(g));
        spec_u32_to_le_bytes(g.n_vectors as u32) + spec_u32_to_le_bytes(g.dim as u32)
            + spec_u32_to_le_bytes(g.k as u32) + words_le(g.mean) + words_le(g.dims)
            + spec_u32_to_le_bytes(payload.len() as u32) + payload
    }
}

/// The compressed payload's length fits the blob's 32-bit length field.
pub open spec fn attractor_payload_fits(g: AttractorSeqModel) -> bool {
    gzip_best_of(attractor_payload_src(g)).len() <= u32::MAX
}

pub proof fn lemma_attractor_blob_parts(g: AttractorSeqModel)
    requires
        g.wf(),
        g.n_vectors > 0,
    ensures
        ({
            let b = attractor_blob(g);
            let payload = gzip_best_of(attractor_payload_src(g));
            let d = g.dim as int;
            let k = g.k as int;
            &&& b.len() == 16 + 4 * d + 4 * k + payload.len()
            &&& b.subrange(0, 4) =~= spec_u32_to_le_bytes(g.n_vectors as u32)
            &&& b.subrange(4, 8) =~= spec_u32_to_le_bytes(g.dim as u32)
            &&& b.subrange(8, 12) =~= spec_u32_to_le_bytes(g.k as u32)
            &&& b.subrange(12, 12 + 4 * d) =~= words_le(g.mean)
            &&& b.subrange(12 + 4 * d, 12 + 4 * d + 4 * k) =~= words_le(g.dims)
            &&& b.subrange(12 + 4 * d + 4 * k, 16 + 4 * d + 4 * k) =~= spec_u32_to_le_bytes(
                payload.len() as u32,
            )
            &&& b.subrange(16 + 4 * d + 4 * k, b.len() as int) =~= payload
        }),
{
    lemma_auto_spec_u32_to_from_le_bytes();
}

/// Encodes an attractor sequence. The empty sequence yields the empty
/// blob; the only failure is a compressed payload too long for the
/// 32-bit length field.
pub fn attractor_compress(seq: &AttractorSeq) -> (r: Result<Vec<u8>, PayloadTooLargeError>)
    requires
        seq@.wf(),
    ensures
        r is Ok ==> r->Ok_0@ == attractor_blob(seq@),
        r is Ok <==> (seq@.n_vectors == 0 || attractor_payload_fits(seq@)),
{
    if seq.n_vectors == 0 {
        return Ok(Vec::new());
    }
    let mut raw: Vec<u8> = Vec::new();
    push_words(&mut raw, &seq.anchor);
    push_i16s(&mut raw, &seq.deltas);
    assert(raw@ =~= attractor_payload_src(seq@));
    let mut packed = gzip_pack_best(&raw);
    if packed.len() > 0xffff_ffffusize {
        return Err(PayloadTooLargeError);
    }
    let mut out: Vec<u8> = Vec::new();
    push_u32_le(&mut out, seq.n_vectors as u32);
    push_u32_le(&mut out, seq.dim as u32);
    push_u32_le(&mut out, seq.k as u32);
    push_words(&mut out, &seq.mean);
    push_words(&mut out, &seq.dims);
    push_u32_le(&mut out, packed.len() as u32);
    out.append(&mut packed);
    assert(out@ =~= attractor_blob(seq@));
    Ok(out)
}

/// Decodes an attractor blob. A blob shorter than its 12-byte minimum
/// decodes to the empty sequence; internal lengths that do not fit the
/// buffer, or a retained-dimension list that is oversized, out of range
/// or repeating, are malformed. Every blob `attractor_compress` can
/// produce decodes to exactly the attractor sequence it came from.
pub fn attractor_decompress(blob: &[u8]) -> (r: Result<AttractorSeq, MalformedBlobError>)
    ensures
        r is Ok ==> r->Ok_0@.wf(),
        blob@.len() < 12 ==> r is Ok && r->Ok_0@ == empty_attractor_model(),
        forall|g: AttractorSeqModel|
            g.wf() && attractor_payload_fits(g) && blob@ == attractor_blob(g) ==> r is Ok
                && r->Ok_0@ == g,
{
    let blen = blob.len();
    if blen < 12 {
        let empty = AttractorSeq {
            n_vectors: 0,
            dim: 0,
            k: 0,
            mean: Vec::new(),
            dims: Vec::new(),
            anchor: Vec::new(),
            deltas: Vec::new(),
        };
        proof {
            assert forall|g: AttractorSeqModel|
                g.wf() && attractor_payload_fits(g) && blob@ == attractor_blob(g) implies empty@
                == g by {
                if g.n_vectors > 0 {
                    lemma_attractor_blob_parts(g);
                }
                assert(g =~= empty_attractor_model());
            }
        }
        return Ok(empty);
    }
    let n_u32 = read_u32_le(blob, 0);
    let dim_u32 = read_u32_le(blob, 4);
    let k_u32 = read_u32_le(blob, 8);
    proof {
        lemma_auto_spec_u32_to_from_le_bytes();
    }
    if n_u32 == 0 {
        let empty = AttractorSeq {
            n_vectors: 0,
            dim: 0,
            k: 0,
            mean: Vec::new(),
            dims: Vec::new(),
            anchor: Vec::new(),
            deltas: Vec::new(),
        };
        proof {
            assert forall|g: AttractorSeqModel|
                g.wf() && attractor_payload_fits(g) && blob@ == attractor_blob(g) implies empty@
                == g by {
                if g.n_vectors > 0 {
                    lemma_attractor_blob_parts(g);
                    assert(spec_u32_from_le_bytes(blob@.subrange(0, 4)) == g.n_vectors as u32);
                }
            }
        }
        return Ok(empty);
    }
    if k_u32 > 50 || k_u32 > dim_u32 {
        proof {
            assert forall|g: AttractorSeqModel|
                g.wf() && attractor_payload_fits(g) && blob@ == attractor_blob(g) implies false by {
                if g.n_vectors > 0 {
                    lemma_attractor_blob_parts(g);
                    assert(spec_u32_from_le_bytes(blob@.subrange(0, 4)) == g.n_vectors as u32);
                    assert(spec_u32_from_le_bytes(blob@.subrange(4, 8)) == g.dim as u32);
                    assert(spec_u32_from_le_bytes(blob@.subrange(8, 12)) == g.k as u32);
                } else {
                    assert(attractor_blob(g).len() == 0);
                }
            }
        }
        return Err(MalformedBlobError);
    }
    let need: u64 = 16u64 + 4u64 * (dim_u32 as u64) + 4u64 * (k_u32 as u64);
    if (blen as u64) < need {
        proof {
            assert forall|g: AttractorSeqModel|
                g.wf() && attractor_payload_fits(g) && blob@ == attractor_blob(g) implies false by {
                if g.n_vectors > 0 {
                    lemma_attractor_blob_parts(g);
                    assert(spec_u32_from_le_bytes(blob@.subrange(4, 8)) == g.dim as u32);
                    assert(spec_u32_from_le_bytes(blob@.subrange(8, 12)) == g.k as u32);
                } else {
                    assert(attractor_blob(g).len() == 0);
                }
            }
        }
        return Err(MalformedBlobError);
    }
    let dim = dim_u32 as usize;
    let k = k_u32 as usize;
    let mean = read_words(blob, 12, dim);
    let dims = read_words(blob, 12 + 4 * dim, k);
    let poff = 12 + 4 * dim + 4 * k;
    let plen_u32 = read_u32_le(blob, poff);
    let plen = plen_u32 as usize;
    let dstart = poff + 4;
    proof {
        assert forall|g: AttractorSeqModel|
            g.wf() && attractor_payload_fits(g) && blob@ == attractor_blob(g) implies g.n_vectors
            > 0 && {
            &&& n_u32 == g.n_vectors as u32
            &&& dim_u32 == g.dim as u32
            &&& k_u32 == g.k as u32
            &&& mean@ == g.mean
            &&& dims@ == g.dims
            &&& plen == gzip_best_of(attractor_payload_src(g)).len()
            &&& blob@.subrange(dstart as int, dstart as int + plen as int) =~= gzip_best_of(
                attractor_payload_src(g),
            )
        } by {
            if g.n_vectors > 0 {
                lemma_attractor_blob_parts(g);
                let d = g.dim as int;
                let gk = g.k as int;
                let gp = gzip_best_of(attractor_payload_src(g));
                assert(spec_u32_from_le_bytes(blob@.subrange(0, 4)) == g.n_vectors as u32);
                assert(spec_u32_from_le_bytes(blob@.subrange(4, 8)) == g.dim as u32);
                assert(spec_u32_from_le_bytes(blob@.subrange(8, 12)) == g.k as u32);
                assert(mean@ =~= le_words(blob@.subrange(12, 12 + 4 * d)));
                lemma_le_words_of_words_le(g.mean);
                assert(dims@ =~= le_words(blob@.subrange(12 + 4 * d, 12 + 4 * d + 4 * gk)));
                lemma_le_words_of_words_le(g.dims);
                assert(spec_u32_from_le_bytes(
                    blob@.subrange(12 + 4 * d + 4 * gk, 16 + 4 * d + 4 * gk),
                ) == gp.len() as u32);
                assert(blob@.subrange(dstart as int, dstart as int + plen as int) =~= gp);
            } else {
                assert(attractor_blob(g).len() == 0);
            }
        }
    }
    if !dims_valid(&dims, dim_u32) {
        proof {
            assert forall|g: AttractorSeqModel|
                g.wf() && attractor_payload_fits(g) && blob@ == attractor_blob(g) implies false by {
                assert(dims@ == g.dims);
            }
        }
        return Err(MalformedBlobError);
    }
    if (blen as u64) < (dstart as u64) + (plen_u32 as u64) {
        proof {
            assert forall|g: AttractorSeqModel|
                g.wf() && attractor_payload_fits(g) && blob@ == attractor_blob(g) implies false by {
                assert(plen == gzip_best_of(attractor_payload_src(g)).len());
                lemma_attractor_blob_parts(g);
            }
        }
        return Err(MalformedBlobError);
    }
    let payload = slice_subrange(blob, dstart, dstart + plen);
    let data = match gzip_unpack(payload) {
        Ok(d) => d,
        Err(e) => {
            proof {
                assert forall|g: AttractorSeqModel|
                    g.wf() && attractor_payload_fits(g) && blob@ == attractor_blob(g) implies false by {
                    assert(payload@ =~= gzip_best_of(attractor_payload_src(g)));
                }
            }
            return Err(e);
        },
    };
    let n_minus_1: u64 = (n_u32 - 1) as u64;
    proof {
        assert(n_minus_1 * (k_u32 as u64) < 0x1_0000_0000_0000_0000) by (nonlinear_arith)
            requires
                n_minus_1 < 0x1_0000_0000 && k_u32 < 0x1_0000_0000,
        ;
    }
    let dc64: u64 = n_minus_1 * (k_u32 as u64);
    let dlen = data.len();
    if (dlen as u64) < 4u64 * (k_u32 as u64) {
        proof {
            assert forall|g: AttractorSeqModel|
                g.wf() && attractor_payload_fits(g) && blob@ == attractor_blob(g) implies false by {
                assert(payload@ =~= gzip_best_of(attractor_payload_src(g)));
                assert(data@ == attractor_payload_src(g));
            }
        }
        return Err(MalformedBlobError);
    }
    let aoff = 4 * k;
    if ((dlen - aoff) as u64) / 2 < dc64 {
        proof {
            assert forall|g: AttractorSeqModel|
                g.wf() && attractor_payload_fits(g) && blob@ == attractor_blob(g) implies false by {
                assert(payload@ =~= gzip_best_of(attractor_payload_src(g)));
                assert(data@ == attractor_payload_src(g));
                assert(dc64 == g.deltas.len());
            }
        }
        return Err(MalformedBlobError);
    }
    let dc = dc64 as usize;
    let anchor = read_words(data.as_slice(), 0, k);
    let deltas = read_i16s(data.as_slice(), aoff, dc);
    let result = AttractorSeq { n_vectors: n_u32 as usize, dim, k, mean, dims, anchor, deltas };
    proof {
        assert(result@.wf());
        assert forall|g: AttractorSeqModel|
            g.wf() && attractor_payload_fits(g) && blob@ == attractor_blob(g) implies result@
            == g by {
            assert(payload@ =~= gzip_best_of(attractor_payload_src(g)));
            assert(data@ == attractor_payload_src(g));
            assert(dc64 == g.deltas.len());
            assert(data@.subrange(0, 4 * k as int) =~= words_le(g.anchor));
            lemma_le_words_of_words_le(g.anchor);
            assert(result@.anchor =~= g.anchor);
            assert(data@.subrange(aoff as int, aoff as int + 2 * dc as int) =~= i16s_le(
                g.deltas,
            ));
            lemma_le_i16s_of_i16s_le(g.deltas);
            assert(result@.deltas =~= g.deltas);
            assert(result@ =~= g);
        }
    }
    Ok(result)
}

} // verus!
