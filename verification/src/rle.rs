//! Run-length collapse of bit-identical consecutive delta words.
//!
//! The lossless delta variant stores its delta stream as `(count, word)`
//! pairs: a run of equal words becomes one pair. Runs are cut at
//! `u32::MAX` so the count always fits its field.

use vstd::prelude::*;

verus! {

/// Length of the initial run of `v` at the front of `w`.
pub open spec fn run_len_from(w: Seq<u32>, v: u32) -> nat
    decreases w.len(),
{
    if w.len() == 0 || w[0] != v {
        0
    } else {
        1 + run_len_from(w.skip(1), v)
    }
}

/// Length of the run the encoder collapses next: the initial run,
/// cut at `u32::MAX`.
pub open spec fn rle_run(w: Seq<u32>) -> nat
    recommends
        w.len() > 0,
{
    let r = run_len_from(w, w[0]);
    let capped = if r <= u32::MAX as nat {
        r
    } else {
        u32::MAX as nat
    };
    if capped <= w.len() {
        capped
    } else {
        w.len()
    }
}

/// The run-length records for a word stream, as a flat stream of
/// alternating count and word.
pub open spec fn rle_words(w: Seq<u32>) -> Seq<u32>
    decreases w.len(),
{
    if w.len() == 0 {
        Seq::empty()
    } else {
        let run = rle_run(w);
        seq![run as u32, w[0]] + rle_words(w.skip(run as int))
    }
}

/// Expansion of a flat record stream back into words; a trailing record
/// missing its word is dropped.
pub open spec fn rle_expand(ws: Seq<u32>) -> Seq<u32>
    decreases ws.len(),
{
    if ws.len() < 2 {
        Seq::empty()
    } else {
        Seq::new(ws[0] as nat, |i: int| ws[1]) + rle_expand(ws.skip(2))
    }
}

proof fn lemma_run_len_from_props(w: Seq<u32>, v: u32)
    ensures
        run_len_from(w, v) <= w.len(),
        forall|i: int| 0 <= i < run_len_from(w, v) ==> w[i] == v,
        run_len_from(w, v) < w.len() ==> w[run_len_from(w, v) as int] != v,
    decreases w.len(),
{
    if w.len() == 0 || w[0] != v {
    } else {
        lemma_run_len_from_props(w.skip(1), v);
        let r = run_len_from(w, v);
        assert forall|i: int| 0 <= i < r implies w[i] == v by {
            if i > 0 {
                assert(w.skip(1)[i - 1] == v);
            }
        }
        if r < w.len() {
            assert(w.skip(1)[r - 1] != v);
        }
    }
}

/// A scan that stopped at `j` because the stream ended, the word changed,
/// or the count field filled, has found exactly the next record.
pub proof fn lemma_run_boundary(w: Seq<u32>, rs: int, j: int)
    requires
        0 <= rs < j <= w.len(),
        j - rs <= u32::MAX,
        forall|m: int| rs <= m < j ==> w[m] == w[rs],
        j == w.len() || w[j] != w[rs] || j - rs == u32::MAX,
    ensures
        rle_words(w.skip(rs)) == seq![(j - rs) as u32, w[rs]] + rle_words(w.skip(j)),
{
    let t = w.skip(rs);
    lemma_run_len_from_props(t, t[0]);
    let r = run_len_from(t, t[0]);
    assert(t[0] == w[rs]);
    // every index below j - rs lies in the run
    assert forall|i: int| 0 <= i < j - rs implies #[trigger] t[i] == t[0] by {
        assert(t[i] == w[rs + i]);
    }
    if r < j - rs {
        assert(t[r as int] == t[0]);
        assert(false);
    }
    if j < w.len() && w[j] != w[rs] {
        if r > j - rs {
            assert(t[j - rs] == t[0]);
            assert(t[j - rs] == w[j]);
            assert(false);
        }
        assert(rle_run(t) == j - rs);
    } else if j == w.len() {
        assert(r <= t.len());
        assert(rle_run(t) == j - rs);
    } else {
        assert(j - rs == u32::MAX);
        assert(rle_run(t) == j - rs);
    }
    assert(t.skip(j - rs) =~= w.skip(j));
}

/// Expanding the records of a word stream restores the stream: the
/// run-length stage is lossless.
pub proof fn lemma_rle_round_trip(w: Seq<u32>)
    ensures
        rle_expand(rle_words(w)) =~= w,
    decreases w.len(),
{
    if w.len() == 0 {
    } else {
        lemma_run_len_from_props(w, w[0]);
        let run = rle_run(w);
        lemma_rle_round_trip(w.skip(run as int));
        let rest = rle_words(w.skip(run as int));
        let ws = seq![run as u32, w[0]] + rest;
        assert(ws.skip(2) =~= rest);
        assert(Seq::new(ws[0] as nat, |i: int| ws[1]) =~= w.take(run as int));
        assert(rle_expand(ws) =~= w.take(run as int) + rle_expand(rest));
        assert(w.take(run as int) + w.skip(run as int) =~= w);
    }
}

/// Collapses a word stream into its run-length records.
pub fn rle_encode(w: &Vec<u32>) -> (r: Vec<u32>)
    ensures
        r@ == rle_words(w@),
{
    let len = w.len();
    let mut out: Vec<u32> = Vec::new();
    let mut rs: usize = 0;
    proof {
        assert(w@.skip(0) =~= w@);
    }
    while rs < len
        invariant
            rs <= len,
            len == w@.len(),
            rle_words(w@) == out@ + rle_words(w@.skip(rs as int)),
        decreases len - rs,
    {
        let v = w[rs];
        let mut j: usize = rs + 1;
        while j < len && w[j] == v && j - rs < 0xffff_ffffusize
            invariant
                rs < j <= len,
                len == w@.len(),
                j - rs <= u32::MAX,
                v == w@[rs as int],
                forall|m: int| rs <= m < j ==> w@[m] == w@[rs as int],
            decreases len - j,
        {
            j = j + 1;
        }
        let count = (j - rs) as u32;
        let ghost before = out@;
        out.push(count);
        out.push(v);
        proof {
            lemma_run_boundary(w@, rs as int, j as int);
            assert(out@ =~= before + seq![count, v]);
            assert(rle_words(w@) == out@ + rle_words(w@.skip(j as int))) by {
                assert(out@ + rle_words(w@.skip(j as int)) =~= before + (seq![count, v]
                    + rle_words(w@.skip(j as int))));
            }
        }
        rs = j;
    }
    assert(rle_words(w@.skip(len as int)) =~= Seq::<u32>::empty());
    assert(rle_words(w@) =~= out@);
    out
}

/// Expands a flat record stream back into words.
pub fn rle_decode(ws: &Vec<u32>) -> (r: Vec<u32>)
    ensures
        r@ == rle_expand(ws@),
{
    let len = ws.len();
    let mut out: Vec<u32> = Vec::new();
    let mut p: usize = 0;
    proof {
        assert(ws@.skip(0) =~= ws@);
    }
    while len - p >= 2
        invariant
            p <= len,
            len == ws@.len(),
            rle_expand(ws@) == out@ + rle_expand(ws@.skip(p as int)),
        decreases len - p,
    {
        let count = ws[p];
        let v = ws[p + 1];
        let ghost before = out@;
        let mut c: u32 = 0;
        while c < count
            invariant
                c <= count,
                out@ == before + Seq::new(c as nat, |i: int| v),
            decreases count - c,
        {
            out.push(v);
            proof {
                assert(before + Seq::new((c + 1) as nat, |i: int| v) =~= (before + Seq::new(
                    c as nat,
                    |i: int| v,
                )).push(v));
            }
            c = c + 1;
        }
        proof {
            let t = ws@.skip(p as int);
            assert(t[0] == count && t[1] == v);
            assert(t.skip(2) =~= ws@.skip(p + 2int));
            assert(Seq::new(t[0] as nat, |i: int| t[1]) =~= Seq::new(count as nat, |i: int| v));
            assert(rle_expand(ws@) == out@ + rle_expand(ws@.skip(p + 2int))) by {
                assert(out@ + rle_expand(ws@.skip(p + 2int)) =~= before + (Seq::new(
                    count as nat,
                    |i: int| v,
                ) + rle_expand(t.skip(2))));
            }
        }
        p = p + 2;
    }
    proof {
        assert(rle_expand(ws@.skip(p as int)) =~= Seq::<u32>::empty());
        assert(rle_expand(ws@) =~= out@);
    }
    out
}

} // verus!
