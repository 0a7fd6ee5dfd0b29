//! Symbol statistics for the entropy-coded delta variant.
//!
//! The encoder counts how often each signed 8-bit symbol occurs, writes
//! the nonzero counts as `(symbol, count)` pairs beside the payload, and
//! turns the counts into a fixed-point probability table: every one of
//! the 256 symbols keeps a one-slot floor (the minimum-probability floor
//! for unseen symbols), the remaining mass is spread in proportion to the
//! counts, and the table sums exactly to the table size the entropy coder
//! expects.

use vstd::prelude::*;
use vstd::bytes::*;
use vstd::arithmetic::div_mod::{lemma_div_is_ordered, lemma_div_multiples_vanish,
    lemma_div_pos_is_pos};
use vstd::arithmetic::mul::{lemma_mul_inequality, lemma_mul_nonnegative};
use crate::wire::{push_u32_le, read_u32_le};

verus! {

/// The fixed-point probability table sums to this.
pub open spec fn fixed_total() -> int {
    0x100_0000
}

/// Mass spread in proportion to the counts, after each of the 256
/// symbols keeps its one-slot floor.
pub open spec fn spread_mass() -> int {
    0x100_0000 - 256
}

/// Table slot a symbol occupies: its value shifted by 128.
pub open spec fn sym_slot(s: i8) -> int {
    s + 128
}

/// The raw byte stored for table slot `k`: the symbol's own bit pattern.
pub open spec fn slot_byte(k: int) -> u8 {
    ((k - 128) as i8) as u8
}

/// Table slot named by a stored byte.
pub open spec fn byte_slot(b: u8) -> int {
    (b as i8) + 128
}

pub proof fn lemma_slot_byte_inverse(k: int)
    requires
        0 <= k < 256,
    ensures
        byte_slot(slot_byte(k)) == k,
{
    let v = (k - 128) as i8;
    let b = v as u8;
    assert(b as i8 == v) by (bit_vector)
        requires
            b == v as u8,
    ;
}

/// Occurrences of the symbol of slot `k` in a symbol stream.
pub open spec fn count_sym(syms: Seq<i8>, k: int) -> nat
    decreases syms.len(),
{
    if syms.len() == 0 {
        0
    } else {
        count_sym(syms.drop_last(), k) + if sym_slot(syms.last()) == k {
            1nat
        } else {
            0nat
        }
    }
}

pub proof fn lemma_count_sym_le(syms: Seq<i8>, k: int)
    ensures
        count_sym(syms, k) <= syms.len(),
    decreases syms.len(),
{
    if syms.len() > 0 {
        lemma_count_sym_le(syms.drop_last(), k);
    }
}

/// The full 256-slot count table of a symbol stream.
pub open spec fn counts_seq(syms: Seq<i8>) -> Seq<u32>
    recommends
        syms.len() <= u32::MAX,
{
    Seq::new(256, |k: int| count_sym(syms, k) as u32)
}

/// Builds the count table of a symbol stream.
pub fn build_counts(syms: &Vec<i8>) -> (r: Vec<u32>)
    requires
        syms@.len() <= u32::MAX,
    ensures
        r@ == counts_seq(syms@),
{
    let mut counts: Vec<u32> = Vec::new();
    let mut k: usize = 0;
    while k < 256
        invariant
            k <= 256,
            counts@.len() == k,
            forall|j: int| 0 <= j < k ==> counts@[j] == 0,
        decreases 256 - k,
    {
        counts.push(0);
        k = k + 1;
    }
    let n = syms.len();
    let mut i: usize = 0;
    while i < n
        invariant
            i <= n,
            n == syms@.len(),
            n <= u32::MAX,
            counts@.len() == 256,
            forall|j: int| 0 <= j < 256 ==> counts@[j] == count_sym(syms@.take(i as int), j),
        decreases n - i,
    {
        let v = syms[i];
        let slot = ((v as i16) + 128) as usize;
        proof {
            lemma_count_sym_le(syms@.take(i as int), slot as int);
            assert(syms@.take(i as int).len() == i);
        }
        let c = counts[slot];
        counts.set(slot, c + 1);
        proof {
            let pre = syms@.take(i as int);
            let post = syms@.take(i + 1int);
            assert(post.drop_last() =~= pre);
            assert(post.last() == syms@[i as int]);
            assert(forall|j: int|
                0 <= j < 256 ==> count_sym(post, j) == count_sym(pre, j) + if sym_slot(
                    syms@[i as int],
                ) == j {
                    1nat
                } else {
                    0nat
                });
        }
        i = i + 1;
    }
    proof {
        assert(syms@.take(n as int) =~= syms@);
        assert(counts@ =~= counts_seq(syms@));
    }
    counts
}

/// Total of a count table's first `k` slots.
pub open spec fn prefix_count(counts: Seq<u32>, k: int) -> int
    decreases k,
{
    if k <= 0 {
        0
    } else {
        prefix_count(counts, k - 1) + counts[k - 1]
    }
}

pub proof fn lemma_prefix_count_bounds(counts: Seq<u32>, k: int)
    requires
        0 <= k <= counts.len(),
    ensures
        0 <= prefix_count(counts, k) <= k * (u32::MAX as int),
        forall|j: int| 0 <= j <= k ==> prefix_count(counts, j) <= prefix_count(counts, k),
    decreases k,
{
    if k > 0 {
        lemma_prefix_count_bounds(counts, k - 1);
        lemma_mul_inequality(k - 1, k, u32::MAX as int);
    }
}

/// The counts of a stream total the stream's length.
pub proof fn lemma_counts_total(syms: Seq<i8>)
    requires
        syms.len() <= u32::MAX,
    ensures
        prefix_count(counts_seq(syms), 256) == syms.len(),
    decreases syms.len(),
{
    if syms.len() == 0 {
        lemma_prefix_zero(counts_seq(syms), 256);
    } else {
        let pre = syms.drop_last();
        lemma_counts_total(pre);
        lemma_count_sym_le(pre, sym_slot(syms.last()));
        lemma_prefix_step(counts_seq(pre), counts_seq(syms), sym_slot(syms.last()), 256);
    }
}

proof fn lemma_prefix_zero(counts: Seq<u32>, k: int)
    requires
        forall|j: int| 0 <= j < k ==> counts[j] == 0,
    ensures
        prefix_count(counts, k) == 0,
    decreases k,
{
    if k > 0 {
        lemma_prefix_zero(counts, k - 1);
    }
}

/// Incrementing one slot raises every prefix past it by one.
proof fn lemma_prefix_step(a: Seq<u32>, b: Seq<u32>, slot: int, k: int)
    requires
        0 <= slot < 256,
        k <= 256,
        forall|j: int| 0 <= j < 256 && j != slot ==> a[j] == b[j],
        b[slot] == a[slot] + 1,
    ensures
        prefix_count(b, k) == prefix_count(a, k) + if slot < k {
            1int
        } else {
            0int
        },
    decreases k,
{
    if k > 0 {
        lemma_prefix_step(a, b, slot, k - 1);
    }
}

/// Totals a count table.
pub fn sum_counts(counts: &Vec<u32>) -> (total: u64)
    requires
        counts@.len() == 256,
    ensures
        total == prefix_count(counts@, 256),
        total <= 256 * (u32::MAX as int),
{
    let mut total: u64 = 0;
    let mut k: usize = 0;
    while k < 256
        invariant
            k <= 256,
            counts@.len() == 256,
            total == prefix_count(counts@, k as int),
            total <= k * (u32::MAX as int),
        decreases 256 - k,
    {
        proof {
            lemma_mul_inequality(k as int, 256, u32::MAX as int);
        }
        total = total + (counts[k] as u64);
        proof {
            lemma_mul_inequality(k as int, k + 1, u32::MAX as int);
        }
        k = k + 1;
    }
    total
}

/// Proportional share of the spread mass reaching below slot `k`.
pub open spec fn prob_term(counts: Seq<u32>, k: int) -> int {
    prefix_count(counts, k) * spread_mass() / prefix_count(counts, 256)
}

/// The fixed-point probability table of a count table: a one-slot floor
/// per symbol plus each slot's share of the spread mass.
pub open spec fn probs_of(counts: Seq<u32>) -> Seq<u32>
    recommends
        prefix_count(counts, 256) > 0,
{
    Seq::new(256, |k: int| (1 + prob_term(counts, k + 1) - prob_term(counts, k)) as u32)
}

/// A probability table the entropy coder accepts: 256 nonzero slots,
/// each below the fixed-point total, summing exactly to it.
pub open spec fn valid_ans_model(probs: Seq<u32>) -> bool {
    &&& probs.len() == 256
    &&& forall|k: int| 0 <= k < 256 ==> 1 <= #[trigger] probs[k] && probs[k] < fixed_total()
    &&& sum_u32(probs) == fixed_total()
}

pub open spec fn sum_u32(s: Seq<u32>) -> int
    decreases s.len(),
{
    if s.len() == 0 {
        0
    } else {
        sum_u32(s.drop_last()) + s.last()
    }
}

proof fn lemma_prob_term_props(counts: Seq<u32>, k: int)
    requires
        counts.len() == 256,
        0 <= k < 256,
        prefix_count(counts, 256) > 0,
    ensures
        0 <= prob_term(counts, k),
        prob_term(counts, k) <= prob_term(counts, k + 1),
        prob_term(counts, k + 1) <= spread_mass(),
{
    let t = prefix_count(counts, 256);
    lemma_prefix_count_bounds(counts, 256);
    lemma_prefix_count_bounds(counts, k + 1);
    lemma_prefix_count_bounds(counts, k);
    lemma_mul_nonnegative(prefix_count(counts, k), spread_mass());
    lemma_div_pos_is_pos(prefix_count(counts, k) * spread_mass(), t);
    lemma_mul_inequality(prefix_count(counts, k), prefix_count(counts, k + 1), spread_mass());
    lemma_div_is_ordered(
        prefix_count(counts, k) * spread_mass(),
        prefix_count(counts, k + 1) * spread_mass(),
        t,
    );
    lemma_mul_inequality(prefix_count(counts, k + 1), t, spread_mass());
    lemma_div_is_ordered(prefix_count(counts, k + 1) * spread_mass(), t * spread_mass(), t);
    lemma_div_multiples_vanish(spread_mass(), t);
}

proof fn lemma_partial_prob_sum(counts: Seq<u32>, k: int)
    requires
        counts.len() == 256,
        0 <= k <= 256,
        prefix_count(counts, 256) > 0,
    ensures
        sum_u32(probs_of(counts).take(k)) == k + prob_term(counts, k),
    decreases k,
{
    if k == 0 {
        assert(prefix_count(counts, 0) == 0);
        assert(prob_term(counts, 0) == 0) by {
            lemma_div_pos_is_pos(0, prefix_count(counts, 256));
            lemma_div_multiples_vanish(0, prefix_count(counts, 256));
        }
    } else {
        lemma_partial_prob_sum(counts, k - 1);
        lemma_prob_term_props(counts, k - 1);
        let p = probs_of(counts);
        assert(p.take(k).drop_last() =~= p.take(k - 1));
        assert(p.take(k).last() == p[k - 1]);
        assert(p[k - 1] == 1 + prob_term(counts, k) - prob_term(counts, k - 1));
    }
}

/// The fixed-point table built from any nonempty count set is one the
/// entropy coder accepts.
pub proof fn lemma_probs_valid(counts: Seq<u32>)
    requires
        counts.len() == 256,
        prefix_count(counts, 256) > 0,
    ensures
        valid_ans_model(probs_of(counts)),
{
    let p = probs_of(counts);
    assert forall|k: int| 0 <= k < 256 implies 1 <= #[trigger] p[k] && p[k] < fixed_total() by {
        lemma_prob_term_props(counts, k);
    }
    lemma_partial_prob_sum(counts, 256);
    assert(p.take(256) =~= p);
    assert(prob_term(counts, 256) == spread_mass()) by {
        lemma_div_multiples_vanish(spread_mass(), prefix_count(counts, 256));
    }
}

/// The `(symbol, count)` entries stored beside the payload: one per
/// nonzero slot, in ascending slot order.
pub open spec fn hist_entries_upto(counts: Seq<u32>, k: int) -> Seq<(u8, u32)>
    decreases k,
{
    if k <= 0 {
        Seq::empty()
    } else if counts[k - 1] == 0 {
        hist_entries_upto(counts, k - 1)
    } else {
        hist_entries_upto(counts, k - 1).push((slot_byte(k - 1), counts[k - 1]))
    }
}

pub open spec fn hist_entries(counts: Seq<u32>) -> Seq<(u8, u32)> {
    hist_entries_upto(counts, 256)
}

/// Wire image of an entry: the symbol byte, then the count.
pub open spec fn pair_bytes(e: (u8, u32)) -> Seq<u8> {
    seq![e.0] + spec_u32_to_le_bytes(e.1)
}

/// Wire image of the whole entry list, five bytes per entry.
pub open spec fn entries_bytes(es: Seq<(u8, u32)>) -> Seq<u8> {
    Seq::new(5 * es.len(), |i: int| pair_bytes(es[i / 5])[i % 5])
}

pub proof fn lemma_entries_upto_len(counts: Seq<u32>, k: int)
    requires
        k >= 0,
    ensures
        hist_entries_upto(counts, k).len() <= k,
    decreases k,
{
    if k > 0 {
        lemma_entries_upto_len(counts, k - 1);
    }
}

proof fn lemma_pair_bytes_len(e: (u8, u32))
    ensures
        pair_bytes(e).len() == 5,
{
    lemma_auto_spec_u32_to_from_le_bytes();
}

pub proof fn lemma_entries_bytes_slot(es: Seq<(u8, u32)>, j: int)
    requires
        0 <= j < es.len(),
    ensures
        entries_bytes(es).subrange(5 * j, 5 * j + 5) =~= pair_bytes(es[j]),
{
    lemma_pair_bytes_len(es[j]);
    assert forall|m: int| 0 <= m < 5 implies #[trigger] entries_bytes(es)[5 * j + m] == pair_bytes(
        es[j],
    )[m] by {
        assert((5 * j + m) / 5 == j && (5 * j + m) % 5 == m) by (nonlinear_arith)
            requires
                0 <= m < 5 && 0 <= j,
        ;
    }
}

pub proof fn lemma_entries_bytes_push(es: Seq<(u8, u32)>, e: (u8, u32))
    ensures
        entries_bytes(es.push(e)) =~= entries_bytes(es) + pair_bytes(e),
{
    lemma_pair_bytes_len(e);
    assert forall|i: int| 0 <= i < 5 * es.len() implies #[trigger] entries_bytes(es.push(e))[i]
        == entries_bytes(es)[i] by {
        assert(0 <= i / 5 < es.len()) by (nonlinear_arith)
            requires
                0 <= i < 5 * es.len(),
        ;
    }
    lemma_entries_bytes_slot(es.push(e), es.len() as int);
}

/// An all-zero count table.
pub open spec fn zero_counts() -> Seq<u32> {
    Seq::new(256, |k: int| 0u32)
}

/// Replays a wire entry section onto a count table, overwriting the
/// named slots; a trailing partial entry is dropped.
pub open spec fn apply_pairs(base: Seq<u32>, bs: Seq<u8>) -> Seq<u32>
    decreases bs.len(),
{
    if bs.len() < 5 {
        base
    } else {
        let slot = byte_slot(bs[0]);
        let c = spec_u32_from_le_bytes(bs.subrange(1, 5));
        apply_pairs(base.update(slot, c), bs.skip(5))
    }
}

proof fn lemma_apply_pairs_append(base: Seq<u32>, a: Seq<u8>, b: Seq<u8>)
    requires
        a.len() % 5 == 0,
    ensures
        apply_pairs(base, a + b) == apply_pairs(apply_pairs(base, a), b),
    decreases a.len(),
{
    if a.len() == 0 {
        assert(a + b =~= b);
    } else {
        assert(a.len() >= 5);
        let ab = a + b;
        assert(ab.subrange(1, 5) =~= a.subrange(1, 5));
        assert(ab.skip(5) =~= a.skip(5) + b);
        assert(a.skip(5).len() % 5 == 0);
        let base2 = base.update(byte_slot(a[0]), spec_u32_from_le_bytes(a.subrange(1, 5)));
        lemma_apply_pairs_append(base2, a.skip(5), b);
    }
}

/// Replaying the entries of a count table onto zeros restores the table.
pub proof fn lemma_hist_round_trip(counts: Seq<u32>)
    requires
        counts.len() == 256,
    ensures
        apply_pairs(zero_counts(), entries_bytes(hist_entries(counts))) =~= counts,
{
    lemma_hist_round_trip_upto(counts, zero_counts(), 256);
}

proof fn lemma_hist_round_trip_upto(counts: Seq<u32>, base: Seq<u32>, k: int)
    requires
        counts.len() == 256,
        base.len() == 256,
        0 <= k <= 256,
    ensures
        ({
            let r = apply_pairs(base, entries_bytes(hist_entries_upto(counts, k)));
            &&& r.len() == 256
            &&& forall|j: int|
                0 <= j < 256 ==> r[j] == if j < k && counts[j] > 0 {
                    counts[j]
                } else {
                    base[j]
                }
        }),
    decreases k,
{
    if k == 0 {
        assert(entries_bytes(hist_entries_upto(counts, 0)) =~= Seq::<u8>::empty());
    } else {
        lemma_hist_round_trip_upto(counts, base, k - 1);
        let es = hist_entries_upto(counts, k - 1);
        let prev = apply_pairs(base, entries_bytes(es));
        if counts[k - 1] == 0 {
        } else {
            let e = (slot_byte(k - 1), counts[k - 1]);
            lemma_entries_bytes_push(es, e);
            lemma_pair_bytes_len(e);
            assert(entries_bytes(es).len() % 5 == 0) by (nonlinear_arith)
                requires
                    entries_bytes(es).len() == 5 * es.len(),
            ;
            lemma_apply_pairs_append(base, entries_bytes(es), pair_bytes(e));
            let pb = pair_bytes(e);
            assert(pb.subrange(1, 5) =~= spec_u32_to_le_bytes(e.1));
            lemma_auto_spec_u32_to_from_le_bytes();
            lemma_slot_byte_inverse(k - 1);
            assert(pb.skip(5) =~= Seq::<u8>::empty());
            let prev2 = prev.update(k - 1, counts[k - 1]);
            assert(byte_slot(pb[0]) == k - 1);
            assert(spec_u32_from_le_bytes(pb.subrange(1, 5)) == counts[k - 1]);
            assert(apply_pairs(prev2, pb.skip(5)) == prev2);
            assert(apply_pairs(prev, pb) == apply_pairs(prev2, pb.skip(5)));
        }
    }
}

/// Appends the `(symbol, count)` entry section for a count table and
/// reports how many entries it wrote.
pub fn push_hist(out: &mut Vec<u8>, counts: &Vec<u32>) -> (n: u32)
    requires
        counts@.len() == 256,
    ensures
        final(out)@ == old(out)@ + entries_bytes(hist_entries(counts@)),
        n == hist_entries(counts@).len(),
{
    let mut n: u32 = 0;
    let mut k: usize = 0;
    while k < 256
        invariant
            k <= 256,
            counts@.len() == 256,
            n == hist_entries_upto(counts@, k as int).len(),
            n <= k,
            out@ == old(out)@ + entries_bytes(hist_entries_upto(counts@, k as int)),
        decreases 256 - k,
    {
        let c = counts[k];
        if c != 0 {
            let sym = ((k as i16) - 128) as i8;
            let b = #[verifier::truncate] (sym as u8);
            let ghost es = hist_entries_upto(counts@, k as int);
            out.push(b);
            push_u32_le(out, c);
            proof {
                let e = (slot_byte(k as int), counts@[k as int]);
                lemma_entries_bytes_push(es, e);
                assert(out@ =~= old(out)@ + entries_bytes(es.push(e)));
            }
            n = n + 1;
        }
        k = k + 1;
    }
    n
}

/// Reads `hsize` wire entries at byte offset `off` onto an all-zero
/// count table.
pub fn read_hist(b: &[u8], off: usize, hsize: usize) -> (r: Vec<u32>)
    requires
        off + 5 * hsize <= b@.len(),
    ensures
        r@ == apply_pairs(zero_counts(), b@.subrange(off as int, off as int + 5 * hsize)),
        r@.len() == 256,
{
    let ghost seg = b@.subrange(off as int, off as int + 5 * hsize);
    let blen = b.len();
    let mut r: Vec<u32> = Vec::new();
    let mut k: usize = 0;
    while k < 256
        invariant
            k <= 256,
            r@.len() == k,
            forall|j: int| 0 <= j < k ==> r@[j] == 0,
        decreases 256 - k,
    {
        r.push(0);
        k = k + 1;
    }
    assert(r@ =~= zero_counts());
    let mut p: usize = 0;
    while p < hsize
        invariant
            p <= hsize,
            blen == b@.len(),
            off + 5 * hsize <= b@.len(),
            seg == b@.subrange(off as int, off as int + 5 * hsize),
            r@.len() == 256,
            r@ == apply_pairs(zero_counts(), seg.take(5 * p as int)),
        decreases hsize - p,
    {
        let sym_b = b[off + 5 * p];
        let c = read_u32_le(b, off + 5 * p + 1);
        let slot = (((#[verifier::truncate] (sym_b as i8)) as i16) + 128) as usize;
        let ghost pre = r@;
        r.set(slot, c);
        proof {
            let t0 = seg.take(5 * p as int);
            let t1 = seg.take(5 * (p + 1) as int);
            let pb = t1.skip(5 * p as int);
            assert(pb.len() == 5);
            assert(t1 =~= t0 + pb);
            assert(t0.len() % 5 == 0) by (nonlinear_arith)
                requires
                    t0.len() == 5 * p,
            ;
            lemma_apply_pairs_append(zero_counts(), t0, pb);
            assert(pb[0] == seg[5 * p as int]);
            assert(seg[5 * p as int] == b@[off + 5 * p]);
            assert(pb.subrange(1, 5) =~= b@.subrange(
                off + 5 * p + 1,
                off + 5 * p + 5,
            ));
            assert(pb.skip(5) =~= Seq::<u8>::empty());
            assert(slot as int == byte_slot(pb[0]));
            let base0 = apply_pairs(zero_counts(), t0);
            let base1 = base0.update(byte_slot(pb[0]), spec_u32_from_le_bytes(pb.subrange(1, 5)));
            assert(apply_pairs(base1, pb.skip(5)) == base1);
            assert(apply_pairs(base0, pb) == apply_pairs(base1, pb.skip(5)));
            assert(r@ =~= base1);
        }
        p = p + 1;
    }
    proof {
        assert(seg.take(5 * hsize as int) =~= seg);
    }
    r
}

/// Builds the fixed-point probability table from a count table.
pub fn compute_probs(counts: &Vec<u32>, total: u64) -> (r: Vec<u32>)
    requires
        counts@.len() == 256,
        total == prefix_count(counts@, 256),
        0 < total <= 256 * (u32::MAX as int),
    ensures
        r@ == probs_of(counts@),
{
    let mut r: Vec<u32> = Vec::new();
    let mut prefix: u64 = 0;
    let mut prev_term: u64 = 0;
    let mut k: usize = 0;
    while k < 256
        invariant
            k <= 256,
            counts@.len() == 256,
            total == prefix_count(counts@, 256),
            0 < total <= 256 * (u32::MAX as int),
            prefix == prefix_count(counts@, k as int),
            prefix <= total,
            prev_term == prob_term(counts@, k as int),
            prev_term <= spread_mass(),
            r@ == probs_of(counts@).take(k as int),
        decreases 256 - k,
    {
        proof {
            lemma_prefix_count_bounds(counts@, 256);
            lemma_prefix_count_bounds(counts@, k + 1);
            lemma_prob_term_props(counts@, k as int);
        }
        let next_prefix: u64 = prefix + (counts[k] as u64);
        proof {
            assert(next_prefix * spread_mass() <= total * spread_mass()) by {
                lemma_mul_inequality(next_prefix as int, total as int, spread_mass());
            }
            assert(total * spread_mass() < 0x1_0000_0000_0000_0000) by (nonlinear_arith)
                requires
                    0 < total <= 256 * (u32::MAX as int),
            ;
            lemma_mul_nonnegative(next_prefix as int, spread_mass());
        }
        let term: u64 = next_prefix * 0xff_ff00u64 / total;
        let slot: u32 = (1 + term - prev_term) as u32;
        r.push(slot);
        proof {
            let p = probs_of(counts@);
            assert(p[k as int] == 1 + prob_term(counts@, k + 1) - prob_term(counts@, k as int));
            assert(p.take(k + 1int) =~= p.take(k as int).push(p[k as int]));
        }
        prefix = next_prefix;
        prev_term = term;
        k = k + 1;
    }
    proof {
        assert(probs_of(counts@).take(256) =~= probs_of(counts@));
    }
    r
}

} // verus!
