//! Little-endian serialization of 32-bit and 16-bit words.
//!
//! Vector components travel through the codecs as opaque 32-bit words
//! (the bit patterns of single-precision floats); quantized deltas travel
//! as 16-bit or 8-bit integers. This module gives each stream a spec-level
//! byte image and verified writers and readers for it.

use vstd::prelude::*;
use vstd::bytes::*;
use vstd::slice::slice_subrange;

verus! {

/// Byte image of a stream of 32-bit words, little-endian.
pub open spec fn words_le(s: Seq<u32>) -> Seq<u8> {
    Seq::new(4 * s.len(), |i: int| spec_u32_to_le_bytes(s[i / 4])[i % 4])
}

/// Words read back from a byte stream, four bytes each; trailing bytes
/// that do not fill a word are dropped.
pub open spec fn le_words(b: Seq<u8>) -> Seq<u32> {
    Seq::new(b.len() / 4, |j: int| spec_u32_from_le_bytes(b.subrange(4 * j, 4 * j + 4)))
}

/// Byte image of a stream of signed 16-bit values, little-endian.
pub open spec fn i16s_le(s: Seq<i16>) -> Seq<u8> {
    Seq::new(2 * s.len(), |i: int| spec_u16_to_le_bytes(s[i / 2] as u16)[i % 2])
}

/// Signed 16-bit values read back from a byte stream, two bytes each.
pub open spec fn le_i16s(b: Seq<u8>) -> Seq<i16> {
    Seq::new(
        b.len() / 2,
        |j: int| spec_u16_from_le_bytes(b.subrange(2 * j, 2 * j + 2)) as i16,
    )
}

pub proof fn lemma_words_le_slot(s: Seq<u32>, j: int)
    requires
        0 <= j < s.len(),
    ensures
        words_le(s).subrange(4 * j, 4 * j + 4) =~= spec_u32_to_le_bytes(s[j]),
{
    lemma_auto_spec_u32_to_from_le_bytes();
    assert forall|m: int| 0 <= m < 4 implies words_le(s)[4 * j + m] == spec_u32_to_le_bytes(
        s[j],
    )[m] by {
        assert((4 * j + m) / 4 == j && (4 * j + m) % 4 == m) by (nonlinear_arith)
            requires
                0 <= m < 4 && 0 <= j,
        ;
    }
}

/// Reading the byte image of a word stream yields the stream itself.
pub proof fn lemma_le_words_of_words_le(s: Seq<u32>)
    ensures
        le_words(words_le(s)) =~= s,
{
    lemma_auto_spec_u32_to_from_le_bytes();
    assert forall|j: int| 0 <= j < s.len() implies le_words(words_le(s))[j] == s[j] by {
        lemma_words_le_slot(s, j);
    }
}

pub proof fn lemma_words_le_concat(a: Seq<u32>, b: Seq<u32>)
    ensures
        words_le(a + b) =~= words_le(a) + words_le(b),
{
    assert forall|i: int| 0 <= i < 4 * (a.len() + b.len()) implies words_le(a + b)[i] == (words_le(
        a,
    ) + words_le(b))[i] by {
        if i < 4 * a.len() {
            assert(0 <= i / 4 < a.len() && i / 4 * 4 <= i) by (nonlinear_arith)
                requires
                    0 <= i < 4 * a.len(),
            ;
            assert((a + b)[i / 4] == a[i / 4]);
        } else {
            let i2 = i - 4 * a.len();
            assert(i / 4 == i2 / 4 + a.len() && i % 4 == i2 % 4) by (nonlinear_arith)
                requires
                    0 <= i2 && i == i2 + 4 * a.len(),
            ;
            assert((a + b)[i / 4] == b[i2 / 4]);
        }
    }
}

pub proof fn lemma_words_le_push(s: Seq<u32>, x: u32)
    ensures
        words_le(s.push(x)) =~= words_le(s) + spec_u32_to_le_bytes(x),
{
    lemma_auto_spec_u32_to_from_le_bytes();
    assert(s.push(x) =~= s + seq![x]);
    lemma_words_le_concat(s, seq![x]);
    lemma_words_le_slot(seq![x], 0);
    assert(words_le(seq![x]) =~= spec_u32_to_le_bytes(x));
}

pub proof fn lemma_i16s_le_slot(s: Seq<i16>, j: int)
    requires
        0 <= j < s.len(),
    ensures
        i16s_le(s).subrange(2 * j, 2 * j + 2) =~= spec_u16_to_le_bytes(s[j] as u16),
{
    lemma_auto_spec_u16_to_from_le_bytes();
    assert forall|m: int| 0 <= m < 2 implies #[trigger] i16s_le(s)[2 * j + m]
        == spec_u16_to_le_bytes(s[j] as u16)[m] by {
        assert((2 * j + m) / 2 == j && (2 * j + m) % 2 == m) by (nonlinear_arith)
            requires
                0 <= m < 2 && 0 <= j,
        ;
    }
}

/// Reading the byte image of a signed 16-bit stream yields the stream itself.
pub proof fn lemma_le_i16s_of_i16s_le(s: Seq<i16>)
    ensures
        le_i16s(i16s_le(s)) =~= s,
{
    lemma_auto_spec_u16_to_from_le_bytes();
    assert forall|j: int| 0 <= j < s.len() implies le_i16s(i16s_le(s))[j] == s[j] by {
        lemma_i16s_le_slot(s, j);
        let v = s[j];
        let w = v as u16;
        assert(w as i16 == v) by (bit_vector)
            requires
                w == v as u16,
        ;
    }
}

pub proof fn lemma_i16s_le_push(s: Seq<i16>, x: i16)
    ensures
        i16s_le(s.push(x)) =~= i16s_le(s) + spec_u16_to_le_bytes(x as u16),
{
    lemma_auto_spec_u16_to_from_le_bytes();
    assert forall|i: int| 0 <= i < 2 * s.len() implies i16s_le(s.push(x))[i] == i16s_le(s)[i] by {
        assert(0 <= i / 2 < s.len()) by (nonlinear_arith)
            requires
                0 <= i < 2 * s.len(),
        ;
    }
    lemma_i16s_le_slot(s.push(x), s.len() as int);
}

/// Words read from a byte stream are unchanged when trailing bytes that
/// do not fill a word are cut first.
pub proof fn lemma_le_words_trunc(b: Seq<u8>)
    ensures
        le_words(b.subrange(0, 4 * (b.len() / 4) as int)) =~= le_words(b),
{
    let t = b.subrange(0, 4 * (b.len() / 4) as int);
    assert(t.len() / 4 == b.len() / 4);
    assert forall|j: int| 0 <= j < b.len() / 4 implies le_words(t)[j] == le_words(b)[j] by {
        assert(t.subrange(4 * j, 4 * j + 4) =~= b.subrange(4 * j, 4 * j + 4));
    }
}

/// Byte image of a stream of signed 8-bit symbols, each carried as its
/// own bit pattern.
pub open spec fn syms_bits(s: Seq<i8>) -> Seq<u8> {
    Seq::new(s.len(), |i: int| s[i] as u8)
}

/// Symbols read back from a bit-pattern byte stream.
pub open spec fn bytes_syms(b: Seq<u8>) -> Seq<i8> {
    Seq::new(b.len(), |i: int| b[i] as i8)
}

/// Reading a bit-pattern symbol stream back yields the stream itself.
pub proof fn lemma_bytes_syms_bits(s: Seq<i8>)
    ensures
        bytes_syms(syms_bits(s)) =~= s,
{
    assert forall|i: int| 0 <= i < s.len() implies bytes_syms(syms_bits(s))[i] == s[i] by {
        let v = s[i];
        let b = v as u8;
        assert(b as i8 == v) by (bit_vector)
            requires
                b == v as u8,
        ;
    }
}

/// Appends the bit-pattern byte image of a whole symbol stream.
pub fn push_syms_bits(out: &mut Vec<u8>, s: &Vec<i8>)
    ensures
        final(out)@ == old(out)@ + syms_bits(s@),
{
    let n = s.len();
    let mut j: usize = 0;
    while j < n
        invariant
            j <= n,
            n == s@.len(),
            out@ == old(out)@ + syms_bits(s@.take(j as int)),
        decreases n - j,
    {
        let byte = #[verifier::truncate] (s[j] as u8);
        out.push(byte);
        proof {
            assert(syms_bits(s@.take(j + 1int)) =~= syms_bits(s@.take(j as int)).push(byte));
        }
        j = j + 1;
    }
    assert(s@.take(n as int) =~= s@);
}

/// Reads a whole bit-pattern byte stream back into symbols.
pub fn read_syms_bits(b: &Vec<u8>) -> (r: Vec<i8>)
    ensures
        r@ == bytes_syms(b@),
{
    let n = b.len();
    let mut r: Vec<i8> = Vec::new();
    let mut j: usize = 0;
    while j < n
        invariant
            j <= n,
            n == b@.len(),
            r@ == bytes_syms(b@).take(j as int),
        decreases n - j,
    {
        let v = #[verifier::truncate] (b[j] as i8);
        r.push(v);
        proof {
            assert(bytes_syms(b@).take(j + 1int) =~= bytes_syms(b@).take(j as int).push(v));
        }
        j = j + 1;
    }
    assert(bytes_syms(b@).take(n as int) =~= bytes_syms(b@));
    r
}

/// Byte image of a stream of signed 8-bit symbols, each shifted by 128
/// so the wire carries `0..=255`.
pub open spec fn syms_shifted(s: Seq<i8>) -> Seq<u8> {
    Seq::new(s.len(), |i: int| (s[i] + 128) as u8)
}

/// Symbols read back from a shifted byte stream.
pub open spec fn bytes_unshifted(b: Seq<u8>) -> Seq<i8> {
    Seq::new(b.len(), |i: int| (b[i] - 128) as i8)
}

/// Unshifting a shifted symbol stream yields the stream itself.
pub proof fn lemma_unshift_shift(s: Seq<i8>)
    ensures
        bytes_unshifted(syms_shifted(s)) =~= s,
{
}

/// Appends the shifted byte image of a whole symbol stream.
pub fn push_syms_shifted(out: &mut Vec<u8>, s: &Vec<i8>)
    ensures
        final(out)@ == old(out)@ + syms_shifted(s@),
{
    let n = s.len();
    let mut j: usize = 0;
    while j < n
        invariant
            j <= n,
            n == s@.len(),
            out@ == old(out)@ + syms_shifted(s@.take(j as int)),
        decreases n - j,
    {
        let v = s[j];
        let byte = ((v as i16) + 128) as u8;
        out.push(byte);
        proof {
            assert(syms_shifted(s@.take(j + 1int)) =~= syms_shifted(s@.take(j as int)).push(
                byte,
            ));
        }
        j = j + 1;
    }
    assert(s@.take(n as int) =~= s@);
}

/// Reads the first `count` symbols of a shifted byte stream.
pub fn unshift_prefix(b: &Vec<u8>, count: usize) -> (r: Vec<i8>)
    requires
        count <= b@.len(),
    ensures
        r@ == bytes_unshifted(b@).take(count as int),
{
    let mut r: Vec<i8> = Vec::new();
    let mut j: usize = 0;
    while j < count
        invariant
            j <= count,
            count <= b@.len(),
            r@ == bytes_unshifted(b@).take(j as int),
        decreases count - j,
    {
        let v = ((b[j] as i16) - 128) as i8;
        r.push(v);
        proof {
            assert(bytes_unshifted(b@).take(j + 1int) =~= bytes_unshifted(b@).take(
                j as int,
            ).push(v));
        }
        j = j + 1;
    }
    r
}

/// Appends the four little-endian bytes of `x`.
pub fn push_u32_le(out: &mut Vec<u8>, x: u32)
    ensures
        final(out)@ == old(out)@ + spec_u32_to_le_bytes(x),
{
    proof {
        lemma_auto_spec_u32_to_from_le_bytes();
    }
    let b = u32_to_le_bytes(x);
    out.push(b[0]);
    out.push(b[1]);
    out.push(b[2]);
    out.push(b[3]);
    assert(out@ =~= old(out)@ + spec_u32_to_le_bytes(x));
}

/// Appends the two little-endian bytes of `x`'s bit pattern.
pub fn push_i16_le(out: &mut Vec<u8>, x: i16)
    ensures
        final(out)@ == old(out)@ + spec_u16_to_le_bytes(x as u16),
{
    proof {
        lemma_auto_spec_u16_to_from_le_bytes();
    }
    let b = u16_to_le_bytes(x as u16);
    out.push(b[0]);
    out.push(b[1]);
    assert(out@ =~= old(out)@ + spec_u16_to_le_bytes(x as u16));
}

/// Reads a 32-bit word at byte offset `off`.
pub fn read_u32_le(b: &[u8], off: usize) -> (x: u32)
    requires
        off + 4 <= b@.len(),
    ensures
        x == spec_u32_from_le_bytes(b@.subrange(off as int, off as int + 4)),
{
    let blen = b.len();
    assert(off + 4 <= blen);
    let s = slice_subrange(b, off, off + 4);
    u32_from_le_bytes(s)
}

/// Reads a signed 16-bit value at byte offset `off`.
pub fn read_i16_le(b: &[u8], off: usize) -> (x: i16)
    requires
        off + 2 <= b@.len(),
    ensures
        x == spec_u16_from_le_bytes(b@.subrange(off as int, off as int + 2)) as i16,
{
    let blen = b.len();
    assert(off + 2 <= blen);
    let s = slice_subrange(b, off, off + 2);
    let w = u16_from_le_bytes(s);
    #[verifier::truncate] (w as i16)
}

/// Appends the byte image of a whole word stream.
pub fn push_words(out: &mut Vec<u8>, w: &Vec<u32>)
    ensures
        final(out)@ == old(out)@ + words_le(w@),
{
    let n = w.len();
    let mut j: usize = 0;
    while j < n
        invariant
            j <= n,
            n == w@.len(),
            out@ == old(out)@ + words_le(w@.take(j as int)),
        decreases n - j,
    {
        push_u32_le(out, w[j]);
        proof {
            assert(w@.take(j + 1int) =~= w@.take(j as int).push(w@[j as int]));
            lemma_words_le_push(w@.take(j as int), w@[j as int]);
        }
        j = j + 1;
    }
    assert(w@.take(n as int) =~= w@);
}

/// Appends the byte image of a whole signed 16-bit stream.
pub fn push_i16s(out: &mut Vec<u8>, w: &Vec<i16>)
    ensures
        final(out)@ == old(out)@ + i16s_le(w@),
{
    let n = w.len();
    let mut j: usize = 0;
    while j < n
        invariant
            j <= n,
            n == w@.len(),
            out@ == old(out)@ + i16s_le(w@.take(j as int)),
        decreases n - j,
    {
        push_i16_le(out, w[j]);
        proof {
            assert(w@.take(j + 1int) =~= w@.take(j as int).push(w@[j as int]));
            lemma_i16s_le_push(w@.take(j as int), w@[j as int]);
        }
        j = j + 1;
    }
    assert(w@.take(n as int) =~= w@);
}

/// Reads `count` 32-bit words starting at byte offset `off`.
pub fn read_words(b: &[u8], off: usize, count: usize) -> (r: Vec<u32>)
    requires
        off + 4 * count <= b@.len(),
    ensures
        r@ == le_words(b@.subrange(off as int, off as int + 4 * count)),
{
    let ghost seg = b@.subrange(off as int, off as int + 4 * count);
    let blen = b.len();
    let mut r: Vec<u32> = Vec::new();
    let mut j: usize = 0;
    while j < count
        invariant
            j <= count,
            blen == b@.len(),
            off + 4 * count <= b@.len(),
            seg == b@.subrange(off as int, off as int + 4 * count),
            r@ == le_words(seg).take(j as int),
        decreases count - j,
    {
        let x = read_u32_le(b, off + 4 * j);
        proof {
            assert(seg.subrange(4 * j, 4 * j + 4) =~= b@.subrange(
                off + 4 * j,
                off + 4 * j + 4,
            ));
            assert(le_words(seg).take(j + 1int) =~= le_words(seg).take(j as int).push(
                le_words(seg)[j as int],
            ));
        }
        r.push(x);
        j = j + 1;
    }
    assert(le_words(seg).take(count as int) =~= le_words(seg));
    r
}

/// Copies the first `count` words of a stream.
pub fn take_prefix(v: &Vec<u32>, count: usize) -> (r: Vec<u32>)
    requires
        count <= v@.len(),
    ensures
        r@ == v@.subrange(0, count as int),
{
    let mut r: Vec<u32> = Vec::new();
    let mut j: usize = 0;
    while j < count
        invariant
            j <= count,
            count <= v@.len(),
            r@ == v@.subrange(0, j as int),
        decreases count - j,
    {
        r.push(v[j]);
        proof {
            assert(v@.subrange(0, j + 1int) =~= v@.subrange(0, j as int).push(v@[j as int]));
        }
        j = j + 1;
    }
    r
}

/// Reads `count` signed 16-bit values starting at byte offset `off`.
pub fn read_i16s(b: &[u8], off: usize, count: usize) -> (r: Vec<i16>)
    requires
        off + 2 * count <= b@.len(),
    ensures
        r@ == le_i16s(b@.subrange(off as int, off as int + 2 * count)),
{
    let ghost seg = b@.subrange(off as int, off as int + 2 * count);
    let blen = b.len();
    let mut r: Vec<i16> = Vec::new();
    let mut j: usize = 0;
    while j < count
        invariant
            j <= count,
            blen == b@.len(),
            off + 2 * count <= b@.len(),
            seg == b@.subrange(off as int, off as int + 2 * count),
            r@ == le_i16s(seg).take(j as int),
        decreases count - j,
    {
        let x = read_i16_le(b, off + 2 * j);
        proof {
            assert(seg.subrange(2 * j, 2 * j + 2) =~= b@.subrange(
                off + 2 * j,
                off + 2 * j + 2,
            ));
            assert(le_i16s(seg).take(j + 1int) =~= le_i16s(seg).take(j as int).push(
                le_i16s(seg)[j as int],
            ));
        }
        r.push(x);
        j = j + 1;
    }
    assert(le_i16s(seg).take(count as int) =~= le_i16s(seg));
    r
}

} // verus!
