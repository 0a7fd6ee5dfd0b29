//! Baseline codecs: the generic backends applied to the flattened word
//! stream, with no header and no delta transform. They are the yardstick
//! the delta variants are measured against.
//!
//! Each compressor returns the backend's bytes directly; each
//! decompressor restores one flat stream of words or symbols, as the
//! harness that computes ratios consumes it.

use vstd::prelude::*;
use crate::wire::{words_le, le_words, push_words, read_words, syms_bits, bytes_syms,
    push_syms_bits, read_syms_bits, lemma_le_words_trunc, lemma_le_words_of_words_le,
    lemma_words_le_concat, lemma_bytes_syms_bits};
use crate::backends::{gzip_default_of, gunzip_of, gzip_pack_default, gzip_unpack, zstd_frame_of,
    zstd_unframe_of, zstd_pack, zstd_unpack};
use crate::MalformedBlobError;

verus! {

/// The rows of a vector sequence as one flat word stream.
pub open spec fn flat_words(rows: Seq<Seq<u32>>) -> Seq<u32>
    decreases rows.len(),
{
    if rows.len() == 0 {
        Seq::empty()
    } else {
        flat_words(rows.drop_last()) + rows.last()
    }
}

/// The views of a vector of rows.
pub open spec fn rows_view(rows: Seq<Vec<u32>>) -> Seq<Seq<u32>> {
    Seq::new(rows.len(), |i: int| rows[i]@)
}

/// Flattens the rows of a sequence into one word stream.
pub fn flatten_rows(rows: &Vec<Vec<u32>>) -> (r: Vec<u32>)
    ensures
        r@ == flat_words(rows_view(rows@)),
{
    let n = rows.len();
    let mut r: Vec<u32> = Vec::new();
    let mut i: usize = 0;
    while i < n
        invariant
            i <= n,
            n == rows@.len(),
            r@ == flat_words(rows_view(rows@).take(i as int)),
        decreases n - i,
    {
        let ghost pre = rows_view(rows@).take(i as int);
        let row = &rows[i];
        let mut j: usize = 0;
        let rl = row.len();
        while j < rl
            invariant
                j <= rl,
                rl == row@.len(),
                r@ == flat_words(pre) + row@.take(j as int),
            decreases rl - j,
        {
            r.push(row[j]);
            proof {
                assert(row@.take(j + 1int) =~= row@.take(j as int).push(row@[j as int]));
                assert((flat_words(pre) + row@.take(j as int)).push(row@[j as int]) =~= flat_words(
                    pre,
                ) + row@.take(j + 1int));
            }
            j = j + 1;
        }
        proof {
            let post = rows_view(rows@).take(i + 1int);
            assert(post.drop_last() =~= pre);
            assert(post.last() == rows@[i as int]@);
            assert(row@.take(rl as int) =~= row@);
        }
        i = i + 1;
    }
    proof {
        assert(rows_view(rows@).take(n as int) =~= rows_view(rows@));
    }
    r
}

/// Deflate-family baseline: the flattened words, squeezed whole.
pub fn gzip_compress(rows: &Vec<Vec<u32>>) -> (r: Vec<u8>)
    ensures
        r@ == gzip_default_of(words_le(flat_words(rows_view(rows@)))),
{
    let flat = flatten_rows(rows);
    let mut raw: Vec<u8> = Vec::new();
    push_words(&mut raw, &flat);
    gzip_pack_default(&raw)
}

/// Restores the flat word stream a deflate-family baseline blob holds.
/// Decompressing what `gzip_compress` produced yields its exact input
/// stream.
pub fn gzip_decompress(blob: &[u8]) -> (r: Result<Vec<u32>, MalformedBlobError>)
    ensures
        r is Ok ==> r->Ok_0@ == le_words(gunzip_of(blob@)),
        forall|x: Seq<u32>|
            blob@ == gzip_default_of(words_le(x)) ==> r is Ok && r->Ok_0@ == x,
{
    let data = match gzip_unpack(blob) {
        Ok(d) => d,
        Err(e) => {
            proof {
                assert forall|x: Seq<u32>|
                    blob@ == gzip_default_of(words_le(x)) implies false by {
                }
            }
            return Err(e);
        },
    };
    let nwords = data.len() / 4;
    let words = read_words(data.as_slice(), 0, nwords);
    proof {
        lemma_le_words_trunc(data@);
        assert(data@.subrange(0, 4 * (data@.len() / 4) as int) =~= data@.subrange(
            0,
            0 + 4 * nwords as int,
        ));
        assert forall|x: Seq<u32>|
            blob@ == gzip_default_of(words_le(x)) implies words@ == x by {
            assert(data@ == words_le(x));
            lemma_le_words_of_words_le(x);
        }
    }
    Ok(words)
}

/// Quantized baseline: each vector component already quantized to a
/// signed byte, squeezed whole.
pub fn int8_compress(symbols: &Vec<i8>) -> (r: Vec<u8>)
    ensures
        r@ == gzip_default_of(syms_bits(symbols@)),
{
    let mut raw: Vec<u8> = Vec::new();
    push_syms_bits(&mut raw, symbols);
    gzip_pack_default(&raw)
}

/// Restores the flat symbol stream a quantized baseline blob holds.
/// Decompressing what `int8_compress` produced yields its exact input
/// stream.
pub fn int8_decompress(blob: &[u8]) -> (r: Result<Vec<i8>, MalformedBlobError>)
    ensures
        r is Ok ==> r->Ok_0@ == bytes_syms(gunzip_of(blob@)),
        forall|x: Seq<i8>|
            blob@ == gzip_default_of(syms_bits(x)) ==> r is Ok && r->Ok_0@ == x,
{
    let data = match gzip_unpack(blob) {
        Ok(d) => d,
        Err(e) => {
            return Err(e);
        },
    };
    let symbols = read_syms_bits(&data);
    proof {
        assert forall|x: Seq<i8>|
            blob@ == gzip_default_of(syms_bits(x)) implies symbols@ == x by {
            assert(data@ == syms_bits(x));
            lemma_bytes_syms_bits(x);
        }
    }
    Ok(symbols)
}

/// Frame-based baseline: the flattened words through the other backend.
pub fn zstd_compress(rows: &Vec<Vec<u32>>) -> (r: Vec<u8>)
    ensures
        r@ == zstd_frame_of(words_le(flat_words(rows_view(rows@)))),
{
    let flat = flatten_rows(rows);
    let mut raw: Vec<u8> = Vec::new();
    push_words(&mut raw, &flat);
    zstd_pack(&raw)
}

/// Restores the flat word stream a frame-based baseline blob holds.
/// Decompressing what `zstd_compress` produced yields its exact input
/// stream.
pub fn zstd_decompress(blob: &[u8]) -> (r: Result<Vec<u32>, MalformedBlobError>)
    ensures
        r is Ok ==> r->Ok_0@ == le_words(zstd_unframe_of(blob@)),
        forall|x: Seq<u32>|
            blob@ == zstd_frame_of(words_le(x)) ==> r is Ok && r->Ok_0@ == x,
{
    let data = match zstd_unpack(blob) {
        Ok(d) => d,
        Err(e) => {
            return Err(e);
        },
    };
    let nwords = data.len() / 4;
    let words = read_words(data.as_slice(), 0, nwords);
    proof {
        lemma_le_words_trunc(data@);
        assert(data@.subrange(0, 4 * (data@.len() / 4) as int) =~= data@.subrange(
            0,
            0 + 4 * nwords as int,
        ));
        assert forall|x: Seq<u32>|
            blob@ == zstd_frame_of(words_le(x)) implies words@ == x by {
            assert(data@ == words_le(x));
            lemma_le_words_of_words_le(x);
        }
    }
    Ok(words)
}

} // verus!
