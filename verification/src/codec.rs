//! Byte-level codecs shared by every on-disk structure: little-endian
//! integers for the SST family of formats, big-endian integers for the
//! frame headers of the write-ahead log and the manifest.

use vstd::prelude::*;

verus! {

use vstd::bytes::{
    spec_u16_to_le_bytes, spec_u16_from_le_bytes, u16_to_le_bytes, u16_from_le_bytes,
    spec_u32_to_le_bytes, spec_u32_from_le_bytes, u32_to_le_bytes, u32_from_le_bytes,
    spec_u64_to_le_bytes, spec_u64_from_le_bytes, u64_to_le_bytes, u64_from_le_bytes,
    lemma_auto_spec_u16_to_from_le_bytes, lemma_auto_spec_u32_to_from_le_bytes,
    lemma_auto_spec_u64_to_from_le_bytes,
};
use vstd::slice::{slice_subrange, slice_to_vec};

pub open spec fn spec_u16_to_be_bytes(x: u16) -> Seq<u8> {
    spec_u16_to_le_bytes(x).reverse()
}

pub open spec fn spec_u16_from_be_bytes(s: Seq<u8>) -> u16 {
    spec_u16_from_le_bytes(s.reverse())
}

pub open spec fn spec_u32_to_be_bytes(x: u32) -> Seq<u8> {
    spec_u32_to_le_bytes(x).reverse()
}

pub open spec fn spec_u32_from_be_bytes(s: Seq<u8>) -> u32 {
    spec_u32_from_le_bytes(s.reverse())
}

pub open spec fn spec_u64_to_be_bytes(x: u64) -> Seq<u8> {
    spec_u64_to_le_bytes(x).reverse()
}

pub open spec fn spec_u64_from_be_bytes(s: Seq<u8>) -> u64 {
    spec_u64_from_le_bytes(s.reverse())
}

/// The round-trip facts for all integer byte codecs, little- and big-endian.
pub proof fn lemma_int_codecs_round_trip()
    ensures
        forall|x: u16| (#[trigger] spec_u16_to_le_bytes(x)).len() == 2
            && spec_u16_from_le_bytes(spec_u16_to_le_bytes(x)) == x,
        forall|x: u32| (#[trigger] spec_u32_to_le_bytes(x)).len() == 4
            && spec_u32_from_le_bytes(spec_u32_to_le_bytes(x)) == x,
        forall|x: u64| (#[trigger] spec_u64_to_le_bytes(x)).len() == 8
            && spec_u64_from_le_bytes(spec_u64_to_le_bytes(x)) == x,
        forall|x: u16| (#[trigger] spec_u16_to_be_bytes(x)).len() == 2
            && spec_u16_from_be_bytes(spec_u16_to_be_bytes(x)) == x,
        forall|x: u32| (#[trigger] spec_u32_to_be_bytes(x)).len() == 4
            && spec_u32_from_be_bytes(spec_u32_to_be_bytes(x)) == x,
        forall|x: u64| (#[trigger] spec_u64_to_be_bytes(x)).len() == 8
            && spec_u64_from_be_bytes(spec_u64_to_be_bytes(x)) == x,
{
    lemma_auto_spec_u16_to_from_le_bytes();
    lemma_auto_spec_u32_to_from_le_bytes();
    lemma_auto_spec_u64_to_from_le_bytes();
    assert forall|x: u16| (#[trigger] spec_u16_to_be_bytes(x)).len() == 2
        && spec_u16_from_be_bytes(spec_u16_to_be_bytes(x)) == x by {
        assert(spec_u16_to_le_bytes(x).reverse().reverse() =~= spec_u16_to_le_bytes(x));
    }
    assert forall|x: u32| (#[trigger] spec_u32_to_be_bytes(x)).len() == 4
        && spec_u32_from_be_bytes(spec_u32_to_be_bytes(x)) == x by {
        assert(spec_u32_to_le_bytes(x).reverse().reverse() =~= spec_u32_to_le_bytes(x));
    }
    assert forall|x: u64| (#[trigger] spec_u64_to_be_bytes(x)).len() == 8
        && spec_u64_from_be_bytes(spec_u64_to_be_bytes(x)) == x by {
        assert(spec_u64_to_le_bytes(x).reverse().reverse() =~= spec_u64_to_le_bytes(x));
    }
}

pub fn put_u16_le(buf: &mut Vec<u8>, x: u16)
    ensures
        final(buf)@ == old(buf)@ + spec_u16_to_le_bytes(x),
{
    proof { lemma_int_codecs_round_trip(); }
    let b = u16_to_le_bytes(x);
    buf.push(b[0]);
    buf.push(b[1]);
    proof {
        assert(buf@ =~= old(buf)@ + spec_u16_to_le_bytes(x));
    }
}

pub fn put_u32_le(buf: &mut Vec<u8>, x: u32)
    ensures
        final(buf)@ == old(buf)@ + spec_u32_to_le_bytes(x),
{
    proof { lemma_int_codecs_round_trip(); }
    let b = u32_to_le_bytes(x);
    buf.push(b[0]);
    buf.push(b[1]);
    buf.push(b[2]);
    buf.push(b[3]);
    proof {
        assert(buf@ =~= old(buf)@ + spec_u32_to_le_bytes(x));
    }
}

pub fn put_u64_le(buf: &mut Vec<u8>, x: u64)
    ensures
        final(buf)@ == old(buf)@ + spec_u64_to_le_bytes(x),
{
    proof { lemma_int_codecs_round_trip(); }
    let b = u64_to_le_bytes(x);
    let mut i: usize = 0;
    while i < 8
        invariant
            i <= 8,
            b@ == spec_u64_to_le_bytes(x),
            b@.len() == 8,
            buf@ == old(buf)@ + b@.subrange(0, i as int),
        decreases 8 - i,
    {
        buf.push(b[i]);
        i = i + 1;
        proof {
            assert(buf@ =~= old(buf)@ + b@.subrange(0, i as int));
        }
    }
    proof {
        assert(b@.subrange(0, 8) =~= b@);
    }
}

pub fn put_u16_be(buf: &mut Vec<u8>, x: u16)
    ensures
        final(buf)@ == old(buf)@ + spec_u16_to_be_bytes(x),
{
    proof { lemma_int_codecs_round_trip(); }
    let b = u16_to_le_bytes(x);
    buf.push(b[1]);
    buf.push(b[0]);
    proof {
        assert(buf@ =~= old(buf)@ + spec_u16_to_le_bytes(x).reverse());
    }
}

pub fn get_u16_be(buf: &[u8], pos: usize) -> (r: u16)
    requires
        pos + 2 <= buf@.len(),
    ensures
        r == spec_u16_from_be_bytes(buf@.subrange(pos as int, pos + 2)),
{
    let buf_len: usize = buf.len();
    let b0 = *vstd::slice::slice_index_get(buf, pos + 1);
    let b1 = *vstd::slice::slice_index_get(buf, pos);
    let le: Vec<u8> = vec![b0, b1];
    let r = u16_from_le_bytes(le.as_slice());
    proof {
        assert(le@ =~= buf@.subrange(pos as int, pos + 2).reverse());
    }
    r
}

pub fn put_u32_be(buf: &mut Vec<u8>, x: u32)
    ensures
        final(buf)@ == old(buf)@ + spec_u32_to_be_bytes(x),
{
    proof { lemma_int_codecs_round_trip(); }
    let b = u32_to_le_bytes(x);
    buf.push(b[3]);
    buf.push(b[2]);
    buf.push(b[1]);
    buf.push(b[0]);
    proof {
        assert(buf@ =~= old(buf)@ + spec_u32_to_le_bytes(x).reverse());
    }
}

pub fn put_u64_be(buf: &mut Vec<u8>, x: u64)
    ensures
        final(buf)@ == old(buf)@ + spec_u64_to_be_bytes(x),
{
    proof { lemma_int_codecs_round_trip(); }
    let b = u64_to_le_bytes(x);
    buf.push(b[7]);
    buf.push(b[6]);
    buf.push(b[5]);
    buf.push(b[4]);
    buf.push(b[3]);
    buf.push(b[2]);
    buf.push(b[1]);
    buf.push(b[0]);
    proof {
        assert(buf@ =~= old(buf)@ + spec_u64_to_le_bytes(x).reverse());
    }
}

pub fn put_bytes(buf: &mut Vec<u8>, s: &[u8])
    ensures
        final(buf)@ == old(buf)@ + s@,
{
    buf.extend_from_slice(s);
}

pub fn get_u16_le(buf: &[u8], pos: usize) -> (r: u16)
    requires
        pos + 2 <= buf@.len(),
    ensures
        r == spec_u16_from_le_bytes(buf@.subrange(pos as int, pos + 2)),
{
    let buf_len: usize = buf.len();
    let s = slice_subrange(buf, pos, pos + 2);
    u16_from_le_bytes(s)
}

pub fn get_u32_le(buf: &[u8], pos: usize) -> (r: u32)
    requires
        pos + 4 <= buf@.len(),
    ensures
        r == spec_u32_from_le_bytes(buf@.subrange(pos as int, pos + 4)),
{
    let buf_len: usize = buf.len();
    let s = slice_subrange(buf, pos, pos + 4);
    u32_from_le_bytes(s)
}

pub fn get_u64_le(buf: &[u8], pos: usize) -> (r: u64)
    requires
        pos + 8 <= buf@.len(),
    ensures
        r == spec_u64_from_le_bytes(buf@.subrange(pos as int, pos + 8)),
{
    let buf_len: usize = buf.len();
    let s = slice_subrange(buf, pos, pos + 8);
    u64_from_le_bytes(s)
}

pub fn get_u32_be(buf: &[u8], pos: usize) -> (r: u32)
    requires
        pos + 4 <= buf@.len(),
    ensures
        r == spec_u32_from_be_bytes(buf@.subrange(pos as int, pos + 4)),
{
    let buf_len: usize = buf.len();
    let b0 = *vstd::slice::slice_index_get(buf, pos + 3);
    let b1 = *vstd::slice::slice_index_get(buf, pos + 2);
    let b2 = *vstd::slice::slice_index_get(buf, pos + 1);
    let b3 = *vstd::slice::slice_index_get(buf, pos);
    let le: Vec<u8> = vec![b0, b1, b2, b3];
    let r = u32_from_le_bytes(le.as_slice());
    proof {
        assert(le@ =~= buf@.subrange(pos as int, pos + 4).reverse());
    }
    r
}

pub fn get_u64_be(buf: &[u8], pos: usize) -> (r: u64)
    requires
        pos + 8 <= buf@.len(),
    ensures
        r == spec_u64_from_be_bytes(buf@.subrange(pos as int, pos + 8)),
{
    let buf_len: usize = buf.len();
    let b0 = *vstd::slice::slice_index_get(buf, pos + 7);
    let b1 = *vstd::slice::slice_index_get(buf, pos + 6);
    let b2 = *vstd::slice::slice_index_get(buf, pos + 5);
    let b3 = *vstd::slice::slice_index_get(buf, pos + 4);
    let b4 = *vstd::slice::slice_index_get(buf, pos + 3);
    let b5 = *vstd::slice::slice_index_get(buf, pos + 2);
    let b6 = *vstd::slice::slice_index_get(buf, pos + 1);
    let b7 = *vstd::slice::slice_index_get(buf, pos);
    let le: Vec<u8> = vec![b0, b1, b2, b3, b4, b5, b6, b7];
    let r = u64_from_le_bytes(le.as_slice());
    proof {
        assert(le@ =~= buf@.subrange(pos as int, pos + 8).reverse());
    }
    r
}

/// Copies `buf[pos..pos + len]` out into an owned vector.
pub fn get_bytes(buf: &[u8], pos: usize, len: usize) -> (r: Vec<u8>)
    requires
        pos + len <= buf@.len(),
    ensures
        r@ == buf@.subrange(pos as int, pos + len),
{
    let buf_len: usize = buf.len();
    let s = slice_subrange(buf, pos, pos + len);
    slice_to_vec(s)
}

} // verus!
