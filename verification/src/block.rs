//! A block: the serialized run of sorted key/value entries that SSTs are
//! made of. Encoded shape: entry bytes, then one little-endian `u16`
//! offset per entry, then the entry count as a trailing `u16`.

use vstd::prelude::*;

verus! {

use vstd::bytes::{spec_u16_to_le_bytes, spec_u16_from_le_bytes};
use crate::codec::{put_u16_le, get_u16_le, get_bytes, lemma_int_codecs_round_trip};
use crate::errors::Error;

#[derive(Debug)]
pub struct Block {
    pub data: Vec<u8>,
    pub offsets: Vec<u16>,
}

/// The offset array as bytes: each offset as little-endian `u16`, in order.
pub open spec fn spec_offsets_bytes(offsets: Seq<u16>) -> Seq<u8>
    decreases offsets.len(),
{
    if offsets.len() == 0 {
        Seq::empty()
    } else {
        spec_offsets_bytes(offsets.drop_last()) + spec_u16_to_le_bytes(offsets.last())
    }
}

pub proof fn lemma_offsets_bytes_len(offsets: Seq<u16>)
    ensures
        spec_offsets_bytes(offsets).len() == 2 * offsets.len(),
    decreases offsets.len(),
{
    if offsets.len() > 0 {
        lemma_offsets_bytes_len(offsets.drop_last());
        lemma_int_codecs_round_trip();
    }
}

/// Byte `2 * i .. 2 * i + 2` of the offset array encode `offsets[i]`.
pub proof fn lemma_offsets_bytes_index(offsets: Seq<u16>, i: int)
    requires
        0 <= i < offsets.len(),
    ensures
        spec_offsets_bytes(offsets).subrange(2 * i, 2 * i + 2) == spec_u16_to_le_bytes(
            offsets[i],
        ),
    decreases offsets.len(),
{
    lemma_int_codecs_round_trip();
    lemma_offsets_bytes_len(offsets);
    lemma_offsets_bytes_len(offsets.drop_last());
    if i == offsets.len() - 1 {
        assert(spec_offsets_bytes(offsets).subrange(2 * i, 2 * i + 2) =~= spec_u16_to_le_bytes(
            offsets.last(),
        ));
    } else {
        lemma_offsets_bytes_index(offsets.drop_last(), i);
        assert(spec_offsets_bytes(offsets).subrange(2 * i, 2 * i + 2) =~= spec_offsets_bytes(
            offsets.drop_last(),
        ).subrange(2 * i, 2 * i + 2));
    }
}

/// Exact byte shape of an encoded block.
pub open spec fn spec_block_encode(data: Seq<u8>, offsets: Seq<u16>) -> Seq<u8> {
    data + spec_offsets_bytes(offsets) + spec_u16_to_le_bytes(offsets.len() as u16)
}

/// Reads the offset array back out of the bytes: `n` offsets starting at
/// byte `start`.
pub open spec fn spec_parse_offsets(s: Seq<u8>, start: int, n: int) -> Seq<u16>
    decreases n,
{
    if n <= 0 {
        Seq::empty()
    } else {
        spec_parse_offsets(s, start, n - 1).push(
            spec_u16_from_le_bytes(s.subrange(start + 2 * (n - 1), start + 2 * n)),
        )
    }
}

/// Parses a whole encoded block; `None` when the trailer or the offset
/// array does not fit.
pub open spec fn spec_block_decode(s: Seq<u8>) -> Option<(Seq<u8>, Seq<u16>)> {
    if s.len() < 2 {
        None
    } else {
        let n = spec_u16_from_le_bytes(s.subrange(s.len() - 2, s.len() as int)) as int;
        if s.len() - 2 < 2 * n {
            None
        } else {
            let data_end = s.len() - 2 - 2 * n;
            Some((s.subrange(0, data_end), spec_parse_offsets(s, data_end, n)))
        }
    }
}

proof fn lemma_parse_offsets_round_trip(s: Seq<u8>, start: int, offsets: Seq<u16>, k: int)
    requires
        0 <= start,
        start + 2 * offsets.len() <= s.len(),
        s.subrange(start, start + 2 * offsets.len()) == spec_offsets_bytes(offsets),
        0 <= k <= offsets.len(),
    ensures
        spec_parse_offsets(s, start, k) == offsets.take(k),
    decreases k,
{
    lemma_offsets_bytes_len(offsets);
    if k > 0 {
        lemma_parse_offsets_round_trip(s, start, offsets, k - 1);
        lemma_offsets_bytes_index(offsets, k - 1);
        lemma_int_codecs_round_trip();
        assert(s.subrange(start + 2 * (k - 1), start + 2 * k) =~= spec_offsets_bytes(
            offsets,
        ).subrange(2 * (k - 1), 2 * (k - 1) + 2));
        assert(spec_u16_from_le_bytes(s.subrange(start + 2 * (k - 1), start + 2 * k))
            == offsets[k - 1]);
        assert(offsets.take(k) =~= offsets.take(k - 1).push(offsets[k - 1]));
    } else {
        assert(offsets.take(0) =~= Seq::<u16>::empty());
    }
}

/// Law: decoding an encoded block gives the block back.
pub proof fn lemma_block_codec_round_trip(data: Seq<u8>, offsets: Seq<u16>)
    requires
        offsets.len() <= u16::MAX,
    ensures
        spec_block_decode(spec_block_encode(data, offsets)) == Some((data, offsets)),
{
    lemma_int_codecs_round_trip();
    lemma_offsets_bytes_len(offsets);
    let s = spec_block_encode(data, offsets);
    let n = offsets.len() as int;
    assert(s.len() == data.len() + 2 * n + 2);
    assert(s.subrange(s.len() - 2, s.len() as int) =~= spec_u16_to_le_bytes(
        offsets.len() as u16,
    ));
    assert(spec_u16_from_le_bytes(s.subrange(s.len() - 2, s.len() as int)) == offsets.len() as u16);
    let data_end = s.len() - 2 - 2 * n;
    assert(data_end == data.len());
    assert(s.subrange(0, data_end) =~= data);
    assert(s.subrange(data_end, data_end + 2 * n) =~= spec_offsets_bytes(offsets));
    lemma_parse_offsets_round_trip(s, data_end, offsets, n);
    assert(offsets.take(n) =~= offsets);
}

impl Block {
    /// Serializes the block: entry bytes, offset array, entry count.
    pub fn encode(&self) -> (r: Vec<u8>)
        requires
            self.offsets@.len() <= u16::MAX,
        ensures
            r@ == spec_block_encode(self.data@, self.offsets@),
    {
        let mut buf = vstd::slice::slice_to_vec(self.data.as_slice());
        let n = self.offsets.len();
        let mut i: usize = 0;
        proof {
            assert(spec_offsets_bytes(self.offsets@.take(0)) =~= Seq::<u8>::empty());
            assert(buf@ =~= self.data@ + spec_offsets_bytes(self.offsets@.take(0)));
        }
        while i < n
            invariant
                i <= n,
                n == self.offsets@.len(),
                buf@ == self.data@ + spec_offsets_bytes(self.offsets@.take(i as int)),
            decreases n - i,
        {
            put_u16_le(&mut buf, self.offsets[i]);
            proof {
                assert(self.offsets@.take(i + 1).drop_last() =~= self.offsets@.take(i as int));
                assert(self.offsets@.take(i + 1).last() == self.offsets@[i as int]);
            }
            i = i + 1;
        }
        proof {
            assert(self.offsets@.take(n as int) =~= self.offsets@);
        }
        put_u16_le(&mut buf, n as u16);
        buf
    }

    /// Rebuilds a block from its serialized form; a frame that does not
    /// hold its own offset array is corruption.
    pub fn decode(data: &[u8]) -> (r: Result<Block, Error>)
        ensures
            match spec_block_decode(data@) {
                Some((d, o)) => r matches Ok(b) && b.data@ == d && b.offsets@ == o,
                None => r matches Err(e) && e is Corruption,
            },
    {
        let len = data.len();
        if len < 2 {
            return Err(Error::corruption("block: missing entry count"));
        }
        let n = get_u16_le(data, len - 2) as usize;
        if len - 2 < 2 * n {
            return Err(Error::corruption("block: offset array does not fit"));
        }
        let data_end = len - 2 - 2 * n;
        let mut offsets: Vec<u16> = Vec::new();
        let mut i: usize = 0;
        while i < n
            invariant
                i <= n,
                len == data@.len(),
                len >= 2,
                len - 2 >= 2 * n,
                data_end == len - 2 - 2 * n,
                offsets@ == spec_parse_offsets(data@, data_end as int, i as int),
            decreases n - i,
        {
            let off = get_u16_le(data, data_end + 2 * i);
            offsets.push(off);
            i = i + 1;
        }
        let block_data = get_bytes(data, 0, data_end);
        Ok(Block { data: block_data, offsets })
    }
}

impl PartialEq for Block {
    fn eq(&self, other: &Block) -> (r: bool) {
        let r = self.data == other.data && self.offsets == other.offsets;
        proof {
            if self.data@.len() == other.data@.len() && self.offsets@.len()
                == other.offsets@.len() {
                if r {
                    assert(self.data@ =~= other.data@);
                    assert(self.offsets@ =~= other.offsets@);
                }
            }
        }
        r
    }
}

impl vstd::std_specs::cmp::PartialEqSpecImpl for Block {
    open spec fn obeys_eq_spec() -> bool {
        true
    }

    open spec fn eq_spec(&self, other: &Block) -> bool {
        self.data@ == other.data@ && self.offsets@ == other.offsets@
    }
}

} // verus!
