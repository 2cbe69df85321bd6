//! Per-block metadata of an SST: byte offset plus first and last key,
//! and the checksummed vector of those records that an SST's footer
//! carries.
//!
//! Encoded vector shape: `u32` count, the records, `u64` max version,
//! then the CRC-32 of everything after the count header.

use vstd::prelude::*;

verus! {

use vstd::bytes::{spec_u32_to_le_bytes, spec_u32_from_le_bytes, spec_u64_to_le_bytes,
    spec_u64_from_le_bytes};
use crate::codec::{put_u32_le, put_u64_le, get_u32_le, get_u64_le, lemma_int_codecs_round_trip};
use crate::key::{Key, spec_key_encode, spec_key_decode, lemma_key_codec_round_trip};
use crate::checksum::{crc32_of, crc32_hash};
use crate::errors::Error;

/// One block-meta record as specifications see it: offset, first key,
/// last key.
pub type BlockMetaView = (u32, (Seq<u8>, u64), (Seq<u8>, u64));

#[derive(Debug)]
pub struct BlockMeta {
    /// Byte offset of the block inside the SST data region.
    pub offset: usize,
    /// First key of the block.
    pub first_key: Key,
    /// Last key of the block.
    pub last_key: Key,
}

impl View for BlockMeta {
    type V = BlockMetaView;

    open spec fn view(&self) -> BlockMetaView {
        (self.offset as u32, self.first_key@, self.last_key@)
    }
}

impl BlockMeta {
    /// Field widths the encoding can represent.
    pub open spec fn wf(&self) -> bool {
        &&& self.offset <= u32::MAX
        &&& self.first_key.user_key@.len() <= u16::MAX
        &&& self.last_key.user_key@.len() <= u16::MAX
    }

    /// Exact size of this record once encoded.
    pub fn estimated_size(&self) -> (r: usize)
        requires
            self.wf(),
        ensures
            r == spec_block_meta_encode(self@).len(),
    {
        proof {
            lemma_int_codecs_round_trip();
        }
        4 + 2 + self.first_key.key_len() + 8 + 2 + self.last_key.key_len() + 8
    }

    pub fn encode(&self, buf: &mut Vec<u8>)
        requires
            self.wf(),
        ensures
            final(buf)@ == old(buf)@ + spec_block_meta_encode(self@),
    {
        put_u32_le(buf, self.offset as u32);
        self.first_key.encode(buf);
        self.last_key.encode(buf);
        proof {
            assert(buf@ =~= old(buf)@ + spec_block_meta_encode(self@));
        }
    }

    /// Parses one record at `pos`; a truncated record is corruption.
    pub fn decode(buf: &[u8], pos: usize) -> (r: Result<(BlockMeta, usize), Error>)
        ensures
            match spec_block_meta_decode(buf@, pos as int) {
                Some((m, next)) => r matches Ok((meta, np)) && meta@ == m && np == next
                    && meta.wf(),
                None => r matches Err(e) && e is Corruption,
            },
    {
        let buf_len: usize = buf.len();
        if pos > buf_len || buf_len - pos < 4 {
            return Err(Error::corruption("block meta: missing offset"));
        }
        let offset = get_u32_le(buf, pos);
        let (first_key, p2) = match Key::decode(buf, pos + 4) {
            Ok(t) => t,
            Err(e) => {
                return Err(e);
            },
        };
        let (last_key, p3) = match Key::decode(buf, p2) {
            Ok(t) => t,
            Err(e) => {
                return Err(e);
            },
        };
        Ok((BlockMeta { offset: offset as usize, first_key, last_key }, p3))
    }
}

impl PartialEq for BlockMeta {
    fn eq(&self, other: &BlockMeta) -> (r: bool) {
        self.offset == other.offset && self.first_key == other.first_key && self.last_key
            == other.last_key
    }
}

impl vstd::std_specs::cmp::PartialEqSpecImpl for BlockMeta {
    open spec fn obeys_eq_spec() -> bool {
        true
    }

    open spec fn eq_spec(&self, other: &BlockMeta) -> bool {
        self.offset == other.offset && self.first_key@ == other.first_key@ && self.last_key@
            == other.last_key@
    }
}

/// Exact byte shape of one block-meta record.
pub open spec fn spec_block_meta_encode(m: BlockMetaView) -> Seq<u8> {
    spec_u32_to_le_bytes(m.0) + spec_key_encode(m.1.0, m.1.1) + spec_key_encode(m.2.0, m.2.1)
}

/// Parses one block-meta record at `pos`.
pub open spec fn spec_block_meta_decode(s: Seq<u8>, pos: int) -> Option<(BlockMetaView, int)> {
    if pos < 0 || pos + 4 > s.len() {
        None
    } else {
        let off = spec_u32_from_le_bytes(s.subrange(pos, pos + 4));
        match spec_key_decode(s, pos + 4) {
            None => None,
            Some((fk, p2)) => match spec_key_decode(s, p2) {
                None => None,
                Some((lk, p3)) => Some(((off, fk, lk), p3)),
            },
        }
    }
}

/// A block-meta record embedded in a larger byte string parses back to
/// itself.
pub proof fn lemma_block_meta_codec_round_trip(s: Seq<u8>, pos: int, m: BlockMetaView)
    requires
        m.1.0.len() <= u16::MAX,
        m.2.0.len() <= u16::MAX,
        0 <= pos,
        pos + spec_block_meta_encode(m).len() <= s.len(),
        s.subrange(pos, pos + spec_block_meta_encode(m).len()) == spec_block_meta_encode(m),
    ensures
        spec_block_meta_decode(s, pos) == Some((m, pos + spec_block_meta_encode(m).len())),
{
    lemma_int_codecs_round_trip();
    let enc = spec_block_meta_encode(m);
    let e1 = spec_key_encode(m.1.0, m.1.1);
    let e2 = spec_key_encode(m.2.0, m.2.1);
    let l1 = e1.len() as int;
    let l2 = e2.len() as int;
    assert(enc.len() == 4 + l1 + l2);
    assert(s.subrange(pos, pos + 4) =~= enc.subrange(0, 4));
    assert(enc.subrange(0, 4) =~= spec_u32_to_le_bytes(m.0));
    assert(s.subrange(pos + 4, pos + 4 + l1) =~= enc.subrange(4, 4 + l1));
    assert(enc.subrange(4, 4 + l1) =~= e1);
    lemma_key_codec_round_trip(s, pos + 4, m.1.0, m.1.1);
    assert(s.subrange(pos + 4 + l1, pos + 4 + l1 + l2) =~= enc.subrange(4 + l1, 4 + l1 + l2));
    assert(enc.subrange(4 + l1, 4 + l1 + l2) =~= e2);
    lemma_key_codec_round_trip(s, pos + 4 + l1, m.2.0, m.2.1);
}

/// The vector of block-meta records carried by an SST footer.
#[derive(Debug)]
pub struct BlockMetaVec(pub Vec<BlockMeta>);

/// The records one after another, in order.
pub open spec fn spec_metas_bytes(metas: Seq<BlockMetaView>) -> Seq<u8>
    decreases metas.len(),
{
    if metas.len() == 0 {
        Seq::empty()
    } else {
        spec_block_meta_encode(metas[0]) + spec_metas_bytes(metas.drop_first())
    }
}

proof fn lemma_metas_bytes_push(metas: Seq<BlockMetaView>, m: BlockMetaView)
    ensures
        spec_metas_bytes(metas.push(m)) == spec_metas_bytes(metas) + spec_block_meta_encode(m),
    decreases metas.len(),
{
    if metas.len() == 0 {
        assert(metas.push(m)[0] == m);
        assert(metas.push(m).drop_first() =~= Seq::<BlockMetaView>::empty());
        assert(spec_metas_bytes(Seq::<BlockMetaView>::empty()) =~= Seq::<u8>::empty());
        assert(spec_metas_bytes(metas.push(m)) =~= spec_block_meta_encode(m));
        assert(spec_metas_bytes(metas) + spec_block_meta_encode(m) =~= spec_block_meta_encode(
            m,
        ));
    } else {
        lemma_metas_bytes_push(metas.drop_first(), m);
        assert(metas.push(m).drop_first() =~= metas.drop_first().push(m));
        assert(metas.push(m)[0] == metas[0]);
        assert(spec_metas_bytes(metas.push(m)) == spec_block_meta_encode(metas[0])
            + spec_metas_bytes(metas.drop_first().push(m)));
        assert(spec_metas_bytes(metas.push(m)) =~= spec_metas_bytes(metas)
            + spec_block_meta_encode(m));
    }
}

/// Whole-structure byte shape: count, records, max version, CRC of
/// everything after the count header.
pub open spec fn spec_block_meta_vec_encode(metas: Seq<BlockMetaView>, version: u64) -> Seq<u8> {
    let tail = spec_metas_bytes(metas) + spec_u64_to_le_bytes(version);
    spec_u32_to_le_bytes(metas.len() as u32) + tail + spec_u32_to_le_bytes(crc32_of(tail))
}

/// Parses `n` records starting at `pos`.
pub open spec fn spec_parse_metas(s: Seq<u8>, pos: int, n: int) -> Option<(Seq<BlockMetaView>,
    int)>
    decreases n,
{
    if n <= 0 {
        Some((Seq::empty(), pos))
    } else {
        match spec_block_meta_decode(s, pos) {
            None => None,
            Some((m, p2)) => match spec_parse_metas(s, p2, n - 1) {
                None => None,
                Some((rest, pe)) => Some((seq![m] + rest, pe)),
            },
        }
    }
}

/// Parses a whole encoded block-meta vector: the count, that many
/// records, the max version, and the CRC, which must match the bytes
/// between the count header and the stored checksum.
pub open spec fn spec_block_meta_vec_decode(s: Seq<u8>) -> Option<(u64, Seq<BlockMetaView>)> {
    if s.len() < 8 {
        None
    } else {
        let n = spec_u32_from_le_bytes(s.subrange(0, 4)) as int;
        match spec_parse_metas(s, 4, n) {
            None => None,
            Some((metas, p)) => {
                if p + 12 > s.len() {
                    None
                } else {
                    let version = spec_u64_from_le_bytes(s.subrange(p, p + 8));
                    let stored = spec_u32_from_le_bytes(s.subrange(p + 8, p + 12));
                    if stored == crc32_of(s.subrange(4, s.len() - 4)) {
                        Some((version, metas))
                    } else {
                        None
                    }
                }
            },
        }
    }
}

proof fn lemma_parse_metas_round_trip(s: Seq<u8>, pos: int, metas: Seq<BlockMetaView>)
    requires
        forall|i: int| 0 <= i < metas.len() ==> (#[trigger] metas[i]).1.0.len() <= u16::MAX
            && metas[i].2.0.len() <= u16::MAX,
        0 <= pos,
        pos + spec_metas_bytes(metas).len() <= s.len(),
        s.subrange(pos, pos + spec_metas_bytes(metas).len()) == spec_metas_bytes(metas),
    ensures
        spec_parse_metas(s, pos, metas.len() as int) == Some(
            (metas, pos + spec_metas_bytes(metas).len()),
        ),
    decreases metas.len(),
{
    if metas.len() == 0 {
        assert(spec_parse_metas(s, pos, 0) == Some((Seq::<BlockMetaView>::empty(), pos)));
        assert(metas =~= Seq::<BlockMetaView>::empty());
    } else {
        let m = metas[0];
        let e0 = spec_block_meta_encode(m);
        let l0 = e0.len() as int;
        let all = spec_metas_bytes(metas);
        assert(all == e0 + spec_metas_bytes(metas.drop_first()));
        assert(s.subrange(pos, pos + l0) =~= all.subrange(0, l0));
        assert(all.subrange(0, l0) =~= e0);
        lemma_block_meta_codec_round_trip(s, pos, m);
        let rest_bytes = spec_metas_bytes(metas.drop_first());
        assert(s.subrange(pos + l0, pos + l0 + rest_bytes.len()) =~= all.subrange(
            l0,
            l0 + rest_bytes.len() as int,
        ));
        assert(all.subrange(l0, l0 + rest_bytes.len() as int) =~= rest_bytes);
        lemma_parse_metas_round_trip(s, pos + l0, metas.drop_first());
        assert(seq![m] + metas.drop_first() =~= metas);
    }
}

/// Law: decoding an encoded block-meta vector gives back the records and
/// the max version unchanged.
pub proof fn lemma_block_meta_vec_round_trip(metas: Seq<BlockMetaView>, version: u64)
    requires
        metas.len() <= u32::MAX,
        forall|i: int| 0 <= i < metas.len() ==> (#[trigger] metas[i]).1.0.len() <= u16::MAX
            && metas[i].2.0.len() <= u16::MAX,
    ensures
        spec_block_meta_vec_decode(spec_block_meta_vec_encode(metas, version)) == Some(
            (version, metas),
        ),
{
    lemma_int_codecs_round_trip();
    let body = spec_metas_bytes(metas);
    let tail = body + spec_u64_to_le_bytes(version);
    let s = spec_block_meta_vec_encode(metas, version);
    assert(s.len() == 4 + body.len() + 8 + 4);
    assert(s.subrange(0, 4) =~= spec_u32_to_le_bytes(metas.len() as u32));
    assert(s.subrange(4, 4 + body.len() as int) =~= body);
    lemma_parse_metas_round_trip(s, 4, metas);
    let p = 4 + body.len() as int;
    assert(s.subrange(p, p + 8) =~= spec_u64_to_le_bytes(version));
    assert(s.subrange(p + 8, p + 12) =~= spec_u32_to_le_bytes(crc32_of(tail)));
    assert(s.subrange(4, s.len() - 4) =~= tail);
}

impl BlockMetaVec {
    pub open spec fn wf(&self) -> bool {
        &&& self.0@.len() <= u32::MAX
        &&& forall|i: int| 0 <= i < self.0@.len() ==> (#[trigger] self.0@[i]).wf()
    }

    /// The records as specifications see them.
    pub open spec fn metas_view(&self) -> Seq<BlockMetaView> {
        self.0@.map_values(|m: BlockMeta| m@)
    }

    pub fn new() -> (r: BlockMetaVec)
        ensures
            r.wf(),
            r.metas_view() == Seq::<BlockMetaView>::empty(),
    {
        let r = BlockMetaVec(Vec::new());
        proof {
            assert(r.metas_view() =~= Seq::<BlockMetaView>::empty());
        }
        r
    }

    pub fn with(metas: Vec<BlockMeta>) -> (r: BlockMetaVec)
        ensures
            r.0@ == metas@,
            r.metas_view() == metas@.map_values(|m: BlockMeta| m@),
    {
        BlockMetaVec(metas)
    }

    pub fn push(&mut self, meta: BlockMeta)
        ensures
            final(self).0@ == old(self).0@.push(meta),
            final(self).metas_view() == old(self).metas_view().push(meta@),
    {
        self.0.push(meta);
        proof {
            assert(self.metas_view() =~= old(self).metas_view().push(meta@));
        }
    }

    pub fn len(&self) -> (r: usize)
        ensures
            r == self.0@.len(),
    {
        self.0.len()
    }

    pub fn encode(&self, version: u64, buf: &mut Vec<u8>)
        requires
            self.wf(),
        ensures
            final(buf)@ == old(buf)@ + spec_block_meta_vec_encode(self.metas_view(), version),
    {
        let start: usize = buf.len();
        let n = self.0.len();
        put_u32_le(buf, n as u32);
        let mut i: usize = 0;
        proof {
            assert(self.metas_view().take(0) =~= Seq::<BlockMetaView>::empty());
            assert(buf@ =~= old(buf)@ + spec_u32_to_le_bytes(n as u32) + spec_metas_bytes(
                self.metas_view().take(0),
            ));
        }
        while i < n
            invariant
                i <= n,
                n == self.0@.len(),
                self.wf(),
                start == old(buf)@.len(),
                buf@ == old(buf)@ + spec_u32_to_le_bytes(n as u32) + spec_metas_bytes(
                    self.metas_view().take(i as int),
                ),
            decreases n - i,
        {
            let meta = &self.0[i];
            meta.encode(buf);
            proof {
                lemma_metas_bytes_push(self.metas_view().take(i as int), self.0@[i as int]@);
                assert(self.metas_view().take(i + 1) =~= self.metas_view().take(i as int).push(
                    self.0@[i as int]@,
                ));
                assert(buf@ =~= old(buf)@ + spec_u32_to_le_bytes(n as u32) + spec_metas_bytes(
                    self.metas_view().take(i + 1),
                ));
            }
            i = i + 1;
        }
        proof {
            assert(self.metas_view().take(n as int) =~= self.metas_view());
        }
        put_u64_le(buf, version);
        let buf_now: usize = buf.len();
        proof {
            lemma_int_codecs_round_trip();
            assert(buf@.len() >= start + 4);
        }
        let region = vstd::slice::slice_subrange(buf.as_slice(), start + 4, buf_now);
        let crc = crc32_hash(region);
        proof {
            assert(region@ =~= spec_metas_bytes(self.metas_view()) + spec_u64_to_le_bytes(
                version,
            ));
        }
        put_u32_le(buf, crc);
        proof {
            assert(buf@ =~= old(buf)@ + spec_block_meta_vec_encode(self.metas_view(), version));
        }
    }

    /// Decodes a whole encoded block-meta vector; a CRC mismatch or a
    /// truncated structure is corruption.
    pub fn decode(buf: &[u8]) -> (r: Result<(u64, BlockMetaVec), Error>)
        ensures
            match spec_block_meta_vec_decode(buf@) {
                Some((version, metas)) => r matches Ok((v, mv)) && v == version
                    && mv.metas_view() == metas && mv.wf(),
                None => r matches Err(e) && e is Corruption,
            },
    {
        let buf_len: usize = buf.len();
        if buf_len < 8 {
            return Err(Error::corruption("block meta vec: too short"));
        }
        let n = get_u32_le(buf, 0) as usize;
        let mut metas: Vec<BlockMeta> = Vec::new();
        let mut pos: usize = 4;
        let mut i: usize = 0;
        proof {
            assert(spec_parse_metas(buf@, 4, 0) == Some((Seq::<BlockMetaView>::empty(), 4int)));
            assert(metas@.map_values(|m: BlockMeta| m@) =~= Seq::<BlockMetaView>::empty());
        }
        while i < n
            invariant
                i <= n,
                4 <= pos <= buf@.len(),
                buf_len == buf@.len(),
                buf_len >= 8,
                n == spec_u32_from_le_bytes(buf@.subrange(0, 4)),
                metas@.len() == i,
                forall|j: int| 0 <= j < i ==> (#[trigger] metas@[j]).wf(),
                spec_parse_metas(buf@, 4, i as int) == Some(
                    (metas@.map_values(|m: BlockMeta| m@), pos as int),
                ),
            decreases n - i,
        {
            let ghost done = metas@.map_values(|m: BlockMeta| m@);
            proof {
                lemma_parse_metas_split(buf@, 4, i as int, (n - i) as int);
            }
            let (meta, p2) = match BlockMeta::decode(buf, pos) {
                Ok(t) => t,
                Err(e) => {
                    proof {
                        assert(spec_parse_metas(buf@, pos as int, (n - i) as int) is None);
                        assert(spec_parse_metas(buf@, 4, n as int) is None);
                    }
                    return Err(Error::corruption("block meta vec: truncated record"));
                },
            };
            proof {
                lemma_parse_metas_split(buf@, 4, i as int, 1);
                assert(spec_parse_metas(buf@, p2 as int, 0) == Some(
                    (Seq::<BlockMetaView>::empty(), p2 as int),
                ));
                assert(seq![meta@] + Seq::<BlockMetaView>::empty() =~= seq![meta@]);
                assert(spec_parse_metas(buf@, pos as int, 1) == Some((seq![meta@], p2 as int)));
                assert(done + seq![meta@] =~= done.push(meta@));
            }
            metas.push(meta);
            pos = p2;
            i = i + 1;
            proof {
                assert(metas@.map_values(|m: BlockMeta| m@) =~= done.push(meta@));
            }
        }
        if buf_len - pos < 12 {
            return Err(Error::corruption("block meta vec: missing version or checksum"));
        }
        let version = get_u64_le(buf, pos);
        let stored = get_u32_le(buf, pos + 8);
        let region = vstd::slice::slice_subrange(buf, 4, buf_len - 4);
        let computed = crc32_hash(region);
        if stored != computed {
            return Err(Error::corruption("block meta vec: checksum mismatched"));
        }
        Ok((version, BlockMetaVec(metas)))
    }
}

/// Parsing `a + b` records is parsing `a`, then `b` more from where the
/// first parse stopped.
pub proof fn lemma_parse_metas_split(s: Seq<u8>, pos: int, a: int, b: int)
    requires
        0 <= a,
        0 <= b,
    ensures
        spec_parse_metas(s, pos, a + b) == match spec_parse_metas(s, pos, a) {
            None => None::<(Seq<BlockMetaView>, int)>,
            Some((first, p)) => match spec_parse_metas(s, p, b) {
                None => None,
                Some((rest, pe)) => Some((first + rest, pe)),
            },
        },
    decreases a,
{
    if a == 0 {
        match spec_parse_metas(s, pos, b) {
            None => {},
            Some((rest, pe)) => {
                assert(Seq::<BlockMetaView>::empty() + rest =~= rest);
            },
        }
    } else {
        match spec_block_meta_decode(s, pos) {
            None => {},
            Some((m, p2)) => {
                lemma_parse_metas_split(s, p2, a - 1, b);
                match spec_parse_metas(s, p2, a - 1) {
                    None => {},
                    Some((first1, p)) => {
                        match spec_parse_metas(s, p, b) {
                            None => {},
                            Some((rest, pe)) => {
                                assert(seq![m] + (first1 + rest) =~= (seq![m] + first1) + rest);
                            },
                        }
                    },
                }
            },
        }
    }
}

} // verus!
