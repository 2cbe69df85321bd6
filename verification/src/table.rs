//! SST metadata and the SST reader: given a table's bytes, find the
//! footer, check every checksum, and hand the entries back in order.
//!
//! File shape: for each block its encoding followed by the CRC-32 of
//! that encoding; then the encoded block-meta vector; its starting
//! offset as `u32`; the exported filter section; and the filter
//! section's starting offset as the last four bytes.

use vstd::prelude::*;

verus! {

use vstd::bytes::{spec_u32_to_le_bytes, spec_u32_from_le_bytes};
use crate::codec::{get_u32_le, lemma_int_codecs_round_trip};
use crate::key::Key;
use crate::block::{Block, spec_block_encode, spec_block_decode, lemma_block_codec_round_trip};
use crate::block_builder::{BlockEntry, spec_block_entries, read_block_entries};
use crate::key::vk_lt;
use crate::block_meta::{BlockMetaVec, BlockMetaView};
use crate::checksum::{crc32_of, crc32_hash};
use crate::errors::Error;

pub type SsTableId = u64;

/// One block as data and offsets, before serialization.
pub type SstBlockView = (Seq<u8>, Seq<u16>);

/// Everything known about a built SST besides its raw bytes.
pub struct SsTableMeta {
    pub id: SsTableId,
    pub first_key: Key,
    pub last_key: Key,
    pub block_meta_vec: BlockMetaVec,
    pub block_meta_offset: usize,
    pub max_version: u64,
}

/// One block's segment in the data region: its encoding, then the
/// little-endian CRC-32 of that encoding.
pub open spec fn spec_block_segment(b: SstBlockView) -> Seq<u8> {
    spec_block_encode(b.0, b.1) + spec_u32_to_le_bytes(crc32_of(spec_block_encode(b.0, b.1)))
}

/// The whole data region: the blocks' segments in order.
pub open spec fn spec_blocks_bytes(bs: Seq<SstBlockView>) -> Seq<u8>
    decreases bs.len(),
{
    if bs.len() == 0 {
        Seq::empty()
    } else {
        spec_block_segment(bs[0]) + spec_blocks_bytes(bs.drop_first())
    }
}

pub proof fn lemma_blocks_bytes_push(bs: Seq<SstBlockView>, b: SstBlockView)
    ensures
        spec_blocks_bytes(bs.push(b)) == spec_blocks_bytes(bs) + spec_block_segment(b),
    decreases bs.len(),
{
    if bs.len() == 0 {
        assert(bs.push(b)[0] == b);
        assert(bs.push(b).drop_first() =~= Seq::<SstBlockView>::empty());
        assert(spec_blocks_bytes(Seq::<SstBlockView>::empty()) =~= Seq::<u8>::empty());
        assert(spec_blocks_bytes(bs.push(b)) =~= spec_block_segment(b));
        assert(spec_blocks_bytes(bs) + spec_block_segment(b) =~= spec_block_segment(b));
    } else {
        lemma_blocks_bytes_push(bs.drop_first(), b);
        assert(bs.push(b)[0] == bs[0]);
        assert(bs.push(b).drop_first() =~= bs.drop_first().push(b));
        assert(spec_blocks_bytes(bs.push(b)) =~= spec_blocks_bytes(bs) + spec_block_segment(b));
    }
}

/// The entries of a run of blocks, one block after another.
pub open spec fn spec_concat_entries(per: Seq<Seq<BlockEntry>>) -> Seq<BlockEntry>
    decreases per.len(),
{
    if per.len() == 0 {
        Seq::empty()
    } else {
        per[0] + spec_concat_entries(per.drop_first())
    }
}

pub proof fn lemma_concat_entries_push(per: Seq<Seq<BlockEntry>>, es: Seq<BlockEntry>)
    ensures
        spec_concat_entries(per.push(es)) == spec_concat_entries(per) + es,
    decreases per.len(),
{
    if per.len() == 0 {
        assert(per.push(es)[0] == es);
        assert(per.push(es).drop_first() =~= Seq::<Seq<BlockEntry>>::empty());
        assert(spec_concat_entries(Seq::<Seq<BlockEntry>>::empty()) =~= Seq::<
            BlockEntry,
        >::empty());
        assert(spec_concat_entries(per.push(es)) =~= es);
        assert(spec_concat_entries(per) + es =~= es);
    } else {
        lemma_concat_entries_push(per.drop_first(), es);
        assert(per.push(es)[0] == per[0]);
        assert(per.push(es).drop_first() =~= per.drop_first().push(es));
        assert(spec_concat_entries(per.push(es)) =~= spec_concat_entries(per) + es);
    }
}

/// How a built table's bytes, meta records, blocks, and entries align:
/// the data region is the blocks' segments in order, each meta record
/// points at its block's start and carries its block's first and last
/// key, and each block holds its listed entries.
pub open spec fn spec_sst_layout(
    s: Seq<u8>,
    metas: Seq<BlockMetaView>,
    bs: Seq<SstBlockView>,
    per: Seq<Seq<BlockEntry>>,
    data_end: int,
) -> bool {
    &&& data_end == spec_blocks_bytes(bs).len()
    &&& data_end <= s.len()
    &&& s.subrange(0, data_end) == spec_blocks_bytes(bs)
    &&& metas.len() == bs.len()
    &&& per.len() == bs.len()
    &&& forall|j: int| 0 <= j < bs.len() ==> (#[trigger] metas[j]).0 as int == spec_blocks_bytes(
        bs.take(j),
    ).len()
    &&& forall|j: int| 0 <= j < bs.len() ==> spec_block_entries(
        (#[trigger] bs[j]).0,
        bs[j].1,
    ) == Some(per[j])
    &&& forall|j: int| 0 <= j < bs.len() ==> (#[trigger] bs[j]).1.len() <= u16::MAX
    &&& forall|j: int| 0 <= j < per.len() ==> (#[trigger] per[j]).len() > 0
    &&& forall|j: int| 0 <= j < bs.len() ==> (#[trigger] metas[j]).1 == per[j][0].0
        && metas[j].2 == per[j].last().0
}

/// Entries held by the blocks before block `j`.
pub open spec fn spec_entries_before(per: Seq<Seq<BlockEntry>>, j: int) -> int
    decreases j,
{
    if j <= 0 {
        0
    } else {
        spec_entries_before(per, j - 1) + per[j - 1].len()
    }
}

proof fn lemma_entries_before_nonneg(per: Seq<Seq<BlockEntry>>, j: int)
    ensures
        spec_entries_before(per, j) >= 0,
    decreases j,
{
    if j > 0 {
        lemma_entries_before_nonneg(per, j - 1);
    }
}

proof fn lemma_entries_before_drop_first(per: Seq<Seq<BlockEntry>>, j: int)
    requires
        1 <= j <= per.len(),
    ensures
        spec_entries_before(per, j) == per[0].len() + spec_entries_before(
            per.drop_first(),
            j - 1,
        ),
    decreases j,
{
    if j == 1 {
        assert(spec_entries_before(per, 1) == spec_entries_before(per, 0) + per[0].len());
        assert(spec_entries_before(per.drop_first(), 0) == 0);
    } else {
        lemma_entries_before_drop_first(per, j - 1);
        assert(per.drop_first()[j - 2] == per[j - 1]);
    }
}

/// Entry `k` of block `j` sits at its block's global position.
pub proof fn lemma_concat_entries_index(per: Seq<Seq<BlockEntry>>, j: int, k: int)
    requires
        0 <= j < per.len(),
        0 <= k < per[j].len(),
    ensures
        0 <= spec_entries_before(per, j) + k < spec_concat_entries(per).len(),
        spec_concat_entries(per)[spec_entries_before(per, j) + k] == per[j][k],
    decreases j,
{
    lemma_entries_before_nonneg(per, j);
    assert(spec_concat_entries(per) == per[0] + spec_concat_entries(per.drop_first()));
    if j == 0 {
        assert((per[0] + spec_concat_entries(per.drop_first()))[k] == per[0][k]);
    } else {
        assert(per.drop_first()[j - 1] == per[j]);
        lemma_concat_entries_index(per.drop_first(), j - 1, k);
        lemma_entries_before_drop_first(per, j);
        let pos = spec_entries_before(per, j) + k;
        assert((per[0] + spec_concat_entries(per.drop_first()))[pos] == spec_concat_entries(
            per.drop_first(),
        )[pos - per[0].len()]);
    }
}

proof fn lemma_entries_before_mono(per: Seq<Seq<BlockEntry>>, a: int, b: int)
    requires
        0 <= a < b <= per.len(),
    ensures
        spec_entries_before(per, a) + per[a].len() <= spec_entries_before(per, b),
    decreases b,
{
    if b > a + 1 {
        lemma_entries_before_mono(per, a, b - 1);
    }
}

/// Law: when the entries stand in ascending VK order, each meta record's
/// range is well-formed — its first key at or before its last key — and
/// consecutive blocks' key ranges do not overlap and ascend.
pub proof fn lemma_metas_vk_ordered(
    metas: Seq<BlockMetaView>,
    per: Seq<Seq<BlockEntry>>,
    entries: Seq<BlockEntry>,
)
    requires
        metas.len() == per.len(),
        forall|j: int| 0 <= j < per.len() ==> (#[trigger] per[j]).len() > 0,
        forall|j: int| 0 <= j < metas.len() ==> (#[trigger] metas[j]).1 == per[j][0].0
            && metas[j].2 == per[j].last().0,
        spec_concat_entries(per) == entries,
        forall|i: int, j: int| 0 <= i < j < entries.len() ==> vk_lt(
            (#[trigger] entries[i]).0,
            (#[trigger] entries[j]).0,
        ),
    ensures
        forall|j: int| 0 <= j < metas.len() ==> ((#[trigger] metas[j]).1 == metas[j].2 || vk_lt(
            metas[j].1,
            metas[j].2,
        )),
        forall|i: int, j: int| 0 <= i < j < metas.len() ==> vk_lt(
            (#[trigger] metas[i]).2,
            (#[trigger] metas[j]).1,
        ),
{
    assert forall|j: int| 0 <= j < metas.len() implies ((#[trigger] metas[j]).1 == metas[j].2
        || vk_lt(metas[j].1, metas[j].2)) by {
        let pos0 = spec_entries_before(per, j);
        lemma_concat_entries_index(per, j, 0);
        lemma_concat_entries_index(per, j, per[j].len() - 1);
        assert(per[j].last() == per[j][per[j].len() - 1]);
        if per[j].len() > 1 {
            assert(vk_lt(entries[pos0].0, entries[pos0 + per[j].len() - 1].0));
        }
    }
    assert forall|i: int, j: int| 0 <= i < j < metas.len() implies vk_lt(
        (#[trigger] metas[i]).2,
        (#[trigger] metas[j]).1,
    ) by {
        let pi = spec_entries_before(per, i) + per[i].len() - 1;
        let pj = spec_entries_before(per, j);
        lemma_concat_entries_index(per, i, per[i].len() - 1);
        lemma_concat_entries_index(per, j, 0);
        lemma_entries_before_mono(per, i, j);
        assert(per[i].last() == per[i][per[i].len() - 1]);
        assert(vk_lt(entries[pi].0, entries[pj].0));
    }
}

/// Reads the blocks named by `metas[i..]` out of the data region
/// `s[.. data_end]`, checking each segment's CRC.
pub open spec fn spec_sst_blocks_read(
    s: Seq<u8>,
    metas: Seq<BlockMetaView>,
    i: int,
    data_end: int,
) -> Option<Seq<BlockEntry>>
    decreases metas.len() - i,
{
    if i < 0 || i >= metas.len() {
        Some(Seq::empty())
    } else {
        let start = metas[i].0 as int;
        let end = if i + 1 < metas.len() {
            metas[i + 1].0 as int
        } else {
            data_end
        };
        if !(0 <= start && start + 4 <= end && end <= s.len()) {
            None
        } else {
            let enc = s.subrange(start, end - 4);
            let stored = spec_u32_from_le_bytes(s.subrange(end - 4, end));
            if stored != crc32_of(enc) {
                None
            } else {
                match spec_block_decode(enc) {
                    None => None,
                    Some((d, o)) => match spec_block_entries(d, o) {
                        None => None,
                        Some(es) => match spec_sst_blocks_read(s, metas, i + 1, data_end) {
                            None => None,
                            Some(rest) => Some(es + rest),
                        },
                    },
                }
            }
        }
    }
}

/// Law: the data region a builder wrote reads back to exactly the
/// entries its blocks hold, in order.
pub proof fn lemma_sst_blocks_read(
    s: Seq<u8>,
    bs: Seq<SstBlockView>,
    metas: Seq<BlockMetaView>,
    per: Seq<Seq<BlockEntry>>,
    i: int,
    data_end: int,
)
    requires
        data_end == spec_blocks_bytes(bs).len(),
        data_end <= s.len(),
        s.subrange(0, data_end) == spec_blocks_bytes(bs),
        metas.len() == bs.len(),
        per.len() == bs.len(),
        forall|j: int| 0 <= j < bs.len() ==> (#[trigger] metas[j]).0 == spec_blocks_bytes(
            bs.take(j),
        ).len(),
        forall|j: int| 0 <= j < bs.len() ==> spec_block_entries(
            (#[trigger] bs[j]).0,
            bs[j].1,
        ) == Some(per[j]),
        forall|j: int| 0 <= j < bs.len() ==> (#[trigger] bs[j]).1.len() <= u16::MAX,
        0 <= i <= bs.len(),
    ensures
        spec_sst_blocks_read(s, metas, i, data_end) == Some(
            spec_concat_entries(per.skip(i)),
        ),
    decreases bs.len() - i,
{
    lemma_int_codecs_round_trip();
    if i == bs.len() {
        assert(per.skip(i) =~= Seq::<Seq<BlockEntry>>::empty());
        assert(spec_concat_entries(Seq::<Seq<BlockEntry>>::empty()) =~= Seq::<
            BlockEntry,
        >::empty());
    } else {
        let start = metas[i].0 as int;
        let enc = spec_block_encode(bs[i].0, bs[i].1);
        let seg = spec_block_segment(bs[i]);
        lemma_blocks_bytes_split(bs, i);
        assert(spec_blocks_bytes(bs.take(i + 1)) == spec_blocks_bytes(bs.take(i)) + seg) by {
            assert(bs.take(i + 1) =~= bs.take(i).push(bs[i]));
            lemma_blocks_bytes_push(bs.take(i), bs[i]);
        }
        let end = start + seg.len() as int;
        assert(seg.len() == enc.len() + 4);
        assert(enc.len() >= 2) by {
            crate::block::lemma_offsets_bytes_len(bs[i].1);
        }
        // the segment's extent matches the next meta offset or the end
        if i + 1 < metas.len() {
            assert(metas[i + 1].0 == spec_blocks_bytes(bs.take(i + 1)).len());
        } else {
            assert(bs.take(i + 1) =~= bs);
        }
        lemma_blocks_bytes_prefix_le(bs, i + 1);
        lemma_blocks_bytes_split(bs, i + 1);
        assert(end <= data_end);
        assert forall|p: int| start <= p < end implies s[p] == seg[p - start] by {
            assert(spec_blocks_bytes(bs) == spec_blocks_bytes(bs.take(i + 1))
                + spec_blocks_bytes(bs.skip(i + 1)));
            assert(spec_blocks_bytes(bs)[p] == spec_blocks_bytes(bs.take(i + 1))[p]);
            assert(spec_blocks_bytes(bs.take(i + 1)) == spec_blocks_bytes(bs.take(i)) + seg);
            assert(spec_blocks_bytes(bs.take(i + 1))[p] == seg[p - start]);
            assert(s.subrange(0, data_end)[p] == s[p]);
        }
        assert(s.subrange(start, end - 4) =~= enc) by {
            assert(seg.subrange(0, enc.len() as int) =~= enc);
            assert forall|p: int| 0 <= p < enc.len() implies s.subrange(start, end - 4)[p]
                == enc[p] by {
                assert(s[start + p] == seg[p]);
                assert(seg[p] == enc[p]);
            }
        }
        assert(s.subrange(end - 4, end) =~= spec_u32_to_le_bytes(crc32_of(enc))) by {
            assert(seg.subrange(enc.len() as int, seg.len() as int) =~= spec_u32_to_le_bytes(
                crc32_of(enc),
            ));
            assert forall|p: int| 0 <= p < 4 implies s.subrange(end - 4, end)[p]
                == spec_u32_to_le_bytes(crc32_of(enc))[p] by {
                assert(s[end - 4 + p] == seg[enc.len() + p]);
                assert(seg[enc.len() + p] == spec_u32_to_le_bytes(crc32_of(enc))[p]);
            }
        }
        lemma_block_codec_round_trip(bs[i].0, bs[i].1);
        lemma_sst_blocks_read(s, bs, metas, per, i + 1, data_end);
        assert(per.skip(i)[0] == per[i]);
        assert(per.skip(i).drop_first() =~= per.skip(i + 1));
        assert(spec_concat_entries(per.skip(i)) == per[i] + spec_concat_entries(per.skip(i + 1)));
    }
}

/// The data region decomposes at any block boundary.
pub proof fn lemma_blocks_bytes_split(bs: Seq<SstBlockView>, i: int)
    requires
        0 <= i <= bs.len(),
    ensures
        spec_blocks_bytes(bs) == spec_blocks_bytes(bs.take(i)) + spec_blocks_bytes(bs.skip(i)),
    decreases i,
{
    if i == 0 {
        assert(bs.take(0) =~= Seq::<SstBlockView>::empty());
        assert(bs.skip(0) =~= bs);
        assert(spec_blocks_bytes(Seq::<SstBlockView>::empty()) =~= Seq::<u8>::empty());
        assert(spec_blocks_bytes(bs) =~= spec_blocks_bytes(bs.take(0)) + spec_blocks_bytes(
            bs.skip(0),
        ));
    } else {
        lemma_blocks_bytes_split(bs.drop_first(), i - 1);
        assert(bs.take(i).drop_first() =~= bs.drop_first().take(i - 1));
        assert(bs.skip(i) =~= bs.drop_first().skip(i - 1));
        assert(bs.take(i)[0] == bs[0]);
        assert(bs.take(i).len() > 0);
        assert(spec_blocks_bytes(bs.take(i)) == spec_block_segment(bs[0]) + spec_blocks_bytes(
            bs.drop_first().take(i - 1),
        ));
        assert(spec_blocks_bytes(bs) =~= spec_blocks_bytes(bs.take(i)) + spec_blocks_bytes(
            bs.skip(i),
        ));
    }
}

/// Every prefix of the data region is no longer than the whole.
pub proof fn lemma_blocks_bytes_prefix_le(bs: Seq<SstBlockView>, i: int)
    requires
        0 <= i <= bs.len(),
    ensures
        spec_blocks_bytes(bs.take(i)).len() <= spec_blocks_bytes(bs).len(),
{
    lemma_blocks_bytes_split(bs, i);
}

/// Reads all blocks named by the meta vector out of the data region,
/// checking each CRC, and returns every entry in order.
pub fn read_sst_blocks(s: &[u8], metas: &BlockMetaVec, data_end: usize) -> (r: Result<Vec<(Key,
    Vec<u8>)>, Error>)
    requires
        data_end <= s@.len(),
        metas.wf(),
    ensures
        match spec_sst_blocks_read(s@, metas.metas_view(), 0, data_end as int) {
            Some(es) => r matches Ok(v) && v@.len() == es.len() && (forall|i: int|
                0 <= i < es.len() ==> (#[trigger] v@[i]).0@ == es[i].0 && v@[i].1@ == es[i].1),
            None => r matches Err(e) && e is Corruption,
        },
{
    let s_len: usize = s.len();
    let n = metas.len();
    let ghost mv = metas.metas_view();
    let mut out: Vec<(Key, Vec<u8>)> = Vec::new();
    let mut i: usize = 0;
    proof {
        assert(mv.len() == n);
        assert(out@.map_values(|e: (Key, Vec<u8>)| ((e.0.user_key@, e.0.version), e.1@)) =~=
            Seq::<BlockEntry>::empty());
    }
    while i < n
        invariant
            i <= n,
            n == metas.0@.len(),
            mv == metas.metas_view(),
            mv.len() == n,
            metas.wf(),
            data_end <= s@.len(),
            s_len == s@.len(),
            ({
                let whole = spec_sst_blocks_read(s@, mv, 0, data_end as int);
                let rest = spec_sst_blocks_read(s@, mv, i as int, data_end as int);
                match rest {
                    None => whole is None,
                    Some(es) => whole matches Some(all) && all == out@.map_values(
                        |e: (Key, Vec<u8>)| ((e.0.user_key@, e.0.version), e.1@),
                    ) + es,
                }
            }),
        decreases n - i,
    {
        let ghost done = out@.map_values(|e: (Key, Vec<u8>)| ((e.0.user_key@, e.0.version),
            e.1@));
        let start = metas.0[i].offset;
        let end = if i + 1 < n {
            metas.0[i + 1].offset
        } else {
            data_end
        };
        proof {
            assert(metas.0@[i as int].wf());
            assert(mv[i as int] == metas.0@[i as int]@);
            if i + 1 < n {
                assert(metas.0@[i + 1].wf());
                assert(mv[i + 1] == metas.0@[i + 1]@);
            }
        }
        let ghost spec_end: int = if i + 1 < mv.len() {
            mv[i + 1].0 as int
        } else {
            data_end as int
        };
        proof {
            assert(spec_end == end as int);
        }
        if end > s_len || start > end || end - start < 4 {
            return Err(Error::corruption("sst: impossible block extent"));
        }
        let enc = vstd::slice::slice_subrange(s, start, end - 4);
        let stored = get_u32_le(s, end - 4);
        let computed = crc32_hash(enc);
        if stored != computed {
            return Err(Error::corruption("sst: block checksum mismatched"));
        }
        let block = match Block::decode(enc) {
            Ok(b) => b,
            Err(e) => {
                return Err(e);
            },
        };
        let es = match read_block_entries(&block) {
            Ok(es) => es,
            Err(e) => {
                return Err(e);
            },
        };
        let ghost esb = spec_block_entries(block.data@, block.offsets@)->Some_0;
        let m = es.len();
        let mut j: usize = 0;
        proof {
            assert(esb.take(0) =~= Seq::<BlockEntry>::empty());
            assert(done + esb.take(0) =~= done);
        }
        while j < m
            invariant
                j <= m,
                m == es@.len(),
                m == esb.len(),
                forall|k: int| 0 <= k < m ==> (#[trigger] es@[k]).0@ == esb[k].0 && es@[k].1@
                    == esb[k].1,
                out@.map_values(|e: (Key, Vec<u8>)| ((e.0.user_key@, e.0.version), e.1@)) == done
                    + esb.take(j as int),
            decreases m - j,
        {
            let e = &es[j];
            let k2 = Key::new(vstd::slice::slice_to_vec(e.0.user_key.as_slice()), e.0.version());
            out.push((k2, vstd::slice::slice_to_vec(e.1.as_slice())));
            proof {
                assert(esb.take(j + 1) =~= esb.take(j as int).push(esb[j as int]));
                assert(out@.map_values(|e2: (Key, Vec<u8>)| ((e2.0.user_key@, e2.0.version),
                    e2.1@)) =~= (done + esb.take(j as int)).push(esb[j as int]));
                assert((done + esb.take(j as int)).push(esb[j as int]) =~= done + esb.take(
                    j + 1,
                ));
            }
            j = j + 1;
        }
        proof {
            assert(esb.take(m as int) =~= esb);
            let rest2 = spec_sst_blocks_read(s@, mv, i + 1, data_end as int);
            match rest2 {
                None => {},
                Some(es2) => {
                    assert((done + esb) + es2 =~= done + (esb + es2));
                },
            }
        }
        i = i + 1;
    }
    proof {
        assert(spec_sst_blocks_read(s@, mv, n as int, data_end as int) == Some(
            Seq::<BlockEntry>::empty(),
        ));
        let whole = spec_sst_blocks_read(s@, mv, 0, data_end as int);
        match whole {
            None => {
                assert(false);
            },
            Some(all) => {
                assert(all =~= out@.map_values(|e: (Key, Vec<u8>)| ((e.0.user_key@,
                    e.0.version), e.1@)));
            },
        }
    }
    Ok(out)
}

} // verus!
