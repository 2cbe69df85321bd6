//! Streaming SST construction: adds go into the current block; full
//! blocks are sealed into the data region with their checksum and their
//! meta record; `build` closes the table with its footer.

use vstd::prelude::*;

verus! {

use tinysearch_cuckoofilter::CuckooFilter;
use crate::key::Key;
use crate::block::Block;
use crate::block_builder::{BlockBuilder, BlockEntry, spec_block_entries};
use crate::block_meta::{BlockMeta, BlockMetaVec};
use crate::table::{SsTableMeta, SsTableId, SstBlockView, spec_blocks_bytes,
    spec_concat_entries, spec_sst_blocks_read, lemma_blocks_bytes_push,
    lemma_concat_entries_push, lemma_sst_blocks_read};
use crate::filter::{filter_items, filter_new, filter_add, filter_export, filter_contains};
use crate::hashes::{fingerprint32_of, fingerprint32};
use crate::checksum::crc32_hash;
use crate::codec::{put_u32_le, put_u64_le, put_bytes, lemma_int_codecs_round_trip};
use crate::errors::Error;
use vstd::bytes::{spec_u32_to_le_bytes, spec_u64_to_le_bytes};
use crate::block_meta::spec_block_meta_vec_encode;
use crate::table::spec_sst_layout;
use crate::filter::filter_export_parts;


/// The largest version among the entries, or zero for none.
pub open spec fn spec_max_version(es: Seq<BlockEntry>) -> u64
    decreases es.len(),
{
    if es.len() == 0 {
        0
    } else {
        let m = spec_max_version(es.drop_last());
        if es.last().0.1 > m {
            es.last().0.1
        } else {
            m
        }
    }
}

/// The filter section as stored: the exported fingerprint data behind a
/// `u64` length, then the item count.
pub open spec fn spec_filter_section(parts: (Seq<u8>, u64)) -> Seq<u8> {
    spec_u64_to_le_bytes(parts.0.len() as u64) + parts.0 + spec_u64_to_le_bytes(parts.1)
}

pub struct SsTableBuilder {
    pub block_builder: BlockBuilder,
    pub filter: CuckooFilter<farmhash::FarmHasher>,
    /// First key of the current block.
    pub first_key: Key,
    /// Last key added to the table.
    pub last_key: Key,
    pub data: Vec<u8>,
    pub block_meta_vec: BlockMetaVec,
    pub max_version: u64,
    pub block_size: usize,
    pub blocks: Ghost<Seq<SstBlockView>>,
    pub per_block: Ghost<Seq<Seq<BlockEntry>>>,
    /// False once the filter reported a failed insertion: it may then
    /// have dropped an arbitrary item.
    pub filter_intact: Ghost<bool>,
}

impl SsTableBuilder {
    /// Every entry accepted so far, across sealed blocks and the current
    /// one, in order.
    pub open spec fn all_entries(&self) -> Seq<BlockEntry> {
        spec_concat_entries(self.per_block@) + self.block_builder.entries@
    }

    /// The data region's length once the trailing block is sealed.
    pub open spec fn spec_sealed_data_len(&self) -> int {
        if self.block_builder.entries@.len() > 0 {
            self.data@.len() + self.block_builder.spec_estimated_size() + 4
        } else {
            self.data@.len() as int
        }
    }

    /// The block-meta records once the trailing block is sealed.
    pub open spec fn spec_sealed_metas(&self) -> Seq<crate::block_meta::BlockMetaView> {
        if self.block_builder.entries@.len() > 0 {
            self.block_meta_vec.metas_view().push(
                ((self.data@.len() as u32), self.first_key@, self.last_key@),
            )
        } else {
            self.block_meta_vec.metas_view()
        }
    }

    /// Whether the closed table's two footer offsets fit their `u32`
    /// fields; `build` succeeds exactly on this condition.
    pub open spec fn spec_build_fits(&self) -> bool {
        &&& self.spec_sealed_data_len() <= u32::MAX
        &&& self.spec_sealed_data_len() + spec_block_meta_vec_encode(
            self.spec_sealed_metas(),
            self.max_version,
        ).len() + 4 <= u32::MAX
    }

    pub open spec fn inv(&self) -> bool {
        &&& self.block_builder.inv()
        &&& self.block_builder.block_size == self.block_size
        &&& self.data@ == spec_blocks_bytes(self.blocks@)
        &&& self.data@.len() <= u32::MAX
        &&& self.block_meta_vec.wf()
        &&& self.block_meta_vec.metas_view().len() == self.blocks@.len()
        &&& self.per_block@.len() == self.blocks@.len()
        &&& forall|j: int| 0 <= j < self.blocks@.len()
            ==> (#[trigger] self.block_meta_vec.metas_view()[j]).0 as int == spec_blocks_bytes(
            self.blocks@.take(j),
        ).len()
        &&& forall|j: int| 0 <= j < self.blocks@.len() ==> spec_block_entries(
            (#[trigger] self.blocks@[j]).0,
            self.blocks@[j].1,
        ) == Some(self.per_block@[j])
        &&& forall|j: int| 0 <= j < self.blocks@.len() ==> (#[trigger] self.blocks@[j]).1.len()
            <= u16::MAX
        &&& forall|j: int| 0 <= j < self.per_block@.len() ==> (#[trigger] self.per_block@[j]).len() > 0
        &&& forall|j: int| 0 <= j < self.blocks@.len()
            ==> (#[trigger] self.block_meta_vec.metas_view()[j]).1 == self.per_block@[j][0].0
            && self.block_meta_vec.metas_view()[j].2 == self.per_block@[j].last().0
        &&& (self.block_builder.entries@.len() > 0 ==> self.first_key@
            == self.block_builder.entries@[0].0)
        &&& self.max_version == spec_max_version(self.all_entries())
        &&& (self.all_entries().len() > 0 ==> self.last_key@ == self.all_entries().last().0)
        &&& forall|j: int| 0 <= j < self.all_entries().len() ==> 0 < (#[trigger] self.all_entries(
        )[j]).0.0.len() <= u16::MAX && self.all_entries()[j].1.len() <= u16::MAX
        &&& (self.filter_intact@ ==> forall|j: int| 0 <= j < self.all_entries().len()
            ==> filter_items(self.filter).contains(
            fingerprint32_of((#[trigger] self.all_entries()[j]).0.0),
        ))
    }

    pub fn create(block_size: usize) -> (r: Result<SsTableBuilder, Error>)
        ensures
            r matches Ok(b) && b.inv() && b.all_entries() == Seq::<BlockEntry>::empty()
                && b.block_size == block_size && b.filter_intact@,
    {
        let b = SsTableBuilder {
            block_builder: BlockBuilder::new(block_size),
            filter: filter_new(10240),
            first_key: Key::new(Vec::new(), crate::key::VERSION_DEFAULT),
            last_key: Key::new(Vec::new(), crate::key::VERSION_DEFAULT),
            data: Vec::new(),
            block_meta_vec: BlockMetaVec::new(),
            max_version: crate::key::VERSION_DEFAULT,
            block_size,
            blocks: Ghost(Seq::empty()),
            per_block: Ghost(Seq::empty()),
            filter_intact: Ghost(true),
        };
        proof {
            assert(spec_blocks_bytes(b.blocks@) =~= Seq::<u8>::empty());
            assert(spec_concat_entries(b.per_block@) =~= Seq::<BlockEntry>::empty());
            assert(b.all_entries() =~= Seq::<BlockEntry>::empty());
        }
        Ok(b)
    }

    /// Seals the current block: encodes it, appends it with its CRC to
    /// the data region, and records its meta entry.
    fn finalize_block(&mut self)
        requires
            old(self).inv(),
            old(self).block_builder.entries@.len() > 0,
            old(self).data@.len() + old(self).block_builder.spec_estimated_size() + 4
                <= u32::MAX,
        ensures
            final(self).inv(),
            final(self).block_size == old(self).block_size,
            final(self).all_entries() == old(self).all_entries(),
            final(self).block_builder.entries@.len() == 0,
            final(self).max_version == old(self).max_version,
            final(self).last_key == old(self).last_key,
            final(self).filter == old(self).filter,
            final(self).filter_intact == old(self).filter_intact,
            final(self).data@.len() == old(self).spec_sealed_data_len(),
            final(self).block_meta_vec.metas_view() == old(self).spec_sealed_metas(),
    {
        let ghost cur_entries = self.block_builder.entries@;
        let block = Block {
            data: vstd::slice::slice_to_vec(self.block_builder.data.as_slice()),
            offsets: vstd::slice::slice_to_vec(self.block_builder.offsets.as_slice()),
        };
        let encoded = block.encode();
        let checksum = crc32_hash(encoded.as_slice());
        let offset = self.data.len();
        let fk = Key::new(
            vstd::slice::slice_to_vec(self.first_key.user_key.as_slice()),
            self.first_key.version(),
        );
        let lk = Key::new(
            vstd::slice::slice_to_vec(self.last_key.user_key.as_slice()),
            self.last_key.version(),
        );
        proof {
            // the current block's first and last keys are entry keys, so
            // they fit the meta record
            lemma_concat_index(self.per_block@, cur_entries, 0);
            assert(cur_entries[0] == self.all_entries()[
                spec_concat_entries(self.per_block@).len() as int]);
            assert(cur_entries.last() == self.all_entries().last());
            assert(0 < cur_entries[0].0.0.len() <= u16::MAX);
            assert(0 < cur_entries.last().0.0.len() <= u16::MAX) by {
                assert(self.all_entries().last() == self.all_entries()[
                    self.all_entries().len() - 1]);
            }
        }
        self.block_meta_vec.push(BlockMeta { offset, first_key: fk, last_key: lk });
        put_bytes(&mut self.data, encoded.as_slice());
        put_u32_le(&mut self.data, checksum);
        self.block_builder = BlockBuilder::new(self.block_size);
        let ghost bview: SstBlockView = (block.data@, block.offsets@);
        proof {
            lemma_blocks_bytes_push(self.blocks@, bview);
            assert(self.data@ =~= spec_blocks_bytes(self.blocks@.push(bview)));
        }
        self.blocks = Ghost(self.blocks@.push(bview));
        self.per_block = Ghost(self.per_block@.push(cur_entries));
        proof {
            lemma_concat_entries_push(self.per_block@.drop_last(), cur_entries);
            assert(self.per_block@.drop_last() =~= old(self).per_block@);
            assert(spec_concat_entries(self.per_block@) == spec_concat_entries(
                old(self).per_block@,
            ) + cur_entries);
            assert(self.all_entries() =~= old(self).all_entries());
            crate::block::lemma_offsets_bytes_len(block.offsets@);
            lemma_int_codecs_round_trip();
            assert(encoded@.len() == block.data@.len() + 2 * block.offsets@.len() + 2);
            assert(self.data@.len() <= u32::MAX);
            assert forall|j: int| 0 <= j < self.all_entries().len() implies 0 < (#[trigger]
            self.all_entries()[j]).0.0.len() <= u16::MAX && self.all_entries()[j].1.len()
                <= u16::MAX by {
                assert(self.all_entries()[j] == old(self).all_entries()[j]);
            }
            if self.filter_intact@ {
                assert forall|j: int| 0 <= j < self.all_entries().len() implies filter_items(
                    self.filter,
                ).contains(fingerprint32_of((#[trigger] self.all_entries()[j]).0.0)) by {
                    assert(self.all_entries()[j] == old(self).all_entries()[j]);
                }
            }
            lemma_blocks_count_bound(self.blocks@);
            assert(self.block_meta_vec.metas_view().len() <= u32::MAX);
            assert(fk@ == cur_entries[0].0);
            assert(old(self).all_entries().last() == cur_entries.last());
            assert(lk@ == cur_entries.last().0);
            assert forall|j: int| 0 <= j < self.blocks@.len() implies (#[trigger]
            self.block_meta_vec.metas_view()[j]).1 == self.per_block@[j][0].0
                && self.block_meta_vec.metas_view()[j].2 == self.per_block@[j].last().0 by {
                if j < old(self).blocks@.len() {
                    assert(self.block_meta_vec.metas_view()[j] == old(
                        self,
                    ).block_meta_vec.metas_view()[j]);
                    assert(self.per_block@[j] == old(self).per_block@[j]);
                } else {
                    assert(self.block_meta_vec.metas_view()[j] == ((offset as u32), fk@, lk@));
                    assert(self.per_block@[j] == cur_entries);
                }
            }
            assert forall|j: int| 0 <= j < self.block_meta_vec.0@.len() implies (#[trigger]
            self.block_meta_vec.0@[j]).wf() by {
                if j < old(self).block_meta_vec.0@.len() {
                    assert(self.block_meta_vec.0@[j] == old(self).block_meta_vec.0@[j]);
                    assert(old(self).block_meta_vec.0@[j].wf());
                }
            }
            assert forall|j: int| 0 <= j < self.blocks@.len() implies (#[trigger]
            self.block_meta_vec.metas_view()[j]).0 as int == spec_blocks_bytes(
                self.blocks@.take(j),
            ).len() by {
                if j < old(self).blocks@.len() {
                    assert(self.blocks@.take(j) =~= old(self).blocks@.take(j));
                    assert(self.block_meta_vec.metas_view()[j] == old(
                        self,
                    ).block_meta_vec.metas_view()[j]);
                } else {
                    assert(self.blocks@.take(j) =~= old(self).blocks@);
                }
            }
            assert forall|j: int| 0 <= j < self.blocks@.len() implies spec_block_entries(
                (#[trigger] self.blocks@[j]).0,
                self.blocks@[j].1,
            ) == Some(self.per_block@[j]) by {
                if j < old(self).blocks@.len() {
                    assert(self.blocks@[j] == old(self).blocks@[j]);
                    assert(self.per_block@[j] == old(self).per_block@[j]);
                }
            }
        }
    }

    /// Adds one key/value pair, sealing the current block first when it
    /// is full.
    pub fn add(&mut self, key: &Key, value: &[u8]) -> (r: Result<(), Error>)
        requires
            old(self).inv(),
            0 < key.user_key@.len() <= u16::MAX,
            value@.len() <= u16::MAX,
        ensures
            final(self).inv(),
            final(self).block_size == old(self).block_size,
            r is Ok ==> final(self).all_entries() == old(self).all_entries().push(
                ((key.user_key@, key.version), value@),
            ) && final(self).filter_intact@ == old(self).filter_intact@,
            r matches Err(e) ==> final(self).all_entries() == old(self).all_entries() && (
            (e is Filter && !final(self).filter_intact@) || e is Corruption),
            // the data-region guard fires only when sealing the full
            // current block really would push an offset past u32
            r matches Err(e) && e is Corruption ==> old(self).spec_sealed_data_len()
                > u32::MAX,
    {
        let ghost e: BlockEntry = ((key.user_key@, key.version), value@);
        let fp = fingerprint32(key.key_ref());
        match filter_add(&mut self.filter, fp) {
            Ok(()) => {},
            Err(err) => {
                self.filter_intact = Ghost(false);
                return Err(err);
            },
        }
        let was_empty = self.block_builder.is_empty();
        if self.block_builder.add(key, value) {
            if was_empty {
                self.first_key = Key::new(
                    vstd::slice::slice_to_vec(key.user_key.as_slice()),
                    key.version(),
                );
            }
            self.last_key = Key::new(
                vstd::slice::slice_to_vec(key.user_key.as_slice()),
                key.version(),
            );
            if key.version() > self.max_version {
                self.max_version = key.version();
            }
            proof {
                self.lemma_after_push(*old(self), e);
                assert(self.all_entries().drop_last() =~= old(self).all_entries());
                self.lemma_filter_still_covers(*old(self), key.user_key@);
            }
            return Ok(());
        }
        // the block is full: seal it, then retry on a fresh block
        let est: u128 = 2 + 2 * (self.block_builder.offsets.len() as u128) + (self.data.len()
            as u128) + (self.block_builder.data.len() as u128);
        if est + 4 > 0xffff_ffff {
            proof {
                self.lemma_filter_still_covers(*old(self), key.user_key@);
            }
            return Err(Error::corruption("sst data region exceeds its offsets"));
        }
        self.finalize_block();
        let ghost mid = *self;
        let accepted = self.block_builder.add(key, value);
        proof {
            assert(accepted);
        }
        self.first_key = Key::new(
            vstd::slice::slice_to_vec(key.user_key.as_slice()),
            key.version(),
        );
        self.last_key = Key::new(
            vstd::slice::slice_to_vec(key.user_key.as_slice()),
            key.version(),
        );
        if key.version() > self.max_version {
            self.max_version = key.version();
        }
        proof {
            self.lemma_after_push(mid, e);
            assert(mid.all_entries() == old(self).all_entries());
            assert(self.all_entries().drop_last() =~= old(self).all_entries());
            self.lemma_filter_still_covers(*old(self), key.user_key@);
        }
        Ok(())
    }

    /// After a successful filter insertion for `uk`, everything the
    /// filter covered stays covered and `uk` joins it.
    proof fn lemma_filter_still_covers(&self, prev: SsTableBuilder, uk: Seq<u8>)
        requires
            prev.filter_intact@ ==> forall|j: int| 0 <= j < prev.all_entries().len()
                ==> filter_items(prev.filter).contains(
                fingerprint32_of((#[trigger] prev.all_entries()[j]).0.0),
            ),
            filter_items(prev.filter).insert(fingerprint32_of(uk)).subset_of(
                filter_items(self.filter),
            ),
            self.filter_intact == prev.filter_intact,
            self.all_entries() == prev.all_entries() || (self.all_entries().len()
                == prev.all_entries().len() + 1 && self.all_entries().drop_last()
                == prev.all_entries() && self.all_entries().last().0.0 == uk),
        ensures
            self.filter_intact@ ==> forall|j: int| 0 <= j < self.all_entries().len()
                ==> filter_items(self.filter).contains(
                fingerprint32_of((#[trigger] self.all_entries()[j]).0.0),
            ),
    {
        if self.filter_intact@ {
            assert forall|j: int| 0 <= j < self.all_entries().len() implies filter_items(
                self.filter,
            ).contains(fingerprint32_of((#[trigger] self.all_entries()[j]).0.0)) by {
                let fp = fingerprint32_of(self.all_entries()[j].0.0);
                if self.all_entries() == prev.all_entries() || j < prev.all_entries().len() {
                    if self.all_entries() != prev.all_entries() {
                        assert(self.all_entries()[j] == self.all_entries().drop_last()[j]);
                    }
                    assert(self.all_entries()[j] == prev.all_entries()[j]);
                    assert(filter_items(prev.filter).contains(fp));
                } else {
                    assert(self.all_entries()[j] == self.all_entries().last());
                    assert(self.all_entries()[j].0.0 == uk);
                }
                assert(filter_items(prev.filter).insert(fingerprint32_of(uk)).contains(fp));
            }
        }
    }

    /// After one entry lands in the current block, the whole-table facts
    /// follow.
    proof fn lemma_after_push(&self, prev: SsTableBuilder, e: BlockEntry)
        requires
            prev.max_version == spec_max_version(prev.all_entries()),
            prev.all_entries().len() > 0 ==> prev.last_key@ == prev.all_entries().last().0,
            self.per_block@ == prev.per_block@,
            self.block_builder.entries@ == prev.block_builder.entries@.push(e),
            self.max_version == (if e.0.1 > prev.max_version {
                e.0.1
            } else {
                prev.max_version
            }),
            self.last_key@ == e.0,
        ensures
            self.all_entries() == prev.all_entries().push(e),
            self.max_version == spec_max_version(self.all_entries()),
            self.all_entries().len() > 0 && self.last_key@ == self.all_entries().last().0,
    {
        assert(self.all_entries() =~= prev.all_entries().push(e));
        assert(self.all_entries().drop_last() =~= prev.all_entries());
        assert(self.all_entries().last() == e);
    }

    /// Closes the table: seals the trailing block, writes the block-meta
    /// vector and its offset, then the filter section and its offset.
    /// It succeeds exactly when the two footer offsets fit their `u32`
    /// fields; the returned bytes carry the blocks, then the encoded
    /// meta vector, its offset, the filter section, and the filter
    /// section's offset, and they read back, block by block, to exactly
    /// the entries that were added, with the largest added version
    /// recorded.
    pub fn build(self, id: SsTableId) -> (r: Result<(SsTableMeta, Vec<u8>), Error>)
        requires
            self.inv(),
            self.all_entries().len() > 0,
        ensures
            r is Ok <==> self.spec_build_fits(),
            r matches Err(e) ==> e is Corruption,
            r matches Ok((meta, bytes)) ==> {
                &&& meta.id == id
                &&& meta.max_version == spec_max_version(self.all_entries())
                &&& meta.block_meta_vec.wf()
                &&& meta.block_meta_vec.metas_view() == self.spec_sealed_metas()
                &&& meta.block_meta_offset == self.spec_sealed_data_len()
                &&& meta.block_meta_offset <= bytes@.len()
                &&& spec_sst_blocks_read(
                    bytes@,
                    meta.block_meta_vec.metas_view(),
                    0,
                    meta.block_meta_offset as int,
                ) == Some(self.all_entries())
                &&& bytes@ == bytes@.subrange(0, meta.block_meta_offset as int)
                    + spec_block_meta_vec_encode(
                    meta.block_meta_vec.metas_view(),
                    meta.max_version,
                ) + spec_u32_to_le_bytes(meta.block_meta_offset as u32) + spec_filter_section(
                    filter_export_parts(self.filter),
                ) + spec_u32_to_le_bytes(
                    (meta.block_meta_offset + spec_block_meta_vec_encode(
                        meta.block_meta_vec.metas_view(),
                        meta.max_version,
                    ).len() + 4) as u32,
                )
                &&& exists|bs: Seq<SstBlockView>, per: Seq<Seq<BlockEntry>>| #[trigger]
                    spec_sst_layout(
                        bytes@,
                        meta.block_meta_vec.metas_view(),
                        bs,
                        per,
                        meta.block_meta_offset as int,
                    ) && spec_concat_entries(per) == self.all_entries()
                &&& meta.first_key@ == self.all_entries()[0].0
                &&& meta.last_key@ == self.all_entries().last().0
            },
    {
        let mut b = self;
        let ghost orig_filter = b.filter;
        let ghost entries_all = b.all_entries();
        if !b.block_builder.is_empty() {
            let est: u128 = 2 + 2 * (b.block_builder.offsets.len() as u128) + (b.data.len()
                as u128) + (b.block_builder.data.len() as u128);
            if est + 4 > 0xffff_ffff {
                return Err(Error::corruption("sst data region exceeds its offsets"));
            }
            b.finalize_block();
        }
        proof {
            assert(b.all_entries() == entries_all);
            assert(spec_concat_entries(b.per_block@) =~= b.all_entries());
            assert(b.per_block@.len() > 0) by {
                if b.per_block@.len() == 0 {
                    assert(spec_concat_entries(b.per_block@) =~= Seq::<BlockEntry>::empty());
                }
            }
        }
        proof {
            assert(b.data@.len() == self.spec_sealed_data_len());
            assert(b.block_meta_vec.metas_view() == self.spec_sealed_metas());
            assert(b.max_version == self.max_version);
            assert(b.filter == orig_filter);
        }
        let block_meta_offset = b.data.len();
        let mut bytes = b.data;
        b.block_meta_vec.encode(b.max_version, &mut bytes);
        put_u32_le(&mut bytes, block_meta_offset as u32);
        let (filter_values, filter_count) = filter_export(&b.filter);
        let filter_start = bytes.len();
        proof {
            assert(filter_start as int == self.spec_sealed_data_len()
                + spec_block_meta_vec_encode(self.spec_sealed_metas(), self.max_version).len()
                + 4) by {
                crate::codec::lemma_int_codecs_round_trip();
            }
        }
        if filter_start > u32::MAX as usize {
            return Err(Error::corruption("sst footer exceeds its offsets"));
        }
        put_u64_le(&mut bytes, filter_values.len() as u64);
        put_bytes(&mut bytes, filter_values.as_slice());
        put_u64_le(&mut bytes, filter_count);
        put_u32_le(&mut bytes, filter_start as u32);
        let first_key = Key::new(
            vstd::slice::slice_to_vec(b.block_meta_vec.0[0].first_key.user_key.as_slice()),
            b.block_meta_vec.0[0].first_key.version(),
        );
        let meta = SsTableMeta {
            id,
            first_key,
            last_key: b.last_key,
            block_meta_vec: b.block_meta_vec,
            block_meta_offset,
            max_version: b.max_version,
        };
        proof {
            lemma_int_codecs_round_trip();
            assert(bytes@.subrange(0, block_meta_offset as int) =~= spec_blocks_bytes(
                b.blocks@,
            ));
            lemma_sst_blocks_read(
                bytes@,
                b.blocks@,
                meta.block_meta_vec.metas_view(),
                b.per_block@,
                0,
                block_meta_offset as int,
            );
            assert(b.per_block@.skip(0) =~= b.per_block@);
            assert(bytes@.subrange(
                block_meta_offset as int,
                block_meta_offset + crate::block_meta::spec_block_meta_vec_encode(
                    meta.block_meta_vec.metas_view(),
                    meta.max_version,
                ).len(),
            ) =~= crate::block_meta::spec_block_meta_vec_encode(
                meta.block_meta_vec.metas_view(),
                meta.max_version,
            ));
            // the table's first key is the first block's first entry
            assert(meta.first_key@ == b.per_block@[0][0].0);
            assert(b.all_entries()[0] == b.per_block@[0][0]) by {
                lemma_concat_first(b.per_block@);
            }
            // the whole footer, byte for byte
            assert(bytes@ =~= bytes@.subrange(0, meta.block_meta_offset as int)
                + spec_block_meta_vec_encode(meta.block_meta_vec.metas_view(), meta.max_version)
                + spec_u32_to_le_bytes(meta.block_meta_offset as u32) + spec_filter_section(
                filter_export_parts(orig_filter),
            ) + spec_u32_to_le_bytes(filter_start as u32));
            assert(filter_start as u32 == (meta.block_meta_offset + spec_block_meta_vec_encode(
                meta.block_meta_vec.metas_view(),
                meta.max_version,
            ).len() + 4) as u32);
            // how the bytes, metas, blocks, and entries align
            assert(spec_sst_layout(
                bytes@,
                meta.block_meta_vec.metas_view(),
                b.blocks@,
                b.per_block@,
                meta.block_meta_offset as int,
            ));
            assert(spec_concat_entries(b.per_block@) == self.all_entries());
        }
        Ok((meta, bytes))
    }

    /// Whether the filter may hold this user key: false means the key was
    /// definitely never added (so long as no insertion ever failed).
    pub fn filter_may_contain(&self, user_key: &[u8]) -> (r: bool)
        ensures
            self.inv() && self.filter_intact@ && (exists|j: int|
                0 <= j < self.all_entries().len() && (#[trigger] self.all_entries()[j]).0.0
                == user_key@) ==> r,
    {
        let fp = fingerprint32(user_key);
        let r = filter_contains(&self.filter, fp);
        proof {
            if self.filter_intact@ && self.inv() {
                if exists|j: int| 0 <= j < self.all_entries().len() && (#[trigger]
                self.all_entries()[j]).0.0 == user_key@ {
                    let j = choose|j: int| 0 <= j < self.all_entries().len() && (#[trigger]
                    self.all_entries()[j]).0.0 == user_key@;
                    assert(filter_items(self.filter).contains(
                        fingerprint32_of(self.all_entries()[j].0.0),
                    ));
                }
            }
        }
        r
    }
}

/// A nonempty data region holds at least six bytes per block.
proof fn lemma_blocks_count_bound(bs: Seq<SstBlockView>)
    ensures
        spec_blocks_bytes(bs).len() >= 6 * bs.len(),
    decreases bs.len(),
{
    crate::codec::lemma_int_codecs_round_trip();
    if bs.len() > 0 {
        lemma_blocks_count_bound(bs.drop_first());
        crate::block::lemma_offsets_bytes_len(bs[0].1);
    }
}

/// An index into the current block maps to its place in the whole table.
proof fn lemma_concat_index(per: Seq<Seq<BlockEntry>>, cur: Seq<BlockEntry>, j: int)
    requires
        0 <= j < cur.len(),
    ensures
        (spec_concat_entries(per) + cur)[spec_concat_entries(per).len() + j] == cur[j],
{
}

/// A nonempty first block starts the whole table.
proof fn lemma_concat_first(per: Seq<Seq<BlockEntry>>)
    requires
        per.len() > 0,
        per[0].len() > 0,
    ensures
        spec_concat_entries(per).len() > 0,
        spec_concat_entries(per)[0] == per[0][0],
{
}

} // verus!
