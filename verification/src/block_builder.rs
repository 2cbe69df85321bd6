//! Streaming construction of one block, with key prefix compression
//! against the block's first key, and the entry-level reading that
//! inverts it.
//!
//! Entry shape inside the block's data region: `u16` overlap with the
//! first key, `u16` suffix length, the suffix bytes, `u64` version,
//! `u16` value length, the value bytes; integers little-endian.

use vstd::prelude::*;

verus! {

use vstd::bytes::{
    spec_u16_to_le_bytes, spec_u16_from_le_bytes, spec_u64_to_le_bytes, spec_u64_from_le_bytes,
};
use vstd::slice::slice_subrange;
use crate::codec::{
    put_u16_le, put_u64_le, put_bytes, get_u16_le, get_u64_le, get_bytes,
    lemma_int_codecs_round_trip,
};
use crate::key::Key;
use crate::block::{Block, spec_block_encode, spec_block_decode, lemma_block_codec_round_trip};
use crate::errors::Error;

/// One block entry as specifications see it: the full versioned key and
/// the value bytes.
pub type BlockEntry = ((Seq<u8>, u64), Seq<u8>);

/// Length of the longest common prefix of two byte strings.
pub open spec fn lcp_len(a: Seq<u8>, b: Seq<u8>) -> int
    decreases a.len(),
{
    if a.len() == 0 || b.len() == 0 || a[0] != b[0] {
        0
    } else {
        1 + lcp_len(a.drop_first(), b.drop_first())
    }
}

pub proof fn lemma_lcp_len(a: Seq<u8>, b: Seq<u8>)
    ensures
        0 <= lcp_len(a, b) <= a.len(),
        lcp_len(a, b) <= b.len(),
        a.subrange(0, lcp_len(a, b)) == b.subrange(0, lcp_len(a, b)),
    decreases a.len(),
{
    if a.len() == 0 || b.len() == 0 || a[0] != b[0] {
        assert(a.subrange(0, 0) =~= b.subrange(0, 0));
    } else {
        lemma_lcp_len(a.drop_first(), b.drop_first());
        let l = lcp_len(a, b);
        assert forall|i: int| 0 <= i < l implies a[i] == b[i] by {
            if i > 0 {
                assert(a.drop_first().subrange(0, l - 1) == b.drop_first().subrange(0, l - 1));
                assert(a.drop_first().subrange(0, l - 1)[i - 1] == a[i]);
                assert(b.drop_first().subrange(0, l - 1)[i - 1] == b[i]);
            }
        }
        assert(a.subrange(0, l) =~= b.subrange(0, l));
    }
}

/// Exact byte shape of one entry in the data region.
pub open spec fn spec_entry_encode(overlap: u16, suffix: Seq<u8>, ver: u64, value: Seq<u8>)
    -> Seq<u8> {
    spec_u16_to_le_bytes(overlap) + spec_u16_to_le_bytes(suffix.len() as u16) + suffix
        + spec_u64_to_le_bytes(ver) + spec_u16_to_le_bytes(value.len() as u16) + value
}

/// Parses one entry at byte `off` of the data region; `None` when the
/// entry does not fit.
pub open spec fn spec_entry_at(data: Seq<u8>, off: int) -> Option<((u16, Seq<u8>, u64, Seq<u8>),
    int)> {
    if off < 0 || off + 4 > data.len() {
        None
    } else {
        let overlap = spec_u16_from_le_bytes(data.subrange(off, off + 2));
        let slen = spec_u16_from_le_bytes(data.subrange(off + 2, off + 4)) as int;
        if off + 14 + slen > data.len() {
            None
        } else {
            let suffix = data.subrange(off + 4, off + 4 + slen);
            let ver = spec_u64_from_le_bytes(data.subrange(off + 4 + slen, off + 12 + slen));
            let vlen = spec_u16_from_le_bytes(data.subrange(off + 12 + slen, off + 14 + slen))
                as int;
            if off + 14 + slen + vlen > data.len() {
                None
            } else {
                Some(
                    (
                        (
                            overlap,
                            suffix,
                            ver,
                            data.subrange(off + 14 + slen, off + 14 + slen + vlen),
                        ),
                        off + 14 + slen + vlen,
                    ),
                )
            }
        }
    }
}

/// An entry encoding embedded in the data region parses back to itself.
pub proof fn lemma_entry_at_embedded(
    data: Seq<u8>,
    off: int,
    overlap: u16,
    suffix: Seq<u8>,
    ver: u64,
    value: Seq<u8>,
)
    requires
        suffix.len() <= u16::MAX,
        value.len() <= u16::MAX,
        0 <= off,
        off + spec_entry_encode(overlap, suffix, ver, value).len() <= data.len(),
        data.subrange(off, off + spec_entry_encode(overlap, suffix, ver, value).len())
            == spec_entry_encode(overlap, suffix, ver, value),
    ensures
        spec_entry_at(data, off) == Some(
            ((overlap, suffix, ver, value), off + 14 + suffix.len() + value.len()),
        ),
{
    lemma_int_codecs_round_trip();
    let enc = spec_entry_encode(overlap, suffix, ver, value);
    let slen = suffix.len() as int;
    let vlen = value.len() as int;
    assert(enc.len() == 14 + slen + vlen);
    assert(data.subrange(off, off + 2) =~= enc.subrange(0, 2));
    assert(enc.subrange(0, 2) =~= spec_u16_to_le_bytes(overlap));
    assert(data.subrange(off + 2, off + 4) =~= enc.subrange(2, 4));
    assert(enc.subrange(2, 4) =~= spec_u16_to_le_bytes(suffix.len() as u16));
    assert(data.subrange(off + 4, off + 4 + slen) =~= enc.subrange(4, 4 + slen));
    assert(enc.subrange(4, 4 + slen) =~= suffix);
    assert(data.subrange(off + 4 + slen, off + 12 + slen) =~= enc.subrange(4 + slen, 12 + slen));
    assert(enc.subrange(4 + slen, 12 + slen) =~= spec_u64_to_le_bytes(ver));
    assert(data.subrange(off + 12 + slen, off + 14 + slen) =~= enc.subrange(
        12 + slen,
        14 + slen,
    ));
    assert(enc.subrange(12 + slen, 14 + slen) =~= spec_u16_to_le_bytes(value.len() as u16));
    assert(data.subrange(off + 14 + slen, off + 14 + slen + vlen) =~= enc.subrange(
        14 + slen,
        14 + slen + vlen,
    ));
    assert(enc.subrange(14 + slen, 14 + slen + vlen) =~= value);
}

/// Appending bytes to the data region does not change how an entry that
/// already parsed inside it parses.
pub proof fn lemma_entry_at_stable(d1: Seq<u8>, d2: Seq<u8>, off: int)
    requires
        d1.len() <= d2.len(),
        d2.subrange(0, d1.len() as int) == d1,
        spec_entry_at(d1, off) is Some,
    ensures
        spec_entry_at(d2, off) == spec_entry_at(d1, off),
{
    assert forall|a: int, b: int| 0 <= a && a <= b && b <= d1.len() implies d2.subrange(a, b)
        =~= d1.subrange(a, b) by {
        assert(forall|k: int| 0 <= k < d1.len() ==> d1[k] == #[trigger] d2[k]);
    }
    assert(d2.subrange(off, off + 2) == d1.subrange(off, off + 2));
    assert(d2.subrange(off + 2, off + 4) == d1.subrange(off + 2, off + 4));
    let slen = spec_u16_from_le_bytes(d1.subrange(off + 2, off + 4)) as int;
    assert(d2.subrange(off + 4, off + 4 + slen) == d1.subrange(off + 4, off + 4 + slen));
    assert(d2.subrange(off + 4 + slen, off + 12 + slen) == d1.subrange(
        off + 4 + slen,
        off + 12 + slen,
    ));
    assert(d2.subrange(off + 12 + slen, off + 14 + slen) == d1.subrange(
        off + 12 + slen,
        off + 14 + slen,
    ));
    let vlen = spec_u16_from_le_bytes(d1.subrange(off + 12 + slen, off + 14 + slen)) as int;
    assert(d2.subrange(off + 14 + slen, off + 14 + slen + vlen) == d1.subrange(
        off + 14 + slen,
        off + 14 + slen + vlen,
    ));
}

/// The entries described by `offsets[i..]`, with keys rebuilt against the
/// block's first user key.
pub open spec fn spec_entries_from(data: Seq<u8>, offsets: Seq<u16>, first_uk: Seq<u8>, i: int)
    -> Option<Seq<BlockEntry>>
    decreases offsets.len() - i,
{
    if i < 0 || i >= offsets.len() {
        Some(Seq::empty())
    } else {
        match spec_entry_at(data, offsets[i] as int) {
            None => None,
            Some(((ov, suf, ver, val), end)) => {
                if ov > first_uk.len() {
                    None
                } else {
                    match spec_entries_from(data, offsets, first_uk, i + 1) {
                        None => None,
                        Some(rest) => Some(
                            seq![(((first_uk.subrange(0, ov as int) + suf), ver), val)] + rest,
                        ),
                    }
                }
            },
        }
    }
}

/// All entries of a block, keys rebuilt by prefix expansion. The first
/// entry must carry a zero overlap: it defines the first key.
pub open spec fn spec_block_entries(data: Seq<u8>, offsets: Seq<u16>) -> Option<Seq<BlockEntry>> {
    if offsets.len() == 0 {
        Some(Seq::empty())
    } else {
        match spec_entry_at(data, offsets[0] as int) {
            None => None,
            Some(((ov0, first_uk, v0, val0), end0)) => {
                if ov0 != 0 {
                    None
                } else {
                    spec_entries_from(data, offsets, first_uk, 0)
                }
            },
        }
    }
}

proof fn lemma_entries_from_stable(
    d1: Seq<u8>,
    d2: Seq<u8>,
    offsets: Seq<u16>,
    first_uk: Seq<u8>,
    i: int,
)
    requires
        d1.len() <= d2.len(),
        d2.subrange(0, d1.len() as int) == d1,
        spec_entries_from(d1, offsets, first_uk, i) is Some,
    ensures
        spec_entries_from(d2, offsets, first_uk, i) == spec_entries_from(d1, offsets, first_uk, i),
    decreases offsets.len() - i,
{
    if 0 <= i < offsets.len() {
        lemma_entry_at_stable(d1, d2, offsets[i] as int);
        lemma_entries_from_stable(d1, d2, offsets, first_uk, i + 1);
    }
}

proof fn lemma_entries_from_push(
    data: Seq<u8>,
    offsets: Seq<u16>,
    first_uk: Seq<u8>,
    o: u16,
    i: int,
)
    requires
        0 <= i <= offsets.len(),
        spec_entries_from(data, offsets, first_uk, i) is Some,
        spec_entry_at(data, o as int) is Some,
        spec_entry_at(data, o as int)->Some_0.0.0 <= first_uk.len(),
    ensures
        spec_entries_from(data, offsets.push(o), first_uk, i) matches Some(es2)
            && es2 == spec_entries_from(data, offsets, first_uk, i)->Some_0.push(
            {
                let ((ov, suf, ver, val), end) = spec_entry_at(data, o as int)->Some_0;
                (((first_uk.subrange(0, ov as int) + suf), ver), val)
            },
        ),
    decreases offsets.len() - i,
{
    let offsets2 = offsets.push(o);
    let ((ov, suf, ver, val), end) = spec_entry_at(data, o as int)->Some_0;
    let e = (((first_uk.subrange(0, ov as int) + suf), ver), val);
    if i == offsets.len() {
        assert(offsets2[i] == o);
        assert(spec_entries_from(data, offsets2, first_uk, i + 1) == Some(
            Seq::<BlockEntry>::empty(),
        ));
        assert(seq![e] + Seq::<BlockEntry>::empty() =~= Seq::<BlockEntry>::empty().push(e));
    } else {
        assert(offsets2[i] == offsets[i]);
        lemma_entries_from_push(data, offsets, first_uk, o, i + 1);
        let rest1 = spec_entries_from(data, offsets, first_uk, i + 1)->Some_0;
        let ((ovi, sufi, veri, vali), endi) = spec_entry_at(data, offsets[i] as int)->Some_0;
        let ei = (((first_uk.subrange(0, ovi as int) + sufi), veri), vali);
        assert(seq![ei] + rest1.push(e) =~= (seq![ei] + rest1).push(e));
    }
}

/// When the whole entry list parses, so does every suffix of it, and it
/// is the matching suffix of the list.
pub proof fn lemma_entries_from_index(
    data: Seq<u8>,
    offsets: Seq<u16>,
    first_uk: Seq<u8>,
    es: Seq<BlockEntry>,
    i: int,
)
    requires
        0 <= i <= offsets.len(),
        spec_entries_from(data, offsets, first_uk, 0) == Some(es),
    ensures
        spec_entries_from(data, offsets, first_uk, i) == Some(es.skip(i)),
        es.len() == offsets.len(),
    decreases i,
{
    if i == 0 {
        assert(es.skip(0) =~= es);
        lemma_entries_from_len(data, offsets, first_uk, 0);
    } else {
        lemma_entries_from_index(data, offsets, first_uk, es, i - 1);
        lemma_entries_from_len(data, offsets, first_uk, 0);
        let tail = spec_entries_from(data, offsets, first_uk, i)->Some_0;
        let ((ov, suf, ver, val), end) = spec_entry_at(data, offsets[i - 1] as int)->Some_0;
        let e = (((first_uk.subrange(0, ov as int) + suf), ver), val);
        assert(es.skip(i - 1) == seq![e] + tail);
        assert((seq![e] + tail).drop_first() =~= tail);
        lemma_entries_from_len(data, offsets, first_uk, i - 1);
        assert(es.skip(i - 1).len() > 0);
        assert(es.skip(i - 1).drop_first() =~= es.skip(i));
        assert(tail =~= es.skip(i));
    }
}

proof fn lemma_entries_from_len(data: Seq<u8>, offsets: Seq<u16>, first_uk: Seq<u8>, i: int)
    requires
        0 <= i <= offsets.len(),
        spec_entries_from(data, offsets, first_uk, i) is Some,
    ensures
        spec_entries_from(data, offsets, first_uk, i)->Some_0.len() == offsets.len() - i,
    decreases offsets.len() - i,
{
    if i < offsets.len() {
        lemma_entries_from_len(data, offsets, first_uk, i + 1);
    }
}

/// Index of the first position where the two keys' bytes differ.
pub fn compute_overlap_index(left: &Key, right: &Key) -> (r: usize)
    ensures
        r == lcp_len(left.user_key@, right.user_key@),
{
    let a = left.user_key.as_slice();
    let b = right.user_key.as_slice();
    let alen = a.len();
    let blen = b.len();
    let mut i: usize = 0;
    proof {
        assert(a@.skip(0) =~= a@);
        assert(b@.skip(0) =~= b@);
    }
    loop
        invariant
            i <= alen,
            i <= blen,
            alen == a@.len(),
            blen == b@.len(),
            a@ == left.user_key@,
            b@ == right.user_key@,
            lcp_len(a@, b@) == i + lcp_len(a@.skip(i as int), b@.skip(i as int)),
        decreases alen - i,
    {
        if i >= alen || i >= blen {
            proof {
                assert(a@.skip(i as int).len() == 0 || b@.skip(i as int).len() == 0);
                assert(lcp_len(a@.skip(i as int), b@.skip(i as int)) == 0);
            }
            return i;
        }
        let x = *vstd::slice::slice_index_get(a, i);
        let y = *vstd::slice::slice_index_get(b, i);
        if x != y {
            proof {
                assert(a@.skip(i as int)[0] == a@[i as int]);
                assert(b@.skip(i as int)[0] == b@[i as int]);
                assert(lcp_len(a@.skip(i as int), b@.skip(i as int)) == 0);
            }
            return i;
        }
        proof {
            assert(a@.skip(i as int)[0] == a@[i as int]);
            assert(b@.skip(i as int)[0] == b@[i as int]);
        }
        proof {
            assert(a@.skip(i as int).drop_first() =~= a@.skip(i + 1));
            assert(b@.skip(i as int).drop_first() =~= b@.skip(i + 1));
        }
        i = i + 1;
    }
}

pub struct BlockBuilder {
    pub offsets: Vec<u16>,
    pub data: Vec<u8>,
    pub block_size: usize,
    pub first_key: Key,
    pub entries: Ghost<Seq<BlockEntry>>,
}

impl BlockBuilder {
    /// Everything the builder maintains between adds: the data region and
    /// offsets always parse back to exactly the entries added so far.
    pub open spec fn inv(&self) -> bool {
        &&& self.offsets@.len() == self.entries@.len()
        &&& self.entries@.len() <= 4682
        &&& self.data@.len() <= 196620
        &&& (self.entries@.len() == 0 ==> self.data@.len() == 0 && self.offsets@.len() == 0
            && self.first_key.user_key@.len() == 0)
        &&& (self.entries@.len() > 0 ==> self.first_key@ == self.entries@[0].0
            && self.first_key.user_key@.len() > 0)
        &&& self.first_key.user_key@.len() <= u16::MAX
        &&& spec_block_entries(self.data@, self.offsets@) == Some(self.entries@)
        &&& self.data@.len() >= 14 * self.entries@.len()
    }

    /// Size of the block if finalized and encoded now.
    pub open spec fn spec_estimated_size(&self) -> int {
        2 + 2 * (self.offsets@.len() as int) + (self.data@.len() as int)
    }

    pub fn new(block_size: usize) -> (r: BlockBuilder)
        ensures
            r.inv(),
            r.entries@ == Seq::<BlockEntry>::empty(),
            r.block_size == block_size,
    {
        let r = BlockBuilder {
            offsets: Vec::new(),
            data: Vec::new(),
            block_size,
            first_key: Key::new(Vec::new(), crate::key::VERSION_DEFAULT),
            entries: Ghost(Seq::empty()),
        };
        r
    }

    pub fn estimated_size(&self) -> (r: usize)
        requires
            self.spec_estimated_size() <= usize::MAX,
        ensures
            r == self.spec_estimated_size(),
    {
        2 + 2 * self.offsets.len() + self.data.len()
    }

    pub fn is_empty(&self) -> (r: bool)
        ensures
            r <==> self.offsets@.len() == 0,
    {
        self.offsets.is_empty()
    }

    /// Whether an add with this key and value must be accepted now: the
    /// first entry always is; a later one only while the estimated block
    /// size stays within the target and the entry's offset still fits the
    /// format's `u16` offset array.
    pub open spec fn spec_accepts(&self, uk: Seq<u8>, value: Seq<u8>) -> bool {
        self.entries@.len() == 0 || (self.spec_estimated_size() + uk.len() + 8 + value.len() + 6
            <= self.block_size && self.data@.len() <= u16::MAX)
    }

    /// Adds one key/value pair; returns false (leaving the builder
    /// untouched) when the block is full.
    pub fn add(&mut self, key: &Key, value: &[u8]) -> (r: bool)
        requires
            old(self).inv(),
            key.user_key@.len() > 0,
            key.user_key@.len() <= u16::MAX,
            value@.len() <= u16::MAX,
        ensures
            final(self).inv(),
            final(self).block_size == old(self).block_size,
            r <==> old(self).spec_accepts(key.user_key@, value@),
            r ==> final(self).entries@ == old(self).entries@.push(
                ((key.user_key@, key.version), value@),
            ),
            // the exact bytes appended: the overlap with the block's
            // first key (zero for the first entry, whose key becomes the
            // first key), the key's suffix, its version, and the value
            r ==> ({
                let ov = lcp_len(old(self).first_key.user_key@, key.user_key@);
                &&& final(self).data@ == old(self).data@ + spec_entry_encode(
                    ov as u16,
                    key.user_key@.skip(ov),
                    key.version,
                    value@,
                )
                &&& final(self).offsets@ == old(self).offsets@.push(old(self).data@.len() as u16)
                &&& final(self).first_key@ == (if old(self).entries@.len() == 0 {
                    (key.user_key@, key.version)
                } else {
                    old(self).first_key@
                })
            }),
            !r ==> *final(self) == *old(self),
    {
        if !self.offsets.is_empty() {
            let est: u128 = 2 + 2 * (self.offsets.len() as u128) + (self.data.len() as u128);
            let needed: u128 = est + (key.key_len() as u128) + 8 + (value.len() as u128) + 6;
            if needed > (self.block_size as u128) || self.data.len() > 65535 {
                return false;
            }
        }
        let ghost d1 = self.data@;
        let ghost offsets1 = self.offsets@;
        let ghost entries1 = self.entries@;
        let ghost was_empty = self.offsets@.len() == 0;

        let overlap = compute_overlap_index(&self.first_key, key);
        proof {
            lemma_lcp_len(self.first_key.user_key@, key.user_key@);
        }
        let klen = key.key_len();
        let off = self.data.len() as u16;
        self.offsets.push(off);
        put_u16_le(&mut self.data, overlap as u16);
        put_u16_le(&mut self.data, (klen - overlap) as u16);
        put_bytes(&mut self.data, slice_subrange(key.user_key.as_slice(), overlap, klen));
        put_u64_le(&mut self.data, key.version);
        put_u16_le(&mut self.data, value.len() as u16);
        put_bytes(&mut self.data, value);

        let ghost suffix = key.user_key@.skip(overlap as int);
        let ghost enc = spec_entry_encode(overlap as u16, suffix, key.version, value@);
        let ghost d2 = self.data@;
        proof {
            lemma_int_codecs_round_trip();
            assert(suffix =~= key.user_key@.subrange(overlap as int, klen as int));
            assert(d2 =~= d1 + enc);
            assert(d2.subrange(d1.len() as int, d1.len() + enc.len() as int) =~= enc);
            assert(d2.subrange(0, d1.len() as int) =~= d1);
            lemma_entry_at_embedded(
                d2,
                d1.len() as int,
                overlap as u16,
                suffix,
                key.version,
                value@,
            );
        }

        if self.first_key.is_empty() {
            let uk = vstd::slice::slice_to_vec(key.user_key.as_slice());
            self.first_key = Key::new(uk, key.version);
        }
        let ghost fk = self.first_key.user_key@;
        let ghost e: BlockEntry = ((key.user_key@, key.version), value@);
        proof {
            if was_empty {
                assert(overlap == 0);
                assert(fk == suffix);
                assert(offsets1.push(off) =~= seq![off]);
                assert(spec_entry_at(d2, off as int) matches Some(((ov, suf, ver, val), end))
                    && ov == 0 && suf == fk);
                lemma_entries_from_push(d2, offsets1, fk, off, 0);
                assert(spec_entries_from(d2, offsets1, fk, 0) == Some(
                    Seq::<BlockEntry>::empty(),
                ));
                assert(fk.subrange(0, 0) + suffix =~= key.user_key@);
                assert(spec_entries_from(d2, offsets1.push(off), fk, 0) == Some(
                    Seq::<BlockEntry>::empty().push(e),
                ));
                assert(Seq::<BlockEntry>::empty().push(e) =~= entries1.push(e));
            } else {
                // the first entry still parses the same way, so the first
                // user key is unchanged
                assert(spec_block_entries(d1, offsets1) == Some(entries1));
                lemma_entry_at_stable(d1, d2, offsets1[0] as int);
                assert(entries1[0].0 == self.first_key@);
                lemma_entries_from_stable(d1, d2, offsets1, fk, 0);
                assert(overlap <= fk.len());
                assert(fk.subrange(0, overlap as int) == key.user_key@.subrange(
                    0,
                    overlap as int,
                ));
                assert(fk.subrange(0, overlap as int) + suffix =~= key.user_key@);
                lemma_entries_from_push(d2, offsets1, fk, off, 0);
                assert(spec_entries_from(d2, offsets1.push(off), fk, 0) == Some(
                    entries1.push(e),
                ));
            }
        }
        self.entries = Ghost(entries1.push(e));
        proof {
            assert(self.offsets@ =~= offsets1.push(off));
            assert(spec_block_entries(self.data@, self.offsets@) == Some(self.entries@));
        }
        true
    }

    /// Closes the builder into a block holding exactly the entries added.
    pub fn finalize(self) -> (r: Block)
        requires
            self.inv(),
            self.entries@.len() > 0,
        ensures
            r.data@ == self.data@,
            r.offsets@ == self.offsets@,
            r.offsets@.len() <= u16::MAX,
            spec_block_entries(r.data@, r.offsets@) == Some(self.entries@),
    {
        Block { data: self.data, offsets: self.offsets }
    }
}

/// Parses one entry of a block's data region at byte `off`.
fn parse_entry_at(data: &[u8], off: usize) -> (r: Result<(u16, Vec<u8>, u64, Vec<u8>, usize),
    Error>)
    ensures
        match spec_entry_at(data@, off as int) {
            Some(((ov, suf, ver, val), end)) => r matches Ok((rov, rsuf, rver, rval, rend))
                && rov == ov && rsuf@ == suf && rver == ver && rval@ == val && rend == end,
            None => r matches Err(e) && e is Corruption,
        },
{
    let data_len: usize = data.len();
    if off > data_len || data_len - off < 4 {
        return Err(Error::corruption("block entry: truncated header"));
    }
    let ov = get_u16_le(data, off);
    let slen = get_u16_le(data, off + 2) as usize;
    if data_len - off - 4 < slen || data_len - off - 4 - slen < 10 {
        return Err(Error::corruption("block entry: truncated key"));
    }
    let suf = get_bytes(data, off + 4, slen);
    let ver = get_u64_le(data, off + 4 + slen);
    let vlen = get_u16_le(data, off + 12 + slen) as usize;
    if data_len - off - 14 - slen < vlen {
        return Err(Error::corruption("block entry: truncated value"));
    }
    let val = get_bytes(data, off + 14 + slen, vlen);
    Ok((ov, suf, ver, val, off + 14 + slen + vlen))
}

/// Reads every entry of a block back out, with full keys. This is the
/// reader that inverts the builder: for a block built by `BlockBuilder`,
/// it returns exactly the sequence of pairs that was added.
pub fn read_block_entries(b: &Block) -> (r: Result<Vec<(Key, Vec<u8>)>, Error>)
    ensures
        match spec_block_entries(b.data@, b.offsets@) {
            Some(es) => r matches Ok(v) && v@.len() == es.len() && (forall|i: int|
                0 <= i < es.len() ==> (#[trigger] v@[i]).0@ == es[i].0 && v@[i].1@ == es[i].1),
            None => r matches Err(e) && e is Corruption,
        },
{
    let n = b.offsets.len();
    let mut out: Vec<(Key, Vec<u8>)> = Vec::new();
    if n == 0 {
        return Ok(out);
    }
    let first = parse_entry_at(b.data.as_slice(), b.offsets[0] as usize);
    let (ov0, first_uk, _v0, _val0, _end0) = match first {
        Ok(t) => t,
        Err(e) => {
            return Err(e);
        },
    };
    if ov0 != 0 {
        return Err(Error::corruption("block entry: first entry has nonzero overlap"));
    }
    let ghost fk = first_uk@;
    let ghost es_opt = spec_entries_from(b.data@, b.offsets@, fk, 0);
    proof {
        if es_opt is Some {
            lemma_entries_from_len(b.data@, b.offsets@, fk, 0);
        }
        assert(es_opt matches Some(es) ==> es.skip(0) =~= es);
    }
    let mut i: usize = 0;
    loop
        invariant
            i <= n,
            n == b.offsets@.len(),
            fk == first_uk@,
            es_opt matches Some(es) ==> es.len() == n,
            spec_block_entries(b.data@, b.offsets@) == spec_entries_from(b.data@, b.offsets@, fk, 0),
            out@.len() == i,
            es_opt == spec_entries_from(b.data@, b.offsets@, fk, 0),
            es_opt matches Some(es) ==> (forall|j: int|
                0 <= j < i ==> (#[trigger] out@[j]).0@ == es[j].0 && out@[j].1@ == es[j].1),
            es_opt is None ==> spec_entries_from(b.data@, b.offsets@, fk, i as int) is None,
            es_opt matches Some(es) ==> spec_entries_from(b.data@, b.offsets@, fk, i as int)
                == Some(es.skip(i as int)),
        decreases n - i,
    {
        if i >= n {
            proof {
                if es_opt is None {
                    assert(spec_entries_from(b.data@, b.offsets@, fk, i as int) == Some(
                        Seq::<BlockEntry>::empty(),
                    ));
                    assert(false);
                } else {
                    let es = es_opt->Some_0;
                    lemma_entries_from_len(b.data@, b.offsets@, fk, 0);
                    assert(es.len() == n);
                }
            }
            return Ok(out);
        }
        let parsed = parse_entry_at(b.data.as_slice(), b.offsets[i] as usize);
        let (ov, suf, ver, val, _end) = match parsed {
            Ok(t) => t,
            Err(e) => {
                proof {
                    if es_opt is Some {
                        let es = es_opt->Some_0;
                        assert(spec_entries_from(b.data@, b.offsets@, fk, i as int) == Some(
                            es.skip(i as int),
                        ));
                        assert(spec_entry_at(b.data@, b.offsets@[i as int] as int) is None);
                        assert(false);
                    }
                }
                return Err(e);
            },
        };
        if ov as usize > first_uk.len() {
            proof {
                if es_opt is Some {
                    let es = es_opt->Some_0;
                    assert(spec_entries_from(b.data@, b.offsets@, fk, i as int) == Some(
                        es.skip(i as int),
                    ));
                    assert(false);
                }
            }
            return Err(Error::corruption("block entry: overlap exceeds first key"));
        }
        let mut uk = get_bytes(first_uk.as_slice(), 0, ov as usize);
        put_bytes(&mut uk, suf.as_slice());
        let key = Key::new(uk, ver);
        proof {
            assert(uk@ =~= fk.subrange(0, ov as int) + suf@);
        }
        out.push((key, val));
        proof {
            if es_opt is Some {
                let es = es_opt->Some_0;
                assert(spec_entries_from(b.data@, b.offsets@, fk, i as int) == Some(
                    es.skip(i as int),
                ));
                let rest = spec_entries_from(b.data@, b.offsets@, fk, i + 1);
                assert(rest is Some);
                assert(es.skip(i as int) == seq![(((fk.subrange(0, ov as int) + suf@), ver),
                    val@)] + rest->Some_0);
                assert(es.skip(i as int)[0] == (((fk.subrange(0, ov as int) + suf@), ver), val@));
                assert((seq![(((fk.subrange(0, ov as int) + suf@), ver), val@)]
                    + rest->Some_0).drop_first() =~= rest->Some_0);
                lemma_entries_from_len(b.data@, b.offsets@, fk, i as int);
                assert(es.skip(i as int).len() > 0);
                assert(es.skip(i as int).drop_first() =~= es.skip(i + 1));
                assert(rest->Some_0 =~= es.skip(i + 1));
                assert(es[i as int] == es.skip(i as int)[0]);
            } else {
                assert(spec_entries_from(b.data@, b.offsets@, fk, i as int) is None);
                assert(spec_entries_from(b.data@, b.offsets@, fk, i + 1) is None);
            }
        }
        i = i + 1;
    }
}

/// Law: a block built from a sequence of adds and then encoded decodes
/// back to a block holding exactly that sequence of entries.
pub proof fn lemma_block_build_round_trip(b: BlockBuilder)
    requires
        b.inv(),
        b.entries@.len() > 0,
    ensures
        spec_block_decode(spec_block_encode(b.data@, b.offsets@)) == Some((b.data@, b.offsets@)),
        spec_block_entries(b.data@, b.offsets@) == Some(b.entries@),
{
    lemma_block_codec_round_trip(b.data@, b.offsets@);
}

} // verus!
