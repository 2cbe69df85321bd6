//! Versioned keys: opaque user-key bytes paired with a version number.
//!
//! The total order places user keys in ascending lexicographic order and,
//! within one user key, versions in descending order (newest first), so a
//! forward scan positioned at `(k, v)` meets the newest visible version of
//! `k` before any older one.

use vstd::prelude::*;

verus! {

use core::cmp::Ordering;
use vstd::bytes::{
    spec_u16_to_le_bytes, spec_u16_from_le_bytes, spec_u64_to_le_bytes, spec_u64_from_le_bytes,
};
use crate::codec::{put_u16_le, put_u64_le, get_u16_le, get_u64_le, get_bytes,
    lemma_int_codecs_round_trip};
use crate::errors::Error;

pub type Version = u64;

pub const VERSION_DEFAULT: u64 = 0;

/// A versioned key. The `user_key` bytes are opaque to the engine.
#[derive(Debug, Clone)]
pub struct Key {
    pub user_key: Vec<u8>,
    pub version: u64,
}

impl View for Key {
    type V = (Seq<u8>, u64);

    open spec fn view(&self) -> (Seq<u8>, u64) {
        (self.user_key@, self.version)
    }
}

/// Three-way lexicographic comparison of byte strings; a proper prefix
/// sorts before every extension of it.
pub open spec fn bytes_cmp(a: Seq<u8>, b: Seq<u8>) -> Ordering
    decreases a.len(),
{
    if a.len() == 0 && b.len() == 0 {
        Ordering::Equal
    } else if a.len() == 0 {
        Ordering::Less
    } else if b.len() == 0 {
        Ordering::Greater
    } else if a[0] < b[0] {
        Ordering::Less
    } else if a[0] > b[0] {
        Ordering::Greater
    } else {
        bytes_cmp(a.drop_first(), b.drop_first())
    }
}

pub open spec fn bytes_lt(a: Seq<u8>, b: Seq<u8>) -> bool {
    bytes_cmp(a, b) == Ordering::Less
}

/// Three-way comparison of versioned keys: ascending on user key,
/// descending on version within one user key.
pub open spec fn vk_cmp(a: (Seq<u8>, u64), b: (Seq<u8>, u64)) -> Ordering {
    match bytes_cmp(a.0, b.0) {
        Ordering::Equal => if a.1 > b.1 {
            Ordering::Less
        } else if a.1 < b.1 {
            Ordering::Greater
        } else {
            Ordering::Equal
        },
        Ordering::Less => Ordering::Less,
        Ordering::Greater => Ordering::Greater,
    }
}

pub open spec fn vk_lt(a: (Seq<u8>, u64), b: (Seq<u8>, u64)) -> bool {
    vk_cmp(a, b) == Ordering::Less
}

pub proof fn lemma_bytes_cmp_eq(a: Seq<u8>, b: Seq<u8>)
    ensures
        (bytes_cmp(a, b) == Ordering::Equal) <==> (a == b),
    decreases a.len(),
{
    if a.len() == 0 && b.len() == 0 {
        assert(a =~= b);
    } else if a.len() == 0 || b.len() == 0 {
    } else if a[0] == b[0] {
        lemma_bytes_cmp_eq(a.drop_first(), b.drop_first());
        if bytes_cmp(a, b) == Ordering::Equal {
            assert(a.drop_first() == b.drop_first());
            assert(a.len() == b.len());
            assert forall|i: int| 0 <= i < a.len() implies a[i] == b[i] by {
                if i > 0 {
                    assert(a[i] == a.drop_first()[i - 1]);
                    assert(b[i] == b.drop_first()[i - 1]);
                }
            }
            assert(a =~= b);
        }
        if a == b {
            assert(a.drop_first() =~= b.drop_first());
        }
    } else {
        if a == b {
            assert(a[0] == b[0]);
        }
    }
}

/// Comparing in the opposite order flips the outcome.
pub proof fn lemma_bytes_cmp_flip(a: Seq<u8>, b: Seq<u8>)
    ensures
        (bytes_cmp(a, b) == Ordering::Less) <==> (bytes_cmp(b, a) == Ordering::Greater),
    decreases a.len(),
{
    if a.len() != 0 && b.len() != 0 && a[0] == b[0] {
        lemma_bytes_cmp_flip(a.drop_first(), b.drop_first());
    }
}

/// Law: for all versioned keys `a`, `b`, the order says `a < b` exactly when
/// `a`'s user key is lexicographically below `b`'s, or the user keys are
/// equal and `a`'s version is the larger one.
pub proof fn lemma_vk_order(a: (Seq<u8>, u64), b: (Seq<u8>, u64))
    ensures
        vk_lt(a, b) <==> (bytes_lt(a.0, b.0) || (a.0 == b.0 && a.1 > b.1)),
{
    lemma_bytes_cmp_eq(a.0, b.0);
}

/// Exact byte shape of one encoded key: `u16` length of the user key,
/// the user-key bytes, then the `u64` version, integers little-endian.
pub open spec fn spec_key_encode(uk: Seq<u8>, ver: u64) -> Seq<u8> {
    spec_u16_to_le_bytes(uk.len() as u16) + uk + spec_u64_to_le_bytes(ver)
}

/// Parses one encoded key at `pos`; `None` when the input is exhausted
/// before the frame is complete.
pub open spec fn spec_key_decode(s: Seq<u8>, pos: int) -> Option<((Seq<u8>, u64), int)> {
    if pos < 0 || pos + 2 > s.len() {
        None
    } else {
        let klen = spec_u16_from_le_bytes(s.subrange(pos, pos + 2)) as int;
        if pos + 2 + klen + 8 > s.len() {
            None
        } else {
            Some(
                (
                    (
                        s.subrange(pos + 2, pos + 2 + klen),
                        spec_u64_from_le_bytes(s.subrange(pos + 2 + klen, pos + 2 + klen + 8)),
                    ),
                    pos + 2 + klen + 8,
                ),
            )
        }
    }
}

/// Decoding an encoded key embedded at `pos` gives back exactly the key
/// that was encoded.
pub proof fn lemma_key_codec_round_trip(s: Seq<u8>, pos: int, uk: Seq<u8>, ver: u64)
    requires
        uk.len() <= u16::MAX,
        0 <= pos,
        pos + spec_key_encode(uk, ver).len() <= s.len(),
        s.subrange(pos, pos + spec_key_encode(uk, ver).len()) == spec_key_encode(uk, ver),
    ensures
        spec_key_decode(s, pos) == Some(((uk, ver), pos + 10 + uk.len())),
{
    lemma_int_codecs_round_trip();
    let enc = spec_key_encode(uk, ver);
    let klen = uk.len() as int;
    assert(enc.len() == 10 + klen);
    assert(s.subrange(pos, pos + 2) =~= enc.subrange(0, 2));
    assert(enc.subrange(0, 2) =~= spec_u16_to_le_bytes(uk.len() as u16));
    assert(spec_u16_from_le_bytes(s.subrange(pos, pos + 2)) == uk.len() as u16);
    assert(s.subrange(pos + 2, pos + 2 + klen) =~= enc.subrange(2, 2 + klen));
    assert(enc.subrange(2, 2 + klen) =~= uk);
    assert(s.subrange(pos + 2 + klen, pos + 2 + klen + 8) =~= enc.subrange(2 + klen, 2 + klen + 8));
    assert(enc.subrange(2 + klen, 2 + klen + 8) =~= spec_u64_to_le_bytes(ver));
}

impl Key {
    pub fn new(user_key: Vec<u8>, version: u64) -> (k: Key)
        ensures
            k.user_key == user_key,
            k.version == version,
    {
        Key { user_key, version }
    }

    pub fn version(&self) -> (r: u64)
        ensures
            r == self.version,
    {
        self.version
    }

    pub fn key_ref(&self) -> (r: &[u8])
        ensures
            r@ == self.user_key@,
    {
        self.user_key.as_slice()
    }

    pub fn key_len(&self) -> (r: usize)
        ensures
            r == self.user_key@.len(),
    {
        self.user_key.len()
    }

    /// Length of this key once encoded, not counting the `u16` length header.
    pub fn raw_len(&self) -> (r: usize)
        requires
            self.user_key@.len() + 8 <= usize::MAX,
        ensures
            r == self.user_key@.len() + 8,
    {
        self.user_key.len() + 8
    }

    pub fn is_empty(&self) -> (r: bool)
        ensures
            r <==> self.user_key@.len() == 0,
    {
        self.user_key.is_empty()
    }

    pub fn encode(&self, buf: &mut Vec<u8>)
        requires
            self.user_key@.len() <= u16::MAX,
        ensures
            final(buf)@ == old(buf)@ + spec_key_encode(self.user_key@, self.version),
    {
        let klen = self.user_key.len();
        put_u16_le(buf, klen as u16);
        crate::codec::put_bytes(buf, self.user_key.as_slice());
        put_u64_le(buf, self.version);
        proof {
            assert(buf@ =~= old(buf)@ + spec_key_encode(self.user_key@, self.version));
        }
    }

    /// Parses one encoded key at `pos`; a truncated frame is corruption.
    pub fn decode(buf: &[u8], pos: usize) -> (r: Result<(Key, usize), Error>)
        ensures
            match spec_key_decode(buf@, pos as int) {
                Some(((uk, ver), next)) => {
                    &&& r matches Ok((k, np)) && k.user_key@ == uk && k.version == ver
                        && np == next
                },
                None => r matches Err(e) && e is Corruption,
            },
    {
        let buf_len: usize = buf.len();
        if pos > buf_len || buf_len - pos < 2 {
            return Err(Error::corruption("key frame: missing length header"));
        }
        let klen = get_u16_le(buf, pos) as usize;
        if buf_len - pos - 2 < klen || buf_len - pos - 2 - klen < 8 {
            return Err(Error::corruption("key frame: truncated"));
        }
        let uk = get_bytes(buf, pos + 2, klen);
        let ver = get_u64_le(buf, pos + 2 + klen);
        Ok((Key { user_key: uk, version: ver }, pos + 2 + klen + 8))
    }
}

/// Three-way comparison of byte strings, matching `bytes_cmp`.
pub fn bytes_compare(a: &[u8], b: &[u8]) -> (r: Ordering)
    ensures
        r == bytes_cmp(a@, b@),
{
    let alen = a.len();
    let blen = b.len();
    let mut i: usize = 0;
    proof {
        assert(a@.skip(0) =~= a@);
        assert(b@.skip(0) =~= b@);
    }
    loop
        invariant
            i <= alen,
            i <= blen,
            alen == a@.len(),
            blen == b@.len(),
            bytes_cmp(a@, b@) == bytes_cmp(a@.skip(i as int), b@.skip(i as int)),
        decreases alen - i,
    {
        if i >= alen && i >= blen {
            return Ordering::Equal;
        }
        if i >= alen {
            return Ordering::Less;
        }
        if i >= blen {
            return Ordering::Greater;
        }
        let x = *vstd::slice::slice_index_get(a, i);
        let y = *vstd::slice::slice_index_get(b, i);
        if x < y {
            return Ordering::Less;
        }
        if x > y {
            return Ordering::Greater;
        }
        proof {
            assert(a@.skip(i as int).drop_first() =~= a@.skip(i + 1));
            assert(b@.skip(i as int).drop_first() =~= b@.skip(i + 1));
        }
        i = i + 1;
    }
}

/// Three-way comparison of keys in VK order, matching `vk_cmp`.
pub fn key_cmp(a: &Key, b: &Key) -> (r: Ordering)
    ensures
        r == vk_cmp(a@, b@),
{
    let c = bytes_compare(a.user_key.as_slice(), b.user_key.as_slice());
    match c {
        Ordering::Equal => {
            if a.version > b.version {
                Ordering::Less
            } else if a.version < b.version {
                Ordering::Greater
            } else {
                Ordering::Equal
            }
        },
        Ordering::Less => Ordering::Less,
        Ordering::Greater => Ordering::Greater,
    }
}

impl PartialEq for Key {
    fn eq(&self, other: &Key) -> (r: bool) {
        let c = bytes_compare(self.user_key.as_slice(), other.user_key.as_slice());
        let r = matches!(c, Ordering::Equal) && self.version == other.version;
        proof {
            lemma_bytes_cmp_eq(self.user_key@, other.user_key@);
        }
        r
    }
}

impl vstd::std_specs::cmp::PartialEqSpecImpl for Key {
    open spec fn obeys_eq_spec() -> bool {
        true
    }

    open spec fn eq_spec(&self, other: &Key) -> bool {
        self@ == other@
    }
}

impl PartialOrd for Key {
    fn partial_cmp(&self, other: &Key) -> (r: Option<Ordering>) {
        Some(key_cmp(self, other))
    }
}

impl vstd::std_specs::cmp::PartialOrdSpecImpl for Key {
    open spec fn obeys_partial_cmp_spec() -> bool {
        true
    }

    open spec fn partial_cmp_spec(&self, other: &Key) -> Option<Ordering> {
        Some(vk_cmp(self@, other@))
    }
}

} // verus!
