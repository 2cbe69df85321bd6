//! Write-ahead-log record framing and replay.
//!
//! One record frames one write batch: a big-endian `u32` payload length,
//! the payload, and the big-endian CRC-32 of the payload. The payload is
//! the batch's entries one after another: big-endian `u16` key length,
//! key bytes, little-endian `u64` version, big-endian `u16` value length,
//! value bytes.
//!
//! The files themselves are written by the unverified shell; this module
//! computes and checks every byte.

use vstd::prelude::*;

verus! {

use vstd::bytes::{spec_u64_to_le_bytes, spec_u64_from_le_bytes};
use crate::codec::{
    spec_u16_to_be_bytes, spec_u16_from_be_bytes, spec_u32_to_be_bytes, spec_u32_from_be_bytes,
    put_u16_be, put_u32_be, put_u64_le, put_bytes, get_u16_be, get_u32_be, get_u64_le, get_bytes,
    lemma_int_codecs_round_trip,
};
use crate::key::Key;
use crate::checksum::{crc32_of, crc32_hash};
use crate::errors::Error;

/// One WAL entry as specifications see it: the versioned key and the
/// value bytes (empty value marks a delete).
pub type WalEntryView = ((Seq<u8>, u64), Seq<u8>);

pub open spec fn spec_wal_entry_wf(e: WalEntryView) -> bool {
    e.0.0.len() <= u16::MAX && e.1.len() <= u16::MAX
}

pub open spec fn spec_wal_entry_encode(e: WalEntryView) -> Seq<u8> {
    spec_u16_to_be_bytes(e.0.0.len() as u16) + e.0.0 + spec_u64_to_le_bytes(e.0.1)
        + spec_u16_to_be_bytes(e.1.len() as u16) + e.1
}

/// The payload of one record: the batch's entries in order.
pub open spec fn spec_wal_payload(entries: Seq<WalEntryView>) -> Seq<u8>
    decreases entries.len(),
{
    if entries.len() == 0 {
        Seq::empty()
    } else {
        spec_wal_entry_encode(entries[0]) + spec_wal_payload(entries.drop_first())
    }
}

pub open spec fn spec_wal_batch_wf(entries: Seq<WalEntryView>) -> bool {
    &&& forall|i: int| 0 <= i < entries.len() ==> spec_wal_entry_wf(#[trigger] entries[i])
    &&& spec_wal_payload(entries).len() <= u32::MAX
}

/// One framed record.
pub open spec fn spec_wal_record_encode(entries: Seq<WalEntryView>) -> Seq<u8> {
    let p = spec_wal_payload(entries);
    spec_u32_to_be_bytes(p.len() as u32) + p + spec_u32_to_be_bytes(crc32_of(p))
}

/// A whole log: the records of the batches, in commit order.
pub open spec fn spec_wal_log(batches: Seq<Seq<WalEntryView>>) -> Seq<u8>
    decreases batches.len(),
{
    if batches.len() == 0 {
        Seq::empty()
    } else {
        spec_wal_record_encode(batches[0]) + spec_wal_log(batches.drop_first())
    }
}

pub open spec fn spec_wal_batches_wf(batches: Seq<Seq<WalEntryView>>) -> bool {
    forall|i: int| 0 <= i < batches.len() ==> spec_wal_batch_wf(#[trigger] batches[i])
}

/// Parses payload entries from `pos` to the payload's end.
pub open spec fn spec_wal_payload_parse(p: Seq<u8>, pos: int) -> Option<Seq<WalEntryView>>
    decreases p.len() - pos,
{
    if pos < 0 || pos > p.len() {
        None
    } else if pos == p.len() {
        Some(Seq::empty())
    } else if pos + 2 > p.len() {
        None
    } else {
        let klen = spec_u16_from_be_bytes(p.subrange(pos, pos + 2)) as int;
        if pos + 12 + klen > p.len() {
            None
        } else {
            let uk = p.subrange(pos + 2, pos + 2 + klen);
            let ver = spec_u64_from_le_bytes(p.subrange(pos + 2 + klen, pos + 10 + klen));
            let vlen = spec_u16_from_be_bytes(p.subrange(pos + 10 + klen, pos + 12 + klen))
                as int;
            if pos + 12 + klen + vlen > p.len() {
                None
            } else {
                let val = p.subrange(pos + 12 + klen, pos + 12 + klen + vlen);
                match spec_wal_payload_parse(p, pos + 12 + klen + vlen) {
                    None => None,
                    Some(rest) => Some(seq![((uk, ver), val)] + rest),
                }
            }
        }
    }
}

/// Replays a log from `pos`: the batches of every complete, checksummed
/// record, and where reading stopped. A truncated final record is a
/// clean stop; a CRC mismatch on a complete record, or an undecodable
/// payload, is corruption (`None`).
pub open spec fn spec_wal_replay(s: Seq<u8>, pos: int) -> Option<(Seq<Seq<WalEntryView>>, int)>
    decreases s.len() - pos,
{
    if pos < 0 || pos > s.len() {
        None
    } else if pos + 4 > s.len() {
        Some((Seq::empty(), pos))
    } else {
        let plen = spec_u32_from_be_bytes(s.subrange(pos, pos + 4)) as int;
        if pos + 8 + plen > s.len() {
            Some((Seq::empty(), pos))
        } else {
            let payload = s.subrange(pos + 4, pos + 4 + plen);
            let stored = spec_u32_from_be_bytes(s.subrange(pos + 4 + plen, pos + 8 + plen));
            if stored != crc32_of(payload) {
                None
            } else {
                match spec_wal_payload_parse(payload, 0) {
                    None => None,
                    Some(batch) => match spec_wal_replay(s, pos + 8 + plen) {
                        None => None,
                        Some((rest, end)) => Some((seq![batch] + rest, end)),
                    },
                }
            }
        }
    }
}

/// The views of a batch of owned entries.
pub open spec fn spec_entries_view(entries: Seq<(Key, Vec<u8>)>) -> Seq<WalEntryView> {
    entries.map_values(|e: (Key, Vec<u8>)| ((e.0.user_key@, e.0.version), e.1@))
}

/// Appends the encoding of one entry to the payload buffer.
pub fn write_record(buf: &mut Vec<u8>, key: &Key, value: &[u8])
    requires
        key.user_key@.len() <= u16::MAX,
        value@.len() <= u16::MAX,
    ensures
        final(buf)@ == old(buf)@ + spec_wal_entry_encode(((key.user_key@, key.version), value@)),
{
    put_u16_be(buf, key.key_len() as u16);
    put_bytes(buf, key.key_ref());
    put_u64_le(buf, key.version);
    put_u16_be(buf, value.len() as u16);
    put_bytes(buf, value);
    proof {
        assert(buf@ =~= old(buf)@ + spec_wal_entry_encode(
            ((key.user_key@, key.version), value@),
        ));
    }
}

proof fn lemma_wal_payload_push(entries: Seq<WalEntryView>, e: WalEntryView)
    ensures
        spec_wal_payload(entries.push(e)) == spec_wal_payload(entries) + spec_wal_entry_encode(e),
    decreases entries.len(),
{
    if entries.len() == 0 {
        assert(entries.push(e)[0] == e);
        assert(entries.push(e).drop_first() =~= Seq::<WalEntryView>::empty());
        assert(spec_wal_payload(Seq::<WalEntryView>::empty()) =~= Seq::<u8>::empty());
        assert(spec_wal_payload(entries.push(e)) =~= spec_wal_entry_encode(e));
        assert(spec_wal_payload(entries) + spec_wal_entry_encode(e) =~= spec_wal_entry_encode(e));
    } else {
        lemma_wal_payload_push(entries.drop_first(), e);
        assert(entries.push(e).drop_first() =~= entries.drop_first().push(e));
        assert(entries.push(e)[0] == entries[0]);
        assert(spec_wal_payload(entries.push(e)) =~= spec_wal_payload(entries)
            + spec_wal_entry_encode(e));
    }
}

/// Encodes one batch as a framed record: length header, payload, CRC.
pub fn encode_batch(entries: &Vec<(Key, Vec<u8>)>) -> (r: Vec<u8>)
    requires
        spec_wal_batch_wf(spec_entries_view(entries@)),
    ensures
        r@ == spec_wal_record_encode(spec_entries_view(entries@)),
{
    let ghost evs = spec_entries_view(entries@);
    let mut payload: Vec<u8> = Vec::new();
    let n = entries.len();
    let mut i: usize = 0;
    proof {
        assert(spec_wal_payload(evs.take(0)) =~= Seq::<u8>::empty());
        assert(payload@ =~= spec_wal_payload(evs.take(0)));
    }
    while i < n
        invariant
            i <= n,
            n == entries@.len(),
            evs == spec_entries_view(entries@),
            evs.len() == n,
            spec_wal_batch_wf(evs),
            payload@ == spec_wal_payload(evs.take(i as int)),
        decreases n - i,
    {
        let e = &entries[i];
        proof {
            assert(evs[i as int] == ((e.0.user_key@, e.0.version), e.1@));
            lemma_payload_take_prefix(evs, i as int);
        }
        write_record(&mut payload, &e.0, e.1.as_slice());
        proof {
            lemma_wal_payload_push(evs.take(i as int), evs[i as int]);
            assert(evs.take(i + 1) =~= evs.take(i as int).push(evs[i as int]));
        }
        i = i + 1;
    }
    proof {
        assert(evs.take(n as int) =~= evs);
    }
    let mut out: Vec<u8> = Vec::new();
    put_u32_be(&mut out, payload.len() as u32);
    let crc = crc32_hash(payload.as_slice());
    put_bytes(&mut out, payload.as_slice());
    put_u32_be(&mut out, crc);
    proof {
        assert(out@ =~= spec_wal_record_encode(evs));
    }
    out
}

/// The payload of a prefix of a batch never exceeds the whole payload's
/// length.
proof fn lemma_payload_take_prefix(entries: Seq<WalEntryView>, i: int)
    requires
        0 <= i <= entries.len(),
    ensures
        spec_wal_payload(entries.take(i)).len() <= spec_wal_payload(entries).len(),
    decreases i,
{
    if i == entries.len() {
        assert(entries.take(i) =~= entries);
    } else {
        lemma_payload_take_i_plus(entries, i);
    }
}

proof fn lemma_payload_take_i_plus(entries: Seq<WalEntryView>, i: int)
    requires
        0 <= i <= entries.len(),
    ensures
        spec_wal_payload(entries.take(i)).len() <= spec_wal_payload(entries).len(),
    decreases entries.len() - i,
{
    if i < entries.len() {
        lemma_wal_payload_push(entries.take(i), entries[i]);
        assert(entries.take(i + 1) =~= entries.take(i).push(entries[i]));
        lemma_payload_take_i_plus(entries, i + 1);
    } else {
        assert(entries.take(i) =~= entries);
    }
}

/// Parses one payload back into its batch.
fn parse_payload(p: &[u8]) -> (r: Result<Vec<(Key, Vec<u8>)>, Error>)
    ensures
        match spec_wal_payload_parse(p@, 0) {
            Some(es) => r matches Ok(v) && spec_entries_view(v@) == es,
            None => r matches Err(e) && e is Corruption,
        },
{
    let p_len: usize = p.len();
    let mut out: Vec<(Key, Vec<u8>)> = Vec::new();
    let mut pos: usize = 0;
    proof {
        assert(spec_entries_view(out@) =~= Seq::<WalEntryView>::empty());
    }
    loop
        invariant
            pos <= p_len,
            p_len == p@.len(),
            spec_wal_payload_parse(p@, 0) == match spec_wal_payload_parse(p@, pos as int) {
                None => None::<Seq<WalEntryView>>,
                Some(rest) => Some(spec_entries_view(out@) + rest),
            },
        decreases p_len - pos,
    {
        if pos == p_len {
            proof {
                assert(spec_wal_payload_parse(p@, pos as int) == Some(
                    Seq::<WalEntryView>::empty(),
                ));
                assert(spec_entries_view(out@) + Seq::<WalEntryView>::empty() =~=
                    spec_entries_view(out@));
            }
            return Ok(out);
        }
        if p_len - pos < 2 {
            return Err(Error::corruption("wal record: truncated key length"));
        }
        let klen = get_u16_be(p, pos) as usize;
        if p_len - pos - 2 < klen || p_len - pos - 2 - klen < 10 {
            return Err(Error::corruption("wal record: truncated entry"));
        }
        let uk = get_bytes(p, pos + 2, klen);
        let ver = get_u64_le(p, pos + 2 + klen);
        let vlen = get_u16_be(p, pos + 10 + klen) as usize;
        if p_len - pos - 12 - klen < vlen {
            return Err(Error::corruption("wal record: truncated value"));
        }
        let val = get_bytes(p, pos + 12 + klen, vlen);
        let ghost old_out = out@;
        out.push((Key { user_key: uk, version: ver }, val));
        proof {
            let e: WalEntryView = ((uk@, ver), val@);
            assert(spec_entries_view(out@) =~= spec_entries_view(old_out).push(e));
            match spec_wal_payload_parse(p@, pos + 12 + klen + vlen) {
                None => {},
                Some(rest) => {
                    assert(spec_wal_payload_parse(p@, pos as int) == Some(seq![e] + rest));
                    assert(spec_entries_view(old_out) + (seq![e] + rest) =~= spec_entries_view(
                        out@,
                    ) + rest);
                },
            }
        }
        pos = pos + 12 + klen + vlen;
    }
}

/// Replays a whole WAL: every complete, checksummed record's batch in
/// order, and the byte offset where reading stopped. A truncated final
/// record stops the replay cleanly; a CRC mismatch on a complete record
/// is corruption.
pub fn replay(s: &[u8]) -> (r: Result<(Vec<Vec<(Key, Vec<u8>)>>, usize), Error>)
    ensures
        match spec_wal_replay(s@, 0) {
            Some((batches, end)) => r matches Ok((bs, e)) && e == end && bs@.len()
                == batches.len() && (forall|i: int| 0 <= i < batches.len()
                ==> spec_entries_view((#[trigger] bs@[i])@) == batches[i]),
            None => r matches Err(e) && e is Corruption,
        },
{
    let s_len: usize = s.len();
    let mut out: Vec<Vec<(Key, Vec<u8>)>> = Vec::new();
    let mut pos: usize = 0;
    loop
        invariant
            pos <= s_len,
            s_len == s@.len(),
            spec_wal_replay(s@, 0) == match spec_wal_replay(s@, pos as int) {
                None => None::<(Seq<Seq<WalEntryView>>, int)>,
                Some((rest, end)) => Some(
                    (out@.map_values(|b: Vec<(Key, Vec<u8>)>| spec_entries_view(b@)) + rest, end),
                ),
            },
        decreases s_len - pos,
    {
        let ghost done = out@.map_values(|b: Vec<(Key, Vec<u8>)>| spec_entries_view(b@));
        if s_len - pos < 4 {
            proof {
                assert(spec_wal_replay(s@, pos as int) == Some(
                    (Seq::<Seq<WalEntryView>>::empty(), pos as int),
                ));
                assert(done + Seq::<Seq<WalEntryView>>::empty() =~= done);
            }
            return Ok((out, pos));
        }
        let plen = get_u32_be(s, pos) as usize;
        if s_len - pos - 4 < plen || s_len - pos - 4 - plen < 4 {
            proof {
                assert(spec_wal_replay(s@, pos as int) == Some(
                    (Seq::<Seq<WalEntryView>>::empty(), pos as int),
                ));
                assert(done + Seq::<Seq<WalEntryView>>::empty() =~= done);
            }
            return Ok((out, pos));
        }
        let payload = vstd::slice::slice_subrange(s, pos + 4, pos + 4 + plen);
        let stored = get_u32_be(s, pos + 4 + plen);
        let computed = crc32_hash(payload);
        if stored != computed {
            return Err(Error::corruption("wal record: checksum mismatched"));
        }
        let batch = match parse_payload(payload) {
            Ok(b) => b,
            Err(e) => {
                return Err(e);
            },
        };
        let ghost bv = spec_wal_payload_parse(payload@, 0)->Some_0;
        out.push(batch);
        pos = pos + 8 + plen;
        proof {
            assert(out@.map_values(|b: Vec<(Key, Vec<u8>)>| spec_entries_view(b@)) =~= done.push(
                bv,
            ));
            match spec_wal_replay(s@, pos as int) {
                None => {},
                Some((rest, end)) => {
                    assert(done + (seq![bv] + rest) =~= done.push(bv) + rest);
                },
            }
        }
    }
}

/// Appending one batch extends the log by exactly that batch's record.
pub proof fn lemma_wal_log_push(batches: Seq<Seq<WalEntryView>>, b: Seq<WalEntryView>)
    ensures
        spec_wal_log(batches.push(b)) == spec_wal_log(batches) + spec_wal_record_encode(b),
    decreases batches.len(),
{
    if batches.len() == 0 {
        assert(batches.push(b)[0] == b);
        assert(batches.push(b).drop_first() =~= Seq::<Seq<WalEntryView>>::empty());
        assert(spec_wal_log(Seq::<Seq<WalEntryView>>::empty()) =~= Seq::<u8>::empty());
        assert(spec_wal_log(batches.push(b)) =~= spec_wal_record_encode(b));
        assert(spec_wal_log(batches) + spec_wal_record_encode(b) =~= spec_wal_record_encode(b));
    } else {
        lemma_wal_log_push(batches.drop_first(), b);
        assert(batches.push(b).drop_first() =~= batches.drop_first().push(b));
        assert(batches.push(b)[0] == batches[0]);
        assert(spec_wal_log(batches.push(b)) =~= spec_wal_log(batches) + spec_wal_record_encode(
            b,
        ));
    }
}

/// One record embedded at `pos` parses back to its batch, and replay
/// continues after it.
proof fn lemma_wal_payload_parse_embedded(p: Seq<u8>, pos: int, entries: Seq<WalEntryView>)
    requires
        forall|i: int| 0 <= i < entries.len() ==> spec_wal_entry_wf(#[trigger] entries[i]),
        0 <= pos <= p.len(),
        p.subrange(pos, p.len() as int) == spec_wal_payload(entries),
    ensures
        spec_wal_payload_parse(p, pos) == Some(entries),
    decreases entries.len(),
{
    lemma_int_codecs_round_trip();
    if entries.len() == 0 {
        assert(spec_wal_payload(entries) =~= Seq::<u8>::empty());
        assert(p.subrange(pos, p.len() as int).len() == p.len() - pos);
        assert(pos == p.len());
    } else {
        let e = entries[0];
        let enc = spec_wal_entry_encode(e);
        let klen = e.0.0.len() as int;
        let vlen = e.1.len() as int;
        let rest_bytes = spec_wal_payload(entries.drop_first());
        assert(spec_wal_payload(entries) == enc + rest_bytes);
        assert(enc.len() == 12 + klen + vlen);
        assert(p.len() - pos == enc.len() + rest_bytes.len());
        let sub = p.subrange(pos, p.len() as int);
        assert forall|a: int, b: int| 0 <= a && a <= b && b <= sub.len() implies p.subrange(
            pos + a,
            pos + b,
        ) =~= sub.subrange(a, b) by {}
        assert(p.subrange(pos, pos + 2) =~= sub.subrange(0, 2));
        assert(sub.subrange(0, 2) =~= spec_u16_to_be_bytes(e.0.0.len() as u16));
        assert(spec_u16_from_be_bytes(p.subrange(pos, pos + 2)) == e.0.0.len() as u16);
        assert(p.subrange(pos + 2, pos + 2 + klen) =~= sub.subrange(2, 2 + klen));
        assert(sub.subrange(2, 2 + klen) =~= e.0.0);
        assert(p.subrange(pos + 2 + klen, pos + 10 + klen) =~= sub.subrange(2 + klen, 10 + klen));
        assert(sub.subrange(2 + klen, 10 + klen) =~= spec_u64_to_le_bytes(e.0.1));
        assert(p.subrange(pos + 10 + klen, pos + 12 + klen) =~= sub.subrange(
            10 + klen,
            12 + klen,
        ));
        assert(sub.subrange(10 + klen, 12 + klen) =~= spec_u16_to_be_bytes(e.1.len() as u16));
        assert(p.subrange(pos + 12 + klen, pos + 12 + klen + vlen) =~= sub.subrange(
            12 + klen,
            12 + klen + vlen,
        ));
        assert(sub.subrange(12 + klen, 12 + klen + vlen) =~= e.1);
        assert(p.subrange(pos + 12 + klen + vlen, p.len() as int) =~= sub.subrange(
            12 + klen + vlen,
            sub.len() as int,
        ));
        assert(sub.subrange(12 + klen + vlen, sub.len() as int) =~= rest_bytes);
        lemma_wal_payload_parse_embedded(p, pos + 12 + klen + vlen, entries.drop_first());
        assert(seq![e] + entries.drop_first() =~= entries);
    }
}

/// Law: replaying a log of encoded batches, possibly followed by a
/// truncated tail too short to frame a record, yields exactly those
/// batches in order, stopping at the tail.
pub proof fn lemma_wal_round_trip(s: Seq<u8>, pos: int, batches: Seq<Seq<WalEntryView>>,
    tail: Seq<u8>)
    requires
        spec_wal_batches_wf(batches),
        tail.len() < 8,
        0 <= pos <= s.len(),
        s.subrange(pos, s.len() as int) == spec_wal_log(batches) + tail,
    ensures
        spec_wal_replay(s, pos) == Some((batches, s.len() - tail.len())),
    decreases batches.len(),
{
    lemma_int_codecs_round_trip();
    let sub = s.subrange(pos, s.len() as int);
    if batches.len() == 0 {
        assert(sub =~= tail);
        if pos + 4 > s.len() {
        } else {
            let plen = spec_u32_from_be_bytes(s.subrange(pos, pos + 4)) as int;
            assert(pos + 8 + plen > s.len());
        }
    } else {
        let b = batches[0];
        let p = spec_wal_payload(b);
        let rec = spec_wal_record_encode(b);
        let rest_log = spec_wal_log(batches.drop_first());
        assert(spec_wal_log(batches) == rec + rest_log);
        assert(rec.len() == 8 + p.len());
        assert forall|a2: int, b2: int| 0 <= a2 && a2 <= b2 && b2 <= sub.len() implies s.subrange(
            pos + a2,
            pos + b2,
        ) =~= sub.subrange(a2, b2) by {}
        assert(s.subrange(pos, pos + 4) =~= sub.subrange(0, 4));
        assert(sub.subrange(0, 4) =~= spec_u32_to_be_bytes(p.len() as u32));
        let plen = p.len() as int;
        assert(spec_u32_from_be_bytes(s.subrange(pos, pos + 4)) == p.len() as u32);
        assert(pos + 8 + plen <= s.len());
        assert(s.subrange(pos + 4, pos + 4 + plen) =~= sub.subrange(4, 4 + plen));
        assert(sub.subrange(4, 4 + plen) =~= p);
        assert(s.subrange(pos + 4 + plen, pos + 8 + plen) =~= sub.subrange(4 + plen, 8 + plen));
        assert(sub.subrange(4 + plen, 8 + plen) =~= spec_u32_to_be_bytes(crc32_of(p)));
        assert(p.subrange(0, p.len() as int) =~= p);
        lemma_wal_payload_parse_embedded(p, 0, b);
        assert(s.subrange(pos + 8 + plen, s.len() as int) =~= sub.subrange(
            8 + plen,
            sub.len() as int,
        ));
        assert(sub.subrange(8 + plen, sub.len() as int) =~= rest_log + tail);
        lemma_wal_round_trip(s, pos + 8 + plen, batches.drop_first(), tail);
        assert(seq![b] + batches.drop_first() =~= batches);
    }
}

} // verus!
