//! The manifest: a crash-safe journal of structural events, replayed at
//! startup to rebuild engine state.
//!
//! Each record is framed as a big-endian `u64` payload length, a
//! self-describing payload, and the big-endian CRC-32 of the payload.
//! The payload starts with a tag byte, then little-endian integers.
//! Recovery truncates the tail at the first corrupt record and reports
//! that it did so; it never fails.

use vstd::prelude::*;

verus! {

use vstd::bytes::{spec_u64_to_le_bytes, spec_u64_from_le_bytes};
use crate::codec::{
    spec_u32_to_be_bytes, spec_u32_from_be_bytes, spec_u64_to_be_bytes, spec_u64_from_be_bytes,
    put_u64_le, put_u64_be, put_u32_be, put_bytes, get_u64_le, get_u64_be, get_u32_be,
    lemma_int_codecs_round_trip,
};
use crate::checksum::{crc32_of, crc32_hash};
use crate::errors::Error;

/// What a compaction consumed; the manifest records it next to the SSTs
/// it produced.
#[derive(Debug)]
pub struct CompactionTask {
    pub input_sst_ids: Vec<u64>,
}

/// One structural event.
#[derive(Debug)]
pub enum ManifestRecord {
    /// A new memtable with this id was installed.
    NewMemtable(u64),
    /// The memtable with this id was flushed to the SST with the same id.
    Flush(u64),
    /// A compaction consumed the task's inputs and produced these SSTs.
    Compaction(CompactionTask, Vec<u64>),
}

/// A record as specifications see it.
pub enum ManifestRecordView {
    NewMemtable(u64),
    Flush(u64),
    Compaction(Seq<u64>, Seq<u64>),
}

impl View for ManifestRecord {
    type V = ManifestRecordView;

    open spec fn view(&self) -> ManifestRecordView {
        match self {
            ManifestRecord::NewMemtable(id) => ManifestRecordView::NewMemtable(*id),
            ManifestRecord::Flush(id) => ManifestRecordView::Flush(*id),
            ManifestRecord::Compaction(task, outs) => ManifestRecordView::Compaction(
                task.input_sst_ids@,
                outs@,
            ),
        }
    }
}

/// A run of little-endian `u64` values.
pub open spec fn spec_u64s_bytes(xs: Seq<u64>) -> Seq<u8>
    decreases xs.len(),
{
    if xs.len() == 0 {
        Seq::empty()
    } else {
        spec_u64_to_le_bytes(xs[0]) + spec_u64s_bytes(xs.drop_first())
    }
}

proof fn lemma_u64s_bytes_len(xs: Seq<u64>)
    ensures
        spec_u64s_bytes(xs).len() == 8 * xs.len(),
    decreases xs.len(),
{
    lemma_int_codecs_round_trip();
    if xs.len() > 0 {
        lemma_u64s_bytes_len(xs.drop_first());
    }
}

proof fn lemma_u64s_bytes_push(xs: Seq<u64>, x: u64)
    ensures
        spec_u64s_bytes(xs.push(x)) == spec_u64s_bytes(xs) + spec_u64_to_le_bytes(x),
    decreases xs.len(),
{
    if xs.len() == 0 {
        assert(xs.push(x)[0] == x);
        assert(xs.push(x).drop_first() =~= Seq::<u64>::empty());
        assert(spec_u64s_bytes(Seq::<u64>::empty()) =~= Seq::<u8>::empty());
        assert(spec_u64s_bytes(xs.push(x)) =~= spec_u64_to_le_bytes(x));
        assert(spec_u64s_bytes(xs) + spec_u64_to_le_bytes(x) =~= spec_u64_to_le_bytes(x));
    } else {
        lemma_u64s_bytes_push(xs.drop_first(), x);
        assert(xs.push(x).drop_first() =~= xs.drop_first().push(x));
        assert(xs.push(x)[0] == xs[0]);
        assert(spec_u64s_bytes(xs.push(x)) =~= spec_u64s_bytes(xs) + spec_u64_to_le_bytes(x));
    }
}

/// Reads `n` little-endian `u64` values starting at `pos`.
pub open spec fn spec_u64s_at(p: Seq<u8>, pos: int, n: int) -> Seq<u64>
    decreases n,
{
    if n <= 0 {
        Seq::empty()
    } else {
        seq![spec_u64_from_le_bytes(p.subrange(pos, pos + 8))] + spec_u64s_at(p, pos + 8, n - 1)
    }
}

proof fn lemma_u64s_at_snoc(p: Seq<u8>, pos: int, n: int)
    requires
        n >= 0,
    ensures
        spec_u64s_at(p, pos, n + 1) == spec_u64s_at(p, pos, n).push(
            spec_u64_from_le_bytes(p.subrange(pos + 8 * n, pos + 8 * n + 8)),
        ),
    decreases n,
{
    if n == 0 {
        assert(spec_u64s_at(p, pos + 8, 0) =~= Seq::<u64>::empty());
        assert(spec_u64s_at(p, pos, 1) =~= Seq::<u64>::empty().push(
            spec_u64_from_le_bytes(p.subrange(pos, pos + 8)),
        ));
    } else {
        lemma_u64s_at_snoc(p, pos + 8, n - 1);
        assert(spec_u64s_at(p, pos, n + 1) =~= spec_u64s_at(p, pos, n).push(
            spec_u64_from_le_bytes(p.subrange(pos + 8 * n, pos + 8 * n + 8)),
        ));
    }
}

proof fn lemma_u64s_at_embedded(p: Seq<u8>, pos: int, xs: Seq<u64>)
    requires
        0 <= pos,
        pos + 8 * xs.len() <= p.len(),
        p.subrange(pos, pos + 8 * xs.len()) == spec_u64s_bytes(xs),
    ensures
        spec_u64s_at(p, pos, xs.len() as int) == xs,
    decreases xs.len(),
{
    lemma_int_codecs_round_trip();
    lemma_u64s_bytes_len(xs);
    if xs.len() > 0 {
        let all = spec_u64s_bytes(xs);
        lemma_u64s_bytes_len(xs.drop_first());
        assert(p.subrange(pos, pos + 8) =~= all.subrange(0, 8));
        assert(all.subrange(0, 8) =~= spec_u64_to_le_bytes(xs[0]));
        assert(p.subrange(pos + 8, pos + 8 * xs.len()) =~= all.subrange(8, all.len() as int));
        assert(all.subrange(8, all.len() as int) =~= spec_u64s_bytes(xs.drop_first()));
        lemma_u64s_at_embedded(p, pos + 8, xs.drop_first());
        assert(spec_u64s_at(p, pos, xs.len() as int) =~= xs);
    } else {
        assert(spec_u64s_at(p, pos, 0) =~= xs);
    }
}

pub const TAG_NEW_MEMTABLE: u8 = 1;

pub const TAG_FLUSH: u8 = 2;

pub const TAG_COMPACTION: u8 = 3;

/// Exact byte shape of one record payload.
pub open spec fn spec_manifest_payload(r: ManifestRecordView) -> Seq<u8> {
    match r {
        ManifestRecordView::NewMemtable(id) => seq![TAG_NEW_MEMTABLE] + spec_u64_to_le_bytes(id),
        ManifestRecordView::Flush(id) => seq![TAG_FLUSH] + spec_u64_to_le_bytes(id),
        ManifestRecordView::Compaction(ins, outs) => seq![TAG_COMPACTION] + spec_u64_to_le_bytes(
            ins.len() as u64,
        ) + spec_u64s_bytes(ins) + spec_u64_to_le_bytes(outs.len() as u64) + spec_u64s_bytes(
            outs,
        ),
    }
}

/// Parses one whole record payload; the payload must fill its bytes
/// exactly.
pub open spec fn spec_manifest_payload_parse(p: Seq<u8>) -> Option<ManifestRecordView> {
    if p.len() < 1 {
        None
    } else if p[0] == TAG_NEW_MEMTABLE {
        if p.len() == 9 {
            Some(ManifestRecordView::NewMemtable(spec_u64_from_le_bytes(p.subrange(1, 9))))
        } else {
            None
        }
    } else if p[0] == TAG_FLUSH {
        if p.len() == 9 {
            Some(ManifestRecordView::Flush(spec_u64_from_le_bytes(p.subrange(1, 9))))
        } else {
            None
        }
    } else if p[0] == TAG_COMPACTION {
        if p.len() < 9 {
            None
        } else {
            let n1 = spec_u64_from_le_bytes(p.subrange(1, 9)) as int;
            if 9 + 8 * n1 + 8 > p.len() {
                None
            } else {
                let ins = spec_u64s_at(p, 9, n1);
                let off = 9 + 8 * n1;
                let n2 = spec_u64_from_le_bytes(p.subrange(off, off + 8)) as int;
                if off + 8 + 8 * n2 != p.len() {
                    None
                } else {
                    Some(ManifestRecordView::Compaction(ins, spec_u64s_at(p, off + 8, n2)))
                }
            }
        }
    } else {
        None
    }
}

/// Law: a record payload parses back to the record.
pub proof fn lemma_manifest_payload_round_trip(r: ManifestRecordView)
    requires
        r matches ManifestRecordView::Compaction(ins, outs) ==> ins.len() <= u64::MAX
            && outs.len() <= u64::MAX,
    ensures
        spec_manifest_payload_parse(spec_manifest_payload(r)) == Some(r),
{
    lemma_int_codecs_round_trip();
    let p = spec_manifest_payload(r);
    match r {
        ManifestRecordView::NewMemtable(id) => {
            assert(p.len() == 9);
            assert(p[0] == TAG_NEW_MEMTABLE);
            assert(p.subrange(1, 9) =~= spec_u64_to_le_bytes(id));
        },
        ManifestRecordView::Flush(id) => {
            assert(p.len() == 9);
            assert(p[0] == TAG_FLUSH);
            assert(p.subrange(1, 9) =~= spec_u64_to_le_bytes(id));
        },
        ManifestRecordView::Compaction(ins, outs) => {
            lemma_u64s_bytes_len(ins);
            lemma_u64s_bytes_len(outs);
            let n1 = ins.len() as int;
            let n2 = outs.len() as int;
            assert(p.len() == 9 + 8 * n1 + 8 + 8 * n2);
            assert(p[0] == TAG_COMPACTION);
            assert(p.subrange(1, 9) =~= spec_u64_to_le_bytes(ins.len() as u64));
            assert(spec_u64_from_le_bytes(p.subrange(1, 9)) == ins.len() as u64);
            assert(p.subrange(9, 9 + 8 * n1) =~= spec_u64s_bytes(ins));
            lemma_u64s_at_embedded(p, 9, ins);
            let off = 9 + 8 * n1;
            assert(p.subrange(off, off + 8) =~= spec_u64_to_le_bytes(outs.len() as u64));
            assert(p.subrange(off + 8, off + 8 + 8 * n2) =~= spec_u64s_bytes(outs));
            lemma_u64s_at_embedded(p, off + 8, outs);
        },
    }
}

/// A record the frame's `u64` length header can describe.
pub open spec fn spec_manifest_record_wf(r: ManifestRecordView) -> bool {
    &&& spec_manifest_payload(r).len() <= u64::MAX
    &&& (r matches ManifestRecordView::Compaction(ins, outs) ==> ins.len() <= u64::MAX
        && outs.len() <= u64::MAX)
}

/// One framed record: length, payload, CRC of the payload.
pub open spec fn spec_manifest_record_encode(r: ManifestRecordView) -> Seq<u8> {
    let p = spec_manifest_payload(r);
    spec_u64_to_be_bytes(p.len() as u64) + p + spec_u32_to_be_bytes(crc32_of(p))
}

/// A whole manifest: the records one after another.
pub open spec fn spec_manifest_log(records: Seq<ManifestRecordView>) -> Seq<u8>
    decreases records.len(),
{
    if records.len() == 0 {
        Seq::empty()
    } else {
        spec_manifest_record_encode(records[0]) + spec_manifest_log(records.drop_first())
    }
}

/// Recovery from `pos`: the records of every complete, checksummed,
/// decodable record, where reading stopped, and whether it stopped
/// because of a corrupt record (true) rather than a clean or truncated
/// tail (false).
pub open spec fn spec_manifest_recover(s: Seq<u8>, pos: int) -> (Seq<ManifestRecordView>, int,
    bool)
    decreases s.len() - pos,
{
    if pos < 0 || pos + 8 > s.len() {
        (Seq::empty(), pos, false)
    } else {
        let plen = spec_u64_from_be_bytes(s.subrange(pos, pos + 8)) as int;
        if pos + 12 + plen > s.len() {
            (Seq::empty(), pos, false)
        } else {
            let payload = s.subrange(pos + 8, pos + 8 + plen);
            let stored = spec_u32_from_be_bytes(s.subrange(pos + 8 + plen, pos + 12 + plen));
            if stored != crc32_of(payload) {
                (Seq::empty(), pos, true)
            } else {
                match spec_manifest_payload_parse(payload) {
                    None => (Seq::empty(), pos, true),
                    Some(r) => {
                        let (rest, end, corrupt) = spec_manifest_recover(s, pos + 12 + plen);
                        (seq![r] + rest, end, corrupt)
                    },
                }
            }
        }
    }
}

impl ManifestRecord {
    /// Serializes this record's payload (without the frame).
    pub fn encode(&self) -> (r: Vec<u8>)
        ensures
            r@ == spec_manifest_payload(self@),
    {
        let mut buf: Vec<u8> = Vec::new();
        match self {
            ManifestRecord::NewMemtable(id) => {
                buf.push(TAG_NEW_MEMTABLE);
                put_u64_le(&mut buf, *id);
                proof {
                    assert(buf@ =~= spec_manifest_payload(self@));
                }
            },
            ManifestRecord::Flush(id) => {
                buf.push(TAG_FLUSH);
                put_u64_le(&mut buf, *id);
                proof {
                    assert(buf@ =~= spec_manifest_payload(self@));
                }
            },
            ManifestRecord::Compaction(task, outs) => {
                buf.push(TAG_COMPACTION);
                put_u64_le(&mut buf, task.input_sst_ids.len() as u64);
                put_u64s(&mut buf, &task.input_sst_ids);
                put_u64_le(&mut buf, outs.len() as u64);
                put_u64s(&mut buf, outs);
                proof {
                    assert(buf@ =~= spec_manifest_payload(self@));
                }
            },
        }
        buf
    }

    /// Parses one record payload; anything that does not fill its bytes
    /// exactly with a known tag is corruption.
    pub fn decode(p: &[u8]) -> (r: Result<ManifestRecord, Error>)
        ensures
            match spec_manifest_payload_parse(p@) {
                Some(rv) => r matches Ok(rec) && rec@ == rv,
                None => r matches Err(e) && e is Corruption,
            },
    {
        let p_len: usize = p.len();
        if p_len < 1 {
            return Err(Error::corruption("manifest record: empty payload"));
        }
        let tag = *vstd::slice::slice_index_get(p, 0);
        if tag == TAG_NEW_MEMTABLE {
            if p_len != 9 {
                return Err(Error::corruption("manifest record: bad length"));
            }
            Ok(ManifestRecord::NewMemtable(get_u64_le(p, 1)))
        } else if tag == TAG_FLUSH {
            if p_len != 9 {
                return Err(Error::corruption("manifest record: bad length"));
            }
            Ok(ManifestRecord::Flush(get_u64_le(p, 1)))
        } else if tag == TAG_COMPACTION {
            if p_len < 9 {
                return Err(Error::corruption("manifest record: bad length"));
            }
            let n1w = get_u64_le(p, 1);
            if n1w > (p_len as u64) / 8 {
                proof {
                    assert(9 + 8 * (n1w as int) + 8 > p@.len());
                }
                return Err(Error::corruption("manifest record: bad input count"));
            }
            let n1 = n1w as usize;
            if p_len - 9 < 8 * n1 || p_len - 9 - 8 * n1 < 8 {
                return Err(Error::corruption("manifest record: truncated inputs"));
            }
            let ins = get_u64s(p, 9, n1);
            let off = 9 + 8 * n1;
            let n2w = get_u64_le(p, off);
            if n2w > (p_len as u64) / 8 {
                proof {
                    assert(off + 8 + 8 * (n2w as int) != p@.len());
                }
                return Err(Error::corruption("manifest record: bad output count"));
            }
            let n2 = n2w as usize;
            if p_len - off - 8 != 8 * n2 {
                return Err(Error::corruption("manifest record: truncated outputs"));
            }
            let outs = get_u64s(p, off + 8, n2);
            Ok(ManifestRecord::Compaction(CompactionTask { input_sst_ids: ins }, outs))
        } else {
            Err(Error::corruption("manifest record: unknown tag"))
        }
    }

    /// Serializes this record with its frame: length, payload, CRC.
    pub fn encode_framed(&self) -> (r: Vec<u8>)
        ensures
            r@ == spec_manifest_record_encode(self@),
    {
        let payload = self.encode();
        let mut out: Vec<u8> = Vec::new();
        put_u64_be(&mut out, payload.len() as u64);
        let crc = crc32_hash(payload.as_slice());
        put_bytes(&mut out, payload.as_slice());
        put_u32_be(&mut out, crc);
        proof {
            assert(out@ =~= spec_manifest_record_encode(self@));
        }
        out
    }
}

fn put_u64s(buf: &mut Vec<u8>, xs: &Vec<u64>)
    ensures
        final(buf)@ == old(buf)@ + spec_u64s_bytes(xs@),
{
    let n = xs.len();
    let mut i: usize = 0;
    proof {
        assert(spec_u64s_bytes(xs@.take(0)) =~= Seq::<u8>::empty());
        assert(buf@ =~= old(buf)@ + spec_u64s_bytes(xs@.take(0)));
    }
    while i < n
        invariant
            i <= n,
            n == xs@.len(),
            buf@ == old(buf)@ + spec_u64s_bytes(xs@.take(i as int)),
        decreases n - i,
    {
        put_u64_le(buf, xs[i]);
        proof {
            lemma_u64s_bytes_push(xs@.take(i as int), xs@[i as int]);
            assert(xs@.take(i + 1) =~= xs@.take(i as int).push(xs@[i as int]));
        }
        i = i + 1;
    }
    proof {
        assert(xs@.take(n as int) =~= xs@);
    }
}

fn get_u64s(p: &[u8], pos: usize, n: usize) -> (r: Vec<u64>)
    requires
        pos + 8 * n <= p@.len(),
    ensures
        r@ == spec_u64s_at(p@, pos as int, n as int),
{
    let p_len: usize = p.len();
    let mut out: Vec<u64> = Vec::new();
    let mut i: usize = 0;
    proof {
        assert(out@ =~= spec_u64s_at(p@, pos as int, 0));
    }
    while i < n
        invariant
            i <= n,
            p_len == p@.len(),
            pos + 8 * n <= p@.len(),
            out@ == spec_u64s_at(p@, pos as int, i as int),
        decreases n - i,
    {
        let x = get_u64_le(p, pos + 8 * i);
        out.push(x);
        proof {
            lemma_u64s_at_snoc(p@, pos as int, i as int);
        }
        i = i + 1;
    }
    out
}

/// Replays a whole manifest. Returns the records of every complete,
/// checksummed, decodable record in order, the byte offset where reading
/// stopped, and whether it stopped at a corrupt record (the tail past it
/// is dropped) rather than at a clean or truncated end.
pub fn recover_records(s: &[u8]) -> (r: (Vec<ManifestRecord>, usize, bool))
    ensures
        ({
            let (records, end, corrupt) = spec_manifest_recover(s@, 0);
            &&& r.0@.map_values(|m: ManifestRecord| m@) == records
            &&& r.1 == end
            &&& r.2 == corrupt
        }),
{
    let s_len: usize = s.len();
    let mut out: Vec<ManifestRecord> = Vec::new();
    let mut pos: usize = 0;
    loop
        invariant
            pos <= s_len,
            s_len == s@.len(),
            ({
                let (records, end, corrupt) = spec_manifest_recover(s@, 0);
                let (rest, rend, rcorrupt) = spec_manifest_recover(s@, pos as int);
                &&& records == out@.map_values(|m: ManifestRecord| m@) + rest
                &&& end == rend
                &&& corrupt == rcorrupt
            }),
        decreases s_len - pos,
    {
        let ghost done = out@.map_values(|m: ManifestRecord| m@);
        if s_len - pos < 8 {
            proof {
                assert(done + Seq::<ManifestRecordView>::empty() =~= done);
            }
            return (out, pos, false);
        }
        let plenw = get_u64_be(s, pos);
        if plenw > ((s_len - pos) as u64) {
            proof {
                assert(pos + 12 + (plenw as int) > s@.len());
                assert(done + Seq::<ManifestRecordView>::empty() =~= done);
            }
            return (out, pos, false);
        }
        let plen = plenw as usize;
        if s_len - pos - 8 < plen || s_len - pos - 8 - plen < 4 {
            proof {
                assert(done + Seq::<ManifestRecordView>::empty() =~= done);
            }
            return (out, pos, false);
        }
        let payload = vstd::slice::slice_subrange(s, pos + 8, pos + 8 + plen);
        let stored = get_u32_be(s, pos + 8 + plen);
        let computed = crc32_hash(payload);
        if stored != computed {
            proof {
                assert(done + Seq::<ManifestRecordView>::empty() =~= done);
            }
            return (out, pos, true);
        }
        let rec = match ManifestRecord::decode(payload) {
            Ok(rec) => rec,
            Err(_) => {
                proof {
                    assert(done + Seq::<ManifestRecordView>::empty() =~= done);
                }
                return (out, pos, true);
            },
        };
        let ghost rv = rec@;
        out.push(rec);
        pos = pos + 12 + plen;
        proof {
            assert(out@.map_values(|m: ManifestRecord| m@) =~= done.push(rv));
            let (rest, rend, rcorrupt) = spec_manifest_recover(s@, pos as int);
            assert(done + (seq![rv] + rest) =~= done.push(rv) + rest);
        }
    }
}

/// Law: recovering a manifest made of encoded records, possibly followed
/// by a tail too short to frame a record, yields exactly those records in
/// order, cleanly.
pub proof fn lemma_manifest_round_trip(s: Seq<u8>, pos: int, records: Seq<ManifestRecordView>,
    tail: Seq<u8>)
    requires
        forall|i: int| 0 <= i < records.len() ==> spec_manifest_record_wf(#[trigger] records[i]),
        tail.len() < 12,
        0 <= pos <= s.len(),
        s.subrange(pos, s.len() as int) == spec_manifest_log(records) + tail,
    ensures
        spec_manifest_recover(s, pos) == (records, s.len() - tail.len(), false),
    decreases records.len(),
{
    lemma_int_codecs_round_trip();
    let sub = s.subrange(pos, s.len() as int);
    if records.len() == 0 {
        assert(spec_manifest_log(records) =~= Seq::<u8>::empty());
        assert(sub =~= tail);
        assert(sub.len() == s.len() - pos);
        if pos + 8 > s.len() {
            assert(spec_manifest_recover(s, pos) == (Seq::<ManifestRecordView>::empty(), pos,
                false));
        } else {
            let plen = spec_u64_from_be_bytes(s.subrange(pos, pos + 8)) as int;
            assert(pos + 12 + plen > s.len());
            assert(spec_manifest_recover(s, pos) == (Seq::<ManifestRecordView>::empty(), pos,
                false));
        }
        assert(records =~= Seq::<ManifestRecordView>::empty());
        assert(pos == s.len() - tail.len());
    } else {
        let r0 = records[0];
        let p = spec_manifest_payload(r0);
        let rec = spec_manifest_record_encode(r0);
        let rest_log = spec_manifest_log(records.drop_first());
        assert(spec_manifest_log(records) == rec + rest_log);
        let plen = p.len() as int;
        assert(rec.len() == 12 + plen);
        assert forall|a2: int, b2: int| 0 <= a2 && a2 <= b2 && b2 <= sub.len() implies s.subrange(
            pos + a2,
            pos + b2,
        ) =~= sub.subrange(a2, b2) by {}
        assert(s.subrange(pos, pos + 8) =~= sub.subrange(0, 8));
        assert(sub.subrange(0, 8) =~= spec_u64_to_be_bytes(p.len() as u64));
        assert(spec_u64_from_be_bytes(s.subrange(pos, pos + 8)) == p.len() as u64);
        assert(pos + 12 + plen <= s.len());
        assert(s.subrange(pos + 8, pos + 8 + plen) =~= sub.subrange(8, 8 + plen));
        assert(sub.subrange(8, 8 + plen) =~= p);
        assert(s.subrange(pos + 8 + plen, pos + 12 + plen) =~= sub.subrange(8 + plen, 12 + plen));
        assert(sub.subrange(8 + plen, 12 + plen) =~= spec_u32_to_be_bytes(crc32_of(p)));
        lemma_manifest_payload_round_trip(r0);
        assert(s.subrange(pos + 12 + plen, s.len() as int) =~= sub.subrange(
            12 + plen,
            sub.len() as int,
        ));
        assert(sub.subrange(12 + plen, sub.len() as int) =~= rest_log + tail);
        lemma_manifest_round_trip(s, pos + 12 + plen, records.drop_first(), tail);
        assert(seq![r0] + records.drop_first() =~= records);
    }
}

} // verus!
