//! The snapshot codec: a binary format that persists a whole key space and
//! reads it back.
//!
//! Layout: the magic `REDIS`, a big-endian version word, a metadata section
//! ended by the sentinel byte `0xFE`, a database marker `0xFB` followed by
//! two size-hint bytes, then one record per key — a tag byte (`0x00` no
//! expiry, `0xFC` millisecond deadline, `0xFD` second deadline), the deadline
//! bytes plus one reserved byte when present, and the key and value each as
//! a one-byte length followed by the raw bytes — and the terminator `0xFF`.
//!
//! The reader stops on any structural violation and hands back the records
//! decoded so far together with an error; the writer rejects a key space
//! with a key or value longer than 255 bytes, which the one-byte length
//! prefix cannot carry.

use vstd::prelude::*;
use vstd::bytes::{
    spec_u32_from_le_bytes, spec_u64_from_le_bytes, spec_u64_to_le_bytes,
    lemma_auto_spec_u64_to_from_le_bytes, u32_from_le_bytes, u64_from_le_bytes, u64_to_le_bytes,
};
use crate::resp::{copy_range, push_bytes, suffix};
use crate::storage::{pair_views, Value, ValueModel};

verus! {

/// A corrupt or truncated snapshot: bad magic, a short buffer, an unknown
/// record tag, or a string cut off by the end of the data.
#[derive(Clone, Copy, Debug, PartialEq, Eq, Structural)]
pub struct SnapshotFormatError;

/// The parsed leading section of a snapshot.
#[derive(Debug)]
pub struct RdbHeader {
    pub version: u32,
}

/// One parsed record: a key, its value, and an optional absolute expiry
/// deadline in milliseconds.
#[derive(Debug)]
pub struct RdbEntry {
    pub key: Vec<u8>,
    pub value: Vec<u8>,
    pub expiry: Option<u64>,
}

pub const META_END: u8 = 254;
pub const DB_START: u8 = 251;
pub const RECORDS_END: u8 = 255;
pub const TAG_PLAIN: u8 = 0;
pub const TAG_EXPIRY_MS: u8 = 252;
pub const TAG_EXPIRY_S: u8 = 253;

/// The five magic bytes `REDIS`.
pub open spec fn magic() -> Seq<u8> {
    seq![82u8, 69u8, 68u8, 73u8, 83u8]
}

/// The version this writer stamps into new snapshots.
pub const RDB_VERSION: u32 = 9;

/// A big-endian word from four bytes.
pub open spec fn be_u32(b: Seq<u8>) -> u32
    recommends
        b.len() == 4,
{
    (b[0] as u32) << 24 | (b[1] as u32) << 16 | (b[2] as u32) << 8 | (b[3] as u32)
}

/// Parses the magic and version at the front of `b`; consumes nine bytes.
pub open spec fn spec_parse_header(b: Seq<u8>) -> Option<(u32, int)> {
    if b.len() >= 9 && b.subrange(0, 5) == magic() {
        Some((be_u32(b.subrange(5, 9)), 9))
    } else {
        None
    }
}

/// The number of bytes up to and including the first `marker` byte, if one
/// occurs.
pub open spec fn spec_scan_to(b: Seq<u8>, marker: u8) -> Option<int>
    decreases b.len(),
{
    if b.len() == 0 {
        None
    } else if b[0] == marker {
        Some(1)
    } else {
        match spec_scan_to(b.drop_first(), marker) {
            Some(c) => Some(1 + c),
            None => None,
        }
    }
}

/// Parses a length-prefixed string at the front of `b`.
pub open spec fn spec_parse_string(b: Seq<u8>) -> Option<(Seq<u8>, int)> {
    if b.len() >= 1 && 1 + (b[0] as int) <= b.len() {
        Some((b.subrange(1, 1 + b[0] as int), 1 + b[0] as int))
    } else {
        None
    }
}

/// Parses a key and a value, each length-prefixed, at the front of `b`.
pub open spec fn spec_parse_pair(b: Seq<u8>) -> Option<(Seq<u8>, Seq<u8>, int)> {
    match spec_parse_string(b) {
        Some((k, c1)) => match spec_parse_string(b.subrange(c1, b.len() as int)) {
            Some((v, c2)) => Some((k, v, c1 + c2)),
            None => None,
        },
        None => None,
    }
}

/// Parses one record at the front of `b`.  `None` is a structural error;
/// `Some((None, c))` is a clean end — the terminator byte, or no bytes at
/// all; `Some((Some(record), c))` is one decoded record of `c` bytes.
pub open spec fn spec_parse_entry(b: Seq<u8>) -> Option<
    (Option<(Seq<u8>, ValueModel)>, int),
> {
    if b.len() == 0 {
        Some((None, 0))
    } else if b[0] == RECORDS_END {
        Some((None, 1))
    } else if b[0] == TAG_PLAIN {
        match spec_parse_pair(b.drop_first()) {
            Some((k, v, c)) => Some(
                (Some((k, ValueModel { value: v, expiry: None })), 1 + c),
            ),
            None => None,
        }
    } else if b[0] == TAG_EXPIRY_MS {
        if b.len() >= 10 {
            let ms = spec_u64_from_le_bytes(b.subrange(1, 9));
            match spec_parse_pair(b.subrange(10, b.len() as int)) {
                Some((k, v, c)) => Some(
                    (Some((k, ValueModel { value: v, expiry: Some(ms) })), 10 + c),
                ),
                None => None,
            }
        } else {
            None
        }
    } else if b[0] == TAG_EXPIRY_S {
        if b.len() >= 6 {
            let ms = (spec_u32_from_le_bytes(b.subrange(1, 5)) * 1000) as u64;
            match spec_parse_pair(b.subrange(6, b.len() as int)) {
                Some((k, v, c)) => Some(
                    (Some((k, ValueModel { value: v, expiry: Some(ms) })), 6 + c),
                ),
                None => None,
            }
        } else {
            None
        }
    } else {
        None
    }
}

/// Parses records until the terminator, the end of the data, or a
/// structural error; the flag reports the error, the records read so far
/// stand either way.  The bound check on the consumed count keeps the
/// recursion well-founded; a decoded record always consumes at least one
/// byte, so the guard never fails on real data.
pub open spec fn spec_parse_entries(b: Seq<u8>) -> (Seq<(Seq<u8>, ValueModel)>, bool)
    decreases b.len(),
{
    match spec_parse_entry(b) {
        None => (Seq::empty(), true),
        Some((None, _)) => (Seq::empty(), false),
        Some((Some(p), c)) => {
            if 1 <= c <= b.len() {
                let rest = spec_parse_entries(b.subrange(c, b.len() as int));
                (seq![p] + rest.0, rest.1)
            } else {
                (Seq::empty(), true)
            }
        }
    }
}

/// Parses a whole snapshot.  No data at all is an empty key space; after
/// the header, the metadata section runs to `0xFE` and the records start
/// after `0xFB` and two hint bytes.
pub open spec fn spec_parse_rdb(b: Seq<u8>) -> (Seq<(Seq<u8>, ValueModel)>, bool) {
    if b.len() == 0 {
        (Seq::empty(), false)
    } else {
        match spec_parse_header(b) {
            None => (Seq::empty(), true),
            Some((_version, _)) => {
                let after = b.subrange(9, b.len() as int);
                match spec_scan_to(after, META_END) {
                    None => (Seq::empty(), true),
                    Some(c1) => {
                        let after2 = after.subrange(c1, after.len() as int);
                        match spec_scan_to(after2, DB_START) {
                            None => (Seq::empty(), true),
                            Some(c2) => {
                                if after2.len() - c2 >= 2 {
                                    spec_parse_entries(
                                        after2.subrange(c2 + 2, after2.len() as int),
                                    )
                                } else {
                                    (Seq::empty(), true)
                                }
                            }
                        }
                    }
                }
            }
        }
    }
}

/// Parses the magic and version at the front of `data`.
pub fn parse_rdb_header(data: &[u8]) -> (r: Result<RdbHeader, SnapshotFormatError>)
    ensures
        match spec_parse_header(data@) {
            Some((v, _)) => (r matches Ok(h) && h.version == v),
            None => r is Err,
        },
{
    if data.len() < 9 {
        return Err(SnapshotFormatError);
    }
    let magic_ok = data[0] == 82 && data[1] == 69 && data[2] == 68 && data[3] == 73 && data[4]
        == 83;
    proof {
        if magic_ok {
            assert(data@.subrange(0, 5) =~= magic());
        } else {
            assert(data@.subrange(0, 5) != magic());
        }
    }
    if !magic_ok {
        return Err(SnapshotFormatError);
    }
    let version = (data[5] as u32) << 24 | (data[6] as u32) << 16 | (data[7] as u32) << 8 | (
    data[8] as u32);
    proof {
        let vb = data@.subrange(5, 9);
        assert(vb[0] == data@[5] && vb[1] == data@[6] && vb[2] == data@[7] && vb[3] == data@[8]);
    }
    Ok(RdbHeader { version })
}

/// The scan distance is to the first occurrence of the marker.
proof fn lemma_scan_to(t: Seq<u8>, marker: u8)
    ensures
        match spec_scan_to(t, marker) {
            Some(c) => 1 <= c <= t.len() && t[c - 1] == marker && forall|m: int|
                0 <= m < c - 1 ==> t[m] != marker,
            None => forall|m: int| 0 <= m < t.len() ==> t[m] != marker,
        },
    decreases t.len(),
{
    if t.len() == 0 {
    } else if t[0] == marker {
    } else {
        lemma_scan_to(t.drop_first(), marker);
        match spec_scan_to(t.drop_first(), marker) {
            Some(c) => {
                assert(t.drop_first()[c - 1] == t[c]);
                assert(forall|m: int| 1 <= m < c ==> t[m] == t.drop_first()[m - 1]);
            }
            None => {
                assert(forall|m: int| 1 <= m < t.len() ==> t[m] == t.drop_first()[m - 1]);
            }
        }
    }
}

/// Scans forward from `i` for the byte `marker`, returning the position
/// just past it.
fn scan_to(data: &[u8], i: usize, marker: u8) -> (r: Option<usize>)
    requires
        i <= data@.len(),
    ensures
        match spec_scan_to(suffix(data@, i as int), marker) {
            Some(c) => (r matches Some(next) && next == i + c && next <= data@.len()),
            None => r is None,
        },
{
    let mut j = i;
    while j < data.len()
        invariant
            i <= j <= data@.len(),
            forall|m: int| i <= m < j ==> data@[m] != marker,
        decreases data@.len() - j,
    {
        if data[j] == marker {
            proof {
                let t = suffix(data@, i as int);
                lemma_scan_to(t, marker);
                assert(forall|m: int| 0 <= m < t.len() ==> t[m] == data@[i + m]);
                match spec_scan_to(t, marker) {
                    Some(c) => {
                        if c - 1 < j - i {
                            assert(t[c - 1] == data@[i + c - 1]);
                        } else if c - 1 > j - i {
                            assert(t[j - i] != marker);
                        }
                    }
                    None => {
                        assert(t[j - i] == marker);
                    }
                }
            }
            return Some(j + 1);
        }
        j = j + 1;
    }
    proof {
        let t = suffix(data@, i as int);
        lemma_scan_to(t, marker);
        assert(forall|m: int| 0 <= m < t.len() ==> t[m] == data@[i + m]);
        if spec_scan_to(t, marker) is Some {
            let c = spec_scan_to(t, marker).unwrap();
            assert(t[c - 1] == data@[i + c - 1]);
        }
    }
    None
}

/// Parses a length-prefixed string starting at `pos`.
fn parse_rdb_string(data: &[u8], pos: usize) -> (r: Option<(Vec<u8>, usize)>)
    requires
        pos <= data@.len(),
    ensures
        match spec_parse_string(suffix(data@, pos as int)) {
            Some((t, c)) => (r matches Some((v, next)) && v@ == t && next == pos + c),
            None => r is None,
        },
{
    let ghost t = suffix(data@, pos as int);
    if pos >= data.len() {
        return None;
    }
    proof {
        assert(t[0] == data@[pos as int]);
    }
    let n = data[pos] as usize;
    if data.len() - pos - 1 < n {
        return None;
    }
    let v = copy_range(data, pos + 1, pos + 1 + n);
    proof {
        assert(t.subrange(1, 1 + n) =~= data@.subrange(pos + 1, pos + 1 + n));
    }
    Some((v, pos + 1 + n))
}

/// Parses one record starting at `pos`: a decoded record, a clean end, or a
/// structural error; also returns the position just past what was read.
pub fn parse_rdb_entry(data: &[u8], pos: usize) -> (r: (
    Result<Option<RdbEntry>, SnapshotFormatError>,
    usize,
))
    requires
        pos <= data@.len(),
    ensures
        match spec_parse_entry(suffix(data@, pos as int)) {
            None => r.0 is Err,
            Some((step, c)) => {
                &&& pos + c == r.1 <= data@.len()
                &&& match step {
                    None => r.0 is Ok && r.0.unwrap() is None,
                    Some(p) => {
                        &&& r.0 matches Ok(e)
                        &&& e matches Some(entry)
                        &&& entry.key@ == p.0
                        &&& entry.value@ == p.1.value
                        &&& entry.expiry == p.1.expiry
                        &&& c >= 1
                    },
                }
            },
        },
{
    let ghost t = suffix(data@, pos as int);
    if pos >= data.len() {
        return (Ok(None), pos);
    }
    proof {
        assert(t[0] == data@[pos as int]);
    }
    let tag = data[pos];
    if tag == RECORDS_END {
        return (Ok(None), pos + 1);
    }
    if tag == TAG_PLAIN {
        proof {
            assert(t.drop_first() =~= suffix(data@, pos + 1));
            let u = t.drop_first();
            if spec_parse_string(u) is Some {
                let c1 = spec_parse_string(u).unwrap().1;
                assert(u.subrange(c1, u.len() as int) =~= suffix(data@, pos + 1 + c1));
            }
        }
        match parse_rdb_string(data, pos + 1) {
            Some((key, next)) => match parse_rdb_string(data, next) {
                Some((value, next2)) => (
                    Ok(Some(RdbEntry { key, value, expiry: None })),
                    next2,
                ),
                None => (Err(SnapshotFormatError), pos),
            },
            None => (Err(SnapshotFormatError), pos),
        }
    } else if tag == TAG_EXPIRY_MS {
        if data.len() - pos < 10 {
            return (Err(SnapshotFormatError), pos);
        }
        let raw = copy_range(data, pos + 1, pos + 9);
        proof {
            assert(raw@ =~= t.subrange(1, 9));
        }
        let ms = u64_from_le_bytes(raw.as_slice());
        proof {
            assert(t.subrange(10, t.len() as int) =~= suffix(data@, pos + 10));
            let u = t.subrange(10, t.len() as int);
            if spec_parse_string(u) is Some {
                let c1 = spec_parse_string(u).unwrap().1;
                assert(u.subrange(c1, u.len() as int) =~= suffix(data@, pos + 10 + c1));
            }
        }
        match parse_rdb_string(data, pos + 10) {
            Some((key, next)) => match parse_rdb_string(data, next) {
                Some((value, next2)) => (
                    Ok(Some(RdbEntry { key, value, expiry: Some(ms) })),
                    next2,
                ),
                None => (Err(SnapshotFormatError), pos),
            },
            None => (Err(SnapshotFormatError), pos),
        }
    } else if tag == TAG_EXPIRY_S {
        if data.len() - pos < 6 {
            return (Err(SnapshotFormatError), pos);
        }
        let raw = copy_range(data, pos + 1, pos + 5);
        proof {
            assert(raw@ =~= t.subrange(1, 5));
        }
        let secs = u32_from_le_bytes(raw.as_slice());
        let ms = (secs as u64) * 1000;
        proof {
            assert(t.subrange(6, t.len() as int) =~= suffix(data@, pos + 6));
            let u = t.subrange(6, t.len() as int);
            if spec_parse_string(u) is Some {
                let c1 = spec_parse_string(u).unwrap().1;
                assert(u.subrange(c1, u.len() as int) =~= suffix(data@, pos + 6 + c1));
            }
        }
        match parse_rdb_string(data, pos + 6) {
            Some((key, next)) => match parse_rdb_string(data, next) {
                Some((value, next2)) => (
                    Ok(Some(RdbEntry { key, value, expiry: Some(ms) })),
                    next2,
                ),
                None => (Err(SnapshotFormatError), pos),
            },
            None => (Err(SnapshotFormatError), pos),
        }
    } else {
        (Err(SnapshotFormatError), pos)
    }
}

/// Parses records from `pos` to the terminator or the end of the data,
/// best effort: the records read before any structural error stand.
fn parse_rdb_records(data: &[u8], pos: usize) -> (r: (
    Vec<(Vec<u8>, Value)>,
    Option<SnapshotFormatError>,
))
    requires
        pos <= data@.len(),
    ensures
        pair_views(r.0@) == spec_parse_entries(suffix(data@, pos as int)).0,
        (r.1 is Some) == spec_parse_entries(suffix(data@, pos as int)).1,
{
    let mut acc: Vec<(Vec<u8>, Value)> = Vec::new();
    let mut cur = pos;
    proof {
        assert(pair_views(acc@) + spec_parse_entries(suffix(data@, pos as int)).0
            =~= spec_parse_entries(suffix(data@, pos as int)).0);
    }
    loop
        invariant
            pos <= cur <= data@.len(),
            spec_parse_entries(suffix(data@, pos as int)).0 == pair_views(acc@)
                + spec_parse_entries(suffix(data@, cur as int)).0,
            spec_parse_entries(suffix(data@, pos as int)).1 == spec_parse_entries(
                suffix(data@, cur as int),
            ).1,
        decreases data@.len() - cur,
    {
        let ghost t = suffix(data@, cur as int);
        let (step, next) = parse_rdb_entry(data, cur);
        match step {
            Err(e) => {
                proof {
                    assert(spec_parse_entries(t).0 =~= Seq::<(Seq<u8>, ValueModel)>::empty());
                    assert(pair_views(acc@) + spec_parse_entries(t).0 =~= pair_views(acc@));
                }
                return (acc, Some(e));
            }
            Ok(None) => {
                proof {
                    assert(spec_parse_entries(t).0 =~= Seq::<(Seq<u8>, ValueModel)>::empty());
                    assert(pair_views(acc@) + spec_parse_entries(t).0 =~= pair_views(acc@));
                }
                return (acc, None);
            }
            Ok(Some(entry)) => {
                let ghost before = pair_views(acc@);
                let ghost p = spec_parse_entry(t).unwrap().0.unwrap();
                acc.push((entry.key, Value { value: entry.value, expiry: entry.expiry }));
                proof {
                    assert(pair_views(acc@) =~= before.push(p));
                    let c = spec_parse_entry(t).unwrap().1;
                    assert(t.subrange(c, t.len() as int) =~= suffix(data@, next as int));
                    assert(spec_parse_entries(t).0 == seq![p] + spec_parse_entries(
                        suffix(data@, next as int),
                    ).0);
                    assert(before.push(p) =~= before + seq![p]);
                    assert(before + (seq![p] + spec_parse_entries(suffix(data@, next as int)).0)
                        =~= (before + seq![p]) + spec_parse_entries(
                        suffix(data@, next as int),
                    ).0);
                }
                cur = next;
            }
        }
    }
}

/// Parses a whole snapshot, best effort: the records decoded before any
/// structural violation, and the error if one occurred.  No data at all is
/// an empty key space and no error.
pub fn parse_rdb_bytes(data: &[u8]) -> (r: (
    Vec<(Vec<u8>, Value)>,
    Option<SnapshotFormatError>,
))
    ensures
        pair_views(r.0@) == spec_parse_rdb(data@).0,
        (r.1 is Some) == spec_parse_rdb(data@).1,
{
    if data.len() == 0 {
        let acc: Vec<(Vec<u8>, Value)> = Vec::new();
        proof {
            assert(pair_views(acc@) =~= spec_parse_rdb(data@).0);
        }
        return (acc, None);
    }
    let header = parse_rdb_header(data);
    if header.is_err() {
        let acc: Vec<(Vec<u8>, Value)> = Vec::new();
        proof {
            assert(pair_views(acc@) =~= spec_parse_rdb(data@).0);
        }
        return (acc, Some(SnapshotFormatError));
    }
    proof {
        assert(suffix(data@, 9) =~= data@.subrange(9, data@.len() as int));
    }
    let after_meta = match scan_to(data, 9, META_END) {
        Some(next) => next,
        None => {
            let acc: Vec<(Vec<u8>, Value)> = Vec::new();
            proof {
                assert(pair_views(acc@) =~= spec_parse_rdb(data@).0);
            }
            return (acc, Some(SnapshotFormatError));
        }
    };
    proof {
        let after = data@.subrange(9, data@.len() as int);
        lemma_scan_to(after, META_END);
        let c1 = spec_scan_to(after, META_END).unwrap();
        assert(after.subrange(c1, after.len() as int) =~= suffix(data@, after_meta as int));
    }
    let after_db = match scan_to(data, after_meta, DB_START) {
        Some(next) => next,
        None => {
            let acc: Vec<(Vec<u8>, Value)> = Vec::new();
            proof {
                assert(pair_views(acc@) =~= spec_parse_rdb(data@).0);
            }
            return (acc, Some(SnapshotFormatError));
        }
    };
    if data.len() - after_db < 2 {
        let acc: Vec<(Vec<u8>, Value)> = Vec::new();
        proof {
            let after = data@.subrange(9, data@.len() as int);
            lemma_scan_to(after, META_END);
            let c1 = spec_scan_to(after, META_END).unwrap();
            let after2 = after.subrange(c1, after.len() as int);
            lemma_scan_to(after2, DB_START);
            assert(pair_views(acc@) =~= spec_parse_rdb(data@).0);
        }
        return (acc, Some(SnapshotFormatError));
    }
    proof {
        let after = data@.subrange(9, data@.len() as int);
        lemma_scan_to(after, META_END);
        let c1 = spec_scan_to(after, META_END).unwrap();
        let after2 = after.subrange(c1, after.len() as int);
        lemma_scan_to(after2, DB_START);
        let c2 = spec_scan_to(after2, DB_START).unwrap();
        assert(after2.subrange(c2 + 2, after2.len() as int) =~= suffix(data@, after_db + 2));
    }
    parse_rdb_records(data, after_db + 2)
}

/// A length-prefixed string as written.
pub open spec fn spec_write_string(s: Seq<u8>) -> Seq<u8>
    recommends
        s.len() <= 255,
{
    seq![s.len() as u8] + s
}

/// One record as written: the tag, the deadline bytes and one reserved byte
/// when a deadline is present, then the key and the value.
pub open spec fn spec_write_entry(p: (Seq<u8>, ValueModel)) -> Seq<u8> {
    let tag = match p.1.expiry {
        None => seq![TAG_PLAIN],
        Some(ms) => seq![TAG_EXPIRY_MS] + spec_u64_to_le_bytes(ms) + seq![0u8],
    };
    tag + spec_write_string(p.0) + spec_write_string(p.1.value)
}

/// All records as written, in order.
pub open spec fn spec_write_entries(s: Seq<(Seq<u8>, ValueModel)>) -> Seq<u8>
    decreases s.len(),
{
    if s.len() == 0 {
        Seq::empty()
    } else {
        spec_write_entry(s.first()) + spec_write_entries(s.drop_first())
    }
}

/// The fixed leading bytes of a written snapshot: magic, version, an empty
/// metadata section, the database marker and two zero hint bytes.
pub open spec fn spec_header_bytes() -> Seq<u8> {
    magic() + seq![0u8, 0u8, 0u8, RDB_VERSION as u8, META_END, DB_START, 0u8, 0u8]
}

/// A whole snapshot as written.
pub open spec fn spec_write_rdb(s: Seq<(Seq<u8>, ValueModel)>) -> Seq<u8> {
    spec_header_bytes() + spec_write_entries(s) + seq![RECORDS_END]
}

/// Whether every key and value fits the one-byte length prefix.
pub open spec fn representable(s: Seq<(Seq<u8>, ValueModel)>) -> bool {
    forall|i: int|
        0 <= i < s.len() ==> (#[trigger] s[i]).0.len() <= 255 && s[i].1.value.len() <= 255
}

/// Whether `b` reads back, without error, as exactly the key space `m`.
pub open spec fn snapshot_of(b: Seq<u8>, m: Map<Seq<u8>, ValueModel>) -> bool {
    &&& !spec_parse_rdb(b).1
    &&& crate::storage::distinct_keys(spec_parse_rdb(b).0)
    &&& crate::storage::pairs_to_map(spec_parse_rdb(b).0) == m
}

/// Appends one length-prefixed string to `buf`.
fn write_rdb_string(buf: &mut Vec<u8>, s: &[u8])
    requires
        s@.len() <= 255,
    ensures
        final(buf)@ == old(buf)@ + spec_write_string(s@),
{
    buf.push(s.len() as u8);
    push_bytes(buf, s);
    assert(buf@ =~= old(buf)@ + spec_write_string(s@));
}

/// Appending one pair extends the concatenated record bytes at the end.
proof fn lemma_write_entries_push(s: Seq<(Seq<u8>, ValueModel)>, p: (Seq<u8>, ValueModel))
    ensures
        spec_write_entries(s.push(p)) == spec_write_entries(s) + spec_write_entry(p),
    decreases s.len(),
{
    if s.len() == 0 {
        assert(s.push(p).first() == p);
        assert(s.push(p).drop_first() =~= Seq::<(Seq<u8>, ValueModel)>::empty());
        assert(spec_write_entries(Seq::<(Seq<u8>, ValueModel)>::empty()) == Seq::<u8>::empty());
        assert(spec_write_entries(s.push(p)) == spec_write_entry(p) + Seq::<u8>::empty());
        assert(spec_write_entry(p) + Seq::<u8>::empty() =~= spec_write_entry(p));
        assert(spec_write_entries(s) + spec_write_entry(p) =~= spec_write_entry(p));
    } else {
        assert(s.push(p).drop_first() =~= s.drop_first().push(p));
        lemma_write_entries_push(s.drop_first(), p);
        assert(spec_write_entries(s.push(p)) =~= spec_write_entries(s) + spec_write_entry(p));
    }
}

/// Serializes a whole key table as one snapshot.  Fails when a key or a
/// value is longer than 255 bytes, which the format cannot carry.
pub fn write_rdb_bytes(table: &Vec<(Vec<u8>, Value)>) -> (r: Result<
    Vec<u8>,
    SnapshotFormatError,
>)
    ensures
        representable(pair_views(table@)) ==> (r matches Ok(b) && b@ == spec_write_rdb(
            pair_views(table@),
        )),
        !representable(pair_views(table@)) ==> r is Err,
{
    let mut i: usize = 0;
    while i < table.len()
        invariant
            i <= table@.len(),
            forall|m: int|
                0 <= m < i ==> (#[trigger] pair_views(table@)[m]).0.len() <= 255 && pair_views(
                    table@,
                )[m].1.value.len() <= 255,
        decreases table@.len() - i,
    {
        if table[i].0.len() > 255 || table[i].1.value.len() > 255 {
            proof {
                assert(pair_views(table@)[i as int] == (table@[i as int].0@, table@[i as int].1@));
            }
            return Err(SnapshotFormatError);
        }
        proof {
            assert(pair_views(table@)[i as int] == (table@[i as int].0@, table@[i as int].1@));
        }
        i = i + 1;
    }
    let mut buf: Vec<u8> = Vec::new();
    buf.push(82);
    buf.push(69);
    buf.push(68);
    buf.push(73);
    buf.push(83);
    buf.push(0);
    buf.push(0);
    buf.push(0);
    buf.push(RDB_VERSION as u8);
    buf.push(META_END);
    buf.push(DB_START);
    buf.push(0);
    buf.push(0);
    proof {
        assert(buf@ =~= spec_header_bytes());
    }
    let mut j: usize = 0;
    while j < table.len()
        invariant
            j <= table@.len(),
            representable(pair_views(table@)),
            buf@ == spec_header_bytes() + spec_write_entries(
                pair_views(table@).subrange(0, j as int),
            ),
        decreases table@.len() - j,
    {
        let ghost views = pair_views(table@);
        let ghost before = buf@;
        proof {
            assert(views[j as int] == (table@[j as int].0@, table@[j as int].1@));
        }
        match table[j].1.expiry {
            None => {
                buf.push(TAG_PLAIN);
            }
            Some(ms) => {
                buf.push(TAG_EXPIRY_MS);
                let le = u64_to_le_bytes(ms);
                push_bytes(&mut buf, le.as_slice());
                buf.push(0);
            }
        }
        write_rdb_string(&mut buf, table[j].0.as_slice());
        write_rdb_string(&mut buf, table[j].1.value.as_slice());
        proof {
            assert(buf@ =~= before + spec_write_entry(views[j as int]));
            assert(views.subrange(0, j + 1) =~= views.subrange(0, j as int).push(
                views[j as int],
            ));
            lemma_write_entries_push(views.subrange(0, j as int), views[j as int]);
            assert(buf@ =~= spec_header_bytes() + spec_write_entries(
                views.subrange(0, j + 1),
            ));
        }
        j = j + 1;
    }
    buf.push(RECORDS_END);
    proof {
        let views = pair_views(table@);
        assert(views.subrange(0, views.len() as int) =~= views);
        assert(buf@ =~= spec_write_rdb(views));
    }
    Ok(buf)
}

/// Reading back a written length-prefixed string yields the string.
proof fn lemma_parse_string_of_written(sg: Seq<u8>, tail: Seq<u8>)
    requires
        sg.len() <= 255,
    ensures
        spec_parse_string(spec_write_string(sg) + tail) == Some((sg, sg.len() + 1 as int)),
{
    let b = spec_write_string(sg) + tail;
    assert(b[0] == sg.len() as u8);
    assert((sg.len() as u8) as int == sg.len());
    assert(b.subrange(1, 1 + sg.len() as u8 as int) =~= sg);
}

/// Reading back a written key and value yields both.
proof fn lemma_parse_pair_of_written(k: Seq<u8>, v: Seq<u8>, tail: Seq<u8>)
    requires
        k.len() <= 255,
        v.len() <= 255,
    ensures
        spec_parse_pair(spec_write_string(k) + spec_write_string(v) + tail) == Some(
            (k, v, k.len() + v.len() + 2 as int),
        ),
{
    let b = spec_write_string(k) + spec_write_string(v) + tail;
    assert(b =~= spec_write_string(k) + (spec_write_string(v) + tail));
    lemma_parse_string_of_written(k, spec_write_string(v) + tail);
    let c1 = k.len() + 1 as int;
    assert(b.subrange(c1, b.len() as int) =~= spec_write_string(v) + tail);
    lemma_parse_string_of_written(v, tail);
}

/// Reading back one written record yields that record, whatever follows it.
proof fn lemma_parse_entry_of_written(p: (Seq<u8>, ValueModel), tail: Seq<u8>)
    requires
        p.0.len() <= 255,
        p.1.value.len() <= 255,
    ensures
        spec_parse_entry(spec_write_entry(p) + tail) == Some(
            (Some(p), spec_write_entry(p).len() as int),
        ),
        spec_write_entry(p).len() >= 3,
{
    let b = spec_write_entry(p) + tail;
    let pair_bytes = spec_write_string(p.0) + spec_write_string(p.1.value);
    match p.1.expiry {
        None => {
            assert(spec_write_entry(p) =~= seq![TAG_PLAIN] + pair_bytes);
            assert(b[0] == TAG_PLAIN);
            assert(b.drop_first() =~= spec_write_string(p.0) + spec_write_string(p.1.value)
                + tail);
            lemma_parse_pair_of_written(p.0, p.1.value, tail);
            assert(p.1 == ValueModel { value: p.1.value, expiry: None });
        }
        Some(ms) => {
            lemma_auto_spec_u64_to_from_le_bytes();
            let le = spec_u64_to_le_bytes(ms);
            assert(spec_write_entry(p) =~= (seq![TAG_EXPIRY_MS] + le + seq![0u8]) + pair_bytes);
            assert(b[0] == TAG_EXPIRY_MS);
            assert(b.len() >= 10);
            assert(b.subrange(1, 9) =~= le);
            assert(spec_u64_from_le_bytes(b.subrange(1, 9)) == ms);
            assert(b.subrange(10, b.len() as int) =~= spec_write_string(p.0) + spec_write_string(
                p.1.value,
            ) + tail);
            lemma_parse_pair_of_written(p.0, p.1.value, tail);
            assert(p.1 == ValueModel { value: p.1.value, expiry: Some(ms) });
        }
    }
}

/// Reading back all written records, up to the terminator, yields exactly
/// the records written, with no error.
proof fn lemma_parse_entries_of_written(s: Seq<(Seq<u8>, ValueModel)>)
    requires
        representable(s),
    ensures
        spec_parse_entries(spec_write_entries(s) + seq![RECORDS_END]) == (s, false),
    decreases s.len(),
{
    let b = spec_write_entries(s) + seq![RECORDS_END];
    if s.len() == 0 {
        assert(b =~= seq![RECORDS_END]);
        assert(b[0] == RECORDS_END);
        assert(spec_parse_entries(b).0 =~= s);
    } else {
        let p = s.first();
        let tail = spec_write_entries(s.drop_first()) + seq![RECORDS_END];
        assert(s[0].0.len() <= 255 && s[0].1.value.len() <= 255);
        assert(b =~= spec_write_entry(p) + tail);
        lemma_parse_entry_of_written(p, tail);
        let c = spec_write_entry(p).len() as int;
        assert(spec_parse_entry(b) == Some((Some(p), c)));
        assert(1 <= c <= b.len());
        assert(b.subrange(c, b.len() as int) =~= tail);
        assert(forall|m: int|
            0 <= m < s.drop_first().len() ==> s.drop_first()[m] == s[m + 1]);
        assert(representable(s.drop_first()));
        lemma_parse_entries_of_written(s.drop_first());
        assert(spec_parse_entries(b).0 =~= seq![p] + s.drop_first());
        assert(seq![p] + s.drop_first() =~= s);
        assert(spec_parse_entries(b).0 =~= s);
        assert(spec_parse_entries(b).1 == false);
    }
}

/// Writing a key space and reading the bytes back yields an equal key
/// space and no error; deadlines, already passed or not, are preserved.
pub proof fn lemma_snapshot_round_trip(s: Seq<(Seq<u8>, ValueModel)>)
    requires
        representable(s),
    ensures
        spec_parse_rdb(spec_write_rdb(s)) == (s, false),
{
    let b = spec_write_rdb(s);
    let records = spec_write_entries(s) + seq![RECORDS_END];
    assert(b =~= spec_header_bytes() + records);
    assert(b.len() >= 13);
    assert(b.subrange(0, 5) =~= magic());
    let after = b.subrange(9, b.len() as int);
    assert(after =~= seq![META_END, DB_START, 0u8, 0u8] + records);
    assert(after[0] == META_END);
    assert(spec_scan_to(after, META_END) == Some(1 as int));
    let after2 = after.subrange(1, after.len() as int);
    assert(after2 =~= seq![DB_START, 0u8, 0u8] + records);
    assert(after2[0] == DB_START);
    assert(spec_scan_to(after2, DB_START) == Some(1 as int));
    assert(after2.len() - 1 >= 2);
    assert(after2.subrange(3, after2.len() as int) =~= records);
    lemma_parse_entries_of_written(s);
}

} // verus!
