//! Reading what the journal hands out: a position, then records one behind the
//! other.
//!
//! A record gives its own length, its version, two reference numbers of eight
//! bytes in version 2 and sixteen in version 3, of which NTFS fills the lower
//! eight, then position, time, reason, two fields that are of no use here,
//! attributes, and where in the record its name stands.

use super::record::ParsedUsnRecord;
use crate::proto::number::{le4, le8, lemma_le4, lemma_le8, read_u32, read_u64, value4, value8};
use crate::types::Frn;
use crate::wtf8::{from_utf16, joined, well_paired, wide_codes};
use vstd::prelude::*;

verus! {

/// Why bytes of the journal cannot be read.
#[derive(Clone, Copy, Debug, PartialEq, Eq, Structural)]
pub enum WalkError {
    /// There is not even a position.
    NoPosition,
    /// A record is shorter than its fields, or longer than what is there.
    BadLength,
    /// A record is of a version other than 2 and 3.
    UnknownVersion,
    /// A record's name does not lie in the record.
    BadName,
}

/// What a record says.
#[verifier::ext_equal]
pub struct RecordView {
    pub major_version: u16,
    pub frn: u64,
    pub parent_frn: u64,
    pub usn: i64,
    pub timestamp_ft: i64,
    pub reason: u32,
    pub attributes: u32,
    pub name: Seq<u8>,
    pub name_lossy: bool,
}

impl View for ParsedUsnRecord {
    type V = RecordView;

    open spec fn view(&self) -> RecordView {
        RecordView {
            major_version: self.major_version,
            frn: self.frn.0,
            parent_frn: self.parent_frn.0,
            usn: self.usn,
            timestamp_ft: self.timestamp_ft,
            reason: self.reason,
            attributes: self.attributes,
            name: self.name@,
            name_lossy: self.name_lossy,
        }
    }
}

/// The number in the two bytes at `at`.
pub open spec fn u16_at(bytes: Seq<u8>, at: int) -> u16 {
    (bytes[at] + 256 * bytes[at + 1]) as u16
}

/// The number in the four bytes at `at`.
pub open spec fn u32_at(bytes: Seq<u8>, at: int) -> u32 {
    value4(bytes.subrange(at, at + 4))
}

/// The number in the eight bytes at `at`.
pub open spec fn u64_at(bytes: Seq<u8>, at: int) -> u64 {
    value8(bytes.subrange(at, at + 8))
}

/// The `n` wide characters at `at`.
pub open spec fn wide_at(bytes: Seq<u8>, at: int, n: nat) -> Seq<u16> {
    Seq::new(n, |k: int| u16_at(bytes, at + 2 * k))
}

/// Where the fields behind the reference numbers begin.
pub open spec fn fields_at(major: u16) -> int {
    if major == 2 {
        24
    } else {
        40
    }
}

/// Where the parent's reference number stands.
pub open spec fn parent_at(major: u16) -> int {
    if major == 2 {
        16
    } else {
        24
    }
}

/// The record at `at`, and its length.
pub open spec fn record_at(bytes: Seq<u8>, at: int) -> Result<(RecordView, int), WalkError> {
    if at + 8 > bytes.len() {
        Err(WalkError::BadLength)
    } else {
        let len = u32_at(bytes, at);
        let major = u16_at(bytes, at + 4);
        let base = fields_at(major);
        let fields = at + base;
        if major != 2 && major != 3 {
            Err(WalkError::UnknownVersion)
        } else if len < base + 36 || at + len > bytes.len() {
            Err(WalkError::BadLength)
        } else {
            let name_len = u16_at(bytes, fields + 32);
            let name_off = u16_at(bytes, fields + 34);
            if name_len % 2 != 0 || name_off + name_len > len {
                Err(WalkError::BadName)
            } else {
                let wide = wide_at(bytes, at + name_off, (name_len / 2) as nat);
                Ok(
                    (
                        RecordView {
                            major_version: major,
                            frn: u64_at(bytes, at + 8),
                            parent_frn: u64_at(bytes, at + parent_at(major)),
                            usn: u64_at(bytes, fields) as i64,
                            timestamp_ft: u64_at(bytes, fields + 8) as i64,
                            reason: u32_at(bytes, fields + 16),
                            attributes: u32_at(bytes, fields + 28),
                            name: joined(wide_codes(wide)),
                            name_lossy: !well_paired(wide),
                        },
                        len as int,
                    ),
                )
            }
        }
    }
}

/// The records from `at` on.
pub open spec fn records_from(bytes: Seq<u8>, at: int) -> Result<Seq<RecordView>, WalkError>
    decreases bytes.len() - at,
{
    if at >= bytes.len() {
        Ok(seq![])
    } else {
        match record_at(bytes, at) {
            Err(e) => Err(e),
            Ok((rec, len)) => if len <= 0 {
                Err(WalkError::BadLength)
            } else {
                behind(seq![rec], records_from(bytes, at + len))
            },
        }
    }
}

/// More records behind those already read.
pub open spec fn behind(
    read: Seq<RecordView>,
    more: Result<Seq<RecordView>, WalkError>,
) -> Result<Seq<RecordView>, WalkError> {
    match more {
        Ok(list) => Ok(read + list),
        Err(e) => Err(e),
    }
}

/// Records, and where to go on.
pub struct JournalWalk {
    pub records: Vec<ParsedUsnRecord>,
    /// The next USN to read.
    pub next_usn: i64,
}

/// What a list of records says.
pub open spec fn record_views(records: Seq<ParsedUsnRecord>) -> Seq<RecordView> {
    records.map_values(|r: ParsedUsnRecord| r@)
}

fn read_u16(bytes: &[u8], at: usize) -> (x: u16)
    requires
        at + 2 <= bytes@.len(),
    ensures
        x == u16_at(bytes@, at as int),
{
    bytes[at] as u16 + 256 * (bytes[at + 1] as u16)
}

/// The `n` wide characters at `at`.
fn read_wide(bytes: &[u8], at: usize, n: usize) -> (wide: Vec<u16>)
    requires
        at + 2 * n <= bytes@.len(),
    ensures
        wide@ == wide_at(bytes@, at as int, n as nat),
{
    let mut wide: Vec<u16> = Vec::new();
    let mut k: usize = 0;
    assert(bytes.len() == bytes@.len());
    while k < n
        invariant
            k <= n,
            at + 2 * n <= bytes@.len(),
            bytes@.len() <= usize::MAX,
            wide@.len() == k,
            forall|j: int| 0 <= j < k ==> wide@[j] == u16_at(bytes@, at + 2 * j),
        decreases n - k,
    {
        wide.push(read_u16(bytes, at + 2 * k));
        k += 1;
    }
    assert(wide@ =~= wide_at(bytes@, at as int, n as nat));
    wide
}

/// Reads the record at `at`, and tells its length.
fn read_record(bytes: &[u8], at: usize) -> (res: Result<(ParsedUsnRecord, usize), WalkError>)
    requires
        at <= bytes@.len(),
    ensures
        match res {
            Ok((rec, len)) => record_at(bytes@, at as int) == Ok::<(RecordView, int), WalkError>(
                (rec@, len as int),
            ) && 0 < len <= bytes@.len() - at,
            Err(e) => record_at(bytes@, at as int) == Err::<(RecordView, int), WalkError>(e),
        },
{
    assert(bytes.len() == bytes@.len());
    let left: usize = bytes.len() - at;
    if left < 8 {
        return Err(WalkError::BadLength);
    }
    let len = read_u32(bytes, at) as usize;
    let major = read_u16(bytes, at + 4);
    if major != 2 && major != 3 {
        return Err(WalkError::UnknownVersion);
    }
    let base: usize = if major == 2 {
        24
    } else {
        40
    };
    let parent: usize = if major == 2 {
        16
    } else {
        24
    };
    if len < base + 36 || len > left {
        return Err(WalkError::BadLength);
    }
    let fields: usize = at + base;
    let name_len = read_u16(bytes, fields + 32);
    let name_off = read_u16(bytes, fields + 34);
    if name_len % 2 != 0 || name_off as usize + name_len as usize > len {
        return Err(WalkError::BadName);
    }
    let wide = read_wide(bytes, at + name_off as usize, (name_len / 2) as usize);
    let mut name: Vec<u8> = Vec::new();
    let well_formed = from_utf16(wide.as_slice(), &mut name);
    let rec = ParsedUsnRecord {
        major_version: major,
        frn: Frn(read_u64(bytes, at + 8)),
        parent_frn: Frn(read_u64(bytes, at + parent)),
        usn: read_u64(bytes, fields) as i64,
        timestamp_ft: read_u64(bytes, fields + 8) as i64,
        reason: read_u32(bytes, fields + 16),
        attributes: read_u32(bytes, fields + 28),
        name,
        name_lossy: !well_formed,
    };
    proof {
        assert(name@ =~= joined(wide_codes(wide@)));
        assert(rec@ =~= (record_at(bytes@, at as int)->Ok_0).0);
    }
    Ok((rec, len))
}

/// Reads what the journal handed out. Where any of it cannot be read, nothing of
/// it is given: what was missed could not be told.
pub fn walk_journal_buffer(bytes: &[u8]) -> (res: Result<JournalWalk, WalkError>)
    ensures
        match res {
            Ok(walk) => {
                &&& bytes@.len() >= 8
                &&& walk.next_usn == u64_at(bytes@, 0) as i64
                &&& records_from(bytes@, 8) == Ok::<Seq<RecordView>, WalkError>(
                    record_views(walk.records@),
                )
            },
            Err(e) => if bytes@.len() < 8 {
                e == WalkError::NoPosition
            } else {
                records_from(bytes@, 8) == Err::<Seq<RecordView>, WalkError>(e)
            },
        },
{
    if bytes.len() < 8 {
        return Err(WalkError::NoPosition);
    }
    let next_usn = read_u64(bytes, 0) as i64;
    let mut records: Vec<ParsedUsnRecord> = Vec::new();
    let mut at: usize = 8;
    let ghost all = records_from(bytes@, 8);
    proof {
        assert(record_views(records@) =~= Seq::<RecordView>::empty());
        if all is Ok {
            assert(record_views(records@) + all->Ok_0 =~= all->Ok_0);
        }
    }
    while at < bytes.len()
        invariant
            8 <= at <= bytes@.len(),
            all == records_from(bytes@, 8),
            all == behind(record_views(records@), records_from(bytes@, at as int)),
        decreases bytes@.len() - at,
    {
        let ghost had = record_views(records@);
        match read_record(bytes, at) {
            Ok((rec, len)) => {
                let ghost more = records_from(bytes@, at + len);
                records.push(rec);
                proof {
                    assert(record_views(records@) =~= had.push(rec@));
                    if more is Ok {
                        assert(had + (seq![rec@] + more->Ok_0) =~= had.push(rec@) + more->Ok_0);
                    }
                }
                at += len;
            },
            Err(e) => {
                return Err(e);
            },
        }
    }
    assert(record_views(records@) + Seq::<RecordView>::empty() =~= record_views(records@));
    Ok(JournalWalk { records, next_usn })
}

/// The two bytes of a number, lowest first.
pub open spec fn le2(x: u16) -> Seq<u8> {
    seq![(x % 256) as u8, (x / 256) as u8]
}

/// The bytes of wide characters.
pub open spec fn wide_bytes(wide: Seq<u16>) -> Seq<u8> {
    Seq::new(
        2 * wide.len(),
        |k: int|
            if k % 2 == 0 {
                (wide[k / 2] % 256) as u8
            } else {
                (wide[k / 2] / 256) as u8
            },
    )
}

/// What the file system writes into a record, besides the name.
pub struct RecordFields {
    pub major: u16,
    pub minor: u16,
    pub frn: u64,
    pub parent_frn: u64,
    pub usn: u64,
    pub time: u64,
    pub reason: u32,
    pub source: u32,
    pub security: u32,
    pub attributes: u32,
}

/// The bytes of a reference number: eight, and eight more that are zero in
/// version 3.
pub open spec fn reference_bytes(major: u16, frn: u64) -> Seq<u8> {
    if major == 2 {
        le8(frn)
    } else {
        le8(frn) + seq![0u8, 0u8, 0u8, 0u8, 0u8, 0u8, 0u8, 0u8]
    }
}

/// The bytes of a record in front of its position: its length, its version and
/// the two reference numbers.
pub open spec fn record_front(f: RecordFields, len: u32) -> Seq<u8> {
    le4(len) + le2(f.major) + le2(f.minor) + reference_bytes(f.major, f.frn) + reference_bytes(
        f.major,
        f.parent_frn,
    )
}

/// The bytes of a record from its position up to its name.
pub open spec fn record_back(f: RecordFields, name_len: u16) -> Seq<u8> {
    le8(f.usn) + le8(f.time) + le4(f.reason) + le4(f.source) + le4(f.security) + le4(f.attributes)
        + le2(name_len) + le2((fields_at(f.major) + 36) as u16)
}

/// The bytes of a record in front of its name, which follows at once.
pub open spec fn record_head(f: RecordFields, len: u32, name_len: u16) -> Seq<u8> {
    record_front(f, len) + record_back(f, name_len)
}

proof fn lemma_le2(x: u16)
    ensures
        le2(x).len() == 2,
        le2(x)[0] + 256 * le2(x)[1] == x,
{
}

/// The bytes from `at` on are a record's head.
spec fn is_head(h: Seq<u8>, at: int, f: RecordFields, len: u32, name_len: u16) -> bool {
    let b = at + fields_at(f.major);
    let p = at + parent_at(f.major);
    &&& h.len() >= b + 36
    &&& h.subrange(at, at + 4) == le4(len)
    &&& h.subrange(at + 4, at + 6) == le2(f.major)
    &&& h.subrange(at + 8, at + 16) == le8(f.frn)
    &&& h.subrange(p, p + 8) == le8(f.parent_frn)
    &&& h.subrange(b, b + 8) == le8(f.usn)
    &&& h.subrange(b + 8, b + 16) == le8(f.time)
    &&& h.subrange(b + 16, b + 20) == le4(f.reason)
    &&& h.subrange(b + 28, b + 32) == le4(f.attributes)
    &&& h.subrange(b + 32, b + 34) == le2(name_len)
    &&& h.subrange(b + 34, b + 36) == le2((fields_at(f.major) + 36) as u16)
}

/// Where the fields up to the reference numbers stand.
proof fn lemma_record_front(f: RecordFields, len: u32)
    requires
        f.major == 2 || f.major == 3,
    ensures
        ({
            let h = record_front(f, len);
            let p = parent_at(f.major);
            &&& h.len() == fields_at(f.major)
            &&& h.subrange(0, 4) == le4(len)
            &&& h.subrange(4, 6) == le2(f.major)
            &&& h.subrange(8, 16) == le8(f.frn)
            &&& h.subrange(p, p + 8) == le8(f.parent_frn)
        }),
{
    lemma_le4(len);
    lemma_le2(f.major);
    lemma_le2(f.minor);
    lemma_le8(f.frn);
    lemma_le8(f.parent_frn);
    let x = reference_bytes(f.major, f.frn);
    let y = reference_bytes(f.major, f.parent_frn);
    assert(x.subrange(0, 8) =~= le8(f.frn));
    assert(y.subrange(0, 8) =~= le8(f.parent_frn));
    lemma_front(le4(len), le2(f.major), le2(f.minor), x, y);
}

/// Where the fields from the position on stand in a record.
proof fn lemma_record_back(f: RecordFields, name_len: u16)
    ensures
        ({
            let h = record_back(f, name_len);
            &&& h.len() == 36
            &&& h.subrange(0, 8) == le8(f.usn)
            &&& h.subrange(8, 16) == le8(f.time)
            &&& h.subrange(16, 20) == le4(f.reason)
            &&& h.subrange(28, 32) == le4(f.attributes)
            &&& h.subrange(32, 34) == le2(name_len)
            &&& h.subrange(34, 36) == le2((fields_at(f.major) + 36) as u16)
        }),
{
    lemma_le8(f.usn);
    lemma_le8(f.time);
    lemma_le4(f.reason);
    lemma_le4(f.source);
    lemma_le4(f.security);
    lemma_le4(f.attributes);
    let at = (fields_at(f.major) + 36) as u16;
    lemma_le2(name_len);
    lemma_le2(at);
    lemma_back(
        le8(f.usn),
        le8(f.time),
        le4(f.reason),
        le4(f.source),
        le4(f.security),
        le4(f.attributes),
        le2(name_len),
        le2(at),
    );
}

/// Two parts in which the fields stand right make a head.
proof fn lemma_parts_make_head(
    front: Seq<u8>,
    back: Seq<u8>,
    f: RecordFields,
    len: u32,
    name_len: u16,
)
    requires
        f.major == 2 || f.major == 3,
        front.len() == fields_at(f.major),
        front.subrange(0, 4) == le4(len),
        front.subrange(4, 6) == le2(f.major),
        front.subrange(8, 16) == le8(f.frn),
        front.subrange(parent_at(f.major), parent_at(f.major) + 8) == le8(f.parent_frn),
        back.len() == 36,
        back.subrange(0, 8) == le8(f.usn),
        back.subrange(8, 16) == le8(f.time),
        back.subrange(16, 20) == le4(f.reason),
        back.subrange(28, 32) == le4(f.attributes),
        back.subrange(32, 34) == le2(name_len),
        back.subrange(34, 36) == le2((fields_at(f.major) + 36) as u16),
    ensures
        is_head(front + back, 0, f, len, name_len),
{
    lemma_both_parts(front, back, parent_at(f.major));
}

/// Where the fields of a record's head stand.
proof fn lemma_head(f: RecordFields, len: u32, name_len: u16)
    requires
        f.major == 2 || f.major == 3,
    ensures
        record_head(f, len, name_len).len() == fields_at(f.major) + 36,
        is_head(record_head(f, len, name_len), 0, f, len, name_len),
{
    lemma_record_front(f, len);
    lemma_record_back(f, name_len);
    lemma_parts_make_head(record_front(f, len), record_back(f, name_len), f, len, name_len);
}

/// What stands where in two texts, one behind the other.
proof fn lemma_both_parts(front: Seq<u8>, back: Seq<u8>, p: int)
    requires
        16 <= p <= front.len() - 8,
        back.len() == 36,
    ensures
        ({
            let h = front + back;
            let b = front.len() as int;
            &&& h.subrange(0, 4) == front.subrange(0, 4)
            &&& h.subrange(4, 6) == front.subrange(4, 6)
            &&& h.subrange(8, 16) == front.subrange(8, 16)
            &&& h.subrange(p, p + 8) == front.subrange(p, p + 8)
            &&& h.subrange(b, b + 8) == back.subrange(0, 8)
            &&& h.subrange(b + 8, b + 16) == back.subrange(8, 16)
            &&& h.subrange(b + 16, b + 20) == back.subrange(16, 20)
            &&& h.subrange(b + 28, b + 32) == back.subrange(28, 32)
            &&& h.subrange(b + 32, b + 34) == back.subrange(32, 34)
            &&& h.subrange(b + 34, b + 36) == back.subrange(34, 36)
        }),
{
    let h = front + back;
    let none = Seq::<u8>::empty();
    assert(h =~= none + front + back);
    lemma_part(none, front, back, 0, 4);
    lemma_part(none, front, back, 4, 6);
    lemma_part(none, front, back, 8, 16);
    lemma_part(none, front, back, p, p + 8);
    assert(h =~= front + back + none);
    lemma_part(front, back, none, 0, 8);
    lemma_part(front, back, none, 8, 16);
    lemma_part(front, back, none, 16, 20);
    lemma_part(front, back, none, 28, 32);
    lemma_part(front, back, none, 32, 34);
    lemma_part(front, back, none, 34, 36);
}

/// A part of the middle of three texts is that part of the middle one.
proof fn lemma_part(front: Seq<u8>, mid: Seq<u8>, back: Seq<u8>, a: int, b: int)
    requires
        0 <= a <= b <= mid.len(),
    ensures
        (front + mid + back).subrange(front.len() + a, front.len() + b) == mid.subrange(a, b),
{
    assert((front + mid + back).subrange(front.len() + a, front.len() + b) =~= mid.subrange(a, b));
}

/// Where the fields in front of the position stand.
proof fn lemma_front(len: Seq<u8>, major: Seq<u8>, minor: Seq<u8>, x: Seq<u8>, y: Seq<u8>)
    requires
        len.len() == 4,
        major.len() == 2,
        minor.len() == 2,
        x.len() >= 8,
        y.len() >= 8,
    ensures
        ({
            let h = len + major + minor + x + y;
            &&& h.len() == 8 + x.len() + y.len()
            &&& h.subrange(0, 4) == len
            &&& h.subrange(4, 6) == major
            &&& h.subrange(8, 16) == x.subrange(0, 8)
            &&& h.subrange((8 + x.len()) as int, (16 + x.len()) as int) == y.subrange(0, 8)
        }),
{
    let h = len + major + minor + x + y;
    assert(h.subrange(0, 4) =~= len);
    assert(h.subrange(4, 6) =~= major);
    assert(h.subrange(8, 16) =~= x.subrange(0, 8));
    assert(h.subrange((8 + x.len()) as int, (16 + x.len()) as int) =~= y.subrange(0, 8));
}

/// Where the fields from the position on stand.
proof fn lemma_back(
    usn: Seq<u8>,
    time: Seq<u8>,
    reason: Seq<u8>,
    source: Seq<u8>,
    security: Seq<u8>,
    attributes: Seq<u8>,
    name_len: Seq<u8>,
    name_at: Seq<u8>,
)
    requires
        usn.len() == 8,
        time.len() == 8,
        reason.len() == 4,
        source.len() == 4,
        security.len() == 4,
        attributes.len() == 4,
        name_len.len() == 2,
        name_at.len() == 2,
    ensures
        ({
            let h = usn + time + reason + source + security + attributes + name_len + name_at;
            &&& h.len() == 36
            &&& h.subrange(0, 8) == usn
            &&& h.subrange(8, 16) == time
            &&& h.subrange(16, 20) == reason
            &&& h.subrange(28, 32) == attributes
            &&& h.subrange(32, 34) == name_len
            &&& h.subrange(34, 36) == name_at
        }),
{
    let h = usn + time + reason + source + security + attributes + name_len + name_at;
    assert(h.subrange(0, 8) =~= usn);
    assert(h.subrange(8, 16) =~= time);
    assert(h.subrange(16, 20) =~= reason);
    assert(h.subrange(28, 32) =~= attributes);
    assert(h.subrange(32, 34) =~= name_len);
    assert(h.subrange(34, 36) =~= name_at);
}

/// A head stays one wherever it stands.
proof fn lemma_head_between(
    front: Seq<u8>,
    head: Seq<u8>,
    back: Seq<u8>,
    f: RecordFields,
    len: u32,
    name_len: u16,
)
    requires
        f.major == 2 || f.major == 3,
        head.len() == fields_at(f.major) + 36,
        is_head(head, 0, f, len, name_len),
    ensures
        is_head(front + head + back, front.len() as int, f, len, name_len),
{
    let b = fields_at(f.major);
    let p = parent_at(f.major);
    lemma_part(front, head, back, 0, 4);
    lemma_part(front, head, back, 4, 6);
    lemma_part(front, head, back, 8, 16);
    lemma_part(front, head, back, p, p + 8);
    lemma_part(front, head, back, b, b + 8);
    lemma_part(front, head, back, b + 8, b + 16);
    lemma_part(front, head, back, b + 16, b + 20);
    lemma_part(front, head, back, b + 28, b + 32);
    lemma_part(front, head, back, b + 32, b + 34);
    lemma_part(front, head, back, b + 34, b + 36);
}

/// Wide characters are read as they were written.
proof fn lemma_wide_read(bytes: Seq<u8>, off: int, wide: Seq<u16>)
    requires
        0 <= off,
        off + 2 * wide.len() <= bytes.len(),
        bytes.subrange(off, off + 2 * wide.len()) == wide_bytes(wide),
    ensures
        wide_at(bytes, off, wide.len()) == wide,
{
    let name = wide_bytes(wide);
    assert forall|k: int| 0 <= k < wide.len() implies u16_at(bytes, off + 2 * k)
        == #[trigger] wide[k] by {
        assert(bytes.subrange(off, off + 2 * wide.len())[2 * k] == bytes[off + 2 * k]);
        assert(bytes.subrange(off, off + 2 * wide.len())[2 * k + 1] == bytes[off + 2 * k + 1]);
        assert((2 * k) % 2 == 0 && (2 * k) / 2 == k);
        assert((2 * k + 1) % 2 == 1 && (2 * k + 1) / 2 == k);
        lemma_le2(wide[k]);
    }
    assert(wide_at(bytes, off, wide.len()) =~= wide);
}

/// Two bytes read as a number.
proof fn lemma_u16_part(bytes: Seq<u8>, at: int, x: u16)
    requires
        0 <= at,
        at + 2 <= bytes.len(),
        bytes.subrange(at, at + 2) == le2(x),
    ensures
        u16_at(bytes, at) == x,
{
    lemma_le2(x);
    assert(bytes.subrange(at, at + 2)[0] == bytes[at]);
    assert(bytes.subrange(at, at + 2)[1] == bytes[at + 1]);
}

/// A record that the file system wrote is read as it was written, be it of
/// version 2 or 3 and whatever stands before and behind it: its numbers, its
/// times, its reason and attributes, and its name; and reading goes on behind it.
pub proof fn law_record_is_read(
    front: Seq<u8>,
    f: RecordFields,
    wide: Seq<u16>,
    pad: Seq<u8>,
    back: Seq<u8>,
)
    requires
        f.major == 2 || f.major == 3,
        2 * wide.len() <= u16::MAX,
        fields_at(f.major) + 36 + 2 * wide.len() + pad.len() <= u32::MAX,
    ensures
        ({
            let len = (fields_at(f.major) + 36 + 2 * wide.len() + pad.len()) as u32;
            let head = record_head(f, len, (2 * wide.len()) as u16);
            let bytes = front + (head + wide_bytes(wide) + pad) + back;
            &&& record_at(bytes, front.len() as int) == Ok::<(RecordView, int), WalkError>(
                (said_by(f, wide), len as int),
            )
            &&& match records_from(bytes, front.len() + len) {
                Ok(list) => records_from(bytes, front.len() as int) == Ok::<
                    Seq<RecordView>,
                    WalkError,
                >(seq![said_by(f, wide)] + list),
                Err(e) => records_from(bytes, front.len() as int) == Err::<
                    Seq<RecordView>,
                    WalkError,
                >(e),
            }
            &&& records_from(bytes, bytes.len() as int) == Ok::<Seq<RecordView>, WalkError>(seq![])
        }),
{
    let len = (fields_at(f.major) + 36 + 2 * wide.len() + pad.len()) as u32;
    let n = (2 * wide.len()) as u16;
    lemma_head(f, len, n);
    lemma_placed(front, record_head(f, len, n), pad, back, f, wide, len);
}

/// How the parts of a buffer lie.
proof fn lemma_layout(
    front: Seq<u8>,
    head: Seq<u8>,
    name: Seq<u8>,
    pad: Seq<u8>,
    back: Seq<u8>,
)
    ensures
        ({
            let bytes = front + (head + name + pad) + back;
            let off = (front.len() + head.len()) as int;
            &&& bytes == front + head + (name + pad + back)
            &&& bytes.len() == front.len() + head.len() + name.len() + pad.len() + back.len()
            &&& bytes.subrange(off, off + name.len()) == name
        }),
{
    let bytes = front + (head + name + pad) + back;
    let off = (front.len() + head.len()) as int;
    assert(bytes =~= front + head + (name + pad + back));
    assert(bytes.subrange(off, off + name.len()) =~= name);
}

/// A record between others is read.
#[verifier::rlimit(60)]
proof fn lemma_placed(
    front: Seq<u8>,
    head: Seq<u8>,
    pad: Seq<u8>,
    back: Seq<u8>,
    f: RecordFields,
    wide: Seq<u16>,
    len: u32,
)
    requires
        f.major == 2 || f.major == 3,
        2 * wide.len() <= u16::MAX,
        len == fields_at(f.major) + 36 + 2 * wide.len() + pad.len(),
        head.len() == fields_at(f.major) + 36,
        is_head(head, 0, f, len, (2 * wide.len()) as u16),
    ensures
        ({
            let bytes = front + (head + wide_bytes(wide) + pad) + back;
            &&& record_at(bytes, front.len() as int) == Ok::<(RecordView, int), WalkError>(
                (said_by(f, wide), len as int),
            )
            &&& match records_from(bytes, front.len() + len) {
                Ok(list) => records_from(bytes, front.len() as int) == Ok::<
                    Seq<RecordView>,
                    WalkError,
                >(seq![said_by(f, wide)] + list),
                Err(e) => records_from(bytes, front.len() as int) == Err::<
                    Seq<RecordView>,
                    WalkError,
                >(e),
            }
            &&& records_from(bytes, bytes.len() as int) == Ok::<Seq<RecordView>, WalkError>(seq![])
        }),
{
    let n = 2 * wide.len();
    let name = wide_bytes(wide);
    let bytes = front + (head + name + pad) + back;
    let at = front.len() as int;
    let off = at + fields_at(f.major) + 36;
    lemma_layout(front, head, name, pad, back);
    lemma_head_between(front, head, name + pad + back, f, len, n as u16);
    lemma_wide_read(bytes, off, wide);
    lemma_read_on(bytes, at, f, wide, len);
}

/// A head and a name are read, and reading goes on behind them.
proof fn lemma_read_on(bytes: Seq<u8>, at: int, f: RecordFields, wide: Seq<u16>, len: u32)
    requires
        f.major == 2 || f.major == 3,
        0 <= at,
        2 * wide.len() <= u16::MAX,
        fields_at(f.major) + 36 + 2 * wide.len() <= len,
        at + len <= bytes.len(),
        is_head(bytes, at, f, len, (2 * wide.len()) as u16),
        wide_at(bytes, at + fields_at(f.major) + 36, wide.len()) == wide,
    ensures
        record_at(bytes, at) == Ok::<(RecordView, int), WalkError>((said_by(f, wide), len as int)),
        records_from(bytes, at) == behind(
            seq![said_by(f, wide)],
            records_from(bytes, at + len),
        ),
{
    lemma_head_reads(bytes, at, f, len, (2 * wide.len()) as u16);
    lemma_record_read(bytes, at, f, wide, len);
}

/// The numbers at their places are those of the fields.
spec fn reads_as(bytes: Seq<u8>, at: int, f: RecordFields, len: u32, name_len: u16) -> bool {
    let b = at + fields_at(f.major);
    &&& u32_at(bytes, at) == len
    &&& u16_at(bytes, at + 4) == f.major
    &&& u64_at(bytes, at + 8) == f.frn
    &&& u64_at(bytes, at + parent_at(f.major)) == f.parent_frn
    &&& u64_at(bytes, b) == f.usn
    &&& u64_at(bytes, b + 8) == f.time
    &&& u32_at(bytes, b + 16) == f.reason
    &&& u32_at(bytes, b + 28) == f.attributes
    &&& u16_at(bytes, b + 32) == name_len
    &&& u16_at(bytes, b + 34) == fields_at(f.major) + 36
}

proof fn lemma_u32_part(bytes: Seq<u8>, at: int, x: u32)
    requires
        bytes.subrange(at, at + 4) == le4(x),
    ensures
        u32_at(bytes, at) == x,
{
    lemma_le4(x);
}

proof fn lemma_u64_part(bytes: Seq<u8>, at: int, x: u64)
    requires
        bytes.subrange(at, at + 8) == le8(x),
    ensures
        u64_at(bytes, at) == x,
{
    lemma_le8(x);
}

/// A head is read as its fields.
proof fn lemma_head_reads(bytes: Seq<u8>, at: int, f: RecordFields, len: u32, name_len: u16)
    requires
        f.major == 2 || f.major == 3,
        0 <= at,
        is_head(bytes, at, f, len, name_len),
    ensures
        reads_as(bytes, at, f, len, name_len),
{
    let b = at + fields_at(f.major);
    lemma_u32_part(bytes, at, len);
    lemma_u16_part(bytes, at + 4, f.major);
    lemma_u64_part(bytes, at + 8, f.frn);
    lemma_u64_part(bytes, at + parent_at(f.major), f.parent_frn);
    lemma_u64_part(bytes, b, f.usn);
    lemma_u64_part(bytes, b + 8, f.time);
    lemma_u32_part(bytes, b + 16, f.reason);
    lemma_u32_part(bytes, b + 28, f.attributes);
    lemma_u16_part(bytes, b + 32, name_len);
    lemma_u16_part(bytes, b + 34, (fields_at(f.major) + 36) as u16);
}

/// What a record says whose fields and name are these.
pub open spec fn said_by(f: RecordFields, wide: Seq<u16>) -> RecordView {
    RecordView {
        major_version: f.major,
        frn: f.frn,
        parent_frn: f.parent_frn,
        usn: f.usn as i64,
        timestamp_ft: f.time as i64,
        reason: f.reason,
        attributes: f.attributes,
        name: joined(wide_codes(wide)),
        name_lossy: !well_paired(wide),
    }
}

/// What a head and a name are read as.
proof fn lemma_record_read(bytes: Seq<u8>, at: int, f: RecordFields, wide: Seq<u16>, len: u32)
    requires
        f.major == 2 || f.major == 3,
        0 <= at,
        2 * wide.len() <= u16::MAX,
        fields_at(f.major) + 36 + 2 * wide.len() <= len,
        at + len <= bytes.len(),
        reads_as(bytes, at, f, len, (2 * wide.len()) as u16),
        wide_at(bytes, at + fields_at(f.major) + 36, wide.len()) == wide,
    ensures
        record_at(bytes, at) == Ok::<(RecordView, int), WalkError>((said_by(f, wide), len as int)),
{
    let n = (2 * wide.len()) as u16;
    assert(n % 2 == 0 && (n / 2) as nat == wide.len());
}

/// A buffer of the journal begins with the position to go on from.
pub proof fn law_position_is_read(next: u64, rest: Seq<u8>)
    ensures
        u64_at(le8(next) + rest, 0) == next,
        (le8(next) + rest).len() >= 8,
{
    lemma_le8(next);
    assert((le8(next) + rest).subrange(0, 8) =~= le8(next));
}

/// Which bytes are no record, and why: fewer than eight of them, a version other
/// than 2 and 3, a length below that of the fields (60 bytes and 76) or beyond
/// the end, and a name of an odd length or one that does not lie in the record.
pub proof fn law_no_record(bytes: Seq<u8>, at: int)
    requires
        0 <= at < bytes.len(),
    ensures
        ({
            let r = record_at(bytes, at);
            let len = value4(bytes.subrange(at, at + 4));
            let major = bytes[at + 4] + 256 * bytes[at + 5];
            let shortest = if major == 2 {
                60int
            } else {
                76
            };
            let name_len = bytes[at + shortest - 4] + 256 * bytes[at + shortest - 3];
            let name_at = bytes[at + shortest - 2] + 256 * bytes[at + shortest - 1];
            let fits = shortest <= len <= bytes.len() - at;
            let named = name_len % 2 == 0 && name_at + name_len <= len;
            &&& at + 8 > bytes.len() ==> r is Err && r->Err_0 == WalkError::BadLength
            &&& at + 8 <= bytes.len() ==> {
                &&& major != 2 && major != 3 ==> r is Err && r->Err_0 == WalkError::UnknownVersion
                &&& (major == 2 || major == 3) && !fits ==> r is Err && r->Err_0
                    == WalkError::BadLength
                &&& (major == 2 || major == 3) && fits && !named ==> r is Err && r->Err_0
                    == WalkError::BadName
                &&& (major == 2 || major == 3) && fits && named ==> r is Ok && r->Ok_0.1 == len
            }
            &&& r is Err ==> records_from(bytes, at) == Err::<Seq<RecordView>, WalkError>(r->Err_0)
        }),
{
}

} // verus!
