//! Journal and enumeration records.

use crate::types::Frn;
use vstd::prelude::*;

verus! {

/// Attribute bit of a directory.
pub const FILE_ATTRIBUTE_DIRECTORY: u32 = 0x10;

/// Reason bit: data was overwritten.
pub const USN_REASON_DATA_OVERWRITE: u32 = 0x1;

/// Reason bit: data was added.
pub const USN_REASON_DATA_EXTEND: u32 = 0x2;

/// Reason bit: data was cut off.
pub const USN_REASON_DATA_TRUNCATION: u32 = 0x4;

/// Reason bit: a file or directory was created.
pub const USN_REASON_FILE_CREATE: u32 = 0x100;

/// Reason bit: a file or directory was deleted.
pub const USN_REASON_FILE_DELETE: u32 = 0x200;

/// Reason bit: the record holds the name before a rename.
pub const USN_REASON_RENAME_OLD_NAME: u32 = 0x1000;

/// Reason bit: the record holds the name after a rename.
pub const USN_REASON_RENAME_NEW_NAME: u32 = 0x2000;

/// Reason bit: attributes or times changed.
pub const USN_REASON_BASIC_INFO_CHANGE: u32 = 0x8000;

/// Reason bit: a hard link was added or removed.
pub const USN_REASON_HARD_LINK_CHANGE: u32 = 0x1_0000;

/// Reason bit: the file was closed.
pub const USN_REASON_CLOSE: u32 = 0x8000_0000;

/// One record, decoded.
pub struct ParsedUsnRecord {
    pub major_version: u16,
    pub frn: Frn,
    pub parent_frn: Frn,
    pub usn: i64,
    /// When the change happened, in 100 ns ticks since 1601.
    pub timestamp_ft: i64,
    pub reason: u32,
    pub attributes: u32,
    /// The name, in WTF-8.
    pub name: Vec<u8>,
    /// Whether the name held an unpaired surrogate.
    pub name_lossy: bool,
}

impl ParsedUsnRecord {
    /// Whether the record is about a directory.
    pub open spec fn spec_is_dir(&self) -> bool {
        self.attributes & FILE_ATTRIBUTE_DIRECTORY != 0
    }

    /// Whether the record is about a directory.
    #[verifier::when_used_as_spec(spec_is_dir)]
    pub fn is_dir(&self) -> (res: bool)
        ensures
            res == self.is_dir(),
    {
        self.attributes & FILE_ATTRIBUTE_DIRECTORY != 0
    }
}

/// What a record does to the index.
#[derive(Clone, Copy, Debug, PartialEq, Eq, Structural)]
pub enum IndexOp {
    /// The file is gone.
    Delete,
    /// The name is gone.
    RemoveName,
    /// The name is there.
    AddName,
    /// The set of the file's names has to be looked up.
    ReconcileLinks,
    /// Size and time have to be looked up.
    Stat,
}

/// Whether a bit is set.
pub open spec fn has_bit(reason: u32, bit: u32) -> bool {
    reason & bit != 0
}

/// The data or the times changed.
pub open spec fn touches_stat(reason: u32) -> bool {
    ||| has_bit(reason, USN_REASON_FILE_CREATE)
    ||| has_bit(reason, USN_REASON_BASIC_INFO_CHANGE)
    ||| has_bit(reason, USN_REASON_DATA_OVERWRITE)
    ||| has_bit(reason, USN_REASON_DATA_EXTEND)
    ||| has_bit(reason, USN_REASON_DATA_TRUNCATION)
}

/// `op` alone, where it applies.
pub open spec fn op_if(applies: bool, op: IndexOp) -> Seq<IndexOp> {
    if applies {
        seq![op]
    } else {
        seq![]
    }
}

/// The name that the record gives is there. Where it is the name before a
/// rename, it is not, though the file may have been created under it.
pub open spec fn gives_name(reason: u32) -> bool {
    &&& !has_bit(reason, USN_REASON_RENAME_OLD_NAME)
    &&& has_bit(reason, USN_REASON_FILE_CREATE) || has_bit(reason, USN_REASON_RENAME_NEW_NAME)
}

/// What a reason does to the index, in order. A deletion overrides the rest.
pub open spec fn reason_ops(reason: u32) -> Seq<IndexOp> {
    if has_bit(reason, USN_REASON_FILE_DELETE) {
        seq![IndexOp::Delete]
    } else {
        op_if(has_bit(reason, USN_REASON_RENAME_OLD_NAME), IndexOp::RemoveName) + op_if(
            gives_name(reason),
            IndexOp::AddName,
        ) + op_if(has_bit(reason, USN_REASON_HARD_LINK_CHANGE), IndexOp::ReconcileLinks) + op_if(
            touches_stat(reason),
            IndexOp::Stat,
        )
    }
}

/// What a record does to the index, in order.
pub fn ops_for(record: &ParsedUsnRecord) -> (ops: Vec<IndexOp>)
    ensures
        ops@ == reason_ops(record.reason),
{
    let reason = record.reason;
    let mut ops: Vec<IndexOp> = Vec::new();
    if reason & USN_REASON_FILE_DELETE != 0 {
        ops.push(IndexOp::Delete);
        assert(ops@ =~= reason_ops(reason));
        return ops;
    }
    if reason & USN_REASON_RENAME_OLD_NAME != 0 {
        ops.push(IndexOp::RemoveName);
    } else if reason & USN_REASON_FILE_CREATE != 0 || reason & USN_REASON_RENAME_NEW_NAME != 0 {
        ops.push(IndexOp::AddName);
    }
    if reason & USN_REASON_HARD_LINK_CHANGE != 0 {
        ops.push(IndexOp::ReconcileLinks);
    }
    if reason & USN_REASON_FILE_CREATE != 0 || reason & USN_REASON_BASIC_INFO_CHANGE != 0 || reason
        & USN_REASON_DATA_OVERWRITE != 0 || reason & USN_REASON_DATA_EXTEND != 0 || reason
        & USN_REASON_DATA_TRUNCATION != 0 {
        ops.push(IndexOp::Stat);
    }
    assert(ops@ =~= reason_ops(reason));
    ops
}

/// What each bit of a reason asks for, in the numbers that the journal uses.
///
/// A deleted file (0x200) is dropped, and nothing else is done about it. Any
/// other record has size and time looked up exactly where the file was created
/// (0x100), its data overwritten (0x1), extended (0x2) or cut short (0x4), or its
/// basic information changed (0x8000), be it alone or together with others; it
/// takes the name away exactly where that is the name before a rename (0x1000),
/// else adds it where the file was created or the name is that after a rename
/// (0x2000); and it has the links looked up exactly where they changed
/// (0x1_0000). Each is asked for once, and sizes are looked up last.
pub proof fn law_ops_of_a_reason(reason: u32)
    ensures
        reason & 0x200 != 0 ==> reason_ops(reason) == seq![IndexOp::Delete],
        reason & 0x200 == 0 ==> {
            let ops = reason_ops(reason);
            &&& ops.no_duplicates()
            &&& !ops.contains(IndexOp::Delete)
            &&& ops.contains(IndexOp::Stat) <==> reason & 0x100 != 0 || reason & 0x1 != 0 || reason
                & 0x2 != 0 || reason & 0x4 != 0 || reason & 0x8000 != 0
            &&& ops.contains(IndexOp::RemoveName) <==> reason & 0x1000 != 0
            &&& ops.contains(IndexOp::AddName) <==> reason & 0x1000 == 0 && (reason & 0x100 != 0
                || reason & 0x2000 != 0)
            &&& ops.contains(IndexOp::ReconcileLinks) <==> reason & 0x1_0000 != 0
            &&& forall|k: int|
                0 <= k < ops.len() && #[trigger] ops[k] == IndexOp::Stat ==> k == ops.len() - 1
        },
{
    let ops = reason_ops(reason);
    let a = op_if(has_bit(reason, USN_REASON_RENAME_OLD_NAME), IndexOp::RemoveName);
    let b = op_if(gives_name(reason), IndexOp::AddName);
    let c = op_if(has_bit(reason, USN_REASON_HARD_LINK_CHANGE), IndexOp::ReconcileLinks);
    let d = op_if(touches_stat(reason), IndexOp::Stat);
    if reason & 0x200 == 0 {
        assert(ops =~= a + b + c + d);
        if a.len() > 0 {
            assert(ops[0] == IndexOp::RemoveName);
        }
        if b.len() > 0 {
            assert(ops[a.len() as int] == IndexOp::AddName);
        }
        if c.len() > 0 {
            assert(ops[(a + b).len() as int] == IndexOp::ReconcileLinks);
        }
        if d.len() > 0 {
            assert(ops[(a + b + c).len() as int] == IndexOp::Stat);
        }
    }
}

/// A record is about a directory exactly where its attributes have the bit 0x10.
pub proof fn law_directory_bit(rec: ParsedUsnRecord)
    ensures
        rec.is_dir() <==> rec.attributes & 0x10 != 0,
{
}

} // verus!
