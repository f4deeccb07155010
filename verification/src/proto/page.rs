//! Pages of results.
//!
//! A page is a header and rows. Header: tag, match count (8 bytes), generation
//! (8 bytes), flags, row count (4 bytes). Row: flags, length of the path
//! (4 bytes), the path, then size and modification time (8 bytes each) where
//! the flags say so. Numbers are little-endian.

use super::number::{
    bits_of, le4, le8, lemma_bits, lemma_le4, lemma_le8, push_u32, push_u64, read_u32, read_u64,
    value4, value8,
};
use crate::bytes::{append_bytes, copy_range};
use vstd::prelude::*;

verus! {

/// The first byte of a page.
pub const PAGE_TAG: u8 = 1;

/// Bytes of a header.
pub const HEADER_LEN: usize = 22;

/// One row, decoded.
#[derive(Debug)]
pub struct ResultItem {
    pub path: Vec<u8>,
    pub is_dir: bool,
    pub size: Option<u64>,
    /// Modification time, in 100 ns ticks since 1601.
    pub mtime_ft: Option<i64>,
}

/// One page, decoded.
#[derive(Debug)]
pub struct QueryResults {
    /// Matches in all.
    pub total: u64,
    pub generation: u64,
    /// Whether another page follows.
    pub more: bool,
    pub volumes_incomplete: bool,
    pub metadata_pending: bool,
    pub items: Vec<ResultItem>,
}

/// A row as mathematics.
#[verifier::ext_equal]
pub struct Item {
    pub path: Seq<u8>,
    pub is_dir: bool,
    pub size: Option<u64>,
    pub mtime: Option<i64>,
}

/// A header as mathematics.
pub struct Header {
    pub total: u64,
    pub generation: u64,
    pub more: bool,
    pub volumes_incomplete: bool,
    pub metadata_pending: bool,
    pub rows: u32,
}

impl ResultItem {
    /// The row.
    pub open spec fn item(&self) -> Item {
        Item { path: self.path@, is_dir: self.is_dir, size: self.size, mtime: self.mtime_ft }
    }
}

impl QueryResults {
    /// The rows.
    pub open spec fn rows(&self) -> Seq<Item> {
        self.items@.map_values(|i: ResultItem| i.item())
    }

    /// The header that the page had.
    pub open spec fn header(&self) -> Header {
        Header {
            total: self.total,
            generation: self.generation,
            more: self.more,
            volumes_incomplete: self.volumes_incomplete,
            metadata_pending: self.metadata_pending,
            rows: self.items@.len() as u32,
        }
    }
}

/// Three flags as one byte.
pub open spec fn flag_byte(a: bool, b: bool, c: bool) -> u8 {
    ((if a {
        1int
    } else {
        0
    }) + (if b {
        2int
    } else {
        0
    }) + (if c {
        4int
    } else {
        0
    })) as u8
}

fn to_flag_byte(a: bool, b: bool, c: bool) -> (f: u8)
    ensures
        f == flag_byte(a, b, c),
{
    let x: u8 = if a {
        1
    } else {
        0
    };
    let y: u8 = if b {
        2
    } else {
        0
    };
    let z: u8 = if c {
        4
    } else {
        0
    };
    x + y + z
}

/// The bytes of a header.
pub open spec fn header_bytes(h: Header) -> Seq<u8> {
    seq![PAGE_TAG] + le8(h.total) + le8(h.generation) + seq![
        flag_byte(h.more, h.volumes_incomplete, h.metadata_pending),
    ] + le4(h.rows)
}

/// The bytes of an optional number.
pub open spec fn optional_bytes(x: Option<u64>) -> Seq<u8> {
    match x {
        Some(n) => le8(n),
        None => seq![],
    }
}

/// The bits of an optional signed number.
pub open spec fn optional_bits(x: Option<i64>) -> Option<u64> {
    match x {
        Some(n) => Some(bits_of(n)),
        None => None,
    }
}

/// The bytes of a row.
pub open spec fn item_bytes(i: Item) -> Seq<u8> {
    seq![flag_byte(i.is_dir, i.size is Some, i.mtime is Some)] + le4(i.path.len() as u32) + i.path
        + optional_bytes(i.size) + optional_bytes(optional_bits(i.mtime))
}

/// The bytes of rows.
pub open spec fn rows_bytes(items: Seq<Item>) -> Seq<u8>
    decreases items.len(),
{
    if items.len() == 0 {
        seq![]
    } else {
        rows_bytes(items.drop_last()) + item_bytes(items.last())
    }
}

/// The bytes of a page.
pub open spec fn page_bytes(h: Header, items: Seq<Item>) -> Seq<u8> {
    header_bytes(h) + rows_bytes(items)
}

/// Appends a header.
pub fn push_results_header(
    out: &mut Vec<u8>,
    total: u64,
    generation: u64,
    more: bool,
    volumes_incomplete: bool,
    metadata_pending: bool,
    rows: u32,
)
    ensures
        final(out)@ == old(out)@ + header_bytes(
            (Header { total, generation, more, volumes_incomplete, metadata_pending, rows }),
        ),
{
    out.push(PAGE_TAG);
    push_u64(out, total);
    push_u64(out, generation);
    out.push(to_flag_byte(more, volumes_incomplete, metadata_pending));
    push_u32(out, rows);
    assert(out@ =~= old(out)@ + header_bytes(
        Header { total, generation, more, volumes_incomplete, metadata_pending, rows },
    ));
}

/// Appends a row.
pub fn push_item(
    out: &mut Vec<u8>,
    path: &[u8],
    is_dir: bool,
    size: Option<u64>,
    mtime: Option<i64>,
)
    ensures
        final(out)@ == old(out)@ + item_bytes((Item { path: path@, is_dir, size, mtime })),
{
    out.push(to_flag_byte(is_dir, size.is_some(), mtime.is_some()));
    push_u32(out, path.len() as u32);
    append_bytes(out, path);
    if let Some(n) = size {
        push_u64(out, n);
    }
    if let Some(t) = mtime {
        push_u64(out, t as u64);
    }
    assert(out@ =~= old(out)@ + item_bytes(Item { path: path@, is_dir, size, mtime }));
}

/// A flag of a flag byte.
pub open spec fn flag(f: u8, bit: u8) -> bool {
    f / bit % 2 == 1
}

/// A row read off the front of `bytes`, and the bytes it took.
pub open spec fn read_item(bytes: Seq<u8>) -> Option<(Item, int)> {
    if bytes.len() < 5 || bytes[0] >= 8 {
        None
    } else {
        let n = value4(bytes.subrange(1, 5)) as int;
        let sized = flag(bytes[0], 2);
        let timed = flag(bytes[0], 4);
        let at_size = 5 + n;
        let at_time = at_size + if sized {
            8int
        } else {
            0
        };
        let end = at_time + if timed {
            8int
        } else {
            0
        };
        if bytes.len() < end {
            None
        } else {
            Some(
                (
                    Item {
                        path: bytes.subrange(5, at_size),
                        is_dir: flag(bytes[0], 1),
                        size: if sized {
                            Some(value8(bytes.subrange(at_size, at_size + 8)))
                        } else {
                            None
                        },
                        mtime: if timed {
                            Some(value8(bytes.subrange(at_time, at_time + 8)) as i64)
                        } else {
                            None
                        },
                    },
                    end,
                ),
            )
        }
    }
}

/// So many rows, and nothing behind them.
pub open spec fn read_rows(bytes: Seq<u8>, rows: nat) -> Option<Seq<Item>>
    decreases rows,
{
    if rows == 0 {
        if bytes.len() == 0 {
            Some(seq![])
        } else {
            None
        }
    } else {
        match read_item(bytes) {
            None => None,
            Some((item, n)) => match read_rows(bytes.skip(n), (rows - 1) as nat) {
                None => None,
                Some(rest) => Some(seq![item] + rest),
            },
        }
    }
}

/// The header that `bytes` begin with.
pub open spec fn read_header(bytes: Seq<u8>) -> Option<Header> {
    if bytes.len() < HEADER_LEN || bytes[0] != PAGE_TAG || bytes[17] >= 8 {
        None
    } else {
        Some(
            Header {
                total: value8(bytes.subrange(1, 9)),
                generation: value8(bytes.subrange(9, 17)),
                more: flag(bytes[17], 1),
                volumes_incomplete: flag(bytes[17], 2),
                metadata_pending: flag(bytes[17], 4),
                rows: value4(bytes.subrange(18, 22)),
            },
        )
    }
}

/// The page that `bytes` are, if they are one.
pub open spec fn read_page(bytes: Seq<u8>) -> Option<(Header, Seq<Item>)> {
    match read_header(bytes) {
        None => None,
        Some(h) => match read_rows(bytes.skip(HEADER_LEN as int), h.rows as nat) {
            None => None,
            Some(items) => Some((h, items)),
        },
    }
}

proof fn lemma_flags(a: bool, b: bool, c: bool)
    ensures
        flag_byte(a, b, c) < 8,
        flag(flag_byte(a, b, c), 1) == a,
        flag(flag_byte(a, b, c), 2) == b,
        flag(flag_byte(a, b, c), 4) == c,
{
}

/// A row comes back as it was written, whatever follows it.
proof fn lemma_item_back(i: Item, rest: Seq<u8>)
    requires
        i.path.len() <= u32::MAX,
    ensures
        read_item(item_bytes(i) + rest) == Some((i, item_bytes(i).len() as int)),
        (item_bytes(i) + rest).skip(item_bytes(i).len() as int) == rest,
{
    let bytes = item_bytes(i) + rest;
    lemma_flags(i.is_dir, i.size is Some, i.mtime is Some);
    lemma_le4(i.path.len() as u32);
    assert(bytes.subrange(1, 5) =~= le4(i.path.len() as u32));
    let n = i.path.len() as int;
    assert(bytes.subrange(5, 5 + n) =~= i.path);
    let at_time = 5 + n + optional_bytes(i.size).len();
    if i.size is Some {
        lemma_le8(i.size->0);
        assert(bytes.subrange(5 + n, 5 + n + 8) =~= le8(i.size->0));
    }
    if i.mtime is Some {
        lemma_le8(bits_of(i.mtime->0));
        lemma_bits(i.mtime->0);
        assert(bytes.subrange(at_time, at_time + 8) =~= le8(bits_of(i.mtime->0)));
    }
    assert(bytes.skip(item_bytes(i).len() as int) =~= rest);
}

/// Rows in front.
proof fn lemma_rows_front(items: Seq<Item>)
    requires
        items.len() > 0,
    ensures
        rows_bytes(items) == item_bytes(items[0]) + rows_bytes(items.drop_first()),
    decreases items.len(),
{
    let init = items.drop_last();
    if items.len() == 1 {
        assert(init =~= Seq::<Item>::empty());
        assert(items.drop_first() =~= Seq::<Item>::empty());
        assert(rows_bytes(init) =~= Seq::<u8>::empty());
        assert(rows_bytes(items) =~= item_bytes(items[0]) + rows_bytes(items.drop_first()));
    } else {
        lemma_rows_front(init);
        assert(init.drop_first() =~= items.drop_first().drop_last());
        assert(rows_bytes(items) =~= item_bytes(items[0]) + rows_bytes(items.drop_first()));
    }
}

/// Rows come back as they were written.
proof fn lemma_rows_back(items: Seq<Item>)
    requires
        forall|k: int| 0 <= k < items.len() ==> (#[trigger] items[k]).path.len() <= u32::MAX,
    ensures
        read_rows(rows_bytes(items), items.len()) == Some(items),
    decreases items.len(),
{
    if items.len() == 0 {
        assert(items =~= Seq::<Item>::empty());
    } else {
        let rest = items.drop_first();
        assert forall|k: int| 0 <= k < rest.len() implies (#[trigger] rest[k]).path.len()
            <= u32::MAX by {
            assert(rest[k] == items[k + 1]);
        }
        lemma_rows_front(items);
        lemma_item_back(items[0], rows_bytes(rest));
        lemma_rows_back(rest);
        assert(seq![items[0]] + rest =~= items);
    }
}

/// A page comes back as it was written.
pub proof fn law_page_comes_back(h: Header, items: Seq<Item>)
    requires
        h.rows == items.len(),
        forall|k: int| 0 <= k < items.len() ==> (#[trigger] items[k]).path.len() <= u32::MAX,
    ensures
        read_page(page_bytes(h, items)) == Some((h, items)),
{
    let bytes = page_bytes(h, items);
    lemma_le8(h.total);
    lemma_le8(h.generation);
    lemma_le4(h.rows);
    lemma_flags(h.more, h.volumes_incomplete, h.metadata_pending);
    assert(header_bytes(h).len() == 22);
    assert(bytes[0] == PAGE_TAG);
    assert(bytes.subrange(1, 9) =~= le8(h.total));
    assert(bytes.subrange(9, 17) =~= le8(h.generation));
    assert(bytes[17] == flag_byte(h.more, h.volumes_incomplete, h.metadata_pending));
    assert(bytes.subrange(18, 22) =~= le4(h.rows));
    assert(bytes.skip(22) =~= rows_bytes(items));
    lemma_rows_back(items);
}

/// Reads the row at `at`, and tells where it ends.
fn decode_item(bytes: &[u8], at: usize) -> (res: Option<(ResultItem, usize)>)
    requires
        at <= bytes@.len(),
    ensures
        match res {
            Some((item, end)) => at <= end <= bytes@.len() && read_item(bytes@.skip(at as int))
                == Some((item.item(), end - at)),
            None => read_item(bytes@.skip(at as int)) is None,
        },
{
    let ghost s = bytes@.skip(at as int);
    let left: usize = bytes.len() - at;
    if left < 5 || bytes[at] >= 8 {
        return None;
    }
    let f = bytes[at];
    let n = read_u32(bytes, at + 1) as usize;
    assert(bytes@.subrange(at + 1, at + 5) =~= s.subrange(1, 5));
    let sized = f / 2 % 2 == 1;
    let timed = f / 4 % 2 == 1;
    let tail: usize = (if sized {
        8usize
    } else {
        0
    }) + (if timed {
        8usize
    } else {
        0
    });
    if left - 5 < n || left - 5 - n < tail {
        return None;
    }
    let path = copy_range(bytes, at + 5, at + 5 + n);
    assert(bytes@.subrange(at + 5, at + 5 + n) =~= s.subrange(5, 5 + n));
    let mut end: usize = at + 5 + n;
    let mut size: Option<u64> = None;
    if sized {
        assert(bytes@.subrange(end as int, end + 8) =~= s.subrange(5 + n, 5 + n + 8));
        size = Some(read_u64(bytes, end));
        end += 8;
    }
    let mut mtime_ft: Option<i64> = None;
    if timed {
        assert(bytes@.subrange(end as int, end + 8) =~= s.subrange(end - at, end - at + 8));
        mtime_ft = Some(read_u64(bytes, end) as i64);
        end += 8;
    }
    Some((ResultItem { path, is_dir: f % 2 == 1, size, mtime_ft }, end))
}

/// Reads a page; nothing where `bytes` are none.
pub fn decode_page(bytes: &[u8]) -> (res: Option<QueryResults>)
    ensures
        match res {
            Some(page) => read_page(bytes@) is Some && (read_page(bytes@)->0).1 == page.rows()
                && (read_page(bytes@)->0).0 == page.header(),
            None => read_page(bytes@) is None,
        },
{
    if bytes.len() < HEADER_LEN || bytes[0] != PAGE_TAG || bytes[17] >= 8 {
        return None;
    }
    let total = read_u64(bytes, 1);
    let generation = read_u64(bytes, 9);
    let f = bytes[17];
    let rows = read_u32(bytes, 18);
    let ghost body = bytes@.skip(HEADER_LEN as int);
    let mut items: Vec<ResultItem> = Vec::new();
    let mut at: usize = HEADER_LEN;
    let mut i: u32 = 0;
    let ghost all = read_rows(body, rows as nat);
    let ghost view = |i: ResultItem| i.item();
    assert(items@.map_values(view) =~= Seq::<Item>::empty());
    proof {
        assert(all == match read_rows(bytes@.skip(at as int), rows as nat) {
            Some(rest) => Some(items@.map_values(view) + rest),
            None => None,
        }) by {
            if all is Some {
                assert(Seq::<Item>::empty() + all->0 =~= all->0);
            }
        }
    }
    while i < rows
        invariant
            i <= rows,
            at <= bytes@.len(),
            items@.len() == i,
            view == (|i: ResultItem| i.item()),
            read_header(bytes@) is Some,
            read_header(bytes@)->0.rows == rows,
            all == read_rows(bytes@.skip(HEADER_LEN as int), rows as nat),
            all == match read_rows(bytes@.skip(at as int), (rows - i) as nat) {
                Some(rest) => Some(items@.map_values(view) + rest),
                None => None,
            },
        decreases rows - i,
    {
        match decode_item(bytes, at) {
            None => return None,
            Some((item, end)) => {
                let ghost was = items@;
                let ghost left = (rows - i - 1) as nat;
                items.push(item);
                proof {
                    let s = bytes@.skip(at as int);
                    assert(s.skip(end - at) =~= bytes@.skip(end as int));
                    match read_rows(bytes@.skip(end as int), left) {
                        Some(rest) => {
                            assert(was.map_values(view) + (seq![item.item()] + rest)
                                =~= items@.map_values(view) + rest);
                        },
                        None => {},
                    }
                }
                at = end;
            },
        }
        i += 1;
    }
    if at < bytes.len() {
        assert(bytes@.skip(at as int).len() > 0);
        return None;
    }
    proof {
        assert(bytes@.skip(at as int).len() == 0);
        assert(items@.map_values(view) + Seq::<Item>::empty() =~= items@.map_values(view));
    }
    Some(
        QueryResults {
            total,
            generation,
            more: f % 2 == 1,
            volumes_incomplete: f / 2 % 2 == 1,
            metadata_pending: f / 4 % 2 == 1,
            items,
        },
    )
}

/// Where the parts of a page's header stand: a tag of 1, the number of matches,
/// the generation, a byte of flags worth 1, 2 and 4, and the number of rows.
pub proof fn law_header_layout(h: Header)
    ensures
        ({
            let b = header_bytes(h);
            &&& b.len() == 22
            &&& b[0] == 1
            &&& b.subrange(1, 9) == le8(h.total)
            &&& b.subrange(9, 17) == le8(h.generation)
            &&& b[17] == (if h.more {
                1int
            } else {
                0
            }) + (if h.volumes_incomplete {
                2int
            } else {
                0
            }) + (if h.metadata_pending {
                4int
            } else {
                0
            })
            &&& b.subrange(18, 22) == le4(h.rows)
        }),
{
    lemma_le8(h.total);
    lemma_le8(h.generation);
    lemma_le4(h.rows);
    let b = header_bytes(h);
    assert(b.subrange(1, 9) =~= le8(h.total));
    assert(b.subrange(9, 17) =~= le8(h.generation));
    assert(b.subrange(18, 22) =~= le4(h.rows));
}

/// Where the parts of a row stand: a byte of flags worth 1 for a directory, 2
/// for a size and 4 for a time, the length of the path, the path, then the size
/// and the time where there are any.
pub proof fn law_row_layout(i: Item)
    requires
        i.path.len() <= u32::MAX,
    ensures
        ({
            let b = item_bytes(i);
            let n = i.path.len() as int;
            let sized = if i.size is Some {
                8int
            } else {
                0
            };
            let timed = if i.mtime is Some {
                8int
            } else {
                0
            };
            &&& b.len() == 5 + n + sized + timed
            &&& b[0] == (if i.is_dir {
                1int
            } else {
                0
            }) + (if i.size is Some {
                2int
            } else {
                0
            }) + (if i.mtime is Some {
                4int
            } else {
                0
            })
            &&& b.subrange(1, 5) == le4(n as u32)
            &&& b.subrange(5, 5 + n) == i.path
            &&& i.size is Some ==> b.subrange(5 + n, 13 + n) == le8(i.size->0)
            &&& i.mtime is Some ==> b.subrange(5 + n + sized, 13 + n + sized) == le8(
                i.mtime->0 as u64,
            )
        }),
{
    let b = item_bytes(i);
    let n = i.path.len() as int;
    lemma_le4(n as u32);
    if i.size is Some {
        lemma_le8(i.size->0);
    }
    if i.mtime is Some {
        lemma_le8(bits_of(i.mtime->0));
    }
    assert(b.subrange(1, 5) =~= le4(n as u32));
    assert(b.subrange(5, 5 + n) =~= i.path);
    if i.size is Some {
        assert(b.subrange(5 + n, 13 + n) =~= le8(i.size->0));
    }
    if i.mtime is Some {
        let sized = if i.size is Some {
            8int
        } else {
            0
        };
        assert(b.subrange(5 + n + sized, 13 + n + sized) =~= le8(bits_of(i.mtime->0)));
    }
}

} // verus!
