//! Answering a query over all volumes, as mathematics.
//!
//! A row is a volume's number and an entry of its index. The rows of a query
//! are gathered volume by volume, brought into one order, cut to the page asked
//! for and split into frames.

use super::merge::concat;
use super::rows::smaller;
use super::volume::{cached_target, VolumeState};
use crate::fold::folded;
use crate::proto::frame::framed;
use crate::proto::page::{page_bytes, Header, Item};
use crate::proto::PAGE_ROWS;
use crate::query::model::{matched, page, page_end, ranking};
use crate::query::parse::ParsedQuery;
use crate::stable::stable_sort;
use crate::types::{EntryIdx, SortDir, SortKey, SortSpec};
use vstd::prelude::*;

verus! {

/// A volume's number and an entry of its index.
pub type Row = (int, EntryIdx);

/// What a query asks of the rows, whatever its text.
pub struct Ask {
    pub sort: SortSpec,
    pub offset: u32,
    pub limit: Option<u32>,
    pub want_size: bool,
    pub want_mtime: bool,
    /// Whether the case counts in the scope's path.
    pub match_case: bool,
}

/// The number that a row is ordered by.
pub open spec fn row_number(vols: Seq<VolumeState>, key: SortKey, r: Row) -> int {
    let e = vols[r.0].index@.entry(r.1);
    match key {
        SortKey::Size => match e.size {
            Some(s) => s as int,
            None => 0,
        },
        SortKey::DateModified => match e.mtime {
            Some(t) => t as int,
            None => i64::MIN as int,
        },
        _ => 0,
    }
}

/// A row's path within its volume.
pub open spec fn row_path(vols: Seq<VolumeState>, r: Row) -> Seq<u8> {
    vols[r.0].index@.path_of(r.1)->0
}

/// The text that a row is ordered by: the folded name, or the folded path with
/// the volume's prefix.
pub open spec fn row_text(vols: Seq<VolumeState>, key: SortKey, r: Row) -> Seq<u8> {
    match key {
        SortKey::Name => vols[r.0].index@.folded_name(r.1),
        SortKey::Path => folded(vols[r.0].prefix_bytes() + row_path(vols, r)),
        _ => seq![],
    }
}

/// `a` comes strictly before `b`; equals stay as they are.
pub open spec fn row_before(vols: Seq<VolumeState>, sort: SortSpec) -> spec_fn(Row, Row) -> bool {
    |a: Row, b: Row|
        {
            let na = row_number(vols, sort.key, a);
            let nb = row_number(vols, sort.key, b);
            let ta = row_text(vols, sort.key, a);
            let tb = row_text(vols, sort.key, b);
            match sort.dir {
                SortDir::Asc => smaller(na, ta, nb, tb),
                SortDir::Desc => smaller(nb, tb, na, ta),
            }
        }
}

/// How many rows each volume has to give: enough for the page, wherever in the
/// merged list its rows end up.
pub open spec fn volume_limit(ask: Ask) -> Option<u32> {
    match ask.limit {
        Some(n) => Some(
            if ask.offset + n <= u32::MAX {
                (ask.offset + n) as u32
            } else {
                u32::MAX
            },
        ),
        None => None,
    }
}

/// The rows of one volume, in order. Where the limit cuts the matches, the
/// index picks and orders those that stay; where it takes in all of them, they
/// are sorted as all volumes' rows are.
pub open spec fn volume_rows(
    vols: Seq<VolumeState>,
    k: int,
    q: ParsedQuery,
    scope: Option<EntryIdx>,
    ask: Ask,
) -> Seq<Row> {
    let v = vols[k].index@;
    let m = matched(v, q, scope);
    let row = |i: EntryIdx| (k, i);
    if page_end(m.len(), 0, volume_limit(ask)) < m.len() {
        page(ranking(v, q, scope, ask.sort), 0, volume_limit(ask)).map_values(row)
    } else {
        stable_sort(m.map_values(row), row_before(vols, ask.sort))
    }
}

/// The part of a volume to search: nothing where its folder is missing there.
pub open spec fn scope_in(
    vols: Seq<VolumeState>,
    target: (int, Option<Seq<u8>>),
    match_case: bool,
) -> Option<Option<EntryIdx>> {
    match target.1 {
        None => Some(None),
        Some(rel) => match cached_target(
            vols[target.0].index@,
            vols[target.0].scope_cache,
            rel,
            match_case,
        ) {
            Some(e) => Some(Some(e)),
            None => None,
        },
    }
}

/// What the volumes gave.
#[verifier::ext_equal]
pub struct Gathered {
    /// One sorted run for each volume with rows.
    pub runs: Seq<Seq<Row>>,
    /// Matches in all.
    pub total: nat,
    /// Whether some volume's index is not as complete as it can be made.
    pub incomplete: bool,
    /// Whether some volume's sizes and times are still being gathered.
    pub pending: bool,
}

/// What the first `n` targets gave.
pub open spec fn gathered(
    vols: Seq<VolumeState>,
    targets: Seq<(int, Option<Seq<u8>>)>,
    q: ParsedQuery,
    ask: Ask,
    n: int,
) -> Gathered
    decreases n,
{
    if n <= 0 {
        Gathered { runs: seq![], total: 0, incomplete: false, pending: false }
    } else {
        let g = gathered(vols, targets, q, ask, n - 1);
        let t = targets[n - 1];
        let vol = vols[t.0];
        let flagged = Gathered {
            incomplete: g.incomplete || !vol.phase.complete(),
            pending: g.pending || vol.metadata_pending,
            ..g
        };
        match scope_in(vols, t, ask.match_case) {
            None => flagged,
            Some(scope) => {
                let rows = volume_rows(vols, t.0, q, scope, ask);
                Gathered {
                    runs: if rows.len() > 0 {
                        g.runs.push(rows)
                    } else {
                        g.runs
                    },
                    total: g.total + matched(vol.index@, q, scope).len(),
                    ..flagged
                }
            },
        }
    }
}

/// The runs brought into one order.
pub open spec fn merged_rows(vols: Seq<VolumeState>, runs: Seq<Seq<Row>>, sort: SortSpec) -> Seq<
    Row,
> {
    if runs.len() == 0 {
        seq![]
    } else if runs.len() == 1 {
        runs[0]
    } else {
        stable_sort(concat(runs), row_before(vols, sort))
    }
}

/// A row as it is sent.
pub open spec fn row_item(vols: Seq<VolumeState>, ask: Ask, r: Row) -> Item {
    let e = vols[r.0].index@.entry(r.1);
    Item {
        path: vols[r.0].prefix_bytes() + row_path(vols, r),
        is_dir: e.is_dir,
        size: if ask.want_size {
            e.size
        } else {
            None
        },
        mtime: if ask.want_mtime {
            e.mtime
        } else {
            None
        },
    }
}

/// What is the same on every frame of a reply.
pub struct Banner {
    pub total: u64,
    pub incomplete: bool,
    pub pending: bool,
}

/// The frame of one page.
pub open spec fn page_frame(b: Banner, more: bool, items: Seq<Item>) -> Seq<u8> {
    framed(
        page_bytes(
            Header {
                total: b.total,
                generation: 0,
                more,
                volumes_incomplete: b.incomplete,
                metadata_pending: b.pending,
                rows: items.len() as u32,
            },
            items,
        ),
    )
}

/// The frames of a reply: full pages, all but the last saying that more
/// follow. There is always a last one, also where there are no rows.
pub open spec fn frames_of(b: Banner, items: Seq<Item>) -> Seq<Seq<u8>>
    decreases items.len(),
{
    if items.len() <= PAGE_ROWS {
        seq![page_frame(b, false, items)]
    } else {
        seq![page_frame(b, true, items.take(PAGE_ROWS as int))] + frames_of(
            b,
            items.skip(PAGE_ROWS as int),
        )
    }
}

/// The rows of a reply.
pub open spec fn reply_items(vols: Seq<VolumeState>, g: Gathered, ask: Ask) -> Seq<Item> {
    page(merged_rows(vols, g.runs, ask.sort), ask.offset, ask.limit).map_values(
        |r: Row| row_item(vols, ask, r),
    )
}

/// The frames of a reply.
pub open spec fn reply_frames(
    vols: Seq<VolumeState>,
    targets: Seq<(int, Option<Seq<u8>>)>,
    q: ParsedQuery,
    ask: Ask,
) -> Seq<Seq<u8>> {
    let g = gathered(vols, targets, q, ask, targets.len() as int);
    frames_of(
        Banner { total: g.total as u64, incomplete: g.incomplete, pending: g.pending },
        reply_items(vols, g, ask),
    )
}

} // verus!
