//! Answering requests that are no queries.

use super::volume::VolumeState;
use crate::index::model::{arena, names_len};
use crate::index::{ComponentBytes, IndexMemory, VolumeIndex};
use crate::proto::{
    DaemonStatus, MemPair, ProtoError, Request, Response, VolumeMemory, VolumeStatus,
    PROTO_VERSION,
};
use crate::text::{append_number, decimal, join_detail, with_detail};
use crate::types::VolumePhase;
use vstd::prelude::*;
use vstd::string::StringExecFns;

verus! {

/// The daemon's name and version, as a greeting is answered with them.
pub const SERVER: &'static str = "gozd 0.1.0";

/// The memory that the process takes, as the system tells it.
#[derive(Clone, Copy, Debug, PartialEq, Eq, Structural)]
pub struct ProcessMemory {
    pub working_set: u64,
    pub private_bytes: u64,
}

/// Every volume's index is as complete as it can be made.
pub open spec fn all_complete(volumes: Seq<VolumeState>) -> bool {
    forall|k: int| 0 <= k < volumes.len() ==> (#[trigger] volumes[k]).phase.complete()
}

/// Whether every volume's index is as complete as it can be made. Results, the
/// status and the greeting all go by this.
pub fn all_volumes_live(volumes: &Vec<VolumeState>) -> (res: bool)
    ensures
        res == all_complete(volumes@),
{
    let mut k: usize = 0;
    while k < volumes.len()
        invariant
            k <= volumes@.len(),
            forall|j: int| 0 <= j < k ==> (#[trigger] volumes@[j]).phase.complete(),
        decreases volumes@.len() - k,
    {
        if !volumes[k].phase.is_complete() {
            return false;
        }
        k += 1;
    }
    true
}

/// Whether every phase of a list is that of an index as complete as it can be
/// made.
pub fn all_phases_complete(phases: &Vec<VolumePhase>) -> (res: bool)
    ensures
        res == forall|k: int| 0 <= k < phases@.len() ==> (#[trigger] phases@[k]).complete(),
{
    let mut k: usize = 0;
    while k < phases.len()
        invariant
            k <= phases@.len(),
            forall|j: int| 0 <= j < k ==> (#[trigger] phases@[j]).complete(),
        decreases phases@.len() - k,
    {
        if !phases[k].is_complete() {
            return false;
        }
        k += 1;
    }
    true
}

/// A copy of a phase.
pub fn copy_phase(phase: &VolumePhase) -> (copy: VolumePhase)
    ensures
        copy == *phase,
{
    match phase {
        VolumePhase::Bootstrapping => VolumePhase::Bootstrapping,
        VolumePhase::Live => VolumePhase::Live,
        VolumePhase::Rescanning => VolumePhase::Rescanning,
        VolumePhase::Offline => VolumePhase::Offline,
        VolumePhase::Snapshot => VolumePhase::Snapshot,
        VolumePhase::Failed { reason } => VolumePhase::Failed { reason: reason.clone() },
    }
}

/// A copy of a list of texts.
pub fn copy_texts(texts: &Vec<String>) -> (copy: Vec<String>)
    ensures
        copy@ == texts@,
{
    let mut copy: Vec<String> = Vec::new();
    let mut k: usize = 0;
    while k < texts.len()
        invariant
            k <= texts@.len(),
            copy@ == texts@.take(k as int),
        decreases texts@.len() - k,
    {
        copy.push(texts[k].clone());
        assert(texts@.take(k + 1) =~= texts@.take(k as int).push(texts@[k as int]));
        k += 1;
    }
    assert(texts@.take(k as int) =~= texts@);
    copy
}

fn pair(c: ComponentBytes) -> (p: MemPair)
    ensures
        p == (MemPair { used: c.used, alloc: c.allocated }),
{
    MemPair { used: c.used, alloc: c.allocated }
}

fn memory_report(m: IndexMemory) -> (r: VolumeMemory)
    ensures
        r.entries == (MemPair { used: m.entries.used, alloc: m.entries.allocated }),
        r.arena_raw == (MemPair { used: m.arena_raw.used, alloc: m.arena_raw.allocated }),
        r.arena_folded == (MemPair { used: m.arena_folded.used, alloc: m.arena_folded.allocated }),
        r.frn_map == (MemPair { used: m.frn_map.used, alloc: m.frn_map.allocated }),
        r.name_tables == (MemPair { used: m.name_tables.used, alloc: m.name_tables.allocated }),
        r.dir_children == (MemPair { used: m.dir_children.used, alloc: m.dir_children.allocated }),
        r.frn_map_kind == m.frn_map_kind,
{
    VolumeMemory {
        entries: pair(m.entries),
        arena_raw: pair(m.arena_raw),
        arena_folded: pair(m.arena_folded),
        frn_map: pair(m.frn_map),
        name_tables: pair(m.name_tables),
        dir_children: pair(m.dir_children),
        frn_map_kind: m.frn_map_kind,
    }
}

/// No part fills more than it holds.
pub open spec fn within(p: MemPair) -> bool {
    p.used <= p.alloc
}

/// The report says what the parts of the index fill. What they hold beyond that
/// is the allocator's choice.
pub open spec fn reports_memory(m: VolumeMemory, index: VolumeIndex) -> bool {
    &&& m.entries.used == index@.entries_bytes()
    &&& m.arena_raw.used == names_len(index@.names)
    &&& m.arena_folded.used == arena(index@.names).len()
    &&& m.frn_map.used == index.frn_map_bytes()
    &&& m.name_tables.used == index@.name_tables_bytes()
    &&& m.dir_children.used == index@.dir_children_bytes()
    &&& within(m.entries)
    &&& within(m.arena_raw)
    &&& within(m.arena_folded)
    &&& within(m.frn_map)
    &&& within(m.name_tables)
    &&& within(m.dir_children)
    &&& m.frn_map_kind@ == index.map_kind().label_text()
}

/// The status says what holds of the volume.
pub open spec fn reports(status: VolumeStatus, vol: VolumeState) -> bool {
    &&& status.guid == vol.guid
    &&& status.mounts@ == vol.mounts@
    &&& status.phase == vol.phase
    &&& status.metadata_pending == vol.metadata_pending
    &&& status.entries == vol.index@.real_entries().len()
    &&& status.generation == vol.index.tally().generation
    &&& status.placeholders_created == vol.index.tally().placeholders_created
    &&& status.delete_of_unknown == vol.index.tally().delete_of_unknown
    &&& status.stale_slots == vol.index@.stale_entries().len()
    &&& status.link_reconciles_dropped == vol.index.tally().link_reconciles_dropped
    &&& status.memory is Some
    &&& reports_memory(status.memory->0, vol.index)
}

/// How one volume stands.
pub fn volume_status(
    guid: &String,
    mounts: &Vec<String>,
    phase: &VolumePhase,
    metadata_pending: bool,
    index: &VolumeIndex,
) -> (status: VolumeStatus)
    requires
        index.wf(),
    ensures
        forall|vol: VolumeState|
            vol.guid == *guid && vol.mounts == *mounts && vol.phase == *phase
                && vol.metadata_pending == metadata_pending && vol.index == *index
                ==> #[trigger] reports(status, vol),
{
    let stats = index.stats();
    VolumeStatus {
        guid: guid.clone(),
        mounts: copy_texts(mounts),
        phase: copy_phase(phase),
        entries: index.len() as u64,
        generation: index.generation(),
        metadata_pending,
        placeholders_created: stats.placeholders_created,
        delete_of_unknown: stats.delete_of_unknown,
        stale_slots: stats.stale_slots,
        link_reconciles_dropped: stats.link_reconciles_dropped,
        memory: Some(memory_report(index.memory())),
    }
}

/// The status holds those of the volumes, and what the process takes.
pub open spec fn gathers(
    status: DaemonStatus,
    volumes: Seq<VolumeStatus>,
    process: ProcessMemory,
) -> bool {
    &&& status.volumes@ == volumes
    &&& status.volumes_incomplete == exists|k: int|
        0 <= k < volumes.len() && !(#[trigger] volumes[k]).phase.complete()
    &&& status.process_working_set == process.working_set
    &&& status.process_private_bytes == process.private_bytes
}

/// How the daemon stands, from how its volumes stand.
pub fn daemon_status(volumes: Vec<VolumeStatus>, process: ProcessMemory) -> (status: DaemonStatus)
    ensures
        gathers(status, volumes@, process),
{
    let mut incomplete = false;
    let mut k: usize = 0;
    while k < volumes.len()
        invariant
            k <= volumes@.len(),
            incomplete == exists|j: int|
                0 <= j < k && !(#[trigger] volumes@[j]).phase.complete(),
        decreases volumes@.len() - k,
    {
        if !volumes[k].phase.is_complete() {
            incomplete = true;
        }
        k += 1;
    }
    DaemonStatus {
        volumes,
        volumes_incomplete: incomplete,
        process_working_set: process.working_set,
        process_private_bytes: process.private_bytes,
    }
}

/// The status says what holds of the volumes and of the process.
pub open spec fn status_right(
    status: DaemonStatus,
    volumes: Seq<VolumeState>,
    process: ProcessMemory,
) -> bool {
    &&& status.volumes@.len() == volumes.len()
    &&& forall|k: int|
        0 <= k < volumes.len() ==> reports(#[trigger] status.volumes@[k], volumes[k])
    &&& status.volumes_incomplete == !all_complete(volumes)
    &&& status.process_working_set == process.working_set
    &&& status.process_private_bytes == process.private_bytes
}

/// The list says how each of the volumes stands.
pub open spec fn lists_volumes(list: Seq<VolumeStatus>, volumes: Seq<VolumeState>) -> bool {
    &&& list.len() == volumes.len()
    &&& forall|k: int| 0 <= k < volumes.len() ==> reports(#[trigger] list[k], volumes[k])
}

/// How each of the volumes stands.
pub fn volume_statuses(volumes: &Vec<VolumeState>) -> (list: Vec<VolumeStatus>)
    requires
        forall|k: int| 0 <= k < volumes@.len() ==> (#[trigger] volumes@[k]).index.wf(),
    ensures
        lists_volumes(list@, volumes@),
{
    let mut list: Vec<VolumeStatus> = Vec::new();
    let mut k: usize = 0;
    while k < volumes.len()
        invariant
            k <= volumes@.len(),
            forall|j: int| 0 <= j < volumes@.len() ==> (#[trigger] volumes@[j]).index.wf(),
            list@.len() == k,
            forall|j: int| 0 <= j < k ==> reports(#[trigger] list@[j], volumes@[j]),
        decreases volumes@.len() - k,
    {
        let vol = &volumes[k];
        let status = volume_status(
            &vol.guid,
            &vol.mounts,
            &vol.phase,
            vol.metadata_pending,
            &vol.index,
        );
        assert(reports(status, volumes@[k as int]));
        list.push(status);
        k += 1;
    }
    list
}

/// What is gathered from a right list is right.
proof fn lemma_gathered_right(
    status: DaemonStatus,
    list: Seq<VolumeStatus>,
    volumes: Seq<VolumeState>,
    process: ProcessMemory,
)
    requires
        lists_volumes(list, volumes),
        gathers(status, list, process),
    ensures
        status_right(status, volumes, process),
{
    if status.volumes_incomplete {
        let j = choose|j: int| 0 <= j < list.len() && !(#[trigger] list[j]).phase.complete();
        assert(reports(list[j], volumes[j]));
        assert(!volumes[j].phase.complete());
    } else {
        assert forall|j: int| 0 <= j < volumes.len() implies (
        #[trigger] volumes[j]).phase.complete() by {
            assert(reports(list[j], volumes[j]));
            assert(list[j].phase.complete());
        }
    }
}

/// How things stand.
pub fn build_status(volumes: &Vec<VolumeState>, process: ProcessMemory) -> (status: DaemonStatus)
    requires
        forall|k: int| 0 <= k < volumes@.len() ==> (#[trigger] volumes@[k]).index.wf(),
    ensures
        status_right(status, volumes@, process),
{
    let list = volume_statuses(volumes);
    let ghost told = list@;
    let status = daemon_status(list, process);
    proof {
        lemma_gathered_right(status, told, volumes@, process);
    }
    status
}

/// A client that speaks the versions `proto_min` to `proto_max` can be served.
pub open spec fn speaks(proto_min: u16, proto_max: u16) -> bool {
    proto_min <= PROTO_VERSION <= proto_max
}

/// What a client is told that cannot be served.
pub open spec fn refusal(proto_min: u16, proto_max: u16) -> Seq<char> {
    "client speaks protocol "@ + decimal(proto_min as nat) + "..="@ + decimal(proto_max as nat)
        + "; this daemon speaks "@ + decimal(PROTO_VERSION as nat)
}

/// The greeting's answer is what it should be.
pub open spec fn greets(r: Response, ready: bool, proto_min: u16, proto_max: u16) -> bool {
    if speaks(proto_min, proto_max) {
        &&& r is Hello
        &&& r->proto == PROTO_VERSION
        &&& r->server@ == SERVER@
        &&& r->ready == ready
    } else {
        &&& r is Error
        &&& r->code == ProtoError::Unsupported
        &&& r->message@ == refusal(proto_min, proto_max)
    }
}

/// Answers a greeting. The daemon speaks one version, and a client whose range
/// does not take it in is refused: to agree on a version that neither side
/// speaks would garble what follows.
pub fn hello(ready: bool, proto_min: u16, proto_max: u16) -> (r: Response)
    ensures
        greets(r, ready, proto_min, proto_max),
{
    if proto_min > PROTO_VERSION || proto_max < PROTO_VERSION {
        let mut message = "client speaks protocol ".to_string();
        append_number(&mut message, proto_min as u64);
        message.append("..=");
        append_number(&mut message, proto_max as u64);
        message.append("; this daemon speaks ");
        append_number(&mut message, PROTO_VERSION as u64);
        return Response::Error { code: ProtoError::Unsupported, message };
    }
    Response::Hello { proto: PROTO_VERSION, server: SERVER.to_string(), ready }
}

/// Whether an answer takes a look at every volume.
pub fn asks_for_status(req: &Request) -> (res: bool)
    ensures
        res == (req is Status),
{
    match req {
        Request::Status => true,
        _ => false,
    }
}

/// Answers a greeting or a question for the status, from what was seen of the
/// volumes one by one: whether all are complete, and, where the request asks for
/// it, how each stands.
pub fn respond(
    req: &Request,
    ready: bool,
    volumes: Vec<VolumeStatus>,
    process: ProcessMemory,
) -> (r: Response)
    requires
        !(req is Query),
    ensures
        match req {
            Request::Hello { proto_min, proto_max, .. } => greets(
                r,
                ready,
                *proto_min,
                *proto_max,
            ),
            _ => r is Status && gathers(r->Status_0, volumes@, process),
        },
{
    match req {
        Request::Hello { proto_min, proto_max, .. } => hello(ready, *proto_min, *proto_max),
        _ => Response::Status(daemon_status(volumes, process)),
    }
}

/// Answers a greeting or a question for the status. Queries are answered with
/// frames of their own.
pub fn handle_request(volumes: &Vec<VolumeState>, process: ProcessMemory, req: &Request) -> (r:
    Response)
    requires
        forall|k: int| 0 <= k < volumes@.len() ==> (#[trigger] volumes@[k]).index.wf(),
        !(req is Query),
    ensures
        match req {
            Request::Hello { proto_min, proto_max, .. } => greets(
                r,
                all_complete(volumes@),
                *proto_min,
                *proto_max,
            ),
            _ => r is Status && status_right(r->Status_0, volumes@, process),
        },
{
    let list = if asks_for_status(req) {
        volume_statuses(volumes)
    } else {
        Vec::new()
    };
    let ghost told = list@;
    let r = respond(req, all_volumes_live(volumes), list, process);
    proof {
        if req is Status {
            lemma_gathered_right(r->Status_0, told, volumes@, process);
        }
    }
    r
}

/// What a client is told whose request cannot be read.
pub fn malformed(detail: &str) -> (r: Response)
    ensures
        r is Error,
        r->code == ProtoError::BadQuery,
        r->message@ == with_detail("malformed request"@, detail@),
{
    Response::Error {
        code: ProtoError::BadQuery,
        message: join_detail("malformed request", detail),
    }
}

/// A greeting that is answered and a status never contradict each other: the
/// daemon says that it is ready exactly where the status counts no volume as
/// incomplete.
pub proof fn law_ready_means_complete(
    volumes: Seq<VolumeState>,
    process: ProcessMemory,
    greeting: Response,
    status: DaemonStatus,
    proto_min: u16,
    proto_max: u16,
)
    requires
        speaks(proto_min, proto_max),
        greets(greeting, all_complete(volumes), proto_min, proto_max),
        status_right(status, volumes, process),
    ensures
        greeting is Hello,
        greeting->ready == !status.volumes_incomplete,
{
}

/// What a volume's status says, one by one: its identity, its phase, how many
/// names it holds, whether sizes and times are still being gathered, and what it
/// has counted.
pub proof fn law_status_says(status: VolumeStatus, vol: VolumeState)
    requires
        reports(status, vol),
    ensures
        status.guid == vol.guid,
        status.mounts@ == vol.mounts@,
        status.phase == vol.phase,
        status.metadata_pending == vol.metadata_pending,
        status.entries == vol.index@.entries.filter(
            |e: crate::index::model::Slot| e.live && !e.synthetic,
        ).len(),
        status.stale_slots == vol.index@.entries.filter(
            |e: crate::index::model::Slot| !e.live,
        ).len(),
        status.generation == vol.index.tally().generation,
        status.placeholders_created == vol.index.tally().placeholders_created,
        status.delete_of_unknown == vol.index.tally().delete_of_unknown,
        status.link_reconciles_dropped == vol.index.tally().link_reconciles_dropped,
        status.memory is Some,
        status.memory->0.arena_raw.used == names_len(vol.index@.names),
        status.memory->0.arena_folded.used == arena(vol.index@.names).len(),
        status.memory->0.entries.used <= status.memory->0.entries.alloc,
        status.memory->0.arena_raw.used <= status.memory->0.arena_raw.alloc,
        status.memory->0.arena_folded.used <= status.memory->0.arena_folded.alloc,
        status.memory->0.frn_map.used <= status.memory->0.frn_map.alloc,
        status.memory->0.name_tables.used <= status.memory->0.name_tables.alloc,
        status.memory->0.dir_children.used <= status.memory->0.dir_children.alloc,
{
    assert(vol.index@.real_entries() == vol.index@.entries.filter(
        |e: crate::index::model::Slot| e.live && !e.synthetic,
    ));
    assert(vol.index@.stale_entries() == vol.index@.entries.filter(
        |e: crate::index::model::Slot| !e.live,
    ));
}

/// The daemon's status lists every volume, in order, and says that something is
/// incomplete exactly where some volume is neither live nor a snapshot.
pub proof fn law_daemon_status_says(
    status: DaemonStatus,
    volumes: Seq<VolumeState>,
    process: ProcessMemory,
)
    requires
        status_right(status, volumes, process),
    ensures
        status.volumes@.len() == volumes.len(),
        forall|k: int| 0 <= k < volumes.len() ==> reports(#[trigger] status.volumes@[k], volumes[k]),
        status.volumes_incomplete <==> exists|k: int|
            0 <= k < volumes.len() && !((#[trigger] volumes[k]).phase is Live)
                && !(volumes[k].phase is Snapshot),
        status.process_working_set == process.working_set,
        status.process_private_bytes == process.private_bytes,
{
    if status.volumes_incomplete {
        let k = choose|k: int| 0 <= k < volumes.len() && !(#[trigger] volumes[k]).phase.complete();
        assert(!(volumes[k].phase is Live) && !(volumes[k].phase is Snapshot));
    }
    if exists|k: int|
        0 <= k < volumes.len() && !((#[trigger] volumes[k]).phase is Live) && !(volumes[k].phase
            is Snapshot) {
        let k = choose|k: int|
            0 <= k < volumes.len() && !((#[trigger] volumes[k]).phase is Live)
                && !(volumes[k].phase is Snapshot);
        assert(!volumes[k].phase.complete());
    }
}

/// A client is answered with version 1 exactly where its range takes 1 in, and is
/// told whether the daemon is ready; any other is refused.
pub proof fn law_greeting(r: Response, ready: bool, proto_min: u16, proto_max: u16)
    requires
        greets(r, ready, proto_min, proto_max),
    ensures
        proto_min <= 1 <= proto_max ==> r is Hello && r->proto == 1 && r->ready == ready,
        !(proto_min <= 1 <= proto_max) ==> r is Error && r->code == ProtoError::Unsupported,
{
}

} // verus!
