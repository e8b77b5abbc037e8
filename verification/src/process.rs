//! A run over a device configuration as a session: it says what is to be done
//! next, takes in what came of it, and ends in a status or an error.

use vstd::prelude::*;
use vstd::string::*;

use crate::config;
use crate::config::{
    destination_path, item_destination, resolve_destination, Config, Entry, Item, ItemKind,
};
use crate::error;
use crate::error::Error;
use crate::kernel;
use crate::kernel::{parse_kernel_version, KernelVersion};
use crate::mount;
use crate::mount::{MountedPartition, MS_RDONLY};
use crate::partition;
use crate::partition::{
    dynpart_paths, map_dynpart, partition_lookups, select_partition_path, start_dynpart_mapping,
};
use crate::path;
use crate::path::join_path;
use crate::slot;
use crate::slot::Slot;
use crate::status;
use crate::status::{
    record_entry_failures, record_file_failure, record_partition_source, FileFailure,
    PartitionStatus, Status,
};
use crate::text::same_text;

verus! {

/// What a run is given: the configuration and its surroundings.
pub struct PlanView {
    pub config: config::ConfigView,
    pub extract_path: Seq<char>,
    pub mounts_dir: Seq<char>,
    pub kernel_release: Option<Seq<char>>,
    pub active_slot: Option<Slot>,
}

/// What a run has done so far.
pub struct RecordView {
    pub entries: Seq<Seq<char>>,
    pub partitions: Seq<status::SourceView>,
    pub failures: Seq<status::FailureView>,
}

/// Where a run stands.
pub enum Phase {
    /// The containers of dynamic partitions are looked for.
    FindContainers,
    /// The containers are mapped one after the other.
    MapContainers { paths: Vec<String>, attempts: Vec<(String, Option<Error>)> },
    /// The mapped partitions are awaited, after so many looks.
    AwaitMappings { looks: u8 },
    /// The run rests after so many looks.
    Pausing { looks: u8 },
    /// The partition of a raw entry is looked for.
    FindRaw { entry: usize },
    /// The partition of a raw entry is dumped.
    DumpRaw { entry: usize, origin: String },
    /// The destination of an entry is created.
    MakeDirectory { entry: usize },
    /// The partition of an entry is looked for.
    FindPartition { entry: usize },
    /// The partition of an entry is mounted.
    Mount { entry: usize, source: String },
    /// The source of an item is inspected.
    Inspect { entry: usize, item: u128, mounted: MountedPartition },
    /// An item is copied.
    Copy { entry: usize, item: u128, mounted: MountedPartition },
    /// What a failed squashing has left is removed.
    Discard { entry: usize, item: u128, mounted: MountedPartition, error: Error },
    /// The partition of an entry is unmounted.
    Release { entry: usize, mounted: MountedPartition },
    /// Every entry was dealt with.
    Finished,
    /// The run cannot go on.
    Aborted { error: Error },
}

/// A phase as a mathematical value.
pub enum PhaseView {
    FindContainers,
    MapContainers {
        paths: Seq<Seq<char>>,
        attempts: Seq<(Seq<char>, Option<error::ErrorView>)>,
    },
    AwaitMappings { looks: int },
    Pausing { looks: int },
    FindRaw { entry: int },
    DumpRaw { entry: int, origin: Seq<char> },
    MakeDirectory { entry: int },
    FindPartition { entry: int },
    Mount { entry: int, source: Seq<char> },
    Inspect { entry: int, item: int, mounted: mount::MountedView },
    Copy { entry: int, item: int, mounted: mount::MountedView },
    Discard { entry: int, item: int, mounted: mount::MountedView, error: error::ErrorView },
    Release { entry: int, mounted: mount::MountedView },
    Finished,
    Aborted { error: error::ErrorView },
}

impl DeepView for Phase {
    type V = PhaseView;

    open spec fn deep_view(&self) -> PhaseView {
        match self {
            Phase::FindContainers => PhaseView::FindContainers,
            Phase::MapContainers { paths, attempts } => PhaseView::MapContainers {
                paths: paths.deep_view(),
                attempts: attempts.deep_view(),
            },
            Phase::AwaitMappings { looks } => PhaseView::AwaitMappings { looks: *looks as int },
            Phase::Pausing { looks } => PhaseView::Pausing { looks: *looks as int },
            Phase::FindRaw { entry } => PhaseView::FindRaw { entry: *entry as int },
            Phase::DumpRaw { entry, origin } => PhaseView::DumpRaw {
                entry: *entry as int,
                origin: origin@,
            },
            Phase::MakeDirectory { entry } => PhaseView::MakeDirectory { entry: *entry as int },
            Phase::FindPartition { entry } => PhaseView::FindPartition { entry: *entry as int },
            Phase::Mount { entry, source } => PhaseView::Mount {
                entry: *entry as int,
                source: source@,
            },
            Phase::Inspect { entry, item, mounted } => PhaseView::Inspect {
                entry: *entry as int,
                item: *item as int,
                mounted: mounted.deep_view(),
            },
            Phase::Copy { entry, item, mounted } => PhaseView::Copy {
                entry: *entry as int,
                item: *item as int,
                mounted: mounted.deep_view(),
            },
            Phase::Discard { entry, item, mounted, error } => PhaseView::Discard {
                entry: *entry as int,
                item: *item as int,
                mounted: mounted.deep_view(),
                error: error.deep_view(),
            },
            Phase::Release { entry, mounted } => PhaseView::Release {
                entry: *entry as int,
                mounted: mounted.deep_view(),
            },
            Phase::Finished => PhaseView::Finished,
            Phase::Aborted { error } => PhaseView::Aborted { error: error.deep_view() },
        }
    }
}

/// What is to be done next.
#[derive(Debug)]
pub enum Task {
    /// Tell which of the paths exist.
    Probe { paths: Vec<String> },
    /// Start a system service.
    StartService { service: String },
    /// Count what is in a directory.
    CountEntries { directory: String },
    /// Wait.
    Pause { milliseconds: u64 },
    /// Create a directory with its parents.
    CreateDirectory { path: String },
    /// Mount a partition with the given flags.
    Mount { source: String, path: String, flags: u64 },
    /// Tell whether a path is a directory.
    Inspect { path: String },
    /// Copy a file, with the parents of its destination; an MDT image is
    /// squashed.
    CopyFile { source: String, destination: String, squash: bool },
    /// Copy a directory tree, with the parents of its destination.
    CopyDirectory { source: String, destination: String },
    /// Remove a file, as far as that works.
    RemoveFile { path: String },
    /// Unmount a partition and remove its mount point, as far as that works.
    Release { path: String },
    /// Dump a partition into a file, with the parents of its destination.
    DumpRaw { origin: String, destination: String },
    /// Nothing: the run has ended.
    Nothing,
}

/// A task as a mathematical value.
pub enum TaskView {
    Probe { paths: Seq<Seq<char>> },
    StartService { service: Seq<char> },
    CountEntries { directory: Seq<char> },
    Pause { milliseconds: u64 },
    CreateDirectory { path: Seq<char> },
    Mount { source: Seq<char>, path: Seq<char>, flags: u64 },
    Inspect { path: Seq<char> },
    CopyFile { source: Seq<char>, destination: Seq<char>, squash: bool },
    CopyDirectory { source: Seq<char>, destination: Seq<char> },
    RemoveFile { path: Seq<char> },
    Release { path: Seq<char> },
    DumpRaw { origin: Seq<char>, destination: Seq<char> },
    Nothing,
}

impl DeepView for Task {
    type V = TaskView;

    open spec fn deep_view(&self) -> TaskView {
        match self {
            Task::Probe { paths } => TaskView::Probe { paths: paths.deep_view() },
            Task::StartService { service } => TaskView::StartService { service: service@ },
            Task::CountEntries { directory } => TaskView::CountEntries { directory: directory@ },
            Task::Pause { milliseconds } => TaskView::Pause { milliseconds: *milliseconds },
            Task::CreateDirectory { path } => TaskView::CreateDirectory { path: path@ },
            Task::Mount { source, path, flags } => TaskView::Mount {
                source: source@,
                path: path@,
                flags: *flags,
            },
            Task::Inspect { path } => TaskView::Inspect { path: path@ },
            Task::CopyFile { source, destination, squash } => TaskView::CopyFile {
                source: source@,
                destination: destination@,
                squash: *squash,
            },
            Task::CopyDirectory { source, destination } => TaskView::CopyDirectory {
                source: source@,
                destination: destination@,
            },
            Task::RemoveFile { path } => TaskView::RemoveFile { path: path@ },
            Task::Release { path } => TaskView::Release { path: path@ },
            Task::DumpRaw { origin, destination } => TaskView::DumpRaw {
                origin: origin@,
                destination: destination@,
            },
            Task::Nothing => TaskView::Nothing,
        }
    }
}

/// What came of a task.
#[derive(Debug)]
pub enum Outcome {
    /// Those of the paths that exist.
    Existing { paths: Vec<String> },
    /// How much is in the directory, if it could be read.
    Counted { entries: Option<u64> },
    /// The partition is mounted.
    Mounted { partition: MountedPartition },
    /// The path exists, and may be a directory.
    Found { directory: bool },
    /// The task was done.
    Done,
    /// The task failed.
    Failed { error: Error },
}

/// An outcome as a mathematical value.
pub enum OutcomeView {
    Existing { paths: Seq<Seq<char>> },
    Counted { entries: Option<u64> },
    Mounted { partition: mount::MountedView },
    Found { directory: bool },
    Done,
    Failed { error: error::ErrorView },
}

impl DeepView for Outcome {
    type V = OutcomeView;

    open spec fn deep_view(&self) -> OutcomeView {
        match self {
            Outcome::Existing { paths } => OutcomeView::Existing { paths: paths.deep_view() },
            Outcome::Counted { entries } => OutcomeView::Counted { entries: *entries },
            Outcome::Mounted { partition } => OutcomeView::Mounted {
                partition: partition.deep_view(),
            },
            Outcome::Found { directory } => OutcomeView::Found { directory: *directory },
            Outcome::Done => OutcomeView::Done,
            Outcome::Failed { error } => OutcomeView::Failed { error: error.deep_view() },
        }
    }
}

/// A run as a mathematical value.
pub struct SessionView {
    pub plan: PlanView,
    pub record: RecordView,
    pub phase: PhaseView,
}

/// The directory of the mapped partitions.
pub open spec fn mapper_dir() -> Seq<char> {
    "/dev/mapper"@
}

/// The directory of the partitions by label.
pub open spec fn partlabel_dir() -> Seq<char> {
    "/dev/disk/by-partlabel"@
}

/// Where the partition of a raw entry is looked for.
pub open spec fn raw_roots() -> Seq<Seq<char>> {
    seq![partlabel_dir()]
}

/// Where a partition that is mounted is looked for.
pub open spec fn mount_roots() -> Seq<Seq<char>> {
    seq![mapper_dir(), partlabel_dir()]
}

/// How often mapped partitions are looked for.
pub open spec fn most_looks() -> int {
    5
}

/// The version of the running kernel, as far as it is known.
pub open spec fn running_kernel(plan: PlanView) -> Option<KernelVersion> {
    match plan.kernel_release {
        Some(release) => kernel::version_of(release),
        None => None,
    }
}

/// The entry at an index.
pub open spec fn entry_at(plan: PlanView, entry: int) -> config::EntryView {
    plan.config.extract[entry]
}

/// The destination of an entry; without one the entry is skipped.
pub open spec fn destination_of(plan: PlanView, entry: int) -> Option<Seq<char>> {
    match config::resolved(entry_at(plan, entry).to, running_kernel(plan)) {
        Some(to) => Some(config::placed(to, plan.extract_path)),
        None => None,
    }
}

/// The destination of an entry that has one.
pub open spec fn dest_dir(plan: PlanView, entry: int) -> Seq<char> {
    destination_of(plan, entry).unwrap()
}

/// How many items an entry has: files first, then directories.
pub open spec fn item_count(entry: config::EntryView) -> int {
    (entry.files.len() + entry.dirs.len()) as int
}

/// The item of an entry at an index.
pub open spec fn item_at(entry: config::EntryView, item: int) -> config::ItemView {
    if item < entry.files.len() {
        entry.files[item]
    } else {
        entry.dirs[item - entry.files.len()]
    }
}

/// Whether the item of an entry at an index is a file or a directory.
pub open spec fn kind_at(entry: config::EntryView, item: int) -> ItemKind {
    if item < entry.files.len() {
        ItemKind::File
    } else {
        ItemKind::Dir
    }
}

/// Where an item lands.
pub open spec fn item_target(plan: PlanView, entry: int, item: int) -> Seq<char> {
    config::item_path(
        dest_dir(plan, entry),
        item_at(entry_at(plan, entry), item),
        kind_at(entry_at(plan, entry), item),
    )
}

/// The directory on a mounted partition that the items are relative to.
pub open spec fn source_base(entry: config::EntryView, mounted: mount::MountedView) -> Seq<char> {
    path::join(mounted.path, status::from_directory(entry))
}

/// The source of an item on a mounted partition.
pub open spec fn item_source(
    plan: PlanView,
    entry: int,
    item: int,
    mounted: mount::MountedView,
) -> Seq<char> {
    path::join(
        source_base(entry_at(plan, entry), mounted),
        item_at(entry_at(plan, entry), item).from,
    )
}

/// The first entry from `from` on that has a destination.
pub open spec fn next_entry(plan: PlanView, from: int) -> int
    decreases plan.config.extract.len() - from,
{
    if from >= plan.config.extract.len() {
        plan.config.extract.len() as int
    } else if destination_of(plan, from) is Some {
        from
    } else {
        next_entry(plan, from + 1)
    }
}

/// The phase in which the entries from `from` on are taken up.
pub open spec fn entry_phase(plan: PlanView, from: int) -> PhaseView {
    let entry = next_entry(plan, from);
    if entry >= plan.config.extract.len() {
        PhaseView::Finished
    } else if entry_at(plan, entry).raw {
        PhaseView::FindRaw { entry }
    } else {
        PhaseView::MakeDirectory { entry }
    }
}

/// The phase in which the items of an entry from `item` on are taken up.
pub open spec fn item_phase(
    plan: PlanView,
    entry: int,
    item: int,
    mounted: mount::MountedView,
) -> PhaseView {
    if item < item_count(entry_at(plan, entry)) {
        PhaseView::Inspect { entry, item, mounted }
    } else if mounted.temporary {
        PhaseView::Release { entry, mounted }
    } else {
        entry_phase(plan, entry + 1)
    }
}

/// The name of the dynamic partition container, where there is one.
pub open spec fn container(plan: PlanView) -> Seq<char> {
    plan.config.dynpart.unwrap()
}

/// The attempts with those added that fail because a container has no name.
pub open spec fn tried(
    paths: Seq<Seq<char>>,
    attempts: Seq<(Seq<char>, Option<error::ErrorView>)>,
) -> Seq<(Seq<char>, Option<error::ErrorView>)>
    decreases paths.len() - attempts.len(),
{
    if attempts.len() >= paths.len() {
        attempts
    } else {
        match partition::mapping_service(paths[attempts.len() as int]) {
            Ok(_) => attempts,
            Err(error) => tried(
                paths,
                attempts.push((paths[attempts.len() as int], Some(error))),
            ),
        }
    }
}

/// The sources to record for mapped containers.
pub open spec fn container_sources(part: Seq<char>, mapped: Seq<Seq<char>>) -> Seq<
    status::SourceView,
> {
    mapped.map_values(
        |source: Seq<char>| status::SourceView { partition: "dynpart:"@ + part, source },
    )
}

/// The run once some containers were tried: the next one is, or the mapped
/// ones are recorded and awaited.
pub open spec fn after_attempts(
    session: SessionView,
    paths: Seq<Seq<char>>,
    attempts: Seq<(Seq<char>, Option<error::ErrorView>)>,
) -> SessionView {
    let all = tried(paths, attempts);
    if all.len() < paths.len() {
        SessionView { phase: PhaseView::MapContainers { paths, attempts: all }, ..session }
    } else {
        match partition::mapping_result(container(session.plan), session.plan.active_slot, all) {
            Err(error) => SessionView { phase: PhaseView::Aborted { error }, ..session },
            Ok(mapped) => SessionView {
                record: RecordView {
                    partitions: session.record.partitions + container_sources(
                        container(session.plan),
                        mapped,
                    ),
                    ..session.record
                },
                phase: PhaseView::AwaitMappings { looks: 0 },
                ..session
            },
        }
    }
}

/// The run once the containers were looked for.
pub open spec fn after_containers(session: SessionView, existing: Seq<Seq<char>>) -> SessionView {
    match partition::container_paths(
        container(session.plan),
        session.plan.active_slot,
        partlabel_dir(),
        existing,
    ) {
        Err(error) => SessionView { phase: PhaseView::Aborted { error }, ..session },
        Ok(paths) => after_attempts(session, paths, Seq::empty()),
    }
}

/// The run with one more path extracted.
pub open spec fn with_entry(session: SessionView, path: Seq<char>, phase: PhaseView) -> SessionView {
    SessionView {
        record: RecordView { entries: session.record.entries.push(path), ..session.record },
        phase,
        ..session
    }
}

/// The run with more failures.
pub open spec fn with_failures(
    session: SessionView,
    failures: Seq<status::FailureView>,
    phase: PhaseView,
) -> SessionView {
    SessionView {
        record: RecordView {
            failures: session.record.failures + failures,
            ..session.record
        },
        phase,
        ..session
    }
}

/// The run with the source of a partition recorded.
pub open spec fn with_partition(
    session: SessionView,
    part: Seq<char>,
    source: Seq<char>,
    phase: PhaseView,
) -> SessionView {
    SessionView {
        record: RecordView {
            partitions: status::with_source(
                session.record.partitions,
                status::SourceView { partition: part, source },
            ),
            ..session.record
        },
        phase,
        ..session
    }
}

/// The run once a raw entry failed; such an entry is never required.
pub open spec fn raw_failed(
    session: SessionView,
    entry: int,
    source: Seq<char>,
    error: Seq<char>,
) -> SessionView {
    with_failures(
        session,
        seq![
            status::FailureView {
                partition: entry_at(session.plan, entry).partition,
                source,
                destination: dest_dir(session.plan, entry),
                required: false,
                error,
            },
        ],
        entry_phase(session.plan, entry + 1),
    )
}

/// The run once an entry failed as a whole.
pub open spec fn entry_failed(session: SessionView, entry: int, error: Seq<char>) -> SessionView {
    with_failures(
        session,
        status::entry_failures(
            entry_at(session.plan, entry),
            dest_dir(session.plan, entry),
            error,
        ),
        entry_phase(session.plan, entry + 1),
    )
}

/// The run once an item failed.
pub open spec fn item_failed(
    session: SessionView,
    entry: int,
    item: int,
    mounted: mount::MountedView,
    error: Seq<char>,
) -> SessionView {
    with_failures(
        session,
        seq![
            status::item_failure(
                entry_at(session.plan, entry).partition,
                source_base(entry_at(session.plan, entry), mounted),
                dest_dir(session.plan, entry),
                item_at(entry_at(session.plan, entry), item),
                kind_at(entry_at(session.plan, entry), item),
                error,
            ),
        ],
        item_phase(session.plan, entry, item + 1, mounted),
    )
}

/// The run once the partition of a raw entry was looked for.
pub open spec fn after_raw_found(session: SessionView, entry: int, existing: Seq<Seq<char>>) -> SessionView {
    let part = entry_at(session.plan, entry).partition;
    match partition::selected_path(part, session.plan.active_slot, raw_roots(), existing) {
        Ok(origin) => with_partition(session, part, origin, PhaseView::DumpRaw { entry, origin }),
        Err(error) => raw_failed(
            session,
            entry,
            part,
            "unable to find partition: "@ + error.message,
        ),
    }
}

/// What is said when a partition is not mounted.
pub open spec fn unmountable(error: error::ErrorView) -> Seq<char> {
    "unable to mount source partition: "@ + error.message
}

/// The run once the partition of an entry was looked for.
pub open spec fn after_partition_found(
    session: SessionView,
    entry: int,
    existing: Seq<Seq<char>>,
) -> SessionView {
    let part = entry_at(session.plan, entry).partition;
    match partition::selected_path(part, session.plan.active_slot, mount_roots(), existing) {
        Ok(source) => SessionView { phase: PhaseView::Mount { entry, source }, ..session },
        Err(error) => entry_failed(session, entry, unmountable(error)),
    }
}

/// Where the partition of an entry is mounted, unless it is mounted already.
pub open spec fn mount_path(plan: PlanView, entry: int) -> Seq<char> {
    path::join(plan.mounts_dir, entry_at(plan, entry).partition)
}

/// Whether a mounted partition is what was asked for: the device selected, and
/// at the place asked for if it was mounted for this run.
pub open spec fn as_asked(
    plan: PlanView,
    entry: int,
    source: Seq<char>,
    mounted: mount::MountedView,
) -> bool {
    &&& mounted.source == source
    &&& mounted.temporary ==> mounted.path == mount_path(plan, entry)
}

/// The run once the partition of an entry was mounted.
pub open spec fn after_mounted(
    session: SessionView,
    entry: int,
    mounted: mount::MountedView,
) -> SessionView {
    with_partition(
        session,
        entry_at(session.plan, entry).partition,
        mounted.source,
        item_phase(session.plan, entry, 0, mounted),
    )
}

/// The run once an item was found to be a directory or not.
pub open spec fn after_inspected(
    session: SessionView,
    entry: int,
    item: int,
    mounted: mount::MountedView,
    directory: bool,
) -> SessionView {
    let wanted = kind_at(entry_at(session.plan, entry), item) == ItemKind::Dir;
    if directory == wanted {
        SessionView { phase: PhaseView::Copy { entry, item, mounted }, ..session }
    } else if wanted {
        item_failed(session, entry, item, mounted, "source is not a directory"@)
    } else {
        item_failed(session, entry, item, mounted, "source is not a file"@)
    }
}

/// Whether an item is squashed when it is copied.
pub open spec fn squashes(plan: PlanView, entry: int, item: int) -> bool {
    kind_at(entry_at(plan, entry), item) == ItemKind::File && config::is_mdt(
        item_at(entry_at(plan, entry), item),
    )
}

/// What is said when an item is not copied.
pub open spec fn uncopied(error: error::ErrorView) -> Seq<char> {
    "unable to copy: "@ + error.message
}

/// The run once an item was not copied: what a squashing has left is removed
/// before the failure is recorded.
pub open spec fn after_uncopied(
    session: SessionView,
    entry: int,
    item: int,
    mounted: mount::MountedView,
    error: error::ErrorView,
) -> SessionView {
    if squashes(session.plan, entry, item) {
        SessionView { phase: PhaseView::Discard { entry, item, mounted, error }, ..session }
    } else {
        item_failed(session, entry, item, mounted, uncopied(error))
    }
}

/// The run after an outcome, if the outcome answers the task at hand.
pub open spec fn next(session: SessionView, outcome: OutcomeView) -> Option<SessionView> {
    match session.phase {
        PhaseView::FindContainers => match outcome {
            OutcomeView::Existing { paths } => Some(after_containers(session, paths)),
            _ => None,
        },
        PhaseView::MapContainers { paths, attempts } => match outcome {
            OutcomeView::Done => Some(
                after_attempts(
                    session,
                    paths,
                    attempts.push((paths[attempts.len() as int], None)),
                ),
            ),
            OutcomeView::Failed { error } => Some(
                after_attempts(
                    session,
                    paths,
                    attempts.push((paths[attempts.len() as int], Some(error))),
                ),
            ),
            _ => None,
        },
        PhaseView::AwaitMappings { looks } => match outcome {
            OutcomeView::Counted { entries } => Some(
                SessionView {
                    phase: if entries matches Some(n) && n > 1 {
                        entry_phase(session.plan, 0)
                    } else {
                        PhaseView::Pausing { looks: looks + 1 }
                    },
                    ..session
                },
            ),
            _ => None,
        },
        PhaseView::Pausing { looks } => match outcome {
            OutcomeView::Done => Some(
                SessionView {
                    phase: if looks < most_looks() {
                        PhaseView::AwaitMappings { looks }
                    } else {
                        entry_phase(session.plan, 0)
                    },
                    ..session
                },
            ),
            _ => None,
        },
        PhaseView::FindRaw { entry } => match outcome {
            OutcomeView::Existing { paths } => Some(after_raw_found(session, entry, paths)),
            _ => None,
        },
        PhaseView::DumpRaw { entry, origin } => match outcome {
            OutcomeView::Done => Some(
                with_entry(
                    session,
                    dest_dir(session.plan, entry),
                    entry_phase(session.plan, entry + 1),
                ),
            ),
            OutcomeView::Failed { error } => Some(
                raw_failed(
                    session,
                    entry,
                    origin,
                    "unable to dump partition: "@ + error.message,
                ),
            ),
            _ => None,
        },
        PhaseView::MakeDirectory { entry } => match outcome {
            OutcomeView::Done => Some(
                SessionView { phase: PhaseView::FindPartition { entry }, ..session },
            ),
            OutcomeView::Failed { error } => Some(
                entry_failed(
                    session,
                    entry,
                    "unable to create destination directory: "@ + error.message,
                ),
            ),
            _ => None,
        },
        PhaseView::FindPartition { entry } => match outcome {
            OutcomeView::Existing { paths } => Some(
                after_partition_found(session, entry, paths),
            ),
            _ => None,
        },
        PhaseView::Mount { entry, source } => match outcome {
            OutcomeView::Mounted { partition } => if as_asked(
                session.plan,
                entry,
                source,
                partition,
            ) {
                Some(after_mounted(session, entry, partition))
            } else {
                None
            },
            OutcomeView::Failed { error } => Some(
                entry_failed(session, entry, unmountable(error)),
            ),
            _ => None,
        },
        PhaseView::Inspect { entry, item, mounted } => match outcome {
            OutcomeView::Found { directory } => Some(
                after_inspected(session, entry, item, mounted, directory),
            ),
            OutcomeView::Failed { error } => Some(
                item_failed(
                    session,
                    entry,
                    item,
                    mounted,
                    "source does not exist: "@ + error.message,
                ),
            ),
            _ => None,
        },
        PhaseView::Copy { entry, item, mounted } => match outcome {
            OutcomeView::Done => Some(
                with_entry(
                    session,
                    item_target(session.plan, entry, item),
                    item_phase(session.plan, entry, item + 1, mounted),
                ),
            ),
            OutcomeView::Failed { error } => Some(
                after_uncopied(session, entry, item, mounted, error),
            ),
            _ => None,
        },
        PhaseView::Discard { entry, item, mounted, error } => match outcome {
            OutcomeView::Done => Some(
                item_failed(session, entry, item, mounted, uncopied(error)),
            ),
            _ => None,
        },
        PhaseView::Release { entry, .. } => match outcome {
            OutcomeView::Done => Some(
                SessionView { phase: entry_phase(session.plan, entry + 1), ..session },
            ),
            _ => None,
        },
        PhaseView::Finished => None,
        PhaseView::Aborted { .. } => None,
    }
}

/// What is to be done next in a run.
pub open spec fn task_of(session: SessionView) -> TaskView {
    let plan = session.plan;
    match session.phase {
        PhaseView::FindContainers => TaskView::Probe {
            paths: container_lookups(plan),
        },
        PhaseView::MapContainers { paths, attempts } => TaskView::StartService {
            service: partition::mapping_service(paths[attempts.len() as int])->Ok_0,
        },
        PhaseView::AwaitMappings { .. } => TaskView::CountEntries { directory: mapper_dir() },
        PhaseView::Pausing { .. } => TaskView::Pause { milliseconds: 100 },
        PhaseView::FindRaw { entry } => TaskView::Probe {
            paths: partition::lookups(
                partition::partition_names(entry_at(plan, entry).partition, plan.active_slot),
                raw_roots(),
            ),
        },
        PhaseView::DumpRaw { entry, origin } => TaskView::DumpRaw {
            origin,
            destination: dest_dir(plan, entry),
        },
        PhaseView::MakeDirectory { entry } => TaskView::CreateDirectory {
            path: dest_dir(plan, entry),
        },
        PhaseView::FindPartition { entry } => TaskView::Probe {
            paths: partition::lookups(
                partition::partition_names(entry_at(plan, entry).partition, plan.active_slot),
                mount_roots(),
            ),
        },
        PhaseView::Mount { entry, source } => TaskView::Mount {
            source,
            path: mount_path(plan, entry),
            flags: mount::MS_RDONLY,
        },
        PhaseView::Inspect { entry, item, mounted } => TaskView::Inspect {
            path: item_source(plan, entry, item, mounted),
        },
        PhaseView::Copy { entry, item, mounted } => match kind_at(entry_at(plan, entry), item) {
            ItemKind::File => TaskView::CopyFile {
                source: item_source(plan, entry, item, mounted),
                destination: item_target(plan, entry, item),
                squash: config::is_mdt(item_at(entry_at(plan, entry), item)),
            },
            ItemKind::Dir => TaskView::CopyDirectory {
                source: item_source(plan, entry, item, mounted),
                destination: item_target(plan, entry, item),
            },
        },
        PhaseView::Discard { entry, item, .. } => TaskView::RemoveFile {
            path: item_target(plan, entry, item),
        },
        PhaseView::Release { mounted, .. } => TaskView::Release { path: mounted.path },
        PhaseView::Finished => TaskView::Nothing,
        PhaseView::Aborted { .. } => TaskView::Nothing,
    }
}

/// What a run has come to, once it has ended.
pub open spec fn result_of(session: SessionView) -> Option<
    Result<status::StatusView, error::ErrorView>,
> {
    match session.phase {
        PhaseView::Finished => Some(
            Ok(
                status::StatusView {
                    entries: session.record.entries,
                    kernel_release: session.plan.kernel_release,
                    active_slot: match session.plan.active_slot {
                        Some(known) => Some(slot::slot_suffix(known)),
                        None => None,
                    },
                    partitions: session.record.partitions,
                    failures: session.record.failures,
                },
            ),
        ),
        PhaseView::Aborted { error } => Some(Err(error)),
        _ => None,
    }
}

/// The error of the first entry that is not valid.
pub open spec fn first_invalid(entries: Seq<config::EntryView>) -> Option<error::ErrorView>
    decreases entries.len(),
{
    if entries.len() == 0 {
        None
    } else {
        match config::entry_validity(entries.first()) {
            Err(error) => Some(error),
            Ok(_) => first_invalid(entries.drop_first()),
        }
    }
}

/// A run before its first outcome.
pub open spec fn started(plan: PlanView) -> SessionView {
    SessionView {
        plan,
        record: RecordView {
            entries: Seq::empty(),
            partitions: Seq::empty(),
            failures: Seq::empty(),
        },
        phase: if plan.config.dynpart is Some {
            PhaseView::FindContainers
        } else {
            entry_phase(plan, 0)
        },
    }
}

/// Whether an entry that has a destination is at an index.
pub open spec fn open_entry(plan: PlanView, entry: int) -> bool {
    0 <= entry < plan.config.extract.len() && destination_of(plan, entry) is Some
}

/// Whether every entry of the configuration is valid.
pub open spec fn sound(plan: PlanView) -> bool {
    forall|i: int|
        0 <= i < plan.config.extract.len() ==> config::entry_validity(
            #[trigger] plan.config.extract[i],
        ) is Ok
}

/// The paths where the container is looked for.
pub open spec fn container_lookups(plan: PlanView) -> Seq<Seq<char>> {
    partition::lookups(
        partition::partition_names(container(plan), plan.active_slot),
        raw_roots(),
    )
}

/// Whether containers are those that the slot admits: they were looked up, none
/// is there twice, and there is one where the slot is known.
pub open spec fn admitted(plan: PlanView, paths: Seq<Seq<char>>) -> bool {
    &&& plan.active_slot is Some ==> paths.len() == 1
    &&& paths.no_duplicates()
    &&& forall|i: int| 0 <= i < paths.len() ==> container_lookups(plan).contains(#[trigger] paths[i])
}

/// Whether attempts were made at containers in their order.
pub open spec fn in_turn(
    paths: Seq<Seq<char>>,
    attempts: Seq<(Seq<char>, Option<error::ErrorView>)>,
) -> bool {
    &&& attempts.len() <= paths.len()
    &&& forall|i: int| 0 <= i < attempts.len() ==> (#[trigger] attempts[i]).0 == paths[i]
}

/// Whether a phase speaks of containers, entries and items that there are, and
/// of device files that were looked up.
pub open spec fn fits(plan: PlanView, phase: PhaseView) -> bool {
    match phase {
        PhaseView::FindContainers => plan.config.dynpart is Some,
        PhaseView::MapContainers { paths, attempts } => {
            &&& plan.config.dynpart is Some
            &&& attempts.len() < paths.len() <= 3
            &&& admitted(plan, paths)
            &&& in_turn(paths, attempts)
            &&& partition::mapping_service(paths[attempts.len() as int]) is Ok
        },
        PhaseView::AwaitMappings { looks } => 0 <= looks < most_looks(),
        PhaseView::Pausing { looks } => 1 <= looks <= most_looks(),
        PhaseView::FindRaw { entry } => open_entry(plan, entry) && entry_at(plan, entry).raw,
        PhaseView::DumpRaw { entry, origin } => {
            &&& open_entry(plan, entry)
            &&& entry_at(plan, entry).raw
            &&& partition::lookups(
                partition::partition_names(entry_at(plan, entry).partition, plan.active_slot),
                raw_roots(),
            ).contains(origin)
        },
        PhaseView::MakeDirectory { entry } => open_entry(plan, entry) && !entry_at(plan, entry).raw,
        PhaseView::FindPartition { entry } => open_entry(plan, entry) && !entry_at(plan, entry).raw,
        PhaseView::Mount { entry, source } => {
            &&& open_entry(plan, entry)
            &&& !entry_at(plan, entry).raw
            &&& partition::lookups(
                partition::partition_names(entry_at(plan, entry).partition, plan.active_slot),
                mount_roots(),
            ).contains(source)
        },
        PhaseView::Inspect { entry, item, .. } => {
            &&& open_entry(plan, entry)
            &&& !entry_at(plan, entry).raw
            &&& 0 <= item < item_count(entry_at(plan, entry))
        },
        PhaseView::Copy { entry, item, .. } => {
            &&& open_entry(plan, entry)
            &&& !entry_at(plan, entry).raw
            &&& 0 <= item < item_count(entry_at(plan, entry))
        },
        PhaseView::Discard { entry, item, .. } => {
            &&& open_entry(plan, entry)
            &&& !entry_at(plan, entry).raw
            &&& 0 <= item < item_count(entry_at(plan, entry))
        },
        PhaseView::Release { entry, mounted } => {
            &&& open_entry(plan, entry)
            &&& !entry_at(plan, entry).raw
            &&& mounted.temporary
        },
        PhaseView::Finished => true,
        PhaseView::Aborted { .. } => true,
    }
}

/// What holds of every run.
pub open spec fn valid(session: SessionView) -> bool {
    sound(session.plan) && fits(session.plan, session.phase)
}

/// The next entry that has a destination.
proof fn lemma_next_entry(plan: PlanView, from: int)
    requires
        0 <= from <= plan.config.extract.len(),
    ensures
        from <= next_entry(plan, from) <= plan.config.extract.len(),
        next_entry(plan, from) < plan.config.extract.len() ==> open_entry(
            plan,
            next_entry(plan, from),
        ),
    decreases plan.config.extract.len() - from,
{
    if from < plan.config.extract.len() && destination_of(plan, from) is None {
        lemma_next_entry(plan, from + 1);
    }
}

/// Attempts are added only for containers without a name.
pub proof fn lemma_tried(
    paths: Seq<Seq<char>>,
    attempts: Seq<(Seq<char>, Option<error::ErrorView>)>,
)
    requires
        attempts.len() <= paths.len(),
    ensures
        attempts.len() <= tried(paths, attempts).len() <= paths.len(),
        tried(paths, attempts).len() < paths.len() ==> partition::mapping_service(
            paths[tried(paths, attempts).len() as int],
        ) is Ok,
        in_turn(paths, attempts) ==> in_turn(paths, tried(paths, attempts)),
    decreases paths.len() - attempts.len(),
{
    if attempts.len() < paths.len() {
        if let Err(error) = partition::mapping_service(paths[attempts.len() as int]) {
            lemma_tried(paths, attempts.push((paths[attempts.len() as int], Some(error))));
        }
    }
}

/// A container has at most three device files.
pub proof fn lemma_few_containers(
    part: Seq<char>,
    active_slot: Option<Slot>,
    partlabel: Seq<char>,
    existing: Seq<Seq<char>>,
)
    ensures
        partition::container_paths(part, active_slot, partlabel, existing) matches Ok(paths)
            ==> 0 < paths.len() <= 3,
{
    if active_slot is None {
        partition::lemma_unknown_slot_maps_every_container(part, partlabel, existing);
    }
}

/// Taking up the entries from an index on gives a phase that fits.
proof fn lemma_entry_phase_fits(plan: PlanView, from: int)
    requires
        0 <= from <= plan.config.extract.len(),
    ensures
        fits(plan, entry_phase(plan, from)),
{
    lemma_next_entry(plan, from);
}

/// Taking up the items of an entry from an index on gives a phase that fits.
proof fn lemma_item_phase_fits(plan: PlanView, entry: int, item: int, mounted: mount::MountedView)
    requires
        open_entry(plan, entry),
        !entry_at(plan, entry).raw,
        0 <= item,
    ensures
        fits(plan, item_phase(plan, entry, item, mounted)),
{
    lemma_entry_phase_fits(plan, entry + 1);
}

/// A run over valid entries is valid from the start.
pub proof fn lemma_started_is_valid(plan: PlanView)
    requires
        sound(plan),
    ensures
        valid(started(plan)),
{
    lemma_entry_phase_fits(plan, 0);
}

/// The phase after some attempts fits.
proof fn lemma_attempts_fit(
    session: SessionView,
    paths: Seq<Seq<char>>,
    attempts: Seq<(Seq<char>, Option<error::ErrorView>)>,
)
    requires
        session.plan.config.dynpart is Some,
        paths.len() <= 3,
        admitted(session.plan, paths),
        in_turn(paths, attempts),
    ensures
        fits(session.plan, after_attempts(session, paths, attempts).phase),
        after_attempts(session, paths, attempts).plan == session.plan,
{
    lemma_tried(paths, attempts);
}

/// Whatever comes of the tasks, a run stays valid.
#[verifier::rlimit(50)]
pub proof fn lemma_runs_stay_valid(session: SessionView, outcome: OutcomeView)
    requires
        valid(session),
    ensures
        next(session, outcome) matches Some(after) ==> valid(after) && after.plan == session.plan,
{
    let plan = session.plan;
    match session.phase {
        PhaseView::FindContainers => {
            if let OutcomeView::Existing { paths } = outcome {
                lemma_few_containers(container(plan), plan.active_slot, partlabel_dir(), paths);
                partition::lemma_containers_were_looked_up(
                    container(plan),
                    plan.active_slot,
                    partlabel_dir(),
                    paths,
                );
                partition::lemma_containers_are_distinct(
                    container(plan),
                    plan.active_slot,
                    partlabel_dir(),
                    paths,
                );
                if let Ok(found) = partition::container_paths(
                    container(plan),
                    plan.active_slot,
                    partlabel_dir(),
                    paths,
                ) {
                    lemma_attempts_fit(session, found, Seq::empty());
                }
            }
        },
        PhaseView::MapContainers { paths, attempts } => {
            let path = paths[attempts.len() as int];
            lemma_attempts_fit(session, paths, attempts.push((path, None)));
            if let OutcomeView::Failed { error } = outcome {
                lemma_attempts_fit(session, paths, attempts.push((path, Some(error))));
            }
        },
        PhaseView::AwaitMappings { .. } => {
            lemma_entry_phase_fits(plan, 0);
        },
        PhaseView::Pausing { .. } => {
            lemma_entry_phase_fits(plan, 0);
        },
        PhaseView::FindRaw { entry } => {
            lemma_entry_phase_fits(plan, entry + 1);
            if let OutcomeView::Existing { paths } = outcome {
                partition::lemma_selection_was_looked_up(
                    entry_at(plan, entry).partition,
                    plan.active_slot,
                    raw_roots(),
                    paths,
                );
            }
        },
        PhaseView::DumpRaw { entry, .. } => {
            lemma_entry_phase_fits(plan, entry + 1);
        },
        PhaseView::MakeDirectory { entry } => {
            lemma_entry_phase_fits(plan, entry + 1);
        },
        PhaseView::FindPartition { entry } => {
            lemma_entry_phase_fits(plan, entry + 1);
            if let OutcomeView::Existing { paths } = outcome {
                partition::lemma_selection_was_looked_up(
                    entry_at(plan, entry).partition,
                    plan.active_slot,
                    mount_roots(),
                    paths,
                );
            }
        },
        PhaseView::Mount { entry, .. } => {
            lemma_entry_phase_fits(plan, entry + 1);
            if let OutcomeView::Mounted { partition } = outcome {
                lemma_item_phase_fits(plan, entry, 0, partition);
            }
        },
        PhaseView::Inspect { entry, item, mounted } => {
            lemma_item_phase_fits(plan, entry, item + 1, mounted);
        },
        PhaseView::Copy { entry, item, mounted } => {
            lemma_item_phase_fits(plan, entry, item + 1, mounted);
        },
        PhaseView::Discard { entry, item, mounted, .. } => {
            lemma_item_phase_fits(plan, entry, item + 1, mounted);
        },
        PhaseView::Release { entry, .. } => {
            lemma_entry_phase_fits(plan, entry + 1);
        },
        PhaseView::Finished => {},
        PhaseView::Aborted { .. } => {},
    }
}

/// A run over a configuration.
pub struct Session {
    config: Config,
    extract_path: String,
    mounts_dir: String,
    kernel_release: Option<String>,
    active_slot: Option<Slot>,
    entries: Vec<String>,
    partitions: Vec<PartitionStatus>,
    failures: Vec<FileFailure>,
    phase: Phase,
}

impl View for Session {
    type V = SessionView;

    closed spec fn view(&self) -> SessionView {
        SessionView {
            plan: PlanView {
                config: self.config.deep_view(),
                extract_path: self.extract_path@,
                mounts_dir: self.mounts_dir@,
                kernel_release: self.kernel_release.deep_view(),
                active_slot: self.active_slot,
            },
            record: RecordView {
                entries: self.entries.deep_view(),
                partitions: self.partitions.deep_view(),
                failures: self.failures.deep_view(),
            },
            phase: self.phase.deep_view(),
        }
    }
}

/// The directory of the partitions by label, as the only root.
fn raw_root_list() -> (roots: Vec<String>)
    ensures
        roots.deep_view() == raw_roots(),
{
    let mut roots: Vec<String> = Vec::new();
    roots.push("/dev/disk/by-partlabel".to_string());
    assert(roots.deep_view() =~= raw_roots());
    roots
}

/// The roots of the partitions that are mounted.
fn mount_root_list() -> (roots: Vec<String>)
    ensures
        roots.deep_view() == mount_roots(),
{
    let mut roots: Vec<String> = Vec::new();
    roots.push("/dev/mapper".to_string());
    roots.push("/dev/disk/by-partlabel".to_string());
    assert(roots.deep_view() =~= mount_roots());
    roots
}

/// The items of an entry fit the index that runs over them.
proof fn lemma_items_are_countable(entry: Entry)
    ensures
        item_count(entry.deep_view()) < u128::MAX,
{
    assert(entry.files.len() <= usize::MAX);
    assert(entry.dirs.len() <= usize::MAX);
}

/// A text with the message of an error behind it.
fn explained(text: &str, error: &Error) -> (message: String)
    ensures
        message@ == text@ + error.deep_view().message,
{
    let mut message = text.to_string();
    message.append(error.message());
    message
}

/// Adds the attempts that fail because a container has no name.
fn add_nameless(paths: &Vec<String>, attempts: &mut Vec<(String, Option<Error>)>)
    requires
        old(attempts)@.len() <= paths@.len(),
    ensures
        final(attempts).deep_view() == tried(paths.deep_view(), old(attempts).deep_view()),
{
    let ghost names = paths.deep_view();
    let ghost given = attempts.deep_view();
    while attempts.len() < paths.len()
        invariant
            names == paths.deep_view(),
            given == old(attempts).deep_view(),
            attempts@.len() <= paths@.len(),
            tried(names, given) == tried(names, attempts.deep_view()),
        decreases paths@.len() - attempts@.len(),
    {
        let ghost before = attempts.deep_view();
        let path = &paths[attempts.len()];
        assert(names[attempts@.len() as int] == path@);
        match start_dynpart_mapping(path.as_str()) {
            Ok(_) => {
                return ;
            },
            Err(error) => {
                let attempt = (path.clone(), Some(error));
                attempts.push(attempt);
                assert(attempts.deep_view() =~= before.push(attempt.deep_view()));
            },
        }
    }
}

impl Session {
    /// The destination of an entry.
    fn destination(&self, entry: usize) -> (destination: Option<String>)
        requires
            entry < self@.plan.config.extract.len(),
        ensures
            destination.deep_view() == destination_of(self@.plan, entry as int),
    {
        let running = match &self.kernel_release {
            Some(release) => parse_kernel_version(release.as_str()),
            None => None,
        };
        let chosen = &self.config.extract[entry];
        assert(entry_at(self@.plan, entry as int) == chosen.deep_view());
        match resolve_destination(&chosen.to, running, chosen.partition.as_str()) {
            Some(to) => Some(destination_path(to.as_str(), self.extract_path.as_str())),
            None => None,
        }
    }

    /// The destination of an entry that has one.
    fn known_destination(&self, entry: usize) -> (destination: String)
        requires
            open_entry(self@.plan, entry as int),
        ensures
            destination@ == dest_dir(self@.plan, entry as int),
    {
        match self.destination(entry) {
            Some(destination) => destination,
            None => String::new(),
        }
    }

    /// The entry at an index.
    fn entry(&self, entry: usize) -> (found: &Entry)
        requires
            entry < self@.plan.config.extract.len(),
        ensures
            found.deep_view() == entry_at(self@.plan, entry as int),
    {
        &self.config.extract[entry]
    }

    /// The phase in which the entries from an index on are taken up.
    fn phase_of_entries(&self, from: usize) -> (phase: Phase)
        requires
            from <= self@.plan.config.extract.len(),
        ensures
            phase.deep_view() == entry_phase(self@.plan, from as int),
    {
        let ghost plan = self@.plan;
        let mut entry: usize = from;
        while entry < self.config.extract.len()
            invariant
                plan == self@.plan,
                from <= entry <= plan.config.extract.len(),
                next_entry(plan, from as int) == next_entry(plan, entry as int),
            decreases plan.config.extract.len() - entry,
        {
            if self.destination(entry).is_some() {
                return if self.entry(entry).raw {
                    Phase::FindRaw { entry }
                } else {
                    Phase::MakeDirectory { entry }
                };
            }
            entry = entry + 1;
        }
        Phase::Finished
    }

    /// Where the partition of an entry is mounted.
    fn mountpath(&self, entry: usize) -> (path: String)
        requires
            entry < self@.plan.config.extract.len(),
        ensures
            path@ == mount_path(self@.plan, entry as int),
    {
        join_path(self.mounts_dir.as_str(), self.entry(entry).partition.as_str())
    }

    /// The item of an entry at an index.
    fn item(&self, entry: usize, item: u128) -> (found: (&Item, ItemKind))
        requires
            entry < self@.plan.config.extract.len(),
            item < item_count(entry_at(self@.plan, entry as int)),
        ensures
            found.0.deep_view() == item_at(entry_at(self@.plan, entry as int), item as int),
            found.1 == kind_at(entry_at(self@.plan, entry as int), item as int),
    {
        let chosen = self.entry(entry);
        let files: u128 = chosen.files.len() as u128;
        assert(item - files < chosen.dirs.len());
        if item < files {
            (&chosen.files[item as usize], ItemKind::File)
        } else {
            (&chosen.dirs[(item - files) as usize], ItemKind::Dir)
        }
    }

    /// The phase in which the items of an entry from an index on are taken up.
    fn phase_of_items(&self, entry: usize, item: u128, mounted: MountedPartition) -> (phase: Phase)
        requires
            entry < self@.plan.config.extract.len(),
        ensures
            phase.deep_view() == item_phase(
                self@.plan,
                entry as int,
                item as int,
                mounted.deep_view(),
            ),
    {
        let chosen = self.entry(entry);
        let count: u128 = chosen.files.len() as u128 + chosen.dirs.len() as u128;
        if item < count {
            Phase::Inspect { entry, item, mounted }
        } else if mounted.needs_cleanup() {
            Phase::Release { entry, mounted }
        } else {
            assert(entry < self.config.extract.len());
            self.phase_of_entries(entry + 1)
        }
    }

    /// The source of an item on a mounted partition.
    fn source(&self, entry: usize, item: u128, mounted: &MountedPartition) -> (source: String)
        requires
            entry < self@.plan.config.extract.len(),
            item < item_count(entry_at(self@.plan, entry as int)),
        ensures
            source@ == item_source(self@.plan, entry as int, item as int, mounted.deep_view()),
    {
        let base = join_path(mounted.path(), self.entry(entry).from_directory());
        join_path(base.as_str(), self.item(entry, item).0.from())
    }

    /// Where an item lands.
    fn target(&self, entry: usize, item: u128) -> (destination: String)
        requires
            open_entry(self@.plan, entry as int),
            item < item_count(entry_at(self@.plan, entry as int)),
        ensures
            destination@ == item_target(self@.plan, entry as int, item as int),
    {
        let (found, kind) = self.item(entry, item);
        item_destination(self.known_destination(entry).as_str(), found, kind)
    }
}

impl Session {
    /// Records the failure of a raw entry and goes on.
    fn fail_raw(&mut self, entry: usize, source: &str, error: &str)
        requires
            open_entry(old(self)@.plan, entry as int),
        ensures
            final(self)@ == raw_failed(old(self)@, entry as int, source@, error@),
    {
        let ghost before = self@;
        assert(entry < self.config.extract.len());
        let next = self.phase_of_entries(entry + 1);
        let part = self.entry(entry).partition.clone();
        let destination = self.known_destination(entry);
        record_file_failure(
            &mut self.failures,
            part.as_str(),
            source,
            destination.as_str(),
            false,
            error,
        );
        self.phase = next;
        assert(self@.record.failures =~= raw_failed(
            before,
            entry as int,
            source@,
            error@,
        ).record.failures);
    }

    /// Records the failure of everything in an entry and goes on.
    fn fail_entry(&mut self, entry: usize, error: &str)
        requires
            open_entry(old(self)@.plan, entry as int),
        ensures
            final(self)@ == entry_failed(old(self)@, entry as int, error@),
    {
        assert(entry < self.config.extract.len());
        let next = self.phase_of_entries(entry + 1);
        let destination = self.known_destination(entry);
        assert(entry_at(self@.plan, entry as int) == self.config.extract[entry as int].deep_view());
        record_entry_failures(
            &mut self.failures,
            &self.config.extract[entry],
            destination.as_str(),
            error,
        );
        self.phase = next;
    }

    /// Records the failure of an item and goes on.
    fn fail_item(&mut self, entry: usize, item: u128, mounted: MountedPartition, error: &str)
        requires
            open_entry(old(self)@.plan, entry as int),
            item < item_count(entry_at(old(self)@.plan, entry as int)),
        ensures
            final(self)@ == item_failed(
                old(self)@,
                entry as int,
                item as int,
                mounted.deep_view(),
                error@,
            ),
    {
        let ghost before = self@;
        let part = self.entry(entry).partition.clone();
        let source = self.source(entry, item, &mounted);
        let destination = self.target(entry, item);
        let required = self.item(entry, item).0.required();
        let ghost seen = mounted.deep_view();
        proof {
            lemma_items_are_countable(self.config.extract[entry as int]);
        }
        let next = self.phase_of_items(entry, item + 1, mounted);
        record_file_failure(
            &mut self.failures,
            part.as_str(),
            source.as_str(),
            destination.as_str(),
            required,
            error,
        );
        self.phase = next;
        assert(self@.record.failures =~= item_failed(
            before,
            entry as int,
            item as int,
            seen,
            error@,
        ).record.failures);
    }

    /// Takes in that an item was not copied.
    fn item_uncopied(&mut self, entry: usize, item: u128, mounted: MountedPartition, error: Error)
        requires
            open_entry(old(self)@.plan, entry as int),
            item < item_count(entry_at(old(self)@.plan, entry as int)),
        ensures
            final(self)@ == after_uncopied(
                old(self)@,
                entry as int,
                item as int,
                mounted.deep_view(),
                error.deep_view(),
            ),
    {
        let (found, kind) = self.item(entry, item);
        let squashed = kind == ItemKind::File && found.is_mdt_image();
        if squashed {
            self.phase = Phase::Discard { entry, item, mounted, error };
        } else {
            let message = explained("unable to copy: ", &error);
            self.fail_item(entry, item, mounted, message.as_str());
        }
    }

    /// Records a path that was extracted and goes on.
    fn extracted(&mut self, path: String, next: Phase)
        ensures
            final(self)@ == with_entry(old(self)@, path@, next.deep_view()),
    {
        let ghost before = self@;
        self.entries.push(path);
        self.phase = next;
        assert(self@.record.entries =~= before.record.entries.push(path@));
    }

    /// Takes in which containers exist.
    fn containers_found(&mut self, existing: &Vec<String>)
        requires
            old(self)@.plan.config.dynpart is Some,
        ensures
            final(self)@ == after_containers(old(self)@, existing.deep_view()),
    {
        let part = self.container_name();
        match dynpart_paths(part.as_str(), self.active_slot, "/dev/disk/by-partlabel", existing) {
            Ok(paths) => {
                let attempts: Vec<(String, Option<Error>)> = Vec::new();
                assert(attempts.deep_view() =~= Seq::empty());
                self.containers_tried(paths, attempts);
            },
            Err(error) => {
                self.phase = Phase::Aborted { error };
            },
        }
    }

    /// The name of the dynamic partition container.
    fn container_name(&self) -> (name: String)
        requires
            self@.plan.config.dynpart is Some,
        ensures
            name@ == container(self@.plan),
    {
        match &self.config.dynpart {
            Some(name) => name.clone(),
            None => String::new(),
        }
    }

    /// Takes up the next container, or records those that were mapped.
    fn containers_tried(&mut self, paths: Vec<String>, attempts: Vec<(String, Option<Error>)>)
        requires
            old(self)@.plan.config.dynpart is Some,
            attempts@.len() <= paths@.len(),
        ensures
            final(self)@ == after_attempts(old(self)@, paths.deep_view(), attempts.deep_view()),
    {
        let ghost before = self@;
        let ghost names = paths.deep_view();
        let ghost given = attempts.deep_view();
        let mut attempts = attempts;
        add_nameless(&paths, &mut attempts);
        if attempts.len() < paths.len() {
            self.phase = Phase::MapContainers { paths, attempts };
            return ;
        }
        let part = self.container_name();
        match map_dynpart(part.as_str(), self.active_slot, &attempts) {
            Ok(mapped) => {
                self.record_containers(part.as_str(), &mapped);
                self.phase = Phase::AwaitMappings { looks: 0 };
            },
            Err(error) => {
                self.phase = Phase::Aborted { error };
            },
        }
    }

    /// Records the containers that were mapped.
    fn record_containers(&mut self, part: &str, mapped: &Vec<String>)
        ensures
            final(self)@ == (SessionView {
                record: RecordView {
                    partitions: old(self)@.record.partitions + container_sources(
                        part@,
                        mapped.deep_view(),
                    ),
                    ..old(self)@.record
                },
                ..old(self)@
            }),
    {
        let ghost before = self@;
        let ghost all = container_sources(part@, mapped.deep_view());
        assert(before.record.partitions + all.take(0) =~= before.record.partitions);
        for i in 0..mapped.len()
            invariant
                all == container_sources(part@, mapped.deep_view()),
                all.len() == mapped@.len(),
                self@ == (SessionView {
                    record: RecordView {
                        partitions: before.record.partitions + all.take(i as int),
                        ..before.record
                    },
                    ..before
                }),
        {
            let ghost so_far = self@.record.partitions;
            let mut name = "dynpart:".to_string();
            name.append(part);
            let status = PartitionStatus { partition: name, source: mapped[i].clone() };
            self.partitions.push(status);
            assert(mapped.deep_view()[i as int] == mapped[i as int]@);
            assert(all[i as int] == status.deep_view());
            assert(self@.record.partitions =~= so_far.push(status.deep_view()));
            assert(self@.record.partitions =~= before.record.partitions + all.take(i + 1));
        }
        assert(all.take(all.len() as int) =~= all);
    }

    /// Takes in which device files of a raw entry exist.
    fn raw_found(&mut self, entry: usize, existing: &Vec<String>)
        requires
            open_entry(old(self)@.plan, entry as int),
        ensures
            final(self)@ == after_raw_found(old(self)@, entry as int, existing.deep_view()),
    {
        let part = self.entry(entry).partition.clone();
        match select_partition_path(
            part.as_str(),
            self.active_slot,
            &raw_root_list(),
            existing,
        ) {
            Ok(origin) => {
                record_partition_source(&mut self.partitions, part.as_str(), origin.as_str());
                self.phase = Phase::DumpRaw { entry, origin };
            },
            Err(error) => {
                let message = explained("unable to find partition: ", &error);
                self.fail_raw(entry, part.as_str(), message.as_str());
            },
        }
    }

    /// Takes in which device files of an entry exist.
    fn partition_found(&mut self, entry: usize, existing: &Vec<String>)
        requires
            open_entry(old(self)@.plan, entry as int),
        ensures
            final(self)@ == after_partition_found(old(self)@, entry as int, existing.deep_view()),
    {
        let part = self.entry(entry).partition.clone();
        match select_partition_path(
            part.as_str(),
            self.active_slot,
            &mount_root_list(),
            existing,
        ) {
            Ok(source) => {
                self.phase = Phase::Mount { entry, source };
            },
            Err(error) => {
                let message = explained("unable to mount source partition: ", &error);
                self.fail_entry(entry, message.as_str());
            },
        }
    }

    /// Takes in where the partition of an entry is mounted.
    fn partition_mounted(&mut self, entry: usize, mounted: MountedPartition)
        requires
            open_entry(old(self)@.plan, entry as int),
        ensures
            final(self)@ == after_mounted(old(self)@, entry as int, mounted.deep_view()),
    {
        let part = self.entry(entry).partition.clone();
        record_partition_source(&mut self.partitions, part.as_str(), mounted.source());
        self.phase = self.phase_of_items(entry, 0, mounted);
    }

    /// Takes in whether the source of an item is a directory.
    fn item_inspected(
        &mut self,
        entry: usize,
        item: u128,
        mounted: MountedPartition,
        directory: bool,
    )
        requires
            open_entry(old(self)@.plan, entry as int),
            item < item_count(entry_at(old(self)@.plan, entry as int)),
        ensures
            final(self)@ == after_inspected(
                old(self)@,
                entry as int,
                item as int,
                mounted.deep_view(),
                directory,
            ),
    {
        let wanted = self.item(entry, item).1 == ItemKind::Dir;
        if directory == wanted {
            self.phase = Phase::Copy { entry, item, mounted };
        } else if wanted {
            self.fail_item(entry, item, mounted, "source is not a directory");
        } else {
            self.fail_item(entry, item, mounted, "source is not a file");
        }
    }
}

/// A run over a configuration before its first outcome, unless an entry of the
/// configuration is not valid.
pub open spec fn begun(
    config: config::ConfigView,
    extract_path: Seq<char>,
    mounts_dir: Seq<char>,
    kernel_release: Option<Seq<char>>,
    active_slot: Option<Slot>,
) -> Result<SessionView, error::ErrorView> {
    match first_invalid(config.extract) {
        Some(error) => Err(error),
        None => Ok(
            started(PlanView { config, extract_path, mounts_dir, kernel_release, active_slot }),
        ),
    }
}

/// Begins a run over a configuration, unless an entry of it is not valid.
pub fn process(
    config: Config,
    extract_path: &str,
    mounts_dir: &str,
    running_kernel_release: Option<&str>,
    active_slot: Option<Slot>,
) -> (session: Result<Session, Error>)
    ensures
        match begun(
            config.deep_view(),
            extract_path@,
            mounts_dir@,
            running_kernel_release.deep_view(),
            active_slot,
        ) {
            Err(error) => session matches Err(e) && e.deep_view() == error,
            Ok(begin) => session matches Ok(run) && valid(run@) && run@ == begin,
        },
{
    let ghost all = config.extract.deep_view();
    assert(all.skip(0) =~= all);
    for i in 0..config.extract.len()
        invariant
            all == config.extract.deep_view(),
            first_invalid(all) == first_invalid(all.skip(i as int)),
            forall|j: int| 0 <= j < i ==> config::entry_validity(#[trigger] all[j]) is Ok,
    {
        assert(all[i as int] == config.extract[i as int].deep_view());
        assert(all.skip(i as int).drop_first() =~= all.skip(i + 1));
        match config.extract[i].validate() {
            Ok(_) => {},
            Err(error) => {
                return Err(error);
            },
        }
    }
    let kernel_release = match running_kernel_release {
        Some(release) => Some(release.to_string()),
        None => None,
    };
    let mut session = Session {
        config,
        extract_path: extract_path.to_string(),
        mounts_dir: mounts_dir.to_string(),
        kernel_release,
        active_slot,
        entries: Vec::new(),
        partitions: Vec::new(),
        failures: Vec::new(),
        phase: Phase::FindContainers,
    };
    if session.config.dynpart.is_none() {
        session.phase = session.phase_of_entries(0);
    }
    proof {
        lemma_entry_phase_fits(session@.plan, 0);
        assert(session@.record.entries =~= Seq::empty());
        assert(session@.record.partitions =~= Seq::empty());
        assert(session@.record.failures =~= Seq::empty());
    }
    Ok(session)
}

impl Session {
    /// What is to be done next.
    #[verifier::rlimit(50)]
    pub fn task(&self) -> (task: Task)
        requires
            valid(self@),
        ensures
            task.deep_view() == task_of(self@),
    {
        match &self.phase {
            Phase::FindContainers => Task::Probe {
                paths: partition_lookups(
                    self.container_name().as_str(),
                    self.active_slot,
                    &raw_root_list(),
                ),
            },
            Phase::MapContainers { paths, attempts } => {
                assert(paths.deep_view()[attempts@.len() as int] == paths[attempts@.len() as int]@);
                match start_dynpart_mapping(paths[attempts.len()].as_str()) {
                    Ok(service) => Task::StartService { service },
                    Err(_) => Task::Nothing,
                }
            },
            Phase::AwaitMappings { .. } => Task::CountEntries {
                directory: "/dev/mapper".to_string(),
            },
            Phase::Pausing { .. } => Task::Pause { milliseconds: 100 },
            Phase::FindRaw { entry } => Task::Probe {
                paths: partition_lookups(
                    self.entry(*entry).partition.as_str(),
                    self.active_slot,
                    &raw_root_list(),
                ),
            },
            Phase::DumpRaw { entry, origin } => Task::DumpRaw {
                origin: origin.clone(),
                destination: self.known_destination(*entry),
            },
            Phase::MakeDirectory { entry } => Task::CreateDirectory {
                path: self.known_destination(*entry),
            },
            Phase::FindPartition { entry } => Task::Probe {
                paths: partition_lookups(
                    self.entry(*entry).partition.as_str(),
                    self.active_slot,
                    &mount_root_list(),
                ),
            },
            Phase::Mount { entry, source } => Task::Mount {
                source: source.clone(),
                path: self.mountpath(*entry),
                flags: MS_RDONLY,
            },
            Phase::Inspect { entry, item, mounted } => Task::Inspect {
                path: self.source(*entry, *item, mounted),
            },
            Phase::Copy { entry, item, mounted } => {
                let source = self.source(*entry, *item, mounted);
                let destination = self.target(*entry, *item);
                let (found, kind) = self.item(*entry, *item);
                match kind {
                    ItemKind::File => Task::CopyFile {
                        source,
                        destination,
                        squash: found.is_mdt_image(),
                    },
                    ItemKind::Dir => Task::CopyDirectory { source, destination },
                }
            },
            Phase::Discard { entry, item, .. } => Task::RemoveFile {
                path: self.target(*entry, *item),
            },
            Phase::Release { mounted, .. } => Task::Release { path: mounted.path.clone() },
            Phase::Finished => Task::Nothing,
            Phase::Aborted { .. } => Task::Nothing,
        }
    }

    /// What the run has come to, once it has ended.
    pub fn finish(self) -> (result: Option<Result<Status, Error>>)
        ensures
            (match result {
                Some(ended) => Some(error::result_view(ended)),
                None => None,
            }) == result_of(self@),
    {
        match self.phase {
            Phase::Finished => {
                let active_slot = match self.active_slot {
                    Some(known) => Some(known.suffix().to_string()),
                    None => None,
                };
                Some(
                    Ok(
                        Status {
                            entries: self.entries,
                            kernel_release: self.kernel_release,
                            active_slot,
                            partitions: self.partitions,
                            failures: self.failures,
                        },
                    ),
                )
            },
            Phase::Aborted { error } => Some(Err(error)),
            _ => None,
        }
    }

    /// Takes in what came of the task at hand. An outcome that does not answer
    /// it is refused and changes nothing.
    #[verifier::rlimit(50)]
    pub fn advance(&mut self, outcome: Outcome) -> (accepted: bool)
        requires
            valid(old(self)@),
        ensures
            accepted == (next(old(self)@, outcome.deep_view()) is Some),
            final(self)@ == (match next(old(self)@, outcome.deep_view()) {
                Some(after) => after,
                None => old(self)@,
            }),
            valid(final(self)@),
    {
        proof {
            lemma_runs_stay_valid(self@, outcome.deep_view());
        }
        match outcome {
            Outcome::Existing { paths } => self.existing(paths),
            Outcome::Counted { entries } => self.counted(entries),
            Outcome::Mounted { partition } => self.mounted(partition),
            Outcome::Found { directory } => self.found(directory),
            Outcome::Done => self.done(),
            Outcome::Failed { error } => self.failed(error),
        }
    }

    /// Takes in which paths exist.
    #[verifier::rlimit(50)]
    fn existing(&mut self, paths: Vec<String>) -> (accepted: bool)
        requires
            valid(old(self)@),
        ensures
            answers(
                old(self)@,
                (OutcomeView::Existing { paths: paths.deep_view() }),
                accepted,
                final(self)@,
            ),
    {
        match &self.phase {
            Phase::FindContainers => {
                self.containers_found(&paths);
                true
            },
            Phase::FindRaw { entry } => {
                let entry: usize = *entry;
                self.raw_found(entry, &paths);
                true
            },
            Phase::FindPartition { entry } => {
                let entry: usize = *entry;
                self.partition_found(entry, &paths);
                true
            },
            _ => false,
        }
    }

    /// Takes in how much is in the directory.
    #[verifier::rlimit(50)]
    fn counted(&mut self, entries: Option<u64>) -> (accepted: bool)
        requires
            valid(old(self)@),
        ensures
            answers(old(self)@, (OutcomeView::Counted { entries }), accepted, final(self)@),
    {
        match &self.phase {
            Phase::AwaitMappings { looks } => {
                let looks: u8 = *looks;
                let enough = match entries {
                    Some(n) => n > 1,
                    None => false,
                };
                self.phase = if enough {
                    self.phase_of_entries(0)
                } else {
                    Phase::Pausing { looks: looks + 1 }
                };
                true
            },
            _ => false,
        }
    }

    /// Takes in where a partition is mounted.
    #[verifier::rlimit(50)]
    fn mounted(&mut self, partition: MountedPartition) -> (accepted: bool)
        requires
            valid(old(self)@),
        ensures
            answers(
                old(self)@,
                (OutcomeView::Mounted { partition: partition.deep_view() }),
                accepted,
                final(self)@,
            ),
    {
        match &self.phase {
            Phase::Mount { entry, source } => {
                let entry: usize = *entry;
                if !same_text(partition.source(), source.as_str()) {
                    return false;
                }
                if partition.needs_cleanup() && !same_text(
                    partition.path(),
                    self.mountpath(entry).as_str(),
                ) {
                    return false;
                }
                self.partition_mounted(entry, partition);
                true
            },
            _ => false,
        }
    }

    /// Takes in whether a path is a directory.
    #[verifier::rlimit(50)]
    fn found(&mut self, directory: bool) -> (accepted: bool)
        requires
            valid(old(self)@),
        ensures
            answers(old(self)@, (OutcomeView::Found { directory }), accepted, final(self)@),
    {
        match &self.phase {
            Phase::Inspect { entry, item, mounted } => {
                let entry: usize = *entry;
                let item: u128 = *item;
                let mounted = mounted.clone();
                self.item_inspected(entry, item, mounted, directory);
                true
            },
            _ => false,
        }
    }

    /// Takes in that the task was done.
    #[verifier::rlimit(50)]
    fn done(&mut self) -> (accepted: bool)
        requires
            valid(old(self)@),
        ensures
            answers(old(self)@, OutcomeView::Done, accepted, final(self)@),
    {
        match &self.phase {
            Phase::MapContainers { .. } => {
                self.container_answered(None);
                true
            },
            Phase::Pausing { looks } => {
                let looks: u8 = *looks;
                self.phase = if looks < 5 {
                    Phase::AwaitMappings { looks }
                } else {
                    self.phase_of_entries(0)
                };
                true
            },
            Phase::DumpRaw { entry, .. } => {
                let entry: usize = *entry;
                assert(entry < self.config.extract.len());
                let destination = self.known_destination(entry);
                let next = self.phase_of_entries(entry + 1);
                self.extracted(destination, next);
                true
            },
            Phase::MakeDirectory { entry } => {
                let entry: usize = *entry;
                self.phase = Phase::FindPartition { entry };
                true
            },
            Phase::Copy { entry, item, mounted } => {
                let entry: usize = *entry;
                let item: u128 = *item;
                let mounted = mounted.clone();
                proof {
                    lemma_items_are_countable(self.config.extract[entry as int]);
                }
                let destination = self.target(entry, item);
                let next = self.phase_of_items(entry, item + 1, mounted);
                self.extracted(destination, next);
                true
            },
            Phase::Discard { entry, item, mounted, error } => {
                let entry: usize = *entry;
                let item: u128 = *item;
                let mounted = mounted.clone();
                let message = explained("unable to copy: ", error);
                self.fail_item(entry, item, mounted, message.as_str());
                true
            },
            Phase::Release { entry, .. } => {
                let entry: usize = *entry;
                assert(entry < self.config.extract.len());
                self.phase = self.phase_of_entries(entry + 1);
                true
            },
            _ => false,
        }
    }

    /// Takes in that the task failed.
    #[verifier::rlimit(50)]
    fn failed(&mut self, error: Error) -> (accepted: bool)
        requires
            valid(old(self)@),
        ensures
            answers(
                old(self)@,
                (OutcomeView::Failed { error: error.deep_view() }),
                accepted,
                final(self)@,
            ),
    {
        match &self.phase {
            Phase::MapContainers { .. } => {
                self.container_answered(Some(error));
                true
            },
            Phase::DumpRaw { entry, origin } => {
                let entry: usize = *entry;
                let origin = origin.clone();
                let message = explained("unable to dump partition: ", &error);
                self.fail_raw(entry, origin.as_str(), message.as_str());
                true
            },
            Phase::MakeDirectory { entry } => {
                let entry: usize = *entry;
                let message = explained("unable to create destination directory: ", &error);
                self.fail_entry(entry, message.as_str());
                true
            },
            Phase::Mount { entry, .. } => {
                let entry: usize = *entry;
                let message = explained("unable to mount source partition: ", &error);
                self.fail_entry(entry, message.as_str());
                true
            },
            Phase::Inspect { entry, item, mounted } => {
                let entry: usize = *entry;
                let item: u128 = *item;
                let mounted = mounted.clone();
                let message = explained("source does not exist: ", &error);
                self.fail_item(entry, item, mounted, message.as_str());
                true
            },
            Phase::Copy { entry, item, mounted } => {
                let entry: usize = *entry;
                let item: u128 = *item;
                let mounted = mounted.clone();
                self.item_uncopied(entry, item, mounted, error);
                true
            },
            _ => false,
        }
    }

    /// Takes in what came of mapping the container at hand.
    fn container_answered(&mut self, failure: Option<Error>)
        requires
            valid(old(self)@),
            old(self)@.phase is MapContainers,
        ensures
            final(self)@ == (match old(self)@.phase {
                PhaseView::MapContainers { paths, attempts } => after_attempts(
                    old(self)@,
                    paths,
                    attempts.push((paths[attempts.len() as int], failure.deep_view())),
                ),
                _ => old(self)@,
            }),
    {
        let ghost before = self@;
        let mut taken = Phase::Finished;
        std::mem::swap(&mut taken, &mut self.phase);
        if let Phase::MapContainers { paths, attempts } = taken {
            let mut attempts = attempts;
            let ghost so_far = attempts.deep_view();
            assert(paths.deep_view()[attempts@.len() as int] == paths[attempts@.len() as int]@);
            let attempt = (paths[attempts.len()].clone(), failure);
            attempts.push(attempt);
            assert(attempts.deep_view() =~= so_far.push(attempt.deep_view()));
            let ghost swapped = self@;
            self.containers_tried(paths, attempts);
            assert(after_attempts(swapped, paths.deep_view(), attempts.deep_view())
                == after_attempts(before, paths.deep_view(), attempts.deep_view()));
        }
    }
}

/// Whether a run took in an outcome as it should.
spec fn answers(before: SessionView, outcome: OutcomeView, accepted: bool, after: SessionView) -> bool {
    match next(before, outcome) {
        Some(expected) => accepted && after == expected,
        None => !accepted && after == before,
    }
}

} // verus!
