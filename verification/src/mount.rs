//! Mounting a partition: using the place where it is mounted already, or
//! trying one filesystem type after the other.

use vstd::prelude::*;
use vstd::string::*;

use crate::error;
use crate::error::Error;
use crate::mountinfo;
use crate::mountinfo::{device_numbers, mounted_path_from_mountinfo};
use crate::number;
use crate::text;

verus! {

/// The flag under which Linux mounts a filesystem read-only.
pub const MS_RDONLY: u64 = 1;

/// A partition that is mounted, and whether it was mounted for this run.
#[derive(Debug, PartialEq, Eq)]
pub struct MountedPartition {
    pub path: String,
    pub source: String,
    pub temporary: bool,
}

/// A mounted partition as a mathematical value.
pub struct MountedView {
    pub path: Seq<char>,
    pub source: Seq<char>,
    pub temporary: bool,
}

impl DeepView for MountedPartition {
    type V = MountedView;

    open spec fn deep_view(&self) -> MountedView {
        MountedView { path: self.path@, source: self.source@, temporary: self.temporary }
    }
}

impl Clone for MountedPartition {
    fn clone(&self) -> (copy: MountedPartition)
        ensures
            copy == *self,
    {
        MountedPartition {
            path: self.path.clone(),
            source: self.source.clone(),
            temporary: self.temporary,
        }
    }
}

impl MountedPartition {
    /// A partition that was mounted before; it stays mounted.
    pub fn existing(path: String, source: String) -> (mounted: MountedPartition)
        ensures
            mounted == (MountedPartition { path, source, temporary: false }),
    {
        MountedPartition { path, source, temporary: false }
    }

    /// A partition that was mounted for this run; it is unmounted afterwards.
    pub fn temporary(path: String, source: String) -> (mounted: MountedPartition)
        ensures
            mounted == (MountedPartition { path, source, temporary: true }),
    {
        MountedPartition { path, source, temporary: true }
    }

    /// Where the partition is mounted.
    pub fn path(&self) -> (path: &str)
        ensures
            path@ == self.path@,
    {
        self.path.as_str()
    }

    /// The device of the partition.
    pub fn source(&self) -> (source: &str)
        ensures
            source@ == self.source@,
    {
        self.source.as_str()
    }

    /// Whether the partition is to be unmounted, and its mount point removed,
    /// when nothing more is read from it.
    pub fn needs_cleanup(&self) -> (yes: bool)
        ensures
            yes == self.temporary,
    {
        self.temporary
    }
}

/// Where a device is mounted, as far as its number and the mount table could
/// be read.
pub open spec fn mount_point_of(device: Option<u64>, mountinfo: Option<Seq<char>>) -> Option<
    Seq<char>,
> {
    match (device, mountinfo) {
        (Some(dev), Some(table)) => mountinfo::mount_point_in(
            text::lines(table),
            mountinfo::major_number(dev),
            mountinfo::minor_number(dev),
            None,
        ),
        _ => None,
    }
}

/// Finds where the device with the given number is mounted.
pub fn already_mounted_path(device: Option<u64>, mountinfo: Option<&str>) -> (path: Option<String>)
    ensures
        path.deep_view() == mount_point_of(device, mountinfo.deep_view()),
{
    match (device, mountinfo) {
        (Some(dev), Some(table)) => {
            let (major, minor) = device_numbers(dev);
            mounted_path_from_mountinfo(table, major, minor)
        },
        _ => None,
    }
}

/// The partition at the place where it is mounted already, as a mathematical
/// value.
pub open spec fn found_mounted(
    source: Seq<char>,
    device: Option<u64>,
    mountinfo: Option<Seq<char>>,
) -> Option<MountedView> {
    match mount_point_of(device, mountinfo) {
        Some(path) => Some(MountedView { path, source, temporary: false }),
        None => None,
    }
}

/// The partition at the place where it is mounted already.
pub fn mounted_partition(srcpath: &str, device: Option<u64>, mountinfo: Option<&str>) -> (mounted:
    Option<MountedPartition>)
    ensures
        mounted.deep_view() == found_mounted(srcpath@, device, mountinfo.deep_view()),
{
    match already_mounted_path(device, mountinfo) {
        Some(path) => Some(MountedPartition::existing(path, srcpath.to_string())),
        None => None,
    }
}

/// The filesystem types that are tried, in this order.
pub open spec fn filesystem_types() -> Seq<Seq<char>> {
    seq!["ext4"@, "erofs"@, "f2fs"@, "vfat"@, "exfat"@]
}

/// The filesystem type at a place in the order of trial.
fn filesystem_type(index: usize) -> (fstype: &'static str)
    requires
        index < filesystem_types().len(),
    ensures
        fstype@ == filesystem_types()[index as int],
{
    match index {
        0 => "ext4",
        1 => "erofs",
        2 => "f2fs",
        3 => "vfat",
        _ => "exfat",
    }
}

/// How far the mounting of a partition has come.
pub enum Stage {
    /// Before anything is tried, the mount table is looked up.
    Start,
    /// The mount point is created.
    Directory,
    /// The filesystem type at `index` is tried.
    Attempt { index: usize },
    /// The type at `index` failed, and the mount table is looked up again.
    Recheck { index: usize, error: Error },
    /// All types failed, and the mount table is looked up a last time.
    LastCheck { error: Error },
    /// The partition is mounted.
    Mounted { partition: MountedPartition },
    /// The partition could not be mounted.
    Failed { error: Error },
}

/// A stage as a mathematical value.
pub enum StageView {
    Start,
    Directory,
    Attempt { index: int },
    Recheck { index: int, error: error::ErrorView },
    LastCheck { error: error::ErrorView },
    Mounted { partition: MountedView },
    Failed { error: error::ErrorView },
}

impl DeepView for Stage {
    type V = StageView;

    open spec fn deep_view(&self) -> StageView {
        match self {
            Stage::Start => StageView::Start,
            Stage::Directory => StageView::Directory,
            Stage::Attempt { index } => StageView::Attempt { index: *index as int },
            Stage::Recheck { index, error } => StageView::Recheck {
                index: *index as int,
                error: error.deep_view(),
            },
            Stage::LastCheck { error } => StageView::LastCheck { error: error.deep_view() },
            Stage::Mounted { partition } => StageView::Mounted {
                partition: partition.deep_view(),
            },
            Stage::Failed { error } => StageView::Failed { error: error.deep_view() },
        }
    }
}

/// What is to be done next to mount a partition.
#[derive(Debug)]
pub enum MountTask {
    /// Read the device number and the mount table.
    LookUp,
    /// Create the mount point, with its parents; a failure does not matter.
    CreateDirectory,
    /// Mount the partition with this filesystem type and these flags.
    Mount { fstype: &'static str, flags: u64 },
    /// Nothing: the partition is mounted.
    Done { partition: MountedPartition },
    /// Nothing: the partition cannot be mounted.
    GiveUp { error: Error },
}

/// A task as a mathematical value.
pub enum MountTaskView {
    LookUp,
    CreateDirectory,
    Mount { fstype: Seq<char>, flags: u64 },
    Done { partition: MountedView },
    GiveUp { error: error::ErrorView },
}

impl DeepView for MountTask {
    type V = MountTaskView;

    open spec fn deep_view(&self) -> MountTaskView {
        match self {
            MountTask::LookUp => MountTaskView::LookUp,
            MountTask::CreateDirectory => MountTaskView::CreateDirectory,
            MountTask::Mount { fstype, flags } => MountTaskView::Mount {
                fstype: fstype@,
                flags: *flags,
            },
            MountTask::Done { partition } => MountTaskView::Done {
                partition: partition.deep_view(),
            },
            MountTask::GiveUp { error } => MountTaskView::GiveUp { error: error.deep_view() },
        }
    }
}

/// What came of a task.
#[derive(Debug)]
pub enum MountOutcome {
    /// The device number and the mount table, as far as they could be read.
    LookedUp { device: Option<u64>, mountinfo: Option<String> },
    /// The mount point exists now, or could not be created.
    DirectoryTried,
    /// The partition was mounted.
    MountSucceeded,
    /// The partition was not mounted.
    MountFailed { error: Error },
}

/// An outcome as a mathematical value.
pub enum MountOutcomeView {
    LookedUp { device: Option<u64>, mountinfo: Option<Seq<char>> },
    DirectoryTried,
    MountSucceeded,
    MountFailed { error: error::ErrorView },
}

impl DeepView for MountOutcome {
    type V = MountOutcomeView;

    open spec fn deep_view(&self) -> MountOutcomeView {
        match self {
            MountOutcome::LookedUp { device, mountinfo } => MountOutcomeView::LookedUp {
                device: *device,
                mountinfo: mountinfo.deep_view(),
            },
            MountOutcome::DirectoryTried => MountOutcomeView::DirectoryTried,
            MountOutcome::MountSucceeded => MountOutcomeView::MountSucceeded,
            MountOutcome::MountFailed { error } => MountOutcomeView::MountFailed {
                error: error.deep_view(),
            },
        }
    }
}

/// The mounting of one partition.
pub struct Mounting {
    source: String,
    mountpath: String,
    flags: u64,
    stage: Stage,
}

/// The mounting of a partition as a mathematical value.
pub struct MountingView {
    pub source: Seq<char>,
    pub mountpath: Seq<char>,
    pub flags: u64,
    pub stage: StageView,
}

impl View for Mounting {
    type V = MountingView;

    closed spec fn view(&self) -> MountingView {
        MountingView {
            source: self.source@,
            mountpath: self.mountpath@,
            flags: self.flags,
            stage: self.stage.deep_view(),
        }
    }
}

/// A filesystem type that is tried is one of those that there are.
pub open spec fn valid_mounting(mounting: MountingView) -> bool {
    match mounting.stage {
        StageView::Attempt { index } => 0 <= index < filesystem_types().len(),
        StageView::Recheck { index, .. } => 0 <= index < filesystem_types().len(),
        _ => true,
    }
}

/// What is to be done next to mount a partition.
pub open spec fn mount_task(mounting: MountingView) -> MountTaskView {
    match mounting.stage {
        StageView::Start => MountTaskView::LookUp,
        StageView::Directory => MountTaskView::CreateDirectory,
        StageView::Attempt { index } => MountTaskView::Mount {
            fstype: filesystem_types()[index],
            flags: mounting.flags,
        },
        StageView::Recheck { .. } => MountTaskView::LookUp,
        StageView::LastCheck { .. } => MountTaskView::LookUp,
        StageView::Mounted { partition } => MountTaskView::Done { partition },
        StageView::Failed { error } => MountTaskView::GiveUp { error },
    }
}

/// The stage once the mount table was looked up: a partition that is mounted
/// is used as it is, else the mounting goes on as given.
pub open spec fn looked_up(
    source: Seq<char>,
    device: Option<u64>,
    mountinfo: Option<Seq<char>>,
    otherwise: StageView,
) -> StageView {
    match found_mounted(source, device, mountinfo) {
        Some(partition) => StageView::Mounted { partition },
        None => otherwise,
    }
}

/// The stage that an outcome leads to, if it answers the task at hand.
pub open spec fn next_stage(mounting: MountingView, outcome: MountOutcomeView) -> Option<
    StageView,
> {
    match (mounting.stage, outcome) {
        (StageView::Start, MountOutcomeView::LookedUp { device, mountinfo }) => Some(
            looked_up(mounting.source, device, mountinfo, StageView::Directory),
        ),
        (StageView::Directory, MountOutcomeView::DirectoryTried) => Some(
            StageView::Attempt { index: 0 },
        ),
        (StageView::Attempt { .. }, MountOutcomeView::MountSucceeded) => Some(
            StageView::Mounted {
                partition: MountedView {
                    path: mounting.mountpath,
                    source: mounting.source,
                    temporary: true,
                },
            },
        ),
        (StageView::Attempt { index }, MountOutcomeView::MountFailed { error }) => Some(
            StageView::Recheck { index, error },
        ),
        (StageView::Recheck { index, error }, MountOutcomeView::LookedUp { device, mountinfo }) =>
        Some(
            looked_up(
                mounting.source,
                device,
                mountinfo,
                if index + 1 < filesystem_types().len() {
                    StageView::Attempt { index: index + 1 }
                } else {
                    StageView::LastCheck { error }
                },
            ),
        ),
        (StageView::LastCheck { error }, MountOutcomeView::LookedUp { device, mountinfo }) => Some(
            looked_up(mounting.source, device, mountinfo, StageView::Failed { error }),
        ),
        _ => None,
    }
}

/// The mounting after an outcome; one that does not answer the task at hand
/// changes nothing.
pub open spec fn after_outcome(mounting: MountingView, outcome: MountOutcomeView) -> MountingView {
    match next_stage(mounting, outcome) {
        Some(stage) => MountingView { stage, ..mounting },
        None => mounting,
    }
}

/// Begins to mount a partition at `mountpath` with the given flags.
pub fn mount_srcpath(srcpath: &str, mountpath: &str, flags: u64) -> (mounting: Mounting)
    ensures
        mounting@ == fresh(srcpath@, mountpath@, flags),
        valid_mounting(mounting@),
{
    Mounting {
        source: srcpath.to_string(),
        mountpath: mountpath.to_string(),
        flags,
        stage: Stage::Start,
    }
}

impl Mounting {
    /// What is to be done next.
    pub fn task(&self) -> (task: MountTask)
        requires
            valid_mounting(self@),
        ensures
            task.deep_view() == mount_task(self@),
    {
        match &self.stage {
            Stage::Start => MountTask::LookUp,
            Stage::Directory => MountTask::CreateDirectory,
            Stage::Attempt { index } => MountTask::Mount {
                fstype: filesystem_type(*index),
                flags: self.flags,
            },
            Stage::Recheck { .. } => MountTask::LookUp,
            Stage::LastCheck { .. } => MountTask::LookUp,
            Stage::Mounted { partition } => MountTask::Done { partition: partition.clone() },
            Stage::Failed { error } => MountTask::GiveUp { error: error.clone() },
        }
    }

    /// The stage once the mount table was looked up.
    fn after_look_up(&self, device: Option<u64>, mountinfo: Option<String>, otherwise: Stage) -> (next:
        Stage)
        ensures
            next.deep_view() == looked_up(
                self@.source,
                device,
                mountinfo.deep_view(),
                otherwise.deep_view(),
            ),
    {
        let table = match &mountinfo {
            Some(table) => Some(table.as_str()),
            None => None,
        };
        match mounted_partition(self.source.as_str(), device, table) {
            Some(partition) => Stage::Mounted { partition },
            None => otherwise,
        }
    }

    /// Takes in what came of the task at hand. An outcome that does not answer
    /// it is refused and changes nothing.
    pub fn advance(&mut self, outcome: MountOutcome) -> (accepted: bool)
        requires
            valid_mounting(old(self)@),
        ensures
            accepted == (next_stage(old(self)@, outcome.deep_view()) is Some),
            final(self)@ == after_outcome(old(self)@, outcome.deep_view()),
            valid_mounting(final(self)@),
    {
        let next = match outcome {
            MountOutcome::LookedUp { device, mountinfo } => match &self.stage {
                Stage::Start => self.after_look_up(device, mountinfo, Stage::Directory),
                Stage::Recheck { index, error } => {
                    let otherwise = if *index < 4 {
                        Stage::Attempt { index: *index + 1 }
                    } else {
                        Stage::LastCheck { error: error.clone() }
                    };
                    self.after_look_up(device, mountinfo, otherwise)
                },
                Stage::LastCheck { error } => self.after_look_up(
                    device,
                    mountinfo,
                    Stage::Failed { error: error.clone() },
                ),
                _ => return false,
            },
            MountOutcome::DirectoryTried => match &self.stage {
                Stage::Directory => Stage::Attempt { index: 0 },
                _ => return false,
            },
            MountOutcome::MountSucceeded => match &self.stage {
                Stage::Attempt { .. } => Stage::Mounted {
                    partition: MountedPartition::temporary(
                        self.mountpath.clone(),
                        self.source.clone(),
                    ),
                },
                _ => return false,
            },
            MountOutcome::MountFailed { error } => match &self.stage {
                Stage::Attempt { index } => Stage::Recheck { index: *index, error },
                _ => return false,
            },
        };
        self.stage = next;
        true
    }
}

/// How many more outcomes a mounting takes at most.
pub open spec fn outcomes_left(stage: StageView) -> int {
    match stage {
        StageView::Start => 2 * filesystem_types().len() as int + 3,
        StageView::Directory => 2 * filesystem_types().len() as int + 2,
        StageView::Attempt { index } => 2 * (filesystem_types().len() - index) + 1,
        StageView::Recheck { index, .. } => 2 * (filesystem_types().len() - index),
        StageView::LastCheck { .. } => 1,
        StageView::Mounted { .. } => 0,
        StageView::Failed { .. } => 0,
    }
}

/// Every outcome that is accepted brings a mounting closer to its end.
pub proof fn lemma_mounting_ends(mounting: MountingView, outcome: MountOutcomeView)
    requires
        valid_mounting(mounting),
        next_stage(mounting, outcome) is Some,
    ensures
        0 <= outcomes_left(after_outcome(mounting, outcome).stage) < outcomes_left(mounting.stage),
{
}

/// The mounting after a number of outcomes.
pub open spec fn after_outcomes(mounting: MountingView, outcomes: Seq<MountOutcomeView>) -> MountingView
    decreases outcomes.len(),
{
    if outcomes.len() == 0 {
        mounting
    } else {
        after_outcome(after_outcomes(mounting, outcomes.drop_last()), outcomes.last())
    }
}

/// A mounting before its first outcome.
pub open spec fn fresh(source: Seq<char>, mountpath: Seq<char>, flags: u64) -> MountingView {
    MountingView { source, mountpath, flags, stage: StageView::Start }
}

/// Whatever comes of the tasks, only the flags asked for are used, and a
/// partition that ends up mounted is the one asked for; it is unmounted afterwards only if this mounting mounted it, at
/// the place asked for.
pub proof fn lemma_only_own_mounts_are_temporary(
    source: Seq<char>,
    mountpath: Seq<char>,
    flags: u64,
    outcomes: Seq<MountOutcomeView>,
)
    ensures
        valid_mounting(after_outcomes(fresh(source, mountpath, flags), outcomes)),
        after_outcomes(fresh(source, mountpath, flags), outcomes).source == source,
        after_outcomes(fresh(source, mountpath, flags), outcomes).mountpath == mountpath,
        after_outcomes(fresh(source, mountpath, flags), outcomes).flags == flags,
        mount_task(
            after_outcomes(fresh(source, mountpath, flags), outcomes),
        ) matches MountTaskView::Mount { flags: used, .. } ==> used == flags,
        after_outcomes(fresh(source, mountpath, flags), outcomes).stage matches StageView::Mounted {
            partition,
        } ==> partition.source == source && (partition.temporary ==> partition.path == mountpath
            && outcomes.contains(MountOutcomeView::MountSucceeded)),
    decreases outcomes.len(),
{
    if outcomes.len() > 0 {
        let before = outcomes.drop_last();
        lemma_only_own_mounts_are_temporary(source, mountpath, flags, before);
        let mounting = after_outcomes(fresh(source, mountpath, flags), before);
        if before.contains(MountOutcomeView::MountSucceeded) {
            let at = choose|at: int|
                0 <= at < before.len() && before[at] == MountOutcomeView::MountSucceeded;
            assert(outcomes[at] == MountOutcomeView::MountSucceeded);
        }
        assert(outcomes[outcomes.len() - 1] == outcomes.last());
        assert(valid_mounting(after_outcome(mounting, outcomes.last())));
    }
}

/// A partition that is mounted already is used where it is, at once.
pub proof fn lemma_mounted_partition_is_used(
    source: Seq<char>,
    mountpath: Seq<char>,
    flags: u64,
    device: Option<u64>,
    mountinfo: Option<Seq<char>>,
)
    requires
        mount_point_of(device, mountinfo) is Some,
    ensures
        after_outcome(
            fresh(source, mountpath, flags),
            MountOutcomeView::LookedUp { device, mountinfo },
        ).stage == (StageView::Mounted {
            partition: MountedView {
                path: mount_point_of(device, mountinfo)->0,
                source,
                temporary: false,
            },
        }),
{
}

/// A look at the mount table that does not show the partition.
pub open spec fn shows_nothing(look: (Option<u64>, Option<Seq<char>>)) -> bool {
    mount_point_of(look.0, look.1) is None
}

/// The outcome of a look at the mount table.
pub open spec fn look(seen: (Option<u64>, Option<Seq<char>>)) -> MountOutcomeView {
    MountOutcomeView::LookedUp { device: seen.0, mountinfo: seen.1 }
}

/// The outcomes of a mounting during which the first of the filesystem types
/// fail, one with each error: a first look at the mount table, then one after
/// each failure.
pub open spec fn failing(
    errors: Seq<error::ErrorView>,
    looks: Seq<(Option<u64>, Option<Seq<char>>)>,
) -> Seq<MountOutcomeView>
    decreases errors.len(),
{
    if errors.len() == 0 {
        seq![look(looks[0]), MountOutcomeView::DirectoryTried]
    } else {
        failing(errors.drop_last(), looks).push(
            MountOutcomeView::MountFailed { error: errors.last() },
        ).push(look(looks[errors.len() as int]))
    }
}

/// As long as the partition does not turn up mounted, the filesystem types are
/// tried in order, and where all of them fail the error of the last one is
/// reported.
pub proof fn lemma_types_are_tried_in_order(
    source: Seq<char>,
    mountpath: Seq<char>,
    flags: u64,
    errors: Seq<error::ErrorView>,
    looks: Seq<(Option<u64>, Option<Seq<char>>)>,
    last: (Option<u64>, Option<Seq<char>>),
)
    requires
        errors.len() <= filesystem_types().len(),
        looks.len() == errors.len() + 1,
        forall|i: int| 0 <= i < looks.len() ==> shows_nothing(#[trigger] looks[i]),
        shows_nothing(last),
    ensures
        ({
            let mounting = after_outcomes(fresh(source, mountpath, flags), failing(errors, looks));
            if errors.len() < filesystem_types().len() {
                mount_task(mounting) == (MountTaskView::Mount {
                    fstype: filesystem_types()[errors.len() as int],
                    flags,
                })
            } else {
                mount_task(after_outcome(mounting, look(last))) == (MountTaskView::GiveUp {
                    error: errors.last(),
                })
            }
        }),
{
    lemma_failing(source, mountpath, flags, errors, looks);
}

/// The stage after the first of the filesystem types failed.
proof fn lemma_failing(
    source: Seq<char>,
    mountpath: Seq<char>,
    flags: u64,
    errors: Seq<error::ErrorView>,
    looks: Seq<(Option<u64>, Option<Seq<char>>)>,
)
    requires
        errors.len() <= filesystem_types().len(),
        looks.len() > errors.len(),
        forall|i: int| 0 <= i < looks.len() ==> shows_nothing(#[trigger] looks[i]),
    ensures
        after_outcomes(fresh(source, mountpath, flags), failing(errors, looks)) == (MountingView {
            source,
            mountpath,
            flags,
            stage: if errors.len() < filesystem_types().len() {
                StageView::Attempt { index: errors.len() as int }
            } else {
                StageView::LastCheck { error: errors.last() }
            },
        }),
    decreases errors.len(),
{
    let start = fresh(source, mountpath, flags);
    let seen = look(looks[errors.len() as int]);
    assert(shows_nothing(looks[errors.len() as int]));
    if errors.len() == 0 {
        let all = failing(errors, looks);
        assert(all.drop_last() =~= seq![seen]);
        assert(all.drop_last().drop_last() =~= Seq::<MountOutcomeView>::empty());
        reveal_with_fuel(after_outcomes, 3);
    } else {
        let front = errors.drop_last();
        lemma_failing(source, mountpath, flags, front, looks);
        let before = failing(front, looks);
        let tried = before.push(MountOutcomeView::MountFailed { error: errors.last() });
        assert(failing(errors, looks) =~= tried.push(seen));
        assert(tried.push(seen).drop_last() =~= tried);
        assert(tried.drop_last() =~= before);
        assert(after_outcomes(start, tried).stage == (StageView::Recheck {
            index: front.len() as int,
            error: errors.last(),
        }));
    }
}

/// Whenever the mount table is looked up and shows the partition, it is used
/// where it is and stays mounted; whenever a mount succeeds, the partition is
/// at the place asked for and is unmounted afterwards.
pub proof fn lemma_mounts_that_are_found_or_made(
    mounting: MountingView,
    device: Option<u64>,
    mountinfo: Option<Seq<char>>,
)
    ensures
        mount_task(mounting) is LookUp && mount_point_of(device, mountinfo) is Some ==> mount_task(
            after_outcome(mounting, MountOutcomeView::LookedUp { device, mountinfo }),
        ) == (MountTaskView::Done {
            partition: MountedView {
                path: mount_point_of(device, mountinfo).unwrap(),
                source: mounting.source,
                temporary: false,
            },
        }),
        mount_task(mounting) is Mount ==> mount_task(
            after_outcome(mounting, MountOutcomeView::MountSucceeded),
        ) == (MountTaskView::Done {
            partition: MountedView {
                path: mounting.mountpath,
                source: mounting.source,
                temporary: true,
            },
        }),
{
}

/// A partition is found by the number of its device: in a table with a line
/// that names the two halves of the number it is mounted at that line's mount
/// point, whatever else the line holds; without a number or a table it is not.
pub proof fn lemma_partitions_are_found_by_number(
    dev: u64,
    id: Seq<char>,
    parent: Seq<char>,
    within: Seq<char>,
    point: Seq<char>,
    rest: Seq<char>,
    table: Option<Seq<char>>,
)
    requires
        !id.contains(' ') && !id.contains('\n'),
        !parent.contains(' ') && !parent.contains('\n'),
        !within.contains(' ') && !within.contains('\n'),
        !point.contains(' ') && !point.contains('\n'),
        !rest.contains('\n'),
        rest.len() > 0 ==> rest.last() != '\r',
    ensures
        ({
            let major: u64 = ((dev >> 8) & 0xfff) | ((dev >> 32) & 0xfffff000);
            let minor: u64 = (dev & 0xff) | ((dev >> 12) & 0xffffff00);
            let device = number::decimal(major as nat) + seq![':'] + number::decimal(
                minor as nat,
            );
            let line = mountinfo::five_fields(id, parent, device, within, point).push(' ') + rest;
            mount_point_of(Some(dev), Some(line.push('\n'))) == Some(mountinfo::decoded(point))
        }),
        mount_point_of(None, table) is None,
        mount_point_of(Some(dev), None) is None,
{
    let major: u64 = ((dev >> 8) & 0xfff) | ((dev >> 32) & 0xfffff000);
    let minor: u64 = (dev & 0xff) | ((dev >> 12) & 0xffffff00);
    mountinfo::lemma_single_line_tables(id, parent, within, point, rest, major, minor);
}

/// As long as the partition does not turn up mounted, the first type tried is
/// ext4, then come erofs, f2fs, vfat and exfat, and then the error of the last
/// attempt.
pub proof fn lemma_five_types_are_tried(
    source: Seq<char>,
    mountpath: Seq<char>,
    flags: u64,
    errors: Seq<error::ErrorView>,
    looks: Seq<(Option<u64>, Option<Seq<char>>)>,
    last: (Option<u64>, Option<Seq<char>>),
)
    requires
        errors.len() <= 5,
        looks.len() == errors.len() + 1,
        forall|i: int| 0 <= i < looks.len() ==> shows_nothing(#[trigger] looks[i]),
        shows_nothing(last),
    ensures
        ({
            let mounting = after_outcomes(fresh(source, mountpath, flags), failing(errors, looks));
            let types = seq!["ext4"@, "erofs"@, "f2fs"@, "vfat"@, "exfat"@];
            if errors.len() < 5 {
                mount_task(mounting) == (MountTaskView::Mount {
                    fstype: types[errors.len() as int],
                    flags,
                })
            } else {
                mount_task(after_outcome(mounting, look(last))) == (MountTaskView::GiveUp {
                    error: errors[4],
                })
            }
        }),
{
    lemma_types_are_tried_in_order(source, mountpath, flags, errors, looks, last);
}

/// A partition that the mount table shows is found as the device asked for,
/// and stays mounted; one that it does not show is not found.
pub proof fn lemma_mounted_partitions_are_found(
    source: Seq<char>,
    device: Option<u64>,
    mountinfo: Option<Seq<char>>,
)
    ensures
        mount_point_of(device, mountinfo) matches Some(path) ==> (found_mounted(
            source,
            device,
            mountinfo,
        ) matches Some(found) && found.path == path && found.source == source
            && !found.temporary),
        mount_point_of(device, mountinfo) is None ==> found_mounted(source, device, mountinfo)
            is None,
{
}

/// A mounting begins with a look at the mount table, and before the first
/// attempt the mount point is created; an outcome is taken in only where it
/// answers the task at hand.
pub proof fn lemma_mountings_take_in_answers(mounting: MountingView, outcome: MountOutcomeView)
    ensures
        next_stage(mounting, outcome) is Some <==> match mount_task(mounting) {
            MountTaskView::LookUp => outcome is LookedUp,
            MountTaskView::CreateDirectory => outcome is DirectoryTried,
            MountTaskView::Mount { .. } => outcome is MountSucceeded || outcome is MountFailed,
            MountTaskView::Done { .. } => false,
            MountTaskView::GiveUp { .. } => false,
        },
        next_stage(mounting, outcome) is None ==> after_outcome(mounting, outcome) == mounting,
        mount_task(fresh(mounting.source, mounting.mountpath, mounting.flags)) is LookUp,
        mount_task(mounting) is CreateDirectory && outcome is DirectoryTried ==> (mount_task(
            after_outcome(mounting, outcome),
        ) matches MountTaskView::Mount { fstype, flags } && fstype == "ext4"@ && flags
            == mounting.flags),
        mount_task(mounting) is Mount && outcome is MountFailed ==> mount_task(
            after_outcome(mounting, outcome),
        ) is LookUp,
{
}

} // verus!
