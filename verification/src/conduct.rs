//! What a run does at each step, told from the configuration that it is given:
//! which task it sets, and what each outcome of the task leads to.

use vstd::prelude::*;

use crate::config;
use crate::config::ItemKind;
use crate::error;
use crate::kernel;
use crate::ledger;
use crate::mount;
use crate::partition;
use crate::path;
use crate::process;
use crate::slot::Slot;
use crate::status;

verus! {

/// The path that a task reads an item at.
pub open spec fn read_at(task: process::TaskView) -> Option<Seq<char>> {
    match task {
        process::TaskView::Inspect { path } => Some(path),
        process::TaskView::CopyFile { source, .. } => Some(source),
        process::TaskView::CopyDirectory { source, .. } => Some(source),
        _ => None,
    }
}

/// Whether a path leads from a mount point to an item: to the item itself, or
/// through the directory of the entry if it names one. An absolute directory
/// or item stands alone.
pub open spec fn leads_to(
    path: Seq<char>,
    mount_point: Seq<char>,
    from: Option<Seq<char>>,
    item: Seq<char>,
) -> bool {
    let relative = item.len() == 0 || item[0] != '/';
    let plain = mount_point.len() > 0 && mount_point.last() != '/';
    &&& !relative ==> path == item
    &&& relative && from is None && plain ==> path == mount_point + seq!['/'] + item
    &&& relative && from is None && !plain ==> path == mount_point + item
    &&& from matches Some(directory) ==> {
        let inside = directory.len() > 0 && directory[0] != '/';
        &&& relative && inside && directory.last() != '/' && plain ==> path == mount_point + seq![
            '/',
        ] + directory + seq!['/'] + item
        &&& relative && inside && directory.last() != '/' && !plain ==> path == mount_point
            + directory + seq!['/'] + item
        &&& relative && inside && directory.last() == '/' && plain ==> path == mount_point + seq![
            '/',
        ] + directory + item
        &&& relative && inside && directory.last() == '/' && !plain ==> path == mount_point
            + directory + item
        &&& relative && directory.len() == 0 && plain ==> path == mount_point + seq!['/'] + item
        &&& relative && directory.len() == 0 && !plain ==> path == mount_point + item
        &&& relative && directory.len() > 0 && directory[0] == '/' && directory.last() != '/'
            ==> path == directory + seq!['/'] + item
        &&& relative && directory.len() > 0 && directory[0] == '/' && directory.last() == '/'
            ==> path == directory + item
    }
}

/// Where an entry is extracted to: the destination that the running kernel
/// selects, below the extract path.
pub open spec fn extracted_to(plan: process::PlanView, entry: int) -> Option<Seq<char>> {
    let running = match plan.kernel_release {
        Some(release) => kernel::version_of(release),
        None => None,
    };
    match config::resolved(plan.config.extract[entry].to, running) {
        Some(to) => Some(config::placed(to, plan.extract_path)),
        None => None,
    }
}

/// Whether a phase takes up the first entry from `from` on that has a
/// destination, or ends the run if there is none.
pub open spec fn takes_up(plan: process::PlanView, from: int, phase: process::PhaseView) -> bool {
    let count = plan.config.extract.len();
    match phase {
        process::PhaseView::Finished => forall|i: int|
            from <= i < count ==> #[trigger] extracted_to(plan, i) is None,
        process::PhaseView::FindRaw { entry } => {
            &&& from <= entry < count
            &&& plan.config.extract[entry].raw
            &&& extracted_to(plan, entry) is Some
            &&& forall|i: int| from <= i < entry ==> #[trigger] extracted_to(plan, i) is None
        },
        process::PhaseView::MakeDirectory { entry } => {
            &&& from <= entry < count
            &&& !plan.config.extract[entry].raw
            &&& extracted_to(plan, entry) is Some
            &&& forall|i: int| from <= i < entry ==> #[trigger] extracted_to(plan, i) is None
        },
        _ => false,
    }
}

/// Whether a phase goes on with an item of an entry if there is one at that
/// place, files first and then directories; behind the last one a mount made
/// for the run is released, and then the next entry is taken up.
pub open spec fn goes_on(
    plan: process::PlanView,
    entry: int,
    item: int,
    mounted: mount::MountedView,
    phase: process::PhaseView,
) -> bool {
    if item < plan.config.extract[entry].files.len() + plan.config.extract[entry].dirs.len() {
        phase == (process::PhaseView::Inspect { entry, item, mounted })
    } else if mounted.temporary {
        phase == (process::PhaseView::Release { entry, mounted })
    } else {
        takes_up(plan, entry + 1, phase)
    }
}

/// Whether nothing was recorded between two states of a run.
pub open spec fn nothing_new(before: process::SessionView, after: process::SessionView) -> bool {
    &&& after.plan == before.plan
    &&& after.record.entries == before.record.entries
    &&& after.record.partitions == before.record.partitions
    &&& after.record.failures == before.record.failures
}

/// Whether one path was recorded as extracted, and nothing else.
pub open spec fn extracted(
    before: process::SessionView,
    after: process::SessionView,
    path: Seq<char>,
) -> bool {
    &&& after.plan == before.plan
    &&& after.record.entries == before.record.entries.push(path)
    &&& after.record.partitions == before.record.partitions
    &&& after.record.failures == before.record.failures
}

/// Whether one failure was recorded, and nothing else.
pub open spec fn failed(
    before: process::SessionView,
    after: process::SessionView,
    failure: status::FailureView,
) -> bool {
    &&& after.plan == before.plan
    &&& after.record.entries == before.record.entries
    &&& after.record.partitions == before.record.partitions
    &&& after.record.failures == before.record.failures.push(failure)
}

/// Whether a partition was recorded with its device, unless it was before, and
/// nothing else.
pub open spec fn sourced(
    before: process::SessionView,
    after: process::SessionView,
    part: Seq<char>,
    source: Seq<char>,
) -> bool {
    let recorded = status::SourceView { partition: part, source };
    &&& after.plan == before.plan
    &&& after.record.entries == before.record.entries
    &&& after.record.failures == before.record.failures
    &&& before.record.partitions.contains(recorded) ==> after.record.partitions
        == before.record.partitions
    &&& !before.record.partitions.contains(recorded) ==> after.record.partitions
        == before.record.partitions.push(recorded)
}

/// Whether every item of an entry was recorded as failed with one text, files
/// first and then directories, and nothing else.
pub open spec fn entry_lost(
    before: process::SessionView,
    after: process::SessionView,
    entry: int,
    error: Seq<char>,
) -> bool {
    let chosen = before.plan.config.extract[entry];
    let old = before.record.failures.len() as int;
    let files = chosen.files.len() as int;
    let new = after.record.failures;
    &&& after.plan == before.plan
    &&& after.record.entries == before.record.entries
    &&& after.record.partitions == before.record.partitions
    &&& new.len() == old + files + chosen.dirs.len()
    &&& forall|i: int| 0 <= i < old ==> #[trigger] new[i] == before.record.failures[i]
    &&& forall|i: int|
        0 <= i < files ==> {
            let failure = #[trigger] new[old + i];
            &&& failure.partition == chosen.partition
            &&& failure.required == chosen.files[i].required
            &&& failure.error == error
            &&& failure.destination == config::item_path(
                extracted_to(before.plan, entry).unwrap(),
                chosen.files[i],
                ItemKind::File,
            )
            &&& leads_to(failure.source, chosen.partition, chosen.from, chosen.files[i].from)
        }
    &&& forall|i: int|
        0 <= i < chosen.dirs.len() ==> {
            let failure = #[trigger] new[old + files + i];
            &&& failure.partition == chosen.partition
            &&& failure.required == chosen.dirs[i].required
            &&& failure.error == error
            &&& failure.destination == config::item_path(
                extracted_to(before.plan, entry).unwrap(),
                chosen.dirs[i],
                ItemKind::Dir,
            )
            &&& leads_to(failure.source, chosen.partition, chosen.from, chosen.dirs[i].from)
        }
}

/// Joining leads from a base through a directory to an item.
proof fn lemma_leads_to(base: Seq<char>, entry: config::EntryView, item: Seq<char>)
    ensures
        leads_to(
            path::join(path::join(base, status::from_directory(entry)), item),
            base,
            entry.from,
            item,
        ),
{
    reveal_strlit("");
    let directory = status::from_directory(entry);
    let inner = path::join(base, directory);
    path::lemma_join_forms(base, directory);
    path::lemma_join_forms(inner, item);
    assert(entry.from is None ==> directory =~= Seq::empty());
    if directory.len() == 0 {
        assert(directory =~= Seq::empty());
        assert(base + seq!['/'] + directory =~= base + seq!['/']);
        assert(base + directory =~= base);
    } else if directory[0] == '/' {
        assert(inner == directory);
    } else if base.len() > 0 && base.last() != '/' {
        assert(inner.last() == directory.last());
    } else {
        assert(inner.last() == directory.last());
    }
}

/// Taking up the entries from an index on.
proof fn lemma_takes_up(plan: process::PlanView, from: int)
    requires
        0 <= from <= plan.config.extract.len(),
    ensures
        takes_up(plan, from, process::entry_phase(plan, from)),
    decreases plan.config.extract.len() - from,
{
    if from < plan.config.extract.len() {
        assert(extracted_to(plan, from) == process::destination_of(plan, from));
        if process::destination_of(plan, from) is None {
            lemma_takes_up(plan, from + 1);
            assert(process::entry_phase(plan, from) == process::entry_phase(plan, from + 1));
        }
    }
}

/// Going on with an item.
proof fn lemma_goes_on(
    plan: process::PlanView,
    entry: int,
    item: int,
    mounted: mount::MountedView,
)
    requires
        0 <= entry < plan.config.extract.len(),
    ensures
        goes_on(plan, entry, item, mounted, process::item_phase(plan, entry, item, mounted)),
{
    lemma_takes_up(plan, entry + 1);
}

/// The failure of an entry as a whole.
proof fn lemma_entry_lost(session: process::SessionView, entry: int, error: Seq<char>)
    requires
        0 <= entry < session.plan.config.extract.len(),
    ensures
        entry_lost(session, process::entry_failed(session, entry, error), entry, error),
        takes_up(
            session.plan,
            entry + 1,
            process::entry_failed(session, entry, error).phase,
        ),
{
    let chosen = session.plan.config.extract[entry];
    let after = process::entry_failed(session, entry, error);
    let old = session.record.failures.len() as int;
    let files = chosen.files.len() as int;
    let new = after.record.failures;
    assert(extracted_to(session.plan, entry) == process::destination_of(session.plan, entry));
    lemma_takes_up(session.plan, entry + 1);
    assert forall|i: int| 0 <= i < files implies leads_to(
        (#[trigger] new[old + i]).source,
        chosen.partition,
        chosen.from,
        chosen.files[i].from,
    ) by {
        lemma_leads_to(chosen.partition, chosen, chosen.files[i].from);
    }
    assert forall|i: int| 0 <= i < chosen.dirs.len() implies leads_to(
        (#[trigger] new[old + files + i]).source,
        chosen.partition,
        chosen.from,
        chosen.dirs[i].from,
    ) by {
        lemma_leads_to(chosen.partition, chosen, chosen.dirs[i].from);
    }
}

/// A run begins with nothing recorded: it looks for the containers if the
/// configuration names one, and else takes up the first entry.
pub proof fn lemma_runs_begin(plan: process::PlanView)
    ensures
        process::started(plan).plan == plan,
        process::started(plan).record.entries.len() == 0,
        process::started(plan).record.partitions.len() == 0,
        process::started(plan).record.failures.len() == 0,
        plan.config.dynpart is Some ==> process::started(plan).phase
            == process::PhaseView::FindContainers,
        plan.config.dynpart is None ==> takes_up(plan, 0, process::started(plan).phase),
{
    lemma_takes_up(plan, 0);
}

/// The first entry that is not valid makes the configuration invalid, with the
/// error of that entry.
pub proof fn lemma_first_invalid_entry_counts(entries: Seq<config::EntryView>, at: int)
    ensures
        0 <= at < entries.len() && config::entry_validity(entries[at]) is Err && (forall|i: int|
            0 <= i < at ==> config::entry_validity(#[trigger] entries[i]) is Ok)
            ==> process::first_invalid(entries) == Some(
            config::entry_validity(entries[at])->Err_0,
        ),
        (forall|i: int|
            0 <= i < entries.len() ==> config::entry_validity(#[trigger] entries[i]) is Ok)
            ==> process::first_invalid(entries) is None,
    decreases entries.len(),
{
    if entries.len() > 0 {
        let rest = entries.drop_first();
        lemma_first_invalid_entry_counts(rest, at - 1);
        assert(entries[0] == entries.first());
        assert(forall|i: int| 0 <= i < rest.len() ==> #[trigger] rest[i] == entries[i + 1]);
        if 0 < at < entries.len() {
            assert(rest[at - 1] == entries[at]);
        }
    }
}

/// A file is inspected and copied at the mount point, in the directory that
/// the entry names; it is copied to its place below the destination of the
/// entry, and squashed if its name ends in `.mdt`.
pub proof fn lemma_files_are_read_at_the_mount_point(
    session: process::SessionView,
    entry: int,
    file: int,
    mounted: mount::MountedView,
)
    requires
        0 <= entry < session.plan.config.extract.len(),
        0 <= file < session.plan.config.extract[entry].files.len(),
    ensures
        ({
            let chosen = session.plan.config.extract[entry];
            let found = chosen.files[file];
            let task = process::task_of(session);
            &&& session.phase == (process::PhaseView::Inspect { entry, item: file, mounted })
                ==> task is Inspect && leads_to(
                read_at(task).unwrap(),
                mounted.path,
                chosen.from,
                found.from,
            )
            &&& session.phase == (process::PhaseView::Copy { entry, item: file, mounted }) ==> {
                &&& task is CopyFile
                &&& leads_to(read_at(task).unwrap(), mounted.path, chosen.from, found.from)
                &&& task->CopyFile_destination == config::item_path(
                    extracted_to(session.plan, entry).unwrap(),
                    found,
                    ItemKind::File,
                )
                &&& task->squash == (found.from.len() >= 4 && found.from.skip(
                    found.from.len() - 4,
                ) == seq!['.', 'm', 'd', 't'])
            }
        }),
{
    let chosen = session.plan.config.extract[entry];
    let found = chosen.files[file];
    assert(extracted_to(session.plan, entry) == process::destination_of(session.plan, entry));
    lemma_leads_to(mounted.path, chosen, found.from);
    if found.from.len() >= 4 {
        let front = found.from.take(found.from.len() - 4);
        assert(found.from =~= front + found.from.skip(found.from.len() - 4));
        config::lemma_mdt_images_end_so(found, front);
    } else {
        config::lemma_mdt_images_end_so(found, Seq::empty());
    }
}

/// A directory is inspected and copied at the mount point, in the directory
/// that the entry names, and it is copied to its place below the destination
/// of the entry.
pub proof fn lemma_directories_are_read_at_the_mount_point(
    session: process::SessionView,
    entry: int,
    directory: int,
    mounted: mount::MountedView,
)
    requires
        0 <= entry < session.plan.config.extract.len(),
        0 <= directory < session.plan.config.extract[entry].dirs.len(),
    ensures
        ({
            let chosen = session.plan.config.extract[entry];
            let found = chosen.dirs[directory];
            let item = chosen.files.len() + directory;
            let task = process::task_of(session);
            &&& session.phase == (process::PhaseView::Inspect { entry, item, mounted }) ==> task
                is Inspect && leads_to(
                read_at(task).unwrap(),
                mounted.path,
                chosen.from,
                found.from,
            )
            &&& session.phase == (process::PhaseView::Copy { entry, item, mounted }) ==> {
                &&& task is CopyDirectory
                &&& leads_to(read_at(task).unwrap(), mounted.path, chosen.from, found.from)
                &&& task->CopyDirectory_destination == config::item_path(
                    extracted_to(session.plan, entry).unwrap(),
                    found,
                    ItemKind::Dir,
                )
            }
        }),
{
    let chosen = session.plan.config.extract[entry];
    let found = chosen.dirs[directory];
    assert(extracted_to(session.plan, entry) == process::destination_of(session.plan, entry));
    lemma_leads_to(mounted.path, chosen, found.from);
}

/// A failed squashing is removed where the file was to be copied to.
pub proof fn lemma_remains_are_removed_where_they_lie(
    session: process::SessionView,
    entry: int,
    file: int,
    mounted: mount::MountedView,
    error: error::ErrorView,
)
    requires
        0 <= file < session.plan.config.extract[entry].files.len(),
        session.phase == (process::PhaseView::Discard { entry, item: file, mounted, error }),
    ensures
        process::task_of(session) == (process::TaskView::RemoveFile {
            path: config::item_path(
                extracted_to(session.plan, entry).unwrap(),
                session.plan.config.extract[entry].files[file],
                ItemKind::File,
            ),
        }),
{
    assert(extracted_to(session.plan, entry) == process::destination_of(session.plan, entry));
}

/// The partition of an entry is mounted read-only, under its own name below
/// the directory of mounts.
pub proof fn lemma_partitions_are_mounted_below_the_mounts(
    session: process::SessionView,
    entry: int,
    source: Seq<char>,
)
    requires
        session.phase == (process::PhaseView::Mount { entry, source }),
        session.plan.mounts_dir.len() > 0,
        session.plan.mounts_dir.last() != '/',
        session.plan.config.extract[entry].partition.len() > 0,
        session.plan.config.extract[entry].partition[0] != '/',
    ensures
        process::task_of(session) == (process::TaskView::Mount {
            source,
            path: session.plan.mounts_dir + seq!['/']
                + session.plan.config.extract[entry].partition,
            flags: 1,
        }),
{
    path::lemma_join_forms(
        session.plan.mounts_dir,
        session.plan.config.extract[entry].partition,
    );
}

/// A mount is taken in where it is the device asked for, and, if it was made
/// for the run, at the place asked for. It is recorded, and the items of the
/// entry are taken up from the first on.
pub proof fn lemma_mounts_are_taken_in(
    session: process::SessionView,
    entry: int,
    source: Seq<char>,
    mounted: mount::MountedView,
)
    requires
        session.phase == (process::PhaseView::Mount { entry, source }),
        0 <= entry < session.plan.config.extract.len(),
    ensures
        ({
            let part = session.plan.config.extract[entry].partition;
            let answer = process::next(
                session,
                process::OutcomeView::Mounted { partition: mounted },
            );
            &&& answer is Some <==> mounted.source == source && (mounted.temporary ==> mounted.path
                == path::join(session.plan.mounts_dir, part))
            &&& answer matches Some(after) ==> sourced(session, after, part, source) && goes_on(
                session.plan,
                entry,
                0,
                mounted,
                after.phase,
            )
        }),
{
    lemma_goes_on(session.plan, entry, 0, mounted);
}

/// Whatever keeps an entry from being read, each of its items is recorded as
/// failed with the reason, and the next entry is taken up.
pub proof fn lemma_unreadable_entries_fail(
    session: process::SessionView,
    entry: int,
    source: Seq<char>,
    error: error::ErrorView,
)
    requires
        0 <= entry < session.plan.config.extract.len(),
    ensures
        session.phase == (process::PhaseView::MakeDirectory { entry }) ==> (process::next(
            session,
            process::OutcomeView::Failed { error },
        ) matches Some(after) && entry_lost(
            session,
            after,
            entry,
            "unable to create destination directory: "@ + error.message,
        ) && takes_up(session.plan, entry + 1, after.phase)),
        session.phase == (process::PhaseView::Mount { entry, source }) ==> (process::next(
            session,
            process::OutcomeView::Failed { error },
        ) matches Some(after) && entry_lost(
            session,
            after,
            entry,
            "unable to mount source partition: "@ + error.message,
        ) && takes_up(session.plan, entry + 1, after.phase)),
{
    lemma_entry_lost(
        session,
        entry,
        "unable to create destination directory: "@ + error.message,
    );
    lemma_entry_lost(session, entry, "unable to mount source partition: "@ + error.message);
}

/// The destination of an entry is created before its partition is looked for.
pub proof fn lemma_destinations_are_created(session: process::SessionView, entry: int)
    requires
        session.phase == (process::PhaseView::MakeDirectory { entry }),
    ensures
        process::task_of(session) == (process::TaskView::CreateDirectory {
            path: extracted_to(session.plan, entry).unwrap(),
        }),
        process::next(session, process::OutcomeView::Done) matches Some(after) && nothing_new(
            session,
            after,
        ) && after.phase == (process::PhaseView::FindPartition { entry }),
{
    assert(extracted_to(session.plan, entry) == process::destination_of(session.plan, entry));
}

/// The partition of an entry is looked for among the mapped partitions before
/// those by label; what is selected is mounted, and where there is nothing the
/// entry fails.
pub proof fn lemma_partitions_are_looked_for(
    session: process::SessionView,
    entry: int,
    existing: Seq<Seq<char>>,
)
    requires
        session.phase == (process::PhaseView::FindPartition { entry }),
        0 <= entry < session.plan.config.extract.len(),
    ensures
        ({
            let part = session.plan.config.extract[entry].partition;
            let roots = seq!["/dev/mapper"@, "/dev/disk/by-partlabel"@];
            let selected = partition::selected_path(
                part,
                session.plan.active_slot,
                roots,
                existing,
            );
            let answer = process::next(
                session,
                process::OutcomeView::Existing { paths: existing },
            );
            &&& process::task_of(session) == (process::TaskView::Probe {
                paths: partition::lookups(
                    partition::partition_names(part, session.plan.active_slot),
                    roots,
                ),
            })
            &&& selected matches Ok(source) ==> (answer matches Some(after) && nothing_new(
                session,
                after,
            ) && after.phase == (process::PhaseView::Mount { entry, source }))
            &&& selected matches Err(error) ==> (answer matches Some(after) && entry_lost(
                session,
                after,
                entry,
                "unable to mount source partition: "@ + error.message,
            ) && takes_up(session.plan, entry + 1, after.phase))
        }),
{
    let part = session.plan.config.extract[entry].partition;
    let roots = seq!["/dev/mapper"@, "/dev/disk/by-partlabel"@];
    if let Err(error) = partition::selected_path(
        part,
        session.plan.active_slot,
        roots,
        existing,
    ) {
        lemma_entry_lost(session, entry, "unable to mount source partition: "@ + error.message);
    }
}

/// The failure of a raw entry.
proof fn lemma_raw_lost(
    session: process::SessionView,
    entry: int,
    source: Seq<char>,
    error: Seq<char>,
)
    requires
        0 <= entry < session.plan.config.extract.len(),
    ensures
        failed(
            session,
            process::raw_failed(session, entry, source, error),
            status::FailureView {
                partition: session.plan.config.extract[entry].partition,
                source,
                destination: extracted_to(session.plan, entry).unwrap(),
                required: false,
                error,
            },
        ),
        takes_up(
            session.plan,
            entry + 1,
            process::raw_failed(session, entry, source, error).phase,
        ),
{
    assert(extracted_to(session.plan, entry) == process::destination_of(session.plan, entry));
    lemma_takes_up(session.plan, entry + 1);
    let failure = status::FailureView {
        partition: session.plan.config.extract[entry].partition,
        source,
        destination: extracted_to(session.plan, entry).unwrap(),
        required: false,
        error,
    };
    let old = session.record.failures;
    assert(old + seq![failure] =~= old.push(failure));
}

/// The partition of a raw entry is looked for by label only; it is recorded
/// and dumped, and where there is none the entry fails, but is not required.
pub proof fn lemma_raw_partitions_are_looked_for(
    session: process::SessionView,
    entry: int,
    existing: Seq<Seq<char>>,
)
    requires
        session.phase == (process::PhaseView::FindRaw { entry }),
        0 <= entry < session.plan.config.extract.len(),
    ensures
        ({
            let part = session.plan.config.extract[entry].partition;
            let roots = seq!["/dev/disk/by-partlabel"@];
            let selected = partition::selected_path(
                part,
                session.plan.active_slot,
                roots,
                existing,
            );
            let answer = process::next(
                session,
                process::OutcomeView::Existing { paths: existing },
            );
            &&& process::task_of(session) == (process::TaskView::Probe {
                paths: partition::lookups(
                    partition::partition_names(part, session.plan.active_slot),
                    roots,
                ),
            })
            &&& selected matches Ok(origin) ==> (answer matches Some(after) && sourced(
                session,
                after,
                part,
                origin,
            ) && after.phase == (process::PhaseView::DumpRaw { entry, origin }))
            &&& selected matches Err(error) ==> (answer matches Some(after) && failed(
                session,
                after,
                status::FailureView {
                    partition: part,
                    source: part,
                    destination: extracted_to(session.plan, entry).unwrap(),
                    required: false,
                    error: "unable to find partition: "@ + error.message,
                },
            ) && takes_up(session.plan, entry + 1, after.phase))
        }),
{
    let part = session.plan.config.extract[entry].partition;
    if let Err(error) = partition::selected_path(
        part,
        session.plan.active_slot,
        seq!["/dev/disk/by-partlabel"@],
        existing,
    ) {
        lemma_raw_lost(session, entry, part, "unable to find partition: "@ + error.message);
    }
}

/// A raw partition is dumped into the destination of its entry, which is
/// recorded as extracted; a dump that fails is recorded with the device.
pub proof fn lemma_raw_partitions_are_dumped(
    session: process::SessionView,
    entry: int,
    origin: Seq<char>,
    error: error::ErrorView,
)
    requires
        session.phase == (process::PhaseView::DumpRaw { entry, origin }),
        0 <= entry < session.plan.config.extract.len(),
    ensures
        process::task_of(session) == (process::TaskView::DumpRaw {
            origin,
            destination: extracted_to(session.plan, entry).unwrap(),
        }),
        process::next(session, process::OutcomeView::Done) matches Some(after) && extracted(
            session,
            after,
            extracted_to(session.plan, entry).unwrap(),
        ) && takes_up(session.plan, entry + 1, after.phase),
        process::next(session, process::OutcomeView::Failed { error }) matches Some(after)
            && failed(
            session,
            after,
            status::FailureView {
                partition: session.plan.config.extract[entry].partition,
                source: origin,
                destination: extracted_to(session.plan, entry).unwrap(),
                required: false,
                error: "unable to dump partition: "@ + error.message,
            },
        ) && takes_up(session.plan, entry + 1, after.phase),
{
    assert(extracted_to(session.plan, entry) == process::destination_of(session.plan, entry));
    lemma_takes_up(session.plan, entry + 1);
    lemma_raw_lost(session, entry, origin, "unable to dump partition: "@ + error.message);
}

/// Whether the failure of one item was recorded, with its source at the mount
/// point and its place below the destination of the entry, and the run went on
/// with the item behind it.
pub open spec fn item_lost(
    before: process::SessionView,
    after: process::SessionView,
    entry: int,
    item: int,
    found: config::ItemView,
    kind: ItemKind,
    mounted: mount::MountedView,
    error: Seq<char>,
) -> bool {
    let chosen = before.plan.config.extract[entry];
    &&& after.record.failures.len() > 0
    &&& failed(
        before,
        after,
        status::FailureView {
            partition: chosen.partition,
            source: after.record.failures.last().source,
            destination: config::item_path(
                extracted_to(before.plan, entry).unwrap(),
                found,
                kind,
            ),
            required: found.required,
            error,
        },
    )
    &&& leads_to(
        after.record.failures.last().source,
        mounted.path,
        chosen.from,
        found.from,
    )
    &&& goes_on(before.plan, entry, item + 1, mounted, after.phase)
}

/// The failure of one item.
proof fn lemma_item_lost(
    session: process::SessionView,
    entry: int,
    item: int,
    mounted: mount::MountedView,
    error: Seq<char>,
)
    requires
        0 <= entry < session.plan.config.extract.len(),
        0 <= item < session.plan.config.extract[entry].files.len()
            + session.plan.config.extract[entry].dirs.len(),
    ensures
        ({
            let chosen = session.plan.config.extract[entry];
            let after = process::item_failed(session, entry, item, mounted, error);
            if item < chosen.files.len() {
                item_lost(
                    session,
                    after,
                    entry,
                    item,
                    chosen.files[item],
                    ItemKind::File,
                    mounted,
                    error,
                )
            } else {
                item_lost(
                    session,
                    after,
                    entry,
                    item,
                    chosen.dirs[item - chosen.files.len()],
                    ItemKind::Dir,
                    mounted,
                    error,
                )
            }
        }),
{
    let chosen = session.plan.config.extract[entry];
    let after = process::item_failed(session, entry, item, mounted, error);
    let found = if item < chosen.files.len() {
        chosen.files[item]
    } else {
        chosen.dirs[item - chosen.files.len()]
    };
    assert(extracted_to(session.plan, entry) == process::destination_of(session.plan, entry));
    lemma_leads_to(mounted.path, chosen, found.from);
    lemma_goes_on(session.plan, entry, item + 1, mounted);
    let source = path::join(
        path::join(mounted.path, status::from_directory(chosen)),
        found.from,
    );
    let kind = if item < chosen.files.len() {
        ItemKind::File
    } else {
        ItemKind::Dir
    };
    let failure = status::FailureView {
        partition: chosen.partition,
        source,
        destination: config::item_path(
            extracted_to(session.plan, entry).unwrap(),
            found,
            kind,
        ),
        required: found.required,
        error,
    };
    let old = session.record.failures;
    assert(old + seq![failure] =~= old.push(failure));
    assert(after.record.failures == old.push(failure));
    assert(after.record.failures.last() == failure);
}

/// A file is copied once it was found to be one. A directory in its place, and
/// a source that is not there, are failures of the file.
pub proof fn lemma_files_are_inspected(
    session: process::SessionView,
    entry: int,
    file: int,
    mounted: mount::MountedView,
    error: error::ErrorView,
)
    requires
        0 <= entry < session.plan.config.extract.len(),
        0 <= file < session.plan.config.extract[entry].files.len(),
        session.phase == (process::PhaseView::Inspect { entry, item: file, mounted }),
    ensures
        process::next(session, process::OutcomeView::Found { directory: false }) matches Some(after)
            && nothing_new(session, after) && after.phase == (process::PhaseView::Copy {
            entry,
            item: file,
            mounted,
        }),
        process::next(session, process::OutcomeView::Found { directory: true }) matches Some(after)
            && item_lost(
            session,
            after,
            entry,
            file,
            session.plan.config.extract[entry].files[file],
            ItemKind::File,
            mounted,
            "source is not a file"@,
        ),
        process::next(session, process::OutcomeView::Failed { error }) matches Some(after)
            && item_lost(
            session,
            after,
            entry,
            file,
            session.plan.config.extract[entry].files[file],
            ItemKind::File,
            mounted,
            "source does not exist: "@ + error.message,
        ),
{
    lemma_item_lost(session, entry, file, mounted, "source is not a file"@);
    lemma_item_lost(session, entry, file, mounted, "source does not exist: "@ + error.message);
}

/// A directory is copied once it was found to be one. Anything else in its
/// place, and a source that is not there, are failures of the directory.
pub proof fn lemma_directories_are_inspected(
    session: process::SessionView,
    entry: int,
    directory: int,
    mounted: mount::MountedView,
    error: error::ErrorView,
)
    requires
        0 <= entry < session.plan.config.extract.len(),
        0 <= directory < session.plan.config.extract[entry].dirs.len(),
        session.phase == (process::PhaseView::Inspect {
            entry,
            item: session.plan.config.extract[entry].files.len() + directory,
            mounted,
        }),
    ensures
        ({
            let chosen = session.plan.config.extract[entry];
            let item = chosen.files.len() + directory;
            &&& process::next(
                session,
                process::OutcomeView::Found { directory: true },
            ) matches Some(after) && nothing_new(session, after) && after.phase == (
            process::PhaseView::Copy { entry, item, mounted })
            &&& process::next(
                session,
                process::OutcomeView::Found { directory: false },
            ) matches Some(after) && item_lost(
                session,
                after,
                entry,
                item,
                chosen.dirs[directory],
                ItemKind::Dir,
                mounted,
                "source is not a directory"@,
            )
            &&& process::next(session, process::OutcomeView::Failed { error }) matches Some(after)
                && item_lost(
                session,
                after,
                entry,
                item,
                chosen.dirs[directory],
                ItemKind::Dir,
                mounted,
                "source does not exist: "@ + error.message,
            )
        }),
{
    let item = session.plan.config.extract[entry].files.len() + directory;
    lemma_item_lost(session, entry, item, mounted, "source is not a directory"@);
    lemma_item_lost(session, entry, item, mounted, "source does not exist: "@ + error.message);
}

/// A file that was copied is recorded at its place. A failure is recorded at
/// once, except that of an MDT image: what is left of it is removed first.
pub proof fn lemma_files_are_copied(
    session: process::SessionView,
    entry: int,
    file: int,
    mounted: mount::MountedView,
    error: error::ErrorView,
)
    requires
        0 <= entry < session.plan.config.extract.len(),
        0 <= file < session.plan.config.extract[entry].files.len(),
    ensures
        ({
            let found = session.plan.config.extract[entry].files[file];
            let copying = process::PhaseView::Copy { entry, item: file, mounted };
            let discarding = process::PhaseView::Discard { entry, item: file, mounted, error };
            &&& session.phase == copying ==> (process::next(
                session,
                process::OutcomeView::Done,
            ) matches Some(after) && extracted(
                session,
                after,
                config::item_path(
                    extracted_to(session.plan, entry).unwrap(),
                    found,
                    ItemKind::File,
                ),
            ) && goes_on(session.plan, entry, file + 1, mounted, after.phase))
            &&& session.phase == copying && config::is_mdt(found) ==> (process::next(
                session,
                process::OutcomeView::Failed { error },
            ) matches Some(after) && nothing_new(session, after) && after.phase == discarding)
            &&& session.phase == copying && !config::is_mdt(found) ==> (process::next(
                session,
                process::OutcomeView::Failed { error },
            ) matches Some(after) && item_lost(
                session,
                after,
                entry,
                file,
                found,
                ItemKind::File,
                mounted,
                "unable to copy: "@ + error.message,
            ))
            &&& session.phase == discarding ==> (process::next(
                session,
                process::OutcomeView::Done,
            ) matches Some(after) && item_lost(
                session,
                after,
                entry,
                file,
                found,
                ItemKind::File,
                mounted,
                "unable to copy: "@ + error.message,
            ))
        }),
{
    assert(extracted_to(session.plan, entry) == process::destination_of(session.plan, entry));
    lemma_goes_on(session.plan, entry, file + 1, mounted);
    lemma_item_lost(session, entry, file, mounted, "unable to copy: "@ + error.message);
}

/// A directory that was copied is recorded at its place, and a failure as
/// such; there is nothing to remove, whatever the directory is called.
pub proof fn lemma_directories_are_copied(
    session: process::SessionView,
    entry: int,
    directory: int,
    mounted: mount::MountedView,
    error: error::ErrorView,
)
    requires
        0 <= entry < session.plan.config.extract.len(),
        0 <= directory < session.plan.config.extract[entry].dirs.len(),
        session.phase == (process::PhaseView::Copy {
            entry,
            item: session.plan.config.extract[entry].files.len() + directory,
            mounted,
        }),
    ensures
        ({
            let chosen = session.plan.config.extract[entry];
            let item = chosen.files.len() + directory;
            &&& process::next(session, process::OutcomeView::Done) matches Some(after) && extracted(
                session,
                after,
                config::item_path(
                    extracted_to(session.plan, entry).unwrap(),
                    chosen.dirs[directory],
                    ItemKind::Dir,
                ),
            ) && goes_on(session.plan, entry, item + 1, mounted, after.phase)
            &&& process::next(session, process::OutcomeView::Failed { error }) matches Some(after)
                && item_lost(
                session,
                after,
                entry,
                item,
                chosen.dirs[directory],
                ItemKind::Dir,
                mounted,
                "unable to copy: "@ + error.message,
            )
        }),
{
    let item = session.plan.config.extract[entry].files.len() + directory;
    assert(extracted_to(session.plan, entry) == process::destination_of(session.plan, entry));
    lemma_goes_on(session.plan, entry, item + 1, mounted);
    lemma_item_lost(session, entry, item, mounted, "unable to copy: "@ + error.message);
}

/// A mount made for the run is released where it lies, and then the next entry
/// is taken up.
pub proof fn lemma_mounts_are_released(
    session: process::SessionView,
    entry: int,
    mounted: mount::MountedView,
)
    requires
        0 <= entry < session.plan.config.extract.len(),
        session.phase == (process::PhaseView::Release { entry, mounted }),
    ensures
        process::task_of(session) == (process::TaskView::Release { path: mounted.path }),
        process::next(session, process::OutcomeView::Done) matches Some(after) && nothing_new(
            session,
            after,
        ) && takes_up(session.plan, entry + 1, after.phase),
{
    lemma_takes_up(session.plan, entry + 1);
}

/// Mapped partitions are awaited: more than one thing in the directory of the
/// mapped partitions is enough, and else the run rests and looks again, at most
/// five times.
pub proof fn lemma_mappings_are_awaited(session: process::SessionView, looks: int, entries: u64)
    ensures
        session.phase == (process::PhaseView::AwaitMappings { looks }) ==> {
            &&& process::task_of(session) == (process::TaskView::CountEntries {
                directory: "/dev/mapper"@,
            })
            &&& process::next(
                session,
                process::OutcomeView::Counted { entries: Some(entries) },
            ) matches Some(after) && nothing_new(session, after) && (if entries > 1 {
                takes_up(session.plan, 0, after.phase)
            } else {
                after.phase == (process::PhaseView::Pausing { looks: looks + 1 })
            })
            &&& process::next(
                session,
                process::OutcomeView::Counted { entries: None },
            ) matches Some(after) && nothing_new(session, after) && after.phase == (
            process::PhaseView::Pausing { looks: looks + 1 })
        },
        session.phase == (process::PhaseView::Pausing { looks }) ==> {
            &&& process::task_of(session) == (process::TaskView::Pause { milliseconds: 100 })
            &&& process::next(session, process::OutcomeView::Done) matches Some(after)
                && nothing_new(session, after) && (if looks < 5 {
                after.phase == (process::PhaseView::AwaitMappings { looks })
            } else {
                takes_up(session.plan, 0, after.phase)
            })
        },
{
    lemma_takes_up(session.plan, 0);
}

/// The containers are looked for by label. Those found are mapped in order,
/// where each has a name; where none is found the run cannot go on.
pub proof fn lemma_containers_are_looked_for(
    session: process::SessionView,
    part: Seq<char>,
    existing: Seq<Seq<char>>,
)
    requires
        session.phase == process::PhaseView::FindContainers,
        session.plan.config.dynpart == Some(part),
    ensures
        ({
            let label = "/dev/disk/by-partlabel"@;
            let found = partition::container_paths(
                part,
                session.plan.active_slot,
                label,
                existing,
            );
            let answer = process::next(
                session,
                process::OutcomeView::Existing { paths: existing },
            );
            &&& process::task_of(session) == (process::TaskView::Probe {
                paths: partition::lookups(
                    partition::partition_names(part, session.plan.active_slot),
                    seq![label],
                ),
            })
            &&& found matches Err(error) ==> (answer matches Some(after) && nothing_new(
                session,
                after,
            ) && after.phase == (process::PhaseView::Aborted { error }))
            &&& found matches Ok(paths) ==> answer == Some(
                process::after_attempts(session, paths, Seq::empty()),
            )
            &&& found matches Ok(paths) ==> (paths.len() > 0 && partition::mapping_service(
                paths[0],
            ) is Ok ==> (answer matches Some(after) && nothing_new(session, after) && after.phase
                == (process::PhaseView::MapContainers { paths, attempts: Seq::empty() })))
        }),
{
}

/// The containers that are left are tried in turn.
proof fn lemma_next_attempt(
    session: process::SessionView,
    paths: Seq<Seq<char>>,
    attempts: Seq<(Seq<char>, Option<error::ErrorView>)>,
)
    ensures
        attempts.len() < paths.len() && partition::mapping_service(paths[attempts.len() as int])
            is Ok ==> process::after_attempts(session, paths, attempts) == (process::SessionView {
            phase: process::PhaseView::MapContainers { paths, attempts },
            ..session
        }),
{
}

/// Whether the attempts to map containers were taken to their end: what they
/// come to is recorded and awaited, or ends the run.
pub open spec fn mapped(
    before: process::SessionView,
    after: process::SessionView,
    part: Seq<char>,
    attempts: Seq<(Seq<char>, Option<error::ErrorView>)>,
) -> bool {
    match partition::mapping_result(part, before.plan.active_slot, attempts) {
        Err(error) => {
            &&& nothing_new(before, after)
            &&& after.phase == (process::PhaseView::Aborted { error })
        },
        Ok(paths) => {
            let old = before.record.partitions.len() as int;
            &&& after.plan == before.plan
            &&& after.record.entries == before.record.entries
            &&& after.record.failures == before.record.failures
            &&& after.record.partitions.len() == old + paths.len()
            &&& forall|i: int|
                0 <= i < old ==> #[trigger] after.record.partitions[i]
                    == before.record.partitions[i]
            &&& forall|i: int|
                0 <= i < paths.len() ==> #[trigger] after.record.partitions[old + i] == (
                status::SourceView { partition: "dynpart:"@ + part, source: paths[i] })
            &&& after.phase == (process::PhaseView::AwaitMappings { looks: 0 })
        },
    }
}

/// The service of each container is started in turn, and what came of it is
/// kept, success and failure alike. Behind the last container the attempts are
/// judged together.
pub proof fn lemma_containers_are_mapped_in_turn(
    session: process::SessionView,
    part: Seq<char>,
    paths: Seq<Seq<char>>,
    attempts: Seq<(Seq<char>, Option<error::ErrorView>)>,
    front: Seq<char>,
    name: Seq<char>,
    error: error::ErrorView,
)
    requires
        session.phase == (process::PhaseView::MapContainers { paths, attempts }),
        session.plan.config.dynpart == Some(part),
        attempts.len() < paths.len(),
        front.len() == 0 || front.last() == '/',
        name.len() > 0,
        !name.contains('/'),
        name != seq!['.'],
        name != seq!['.', '.'],
        paths[attempts.len() as int] == front + name,
    ensures
        ({
            let done = attempts.push((paths[attempts.len() as int], None));
            let lost = attempts.push((paths[attempts.len() as int], Some(error)));
            let on_done = process::next(session, process::OutcomeView::Done);
            let on_lost = process::next(session, process::OutcomeView::Failed { error });
            &&& process::task_of(session) == (process::TaskView::StartService {
                service: "make-dynpart-mappings@"@ + name + ".service"@,
            })
            &&& on_done is Some && on_lost is Some
            &&& done.len() == paths.len() ==> mapped(session, on_done.unwrap(), part, done)
                && mapped(session, on_lost.unwrap(), part, lost)
            &&& done.len() < paths.len() && partition::mapping_service(paths[done.len() as int])
                is Ok ==> {
                &&& nothing_new(session, on_done.unwrap())
                &&& nothing_new(session, on_lost.unwrap())
                &&& on_done.unwrap().phase == (process::PhaseView::MapContainers {
                    paths,
                    attempts: done,
                })
                &&& on_lost.unwrap().phase == (process::PhaseView::MapContainers {
                    paths,
                    attempts: lost,
                })
            }
        }),
{
    let done = attempts.push((paths[attempts.len() as int], None));
    let lost = attempts.push((paths[attempts.len() as int], Some(error)));
    partition::lemma_mapping_services_are_called_after_containers(front, name);
    lemma_next_attempt(session, paths, done);
    lemma_next_attempt(session, paths, lost);
}

/// A container without a name fails by itself, and the one behind it is tried.
pub proof fn lemma_nameless_containers_fail(
    session: process::SessionView,
    paths: Seq<Seq<char>>,
    attempts: Seq<(Seq<char>, Option<error::ErrorView>)>,
    error: error::ErrorView,
)
    requires
        attempts.len() < paths.len(),
        partition::mapping_service(paths[attempts.len() as int]) == Err::<
            Seq<char>,
            error::ErrorView,
        >(error),
    ensures
        process::after_attempts(session, paths, attempts) == process::after_attempts(
            session,
            paths,
            attempts.push((paths[attempts.len() as int], Some(error))),
        ),
{
}

/// A run that has dealt with every entry ends in a status with all that was
/// recorded, the kernel release and the suffix of the active slot; one that
/// cannot go on ends in its error; any other has not ended.
pub proof fn lemma_runs_end_in_a_status(session: process::SessionView, error: error::ErrorView)
    ensures
        session.phase == process::PhaseView::Finished ==> (process::result_of(session) matches Some(
            Ok(status),
        ) && status.entries == session.record.entries && status.partitions
            == session.record.partitions && status.failures == session.record.failures
            && status.kernel_release == session.plan.kernel_release && status.active_slot == (
        match session.plan.active_slot {
            None => None,
            Some(Slot::A) => Some(seq!['_', 'a']),
            Some(Slot::B) => Some(seq!['_', 'b']),
        })),
        session.phase == (process::PhaseView::Aborted { error }) ==> process::result_of(session)
            == Some(Err::<status::StatusView, error::ErrorView>(error)),
        process::result_of(session) is Some <==> session.phase is Finished || session.phase
            is Aborted,
        session.phase is Finished || session.phase is Aborted ==> process::task_of(session)
            == process::TaskView::Nothing,
{
    reveal_strlit("_a");
    reveal_strlit("_b");
    assert("_a"@ =~= seq!['_', 'a'] && "_b"@ =~= seq!['_', 'b']);
}

/// An outcome is taken in only where it answers the task at hand.
#[verifier::rlimit(50)]
pub proof fn lemma_only_answers_are_taken_in(
    session: process::SessionView,
    outcome: process::OutcomeView,
)
    requires
        process::next(session, outcome) is Some,
    ensures
        match process::task_of(session) {
            process::TaskView::Probe { .. } => outcome is Existing,
            process::TaskView::StartService { .. } => outcome is Done || outcome is Failed,
            process::TaskView::CountEntries { .. } => outcome is Counted,
            process::TaskView::Pause { .. } => outcome is Done,
            process::TaskView::CreateDirectory { .. } => outcome is Done || outcome is Failed,
            process::TaskView::Mount { .. } => outcome is Mounted || outcome is Failed,
            process::TaskView::Inspect { .. } => outcome is Found || outcome is Failed,
            process::TaskView::CopyFile { .. } => outcome is Done || outcome is Failed,
            process::TaskView::CopyDirectory { .. } => outcome is Done || outcome is Failed,
            process::TaskView::RemoveFile { .. } => outcome is Done,
            process::TaskView::Release { .. } => outcome is Done,
            process::TaskView::DumpRaw { .. } => outcome is Done || outcome is Failed,
            process::TaskView::Nothing => false,
        },
{
    match session.phase {
        process::PhaseView::FindContainers => {},
        process::PhaseView::MapContainers { .. } => {},
        process::PhaseView::AwaitMappings { .. } => {},
        process::PhaseView::Pausing { .. } => {},
        process::PhaseView::FindRaw { .. } => {},
        process::PhaseView::DumpRaw { .. } => {},
        process::PhaseView::MakeDirectory { .. } => {},
        process::PhaseView::FindPartition { .. } => {},
        process::PhaseView::Mount { .. } => {},
        process::PhaseView::Inspect { .. } => {},
        process::PhaseView::Copy { .. } => {},
        process::PhaseView::Discard { .. } => {},
        process::PhaseView::Release { .. } => {},
        process::PhaseView::Finished => {},
        process::PhaseView::Aborted { .. } => {},
    }
}

/// A run begins exactly where every entry of the configuration is valid, and
/// with what it is given; else the first entry that is not valid is the error.
pub proof fn lemma_valid_configurations_are_run(
    given: config::ConfigView,
    extract_path: Seq<char>,
    mounts_dir: Seq<char>,
    release: Option<Seq<char>>,
    active: Option<Slot>,
    at: int,
)
    ensures
        ({
            let begin = process::begun(given, extract_path, mounts_dir, release, active);
            &&& (forall|i: int|
                0 <= i < given.extract.len() ==> config::entry_validity(
                    #[trigger] given.extract[i],
                ) is Ok) ==> {
                &&& begin is Ok
                &&& begin->Ok_0.plan.config == given
                &&& begin->Ok_0.plan.extract_path == extract_path
                &&& begin->Ok_0.plan.mounts_dir == mounts_dir
                &&& begin->Ok_0.plan.kernel_release == release
                &&& begin->Ok_0.plan.active_slot == active
                &&& begin->Ok_0.record.entries.len() == 0
                &&& begin->Ok_0.record.partitions.len() == 0
                &&& begin->Ok_0.record.failures.len() == 0
                &&& given.dynpart is Some ==> begin->Ok_0.phase is FindContainers
                &&& given.dynpart is None ==> takes_up(begin->Ok_0.plan, 0, begin->Ok_0.phase)
            }
            &&& 0 <= at < given.extract.len() && config::entry_validity(given.extract[at]) is Err
                && (forall|i: int|
                0 <= i < at ==> config::entry_validity(#[trigger] given.extract[i]) is Ok) ==> begin
                == Err::<process::SessionView, error::ErrorView>(
                config::entry_validity(given.extract[at])->Err_0,
            )
        }),
{
    lemma_first_invalid_entry_counts(given.extract, at);
    let begin = process::begun(given, extract_path, mounts_dir, release, active);
    if let Ok(session) = begin {
        lemma_runs_begin(session.plan);
    }
}

/// The entry that a run reads and the mount it reads it at.
pub open spec fn reading(phase: process::PhaseView) -> Option<(int, mount::MountedView)> {
    match phase {
        process::PhaseView::Inspect { entry, mounted, .. } => Some((entry, mounted)),
        process::PhaseView::Copy { entry, mounted, .. } => Some((entry, mounted)),
        process::PhaseView::Discard { entry, mounted, .. } => Some((entry, mounted)),
        _ => None,
    }
}

/// A run keeps reading an entry at one mount, which was reported to it for
/// that entry.
#[verifier::rlimit(50)]
proof fn lemma_reading_step(session: process::SessionView, outcome: process::OutcomeView)
    requires
        process::valid(session),
        process::next(session, outcome) is Some,
        reading(process::next(session, outcome)->0.phase) is Some,
    ensures
        reading(session.phase) == reading(process::next(session, outcome)->0.phase) || {
            let (entry, mounted) = reading(process::next(session, outcome)->0.phase).unwrap();
            &&& outcome == (process::OutcomeView::Mounted { partition: mounted })
            &&& mounted.temporary ==> mounted.path == path::join(
                session.plan.mounts_dir,
                session.plan.config.extract[entry].partition,
            )
        },
{
    match session.phase {
        process::PhaseView::FindContainers => {},
        process::PhaseView::MapContainers { .. } => {},
        process::PhaseView::AwaitMappings { .. } => {},
        process::PhaseView::Pausing { .. } => {},
        process::PhaseView::FindRaw { .. } => {},
        process::PhaseView::DumpRaw { .. } => {},
        process::PhaseView::MakeDirectory { .. } => {},
        process::PhaseView::FindPartition { .. } => {},
        process::PhaseView::Mount { .. } => {},
        process::PhaseView::Inspect { .. } => {},
        process::PhaseView::Copy { .. } => {},
        process::PhaseView::Discard { .. } => {},
        process::PhaseView::Release { .. } => {},
        process::PhaseView::Finished => {},
        process::PhaseView::Aborted { .. } => {},
    }
}

/// In every run what is inspected and copied lies at a mount point that was
/// reported to the run: at the item's own path below it, or below the directory
/// that the entry names. A mount made for the run lies below the directory of
/// mounts, under the name of the partition.
pub proof fn lemma_every_run_reads_at_the_mount_point(
    plan: process::PlanView,
    outcomes: Seq<process::OutcomeView>,
)
    requires
        process::sound(plan),
    ensures
        ({
            let session = ledger::run(process::started(plan), outcomes);
            reading(session.phase) matches Some((entry, mounted)) ==> {
                let chosen = plan.config.extract[entry];
                &&& 0 <= entry < plan.config.extract.len()
                &&& outcomes.contains(process::OutcomeView::Mounted { partition: mounted })
                &&& mounted.temporary ==> mounted.path == path::join(
                    plan.mounts_dir,
                    chosen.partition,
                )
                &&& read_at(process::task_of(session)) matches Some(path) ==> {
                    ||| exists|file: int|
                        0 <= file < chosen.files.len() && leads_to(
                            path,
                            mounted.path,
                            chosen.from,
                            (#[trigger] chosen.files[file]).from,
                        )
                    ||| exists|directory: int|
                        0 <= directory < chosen.dirs.len() && leads_to(
                            path,
                            mounted.path,
                            chosen.from,
                            (#[trigger] chosen.dirs[directory]).from,
                        )
                }
            }
        }),
    decreases outcomes.len(),
{
    let session = ledger::run(process::started(plan), outcomes);
    ledger::lemma_every_run(plan, outcomes);
    if outcomes.len() > 0 {
        let front = outcomes.drop_last();
        let before = ledger::run(process::started(plan), front);
        lemma_every_run_reads_at_the_mount_point(plan, front);
        ledger::lemma_every_run(plan, front);
        if process::next(before, outcomes.last()) is Some && reading(session.phase) is Some {
            lemma_reading_step(before, outcomes.last());
        }
        if let Some((entry, mounted)) = reading(session.phase) {
            let reported = process::OutcomeView::Mounted { partition: mounted };
            if front.contains(reported) {
                let i = choose|i: int| 0 <= i < front.len() && front[i] == reported;
                assert(outcomes[i] == reported);
            } else {
                assert(outcomes[outcomes.len() - 1] == reported);
            }
        }
    } else {
        lemma_takes_up(plan, 0);
    }
    match session.phase {
        process::PhaseView::Inspect { entry, item, mounted } => {
            lemma_item_is_read(session, entry, item, mounted);
        },
        process::PhaseView::Copy { entry, item, mounted } => {
            lemma_item_is_read(session, entry, item, mounted);
        },
        _ => {},
    }
}

/// An item that is inspected or copied is a file or a directory of the entry.
proof fn lemma_item_is_read(
    session: process::SessionView,
    entry: int,
    item: int,
    mounted: mount::MountedView,
)
    requires
        0 <= entry < session.plan.config.extract.len(),
        0 <= item < session.plan.config.extract[entry].files.len()
            + session.plan.config.extract[entry].dirs.len(),
        session.phase == (process::PhaseView::Inspect { entry, item, mounted }) || session.phase
            == (process::PhaseView::Copy { entry, item, mounted }),
    ensures
        ({
            let chosen = session.plan.config.extract[entry];
            let found = if item < chosen.files.len() {
                chosen.files[item]
            } else {
                chosen.dirs[item - chosen.files.len()]
            };
            read_at(process::task_of(session)) matches Some(path) && leads_to(
                path,
                mounted.path,
                chosen.from,
                found.from,
            )
        }),
{
    let files = session.plan.config.extract[entry].files.len();
    if item < files {
        lemma_files_are_read_at_the_mount_point(session, entry, item, mounted);
    } else {
        lemma_directories_are_read_at_the_mount_point(session, entry, item - files, mounted);
    }
}

} // verus!
