//! What holds of every run, whatever comes of its tasks: it ends, it never
//! forgets, and it accounts for every item of the configuration.

use vstd::prelude::*;

use crate::error;
use crate::error::ErrorKind;
use crate::mount;
use crate::partition;
use crate::path;
use crate::process;
use crate::slot;
use crate::slot::Slot;
use crate::status;

verus! {

/// The run after a number of outcomes; those that do not answer the task at
/// hand change nothing.
pub open spec fn run(
    session: process::SessionView,
    outcomes: Seq<process::OutcomeView>,
) -> process::SessionView
    decreases outcomes.len(),
{
    if outcomes.len() == 0 {
        session
    } else {
        let before = run(session, outcomes.drop_last());
        match process::next(before, outcomes.last()) {
            Some(after) => after,
            None => before,
        }
    }
}

/// How many tasks an entry takes at most.
pub open spec fn entry_cost(plan: process::PlanView, entry: int) -> int {
    3 * process::item_count(process::entry_at(plan, entry)) + 4
}

/// How many tasks the entries from an index on take at most.
pub open spec fn entries_cost(plan: process::PlanView, from: int) -> int
    decreases plan.config.extract.len() - from,
{
    if from >= plan.config.extract.len() {
        0
    } else {
        entry_cost(plan, from) + entries_cost(plan, from + 1)
    }
}

/// How many tasks a phase and all that follows it take at most.
pub open spec fn phase_cost(plan: process::PlanView, phase: process::PhaseView) -> int {
    match phase {
        process::PhaseView::FindContainers => entries_cost(plan, 0) + 15,
        process::PhaseView::MapContainers { paths, attempts } => entries_cost(plan, 0) + 11
            + paths.len() - attempts.len(),
        process::PhaseView::AwaitMappings { looks } => entries_cost(plan, 0) + 2 * (
        process::most_looks() - looks) + 1,
        process::PhaseView::Pausing { looks } => entries_cost(plan, 0) + 2 * (process::most_looks()
            - looks) + 2,
        process::PhaseView::FindRaw { entry } => entries_cost(plan, entry + 1) + 2,
        process::PhaseView::DumpRaw { entry, .. } => entries_cost(plan, entry + 1) + 1,
        process::PhaseView::MakeDirectory { entry } => entries_cost(plan, entry + 1) + 3
            * process::item_count(process::entry_at(plan, entry)) + 4,
        process::PhaseView::FindPartition { entry } => entries_cost(plan, entry + 1) + 3
            * process::item_count(process::entry_at(plan, entry)) + 3,
        process::PhaseView::Mount { entry, .. } => entries_cost(plan, entry + 1) + 3
            * process::item_count(process::entry_at(plan, entry)) + 2,
        process::PhaseView::Inspect { entry, item, .. } => entries_cost(plan, entry + 1) + 3 * (
        process::item_count(process::entry_at(plan, entry)) - item) + 1,
        process::PhaseView::Copy { entry, item, .. } => entries_cost(plan, entry + 1) + 3 * (
        process::item_count(process::entry_at(plan, entry)) - item),
        process::PhaseView::Discard { entry, item, .. } => entries_cost(plan, entry + 1) + 3 * (
        process::item_count(process::entry_at(plan, entry)) - item) - 1,
        process::PhaseView::Release { entry, .. } => entries_cost(plan, entry + 1) + 1,
        process::PhaseView::Finished => 0,
        process::PhaseView::Aborted { .. } => 0,
    }
}

/// Entries take a number of tasks that is not negative.
proof fn lemma_entries_cost(plan: process::PlanView, from: int)
    ensures
        0 <= entries_cost(plan, from),
    decreases plan.config.extract.len() - from,
{
    if from < plan.config.extract.len() {
        lemma_entries_cost(plan, from + 1);
    }
}

/// Taking up the entries from an index on takes no more than they do.
proof fn lemma_entry_phase_cost(plan: process::PlanView, from: int)
    requires
        0 <= from <= plan.config.extract.len(),
    ensures
        0 <= phase_cost(plan, process::entry_phase(plan, from)) <= entries_cost(plan, from),
    decreases plan.config.extract.len() - from,
{
    lemma_entries_cost(plan, from);
    if from < plan.config.extract.len() {
        lemma_entries_cost(plan, from + 1);
        if process::destination_of(plan, from) is None {
            lemma_entry_phase_cost(plan, from + 1);
        }
    }
}

/// Taking up the items of an entry from an index on.
proof fn lemma_item_phase_cost(
    plan: process::PlanView,
    entry: int,
    item: int,
    mounted: mount::MountedView,
)
    requires
        0 <= entry < plan.config.extract.len(),
        0 <= item <= process::item_count(process::entry_at(plan, entry)),
    ensures
        0 <= phase_cost(plan, process::item_phase(plan, entry, item, mounted)) <= entries_cost(
            plan,
            entry + 1,
        ) + 3 * (process::item_count(process::entry_at(plan, entry)) - item) + 1,
{
    lemma_entries_cost(plan, entry + 1);
    lemma_entry_phase_cost(plan, entry + 1);
}

/// Going on after some attempts.
proof fn lemma_attempts_cost(
    session: process::SessionView,
    paths: Seq<Seq<char>>,
    attempts: Seq<(Seq<char>, Option<error::ErrorView>)>,
)
    requires
        attempts.len() <= paths.len(),
    ensures
        0 <= phase_cost(session.plan, process::after_attempts(session, paths, attempts).phase)
            <= entries_cost(session.plan, 0) + 11 + paths.len() - attempts.len(),
{
    lemma_entries_cost(session.plan, 0);
    process::lemma_tried(paths, attempts);
}

/// Every outcome that a run takes in brings it closer to its end.
#[verifier::rlimit(50)]
pub proof fn lemma_runs_end(session: process::SessionView, outcome: process::OutcomeView)
    requires
        process::valid(session),
        process::next(session, outcome) is Some,
    ensures
        0 <= phase_cost(session.plan, process::next(session, outcome)->0.phase) < phase_cost(
            session.plan,
            session.phase,
        ),
{
    let plan = session.plan;
    lemma_entries_cost(plan, 0);
    match session.phase {
        process::PhaseView::FindContainers => {
            if let process::OutcomeView::Existing { paths } = outcome {
                process::lemma_few_containers(
                    process::container(plan),
                    plan.active_slot,
                    process::partlabel_dir(),
                    paths,
                );
                if let Ok(found) = partition::container_paths(
                    process::container(plan),
                    plan.active_slot,
                    process::partlabel_dir(),
                    paths,
                ) {
                    lemma_attempts_cost(session, found, Seq::empty());
                }
            }
        },
        process::PhaseView::MapContainers { paths, attempts } => {
            let path = paths[attempts.len() as int];
            lemma_attempts_cost(session, paths, attempts.push((path, None)));
            if let process::OutcomeView::Failed { error } = outcome {
                lemma_attempts_cost(session, paths, attempts.push((path, Some(error))));
            }
        },
        process::PhaseView::AwaitMappings { .. } => {
            lemma_entry_phase_cost(plan, 0);
        },
        process::PhaseView::Pausing { .. } => {
            lemma_entry_phase_cost(plan, 0);
        },
        process::PhaseView::FindRaw { entry } => {
            lemma_entries_cost(plan, entry + 1);
            lemma_entry_phase_cost(plan, entry + 1);
        },
        process::PhaseView::DumpRaw { entry, .. } => {
            lemma_entry_phase_cost(plan, entry + 1);
        },
        process::PhaseView::MakeDirectory { entry } => {
            lemma_entries_cost(plan, entry + 1);
            lemma_entry_phase_cost(plan, entry + 1);
        },
        process::PhaseView::FindPartition { entry } => {
            lemma_entries_cost(plan, entry + 1);
            lemma_entry_phase_cost(plan, entry + 1);
        },
        process::PhaseView::Mount { entry, .. } => {
            lemma_entry_phase_cost(plan, entry + 1);
            if let process::OutcomeView::Mounted { partition } = outcome {
                lemma_item_phase_cost(plan, entry, 0, partition);
            }
        },
        process::PhaseView::Inspect { entry, item, mounted } => {
            lemma_entries_cost(plan, entry + 1);
            lemma_item_phase_cost(plan, entry, item + 1, mounted);
        },
        process::PhaseView::Copy { entry, item, mounted } => {
            lemma_entries_cost(plan, entry + 1);
            lemma_item_phase_cost(plan, entry, item + 1, mounted);
        },
        process::PhaseView::Discard { entry, item, mounted, .. } => {
            lemma_item_phase_cost(plan, entry, item + 1, mounted);
        },
        process::PhaseView::Release { entry, .. } => {
            lemma_entry_phase_cost(plan, entry + 1);
        },
        process::PhaseView::Finished => {},
        process::PhaseView::Aborted { .. } => {},
    }
}

/// What a run has recorded stays recorded, in order, before all that follows.
#[verifier::rlimit(50)]
pub proof fn lemma_records_only_grow(session: process::SessionView, outcome: process::OutcomeView)
    ensures
        process::next(session, outcome) matches Some(after) ==> {
            &&& session.record.entries.is_prefix_of(after.record.entries)
            &&& session.record.partitions.is_prefix_of(after.record.partitions)
            &&& session.record.failures.is_prefix_of(after.record.failures)
        },
{
    match session.phase {
        process::PhaseView::FindContainers => {},
        process::PhaseView::MapContainers { .. } => {},
        process::PhaseView::AwaitMappings { .. } => {},
        process::PhaseView::Pausing { .. } => {},
        process::PhaseView::FindRaw { .. } => {},
        process::PhaseView::DumpRaw { .. } => {},
        process::PhaseView::MakeDirectory { .. } => {},
        process::PhaseView::FindPartition { .. } => {},
        process::PhaseView::Mount { .. } => {},
        process::PhaseView::Inspect { .. } => {},
        process::PhaseView::Copy { .. } => {},
        process::PhaseView::Discard { .. } => {},
        process::PhaseView::Release { .. } => {},
        process::PhaseView::Finished => {},
        process::PhaseView::Aborted { .. } => {},
    }
}

/// A partition that was mounted is recorded with the device that was selected.
pub proof fn lemma_mounted_device_is_recorded(
    session: process::SessionView,
    entry: int,
    source: Seq<char>,
    mounted: mount::MountedView,
)
    requires
        session.phase == (process::PhaseView::Mount { entry, source }),
    ensures
        process::next(
            session,
            process::OutcomeView::Mounted { partition: mounted },
        ) matches Some(after) ==> after.record.partitions.contains(
            status::SourceView {
                partition: process::entry_at(session.plan, entry).partition,
                source,
            },
        ),
        process::next(
            session,
            process::OutcomeView::Mounted { partition: mounted },
        ) is Some <==> process::as_asked(session.plan, entry, source, mounted),
{
    status::lemma_source_is_recorded_once(
        session.record.partitions,
        status::SourceView {
            partition: process::entry_at(session.plan, entry).partition,
            source: mounted.source,
        },
    );
}

/// Every mount that a run asks for is read-only, and so is every mount that
/// the mounting of what it asks for tries.
pub proof fn lemma_mounts_are_read_only(
    session: process::SessionView,
    outcomes: Seq<mount::MountOutcomeView>,
)
    ensures
        process::task_of(session) matches process::TaskView::Mount { source, path, flags } ==> {
            &&& flags == mount::MS_RDONLY
            &&& mount::mount_task(
                mount::after_outcomes(mount::fresh(source, path, flags), outcomes),
            ) matches mount::MountTaskView::Mount { flags: used, .. } ==> used == mount::MS_RDONLY
        },
{
    if let process::TaskView::Mount { source, path, flags } = process::task_of(session) {
        mount::lemma_only_own_mounts_are_temporary(source, path, flags, outcomes);
    }
}

/// What a mounting comes to that is begun as a run asks for it, the run takes
/// in.
pub proof fn lemma_mountings_answer_runs(
    session: process::SessionView,
    entry: int,
    source: Seq<char>,
    outcomes: Seq<mount::MountOutcomeView>,
)
    requires
        session.phase == (process::PhaseView::Mount { entry, source }),
    ensures
        mount::mount_task(
            mount::after_outcomes(
                mount::fresh(
                    source,
                    process::mount_path(session.plan, entry),
                    mount::MS_RDONLY,
                ),
                outcomes,
            ),
        ) matches mount::MountTaskView::Done { partition } ==> process::next(
            session,
            process::OutcomeView::Mounted { partition },
        ) is Some,
{
    mount::lemma_only_own_mounts_are_temporary(
        source,
        process::mount_path(session.plan, entry),
        mount::MS_RDONLY,
        outcomes,
    );
}

/// Whether a recorded source is a device file that was looked up for an entry.
pub open spec fn serves(
    plan: process::PlanView,
    entry: int,
    recorded: status::SourceView,
) -> bool {
    let chosen = process::entry_at(plan, entry);
    &&& process::open_entry(plan, entry)
    &&& recorded.partition == chosen.partition
    &&& partition::lookups(
        partition::partition_names(chosen.partition, plan.active_slot),
        if chosen.raw {
            process::raw_roots()
        } else {
            process::mount_roots()
        },
    ).contains(recorded.source)
}

/// Whether a recorded source was looked up: for the container, or for an entry.
pub open spec fn was_looked_up(plan: process::PlanView, recorded: status::SourceView) -> bool {
    ||| plan.config.dynpart is Some && recorded.partition == "dynpart:"@ + process::container(plan)
        && process::container_lookups(plan).contains(recorded.source)
    ||| exists|entry: int| serves(plan, entry, recorded)
}

/// Whether every recorded source was looked up.
pub open spec fn sourced(session: process::SessionView) -> bool {
    forall|i: int|
        0 <= i < session.record.partitions.len() ==> was_looked_up(
            session.plan,
            #[trigger] session.record.partitions[i],
        )
}

/// Recording a source that was looked up.
proof fn lemma_with_source(
    session: process::SessionView,
    entry: int,
    recorded: status::SourceView,
)
    requires
        sourced(session),
        serves(session.plan, entry, recorded),
    ensures
        forall|i: int|
            0 <= i < status::with_source(session.record.partitions, recorded).len()
                ==> was_looked_up(
                session.plan,
                #[trigger] status::with_source(session.record.partitions, recorded)[i],
            ),
{
    let before = session.record.partitions;
    let after = status::with_source(before, recorded);
    assert forall|i: int| 0 <= i < after.len() implies was_looked_up(
        session.plan,
        #[trigger] after[i],
    ) by {
        if i < before.len() {
            assert(after[i] == before[i]);
        }
    }
}

/// Recording containers that were mapped.
proof fn lemma_attempts_sourced(
    session: process::SessionView,
    paths: Seq<Seq<char>>,
    attempts: Seq<(Seq<char>, Option<error::ErrorView>)>,
)
    requires
        sourced(session),
        session.plan.config.dynpart is Some,
        process::admitted(session.plan, paths),
        process::in_turn(paths, attempts),
    ensures
        sourced(process::after_attempts(session, paths, attempts)),
{
    let plan = session.plan;
    let all = process::tried(paths, attempts);
    let after = process::after_attempts(session, paths, attempts);
    process::lemma_tried(paths, attempts);
    partition::lemma_mapped_paths_were_tried(all);
    let before = session.record.partitions;
    assert forall|i: int| 0 <= i < after.record.partitions.len() implies was_looked_up(
        plan,
        #[trigger] after.record.partitions[i],
    ) by {
        if i < before.len() {
            assert(after.record.partitions[i] == before[i]);
        } else {
            let mapped = partition::mapped_paths(all);
            let k = i - before.len();
            assert(after.record.partitions[i].source == mapped[k]);
            let j = choose|j: int| 0 <= j < all.len() && (#[trigger] all[j]).0 == mapped[k];
            assert(all[j].0 == paths[j]);
            assert(process::container_lookups(plan).contains(paths[j]));
        }
    }
}

/// Whatever comes of the tasks, only device files that were looked up are
/// recorded.
#[verifier::rlimit(50)]
pub proof fn lemma_runs_stay_sourced(session: process::SessionView, outcome: process::OutcomeView)
    requires
        process::valid(session),
        sourced(session),
    ensures
        process::next(session, outcome) matches Some(after) ==> sourced(after),
{
    let plan = session.plan;
    match session.phase {
        process::PhaseView::FindContainers => {
            if let process::OutcomeView::Existing { paths } = outcome {
                partition::lemma_containers_were_looked_up(
                    process::container(plan),
                    plan.active_slot,
                    process::partlabel_dir(),
                    paths,
                );
                partition::lemma_containers_are_distinct(
                    process::container(plan),
                    plan.active_slot,
                    process::partlabel_dir(),
                    paths,
                );
                if let Ok(found) = partition::container_paths(
                    process::container(plan),
                    plan.active_slot,
                    process::partlabel_dir(),
                    paths,
                ) {
                    lemma_attempts_sourced(session, found, Seq::empty());
                }
            }
        },
        process::PhaseView::MapContainers { paths, attempts } => {
            let path = paths[attempts.len() as int];
            lemma_attempts_sourced(session, paths, attempts.push((path, None)));
            if let process::OutcomeView::Failed { error } = outcome {
                lemma_attempts_sourced(session, paths, attempts.push((path, Some(error))));
            }
        },
        process::PhaseView::FindRaw { entry } => {
            if let process::OutcomeView::Existing { paths } = outcome {
                let part = process::entry_at(plan, entry).partition;
                partition::lemma_selection_was_looked_up(
                    part,
                    plan.active_slot,
                    process::raw_roots(),
                    paths,
                );
                if let Ok(origin) = partition::selected_path(
                    part,
                    plan.active_slot,
                    process::raw_roots(),
                    paths,
                ) {
                    lemma_with_source(
                        session,
                        entry,
                        status::SourceView { partition: part, source: origin },
                    );
                }
            }
        },
        process::PhaseView::Mount { entry, source } => {
            lemma_with_source(
                session,
                entry,
                status::SourceView {
                    partition: process::entry_at(plan, entry).partition,
                    source,
                },
            );
        },
        process::PhaseView::AwaitMappings { .. } => {},
        process::PhaseView::Pausing { .. } => {},
        process::PhaseView::DumpRaw { .. } => {},
        process::PhaseView::MakeDirectory { .. } => {},
        process::PhaseView::FindPartition { .. } => {},
        process::PhaseView::Inspect { .. } => {},
        process::PhaseView::Copy { .. } => {},
        process::PhaseView::Discard { .. } => {},
        process::PhaseView::Release { .. } => {},
        process::PhaseView::Finished => {},
        process::PhaseView::Aborted { .. } => {},
    }
}

/// In every run each recorded source was looked up, for the container or for
/// the entry it is recorded for.
pub proof fn lemma_recorded_sources_were_looked_up(
    plan: process::PlanView,
    outcomes: Seq<process::OutcomeView>,
)
    requires
        process::sound(plan),
    ensures
        sourced(run(process::started(plan), outcomes)),
    decreases outcomes.len(),
{
    if outcomes.len() > 0 {
        lemma_recorded_sources_were_looked_up(plan, outcomes.drop_last());
        lemma_every_run(plan, outcomes.drop_last());
        lemma_runs_stay_sourced(
            run(process::started(plan), outcomes.drop_last()),
            outcomes.last(),
        );
    }
}

/// Something that a configuration asks for on the running kernel.
pub struct WantedView {
    pub partition: Seq<char>,
    pub destination: Seq<char>,
    pub required: bool,
}

/// What an entry asks for: nothing without a destination, one dump if it is
/// raw, else its items.
pub open spec fn wanted_of(plan: process::PlanView, entry: int) -> Seq<WantedView> {
    let chosen = process::entry_at(plan, entry);
    if process::destination_of(plan, entry) is None {
        Seq::empty()
    } else if chosen.raw {
        seq![
            WantedView {
                partition: chosen.partition,
                destination: process::dest_dir(plan, entry),
                required: false,
            },
        ]
    } else {
        Seq::new(
            process::item_count(chosen) as nat,
            |item: int|
                WantedView {
                    partition: chosen.partition,
                    destination: process::item_target(plan, entry, item),
                    required: process::item_at(chosen, item).required,
                },
        )
    }
}

/// What the entries before an index ask for.
pub open spec fn wanted_before(plan: process::PlanView, entry: int) -> Seq<WantedView>
    decreases entry,
{
    if entry <= 0 {
        Seq::empty()
    } else {
        wanted_before(plan, entry - 1) + wanted_of(plan, entry - 1)
    }
}

/// What a configuration asks for on the running kernel, in order.
pub open spec fn wanted(plan: process::PlanView) -> Seq<WantedView> {
    wanted_before(plan, plan.config.extract.len() as int)
}

/// What a run in the given phase has dealt with.
pub open spec fn dealt_with(plan: process::PlanView, phase: process::PhaseView) -> Seq<WantedView> {
    match phase {
        process::PhaseView::FindRaw { entry } => wanted_before(plan, entry),
        process::PhaseView::DumpRaw { entry, .. } => wanted_before(plan, entry),
        process::PhaseView::MakeDirectory { entry } => wanted_before(plan, entry),
        process::PhaseView::FindPartition { entry } => wanted_before(plan, entry),
        process::PhaseView::Mount { entry, .. } => wanted_before(plan, entry),
        process::PhaseView::Inspect { entry, item, .. } => wanted_before(plan, entry) + wanted_of(
            plan,
            entry,
        ).take(item),
        process::PhaseView::Copy { entry, item, .. } => wanted_before(plan, entry) + wanted_of(
            plan,
            entry,
        ).take(item),
        process::PhaseView::Discard { entry, item, .. } => wanted_before(plan, entry) + wanted_of(
            plan,
            entry,
        ).take(item),
        process::PhaseView::Release { entry, .. } => wanted_before(plan, entry + 1),
        process::PhaseView::Finished => wanted(plan),
        _ => Seq::empty(),
    }
}

/// Whether a failure is that of something asked for.
pub open spec fn concerns(failure: status::FailureView, item: WantedView) -> bool {
    &&& failure.partition == item.partition
    &&& failure.destination == item.destination
    &&& failure.required == item.required
}

/// Whether each thing was either extracted or recorded as a failure, and
/// nothing else was, both in order.
pub open spec fn accounts(
    items: Seq<WantedView>,
    entries: Seq<Seq<char>>,
    failures: Seq<status::FailureView>,
) -> bool
    decreases items.len(),
{
    if items.len() == 0 {
        entries.len() == 0 && failures.len() == 0
    } else {
        ||| entries.len() > 0 && entries.last() == items.last().destination && accounts(
            items.drop_last(),
            entries.drop_last(),
            failures,
        )
        ||| failures.len() > 0 && concerns(failures.last(), items.last()) && accounts(
            items.drop_last(),
            entries,
            failures.drop_last(),
        )
    }
}

/// Whether a run accounts for what it has dealt with.
pub open spec fn balanced(session: process::SessionView) -> bool {
    accounts(
        dealt_with(session.plan, session.phase),
        session.record.entries,
        session.record.failures,
    )
}

/// One more thing is extracted.
proof fn lemma_account_for_success(
    items: Seq<WantedView>,
    entries: Seq<Seq<char>>,
    failures: Seq<status::FailureView>,
    item: WantedView,
)
    requires
        accounts(items, entries, failures),
    ensures
        accounts(items.push(item), entries.push(item.destination), failures),
{
    assert(items.push(item).drop_last() =~= items);
    assert(entries.push(item.destination).drop_last() =~= entries);
}

/// More things fail.
proof fn lemma_account_for_failures(
    items: Seq<WantedView>,
    entries: Seq<Seq<char>>,
    failures: Seq<status::FailureView>,
    more: Seq<WantedView>,
    failed: Seq<status::FailureView>,
)
    requires
        accounts(items, entries, failures),
        more.len() == failed.len(),
        forall|i: int| 0 <= i < more.len() ==> concerns(#[trigger] failed[i], more[i]),
    ensures
        accounts(items + more, entries, failures + failed),
    decreases more.len(),
{
    if more.len() == 0 {
        assert(items + more =~= items);
        assert(failures + failed =~= failures);
    } else {
        lemma_account_for_failures(
            items,
            entries,
            failures,
            more.drop_last(),
            failed.drop_last(),
        );
        assert((items + more).drop_last() =~= items + more.drop_last());
        assert((failures + failed).drop_last() =~= failures + failed.drop_last());
        assert(concerns(failed[failed.len() - 1], more[more.len() - 1]));
    }
}

/// Entries without a destination ask for nothing.
proof fn lemma_skipped_entries(plan: process::PlanView, from: int)
    requires
        0 <= from <= plan.config.extract.len(),
    ensures
        dealt_with(plan, process::entry_phase(plan, from)) == wanted_before(plan, from),
    decreases plan.config.extract.len() - from,
{
    if from < plan.config.extract.len() && process::destination_of(plan, from) is None {
        lemma_skipped_entries(plan, from + 1);
        assert(wanted_before(plan, from + 1) =~= wanted_before(plan, from));
    }
}

/// Taking up the items of an entry from an index on.
proof fn lemma_items_dealt_with(
    plan: process::PlanView,
    entry: int,
    item: int,
    mounted: mount::MountedView,
)
    requires
        process::open_entry(plan, entry),
        !process::entry_at(plan, entry).raw,
        0 <= item <= process::item_count(process::entry_at(plan, entry)),
    ensures
        dealt_with(plan, process::item_phase(plan, entry, item, mounted)) == wanted_before(
            plan,
            entry,
        ) + wanted_of(plan, entry).take(item),
{
    lemma_skipped_entries(plan, entry + 1);
    if item == process::item_count(process::entry_at(plan, entry)) {
        assert(wanted_of(plan, entry).take(item) =~= wanted_of(plan, entry));
    }
}

/// The failures of an entry as a whole are those of its items.
proof fn lemma_entry_failures_concern_items(
    plan: process::PlanView,
    entry: int,
    error: Seq<char>,
)
    requires
        process::open_entry(plan, entry),
        !process::entry_at(plan, entry).raw,
    ensures
        ({
            let failed = status::entry_failures(
                process::entry_at(plan, entry),
                process::dest_dir(plan, entry),
                error,
            );
            &&& failed.len() == wanted_of(plan, entry).len()
            &&& forall|i: int|
                0 <= i < failed.len() ==> concerns(#[trigger] failed[i], wanted_of(plan, entry)[i])
        }),
{
}

/// A run that fails on an entry as a whole stays balanced.
proof fn lemma_entry_failure_is_balanced(
    session: process::SessionView,
    entry: int,
    error: Seq<char>,
)
    requires
        balanced(session),
        process::open_entry(session.plan, entry),
        !process::entry_at(session.plan, entry).raw,
        dealt_with(session.plan, session.phase) == wanted_before(session.plan, entry),
    ensures
        balanced(process::entry_failed(session, entry, error)),
{
    lemma_skipped_entries(session.plan, entry + 1);
    lemma_entry_failures_concern_items(session.plan, entry, error);
    lemma_account_for_failures(
        wanted_before(session.plan, entry),
        session.record.entries,
        session.record.failures,
        wanted_of(session.plan, entry),
        status::entry_failures(
            process::entry_at(session.plan, entry),
            process::dest_dir(session.plan, entry),
            error,
        ),
    );
}

/// A run that fails on a raw entry stays balanced.
proof fn lemma_raw_failure_is_balanced(
    session: process::SessionView,
    entry: int,
    source: Seq<char>,
    error: Seq<char>,
)
    requires
        balanced(session),
        process::open_entry(session.plan, entry),
        process::entry_at(session.plan, entry).raw,
        dealt_with(session.plan, session.phase) == wanted_before(session.plan, entry),
    ensures
        balanced(process::raw_failed(session, entry, source, error)),
{
    lemma_skipped_entries(session.plan, entry + 1);
    lemma_account_for_failures(
        wanted_before(session.plan, entry),
        session.record.entries,
        session.record.failures,
        wanted_of(session.plan, entry),
        seq![
            status::FailureView {
                partition: process::entry_at(session.plan, entry).partition,
                source,
                destination: process::dest_dir(session.plan, entry),
                required: false,
                error,
            },
        ],
    );
}

/// A run that fails on an item stays balanced.
proof fn lemma_item_failure_is_balanced(
    session: process::SessionView,
    entry: int,
    item: int,
    mounted: mount::MountedView,
    error: Seq<char>,
)
    requires
        balanced(session),
        process::open_entry(session.plan, entry),
        !process::entry_at(session.plan, entry).raw,
        0 <= item < process::item_count(process::entry_at(session.plan, entry)),
        dealt_with(session.plan, session.phase) == wanted_before(session.plan, entry) + wanted_of(
            session.plan,
            entry,
        ).take(item),
    ensures
        balanced(process::item_failed(session, entry, item, mounted, error)),
{
    let plan = session.plan;
    let all = wanted_of(plan, entry);
    let before = wanted_before(plan, entry) + all.take(item);
    lemma_items_dealt_with(plan, entry, item + 1, mounted);
    lemma_account_for_failures(
        before,
        session.record.entries,
        session.record.failures,
        seq![all[item]],
        seq![
            status::item_failure(
                process::entry_at(plan, entry).partition,
                process::source_base(process::entry_at(plan, entry), mounted),
                process::dest_dir(plan, entry),
                process::item_at(process::entry_at(plan, entry), item),
                process::kind_at(process::entry_at(plan, entry), item),
                error,
            ),
        ],
    );
    assert(before + seq![all[item]] =~= wanted_before(plan, entry) + all.take(item + 1));
}

/// Whatever comes of the tasks, a run accounts for what it has dealt with.
#[verifier::rlimit(50)]
pub proof fn lemma_runs_stay_balanced(session: process::SessionView, outcome: process::OutcomeView)
    requires
        process::valid(session),
        balanced(session),
    ensures
        process::next(session, outcome) matches Some(after) ==> balanced(after),
{
    let plan = session.plan;
    match session.phase {
        process::PhaseView::AwaitMappings { .. } => {
            lemma_skipped_entries(plan, 0);
        },
        process::PhaseView::Pausing { .. } => {
            lemma_skipped_entries(plan, 0);
        },
        process::PhaseView::FindRaw { entry } => {
            if let process::OutcomeView::Existing { paths } = outcome {
                let part = process::entry_at(plan, entry).partition;
                if let Err(error) = partition::selected_path(
                    part,
                    plan.active_slot,
                    process::raw_roots(),
                    paths,
                ) {
                    lemma_raw_failure_is_balanced(
                        session,
                        entry,
                        part,
                        "unable to find partition: "@ + error.message,
                    );
                }
            }
        },
        process::PhaseView::DumpRaw { entry, origin } => {
            lemma_skipped_entries(plan, entry + 1);
            let dump = wanted_of(plan, entry)[0];
            lemma_account_for_success(
                wanted_before(plan, entry),
                session.record.entries,
                session.record.failures,
                dump,
            );
            assert(wanted_before(plan, entry + 1) =~= wanted_before(plan, entry).push(dump));
            if let process::OutcomeView::Failed { error } = outcome {
                lemma_raw_failure_is_balanced(
                    session,
                    entry,
                    origin,
                    "unable to dump partition: "@ + error.message,
                );
            }
        },
        process::PhaseView::MakeDirectory { entry } => {
            if let process::OutcomeView::Failed { error } = outcome {
                lemma_entry_failure_is_balanced(
                    session,
                    entry,
                    "unable to create destination directory: "@ + error.message,
                );
            }
        },
        process::PhaseView::FindPartition { entry } => {
            if let process::OutcomeView::Existing { paths } = outcome {
                if let Err(error) = partition::selected_path(
                    process::entry_at(plan, entry).partition,
                    plan.active_slot,
                    process::mount_roots(),
                    paths,
                ) {
                    lemma_entry_failure_is_balanced(session, entry, process::unmountable(error));
                }
            }
        },
        process::PhaseView::Mount { entry, .. } => {
            if let process::OutcomeView::Mounted { partition } = outcome {
                lemma_items_dealt_with(plan, entry, 0, partition);
                assert(wanted_before(plan, entry) + wanted_of(plan, entry).take(0)
                    =~= wanted_before(plan, entry));
            }
            if let process::OutcomeView::Failed { error } = outcome {
                lemma_entry_failure_is_balanced(session, entry, process::unmountable(error));
            }
        },
        process::PhaseView::Inspect { entry, item, mounted } => {
            lemma_item_failure_is_balanced(
                session,
                entry,
                item,
                mounted,
                "source is not a directory"@,
            );
            lemma_item_failure_is_balanced(session, entry, item, mounted, "source is not a file"@);
            if let process::OutcomeView::Failed { error } = outcome {
                lemma_item_failure_is_balanced(
                    session,
                    entry,
                    item,
                    mounted,
                    "source does not exist: "@ + error.message,
                );
            }
        },
        process::PhaseView::Copy { entry, item, mounted } => {
            let all = wanted_of(plan, entry);
            let before = wanted_before(plan, entry) + all.take(item);
            lemma_items_dealt_with(plan, entry, item + 1, mounted);
            lemma_account_for_success(
                before,
                session.record.entries,
                session.record.failures,
                all[item],
            );
            assert(before.push(all[item]) =~= wanted_before(plan, entry) + all.take(item + 1));
            if let process::OutcomeView::Failed { error } = outcome {
                lemma_item_failure_is_balanced(
                    session,
                    entry,
                    item,
                    mounted,
                    process::uncopied(error),
                );
            }
        },
        process::PhaseView::Discard { entry, item, mounted, error } => {
            lemma_item_failure_is_balanced(
                session,
                entry,
                item,
                mounted,
                process::uncopied(error),
            );
        },
        process::PhaseView::Release { entry, .. } => {
            lemma_skipped_entries(plan, entry + 1);
        },
        _ => {},
    }
}

/// A run from its start is valid and balanced at all times.
pub proof fn lemma_every_run(plan: process::PlanView, outcomes: Seq<process::OutcomeView>)
    requires
        process::sound(plan),
    ensures
        process::valid(run(process::started(plan), outcomes)),
        balanced(run(process::started(plan), outcomes)),
        run(process::started(plan), outcomes).plan == plan,
    decreases outcomes.len(),
{
    if outcomes.len() == 0 {
        process::lemma_started_is_valid(plan);
        lemma_skipped_entries(plan, 0);
    } else {
        let before = run(process::started(plan), outcomes.drop_last());
        lemma_every_run(plan, outcomes.drop_last());
        process::lemma_runs_stay_valid(before, outcomes.last());
        lemma_runs_stay_balanced(before, outcomes.last());
    }
}

/// What the account says of single things.
proof fn lemma_account(
    items: Seq<WantedView>,
    entries: Seq<Seq<char>>,
    failures: Seq<status::FailureView>,
)
    requires
        accounts(items, entries, failures),
    ensures
        items.len() == entries.len() + failures.len(),
        forall|i: int|
            0 <= i < items.len() ==> entries.contains((#[trigger] items[i]).destination)
                || exists|j: int| 0 <= j < failures.len() && concerns(#[trigger] failures[j], items[i]),
        forall|j: int|
            0 <= j < failures.len() ==> exists|i: int|
                0 <= i < items.len() && concerns(#[trigger] failures[j], #[trigger] items[i]),
        forall|j: int|
            0 <= j < entries.len() ==> exists|i: int|
                0 <= i < items.len() && #[trigger] entries[j] == (#[trigger] items[i]).destination,
    decreases items.len(),
{
    if items.len() > 0 {
        let front = items.drop_last();
        if entries.len() > 0 && entries.last() == items.last().destination && accounts(
            front,
            entries.drop_last(),
            failures,
        ) {
            let fewer = entries.drop_last();
            lemma_account(front, fewer, failures);
            assert forall|i: int| 0 <= i < items.len() implies entries.contains(
                (#[trigger] items[i]).destination,
            ) || exists|j: int|
                0 <= j < failures.len() && concerns(#[trigger] failures[j], items[i]) by {
                if i == items.len() - 1 {
                    assert(entries[entries.len() - 1] == items[i].destination);
                } else {
                    assert(front[i] == items[i]);
                    if fewer.contains(front[i].destination) {
                        let k = choose|k: int|
                            0 <= k < fewer.len() && fewer[k] == front[i].destination;
                        assert(entries[k] == items[i].destination);
                    }
                }
            }
            assert forall|j: int| 0 <= j < failures.len() implies exists|i: int|
                0 <= i < items.len() && concerns(#[trigger] failures[j], #[trigger] items[i]) by {
                let i = choose|i: int|
                    0 <= i < front.len() && concerns(failures[j], #[trigger] front[i]);
                assert(items[i] == front[i]);
            }
            assert forall|j: int| 0 <= j < entries.len() implies exists|i: int|
                0 <= i < items.len() && #[trigger] entries[j] == (
                #[trigger] items[i]).destination by {
                if j == entries.len() - 1 {
                    assert(entries[j] == items[items.len() - 1].destination);
                } else {
                    assert(fewer[j] == entries[j]);
                    let i = choose|i: int|
                        0 <= i < front.len() && fewer[j] == (#[trigger] front[i]).destination;
                    assert(items[i] == front[i]);
                }
            }
        } else {
            let fewer = failures.drop_last();
            lemma_account(front, entries, fewer);
            assert forall|i: int| 0 <= i < items.len() implies entries.contains(
                (#[trigger] items[i]).destination,
            ) || exists|j: int|
                0 <= j < failures.len() && concerns(#[trigger] failures[j], items[i]) by {
                if i == items.len() - 1 {
                    assert(concerns(failures[failures.len() - 1], items[i]));
                } else {
                    assert(front[i] == items[i]);
                    if !entries.contains(front[i].destination) {
                        let k = choose|k: int|
                            0 <= k < fewer.len() && concerns(#[trigger] fewer[k], front[i]);
                        assert(concerns(failures[k], items[i]));
                    }
                }
            }
            assert forall|j: int| 0 <= j < failures.len() implies exists|i: int|
                0 <= i < items.len() && concerns(#[trigger] failures[j], #[trigger] items[i]) by {
                if j == failures.len() - 1 {
                    assert(concerns(failures[j], items[items.len() - 1]));
                } else {
                    assert(fewer[j] == failures[j]);
                    let i = choose|i: int|
                        0 <= i < front.len() && concerns(fewer[j], #[trigger] front[i]);
                    assert(items[i] == front[i]);
                }
            }
            assert forall|j: int| 0 <= j < entries.len() implies exists|i: int|
                0 <= i < items.len() && #[trigger] entries[j] == (
                #[trigger] items[i]).destination by {
                let i = choose|i: int|
                    0 <= i < front.len() && entries[j] == (#[trigger] front[i]).destination;
                assert(items[i] == front[i]);
            }
        }
    }
}

/// The status of a run that has ended accounts for everything that the
/// configuration asks for: each thing was extracted or is recorded as a
/// failure with its partition, its destination and whether it is required;
/// nothing else is recorded; and the counts agree.
pub proof fn lemma_finished_run_accounts_for_everything(
    plan: process::PlanView,
    outcomes: Seq<process::OutcomeView>,
    ended: status::StatusView,
)
    requires
        process::sound(plan),
        process::result_of(run(process::started(plan), outcomes)) == Some(
            Ok::<status::StatusView, error::ErrorView>(ended),
        ),
    ensures
        accounts(wanted(plan), ended.entries, ended.failures),
        wanted(plan).len() == ended.entries.len() + ended.failures.len(),
        forall|i: int|
            0 <= i < wanted(plan).len() ==> ended.entries.contains(
                (#[trigger] wanted(plan)[i]).destination,
            ) || exists|j: int|
                0 <= j < ended.failures.len() && concerns(
                    #[trigger] ended.failures[j],
                    wanted(plan)[i],
                ),
        forall|j: int|
            0 <= j < ended.failures.len() ==> exists|i: int|
                0 <= i < wanted(plan).len() && concerns(
                    #[trigger] ended.failures[j],
                    #[trigger] wanted(plan)[i],
                ),
        forall|j: int|
            0 <= j < ended.entries.len() ==> exists|i: int|
                0 <= i < wanted(plan).len() && #[trigger] ended.entries[j] == (
                #[trigger] wanted(plan)[i]).destination,
{
    lemma_every_run(plan, outcomes);
    lemma_account(wanted(plan), ended.entries, ended.failures);
}

/// A run that ends without a required failure has extracted everything that is
/// required.
pub proof fn lemma_required_items_are_extracted(
    plan: process::PlanView,
    outcomes: Seq<process::OutcomeView>,
    ended: status::StatusView,
    item: int,
)
    requires
        process::sound(plan),
        process::result_of(run(process::started(plan), outcomes)) == Some(
            Ok::<status::StatusView, error::ErrorView>(ended),
        ),
        !status::lacks_required(ended.failures),
        0 <= item < wanted(plan).len(),
        wanted(plan)[item].required,
    ensures
        ended.entries.contains(wanted(plan)[item].destination),
{
    lemma_finished_run_accounts_for_everything(plan, outcomes, ended);
    if !ended.entries.contains(wanted(plan)[item].destination) {
        let j = choose|j: int|
            0 <= j < ended.failures.len() && concerns(
                #[trigger] ended.failures[j],
                wanted(plan)[item],
            );
        assert(ended.failures[j].required);
    }
}

/// With a known active slot no run ever maps, mounts or dumps a device file of
/// the opposite slot, and it maps at most one container.
pub proof fn lemma_runs_never_use_the_opposite_slot(
    plan: process::PlanView,
    outcomes: Seq<process::OutcomeView>,
    active: Slot,
    root: int,
)
    requires
        process::sound(plan),
        plan.active_slot == Some(active),
        0 <= root < process::mount_roots().len(),
    ensures
        run(process::started(plan), outcomes).phase matches process::PhaseView::Mount {
            entry,
            source,
        } ==> source != path::join(
            process::mount_roots()[root],
            process::entry_at(plan, entry).partition + slot::slot_suffix(
                partition::opposite(active),
            ),
        ),
        run(process::started(plan), outcomes).phase matches process::PhaseView::DumpRaw {
            entry,
            origin,
        } ==> origin != path::join(
            process::partlabel_dir(),
            process::entry_at(plan, entry).partition + slot::slot_suffix(
                partition::opposite(active),
            ),
        ),
        run(process::started(plan), outcomes).phase matches process::PhaseView::MapContainers {
            paths,
            ..
        } ==> paths.len() == 1 && paths[0] != path::join(
            process::partlabel_dir(),
            process::container(plan) + slot::slot_suffix(partition::opposite(active)),
        ),
{
    lemma_every_run(plan, outcomes);
    match run(process::started(plan), outcomes).phase {
        process::PhaseView::MapContainers { paths, .. } => {
            partition::lemma_opposite_slot_is_never_looked_up(
                process::container(plan),
                active,
                process::raw_roots(),
                paths[0],
            );
            assert(process::raw_roots()[0] == process::partlabel_dir());
        },
        process::PhaseView::Mount { entry, source } => {
            partition::lemma_opposite_slot_is_never_looked_up(
                process::entry_at(plan, entry).partition,
                active,
                process::mount_roots(),
                source,
            );
        },
        process::PhaseView::DumpRaw { entry, origin } => {
            partition::lemma_opposite_slot_is_never_looked_up(
                process::entry_at(plan, entry).partition,
                active,
                process::raw_roots(),
                origin,
            );
            assert(process::raw_roots()[0] == process::partlabel_dir());
        },
        _ => {},
    }
}

/// A run that has not ended has a task, and some outcome answers it.
#[verifier::rlimit(50)]
pub proof fn lemma_runs_never_stall(session: process::SessionView)
    requires
        process::result_of(session) is None,
    ensures
        process::task_of(session) !is Nothing,
        exists|outcome: process::OutcomeView| process::next(session, outcome) is Some,
{
    let existing = process::OutcomeView::Existing { paths: Seq::empty() };
    let counted = process::OutcomeView::Counted { entries: None };
    let found = process::OutcomeView::Found { directory: true };
    assert(process::next(session, existing) is Some || process::next(session, counted) is Some
        || process::next(session, found) is Some || process::next(
        session,
        process::OutcomeView::Done,
    ) is Some || process::next(
        session,
        process::OutcomeView::Failed {
            error: error::ErrorView { kind: ErrorKind::Other, message: Seq::empty() },
        },
    ) is Some);
}

/// Whether a run still deals with the containers of dynamic partitions.
pub open spec fn maps_containers(phase: process::PhaseView) -> bool {
    phase is FindContainers || phase is MapContainers || phase is Aborted
}

/// Whether a mapped container heads the record of a run, unless the run still
/// deals with the containers.
pub open spec fn headed(session: process::SessionView) -> bool {
    if maps_containers(session.phase) {
        session.record.partitions.len() == 0
    } else {
        session.record.partitions.len() > 0 && session.record.partitions[0].partition == "dynpart:"@
            + process::container(session.plan)
    }
}

/// Where a configuration names a container, a container is mapped before any
/// entry is taken up, and heads the record.
pub proof fn lemma_containers_are_mapped_first(
    plan: process::PlanView,
    outcomes: Seq<process::OutcomeView>,
)
    requires
        plan.config.dynpart is Some,
    ensures
        headed(run(process::started(plan), outcomes)),
        run(process::started(plan), outcomes).plan == plan,
    decreases outcomes.len(),
{
    if outcomes.len() > 0 {
        let before = run(process::started(plan), outcomes.drop_last());
        lemma_containers_are_mapped_first(plan, outcomes.drop_last());
        lemma_headed(before, outcomes.last());
    }
}

/// One more outcome keeps the record headed.
#[verifier::rlimit(50)]
proof fn lemma_headed(session: process::SessionView, outcome: process::OutcomeView)
    requires
        headed(session),
    ensures
        process::next(session, outcome) matches Some(after) ==> headed(after) && after.plan
            == session.plan,
{
    lemma_records_only_grow(session, outcome);
    match session.phase {
        process::PhaseView::FindContainers => {
            if let process::OutcomeView::Existing { paths } = outcome {
                if let Ok(found) = partition::container_paths(
                    process::container(session.plan),
                    session.plan.active_slot,
                    process::partlabel_dir(),
                    paths,
                ) {
                    lemma_attempts_headed(session, found, Seq::empty());
                }
            }
        },
        process::PhaseView::MapContainers { paths, attempts } => {
            let path = paths[attempts.len() as int];
            lemma_attempts_headed(session, paths, attempts.push((path, None)));
            if let process::OutcomeView::Failed { error } = outcome {
                lemma_attempts_headed(session, paths, attempts.push((path, Some(error))));
            }
        },
        process::PhaseView::AwaitMappings { .. } => {},
        process::PhaseView::Pausing { .. } => {},
        process::PhaseView::FindRaw { .. } => {},
        process::PhaseView::DumpRaw { .. } => {},
        process::PhaseView::MakeDirectory { .. } => {},
        process::PhaseView::FindPartition { .. } => {},
        process::PhaseView::Mount { .. } => {},
        process::PhaseView::Inspect { .. } => {},
        process::PhaseView::Copy { .. } => {},
        process::PhaseView::Discard { .. } => {},
        process::PhaseView::Release { .. } => {},
        process::PhaseView::Finished => {},
        process::PhaseView::Aborted { .. } => {},
    }
}

/// Once all containers were tried, a mapped one heads the record.
proof fn lemma_attempts_headed(
    session: process::SessionView,
    paths: Seq<Seq<char>>,
    attempts: Seq<(Seq<char>, Option<error::ErrorView>)>,
)
    requires
        session.record.partitions.len() == 0,
    ensures
        headed(process::after_attempts(session, paths, attempts)),
        process::after_attempts(session, paths, attempts).plan == session.plan,
{
}

/// A path is recorded as extracted exactly when the task that writes it is
/// done.
#[verifier::rlimit(50)]
pub proof fn lemma_entries_are_tasks_done(
    session: process::SessionView,
    outcome: process::OutcomeView,
)
    requires
        process::next(session, outcome) is Some,
    ensures
        process::next(session, outcome)->0.record.entries == (match (
            process::task_of(session),
            outcome,
        ) {
            (
                process::TaskView::CopyFile { destination, .. },
                process::OutcomeView::Done,
            ) => session.record.entries.push(destination),
            (
                process::TaskView::CopyDirectory { destination, .. },
                process::OutcomeView::Done,
            ) => session.record.entries.push(destination),
            (
                process::TaskView::DumpRaw { destination, .. },
                process::OutcomeView::Done,
            ) => session.record.entries.push(destination),
            _ => session.record.entries,
        }),
{
    match session.phase {
        process::PhaseView::FindContainers => {},
        process::PhaseView::MapContainers { .. } => {},
        process::PhaseView::AwaitMappings { .. } => {},
        process::PhaseView::Pausing { .. } => {},
        process::PhaseView::FindRaw { .. } => {},
        process::PhaseView::DumpRaw { .. } => {},
        process::PhaseView::MakeDirectory { .. } => {},
        process::PhaseView::FindPartition { .. } => {},
        process::PhaseView::Mount { .. } => {},
        process::PhaseView::Inspect { .. } => {},
        process::PhaseView::Copy { .. } => {},
        process::PhaseView::Discard { .. } => {},
        process::PhaseView::Release { .. } => {},
        process::PhaseView::Finished => {},
        process::PhaseView::Aborted { .. } => {},
    }
}

/// The place where a run has mounted a partition that it is to unmount.
pub open spec fn held(phase: process::PhaseView) -> Option<Seq<char>> {
    let mounted = match phase {
        process::PhaseView::Inspect { mounted, .. } => Some(mounted),
        process::PhaseView::Copy { mounted, .. } => Some(mounted),
        process::PhaseView::Discard { mounted, .. } => Some(mounted),
        process::PhaseView::Release { mounted, .. } => Some(mounted),
        _ => None,
    };
    match mounted {
        Some(partition) => if partition.temporary {
            Some(partition.path)
        } else {
            None
        },
        None => None,
    }
}

/// A partition that a run has mounted stays mounted until the run unmounts it,
/// and is unmounted before the run goes on to another entry or ends. A
/// partition that was mounted before is never unmounted.
#[verifier::rlimit(50)]
pub proof fn lemma_own_mounts_are_released(
    session: process::SessionView,
    outcome: process::OutcomeView,
)
    requires
        process::valid(session),
        process::next(session, outcome) is Some,
    ensures
        held(session.phase) matches Some(path) ==> held(
            process::next(session, outcome)->0.phase,
        ) == Some(path) || process::task_of(session) == (process::TaskView::Release { path }),
        process::task_of(session) is Release ==> held(session.phase) is Some && held(
            process::next(session, outcome)->0.phase,
        ) is None,
        process::result_of(process::next(session, outcome)->0) is Some ==> held(
            process::next(session, outcome)->0.phase,
        ) is None,
        outcome matches process::OutcomeView::Mounted { partition } ==> held(
            process::next(session, outcome)->0.phase,
        ) == (if partition.temporary {
            Some(partition.path)
        } else {
            None
        }),
{
    match session.phase {
        process::PhaseView::FindContainers => {},
        process::PhaseView::MapContainers { .. } => {},
        process::PhaseView::AwaitMappings { .. } => {},
        process::PhaseView::Pausing { .. } => {},
        process::PhaseView::FindRaw { .. } => {},
        process::PhaseView::DumpRaw { .. } => {},
        process::PhaseView::MakeDirectory { .. } => {},
        process::PhaseView::FindPartition { .. } => {},
        process::PhaseView::Mount { .. } => {},
        process::PhaseView::Inspect { .. } => {},
        process::PhaseView::Copy { .. } => {},
        process::PhaseView::Discard { .. } => {},
        process::PhaseView::Release { .. } => {},
        process::PhaseView::Finished => {},
        process::PhaseView::Aborted { .. } => {},
    }
}

/// What a failed squashing has left is removed before the run goes on, and the
/// failure is recorded as that of any other item that was not copied.
pub proof fn lemma_failed_squashing_is_discarded(
    session: process::SessionView,
    source: Seq<char>,
    destination: Seq<char>,
    error: error::ErrorView,
)
    requires
        process::task_of(session) == (process::TaskView::CopyFile {
            source,
            destination,
            squash: true,
        }),
    ensures
        process::next(session, process::OutcomeView::Failed { error }) matches Some(after) && {
            &&& process::task_of(after) == (process::TaskView::RemoveFile { path: destination })
            &&& after.record == session.record
            &&& process::next(after, process::OutcomeView::Done) matches Some(last)
                && last.record.entries == session.record.entries
                && last.record.failures.drop_last() == session.record.failures
                && last.record.failures.last().destination == destination
                && last.record.failures.last().source == source
                && last.record.failures.last().error == process::uncopied(error)
        },
{
    let after = process::next(session, process::OutcomeView::Failed { error })->0;
    let last = process::next(after, process::OutcomeView::Done)->0;
    assert(last.record.failures.drop_last() =~= session.record.failures);
}

/// Recording the containers that were mapped records none twice.
proof fn lemma_attempts_distinct(
    session: process::SessionView,
    paths: Seq<Seq<char>>,
    attempts: Seq<(Seq<char>, Option<error::ErrorView>)>,
)
    requires
        session.record.partitions.len() == 0,
        paths.no_duplicates(),
        process::in_turn(paths, attempts),
    ensures
        process::after_attempts(session, paths, attempts).record.partitions.no_duplicates(),
{
    let all = process::tried(paths, attempts);
    process::lemma_tried(paths, attempts);
    assert forall|i: int, j: int| 0 <= i < j < all.len() implies (#[trigger] all[i]).0 != (
    #[trigger] all[j]).0 by {
        assert(all[i].0 == paths[i] && all[j].0 == paths[j]);
    }
    partition::lemma_mapped_paths_are_distinct(all);
    let mapped = partition::mapped_paths(all);
    let sources = process::container_sources(process::container(session.plan), mapped);
    assert forall|i: int, j: int| 0 <= i < sources.len() && 0 <= j < sources.len() && i
        != j implies sources[i] != sources[j] by {
        assert(sources[i].source == mapped[i] && sources[j].source == mapped[j]);
    }
    assert(session.record.partitions + sources =~= sources);
}

/// One more outcome records no source twice.
#[verifier::rlimit(50)]
proof fn lemma_distinct_step(session: process::SessionView, outcome: process::OutcomeView)
    requires
        process::valid(session),
        session.record.partitions.no_duplicates(),
        maps_containers(session.phase) ==> session.record.partitions.len() == 0,
    ensures
        process::next(session, outcome) matches Some(after)
            ==> after.record.partitions.no_duplicates(),
{
    let plan = session.plan;
    match session.phase {
        process::PhaseView::FindContainers => {
            if let process::OutcomeView::Existing { paths } = outcome {
                partition::lemma_containers_are_distinct(
                    process::container(plan),
                    plan.active_slot,
                    process::partlabel_dir(),
                    paths,
                );
                if let Ok(found) = partition::container_paths(
                    process::container(plan),
                    plan.active_slot,
                    process::partlabel_dir(),
                    paths,
                ) {
                    lemma_attempts_distinct(session, found, Seq::empty());
                }
            }
        },
        process::PhaseView::MapContainers { paths, attempts } => {
            let path = paths[attempts.len() as int];
            lemma_attempts_distinct(session, paths, attempts.push((path, None)));
            if let process::OutcomeView::Failed { error } = outcome {
                lemma_attempts_distinct(session, paths, attempts.push((path, Some(error))));
            }
        },
        process::PhaseView::FindRaw { entry } => {
            if let process::OutcomeView::Existing { paths } = outcome {
                let part = process::entry_at(plan, entry).partition;
                if let Ok(origin) = partition::selected_path(
                    part,
                    plan.active_slot,
                    process::raw_roots(),
                    paths,
                ) {
                    status::lemma_sources_stay_distinct(
                        session.record.partitions,
                        status::SourceView { partition: part, source: origin },
                    );
                }
            }
        },
        process::PhaseView::Mount { entry, source } => {
            status::lemma_sources_stay_distinct(
                session.record.partitions,
                status::SourceView {
                    partition: process::entry_at(plan, entry).partition,
                    source,
                },
            );
        },
        process::PhaseView::AwaitMappings { .. } => {},
        process::PhaseView::Pausing { .. } => {},
        process::PhaseView::DumpRaw { .. } => {},
        process::PhaseView::MakeDirectory { .. } => {},
        process::PhaseView::FindPartition { .. } => {},
        process::PhaseView::Inspect { .. } => {},
        process::PhaseView::Copy { .. } => {},
        process::PhaseView::Discard { .. } => {},
        process::PhaseView::Release { .. } => {},
        process::PhaseView::Finished => {},
        process::PhaseView::Aborted { .. } => {},
    }
}

/// No run records a source twice, mapped containers included.
pub proof fn lemma_recorded_sources_are_distinct(
    plan: process::PlanView,
    outcomes: Seq<process::OutcomeView>,
)
    requires
        process::sound(plan),
    ensures
        run(process::started(plan), outcomes).record.partitions.no_duplicates(),
    decreases outcomes.len(),
{
    if outcomes.len() > 0 {
        let front = outcomes.drop_last();
        let before = run(process::started(plan), front);
        lemma_recorded_sources_are_distinct(plan, front);
        lemma_every_run(plan, front);
        if plan.config.dynpart is Some {
            lemma_containers_are_mapped_first(plan, front);
        }
        if !(before.phase is Aborted) {
            lemma_distinct_step(before, outcomes.last());
        }
    }
}

} // verus!
