//! What a run extracted, from where, and what it could not extract.

use vstd::prelude::*;
use vstd::string::*;

use crate::config;
use crate::config::{item_destination, Entry, Item, ItemKind};
use crate::error;
use crate::error::{Error, ErrorKind};
use crate::partition;
use crate::path;
use crate::path::join_path;
use crate::text::same_text;

verus! {

/// Where the status of the last run is kept.
pub const STATUS_FILE_PATH: &'static str = "/var/lib/blob-wrangler/status.json";

/// The device that a partition was read from.
#[derive(Debug, PartialEq, Eq)]
pub struct PartitionStatus {
    pub partition: String,
    pub source: String,
}

/// A partition status as a mathematical value.
pub struct SourceView {
    pub partition: Seq<char>,
    pub source: Seq<char>,
}

impl DeepView for PartitionStatus {
    type V = SourceView;

    open spec fn deep_view(&self) -> SourceView {
        SourceView { partition: self.partition@, source: self.source@ }
    }
}

impl Clone for PartitionStatus {
    fn clone(&self) -> (copy: PartitionStatus)
        ensures
            copy == *self,
    {
        PartitionStatus { partition: self.partition.clone(), source: self.source.clone() }
    }
}

/// An item that was not extracted, and why.
#[derive(Debug, PartialEq, Eq)]
pub struct FileFailure {
    pub partition: String,
    pub source: String,
    pub destination: String,
    pub required: bool,
    pub error: String,
}

/// A failure as a mathematical value.
pub struct FailureView {
    pub partition: Seq<char>,
    pub source: Seq<char>,
    pub destination: Seq<char>,
    pub required: bool,
    pub error: Seq<char>,
}

impl DeepView for FileFailure {
    type V = FailureView;

    open spec fn deep_view(&self) -> FailureView {
        FailureView {
            partition: self.partition@,
            source: self.source@,
            destination: self.destination@,
            required: self.required,
            error: self.error@,
        }
    }
}

impl Clone for FileFailure {
    fn clone(&self) -> (copy: FileFailure)
        ensures
            copy == *self,
    {
        FileFailure {
            partition: self.partition.clone(),
            source: self.source.clone(),
            destination: self.destination.clone(),
            required: self.required,
            error: self.error.clone(),
        }
    }
}

/// The outcome of a run.
#[derive(Debug)]
pub struct Status {
    pub entries: Vec<String>,
    pub kernel_release: Option<String>,
    pub active_slot: Option<String>,
    pub partitions: Vec<PartitionStatus>,
    pub failures: Vec<FileFailure>,
}

/// The outcome of a run as a mathematical value.
pub struct StatusView {
    pub entries: Seq<Seq<char>>,
    pub kernel_release: Option<Seq<char>>,
    pub active_slot: Option<Seq<char>>,
    pub partitions: Seq<SourceView>,
    pub failures: Seq<FailureView>,
}

impl DeepView for Status {
    type V = StatusView;

    open spec fn deep_view(&self) -> StatusView {
        StatusView {
            entries: self.entries.deep_view(),
            kernel_release: self.kernel_release.deep_view(),
            active_slot: self.active_slot.deep_view(),
            partitions: self.partitions.deep_view(),
            failures: self.failures.deep_view(),
        }
    }
}

/// Whether something that was required is among the failures.
pub open spec fn lacks_required(failures: Seq<FailureView>) -> bool {
    exists|i: int| 0 <= i < failures.len() && (#[trigger] failures[i]).required
}

/// Sources with one more, unless it is among them already.
pub open spec fn with_source(sources: Seq<SourceView>, source: SourceView) -> Seq<SourceView> {
    if sources.contains(source) {
        sources
    } else {
        sources.push(source)
    }
}

/// The directory of an entry, named after the partition.
pub open spec fn entry_base(entry: config::EntryView) -> Seq<char> {
    path::join(entry.partition, from_directory(entry))
}

/// The directory that the items of an entry are relative to.
pub open spec fn from_directory(entry: config::EntryView) -> Seq<char> {
    match entry.from {
        Some(from) => from,
        None => ""@,
    }
}

/// The failure of one item, whose source lies below `base`.
pub open spec fn item_failure(
    partition: Seq<char>,
    base: Seq<char>,
    dest_dir: Seq<char>,
    item: config::ItemView,
    kind: ItemKind,
    error: Seq<char>,
) -> FailureView {
    FailureView {
        partition,
        source: path::join(base, item.from),
        destination: config::item_path(dest_dir, item, kind),
        required: item.required,
        error,
    }
}

/// The failures of all items of one kind.
pub open spec fn item_failures(
    partition: Seq<char>,
    base: Seq<char>,
    dest_dir: Seq<char>,
    items: Seq<config::ItemView>,
    kind: ItemKind,
    error: Seq<char>,
) -> Seq<FailureView> {
    items.map_values(
        |item: config::ItemView| item_failure(partition, base, dest_dir, item, kind, error),
    )
}

/// The failures of everything in an entry: its files, then its directories.
pub open spec fn entry_failures(
    entry: config::EntryView,
    dest_dir: Seq<char>,
    error: Seq<char>,
) -> Seq<FailureView> {
    item_failures(
        entry.partition,
        entry_base(entry),
        dest_dir,
        entry.files,
        ItemKind::File,
        error,
    ) + item_failures(
        entry.partition,
        entry_base(entry),
        dest_dir,
        entry.dirs,
        ItemKind::Dir,
        error,
    )
}

/// The paths that an earlier run extracted and this one did not.
pub open spec fn outdated(previous: Seq<Seq<char>>, current: Seq<Seq<char>>) -> Seq<Seq<char>> {
    previous.filter(|path: Seq<char>| !current.contains(path))
}

/// Texts with a separator between each and the next.
pub open spec fn listed(texts: Seq<Seq<char>>, separator: Seq<char>) -> Seq<char>
    decreases texts.len(),
{
    if texts.len() == 0 {
        Seq::empty()
    } else if texts.len() == 1 {
        texts.first()
    } else {
        listed(texts.drop_last(), separator) + separator + texts.last()
    }
}

/// The sources of the required items that failed.
pub open spec fn required_sources(failures: Seq<FailureView>) -> Seq<Seq<char>>
    decreases failures.len(),
{
    if failures.len() == 0 {
        Seq::empty()
    } else {
        let before = required_sources(failures.drop_last());
        if failures.last().required {
            before.push(failures.last().source)
        } else {
            before
        }
    }
}

/// What is said of a run that failed on something required.
pub open spec fn required_message(failures: Seq<FailureView>) -> Seq<char> {
    "Required firmware extraction failed for: "@ + listed(required_sources(failures), ", "@)
        + "; details written to "@ + STATUS_FILE_PATH@
}

impl Status {
    /// Whether the run failed on something required.
    pub fn has_required_failures(&self) -> (yes: bool)
        ensures
            yes == lacks_required(self.deep_view().failures),
    {
        let ghost failures = self.failures.deep_view();
        for i in 0..self.failures.len()
            invariant
                failures == self.failures.deep_view(),
                forall|j: int| 0 <= j < i ==> !(#[trigger] failures[j]).required,
        {
            assert(failures[i as int] == self.failures[i as int].deep_view());
            if self.failures[i].required {
                return true;
            }
        }
        false
    }
}

/// Records that one item was not extracted.
pub fn record_file_failure(
    failures: &mut Vec<FileFailure>,
    partition: &str,
    source: &str,
    destination: &str,
    required: bool,
    error: &str,
)
    ensures
        final(failures).deep_view() == old(failures).deep_view().push(
            (FailureView {
                partition: partition@,
                source: source@,
                destination: destination@,
                required,
                error: error@,
            }),
        ),
{
    let failure = FileFailure {
        partition: partition.to_string(),
        source: source.to_string(),
        destination: destination.to_string(),
        required,
        error: error.to_string(),
    };
    let ghost before = failures.deep_view();
    failures.push(failure);
    assert(failures.deep_view() =~= before.push(failure.deep_view()));
}

/// Records that no item of one list was extracted.
fn record_item_failures(
    failures: &mut Vec<FileFailure>,
    partition: &str,
    base: &str,
    dest_dir: &str,
    items: &Vec<Item>,
    kind: ItemKind,
    error: &str,
)
    ensures
        final(failures).deep_view() == old(failures).deep_view() + item_failures(
            partition@,
            base@,
            dest_dir@,
            items.deep_view(),
            kind,
            error@,
        ),
{
    let ghost before = failures.deep_view();
    let ghost all = item_failures(
        partition@,
        base@,
        dest_dir@,
        items.deep_view(),
        kind,
        error@,
    );
    assert(before + all.take(0) =~= before);
    for i in 0..items.len()
        invariant
            all == item_failures(
                partition@,
                base@,
                dest_dir@,
                items.deep_view(),
                kind,
                error@,
            ),
            all.len() == items.len(),
            failures.deep_view() == before + all.take(i as int),
    {
        let item = &items[i];
        let source = join_path(base, item.from());
        let destination = item_destination(dest_dir, item, kind);
        record_file_failure(
            failures,
            partition,
            source.as_str(),
            destination.as_str(),
            item.required(),
            error,
        );
        assert(items.deep_view()[i as int] == item.deep_view());
        assert(failures.deep_view() =~= before + all.take(i + 1));
    }
    assert(all.take(all.len() as int) =~= all);
}

/// Records that nothing of an entry was extracted.
pub fn record_entry_failures(
    failures: &mut Vec<FileFailure>,
    entry: &Entry,
    dest_dir: &str,
    error: &str,
)
    ensures
        final(failures).deep_view() == old(failures).deep_view() + entry_failures(
            entry.deep_view(),
            dest_dir@,
            error@,
        ),
{
    let from = entry.from_directory();
    let base = join_path(entry.partition.as_str(), from);
    let ghost before = failures.deep_view();
    record_item_failures(
        failures,
        entry.partition.as_str(),
        base.as_str(),
        dest_dir,
        &entry.files,
        ItemKind::File,
        error,
    );
    record_item_failures(
        failures,
        entry.partition.as_str(),
        base.as_str(),
        dest_dir,
        &entry.dirs,
        ItemKind::Dir,
        error,
    );
    assert(failures.deep_view() =~= before + entry_failures(
        entry.deep_view(),
        dest_dir@,
        error@,
    ));
}

impl Entry {
    /// The directory that the items are relative to; without one, the root of
    /// the partition.
    pub fn from_directory(&self) -> (from: &str)
        ensures
            from@ == from_directory(self.deep_view()),
    {
        match &self.from {
            Some(from) => from.as_str(),
            None => "",
        }
    }
}

/// Records the device that a partition was read from, once.
pub fn record_partition_source(
    partitions: &mut Vec<PartitionStatus>,
    partition: &str,
    source: &str,
)
    ensures
        final(partitions).deep_view() == with_source(
            old(partitions).deep_view(),
            (SourceView { partition: partition@, source: source@ }),
        ),
{
    let ghost before = partitions.deep_view();
    let ghost wanted = SourceView { partition: partition@, source: source@ };
    for i in 0..partitions.len()
        invariant
            before == partitions.deep_view(),
            before == old(partitions).deep_view(),
            wanted == (SourceView { partition: partition@, source: source@ }),
            forall|j: int| 0 <= j < i ==> #[trigger] before[j] != wanted,
    {
        assert(before[i as int] == partitions[i as int].deep_view());
        if same_text(partitions[i].partition.as_str(), partition) && same_text(
            partitions[i].source.as_str(),
            source,
        ) {
            assert(before.contains(wanted));
            return ;
        }
    }
    let status = PartitionStatus { partition: partition.to_string(), source: source.to_string() };
    partitions.push(status);
    assert(partitions.deep_view() =~= before.push(wanted));
}

/// Whether a path is in a list.
fn lists(paths: &Vec<String>, path: &str) -> (yes: bool)
    ensures
        yes == paths.deep_view().contains(path@),
{
    let ghost all = paths.deep_view();
    for i in 0..paths.len()
        invariant
            all == paths.deep_view(),
            forall|j: int| 0 <= j < i ==> #[trigger] all[j] != path@,
    {
        assert(all[i as int] == paths[i as int]@);
        if same_text(paths[i].as_str(), path) {
            return true;
        }
    }
    false
}

/// What an earlier run extracted and is to be removed after this one.
pub open spec fn stale_of(
    previous: Seq<Seq<char>>,
    current: Seq<Seq<char>>,
    failures: Seq<FailureView>,
) -> Seq<Seq<char>> {
    if lacks_required(failures) {
        Seq::empty()
    } else {
        outdated(previous, current)
    }
}

/// The error of a run that failed on something required.
pub open spec fn required_error(failures: Seq<FailureView>) -> Option<error::ErrorView> {
    if lacks_required(failures) {
        Some(partition::not_found(required_message(failures)))
    } else {
        None
    }
}

/// Lists what an earlier run extracted and this one did not. Nothing is
/// outdated as long as something required is missing.
pub fn stale_entries(previous: &Status, current: &Status) -> (stale: Vec<String>)
    ensures
        stale.deep_view() == stale_of(
            previous.deep_view().entries,
            current.deep_view().entries,
            current.deep_view().failures,
        ),
{
    let mut stale: Vec<String> = Vec::new();
    assert(stale.deep_view() =~= Seq::<Seq<char>>::empty());
    if current.has_required_failures() {
        return stale;
    }
    let ghost all = previous.entries.deep_view();
    let ghost keep = |path: Seq<char>| !current.entries.deep_view().contains(path);
    assert(all.take(0).filter(keep) =~= Seq::<Seq<char>>::empty()) by {
        reveal(Seq::filter);
    }
    for i in 0..previous.entries.len()
        invariant
            all == previous.entries.deep_view(),
            keep == (|path: Seq<char>| !current.entries.deep_view().contains(path)),
            stale.deep_view() == all.take(i as int).filter(keep),
    {
        let ghost before = stale.deep_view();
        assert(all[i as int] == previous.entries[i as int]@);
        assert(all.take(i + 1).drop_last() =~= all.take(i as int));
        assert(all.take(i + 1).filter(keep) == (if keep(all[i as int]) {
            all.take(i as int).filter(keep).push(all[i as int])
        } else {
            all.take(i as int).filter(keep)
        })) by {
            reveal(Seq::filter);
        }
        if !lists(&current.entries, previous.entries[i].as_str()) {
            stale.push(previous.entries[i].clone());
            assert(stale.deep_view() =~= before.push(all[i as int]));
        }
    }
    assert(all.take(all.len() as int) =~= all);
    stale
}

/// The error that a run ends with when something required failed; the details
/// are in the status file.
pub fn required_failure(status: &Status) -> (failed: Option<Error>)
    ensures
        failed.deep_view() == required_error(status.deep_view().failures),
{
    if !status.has_required_failures() {
        return None;
    }
    let ghost all = status.failures.deep_view();
    let mut sources = "".to_string();
    let mut any = false;
    proof {
        reveal_strlit("");
        assert(sources@ =~= listed(required_sources(all.take(0)), ", "@));
    }
    for i in 0..status.failures.len()
        invariant
            all == status.failures.deep_view(),
            any == (required_sources(all.take(i as int)).len() > 0),
            sources@ == listed(required_sources(all.take(i as int)), ", "@),
    {
        let ghost before = required_sources(all.take(i as int));
        assert(all[i as int] == status.failures[i as int].deep_view());
        assert(all.take(i + 1).drop_last() =~= all.take(i as int));
        if status.failures[i].required {
            let ghost after = before.push(all[i as int].source);
            assert(after.drop_last() =~= before);
            if any {
                sources.append(", ");
            }
            sources.append(status.failures[i].source.as_str());
            assert(sources@ =~= listed(after, ", "@));
            any = true;
        }
    }
    assert(all.take(all.len() as int) =~= all);
    let mut message = "Required firmware extraction failed for: ".to_string();
    message.append(sources.as_str());
    message.append("; details written to ");
    message.append(STATUS_FILE_PATH);
    Some(Error::new(ErrorKind::NotFound, message))
}

/// Recording a source a second time changes nothing.
pub proof fn lemma_source_is_recorded_once(sources: Seq<SourceView>, source: SourceView)
    ensures
        with_source(sources, source).contains(source),
        with_source(with_source(sources, source), source) == with_source(sources, source),
{
    if !sources.contains(source) {
        assert(sources.push(source).last() == source);
    }
}

/// Sources that are recorded once each stay so.
pub proof fn lemma_sources_stay_distinct(sources: Seq<SourceView>, source: SourceView)
    requires
        sources.no_duplicates(),
    ensures
        with_source(sources, source).no_duplicates(),
{
}

/// Nothing that the current run extracted is outdated, and everything else
/// that the earlier run extracted is.
pub proof fn lemma_current_entries_are_kept(previous: Seq<Seq<char>>, current: Seq<Seq<char>>)
    ensures
        forall|path: Seq<char>| #[trigger]
            outdated(previous, current).contains(path) <==> previous.contains(path)
                && !current.contains(path),
{
    let keep = |path: Seq<char>| !current.contains(path);
    let left = outdated(previous, current);
    assert forall|path: Seq<char>| #[trigger]
        outdated(previous, current).contains(path) <==> previous.contains(path)
            && !current.contains(path) by {
        if left.contains(path) {
            previous.lemma_filter_contains_rev(keep, path);
            let at = choose|at: int| 0 <= at < left.len() && left[at] == path;
            previous.lemma_filter_pred(keep, at);
        }
        if previous.contains(path) && !current.contains(path) {
            let at = choose|at: int| 0 <= at < previous.len() && previous[at] == path;
            previous.lemma_filter_contains(keep, at);
        }
    }
}

/// A run that fails on an entry as a whole accounts for every item of it, with
/// the destination and the required flag that the item declares.
pub proof fn lemma_entry_failures_cover_every_item(
    entry: config::EntryView,
    dest_dir: Seq<char>,
    error: Seq<char>,
)
    ensures
        entry_failures(entry, dest_dir, error).len() == entry.files.len() + entry.dirs.len(),
        forall|i: int|
            0 <= i < entry.files.len() ==> (#[trigger] entry_failures(
                entry,
                dest_dir,
                error,
            )[i]).required == entry.files[i].required && entry_failures(
                entry,
                dest_dir,
                error,
            )[i].destination == config::item_path(dest_dir, entry.files[i], ItemKind::File),
        forall|i: int|
            0 <= i < entry.dirs.len() ==> (#[trigger] entry_failures(
                entry,
                dest_dir,
                error,
            )[entry.files.len() + i]).required == entry.dirs[i].required && entry_failures(
                entry,
                dest_dir,
                error,
            )[entry.files.len() + i].destination == config::item_path(
                dest_dir,
                entry.dirs[i],
                ItemKind::Dir,
            ),
        lacks_required(entry_failures(entry, dest_dir, error)) <==> (exists|i: int|
            0 <= i < entry.files.len() && (#[trigger] entry.files[i]).required) || (exists|i: int|
            0 <= i < entry.dirs.len() && (#[trigger] entry.dirs[i]).required),
{
    let all = entry_failures(entry, dest_dir, error);
    if lacks_required(all) {
        let i = choose|i: int| 0 <= i < all.len() && (#[trigger] all[i]).required;
        if i < entry.files.len() {
            assert(entry.files[i].required);
        } else {
            assert(entry.dirs[i - entry.files.len()].required);
        }
    }
    if exists|i: int| 0 <= i < entry.files.len() && (#[trigger] entry.files[i]).required {
        let i = choose|i: int| 0 <= i < entry.files.len() && (#[trigger] entry.files[i]).required;
        assert(all[i].required);
    }
    if exists|i: int| 0 <= i < entry.dirs.len() && (#[trigger] entry.dirs[i]).required {
        let i = choose|i: int| 0 <= i < entry.dirs.len() && (#[trigger] entry.dirs[i]).required;
        assert(all[entry.files.len() + i].required);
    }
}

/// The failures of an entry as a whole, item by item: each has the partition
/// of the entry and the error, and its source is the item below the directory
/// of the entry, below the partition.
pub proof fn lemma_entry_failures_name_their_source(
    entry: config::EntryView,
    dest_dir: Seq<char>,
    error: Seq<char>,
    at: int,
)
    requires
        0 <= at < entry.files.len() + entry.dirs.len(),
        entry.partition.len() > 0,
        entry.partition.last() != '/',
    ensures
        ({
            let failure = entry_failures(entry, dest_dir, error)[at];
            let item = if at < entry.files.len() {
                entry.files[at]
            } else {
                entry.dirs[at - entry.files.len()]
            };
            &&& failure.partition == entry.partition
            &&& failure.error == error
            &&& failure.required == item.required
            &&& item.from.len() > 0 && item.from[0] == '/' ==> failure.source == item.from
            &&& item.from.len() == 0 || item.from[0] != '/' ==> match entry.from {
                None => failure.source == entry.partition + seq!['/'] + item.from,
                Some(from) => from.len() > 0 && from[0] != '/' && from.last() != '/'
                    ==> failure.source == entry.partition + seq!['/'] + from + seq!['/']
                    + item.from,
            }
        }),
{
    reveal_strlit("");
    let item = if at < entry.files.len() {
        entry.files[at]
    } else {
        entry.dirs[at - entry.files.len()]
    };
    let from = from_directory(entry);
    let base = path::join(entry.partition, from);
    path::lemma_join_forms(entry.partition, from);
    path::lemma_join_forms(base, item.from);
    if entry.from is None {
        assert(from =~= Seq::<char>::empty());
        assert(base =~= entry.partition + seq!['/']);
    }
}

/// Recording a source keeps all that were recorded, in order, and adds at most
/// that source, behind them.
pub proof fn lemma_sources_are_kept(sources: Seq<SourceView>, source: SourceView)
    ensures
        with_source(sources, source).take(sources.len() as int) == sources,
        with_source(sources, source).len() == sources.len() + (if sources.contains(source) {
            0int
        } else {
            1int
        }),
        with_source(sources, source).contains(source),
{
    assert(with_source(sources, source).take(sources.len() as int) =~= sources);
    lemma_source_is_recorded_once(sources, source);
}

/// What is outdated is decided path by path, in the order of the earlier run.
pub proof fn lemma_outdated_by_path(
    previous: Seq<Seq<char>>,
    path: Seq<char>,
    current: Seq<Seq<char>>,
)
    ensures
        outdated(previous.push(path), current) == (if current.contains(path) {
            outdated(previous, current)
        } else {
            outdated(previous, current).push(path)
        }),
        outdated(Seq::empty(), current) == Seq::<Seq<char>>::empty(),
{
    reveal(Seq::filter);
    assert(previous.push(path).drop_last() =~= previous);
}

/// What is said of a run that failed on something required names the sources
/// of all required failures, in order, with commas between them, and of no
/// others.
pub proof fn lemma_required_failures_are_named(
    failures: Seq<FailureView>,
    more: FailureView,
    list: Seq<char>,
)
    ensures
        !more.required ==> required_message(failures.push(more)) == required_message(failures),
        more.required && !lacks_required(failures) ==> required_message(failures.push(more))
            == "Required firmware extraction failed for: "@ + more.source
            + "; details written to /var/lib/blob-wrangler/status.json"@,
        more.required && lacks_required(failures) && required_message(failures)
            == "Required firmware extraction failed for: "@ + list
            + "; details written to /var/lib/blob-wrangler/status.json"@ ==> required_message(
            failures.push(more),
        ) == "Required firmware extraction failed for: "@ + list + ", "@ + more.source
            + "; details written to /var/lib/blob-wrangler/status.json"@,
{
    let head = "Required firmware extraction failed for: "@;
    let tail = "; details written to "@;
    let place = STATUS_FILE_PATH@;
    let whole_tail = "; details written to /var/lib/blob-wrangler/status.json"@;
    reveal_strlit("; details written to ");
    reveal_strlit("/var/lib/blob-wrangler/status.json");
    reveal_strlit("; details written to /var/lib/blob-wrangler/status.json");
    assert(tail + place =~= whole_tail);
    let before = required_sources(failures);
    assert(failures.push(more).drop_last() =~= failures);
    lemma_required_sources(failures);
    let named = listed(before, ", "@);
    if more.required {
        let after = before.push(more.source);
        assert(after.drop_last() =~= before);
        assert(required_sources(failures.push(more)) =~= after);
        if !lacks_required(failures) {
            assert(listed(after, ", "@) =~= more.source);
            assert(head + more.source + tail + place =~= head + more.source + (tail + place));
        } else if required_message(failures) == head + list + whole_tail {
            assert(required_message(failures) =~= head + named + (tail + place));
            assert((head + named + whole_tail).len() == (head + list + whole_tail).len());
            assert(named =~= (head + named + whole_tail).subrange(
                head.len() as int,
                head.len() as int + named.len(),
            ));
            assert(list =~= (head + list + whole_tail).subrange(
                head.len() as int,
                head.len() as int + list.len(),
            ));
            assert(listed(after, ", "@) =~= list + ", "@ + more.source);
            assert(head + (list + ", "@ + more.source) + tail + place =~= head + list + ", "@
                + more.source + (tail + place));
        }
    }
}

/// There is a required source exactly where something required failed.
proof fn lemma_required_sources(failures: Seq<FailureView>)
    ensures
        required_sources(failures).len() > 0 <==> lacks_required(failures),
    decreases failures.len(),
{
    if failures.len() > 0 {
        let front = failures.drop_last();
        lemma_required_sources(front);
        if lacks_required(front) {
            let i = choose|i: int| 0 <= i < front.len() && (#[trigger] front[i]).required;
            assert(failures[i].required);
        }
        if failures.last().required {
            assert(failures[failures.len() - 1].required);
        }
        if lacks_required(failures) && !failures.last().required {
            let i = choose|i: int| 0 <= i < failures.len() && (#[trigger] failures[i]).required;
            assert(front[i].required);
        }
    }
}

/// A path of an earlier run is stale exactly where this run did not extract it
/// and nothing required failed.
pub proof fn lemma_stale_paths(
    previous: Seq<Seq<char>>,
    current: Seq<Seq<char>>,
    failures: Seq<FailureView>,
    path: Seq<char>,
)
    ensures
        stale_of(previous, current, failures).contains(path) <==> previous.contains(path)
            && !current.contains(path) && (forall|i: int|
            0 <= i < failures.len() ==> !(#[trigger] failures[i]).required),
{
    lemma_current_entries_are_kept(previous, current);
    let keep = |path: Seq<char>| !current.contains(path);
    if outdated(previous, current).contains(path) {
        previous.lemma_filter_contains_rev(keep, path);
        let i = choose|i: int|
            0 <= i < outdated(previous, current).len() && outdated(previous, current)[i] == path;
        previous.lemma_filter_pred(keep, i);
    }
    if previous.contains(path) && !current.contains(path) {
        let i = choose|i: int| 0 <= i < previous.len() && previous[i] == path;
        previous.lemma_filter_contains(keep, i);
    }
}

/// A run is an error exactly where something required failed, and then nothing
/// was found.
pub proof fn lemma_required_failures_are_errors(failures: Seq<FailureView>, at: int)
    ensures
        0 <= at < failures.len() && failures[at].required ==> (required_error(
            failures,
        ) matches Some(error) && error.kind == ErrorKind::NotFound && error.message
            == required_message(failures)),
        (forall|i: int| 0 <= i < failures.len() ==> !(#[trigger] failures[i]).required)
            ==> required_error(failures) is None,
{
}

} // verus!
