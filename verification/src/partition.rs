//! Which device stands for a configured partition, given the active slot and
//! the device files that exist.

use vstd::prelude::*;
use vstd::string::*;

use crate::error;
use crate::error::{Error, ErrorKind};
use crate::path;
use crate::path::{file_name_of, join_path};
use crate::slot;
use crate::slot::Slot;
use crate::text::same_text;

verus! {

/// The names under which a partition is looked for, best first. A known slot
/// admits its own name and the unsuffixed one; an unknown slot admits the
/// unsuffixed name and then both slots.
pub open spec fn partition_names(part: Seq<char>, active_slot: Option<Slot>) -> Seq<Seq<char>> {
    match active_slot {
        Some(known) => seq![part + slot::slot_suffix(known), part],
        None => seq![part, part + "_a"@, part + "_b"@],
    }
}

/// One name below each root, in the order of the roots.
pub open spec fn in_roots(name: Seq<char>, roots: Seq<Seq<char>>) -> Seq<Seq<char>> {
    roots.map_values(|root: Seq<char>| path::join(root, name))
}

/// Every name below every root: a better name comes first in all roots.
pub open spec fn lookups(names: Seq<Seq<char>>, roots: Seq<Seq<char>>) -> Seq<Seq<char>>
    decreases names.len(),
{
    if names.len() == 0 {
        Seq::empty()
    } else {
        lookups(names.drop_last(), roots) + in_roots(names.last(), roots)
    }
}

/// The first of the paths that exists.
pub open spec fn first_existing(paths: Seq<Seq<char>>, existing: Seq<Seq<char>>) -> Option<
    Seq<char>,
>
    decreases paths.len(),
{
    if paths.len() == 0 {
        None
    } else if existing.contains(paths.first()) {
        Some(paths.first())
    } else {
        first_existing(paths.drop_first(), existing)
    }
}

/// An error about something that is not there.
pub open spec fn not_found(message: Seq<char>) -> error::ErrorView {
    error::ErrorView { kind: ErrorKind::NotFound, message }
}

/// What is said when a partition has no device file.
pub open spec fn missing_partition(part: Seq<char>, active_slot: Option<Slot>) -> error::ErrorView {
    match active_slot {
        Some(known) => not_found(
            "Unable to find active partition "@ + (part + slot::slot_suffix(known))
                + " or unsuffixed partition "@ + part + "; refusing to use the opposite slot"@,
        ),
        None => not_found("Unable to find device file for partition "@ + part),
    }
}

/// The device file of a partition.
pub open spec fn selected_path(
    part: Seq<char>,
    active_slot: Option<Slot>,
    roots: Seq<Seq<char>>,
    existing: Seq<Seq<char>>,
) -> Result<Seq<char>, error::ErrorView> {
    match first_existing(lookups(partition_names(part, active_slot), roots), existing) {
        Some(found) => Ok(found),
        None => Err(missing_partition(part, active_slot)),
    }
}

/// The device files of a dynamic partition container: the one that the slot
/// selects, or every one that exists where the slot is unknown.
pub open spec fn container_paths(
    part: Seq<char>,
    active_slot: Option<Slot>,
    partlabel_dir: Seq<char>,
    existing: Seq<Seq<char>>,
) -> Result<Seq<Seq<char>>, error::ErrorView> {
    match active_slot {
        Some(_) => match selected_path(part, active_slot, seq![partlabel_dir], existing) {
            Ok(found) => Ok(seq![found]),
            Err(error) => Err(error),
        },
        None => {
            let found = partition_names(part, None).map_values(
                |name: Seq<char>| path::join(partlabel_dir, name),
            ).filter(|path: Seq<char>| existing.contains(path));
            if found.len() == 0 {
                Err(not_found("Unable to find dynamic partition container "@ + part))
            } else {
                Ok(found)
            }
        },
    }
}

/// The service that maps a dynamic partition container.
pub open spec fn mapping_service(dynpart: Seq<char>) -> Result<Seq<char>, error::ErrorView> {
    match path::file_name(dynpart) {
        Some(name) => Ok("make-dynpart-mappings@"@ + name + ".service"@),
        None => Err(
            error::ErrorView {
                kind: ErrorKind::InvalidData,
                message: "Invalid dynamic partition name"@,
            },
        ),
    }
}

/// The containers that were mapped.
pub open spec fn mapped_paths(attempts: Seq<(Seq<char>, Option<error::ErrorView>)>) -> Seq<
    Seq<char>,
>
    decreases attempts.len(),
{
    if attempts.len() == 0 {
        Seq::empty()
    } else {
        let before = mapped_paths(attempts.drop_last());
        if attempts.last().1 is None {
            before.push(attempts.last().0)
        } else {
            before
        }
    }
}

/// The failure that came first.
pub open spec fn first_failure(attempts: Seq<(Seq<char>, Option<error::ErrorView>)>) -> Option<
    error::ErrorView,
>
    decreases attempts.len(),
{
    if attempts.len() == 0 {
        None
    } else if attempts.first().1 is Some {
        attempts.first().1
    } else {
        first_failure(attempts.drop_first())
    }
}

/// The failure that came last.
pub open spec fn last_failure(attempts: Seq<(Seq<char>, Option<error::ErrorView>)>) -> Option<
    error::ErrorView,
>
    decreases attempts.len(),
{
    if attempts.len() == 0 {
        None
    } else if attempts.last().1 is Some {
        attempts.last().1
    } else {
        last_failure(attempts.drop_last())
    }
}

/// What the attempts to map the containers come to. Where the slot is known
/// any failure counts; where it is not, one mapped container is enough.
pub open spec fn mapping_result(
    part: Seq<char>,
    active_slot: Option<Slot>,
    attempts: Seq<(Seq<char>, Option<error::ErrorView>)>,
) -> Result<Seq<Seq<char>>, error::ErrorView> {
    if active_slot is Some && first_failure(attempts) is Some {
        Err(first_failure(attempts).unwrap())
    } else if mapped_paths(attempts).len() > 0 {
        Ok(mapped_paths(attempts))
    } else {
        match last_failure(attempts) {
            Some(error) => Err(error),
            None => Err(
                error::ErrorView {
                    kind: ErrorKind::Other,
                    message: "Failed to map dynamic partition container "@ + part,
                },
            ),
        }
    }
}

/// Whether a path is among those that exist.
fn exists_in(path: &str, existing: &Vec<String>) -> (yes: bool)
    ensures
        yes == existing.deep_view().contains(path@),
{
    for i in 0..existing.len()
        invariant
            forall|j: int| 0 <= j < i ==> existing.deep_view()[j] != path@,
    {
        assert(existing.deep_view()[i as int] == existing[i as int]@);
        if same_text(existing[i].as_str(), path) {
            return true;
        }
    }
    false
}

/// Finds a name below the first root where it exists.
pub fn find_in_roots(name: &str, roots: &Vec<String>, existing: &Vec<String>) -> (found: Option<
    String,
>)
    ensures
        found.deep_view() == first_existing(in_roots(name@, roots.deep_view()), existing.deep_view()),
{
    let ghost paths = in_roots(name@, roots.deep_view());
    assert(paths.skip(0) =~= paths);
    for i in 0..roots.len()
        invariant
            paths == in_roots(name@, roots.deep_view()),
            first_existing(paths, existing.deep_view()) == first_existing(
                paths.skip(i as int),
                existing.deep_view(),
            ),
    {
        let candidate = join_path(roots[i].as_str(), name);
        assert(candidate@ == paths[i as int]);
        assert(paths.skip(i as int).drop_first() =~= paths.skip(i + 1));
        if exists_in(candidate.as_str(), existing) {
            return Some(candidate);
        }
    }
    None
}

/// Looking through one run of paths after another.
proof fn lemma_first_existing_concat(
    a: Seq<Seq<char>>,
    b: Seq<Seq<char>>,
    existing: Seq<Seq<char>>,
)
    ensures
        first_existing(a + b, existing) == (match first_existing(a, existing) {
            Some(found) => Some(found),
            None => first_existing(b, existing),
        }),
    decreases a.len(),
{
    if a.len() == 0 {
        assert(a + b =~= b);
    } else {
        lemma_first_existing_concat(a.drop_first(), b, existing);
        assert((a + b).drop_first() =~= a.drop_first() + b);
    }
}

/// Two or three names looked for one after the other.
proof fn lemma_lookups(names: Seq<Seq<char>>, roots: Seq<Seq<char>>, existing: Seq<Seq<char>>)
    requires
        2 <= names.len() <= 3,
    ensures
        first_existing(lookups(names, roots), existing) == (match first_existing(
            in_roots(names[0], roots),
            existing,
        ) {
            Some(found) => Some(found),
            None => match first_existing(in_roots(names[1], roots), existing) {
                Some(found) => Some(found),
                None => if names.len() == 3 {
                    first_existing(in_roots(names[2], roots), existing)
                } else {
                    None
                },
            },
        }),
{
    let none = Seq::<Seq<char>>::empty();
    let one = names.take(1);
    let two = names.take(2);
    assert(one.drop_last() =~= none);
    assert(two.drop_last() =~= one);
    assert(lookups(none, roots) =~= none);
    assert(lookups(one, roots) =~= in_roots(names[0], roots));
    lemma_first_existing_concat(lookups(one, roots), in_roots(names[1], roots), existing);
    assert(lookups(two, roots) == lookups(one, roots) + in_roots(two.last(), roots));
    if names.len() == 3 {
        assert(names.drop_last() =~= two);
        lemma_first_existing_concat(lookups(two, roots), in_roots(names[2], roots), existing);
    } else {
        assert(names =~= two);
    }
}

/// Selects the device file of a partition below the given roots.
pub fn select_partition_path(
    part: &str,
    active_slot: Option<Slot>,
    roots: &Vec<String>,
    existing: &Vec<String>,
) -> (selected: Result<String, Error>)
    ensures
        error::result_view(selected) == selected_path(
            part@,
            active_slot,
            roots.deep_view(),
            existing.deep_view(),
        ),
{
    proof {
        lemma_lookups(
            partition_names(part@, active_slot),
            roots.deep_view(),
            existing.deep_view(),
        );
    }
    if let Some(known) = active_slot {
        let mut active_name = part.to_string();
        active_name.append(known.suffix());
        if let Some(found) = find_in_roots(active_name.as_str(), roots, existing) {
            return Ok(found);
        }
        if let Some(found) = find_in_roots(part, roots, existing) {
            return Ok(found);
        }
        let mut message = "Unable to find active partition ".to_string();
        message.append(active_name.as_str());
        message.append(" or unsuffixed partition ");
        message.append(part);
        message.append("; refusing to use the opposite slot");
        return Err(Error::new(ErrorKind::NotFound, message));
    }
    if let Some(found) = find_in_roots(part, roots, existing) {
        return Ok(found);
    }
    let mut part_a = part.to_string();
    part_a.append("_a");
    if let Some(found) = find_in_roots(part_a.as_str(), roots, existing) {
        return Ok(found);
    }
    let mut part_b = part.to_string();
    part_b.append("_b");
    if let Some(found) = find_in_roots(part_b.as_str(), roots, existing) {
        return Ok(found);
    }
    let mut message = "Unable to find device file for partition ".to_string();
    message.append(part);
    Err(Error::new(ErrorKind::NotFound, message))
}

/// The names under which a partition is looked for.
fn names_of(part: &str, active_slot: Option<Slot>) -> (names: Vec<String>)
    ensures
        names.deep_view() == partition_names(part@, active_slot),
{
    let mut names: Vec<String> = Vec::new();
    match active_slot {
        Some(known) => {
            let mut active_name = part.to_string();
            active_name.append(known.suffix());
            names.push(active_name);
            names.push(part.to_string());
        },
        None => {
            let mut part_a = part.to_string();
            part_a.append("_a");
            let mut part_b = part.to_string();
            part_b.append("_b");
            names.push(part.to_string());
            names.push(part_a);
            names.push(part_b);
        },
    }
    assert(names.deep_view() =~= partition_names(part@, active_slot));
    names
}

/// The paths whose existence decides which device file a partition has.
pub fn partition_lookups(part: &str, active_slot: Option<Slot>, roots: &Vec<String>) -> (paths: Vec<
    String,
>)
    ensures
        paths.deep_view() == lookups(partition_names(part@, active_slot), roots.deep_view()),
{
    let names = names_of(part, active_slot);
    let ghost all = names.deep_view();
    let ghost tops = roots.deep_view();
    let mut paths: Vec<String> = Vec::new();
    assert(paths.deep_view() =~= lookups(all.take(0), tops));
    for i in 0..names.len()
        invariant
            all == names.deep_view(),
            tops == roots.deep_view(),
            paths.deep_view() == lookups(all.take(i as int), tops),
    {
        let ghost before = paths.deep_view();
        let ghost row = in_roots(all[i as int], tops);
        for j in 0..roots.len()
            invariant
                i < names@.len(),
                all == names.deep_view(),
                tops == roots.deep_view(),
                row == in_roots(all[i as int], tops),
                paths.deep_view() == before + row.take(j as int),
        {
            let ghost grown = paths.deep_view();
            let whole = join_path(roots[j].as_str(), names[i].as_str());
            assert(whole@ == row[j as int]);
            paths.push(whole);
            assert(paths.deep_view() =~= grown.push(row[j as int]));
            assert(paths.deep_view() =~= before + row.take(j + 1));
        }
        assert(row.take(row.len() as int) =~= row);
        assert(all.take(i + 1).drop_last() =~= all.take(i as int));
    }
    assert(all.take(all.len() as int) =~= all);
    paths
}

/// Finds the device files of a dynamic partition container.
pub fn dynpart_paths(
    part: &str,
    active_slot: Option<Slot>,
    partlabel_dir: &str,
    existing: &Vec<String>,
) -> (found: Result<Vec<String>, Error>)
    ensures
        error::result_view(found) == container_paths(
            part@,
            active_slot,
            partlabel_dir@,
            existing.deep_view(),
        ),
{
    if active_slot.is_some() {
        let mut roots: Vec<String> = Vec::new();
        roots.push(partlabel_dir.to_string());
        assert(roots.deep_view() =~= seq![partlabel_dir@]);
        return match select_partition_path(part, active_slot, &roots, existing) {
            Ok(path) => {
                let ghost chosen = path@;
                let mut paths: Vec<String> = Vec::new();
                paths.push(path);
                assert(paths.deep_view() =~= seq![chosen]);
                Ok(paths)
            },
            Err(error) => Err(error),
        };
    }
    let names = names_of(part, None);
    let ghost candidates = names.deep_view().map_values(
        |name: Seq<char>| path::join(partlabel_dir@, name),
    );
    let ghost keep = |path: Seq<char>| existing.deep_view().contains(path);
    let mut paths: Vec<String> = Vec::new();
    assert(paths.deep_view() =~= candidates.take(0).filter(keep)) by {
        reveal(Seq::filter);
    }
    for i in 0..names.len()
        invariant
            candidates == names.deep_view().map_values(
                |name: Seq<char>| path::join(partlabel_dir@, name),
            ),
            keep == (|path: Seq<char>| existing.deep_view().contains(path)),
            paths.deep_view() == candidates.take(i as int).filter(keep),
    {
        let candidate = join_path(partlabel_dir, names[i].as_str());
        assert(candidate@ == candidates[i as int]);
        assert(candidates.take(i + 1).drop_last() =~= candidates.take(i as int));
        proof {
            reveal(Seq::filter);
        }
        if exists_in(candidate.as_str(), existing) {
            let ghost grown = paths.deep_view().push(candidate@);
            paths.push(candidate);
            assert(paths.deep_view() =~= grown);
        }
    }
    assert(candidates.take(candidates.len() as int) =~= candidates);
    if paths.len() == 0 {
        let mut message = "Unable to find dynamic partition container ".to_string();
        message.append(part);
        return Err(Error::new(ErrorKind::NotFound, message));
    }
    Ok(paths)
}

/// Names the service that maps a dynamic partition container.
pub fn start_dynpart_mapping(dynpart: &str) -> (service: Result<String, Error>)
    ensures
        error::result_view(service) == mapping_service(dynpart@),
{
    match file_name_of(dynpart) {
        None => Err(
            Error::new(ErrorKind::InvalidData, "Invalid dynamic partition name".to_string()),
        ),
        Some(name) => {
            let mut service = "make-dynpart-mappings@".to_string();
            service.append(name.as_str());
            service.append(".service");
            Ok(service)
        },
    }
}

/// Decides what the attempts to map the containers come to: each attempt is a
/// container and the failure it met, if any.
pub fn map_dynpart(
    part: &str,
    active_slot: Option<Slot>,
    attempts: &Vec<(String, Option<Error>)>,
) -> (mapped: Result<Vec<String>, Error>)
    ensures
        error::result_view(mapped) == mapping_result(part@, active_slot, attempts.deep_view()),
{
    let ghost all = attempts.deep_view();
    let mut mapped: Vec<String> = Vec::new();
    let mut last_error: Option<Error> = None;
    assert(all.skip(0) =~= all);
    assert(mapped.deep_view() =~= mapped_paths(all.take(0)));
    for i in 0..attempts.len()
        invariant
            all == attempts.deep_view(),
            mapped.deep_view() == mapped_paths(all.take(i as int)),
            last_error.deep_view() == last_failure(all.take(i as int)),
            first_failure(all) == first_failure(all.skip(i as int)) || active_slot is None,
    {
        assert(all[i as int] == (attempts[i as int].0@, attempts[i as int].1.deep_view()));
        assert(all.take(i + 1).drop_last() =~= all.take(i as int));
        assert(all.skip(i as int).drop_first() =~= all.skip(i + 1));
        match &attempts[i].1 {
            None => {
                let ghost grown = mapped.deep_view().push(all[i as int].0);
                mapped.push(attempts[i].0.clone());
                assert(mapped.deep_view() =~= grown);
            },
            Some(error) => {
                if active_slot.is_some() {
                    return Err(error.clone());
                }
                last_error = Some(error.clone());
            },
        }
    }
    assert(all.take(all.len() as int) =~= all);
    assert(all.skip(all.len() as int) =~= Seq::<(Seq<char>, Option<error::ErrorView>)>::empty());
    if mapped.len() == 0 {
        return match last_error {
            Some(error) => Err(error),
            None => {
                let mut message = "Failed to map dynamic partition container ".to_string();
                message.append(part);
                Err(Error::new(ErrorKind::Other, message))
            },
        };
    }
    Ok(mapped)
}

/// The other slot.
pub open spec fn opposite(slot: Slot) -> Slot {
    match slot {
        Slot::A => Slot::B,
        Slot::B => Slot::A,
    }
}

/// The first existing path is found where it is, and only where it is.
proof fn lemma_first_existing_at(paths: Seq<Seq<char>>, existing: Seq<Seq<char>>, at: int)
    requires
        0 <= at < paths.len(),
        existing.contains(paths[at]),
        forall|i: int| 0 <= i < at ==> !existing.contains(#[trigger] paths[i]),
    ensures
        first_existing(paths, existing) == Some(paths[at]),
    decreases paths.len(),
{
    if at > 0 {
        let rest = paths.drop_first();
        assert(paths[0] == paths.first());
        assert forall|i: int| 0 <= i < at - 1 implies !existing.contains(#[trigger] rest[i]) by {
            assert(rest[i] == paths[i + 1]);
        }
        lemma_first_existing_at(rest, existing, at - 1);
    }
}

/// Nothing is found exactly where no path exists, and what is found is one of
/// the paths and exists.
proof fn lemma_first_existing(paths: Seq<Seq<char>>, existing: Seq<Seq<char>>)
    ensures
        first_existing(paths, existing) is None <==> forall|i: int|
            0 <= i < paths.len() ==> !existing.contains(#[trigger] paths[i]),
        first_existing(paths, existing) matches Some(found) ==> paths.contains(found)
            && existing.contains(found),
    decreases paths.len(),
{
    if paths.len() > 0 {
        let rest = paths.drop_first();
        assert(paths[0] == paths.first());
        lemma_first_existing(rest, existing);
        assert(forall|i: int| 0 <= i < rest.len() ==> rest[i] == #[trigger] paths[i + 1]);
        assert(forall|i: int| 0 < i < paths.len() ==> #[trigger] paths[i] == rest[i - 1]);
        if let Some(found) = first_existing(rest, existing) {
            if !existing.contains(paths.first()) {
                let k = choose|k: int| 0 <= k < rest.len() && rest[k] == found;
                assert(paths[k + 1] == found);
            }
        }
    }
}

/// A path that is looked up is one of the names below one of the roots.
proof fn lemma_lookup_is_a_name_in_a_root(
    names: Seq<Seq<char>>,
    roots: Seq<Seq<char>>,
    path: Seq<char>,
) -> (place: (int, int))
    requires
        lookups(names, roots).contains(path),
    ensures
        0 <= place.0 < names.len(),
        0 <= place.1 < roots.len(),
        path == path::join(roots[place.1], names[place.0]),
    decreases names.len(),
{
    let all = lookups(names, roots);
    let k = choose|k: int| 0 <= k < all.len() && all[k] == path;
    let before = lookups(names.drop_last(), roots);
    if k < before.len() {
        assert(before[k] == path);
        let place = lemma_lookup_is_a_name_in_a_root(names.drop_last(), roots, path);
        place
    } else {
        assert(all[k] == in_roots(names.last(), roots)[k - before.len()]);
        (names.len() - 1, k - before.len())
    }
}

/// A partition has the device file that comes first among the paths looked
/// up and exists; it has none exactly where none of them exists.
pub proof fn lemma_selection_takes_the_first(
    part: Seq<char>,
    active_slot: Option<Slot>,
    roots: Seq<Seq<char>>,
    existing: Seq<Seq<char>>,
    at: int,
)
    ensures
        ({
            let paths = lookups(partition_names(part, active_slot), roots);
            &&& 0 <= at < paths.len() && existing.contains(paths[at]) && (forall|i: int|
                0 <= i < at ==> !existing.contains(#[trigger] paths[i])) ==> selected_path(
                part,
                active_slot,
                roots,
                existing,
            ) == Ok::<Seq<char>, error::ErrorView>(paths[at])
            &&& selected_path(part, active_slot, roots, existing) is Err <==> forall|i: int|
                0 <= i < paths.len() ==> !existing.contains(#[trigger] paths[i])
        }),
{
    let paths = lookups(partition_names(part, active_slot), roots);
    lemma_first_existing(paths, existing);
    if 0 <= at < paths.len() && existing.contains(paths[at]) && (forall|i: int|
        0 <= i < at ==> !existing.contains(#[trigger] paths[i])) {
        lemma_first_existing_at(paths, existing, at);
    }
}

/// What is selected was looked up.
pub proof fn lemma_selection_was_looked_up(
    part: Seq<char>,
    active_slot: Option<Slot>,
    roots: Seq<Seq<char>>,
    existing: Seq<Seq<char>>,
)
    ensures
        selected_path(part, active_slot, roots, existing) matches Ok(found) ==> lookups(
            partition_names(part, active_slot),
            roots,
        ).contains(found) && existing.contains(found),
{
    lemma_first_existing(lookups(partition_names(part, active_slot), roots), existing);
}

/// Only the paths looked up bear on the selection: what else exists makes no
/// difference.
pub proof fn lemma_only_lookups_matter(
    part: Seq<char>,
    active_slot: Option<Slot>,
    roots: Seq<Seq<char>>,
    existing: Seq<Seq<char>>,
    other: Seq<Seq<char>>,
)
    requires
        forall|i: int|
            0 <= i < lookups(partition_names(part, active_slot), roots).len() ==> (
            existing.contains(#[trigger] lookups(partition_names(part, active_slot), roots)[i])
                <==> other.contains(lookups(partition_names(part, active_slot), roots)[i])),
    ensures
        selected_path(part, active_slot, roots, existing) == selected_path(
            part,
            active_slot,
            roots,
            other,
        ),
{
    lemma_same_lookups(lookups(partition_names(part, active_slot), roots), existing, other);
}

proof fn lemma_same_lookups(
    paths: Seq<Seq<char>>,
    existing: Seq<Seq<char>>,
    other: Seq<Seq<char>>,
)
    requires
        forall|i: int|
            0 <= i < paths.len() ==> (existing.contains(#[trigger] paths[i]) <==> other.contains(
                paths[i],
            )),
    ensures
        first_existing(paths, existing) == first_existing(paths, other),
    decreases paths.len(),
{
    if paths.len() > 0 {
        let rest = paths.drop_first();
        assert(paths[0] == paths.first());
        assert forall|i: int| 0 <= i < rest.len() implies (existing.contains(#[trigger] rest[i])
            <==> other.contains(rest[i])) by {
            assert(rest[i] == paths[i + 1]);
        }
        lemma_same_lookups(rest, existing, other);
    }
}

/// Whether the character at a place comes again two places on.
spec fn repeats(part: Seq<char>, place: int) -> bool {
    part[place] == part[place + 2]
}

/// Text that repeats after two characters keeps its second character in every
/// second place.
proof fn lemma_alternating(part: Seq<char>, place: int)
    requires
        1 <= place < part.len(),
        place % 2 == 1,
        forall|j: int| 0 <= j < part.len() - 2 ==> #[trigger] repeats(part, j),
    ensures
        part[place] == part[1],
    decreases place,
{
    if place > 1 {
        lemma_alternating(part, place - 2);
        assert(repeats(part, place - 2));
    }
}

/// What is joined onto a base stands at the end, behind a `/` unless nothing
/// stands before it.
proof fn lemma_join_ends(base: Seq<char>, path: Seq<char>) -> (front: Seq<char>)
    ensures
        path::join(base, path) == front + path,
        front.len() > 0 ==> front.last() == '/',
{
    if path::is_absolute(path) {
        assert(Seq::<char>::empty() + path =~= path);
        Seq::empty()
    } else if base.len() == 0 || base.last() == '/' {
        base
    } else {
        base.push('/')
    }
}

/// A name with two more characters never ends a path in the way that the
/// name itself does.
proof fn lemma_suffixed_is_not_plain(
    part: Seq<char>,
    suffix: Seq<char>,
    front: Seq<char>,
    other_front: Seq<char>,
)
    requires
        suffix.len() == 2,
        suffix[0] != '/',
        suffix[1] != '/',
        other_front.len() > 0 ==> other_front.last() == '/',
    ensures
        front + (part + suffix) != other_front + part,
{
    let name = part + suffix;
    let whole = front + name;
    if whole == other_front + part {
        let n: int = part.len() as int;
        let m: int = front.len() as int;
        assert(whole.len() == m + n + 2);
        assert((other_front + part).len() == other_front.len() + n);
        assert(whole[m + 1] == name[1]);
        assert(whole[m + 1] == other_front[m + 1]);
        assert(name[1] == '/');
        if n == 0 {
            assert(name[1] == suffix[1]);
        } else if n == 1 {
            assert(name[1] == suffix[0]);
        } else {
            assert forall|j: int| 0 <= j < n - 2 implies #[trigger] repeats(part, j) by {
                assert(whole[m + 2 + j] == part[j]);
                assert(whole[m + 2 + j] == name[j + 2]);
            }
            assert(whole[m + 2 + (n - 1)] == part[n - 1]);
            assert(whole[m + 2 + (n - 1)] == name[n + 1]);
            assert(whole[m + 2 + (n - 2)] == part[n - 2]);
            assert(whole[m + 2 + (n - 2)] == name[n]);
            if n % 2 == 0 {
                lemma_alternating(part, n - 1);
            } else {
                lemma_alternating(part, n - 2);
            }
        }
    }
}

/// With a known active slot no path is looked up that names the opposite
/// slot: what is looked up carries the suffix of the active slot or none.
pub proof fn lemma_opposite_slot_is_never_looked_up(
    part: Seq<char>,
    active: Slot,
    roots: Seq<Seq<char>>,
    found: Seq<char>,
)
    requires
        lookups(partition_names(part, Some(active)), roots).contains(found),
    ensures
        exists|i: int|
            0 <= i < roots.len() && (found == path::join(
                #[trigger] roots[i],
                part + slot::slot_suffix(active),
            ) || found == path::join(roots[i], part)),
        forall|i: int|
            0 <= i < roots.len() ==> found != path::join(
                #[trigger] roots[i],
                part + slot::slot_suffix(opposite(active)),
            ),
{
    let names = partition_names(part, Some(active));
    let place = lemma_lookup_is_a_name_in_a_root(names, roots, found);
    let own = slot::slot_suffix(active);
    let other = slot::slot_suffix(opposite(active));
    reveal_strlit("_a");
    reveal_strlit("_b");
    assert(names[place.0] == part + own || names[place.0] == part);
    assert forall|i: int| 0 <= i < roots.len() implies found != path::join(
        #[trigger] roots[i],
        part + other,
    ) by {
        if names[place.0] == part + own {
            let front = lemma_join_ends(roots[place.1], part + own);
            let other_front = lemma_join_ends(roots[i], part + other);
            assert((front + (part + own)).last() == own[1]);
            assert((other_front + (part + other)).last() == other[1]);
        } else {
            let front = lemma_join_ends(roots[i], part + other);
            let other_front = lemma_join_ends(roots[place.1], part);
            lemma_suffixed_is_not_plain(part, other, front, other_front);
        }
    }
}

/// With a known active slot no device file of the opposite slot is ever
/// selected, whatever exists: what is selected carries the suffix of the
/// active slot or no suffix.
pub proof fn lemma_opposite_slot_is_never_selected(
    part: Seq<char>,
    active: Slot,
    roots: Seq<Seq<char>>,
    existing: Seq<Seq<char>>,
)
    ensures
        selected_path(part, Some(active), roots, existing) matches Ok(found) ==> {
            &&& existing.contains(found)
            &&& exists|i: int|
                0 <= i < roots.len() && (found == path::join(
                    #[trigger] roots[i],
                    part + slot::slot_suffix(active),
                ) || found == path::join(roots[i], part))
            &&& forall|i: int|
                0 <= i < roots.len() ==> found != path::join(
                    #[trigger] roots[i],
                    part + slot::slot_suffix(opposite(active)),
                )
        },
{
    lemma_selection_was_looked_up(part, Some(active), roots, existing);
    if let Ok(found) = selected_path(part, Some(active), roots, existing) {
        lemma_opposite_slot_is_never_looked_up(part, active, roots, found);
    }
}

/// With a known active slot exactly one container is mapped, and it is not
/// that of the opposite slot.
pub proof fn lemma_known_slot_maps_one_container(
    part: Seq<char>,
    active: Slot,
    partlabel_dir: Seq<char>,
    existing: Seq<Seq<char>>,
)
    ensures
        container_paths(part, Some(active), partlabel_dir, existing) matches Ok(found) ==> {
            &&& found.len() == 1
            &&& existing.contains(found[0])
            &&& found[0] != path::join(
                partlabel_dir,
                part + slot::slot_suffix(opposite(active)),
            )
        },
{
    let roots = seq![partlabel_dir];
    lemma_opposite_slot_is_never_selected(part, active, roots, existing);
    assert(roots[0] == partlabel_dir);
}

/// With an unknown slot every container that exists is mapped, the unsuffixed
/// one first and then those of slot A and slot B.
pub proof fn lemma_unknown_slot_maps_every_container(
    part: Seq<char>,
    partlabel_dir: Seq<char>,
    existing: Seq<Seq<char>>,
)
    ensures
        ({
            let plain = path::join(partlabel_dir, part);
            let of_a = path::join(partlabel_dir, part + "_a"@);
            let of_b = path::join(partlabel_dir, part + "_b"@);
            let only = |path: Seq<char>|
                if existing.contains(path) {
                    seq![path]
                } else {
                    Seq::<Seq<char>>::empty()
                };
            let found = only(plain) + only(of_a) + only(of_b);
            if found.len() > 0 {
                container_paths(part, None, partlabel_dir, existing) == Ok::<
                    Seq<Seq<char>>,
                    error::ErrorView,
                >(found)
            } else {
                container_paths(part, None, partlabel_dir, existing) is Err
            }
        }),
{
    let plain = path::join(partlabel_dir, part);
    let of_a = path::join(partlabel_dir, part + "_a"@);
    let of_b = path::join(partlabel_dir, part + "_b"@);
    let keep = |path: Seq<char>| existing.contains(path);
    let all = partition_names(part, None).map_values(
        |name: Seq<char>| path::join(partlabel_dir, name),
    );
    assert(all =~= seq![plain, of_a, of_b]);
    let none = Seq::<Seq<char>>::empty();
    assert(all.drop_last() =~= seq![plain, of_a]);
    assert(seq![plain, of_a].drop_last() =~= seq![plain]);
    assert(seq![plain].drop_last() =~= none);
    reveal(Seq::filter);
    assert(none.filter(keep) =~= none);
    let only = |path: Seq<char>|
        if existing.contains(path) {
            seq![path]
        } else {
            Seq::<Seq<char>>::empty()
        };
    assert(seq![plain].filter(keep) =~= only(plain));
    assert(seq![plain, of_a].filter(keep) =~= only(plain) + only(of_a));
    assert(all.filter(keep) =~= only(plain) + only(of_a) + only(of_b));
}

/// In one root the lookups are the names below it.
proof fn lemma_lookups_in_one_root(names: Seq<Seq<char>>, root: Seq<char>)
    ensures
        lookups(names, seq![root]) == names.map_values(|name: Seq<char>| path::join(root, name)),
    decreases names.len(),
{
    let below = names.map_values(|name: Seq<char>| path::join(root, name));
    if names.len() > 0 {
        let front = names.drop_last();
        lemma_lookups_in_one_root(front, root);
        assert(in_roots(names.last(), seq![root]) =~= seq![path::join(root, names.last())]);
        assert(lookups(names, seq![root]) =~= below);
    } else {
        assert(lookups(names, seq![root]) =~= below);
    }
}

/// The containers that are found were looked up and exist.
pub proof fn lemma_containers_were_looked_up(
    part: Seq<char>,
    active_slot: Option<Slot>,
    partlabel_dir: Seq<char>,
    existing: Seq<Seq<char>>,
)
    ensures
        container_paths(part, active_slot, partlabel_dir, existing) matches Ok(found)
            ==> forall|i: int|
            0 <= i < found.len() ==> lookups(
                partition_names(part, active_slot),
                seq![partlabel_dir],
            ).contains(#[trigger] found[i]) && existing.contains(found[i]),
{
    let roots = seq![partlabel_dir];
    let names = partition_names(part, active_slot);
    if let Ok(found) = container_paths(part, active_slot, partlabel_dir, existing) {
        if active_slot is Some {
            lemma_selection_was_looked_up(part, active_slot, roots, existing);
        } else {
            let keep = |path: Seq<char>| existing.contains(path);
            let below = names.map_values(|name: Seq<char>| path::join(partlabel_dir, name));
            lemma_lookups_in_one_root(names, partlabel_dir);
            assert forall|i: int| 0 <= i < found.len() implies lookups(names, roots).contains(
                #[trigger] found[i],
            ) && existing.contains(found[i]) by {
                below.lemma_filter_pred(keep, i);
                assert(below.filter(keep).contains(found[i]));
                below.lemma_filter_contains_rev(keep, found[i]);
            }
        }
    }
}

/// What was mapped was tried.
pub proof fn lemma_mapped_paths_were_tried(attempts: Seq<(Seq<char>, Option<error::ErrorView>)>)
    ensures
        forall|i: int|
            0 <= i < mapped_paths(attempts).len() ==> exists|j: int|
                0 <= j < attempts.len() && (#[trigger] attempts[j]).0 == #[trigger] mapped_paths(
                    attempts,
                )[i],
    decreases attempts.len(),
{
    if attempts.len() > 0 {
        let front = attempts.drop_last();
        let mapped = mapped_paths(attempts);
        let before = mapped_paths(front);
        lemma_mapped_paths_were_tried(front);
        assert forall|i: int| 0 <= i < mapped.len() implies exists|j: int|
            0 <= j < attempts.len() && (#[trigger] attempts[j]).0 == #[trigger] mapped[i] by {
            if i < before.len() {
                assert(mapped[i] == before[i]);
                let j = choose|j: int|
                    0 <= j < front.len() && (#[trigger] front[j]).0 == before[i];
                assert(attempts[j] == front[j]);
            } else {
                assert(attempts[attempts.len() - 1].0 == mapped[i]);
            }
        }
    }
}

/// Names that both start at the root or both do not stay apart below a base.
proof fn lemma_join_keeps_apart(base: Seq<char>, a: Seq<char>, b: Seq<char>)
    requires
        path::is_absolute(a) == path::is_absolute(b),
        path::join(base, a) == path::join(base, b),
    ensures
        a == b,
{
    let front = if path::is_absolute(a) {
        Seq::<char>::empty()
    } else if base.len() == 0 || base.last() == '/' {
        base
    } else {
        base.push('/')
    };
    assert(path::join(base, a) =~= front + a);
    assert(path::join(base, b) =~= front + b);
    assert(a =~= (front + a).skip(front.len() as int));
    assert(b =~= (front + b).skip(front.len() as int));
}

/// No container is found twice.
pub proof fn lemma_containers_are_distinct(
    part: Seq<char>,
    active_slot: Option<Slot>,
    partlabel_dir: Seq<char>,
    existing: Seq<Seq<char>>,
)
    ensures
        container_paths(part, active_slot, partlabel_dir, existing) matches Ok(found)
            ==> found.no_duplicates(),
{
    if active_slot is None {
        reveal_strlit("_a");
        reveal_strlit("_b");
        lemma_unknown_slot_maps_every_container(part, partlabel_dir, existing);
        let of_a = part + "_a"@;
        let of_b = part + "_b"@;
        assert(of_a.last() == 'a' && of_b.last() == 'b');
        if path::join(partlabel_dir, part) == path::join(partlabel_dir, of_a) {
            lemma_join_keeps_apart(partlabel_dir, part, of_a);
        }
        if path::join(partlabel_dir, part) == path::join(partlabel_dir, of_b) {
            lemma_join_keeps_apart(partlabel_dir, part, of_b);
        }
        if path::join(partlabel_dir, of_a) == path::join(partlabel_dir, of_b) {
            lemma_join_keeps_apart(partlabel_dir, of_a, of_b);
        }
    }
}

/// Nothing is mapped twice where nothing is tried twice.
pub proof fn lemma_mapped_paths_are_distinct(attempts: Seq<(Seq<char>, Option<error::ErrorView>)>)
    requires
        forall|i: int, j: int|
            0 <= i < j < attempts.len() ==> (#[trigger] attempts[i]).0 != (#[trigger] attempts[j]).0,
    ensures
        mapped_paths(attempts).no_duplicates(),
    decreases attempts.len(),
{
    if attempts.len() > 0 {
        let front = attempts.drop_last();
        let before = mapped_paths(front);
        assert forall|i: int, j: int| 0 <= i < j < front.len() implies (#[trigger] front[i]).0 != (
        #[trigger] front[j]).0 by {
            assert(front[i] == attempts[i] && front[j] == attempts[j]);
        }
        lemma_mapped_paths_are_distinct(front);
        lemma_mapped_paths_were_tried(front);
        let last = attempts[attempts.len() - 1].0;
        assert forall|i: int| 0 <= i < before.len() implies before[i] != last by {
            let j = choose|j: int| 0 <= j < front.len() && (#[trigger] front[j]).0 == before[i];
            assert(attempts[j] == front[j]);
        }
    }
}

/// A device file that exists below one root, and below no root before it.
pub open spec fn stands_first(
    name: Seq<char>,
    roots: Seq<Seq<char>>,
    existing: Seq<Seq<char>>,
    at: int,
) -> bool {
    &&& 0 <= at < roots.len()
    &&& existing.contains(path::join(roots[at], name))
    &&& forall|i: int|
        0 <= i < at ==> !existing.contains(path::join(#[trigger] roots[i], name))
}

/// A name below no root.
pub open spec fn stands_nowhere(
    name: Seq<char>,
    roots: Seq<Seq<char>>,
    existing: Seq<Seq<char>>,
) -> bool {
    forall|i: int|
        0 <= i < roots.len() ==> !existing.contains(path::join(#[trigger] roots[i], name))
}

/// A name is found below the first root where it stands, and nowhere else.
pub proof fn lemma_in_roots(
    name: Seq<char>,
    roots: Seq<Seq<char>>,
    existing: Seq<Seq<char>>,
    at: int,
)
    ensures
        stands_first(name, roots, existing, at) ==> first_existing(
            in_roots(name, roots),
            existing,
        ) == Some(path::join(roots[at], name)),
        stands_nowhere(name, roots, existing) ==> first_existing(in_roots(name, roots), existing)
            is None,
{
    let paths = in_roots(name, roots);
    assert forall|i: int| 0 <= i < roots.len() implies #[trigger] paths[i] == path::join(
        roots[i],
        name,
    ) by {}
    if stands_first(name, roots, existing, at) {
        lemma_first_existing_at(paths, existing, at);
    }
    if stands_nowhere(name, roots, existing) {
        lemma_first_existing(paths, existing);
    }
}

/// With a known active slot the name with the suffix of that slot comes first
/// in every root, and then the plain name in every root; without either the
/// partition is not found.
pub proof fn lemma_active_slot_comes_first(
    part: Seq<char>,
    active: Slot,
    roots: Seq<Seq<char>>,
    existing: Seq<Seq<char>>,
    at: int,
)
    ensures
        ({
            let suffixed = part + (match active {
                Slot::A => seq!['_', 'a'],
                Slot::B => seq!['_', 'b'],
            });
            let selected = selected_path(part, Some(active), roots, existing);
            &&& stands_first(suffixed, roots, existing, at) ==> selected == Ok::<
                Seq<char>,
                error::ErrorView,
            >(path::join(roots[at], suffixed))
            &&& stands_nowhere(suffixed, roots, existing) && stands_first(
                part,
                roots,
                existing,
                at,
            ) ==> selected == Ok::<Seq<char>, error::ErrorView>(path::join(roots[at], part))
            &&& stands_nowhere(suffixed, roots, existing) && stands_nowhere(
                part,
                roots,
                existing,
            ) ==> selected == Err::<Seq<char>, error::ErrorView>(
                error::ErrorView {
                    kind: ErrorKind::NotFound,
                    message: "Unable to find active partition "@ + suffixed
                        + " or unsuffixed partition "@ + part
                        + "; refusing to use the opposite slot"@,
                },
            )
        }),
{
    reveal_strlit("_a");
    reveal_strlit("_b");
    let suffix = match active {
        Slot::A => seq!['_', 'a'],
        Slot::B => seq!['_', 'b'],
    };
    assert(slot::slot_suffix(active) =~= suffix);
    lemma_lookups(partition_names(part, Some(active)), roots, existing);
    lemma_in_roots(part + suffix, roots, existing, at);
    lemma_in_roots(part, roots, existing, at);
}

/// With an unknown slot the plain name comes first in every root, then that of
/// slot A and then that of slot B.
pub proof fn lemma_plain_name_comes_first(
    part: Seq<char>,
    roots: Seq<Seq<char>>,
    existing: Seq<Seq<char>>,
    at: int,
)
    ensures
        ({
            let of_a = part + seq!['_', 'a'];
            let of_b = part + seq!['_', 'b'];
            let selected = selected_path(part, None, roots, existing);
            &&& stands_first(part, roots, existing, at) ==> selected == Ok::<
                Seq<char>,
                error::ErrorView,
            >(path::join(roots[at], part))
            &&& stands_nowhere(part, roots, existing) && stands_first(of_a, roots, existing, at)
                ==> selected == Ok::<Seq<char>, error::ErrorView>(path::join(roots[at], of_a))
            &&& stands_nowhere(part, roots, existing) && stands_nowhere(of_a, roots, existing)
                && stands_first(of_b, roots, existing, at) ==> selected == Ok::<
                Seq<char>,
                error::ErrorView,
            >(path::join(roots[at], of_b))
            &&& stands_nowhere(part, roots, existing) && stands_nowhere(of_a, roots, existing)
                && stands_nowhere(of_b, roots, existing) ==> selected == Err::<
                Seq<char>,
                error::ErrorView,
            >(
                error::ErrorView {
                    kind: ErrorKind::NotFound,
                    message: "Unable to find device file for partition "@ + part,
                },
            )
        }),
{
    reveal_strlit("_a");
    reveal_strlit("_b");
    assert("_a"@ =~= seq!['_', 'a'] && "_b"@ =~= seq!['_', 'b']);
    lemma_lookups(partition_names(part, None), roots, existing);
    lemma_in_roots(part, roots, existing, at);
    lemma_in_roots(part + seq!['_', 'a'], roots, existing, at);
    lemma_in_roots(part + seq!['_', 'b'], roots, existing, at);
}

/// With a known active slot the container is the device file with the suffix
/// of that slot, or the plain one.
pub proof fn lemma_active_container_comes_first(
    part: Seq<char>,
    active: Slot,
    partlabel_dir: Seq<char>,
    existing: Seq<Seq<char>>,
)
    ensures
        ({
            let suffixed = path::join(
                partlabel_dir,
                part + (match active {
                    Slot::A => seq!['_', 'a'],
                    Slot::B => seq!['_', 'b'],
                }),
            );
            let plain = path::join(partlabel_dir, part);
            let found = container_paths(part, Some(active), partlabel_dir, existing);
            &&& existing.contains(suffixed) ==> found == Ok::<Seq<Seq<char>>, error::ErrorView>(
                seq![suffixed],
            )
            &&& !existing.contains(suffixed) && existing.contains(plain) ==> found == Ok::<
                Seq<Seq<char>>,
                error::ErrorView,
            >(seq![plain])
            &&& !existing.contains(suffixed) && !existing.contains(plain) ==> (found matches Err(
                error,
            ) && error.kind == ErrorKind::NotFound)
        }),
{
    let roots = seq![partlabel_dir];
    let suffixed = part + (match active {
        Slot::A => seq!['_', 'a'],
        Slot::B => seq!['_', 'b'],
    });
    assert(roots[0] == partlabel_dir);
    assert(existing.contains(path::join(partlabel_dir, suffixed)) ==> stands_first(
        suffixed,
        roots,
        existing,
        0,
    ));
    assert(existing.contains(path::join(partlabel_dir, part)) ==> stands_first(
        part,
        roots,
        existing,
        0,
    ));
    lemma_active_slot_comes_first(part, active, roots, existing, 0);
}

/// What is said where an unknown slot has no container at all.
pub proof fn lemma_missing_containers_are_named(
    part: Seq<char>,
    partlabel_dir: Seq<char>,
    existing: Seq<Seq<char>>,
)
    requires
        !existing.contains(path::join(partlabel_dir, part)),
        !existing.contains(path::join(partlabel_dir, part + seq!['_', 'a'])),
        !existing.contains(path::join(partlabel_dir, part + seq!['_', 'b'])),
    ensures
        container_paths(part, None, partlabel_dir, existing) == Err::<
            Seq<Seq<char>>,
            error::ErrorView,
        >(
            error::ErrorView {
                kind: ErrorKind::NotFound,
                message: "Unable to find dynamic partition container "@ + part,
            },
        ),
{
    reveal_strlit("_a");
    reveal_strlit("_b");
    assert("_a"@ =~= seq!['_', 'a'] && "_b"@ =~= seq!['_', 'b']);
    lemma_unknown_slot_maps_every_container(part, partlabel_dir, existing);
}

/// The service that maps a container is called after the last component of
/// its path.
pub proof fn lemma_mapping_services_are_called_after_containers(
    front: Seq<char>,
    name: Seq<char>,
)
    requires
        front.len() == 0 || front.last() == '/',
        name.len() > 0,
        !name.contains('/'),
    ensures
        name != seq!['.'] && name != seq!['.', '.'] ==> mapping_service(front + name) == Ok::<
            Seq<char>,
            error::ErrorView,
        >("make-dynpart-mappings@"@ + name + ".service"@),
        name == seq!['.', '.'] ==> mapping_service(front + name) == Err::<
            Seq<char>,
            error::ErrorView,
        >(
            error::ErrorView {
                kind: ErrorKind::InvalidData,
                message: "Invalid dynamic partition name"@,
            },
        ),
{
    path::lemma_file_name_forms(front, name);
}

/// One more container that is mapped comes behind those mapped before; one
/// more that fails does not change them.
pub proof fn lemma_mapped_containers_add_up(
    attempts: Seq<(Seq<char>, Option<error::ErrorView>)>,
    path: Seq<char>,
    error: error::ErrorView,
)
    ensures
        mapped_paths(Seq::empty()) == Seq::<Seq<char>>::empty(),
        mapped_paths(attempts.push((path, None))) == mapped_paths(attempts).push(path),
        mapped_paths(attempts.push((path, Some(error)))) == mapped_paths(attempts),
{
    assert(attempts.push((path, None)).drop_last() =~= attempts);
    assert(attempts.push((path, Some(error))).drop_last() =~= attempts);
}

/// The failures among some attempts.
proof fn lemma_failures(attempts: Seq<(Seq<char>, Option<error::ErrorView>)>)
    ensures
        (first_failure(attempts) is None) == (forall|i: int|
            0 <= i < attempts.len() ==> (#[trigger] attempts[i]).1 is None),
        (last_failure(attempts) is None) == (forall|i: int|
            0 <= i < attempts.len() ==> (#[trigger] attempts[i]).1 is None),
    decreases attempts.len(),
{
    if attempts.len() > 0 {
        let rest = attempts.drop_first();
        let front = attempts.drop_last();
        lemma_failures(rest);
        lemma_failures(front);
        assert(attempts[0] == attempts.first());
        assert(attempts[attempts.len() - 1] == attempts.last());
        assert(forall|i: int| 0 <= i < rest.len() ==> rest[i] == #[trigger] attempts[i + 1]);
        assert(forall|i: int| 0 < i < attempts.len() ==> #[trigger] attempts[i] == rest[i - 1]);
        assert(forall|i: int| 0 <= i < front.len() ==> #[trigger] front[i] == attempts[i]);
        assert(forall|i: int|
            0 <= i < attempts.len() - 1 ==> #[trigger] attempts[i] == front[i]);
    }
}

/// The first failure among some attempts stands behind none.
proof fn lemma_first_failure_at(
    attempts: Seq<(Seq<char>, Option<error::ErrorView>)>,
    at: int,
)
    requires
        0 <= at < attempts.len(),
        attempts[at].1 is Some,
        forall|i: int| 0 <= i < at ==> (#[trigger] attempts[i]).1 is None,
    ensures
        first_failure(attempts) == attempts[at].1,
    decreases at,
{
    if at > 0 {
        let rest = attempts.drop_first();
        assert(attempts[0].1 is None);
        assert forall|i: int| 0 <= i < at - 1 implies (#[trigger] rest[i]).1 is None by {
            assert(rest[i] == attempts[i + 1]);
        }
        lemma_first_failure_at(rest, at - 1);
    }
}

/// With a known active slot the first container that cannot be mapped is the
/// end of it, with its own error.
pub proof fn lemma_known_slot_takes_no_failure(
    part: Seq<char>,
    active: Slot,
    attempts: Seq<(Seq<char>, Option<error::ErrorView>)>,
    at: int,
)
    requires
        0 <= at < attempts.len(),
        attempts[at].1 is Some,
        forall|i: int| 0 <= i < at ==> (#[trigger] attempts[i]).1 is None,
    ensures
        mapping_result(part, Some(active), attempts) == Err::<Seq<Seq<char>>, error::ErrorView>(
            attempts[at].1.unwrap(),
        ),
{
    lemma_first_failure_at(attempts, at);
}

/// Where every container was mapped, all of them are the result, in order,
/// whatever the slot.
pub proof fn lemma_mapped_containers_are_the_result(
    part: Seq<char>,
    active_slot: Option<Slot>,
    attempts: Seq<(Seq<char>, Option<error::ErrorView>)>,
)
    requires
        attempts.len() > 0,
        forall|i: int| 0 <= i < attempts.len() ==> (#[trigger] attempts[i]).1 is None,
    ensures
        mapping_result(part, active_slot, attempts) == Ok::<Seq<Seq<char>>, error::ErrorView>(
            Seq::new(attempts.len(), |i: int| attempts[i].0),
        ),
{
    lemma_failures(attempts);
    lemma_all_mapped(attempts);
}

proof fn lemma_all_mapped(attempts: Seq<(Seq<char>, Option<error::ErrorView>)>)
    requires
        forall|i: int| 0 <= i < attempts.len() ==> (#[trigger] attempts[i]).1 is None,
    ensures
        mapped_paths(attempts) == Seq::new(attempts.len(), |i: int| attempts[i].0),
    decreases attempts.len(),
{
    if attempts.len() > 0 {
        let front = attempts.drop_last();
        assert forall|i: int| 0 <= i < front.len() implies (#[trigger] front[i]).1 is None by {
            assert(front[i] == attempts[i]);
        }
        lemma_all_mapped(front);
        assert(attempts[attempts.len() - 1].1 is None);
        assert(mapped_paths(attempts) =~= Seq::new(attempts.len(), |i: int| attempts[i].0));
    } else {
        assert(mapped_paths(attempts) =~= Seq::new(attempts.len(), |i: int| attempts[i].0));
    }
}

/// With an unknown slot one more container that is mapped is a success,
/// whatever came before, and adds that container; one more that fails takes
/// nothing from a success and is otherwise the error.
pub proof fn lemma_unknown_slot_takes_any_success(
    part: Seq<char>,
    attempts: Seq<(Seq<char>, Option<error::ErrorView>)>,
    path: Seq<char>,
    error: error::ErrorView,
)
    ensures
        mapping_result(part, None, attempts.push((path, None))) == Ok::<
            Seq<Seq<char>>,
            error::ErrorView,
        >(
            (match mapping_result(part, None, attempts) {
                Ok(mapped) => mapped,
                Err(_) => Seq::empty(),
            }).push(path),
        ),
        mapping_result(part, None, attempts.push((path, Some(error)))) == (match mapping_result(
            part,
            None,
            attempts,
        ) {
            Ok(mapped) => Ok::<Seq<Seq<char>>, error::ErrorView>(mapped),
            Err(_) => Err(error),
        }),
        mapping_result(part, None, Seq::empty()) == Err::<Seq<Seq<char>>, error::ErrorView>(
            error::ErrorView {
                kind: ErrorKind::Other,
                message: "Failed to map dynamic partition container "@ + part,
            },
        ),
{
    lemma_mapped_containers_add_up(attempts, path, error);
    assert(mapped_paths(attempts).len() == 0 ==> mapped_paths(attempts) =~= Seq::empty());
    assert(attempts.push((path, Some(error))).drop_last() =~= attempts);
}

/// The paths that are looked up for a partition below two roots, in their
/// order: with a known slot its own name and the plain one, with an unknown
/// one the plain name and then both slots.
pub proof fn lemma_lookups_below_two_roots(
    part: Seq<char>,
    active: Slot,
    first: Seq<char>,
    second: Seq<char>,
)
    ensures
        ({
            let suffixed = part + (match active {
                Slot::A => seq!['_', 'a'],
                Slot::B => seq!['_', 'b'],
            });
            let of_a = part + seq!['_', 'a'];
            let of_b = part + seq!['_', 'b'];
            &&& lookups(partition_names(part, Some(active)), seq![first, second]) == seq![
                path::join(first, suffixed),
                path::join(second, suffixed),
                path::join(first, part),
                path::join(second, part),
            ]
            &&& lookups(partition_names(part, Some(active)), seq![first]) == seq![
                path::join(first, suffixed),
                path::join(first, part),
            ]
            &&& lookups(partition_names(part, None), seq![first, second]) == seq![
                path::join(first, part),
                path::join(second, part),
                path::join(first, of_a),
                path::join(second, of_a),
                path::join(first, of_b),
                path::join(second, of_b),
            ]
            &&& lookups(partition_names(part, None), seq![first]) == seq![
                path::join(first, part),
                path::join(first, of_a),
                path::join(first, of_b),
            ]
        }),
{
    reveal_strlit("_a");
    reveal_strlit("_b");
    let suffix = match active {
        Slot::A => seq!['_', 'a'],
        Slot::B => seq!['_', 'b'],
    };
    assert(slot::slot_suffix(active) =~= suffix);
    assert("_a"@ =~= seq!['_', 'a'] && "_b"@ =~= seq!['_', 'b']);
    let none = Seq::<Seq<char>>::empty();
    let of_a = part + seq!['_', 'a'];
    let of_b = part + seq!['_', 'b'];
    let both = seq![part + suffix, part];
    let all = seq![part, of_a, of_b];
    assert(both.drop_last() =~= seq![part + suffix]);
    assert(all.drop_last() =~= seq![part, of_a]);
    assert(seq![part, of_a].drop_last() =~= seq![part]);
    assert forall|name: Seq<char>| #[trigger] seq![name].drop_last() == none by {
        assert(seq![name].drop_last() =~= none);
    }
    let two = seq![first, second];
    let one = seq![first];
    assert forall|name: Seq<char>| #[trigger] in_roots(name, two) == seq![
        path::join(first, name),
        path::join(second, name),
    ] by {
        assert(in_roots(name, two) =~= seq![path::join(first, name), path::join(second, name)]);
    }
    assert forall|name: Seq<char>| #[trigger] in_roots(name, one) == seq![
        path::join(first, name),
    ] by {
        assert(in_roots(name, one) =~= seq![path::join(first, name)]);
    }
    reveal_with_fuel(lookups, 4);
    assert(lookups(both, two) =~= seq![
        path::join(first, part + suffix),
        path::join(second, part + suffix),
        path::join(first, part),
        path::join(second, part),
    ]);
    assert(lookups(both, one) =~= seq![path::join(first, part + suffix), path::join(first, part)]);
    assert(lookups(all, two) =~= seq![
        path::join(first, part),
        path::join(second, part),
        path::join(first, of_a),
        path::join(second, of_a),
        path::join(first, of_b),
        path::join(second, of_b),
    ]);
    assert(lookups(all, one) =~= seq![
        path::join(first, part),
        path::join(first, of_a),
        path::join(first, of_b),
    ]);
}

} // verus!
