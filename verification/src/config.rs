//! Device configurations: what is extracted from which partition, and where
//! it lands.

use vstd::prelude::*;

use crate::error;
use crate::error::{Error, ErrorKind};
use crate::kernel;
use crate::kernel::{constraint_matches, KernelVersion};
use crate::path;
use crate::path::{file_name_of, join_path, normalize_path, set_extension};
use crate::slot;
use crate::text;
use crate::text::{chars_of, has_suffix, same_text};
use indexmap::IndexMap;
use vstd::string::*;

verus! {

/// `indexmap::IndexMap`, a hash map that keeps its pairs in the order of
/// insertion.
#[verifier::external_type_specification]
#[verifier::external_body]
#[verifier::reject_recursive_types(K)]
#[verifier::reject_recursive_types(V)]
#[verifier::reject_recursive_types(S)]
pub struct ExIndexMap<K, V, S>(IndexMap<K, V, S>);

/// The pairs that an index map holds, in its order.
pub uninterp spec fn pairs_of(map: IndexMap<String, String>) -> Seq<(Seq<char>, Seq<char>)>;

/// `IndexMap::iter` hands out each pair of the map once, in the order of the
/// map; the pairs are copied into a vector.
#[verifier::external_body]
fn pairs_in_order(map: &IndexMap<String, String>) -> (pairs: Vec<(String, String)>)
    ensures
        pairs.deep_view() == pairs_of(*map),
{
    map.iter().map(|(key, value)| (key.clone(), value.clone())).collect()
}

/// A file or directory to copy: either a bare path, or a mapping that renames
/// the copy or marks it as required.
#[derive(Debug)]
pub enum Item {
    Path(String),
    Spec { from: String, to: Option<String>, required: bool },
}

/// What an item says in either form.
pub struct ItemView {
    pub from: Seq<char>,
    pub to: Option<Seq<char>>,
    pub required: bool,
}

impl DeepView for Item {
    type V = ItemView;

    open spec fn deep_view(&self) -> ItemView {
        match self {
            Item::Path(from) => ItemView { from: from@, to: None, required: false },
            Item::Spec { from, to, required } => ItemView {
                from: from@,
                to: to.deep_view(),
                required: *required,
            },
        }
    }
}

/// Whether an item is listed as a file or as a directory.
#[derive(Clone, Copy, Debug, PartialEq, Eq, Structural)]
pub enum ItemKind {
    File,
    Dir,
}

/// A destination: a fixed path, or paths by kernel constraint of which the
/// first that the running kernel meets counts.
#[derive(Debug)]
pub enum Dest {
    Fixed(String),
    ByKernel(IndexMap<String, String>),
}

/// A destination with its pairs of constraint and path in order.
pub enum DestView {
    Fixed(Seq<char>),
    ByKernel(Seq<(Seq<char>, Seq<char>)>),
}

impl DeepView for Dest {
    type V = DestView;

    open spec fn deep_view(&self) -> DestView {
        match self {
            Dest::Fixed(path) => DestView::Fixed(path@),
            Dest::ByKernel(map) => DestView::ByKernel(pairs_of(*map)),
        }
    }
}

/// What is extracted from one partition.
#[derive(Debug)]
pub struct Entry {
    pub partition: String,
    pub from: Option<String>,
    pub to: Dest,
    pub raw: bool,
    pub files: Vec<Item>,
    pub dirs: Vec<Item>,
}

/// An entry as a mathematical value.
pub struct EntryView {
    pub partition: Seq<char>,
    pub from: Option<Seq<char>>,
    pub to: DestView,
    pub raw: bool,
    pub files: Seq<ItemView>,
    pub dirs: Seq<ItemView>,
}

impl DeepView for Entry {
    type V = EntryView;

    open spec fn deep_view(&self) -> EntryView {
        EntryView {
            partition: self.partition@,
            from: self.from.deep_view(),
            to: self.to.deep_view(),
            raw: self.raw,
            files: self.files.deep_view(),
            dirs: self.dirs.deep_view(),
        }
    }
}

/// The configuration of a device.
#[derive(Debug)]
pub struct Config {
    pub dynpart: Option<String>,
    pub extract: Vec<Entry>,
}

/// A configuration as a mathematical value.
pub struct ConfigView {
    pub dynpart: Option<Seq<char>>,
    pub extract: Seq<EntryView>,
}

impl DeepView for Config {
    type V = ConfigView;

    open spec fn deep_view(&self) -> ConfigView {
        ConfigView { dynpart: self.dynpart.deep_view(), extract: self.extract.deep_view() }
    }
}

/// A raw entry dumps the partition as it is and carries nothing to copy.
pub open spec fn entry_validity(entry: EntryView) -> Result<(), error::ErrorView> {
    if entry.raw && (entry.from is Some || entry.files.len() > 0 || entry.dirs.len() > 0) {
        Err(
            slot::invalid_data(
                "raw entry on partition "@ + entry.partition
                    + " must not set from, files or dirs"@,
            ),
        )
    } else {
        Ok(())
    }
}

/// The path of the first pair whose constraint the running kernel meets.
pub open spec fn first_match(
    pairs: Seq<(Seq<char>, Seq<char>)>,
    running: KernelVersion,
) -> Option<Seq<char>>
    decreases pairs.len(),
{
    if pairs.len() == 0 {
        None
    } else if kernel::matches_constraint(running, pairs.first().0) {
        Some(pairs.first().1)
    } else {
        first_match(pairs.drop_first(), running)
    }
}

/// The path of the first pair whose constraint is the catch-all.
pub open spec fn first_catch_all(pairs: Seq<(Seq<char>, Seq<char>)>) -> Option<Seq<char>>
    decreases pairs.len(),
{
    if pairs.len() == 0 {
        None
    } else if pairs.first().0 == "*"@ {
        Some(pairs.first().1)
    } else {
        first_catch_all(pairs.drop_first())
    }
}

/// The destination of an entry on the running kernel, if it has one. Of a
/// kernel whose version is unknown only the catch-all is known to match.
pub open spec fn resolved(dest: DestView, running: Option<KernelVersion>) -> Option<Seq<char>> {
    match dest {
        DestView::Fixed(path) => Some(path),
        DestView::ByKernel(pairs) => match running {
            Some(version) => first_match(pairs, version),
            None => first_catch_all(pairs),
        },
    }
}

/// Where a destination lies: a relative one below the extract path, an
/// absolute one where it says.
pub open spec fn placed(to: Seq<char>, extract_path: Seq<char>) -> Seq<char> {
    path::normalized(path::join(extract_path, to))
}

/// Whether an item is an MDT image, which is squashed when it is copied.
pub open spec fn is_mdt(item: ItemView) -> bool {
    text::ends_with(item.from, ".mdt"@)
}

/// The name that an item is given below its destination.
pub open spec fn item_name(item: ItemView) -> Seq<char> {
    match item.to {
        Some(to) => to,
        None => match path::file_name(item.from) {
            Some(name) => name,
            None => item.from,
        },
    }
}

/// Where an item lands.
pub open spec fn item_path(dest_dir: Seq<char>, item: ItemView, kind: ItemKind) -> Seq<char> {
    let whole = path::join(dest_dir, item_name(item));
    if kind == ItemKind::File && is_mdt(item) {
        path::with_extension(whole, "mbn"@)
    } else {
        whole
    }
}

impl Item {
    /// The path of the item below the source directory.
    pub fn from(&self) -> (from: &str)
        ensures
            from@ == self.deep_view().from,
    {
        match self {
            Item::Path(from) => from.as_str(),
            Item::Spec { from, .. } => from.as_str(),
        }
    }

    /// The name the copy is given, if it is renamed.
    pub fn to(&self) -> (to: Option<&str>)
        ensures
            to.deep_view() == self.deep_view().to,
    {
        match self {
            Item::Path(_) => None,
            Item::Spec { to, .. } => match to {
                Some(name) => Some(name.as_str()),
                None => None,
            },
        }
    }

    /// Whether the extraction fails without this item.
    pub fn required(&self) -> (required: bool)
        ensures
            required == self.deep_view().required,
    {
        match self {
            Item::Path(_) => false,
            Item::Spec { required, .. } => *required,
        }
    }

    /// Whether the item is an MDT image.
    pub fn is_mdt_image(&self) -> (yes: bool)
        ensures
            yes == is_mdt(self.deep_view()),
    {
        has_suffix(&chars_of(self.from()), &chars_of(".mdt"))
    }
}

impl Entry {
    /// Rejects a raw entry that carries anything to copy.
    pub fn validate(&self) -> (valid: Result<(), Error>)
        ensures
            error::result_view(valid) == entry_validity(self.deep_view()),
    {
        if !self.raw {
            return Ok(());
        }
        if self.from.is_some() || self.files.len() > 0 || self.dirs.len() > 0 {
            let mut message = "raw entry on partition ".to_string();
            message.append(self.partition.as_str());
            message.append(" must not set from, files or dirs");
            return Err(Error::new(ErrorKind::InvalidData, message));
        }
        Ok(())
    }
}

impl Config {
    /// The name of the dynamic partition container, if there is one.
    pub fn dynpart(&self) -> (name: Option<&str>)
        ensures
            name.deep_view() == self.deep_view().dynpart,
    {
        match &self.dynpart {
            Some(name) => Some(name.as_str()),
            None => None,
        }
    }
}

/// Finds the first pair whose constraint the running kernel meets.
pub fn first_matching_destination(
    pairs: &Vec<(String, String)>,
    running: KernelVersion,
) -> (destination: Option<String>)
    ensures
        destination.deep_view() == first_match(pairs.deep_view(), running),
{
    let ghost all = pairs.deep_view();
    assert(all.skip(0) =~= all);
    for i in 0..pairs.len()
        invariant
            all == pairs.deep_view(),
            first_match(all, running) == first_match(all.skip(i as int), running),
    {
        assert(all[i as int] == (pairs[i as int].0@, pairs[i as int].1@));
        assert(all.skip(i as int).drop_first() =~= all.skip(i + 1));
        if constraint_matches(running, pairs[i].0.as_str()) {
            return Some(pairs[i].1.clone());
        }
    }
    None
}

/// Finds the first pair whose constraint is the catch-all.
pub fn catch_all_destination(pairs: &Vec<(String, String)>) -> (destination: Option<String>)
    ensures
        destination.deep_view() == first_catch_all(pairs.deep_view()),
{
    let ghost all = pairs.deep_view();
    assert(all.skip(0) =~= all);
    for i in 0..pairs.len()
        invariant
            all == pairs.deep_view(),
            first_catch_all(all) == first_catch_all(all.skip(i as int)),
    {
        assert(all[i as int] == (pairs[i as int].0@, pairs[i as int].1@));
        assert(all.skip(i as int).drop_first() =~= all.skip(i + 1));
        if same_text(pairs[i].0.as_str(), "*") {
            return Some(pairs[i].1.clone());
        }
    }
    None
}

/// Resolves the destination of an entry for the running kernel; without one
/// the entry is skipped.
pub fn resolve_destination(
    dest: &Dest,
    running_kernel: Option<KernelVersion>,
    _partition: &str,
) -> (destination: Option<String>)
    ensures
        destination.deep_view() == resolved(dest.deep_view(), running_kernel),
{
    match dest {
        Dest::Fixed(path) => Some(path.clone()),
        Dest::ByKernel(map) => match running_kernel {
            None => catch_all_destination(&pairs_in_order(map)),
            Some(running) => first_matching_destination(&pairs_in_order(map), running),
        },
    }
}

/// Places a destination below the extract path, unless it is absolute.
pub fn destination_path(to: &str, extract_path: &str) -> (destination: String)
    ensures
        destination@ == placed(to@, extract_path@),
{
    normalize_path(join_path(extract_path, to).as_str())
}

/// Places an item below its destination directory.
pub fn item_destination(dest_dir: &str, item: &Item, kind: ItemKind) -> (destination: String)
    ensures
        destination@ == item_path(dest_dir@, item.deep_view(), kind),
{
    let destination = match item.to() {
        Some(to) => join_path(dest_dir, to),
        None => match file_name_of(item.from()) {
            Some(name) => join_path(dest_dir, name.as_str()),
            None => join_path(dest_dir, item.from()),
        },
    };
    if kind == ItemKind::File && item.is_mdt_image() {
        proof {
            reveal_strlit("mbn");
        }
        set_extension(destination.as_str(), "mbn")
    } else {
        destination
    }
}

/// A configuration and the device-tree compatible it was found under.
#[derive(Debug)]
pub struct BundledConfig {
    pub compatible: String,
    pub config: Config,
}

/// The place of a compatible in a bundle of configurations.
pub open spec fn bundled_at<E>(
    compatible: Seq<char>,
    bundle: Seq<(String, Result<Config, E>)>,
) -> Option<int>
    decreases bundle.len(),
{
    if bundle.len() == 0 {
        None
    } else if bundle.first().0@ == compatible {
        Some(0)
    } else {
        match bundled_at(compatible, bundle.drop_first()) {
            Some(at) => Some(at + 1),
            None => None,
        }
    }
}

/// The place in the bundle of the first compatible that is in it.
pub open spec fn bundled_choice<E>(
    compatibles: Seq<Seq<char>>,
    bundle: Seq<(String, Result<Config, E>)>,
) -> Option<int>
    decreases compatibles.len(),
{
    if compatibles.len() == 0 {
        None
    } else {
        match bundled_at(compatibles.first(), bundle) {
            Some(at) => Some(at),
            None => bundled_choice(compatibles.drop_first(), bundle),
        }
    }
}

/// What is selected from a bundle: the first compatible that the bundle holds
/// decides, and if its configuration could not be read, that is the result.
pub open spec fn selection<E>(
    compatibles: Seq<Seq<char>>,
    bundle: Seq<(String, Result<Config, E>)>,
) -> Result<Option<(Seq<char>, Config)>, E> {
    match bundled_choice(compatibles, bundle) {
        None => Ok(None),
        Some(at) => match bundle[at].1 {
            Ok(config) => Ok(Some((bundle[at].0@, config))),
            Err(error) => Err(error),
        },
    }
}

/// A selection with its compatible as a sequence of characters.
pub open spec fn selection_view<E>(selected: Result<Option<BundledConfig>, E>) -> Result<
    Option<(Seq<char>, Config)>,
    E,
> {
    match selected {
        Ok(Some(found)) => Ok(Some((found.compatible@, found.config))),
        Ok(None) => Ok(None),
        Err(error) => Err(error),
    }
}

/// Finds a compatible in a bundle.
fn find_bundled<E>(compatible: &str, bundle: &Vec<(String, Result<Config, E>)>) -> (at: Option<
    usize,
>)
    ensures
        match at {
            Some(i) => i < bundle@.len() && bundled_at(compatible@, bundle@) == Some(i as int),
            None => bundled_at(compatible@, bundle@) is None,
        },
{
    assert(bundle@.skip(0) =~= bundle@);
    for i in 0..bundle.len()
        invariant
            bundled_at(compatible@, bundle@) == (match bundled_at(
                compatible@,
                bundle@.skip(i as int),
            ) {
                Some(at) => Some(at + i),
                None => None,
            }),
    {
        assert(bundle@.skip(i as int).drop_first() =~= bundle@.skip(i + 1));
        if same_text(bundle[i].0.as_str(), compatible) {
            return Some(i);
        }
    }
    None
}

/// Selects a configuration from a bundle in the order of the compatibles: the
/// first compatible that the bundle holds decides, and if its configuration
/// could not be read, that is the result.
pub fn bundled_config<E>(
    compatibles: &Vec<String>,
    bundle: Vec<(String, Result<Config, E>)>,
) -> (selected: Result<Option<BundledConfig>, E>)
    ensures
        selection_view(selected) == selection(compatibles.deep_view(), bundle@),
{
    let ghost all = compatibles.deep_view();
    let mut rest = bundle;
    assert(all.skip(0) =~= all);
    for i in 0..compatibles.len()
        invariant
            all == compatibles.deep_view(),
            rest == bundle,
            bundled_choice(all, bundle@) == bundled_choice(all.skip(i as int), bundle@),
    {
        assert(all[i as int] == compatibles[i as int]@);
        assert(all.skip(i as int).drop_first() =~= all.skip(i + 1));
        if let Some(at) = find_bundled(compatibles[i].as_str(), &rest) {
            let (compatible, parsed) = rest.swap_remove(at);
            return match parsed {
                Ok(config) => Ok(Some(BundledConfig { compatible, config })),
                Err(error) => Err(error),
            };
        }
    }
    Ok(None)
}

/// The compatibles of the devices that have a bundled configuration.
pub open spec fn supported() -> Seq<Seq<char>> {
    seq![
        "fairphone,fp4"@,
        "fairphone,fp5"@,
        "google,blueline"@,
        "google,bonito-sdc"@,
        "google,crosshatch"@,
        "google,sargo"@,
        "google,sunfish"@,
        "nothing,spacewar"@,
        "oneplus,enchilada"@,
        "oneplus,fajita"@,
        "pine64,pinenote"@,
        "samsung,starqltechn"@,
        "shift,axolotl"@,
        "shift,otter"@,
        "xiaomi,beryllium"@,
        "xiaomi,beryllium-ebbg"@,
        "xiaomi,davinci"@,
        "xiaomi,polaris"@,
    ]
}

/// Lists the compatibles of the devices that have a bundled configuration.
pub fn bundled_compatibles() -> (compatibles: Vec<&'static str>)
    ensures
        compatibles.deep_view() == supported(),
{
    let compatibles = vec![
        "fairphone,fp4",
        "fairphone,fp5",
        "google,blueline",
        "google,bonito-sdc",
        "google,crosshatch",
        "google,sargo",
        "google,sunfish",
        "nothing,spacewar",
        "oneplus,enchilada",
        "oneplus,fajita",
        "pine64,pinenote",
        "samsung,starqltechn",
        "shift,axolotl",
        "shift,otter",
        "xiaomi,beryllium",
        "xiaomi,beryllium-ebbg",
        "xiaomi,davinci",
        "xiaomi,polaris",
    ];
    assert(compatibles.deep_view() =~= supported());
    compatibles
}

/// A compatible that the bundle does not hold never decides: the selection is
/// the one without it.
pub proof fn lemma_unknown_compatible_is_passed_over<E>(
    compatibles: Seq<Seq<char>>,
    bundle: Seq<(String, Result<Config, E>)>,
    at: int,
)
    requires
        0 <= at < compatibles.len(),
        bundled_at(compatibles[at], bundle) is None,
    ensures
        bundled_choice(compatibles, bundle) == bundled_choice(compatibles.remove(at), bundle),
    decreases compatibles.len(),
{
    let rest = compatibles.remove(at);
    if at == 0 {
        assert(rest =~= compatibles.drop_first());
    } else {
        lemma_unknown_compatible_is_passed_over(compatibles.drop_first(), bundle, at - 1);
        assert(rest.first() == compatibles.first());
        assert(rest.drop_first() =~= compatibles.drop_first().remove(at - 1));
    }
}

/// The configuration that is selected is filed under the first of the
/// compatibles that the bundle knows.
pub proof fn lemma_first_known_compatible_decides<E>(
    compatibles: Seq<Seq<char>>,
    bundle: Seq<(String, Result<Config, E>)>,
    first: int,
)
    requires
        0 <= first < compatibles.len(),
        bundled_at(compatibles[first], bundle) is Some,
        forall|i: int| 0 <= i < first ==> bundled_at(#[trigger] compatibles[i], bundle) is None,
    ensures
        bundled_choice(compatibles, bundle) == bundled_at(compatibles[first], bundle),
        bundled_choice(compatibles, bundle) matches Some(at) && 0 <= at < bundle.len()
            && bundle[at].0@ == compatibles[first],
    decreases compatibles.len(),
{
    lemma_bundled_at(compatibles[first], bundle);
    if first > 0 {
        let rest = compatibles.drop_first();
        assert(bundled_at(compatibles[0], bundle) is None);
        assert forall|i: int| 0 <= i < first - 1 implies bundled_at(
            #[trigger] rest[i],
            bundle,
        ) is None by {
            assert(rest[i] == compatibles[i + 1]);
        }
        lemma_first_known_compatible_decides(rest, bundle, first - 1);
    }
}

/// The order of the compatibles decides: whatever is unknown before a known
/// compatible and whatever stands behind it makes no difference, and where all
/// are unknown nothing is selected. Where every configuration of the bundle
/// could be read, the selection does not fail.
pub proof fn lemma_order_of_compatibles_decides<E>(
    unknown: Seq<Seq<char>>,
    known: Seq<char>,
    rest: Seq<Seq<char>>,
    bundle: Seq<(String, Result<Config, E>)>,
)
    requires
        forall|i: int|
            0 <= i < unknown.len() ==> bundled_at(#[trigger] unknown[i], bundle) is None,
        bundled_at(known, bundle) is Some,
    ensures
        selection(unknown, bundle) == Ok::<Option<(Seq<char>, Config)>, E>(None),
        selection(unknown + seq![known] + rest, bundle) == selection(seq![known], bundle),
        (forall|i: int| 0 <= i < bundle.len() ==> (#[trigger] bundle[i]).1 is Ok) ==> (selection(
            seq![known],
            bundle,
        ) matches Ok(Some(found)) && found.0 == known),
{
    lemma_choice_passes_over_unknown(unknown, known, rest, bundle);
    lemma_bundled_at(known, bundle);
}

/// Unknown compatibles are passed over, and those behind a known one do not
/// matter.
proof fn lemma_choice_passes_over_unknown<E>(
    unknown: Seq<Seq<char>>,
    known: Seq<char>,
    rest: Seq<Seq<char>>,
    bundle: Seq<(String, Result<Config, E>)>,
)
    requires
        forall|i: int|
            0 <= i < unknown.len() ==> bundled_at(#[trigger] unknown[i], bundle) is None,
        bundled_at(known, bundle) is Some,
    ensures
        bundled_choice(unknown, bundle) is None,
        bundled_choice(unknown + seq![known] + rest, bundle) == bundled_choice(
            seq![known],
            bundle,
        ),
        bundled_choice(seq![known], bundle) == bundled_at(known, bundle),
    decreases unknown.len(),
{
    let all = unknown + seq![known] + rest;
    if unknown.len() == 0 {
        assert(all.first() == known);
    } else {
        let fewer = unknown.drop_first();
        assert(bundled_at(unknown[0], bundle) is None);
        assert forall|i: int| 0 <= i < fewer.len() implies bundled_at(
            #[trigger] fewer[i],
            bundle,
        ) is None by {
            assert(fewer[i] == unknown[i + 1]);
        }
        lemma_choice_passes_over_unknown(fewer, known, rest, bundle);
        assert(all.first() == unknown[0]);
        assert(all.drop_first() =~= fewer + seq![known] + rest);
    }
}

/// The order of the bundle does not matter: where each compatible stands in it
/// once, a compatible is found wherever it stands.
pub proof fn lemma_order_of_the_bundle_does_not_matter<E>(
    bundle: Seq<(String, Result<Config, E>)>,
    at: int,
)
    requires
        0 <= at < bundle.len(),
        forall|i: int, j: int|
            0 <= i < j < bundle.len() ==> (#[trigger] bundle[i]).0@ != (#[trigger] bundle[j]).0@,
    ensures
        bundled_at(bundle[at].0@, bundle) == Some(at),
    decreases bundle.len(),
{
    if at > 0 {
        let rest = bundle.drop_first();
        assert(bundle[0].0@ != bundle[at].0@);
        assert forall|i: int, j: int| 0 <= i < j < rest.len() implies (#[trigger] rest[i]).0@ != (
        #[trigger] rest[j]).0@ by {
            assert(rest[i] == bundle[i + 1] && rest[j] == bundle[j + 1]);
        }
        lemma_order_of_the_bundle_does_not_matter(rest, at - 1);
    }
}

/// A compatible is found where it stands in the bundle.
proof fn lemma_bundled_at<E>(compatible: Seq<char>, bundle: Seq<(String, Result<Config, E>)>)
    ensures
        bundled_at(compatible, bundle) matches Some(at) ==> 0 <= at < bundle.len()
            && bundle[at].0@ == compatible,
    decreases bundle.len(),
{
    if bundle.len() > 0 && bundle.first().0@ != compatible {
        lemma_bundled_at(compatible, bundle.drop_first());
    }
}

/// Of the constraints that the running kernel meets, the first in document
/// order gives the destination.
pub proof fn lemma_first_match_wins(
    pairs: Seq<(Seq<char>, Seq<char>)>,
    running: KernelVersion,
    first: int,
)
    requires
        0 <= first < pairs.len(),
        kernel::matches_constraint(running, pairs[first].0),
        forall|i: int|
            0 <= i < first ==> !kernel::matches_constraint(running, #[trigger] pairs[i].0),
    ensures
        resolved(DestView::ByKernel(pairs), Some(running)) == Some(pairs[first].1),
    decreases pairs.len(),
{
    if first > 0 {
        let rest = pairs.drop_first();
        assert(!kernel::matches_constraint(running, pairs[0].0));
        assert forall|i: int| 0 <= i < first - 1 implies !kernel::matches_constraint(
            running,
            #[trigger] rest[i].0,
        ) by {
            assert(rest[i] == pairs[i + 1]);
        }
        lemma_first_match_wins(rest, running, first - 1);
    }
}

/// Where the running kernel meets no constraint, the entry is skipped.
pub proof fn lemma_no_match_skips(pairs: Seq<(Seq<char>, Seq<char>)>, running: KernelVersion)
    requires
        forall|i: int|
            0 <= i < pairs.len() ==> !kernel::matches_constraint(running, #[trigger] pairs[i].0),
    ensures
        resolved(DestView::ByKernel(pairs), Some(running)) is None,
    decreases pairs.len(),
{
    if pairs.len() > 0 {
        let rest = pairs.drop_first();
        assert(!kernel::matches_constraint(running, pairs[0].0));
        assert forall|i: int| 0 <= i < rest.len() implies !kernel::matches_constraint(
            running,
            #[trigger] rest[i].0,
        ) by {
            assert(rest[i] == pairs[i + 1]);
        }
        lemma_no_match_skips(rest, running);
    }
}

/// With a catch-all among its constraints, an entry has a destination on every
/// kernel, also on one whose version is unknown.
pub proof fn lemma_catch_all_always_resolves(
    pairs: Seq<(Seq<char>, Seq<char>)>,
    running: Option<KernelVersion>,
    at: int,
)
    requires
        0 <= at < pairs.len(),
        pairs[at].0 == "*"@,
    ensures
        resolved(DestView::ByKernel(pairs), running) is Some,
    decreases pairs.len(),
{
    if at > 0 {
        lemma_catch_all_always_resolves(pairs.drop_first(), running, at - 1);
    }
}

/// On a kernel whose version is unknown an entry has the destination of its
/// first catch-all, and without one it is skipped.
pub proof fn lemma_unknown_kernel_takes_the_catch_all(
    pairs: Seq<(Seq<char>, Seq<char>)>,
    first: int,
)
    requires
        0 <= first <= pairs.len(),
        forall|i: int| 0 <= i < first ==> (#[trigger] pairs[i]).0 != "*"@,
        first < pairs.len() ==> pairs[first].0 == "*"@,
    ensures
        resolved(DestView::ByKernel(pairs), None) == (if first < pairs.len() {
            Some(pairs[first].1)
        } else {
            None
        }),
    decreases pairs.len(),
{
    if first > 0 {
        let rest = pairs.drop_first();
        assert(pairs[0].0 != "*"@);
        assert forall|i: int| 0 <= i < first - 1 implies (#[trigger] rest[i]).0 != "*"@ by {
            assert(rest[i] == pairs[i + 1]);
        }
        lemma_unknown_kernel_takes_the_catch_all(rest, first - 1);
    }
}

/// An absolute destination is the same under every extract path.
pub proof fn lemma_absolute_destination_stands(
    to: Seq<char>,
    extract_path: Seq<char>,
    other: Seq<char>,
)
    requires
        path::is_absolute(to),
    ensures
        placed(to, extract_path) == placed(to, other),
        placed(to, extract_path) == path::normalized(to),
{
}

/// `.` stands for the extract path itself.
pub proof fn lemma_dot_is_the_extract_path(extract_path: Seq<char>)
    requires
        extract_path.len() > 0,
    ensures
        placed("."@, extract_path) == path::normalized(extract_path),
{
    reveal_strlit(".");
    assert("."@ =~= path::dot());
    path::lemma_dot_is_the_base(extract_path);
}

/// Whatever an MDT file is renamed to, it lands as an MBN file.
pub proof fn lemma_mdt_lands_as_mbn(dest_dir: Seq<char>, item: ItemView)
    requires
        is_mdt(item),
        path::file_name(path::join(dest_dir, item_name(item))) is Some,
    ensures
        text::ends_with(item_path(dest_dir, item, ItemKind::File), ".mbn"@),
{
    reveal_strlit("mbn");
    reveal_strlit(".mbn");
    let whole = path::join(dest_dir, item_name(item));
    let landed = item_path(dest_dir, item, ItemKind::File);
    let name = path::file_name(whole)->0;
    let body = path::without_trailing(whole);
    let kept = body.take(body.len() - name.len() + path::stem_len(name));
    assert(landed == kept.push('.') + "mbn"@);
    assert(landed.skip(landed.len() - 4) =~= ".mbn"@);
}

/// Nothing is renamed for its kind when a directory is copied.
pub proof fn lemma_directories_keep_their_name(dest_dir: Seq<char>, item: ItemView)
    ensures
        item_path(dest_dir, item, ItemKind::Dir) == path::join(dest_dir, item_name(item)),
{
}

/// A fixed destination is the destination on every kernel.
pub proof fn lemma_fixed_destination_resolves(path: Seq<char>, running: Option<KernelVersion>)
    ensures
        resolved(DestView::Fixed(path), running) == Some(path),
{
}

/// Only a raw entry can be invalid, and it is as soon as it carries anything:
/// a source directory, a file or a directory.
pub proof fn lemma_raw_entries_carry_nothing(entry: EntryView)
    ensures
        !entry.raw ==> entry_validity(entry) == Ok::<(), error::ErrorView>(()),
        entry.raw && entry.from is None && entry.files.len() == 0 && entry.dirs.len() == 0
            ==> entry_validity(entry) == Ok::<(), error::ErrorView>(()),
        entry.raw && (entry.from is Some || entry.files.len() > 0 || entry.dirs.len() > 0)
            ==> (entry_validity(entry) matches Err(error) && error.kind == ErrorKind::InvalidData
            && error.message == "raw entry on partition "@ + entry.partition
            + " must not set from, files or dirs"@),
{
}

/// A compatible is found in a bundle exactly where the bundle holds it.
pub proof fn lemma_bundles_are_searched_whole<E>(
    compatible: Seq<char>,
    bundle: Seq<(String, Result<Config, E>)>,
)
    ensures
        bundled_at(compatible, bundle) is Some <==> exists|i: int|
            0 <= i < bundle.len() && (#[trigger] bundle[i]).0@ == compatible,
    decreases bundle.len(),
{
    lemma_bundled_at(compatible, bundle);
    if bundle.len() > 0 {
        let rest = bundle.drop_first();
        lemma_bundles_are_searched_whole(compatible, rest);
        assert(bundle[0] == bundle.first());
        if exists|i: int| 0 <= i < bundle.len() && (#[trigger] bundle[i]).0@ == compatible {
            let i = choose|i: int| 0 <= i < bundle.len() && (#[trigger] bundle[i]).0@ == compatible;
            if i > 0 {
                assert(rest[i - 1].0@ == compatible);
            }
        }
    }
}

/// A relative destination lies below the extract path, component by component.
pub proof fn lemma_destinations_lie_below(
    extract_path: Seq<char>,
    directory: Seq<char>,
    name: Seq<char>,
)
    requires
        extract_path.len() > 0,
        directory.len() > 0,
        name.len() > 0,
        !name.contains('/'),
        name != seq!['.'],
    ensures
        extract_path.last() != '/' ==> placed(name, extract_path) == (if path::normalized(
            extract_path,
        ) == seq!['/'] {
            seq!['/'] + name
        } else {
            path::normalized(extract_path) + seq!['/'] + name
        }),
        placed(directory.push('/') + name, extract_path) == (if placed(directory, extract_path)
            == seq!['/'] {
            seq!['/'] + name
        } else {
            placed(directory, extract_path) + seq!['/'] + name
        }),
{
    assert(name.contains(name[0]));
    path::lemma_normalized_by_component(extract_path, name);
    assert(extract_path.push('/') + name =~= extract_path.push('/') + name);
    let whole = path::join(extract_path, directory);
    let longer = directory.push('/') + name;
    assert(longer.first() == directory.first());
    assert(path::join(extract_path, longer) =~= whole.push('/') + name);
    path::lemma_normalized_by_component(whole, name);
}

/// Where an item that is not squashed lands, as text.
pub open spec fn lands_at(dest_dir: Seq<char>, name: Seq<char>) -> Seq<char> {
    if dest_dir.len() == 0 || dest_dir.last() == '/' {
        dest_dir + name
    } else {
        dest_dir + seq!['/'] + name
    }
}

/// Where a file name that is relative to a destination lands with another
/// extension.
#[verifier::rlimit(40)]
proof fn lemma_lands_with_extension(
    dest_dir: Seq<char>,
    front: Seq<char>,
    stem: Seq<char>,
    old_extension: Seq<char>,
)
    requires
        front.len() == 0 || front.last() == '/' && front[0] != '/',
        stem.len() > 0,
        !stem.contains('/'),
        !old_extension.contains('/'),
        !old_extension.contains('.'),
        !(stem == seq!['.'] && old_extension.len() == 0),
    ensures
        path::with_extension(
            path::join(dest_dir, front + (stem.push('.') + old_extension)),
            "mbn"@,
        ) == lands_at(dest_dir, front + stem + seq!['.', 'm', 'b', 'n']),
        !stem.contains('.') ==> path::with_extension(path::join(dest_dir, front + stem), "mbn"@)
            == lands_at(dest_dir, front + stem + seq!['.', 'm', 'b', 'n']),
{
    reveal_strlit("mbn");
    assert("mbn"@ =~= seq!['m', 'b', 'n']);
    let base = lands_at(dest_dir, Seq::empty());
    let all = base + front;
    assert(all.len() == 0 || all.last() == '/');
    assert(stem.contains(stem[0]));
    let to = front + (stem.push('.') + old_extension);
    assert(to[0] != '/');
    assert(path::join(dest_dir, to) =~= all + (stem.push('.') + old_extension)) by {
        path::lemma_join_forms(dest_dir, to);
    }
    assert(path::with_extension(all + (stem.push('.') + old_extension), "mbn"@) == all + stem
        + seq!['.'] + "mbn"@) by {
        path::lemma_extensions_are_exchanged(all, stem, old_extension, "mbn"@);
    }
    assert(all + stem + seq!['.'] + "mbn"@ =~= lands_at(
        dest_dir,
        front + stem + seq!['.', 'm', 'b', 'n'],
    ));
    if !stem.contains('.') {
        assert((front + stem)[0] != '/');
        assert(path::join(dest_dir, front + stem) =~= all + stem) by {
            path::lemma_join_forms(dest_dir, front + stem);
        }
        path::lemma_extensions_are_added(all, stem, "mbn"@);
    }
}

/// A renamed item lands below its destination at the whole of `to`,
/// subdirectories included, or at `to` itself if that is absolute.
pub proof fn lemma_renamed_items_land_at_to(dest_dir: Seq<char>, item: ItemView, to: Seq<char>)
    requires
        item.to == Some(to),
    ensures
        to.len() > 0 && to[0] == '/' ==> {
            &&& item_path(dest_dir, item, ItemKind::Dir) == to
            &&& !is_mdt(item) ==> item_path(dest_dir, item, ItemKind::File) == to
        },
        to.len() == 0 || to[0] != '/' ==> {
            &&& item_path(dest_dir, item, ItemKind::Dir) == lands_at(dest_dir, to)
            &&& !is_mdt(item) ==> item_path(dest_dir, item, ItemKind::File) == lands_at(
                dest_dir,
                to,
            )
        },
{
    path::lemma_join_forms(dest_dir, to);
}

/// A renamed MDT file lands below its destination at the whole of `to`,
/// subdirectories included, with nothing changed but the extension.
pub proof fn lemma_renamed_mdt_files_land_at_to(
    dest_dir: Seq<char>,
    item: ItemView,
    front: Seq<char>,
    stem: Seq<char>,
    old_extension: Seq<char>,
)
    requires
        is_mdt(item),
        front.len() == 0 || front.last() == '/' && front[0] != '/',
        stem.len() > 0,
        !stem.contains('/'),
        !old_extension.contains('/'),
        !old_extension.contains('.'),
        !(stem == seq!['.'] && old_extension.len() == 0),
    ensures
        item.to == Some(front + (stem.push('.') + old_extension)) ==> item_path(
            dest_dir,
            item,
            ItemKind::File,
        ) == lands_at(dest_dir, front + stem + seq!['.', 'm', 'b', 'n']),
        item.to == Some(front + stem) && !stem.contains('.') ==> item_path(
            dest_dir,
            item,
            ItemKind::File,
        ) == lands_at(dest_dir, front + stem + seq!['.', 'm', 'b', 'n']),
{
    lemma_lands_with_extension(dest_dir, front, stem, old_extension);
}

/// An item that is not renamed lands below its destination under the last
/// component of its source, wherever on the partition that lies; an MDT file
/// under the same name with another extension.
pub proof fn lemma_items_keep_their_name(
    dest_dir: Seq<char>,
    item: ItemView,
    front: Seq<char>,
    name: Seq<char>,
    stem: Seq<char>,
)
    requires
        item.to is None,
        front.len() == 0 || front.last() == '/',
        item.from == front + name,
        name.len() > 0,
        !name.contains('/'),
        name != seq!['.'],
        name != seq!['.', '.'],
    ensures
        item_path(dest_dir, item, ItemKind::Dir) == lands_at(dest_dir, name),
        !is_mdt(item) ==> item_path(dest_dir, item, ItemKind::File) == lands_at(dest_dir, name),
        name == stem + seq!['.', 'm', 'd', 't'] && stem.len() > 0 ==> is_mdt(item) && item_path(
            dest_dir,
            item,
            ItemKind::File,
        ) == lands_at(dest_dir, stem + seq!['.', 'm', 'b', 'n']),
{
    assert(path::file_name(item.from) == Some(name)) by {
        path::lemma_file_name_forms(front, name);
    }
    assert(name.contains(name[0]));
    path::lemma_join_forms(dest_dir, name);
    if name == stem + seq!['.', 'm', 'd', 't'] && stem.len() > 0 {
        assert forall|i: int| 0 <= i < stem.len() implies stem[i] != '/' by {
            assert(name.contains(name[i]));
        }
        assert(item.from =~= (front + stem) + seq!['.', 'm', 'd', 't']);
        lemma_mdt_images_end_so(item, front + stem);
        let none = Seq::<char>::empty();
        let last = seq!['m', 'd', 't'];
        assert(!last.contains('/') && !last.contains('.'));
        lemma_lands_with_extension(dest_dir, none, stem, last);
        assert(none + (stem.push('.') + last) =~= name);
        assert(none + stem + seq!['.', 'm', 'b', 'n'] =~= stem + seq!['.', 'm', 'b', 'n']);
    }
}

/// An item is an MDT image exactly where its source ends in `.mdt`.
pub proof fn lemma_mdt_images_end_so(item: ItemView, front: Seq<char>)
    ensures
        item.from == front + seq!['.', 'm', 'd', 't'] ==> is_mdt(item),
        is_mdt(item) ==> item.from.len() >= 4 && item.from.skip(item.from.len() - 4) == seq![
            '.',
            'm',
            'd',
            't',
        ],
{
    reveal_strlit(".mdt");
    assert(".mdt"@ =~= seq!['.', 'm', 'd', 't']);
    text::lemma_edges(front, ".mdt"@, item.from);
}

/// A bare path is an item that is neither renamed nor required, and a mapping
/// says just what it says.
pub proof fn lemma_items_say_what_they_hold(
    from: String,
    to: Option<String>,
    required: bool,
)
    ensures
        Item::Path(from).deep_view().from == from@,
        Item::Path(from).deep_view().to is None,
        !Item::Path(from).deep_view().required,
        (Item::Spec { from, to, required }).deep_view().from == from@,
        (Item::Spec { from, to, required }).deep_view().to == to.deep_view(),
        (Item::Spec { from, to, required }).deep_view().required == required,
{
}

/// An MDT file that is renamed to an absolute path lands there, with nothing
/// changed but the extension, whatever the destination.
pub proof fn lemma_absolute_mdt_files_stand(
    dest_dir: Seq<char>,
    item: ItemView,
    front: Seq<char>,
    stem: Seq<char>,
    old_extension: Seq<char>,
)
    requires
        is_mdt(item),
        front.len() > 0,
        front[0] == '/',
        front.last() == '/',
        stem.len() > 0,
        !stem.contains('/'),
        !old_extension.contains('/'),
        !old_extension.contains('.'),
        !(stem == seq!['.'] && old_extension.len() == 0),
        item.to == Some(front + (stem.push('.') + old_extension)),
    ensures
        item_path(dest_dir, item, ItemKind::File) == front + stem + seq!['.', 'm', 'b', 'n'],
{
    reveal_strlit("mbn");
    assert("mbn"@ =~= seq!['m', 'b', 'n']);
    let to = front + (stem.push('.') + old_extension);
    assert(to[0] == '/');
    path::lemma_join_forms(dest_dir, to);
    path::lemma_extensions_are_exchanged(front, stem, old_extension, "mbn"@);
    assert(front + stem + seq!['.'] + "mbn"@ =~= front + stem + seq!['.', 'm', 'b', 'n']);
}

/// An item whose source has no last component, such as `..`, lands where that
/// source leads from the destination.
pub proof fn lemma_nameless_items_are_joined(dest_dir: Seq<char>, item: ItemView)
    requires
        item.to is None,
        path::file_name(item.from) is None,
    ensures
        item_path(dest_dir, item, ItemKind::Dir) == path::join(dest_dir, item.from),
{
}

/// An entry and a configuration say just what they hold.
pub proof fn lemma_entries_say_what_they_hold(entry: Entry, config: Config)
    ensures
        entry.deep_view().partition == entry.partition@,
        entry.deep_view().from == entry.from.deep_view(),
        entry.deep_view().to == entry.to.deep_view(),
        entry.deep_view().raw == entry.raw,
        entry.deep_view().files == entry.files.deep_view(),
        entry.deep_view().dirs == entry.dirs.deep_view(),
        config.deep_view().dynpart == config.dynpart.deep_view(),
        config.deep_view().extract == config.extract.deep_view(),
{
}

/// The devices that have a bundled configuration, and no others.
pub proof fn lemma_supported_devices(compatible: Seq<char>)
    ensures
        supported().contains(compatible) <==> (compatible == "fairphone,fp4"@
            || compatible == "fairphone,fp5"@
            || compatible == "google,blueline"@
            || compatible == "google,bonito-sdc"@
            || compatible == "google,crosshatch"@
            || compatible == "google,sargo"@
            || compatible == "google,sunfish"@
            || compatible == "nothing,spacewar"@
            || compatible == "oneplus,enchilada"@
            || compatible == "oneplus,fajita"@
            || compatible == "pine64,pinenote"@
            || compatible == "samsung,starqltechn"@
            || compatible == "shift,axolotl"@
            || compatible == "shift,otter"@
            || compatible == "xiaomi,beryllium"@
            || compatible == "xiaomi,beryllium-ebbg"@
            || compatible == "xiaomi,davinci"@
            || compatible == "xiaomi,polaris"@),
{
    let all = supported();
    assert(all[0] == "fairphone,fp4"@);
    assert(all[1] == "fairphone,fp5"@);
    assert(all[2] == "google,blueline"@);
    assert(all[3] == "google,bonito-sdc"@);
    assert(all[4] == "google,crosshatch"@);
    assert(all[5] == "google,sargo"@);
    assert(all[6] == "google,sunfish"@);
    assert(all[7] == "nothing,spacewar"@);
    assert(all[8] == "oneplus,enchilada"@);
    assert(all[9] == "oneplus,fajita"@);
    assert(all[10] == "pine64,pinenote"@);
    assert(all[11] == "samsung,starqltechn"@);
    assert(all[12] == "shift,axolotl"@);
    assert(all[13] == "shift,otter"@);
    assert(all[14] == "xiaomi,beryllium"@);
    assert(all[15] == "xiaomi,beryllium-ebbg"@);
    assert(all[16] == "xiaomi,davinci"@);
    assert(all[17] == "xiaomi,polaris"@);
}

/// What is selected for a compatible is the first configuration that the
/// bundle holds under it, and where that could not be read, its error.
pub proof fn lemma_selection_is_what_the_bundle_holds<E>(
    known: Seq<char>,
    bundle: Seq<(String, Result<Config, E>)>,
    at: int,
)
    requires
        0 <= at < bundle.len(),
        bundle[at].0@ == known,
        forall|i: int| 0 <= i < at ==> (#[trigger] bundle[i]).0@ != known,
    ensures
        selection(seq![known], bundle) == (match bundle[at].1 {
            Ok(config) => Ok::<Option<(Seq<char>, Config)>, E>(Some((known, config))),
            Err(error) => Err(error),
        }),
{
    lemma_first_bundled(known, bundle, at);
    assert(seq![known].first() == known);
}

proof fn lemma_first_bundled<E>(
    known: Seq<char>,
    bundle: Seq<(String, Result<Config, E>)>,
    at: int,
)
    requires
        0 <= at < bundle.len(),
        bundle[at].0@ == known,
        forall|i: int| 0 <= i < at ==> (#[trigger] bundle[i]).0@ != known,
    ensures
        bundled_at(known, bundle) == Some(at),
    decreases at,
{
    if at > 0 {
        let rest = bundle.drop_first();
        assert(bundle[0].0@ != known);
        assert forall|i: int| 0 <= i < at - 1 implies (#[trigger] rest[i]).0@ != known by {
            assert(rest[i] == bundle[i + 1]);
        }
        lemma_first_bundled(known, rest, at - 1);
    }
}

} // verus!
