//! The settings of the program: where things are, which device it runs on, and
//! what is executed after an extraction.

use vstd::prelude::*;
use vstd::string::*;

use crate::error;
use crate::error::{Error, ErrorKind};
use crate::partition;
use crate::path;
use crate::path::{extension_of, join_path, set_extension, trim_components};
use crate::text;
use crate::text::{chars_of, replace_all, same_text, split_chars, text_of, trim, trim_end};

verus! {

/// Where firmware is extracted to unless something else is configured.
pub const DEFAULT_EXTRACT_PATH: &'static str = "/lib/firmware/updates";

/// Where device configurations are unless an option says otherwise.
pub const CONFIG_DIR_PATH: &'static str = "/usr/share/blob-wrangler/configs";

/// Where partitions are mounted unless an option says otherwise.
pub const MOUNTS_DIR_PATH: &'static str = "/var/lib/blob-wrangler/mounts";

/// What an option gives, or the usual value.
pub open spec fn given_or(option: Option<Seq<char>>, usual: Seq<char>) -> Seq<char> {
    match option {
        Some(given) => given,
        None => usual,
    }
}

/// The directory of device configurations.
pub open spec fn configs_directory(option: Option<Seq<char>>) -> Seq<char> {
    given_or(option, CONFIG_DIR_PATH@)
}

/// The directory of temporary mounts.
pub open spec fn mounts_directory(option: Option<Seq<char>>) -> Seq<char> {
    given_or(option, MOUNTS_DIR_PATH@)
}

/// The directory of device configurations that an option gives, or the usual
/// one.
pub fn configs_dir(option: Option<&str>) -> (directory: String)
    ensures
        directory@ == configs_directory(option.deep_view()),
{
    match option {
        Some(given) => given.to_string(),
        None => CONFIG_DIR_PATH.to_string(),
    }
}

/// The directory of temporary mounts that an option gives, or the usual one.
pub fn mounts_dir(option: Option<&str>) -> (directory: String)
    ensures
        directory@ == mounts_directory(option.deep_view()),
{
    match option {
        Some(given) => given.to_string(),
        None => MOUNTS_DIR_PATH.to_string(),
    }
}

/// The main configuration.
#[derive(Debug, PartialEq, Eq)]
pub struct MainConfig {
    pub extract_path: Option<String>,
    pub postprocess: Vec<String>,
}

impl Default for MainConfig {
    fn default() -> (config: MainConfig)
        ensures
            config.extract_path is None,
            config.postprocess@ == Seq::<String>::empty(),
    {
        MainConfig { extract_path: None, postprocess: Vec::new() }
    }
}

/// The extract path that the kernel's firmware class parameter gives.
pub open spec fn fallback_path(firmware_class_path: Option<Seq<char>>) -> Seq<char> {
    match firmware_class_path {
        Some(contents) => {
            let given = text::strip(contents, text::white());
            if given.len() > 0 {
                given
            } else {
                DEFAULT_EXTRACT_PATH@
            }
        },
        None => DEFAULT_EXTRACT_PATH@,
    }
}

/// The extract path where none is configured: the kernel's firmware class
/// parameter, as far as it could be read and says something.
pub fn default_extract_path(firmware_class_path: Option<&str>) -> (path: String)
    ensures
        path@ == fallback_path(firmware_class_path.deep_view()),
{
    match firmware_class_path {
        Some(contents) => {
            let chars = chars_of(contents);
            let given = trim(&chars);
            if given.len() > 0 {
                text_of(given)
            } else {
                DEFAULT_EXTRACT_PATH.to_string()
            }
        },
        None => DEFAULT_EXTRACT_PATH.to_string(),
    }
}

/// Where firmware is extracted to.
pub open spec fn extract_target(
    configured: Option<Seq<char>>,
    firmware_class_path: Option<Seq<char>>,
) -> Seq<char> {
    given_or(configured, fallback_path(firmware_class_path))
}

impl MainConfig {
    /// The configured extract path, or the one that the kernel's firmware
    /// class parameter gives.
    pub fn extract_path(&self, firmware_class_path: Option<&str>) -> (path: String)
        ensures
            path@ == extract_target(self.extract_path.deep_view(), firmware_class_path.deep_view()),
    {
        match &self.extract_path {
            Some(path) => path.clone(),
            None => default_extract_path(firmware_class_path),
        }
    }
}

/// The release of the running kernel in what was read of it.
pub open spec fn release_in(contents: Option<Seq<char>>) -> Seq<char> {
    match contents {
        Some(read) => text::strip_back(read, text::white()),
        None => "all"@,
    }
}

/// The release of the running kernel as it is read, or `all` if it is unknown.
pub fn kernel_release(contents: Option<&str>) -> (release: String)
    ensures
        release@ == release_in(contents.deep_view()),
{
    match contents {
        Some(read) => text_of(trim_end(&chars_of(read))),
        None => "all".to_string(),
    }
}

/// The compatibles in a device tree property, which ends each with a zero.
pub open spec fn compatibles_in(contents: Seq<char>) -> Seq<Seq<char>> {
    text::non_empty(text::split(contents, '\0'))
}

/// The name of the configuration file of a device.
pub open spec fn config_name(device: Seq<char>) -> Seq<char> {
    device + ".yaml"@
}

/// The first of the compatibles that a file is named after.
pub open spec fn named_after(file: Seq<char>, compatibles: Seq<Seq<char>>) -> Option<Seq<char>>
    decreases compatibles.len(),
{
    if compatibles.len() == 0 {
        None
    } else if file == config_name(compatibles.first()) {
        Some(compatibles.first())
    } else {
        named_after(file, compatibles.drop_first())
    }
}

/// The compatible that the first file named after one is named after.
pub open spec fn detected(files: Seq<Seq<char>>, compatibles: Seq<Seq<char>>) -> Option<Seq<char>>
    decreases files.len(),
{
    if files.len() == 0 {
        None
    } else {
        match named_after(files.first(), compatibles) {
            Some(device) => Some(device),
            None => detected(files.drop_first(), compatibles),
        }
    }
}

/// The device that the files and the device tree agree on.
pub open spec fn detected_device(files: Seq<Seq<char>>, contents: Seq<char>) -> Result<
    Seq<char>,
    error::ErrorView,
> {
    match detected(files, compatibles_in(contents)) {
        Some(device) => Ok(device),
        None => Err(partition::not_found("Unable to detect device!"@)),
    }
}

/// Lists the compatibles in a device tree property.
pub fn device_compatibles(contents: &str) -> (compatibles: Vec<String>)
    ensures
        compatibles.deep_view() == compatibles_in(contents@),
{
    let pieces = split_chars(&chars_of(contents), '\0');
    let ghost all = text::pieces_of(pieces@);
    let ghost keep = |piece: Seq<char>| piece.len() > 0;
    let mut compatibles: Vec<String> = Vec::new();
    assert(compatibles.deep_view() =~= all.take(0).filter(keep)) by {
        reveal(Seq::filter);
    }
    for i in 0..pieces.len()
        invariant
            all == text::pieces_of(pieces@),
            keep == (|piece: Seq<char>| piece.len() > 0),
            compatibles.deep_view() == all.take(i as int).filter(keep),
    {
        let ghost before = compatibles.deep_view();
        assert(all[i as int] == pieces[i as int]@);
        assert(all.take(i + 1).drop_last() =~= all.take(i as int));
        assert(all.take(i + 1).filter(keep) == (if keep(all[i as int]) {
            all.take(i as int).filter(keep).push(all[i as int])
        } else {
            all.take(i as int).filter(keep)
        })) by {
            reveal(Seq::filter);
        }
        if pieces[i].len() > 0 {
            compatibles.push(text_of(&pieces[i]));
            assert(compatibles.deep_view() =~= before.push(all[i as int]));
        }
    }
    assert(all.take(all.len() as int) =~= all);
    compatibles
}

/// Finds the compatible that a file is named after.
fn compatible_of(file: &str, compatibles: &Vec<String>) -> (found: Option<String>)
    ensures
        found.deep_view() == named_after(file@, compatibles.deep_view()),
{
    let ghost all = compatibles.deep_view();
    assert(all.skip(0) =~= all);
    for i in 0..compatibles.len()
        invariant
            all == compatibles.deep_view(),
            named_after(file@, all) == named_after(file@, all.skip(i as int)),
    {
        assert(all[i as int] == compatibles[i as int]@);
        assert(all.skip(i as int).drop_first() =~= all.skip(i + 1));
        let mut name = compatibles[i].clone();
        name.append(".yaml");
        if same_text(file, name.as_str()) {
            return Some(compatibles[i].clone());
        }
    }
    None
}

/// Detects the device from the configuration files there are, in the order in
/// which they are listed, and the compatibles of the device tree.
pub fn detect_device(files: &Vec<String>, contents: &str) -> (device: Result<String, Error>)
    ensures
        error::result_view(device) == detected_device(files.deep_view(), contents@),
{
    let compatibles = device_compatibles(contents);
    let ghost all = files.deep_view();
    assert(all.skip(0) =~= all);
    for i in 0..files.len()
        invariant
            all == files.deep_view(),
            compatibles.deep_view() == compatibles_in(contents@),
            detected(all, compatibles_in(contents@)) == detected(
                all.skip(i as int),
                compatibles_in(contents@),
            ),
    {
        assert(all[i as int] == files[i as int]@);
        assert(all.skip(i as int).drop_first() =~= all.skip(i + 1));
        if let Some(device) = compatible_of(files[i].as_str(), &compatibles) {
            return Ok(device);
        }
    }
    Err(Error::new(ErrorKind::NotFound, "Unable to detect device!".to_string()))
}

/// The path of the configuration file of a device. The file is called after
/// the device, dots in its name included; a device that is given with the
/// extension already, or with a separator behind it, names the same file as
/// without.
pub open spec fn config_path(configs_dir: Seq<char>, device: Seq<char>) -> Seq<char> {
    let whole = path::join(configs_dir, device);
    match path::extension(device) {
        Some(extension) => if extension != "yaml"@ {
            path::without_trailing(whole) + ".yaml"@
        } else {
            path::with_extension(whole, "yaml"@)
        },
        None => path::with_extension(whole, "yaml"@),
    }
}

/// Names the configuration file of a device.
pub fn device_config_path(configs_dir: &str, device: &str) -> (path: String)
    ensures
        path@ == config_path(configs_dir@, device@),
{
    proof {
        reveal_strlit("yaml");
    }
    let whole = join_path(configs_dir, device);
    if let Some(extension) = extension_of(device) {
        if !same_text(extension.as_str(), "yaml") {
            let mut path = trim_components(whole.as_str());
            path.append(".yaml");
            return path;
        }
    }
    set_extension(whole.as_str(), "yaml")
}

/// The words of a post-process command: `%k` stands for the kernel release,
/// and single spaces separate the words.
pub open spec fn command_words(cmdline: Seq<char>, release: Seq<char>) -> Seq<Seq<char>> {
    text::split(text::replace(cmdline, seq!['%', 'k'], release), ' ')
}

/// The command itself: the first word.
pub open spec fn command_of(cmdline: Seq<char>, release: Seq<char>) -> Seq<char> {
    command_words(cmdline, release).first()
}

/// The arguments: the other words, where there are any.
pub open spec fn arguments_of(cmdline: Seq<char>, release: Seq<char>) -> Option<Seq<Seq<char>>> {
    if command_words(cmdline, release).len() > 1 {
        Some(command_words(cmdline, release).drop_first())
    } else {
        None
    }
}

/// A command and, where there are any, its arguments.
#[derive(Debug, PartialEq, Eq)]
pub struct PostProcess {
    pub command: String,
    pub arguments: Option<Vec<String>>,
}

/// Splits a post-process command line into the command and its arguments.
pub fn postprocess_command(cmdline: &str, release: &str) -> (split: PostProcess)
    ensures
        split.command@ == command_of(cmdline@, release@),
        split.arguments.deep_view() == arguments_of(cmdline@, release@),
{
    let mut pattern: Vec<char> = Vec::new();
    pattern.push('%');
    pattern.push('k');
    assert(pattern@ =~= seq!['%', 'k']);
    let full = replace_all(&chars_of(cmdline), &pattern, &chars_of(release));
    let words = split_chars(&full, ' ');
    let ghost all = text::pieces_of(words@);
    assert(all == command_words(cmdline@, release@));
    let command = text_of(&words[0]);
    assert(all[0] == words[0]@);
    if words.len() == 1 {
        return PostProcess { command, arguments: None };
    }
    let mut arguments: Vec<String> = Vec::new();
    assert(arguments.deep_view() =~= all.drop_first().take(0));
    for i in 1..words.len()
        invariant
            all == text::pieces_of(words@),
            arguments.deep_view() == all.drop_first().take(i - 1),
    {
        let ghost before = arguments.deep_view();
        assert(all[i as int] == words[i as int]@);
        arguments.push(text_of(&words[i]));
        assert(arguments.deep_view() =~= before.push(all[i as int]));
        assert(arguments.deep_view() =~= all.drop_first().take(i as int));
    }
    assert(arguments.deep_view() =~= all.drop_first());
    PostProcess { command, arguments: Some(arguments) }
}

/// What came of a command.
#[derive(Debug)]
pub enum Execution {
    /// It could not be started.
    NotStarted { error: Error },
    /// It ended, with a status that the system describes.
    Ended { success: bool, status: String },
}

/// What an executed command comes to.
pub open spec fn executed(command: Seq<char>, execution: Execution) -> Result<(), error::ErrorView> {
    match execution {
        Execution::NotStarted { error } => Err(
            error::ErrorView {
                kind: error.kind,
                message: command + ": unable to execute command: "@ + error.message@,
            },
        ),
        Execution::Ended { success: true, .. } => Ok(()),
        Execution::Ended { success: false, status } => Err(
            error::ErrorView {
                kind: ErrorKind::Other,
                message: command + " returned with exit code "@ + status@,
            },
        ),
    }
}

/// Decides whether a command that was executed succeeded.
pub fn execute(command: &str, execution: Execution) -> (result: Result<(), Error>)
    ensures
        error::result_view(result) == executed(command@, execution),
{
    match execution {
        Execution::NotStarted { error } => {
            let mut message = command.to_string();
            message.append(": unable to execute command: ");
            message.append(error.message());
            Err(Error::new(error.kind, message))
        },
        Execution::Ended { success, status } => {
            if success {
                return Ok(());
            }
            let mut message = command.to_string();
            message.append(" returned with exit code ");
            message.append(status.as_str());
            Err(Error::new(ErrorKind::Other, message))
        },
    }
}

/// A device is detected only where one of its compatibles has a configuration
/// file, and always where one has.
pub proof fn lemma_detected_device_has_a_file(files: Seq<Seq<char>>, contents: Seq<char>)
    ensures
        detected_device(files, contents) matches Ok(device) ==> compatibles_in(contents).contains(
            device,
        ) && files.contains(config_name(device)),
        detected_device(files, contents) is Err <==> forall|i: int, j: int|
            0 <= i < files.len() && 0 <= j < compatibles_in(contents).len() ==> #[trigger] files[i]
                != config_name(#[trigger] compatibles_in(contents)[j]),
{
    lemma_detected(files, compatibles_in(contents));
}

/// What a file is named after.
proof fn lemma_named_after(file: Seq<char>, compatibles: Seq<Seq<char>>)
    ensures
        named_after(file, compatibles) matches Some(device) ==> compatibles.contains(device) && file
            == config_name(device),
        named_after(file, compatibles) is None <==> forall|j: int|
            0 <= j < compatibles.len() ==> file != config_name(#[trigger] compatibles[j]),
    decreases compatibles.len(),
{
    if compatibles.len() > 0 {
        let rest = compatibles.drop_first();
        lemma_named_after(file, rest);
        assert(compatibles[0] == compatibles.first());
        assert(forall|j: int| 0 <= j < rest.len() ==> rest[j] == #[trigger] compatibles[j + 1]);
        assert(forall|j: int| 0 < j < compatibles.len() ==> #[trigger] compatibles[j] == rest[j
            - 1]);
        if let Some(device) = named_after(file, rest) {
            let k = choose|k: int| 0 <= k < rest.len() && rest[k] == device;
            assert(compatibles[k + 1] == device);
        }
    }
}

/// What a list of files is named after.
proof fn lemma_detected(files: Seq<Seq<char>>, compatibles: Seq<Seq<char>>)
    ensures
        detected(files, compatibles) matches Some(device) ==> compatibles.contains(device)
            && files.contains(config_name(device)),
        detected(files, compatibles) is None <==> forall|i: int, j: int|
            0 <= i < files.len() && 0 <= j < compatibles.len() ==> #[trigger] files[i]
                != config_name(#[trigger] compatibles[j]),
    decreases files.len(),
{
    if files.len() > 0 {
        let rest = files.drop_first();
        lemma_named_after(files.first(), compatibles);
        lemma_detected(rest, compatibles);
        assert(files[0] == files.first());
        assert(forall|j: int| 0 <= j < rest.len() ==> rest[j] == #[trigger] files[j + 1]);
        assert(forall|j: int| 0 < j < files.len() ==> #[trigger] files[j] == rest[j - 1]);
        if named_after(files.first(), compatibles) is None {
            if let Some(device) = detected(rest, compatibles) {
                let k = choose|k: int| 0 <= k < rest.len() && rest[k] == config_name(device);
                assert(files[k + 1] == config_name(device));
            }
        }
    }
}

/// The configuration file that is read for a device is the one that is called
/// after it, where its name is a plain one that does not end in the extension
/// itself.
pub proof fn lemma_config_is_called_after_the_device(configs_dir: Seq<char>, device: Seq<char>)
    requires
        device.len() > 0,
        !device.contains('/'),
        device != path::dot(),
        device != seq!['.', '.'],
        path::extension(device) != Some("yaml"@),
    ensures
        config_path(configs_dir, device) == path::join(configs_dir, config_name(device)),
{
    reveal_strlit("yaml");
    reveal_strlit(".yaml");
    let whole = path::join(configs_dir, device);
    path::lemma_join_names(configs_dir, device);
    path::lemma_join_names(Seq::empty(), device);
    path::lemma_stem_fits(device);
    assert(path::join(Seq::empty(), device) =~= device);
    assert(device.contains(device[0]));
    assert(config_name(device)[0] == device[0]);
    assert(whole.take(whole.len() as int) =~= whole);
    assert(whole + ".yaml"@ =~= path::join(configs_dir, config_name(device)));
    assert(whole.push('.') + "yaml"@ =~= whole + ".yaml"@);
}

/// The configuration file that is read for a detected device is one of the
/// files it was detected by.
pub proof fn lemma_detected_file_is_read(
    configs_dir: Seq<char>,
    files: Seq<Seq<char>>,
    contents: Seq<char>,
    device: Seq<char>,
)
    requires
        detected_device(files, contents) == Ok::<Seq<char>, error::ErrorView>(device),
        forall|i: int| 0 <= i < files.len() ==> !(#[trigger] files[i]).contains('/'),
        device != path::dot(),
        device != seq!['.', '.'],
        path::extension(device) != Some("yaml"@),
    ensures
        exists|i: int|
            0 <= i < files.len() && config_path(configs_dir, device) == path::join(
                configs_dir,
                #[trigger] files[i],
            ),
{
    let keep = |piece: Seq<char>| piece.len() > 0;
    let pieces = text::split(contents, '\0');
    let all = compatibles_in(contents);
    lemma_detected_device_has_a_file(files, contents);
    let at = choose|at: int| 0 <= at < all.len() && all[at] == device;
    pieces.lemma_filter_pred(keep, at);
    let i = choose|i: int| 0 <= i < files.len() && files[i] == config_name(device);
    assert forall|k: int| 0 <= k < device.len() implies device[k] != '/' by {
        assert(files[i][k] == device[k]);
    }
    lemma_config_is_called_after_the_device(configs_dir, device);
    assert(config_path(configs_dir, device) == path::join(configs_dir, files[i]));
}

/// An option that is given stands as it is; without it each directory has its
/// usual place.
pub proof fn lemma_options_stand(given: Seq<char>)
    ensures
        configs_directory(Some(given)) == given,
        configs_directory(None) == "/usr/share/blob-wrangler/configs"@,
        mounts_directory(Some(given)) == given,
        mounts_directory(None) == "/var/lib/blob-wrangler/mounts"@,
{
}

/// A configured extract path stands as it is. Without one it is what the
/// firmware class parameter says, without the white space around it; where
/// that is nothing, or could not be read, it is the usual path.
pub proof fn lemma_extract_path_is_configured(
    configured: Seq<char>,
    class_path: Option<Seq<char>>,
    front: Seq<char>,
    core: Seq<char>,
    back: Seq<char>,
)
    requires
        forall|i: int| 0 <= i < front.len() ==> text::white()(#[trigger] front[i]),
        forall|i: int| 0 <= i < back.len() ==> text::white()(#[trigger] back[i]),
        core.len() > 0,
        !text::white()(core.first()),
        !text::white()(core.last()),
    ensures
        extract_target(Some(configured), class_path) == configured,
        extract_target(None, Some(front + core + back)) == core,
        extract_target(None, Some(front)) == "/lib/firmware/updates"@,
        extract_target(None, None) == "/lib/firmware/updates"@,
{
    text::lemma_strip_leaves_the_core(front, core, back, text::white());
    text::lemma_strip_leaves_nothing(front, text::white());
}

/// The kernel release is what was read without the white space behind it, and
/// `all` where nothing could be read.
pub proof fn lemma_release_is_what_was_read(core: Seq<char>, back: Seq<char>)
    requires
        forall|i: int| 0 <= i < back.len() ==> text::white()(#[trigger] back[i]),
        core.len() > 0 ==> !text::white()(core.last()),
    ensures
        release_in(Some(core + back)) == core,
        release_in(None) == seq!['a', 'l', 'l'],
    decreases back.len(),
{
    reveal_strlit("all");
    assert("all"@ =~= seq!['a', 'l', 'l']);
    if back.len() == 0 {
        assert(core + back =~= core);
        if core.len() == 0 {
            assert(core =~= Seq::empty());
        }
    } else {
        let whole = core + back;
        assert(text::white()(back[back.len() - 1]));
        assert(whole.drop_last() =~= core + back.drop_last());
        assert forall|i: int| 0 <= i < back.drop_last().len() implies text::white()(
            #[trigger] back.drop_last()[i],
        ) by {
            assert(back.drop_last()[i] == back[i]);
        }
        lemma_release_is_what_was_read(core, back.drop_last());
    }
}

/// The compatibles are what stands between zeros, empty texts left out.
pub proof fn lemma_compatibles_end_in_zeros(a: Seq<char>, b: Seq<char>, name: Seq<char>)
    ensures
        compatibles_in(a.push('\0') + b) == compatibles_in(a) + compatibles_in(b),
        name.len() > 0 && !name.contains('\0') ==> compatibles_in(name) == seq![name],
        compatibles_in(Seq::empty()) == Seq::<Seq<char>>::empty(),
{
    text::lemma_split_at_separator(a, b, '\0');
    text::lemma_non_empty_of(text::split(a, '\0'), text::split(b, '\0'));
    let none = Seq::<char>::empty();
    text::lemma_split_without_separator(none, '\0');
    reveal(Seq::filter);
    let nothing = Seq::<Seq<char>>::empty();
    let keep = |piece: Seq<char>| piece.len() > 0;
    assert(nothing.filter(keep) =~= nothing);
    assert(seq![none].drop_last() =~= nothing);
    assert(seq![none].filter(keep) =~= nothing);
    assert(compatibles_in(none) =~= nothing);
    if name.len() > 0 && !name.contains('\0') {
        text::lemma_split_without_separator(name, '\0');
        assert(seq![name].drop_last() =~= nothing);
        assert(seq![name].filter(keep) =~= seq![name]);
        assert(compatibles_in(name) =~= seq![name]);
    }
}

/// Files are tried in the order in which they are listed: the first that is
/// called after a compatible decides.
pub proof fn lemma_first_file_decides(
    files: Seq<Seq<char>>,
    contents: Seq<char>,
    at: int,
    which: int,
)
    requires
        0 <= at < files.len(),
        0 <= which < compatibles_in(contents).len(),
        files[at] == compatibles_in(contents)[which] + seq!['.', 'y', 'a', 'm', 'l'],
        forall|i: int, j: int|
            0 <= i < at && 0 <= j < compatibles_in(contents).len() ==> #[trigger] files[i] != (
            #[trigger] compatibles_in(contents)[j]) + seq!['.', 'y', 'a', 'm', 'l'],
    ensures
        detected_device(files, contents) == Ok::<Seq<char>, error::ErrorView>(
            compatibles_in(contents)[which],
        ),
{
    lemma_detected_at(files, compatibles_in(contents), at, which);
}

proof fn lemma_detected_at(
    files: Seq<Seq<char>>,
    compatibles: Seq<Seq<char>>,
    at: int,
    which: int,
)
    requires
        0 <= at < files.len(),
        0 <= which < compatibles.len(),
        files[at] == compatibles[which] + seq!['.', 'y', 'a', 'm', 'l'],
        forall|i: int, j: int|
            0 <= i < at && 0 <= j < compatibles.len() ==> #[trigger] files[i] != (
            #[trigger] compatibles[j]) + seq!['.', 'y', 'a', 'm', 'l'],
    ensures
        detected(files, compatibles) == Some(compatibles[which]),
    decreases at,
{
    reveal_strlit(".yaml");
    assert(".yaml"@ =~= seq!['.', 'y', 'a', 'm', 'l']);
    lemma_named_after(files.first(), compatibles);
    if at == 0 {
        let device = named_after(files.first(), compatibles).unwrap();
        assert(config_name(compatibles[which]) == config_name(device));
        assert(config_name(device).take(device.len() as int) =~= device);
        assert(config_name(compatibles[which]).take(compatibles[which].len() as int)
            =~= compatibles[which]);
        assert(config_name(device).len() == device.len() + 5);
    } else {
        let rest = files.drop_first();
        assert(files[0] == files.first());
        assert forall|j: int| 0 <= j < compatibles.len() implies files.first() != config_name(
            #[trigger] compatibles[j],
        ) by {
            assert(files[0] != compatibles[j] + seq!['.', 'y', 'a', 'm', 'l']);
        }
        assert forall|i: int, j: int| 0 <= i < at - 1 && 0 <= j < compatibles.len() implies (
        #[trigger] rest[i]) != (#[trigger] compatibles[j]) + seq!['.', 'y', 'a', 'm', 'l'] by {
            assert(rest[i] == files[i + 1]);
        }
        lemma_detected_at(rest, compatibles, at - 1, which);
    }
}

/// Where no file is called after a compatible, no device is found.
pub proof fn lemma_no_file_no_device(files: Seq<Seq<char>>, contents: Seq<char>)
    requires
        forall|i: int, j: int|
            0 <= i < files.len() && 0 <= j < compatibles_in(contents).len() ==> #[trigger] files[i]
                != (#[trigger] compatibles_in(contents)[j]) + seq!['.', 'y', 'a', 'm', 'l'],
    ensures
        detected_device(files, contents) == Err::<Seq<char>, error::ErrorView>(
            error::ErrorView { kind: ErrorKind::NotFound, message: "Unable to detect device!"@ },
        ),
{
    reveal_strlit(".yaml");
    assert(".yaml"@ =~= seq!['.', 'y', 'a', 'm', 'l']);
    let compatibles = compatibles_in(contents);
    lemma_detected(files, compatibles);
    assert forall|i: int, j: int| 0 <= i < files.len() && 0 <= j < compatibles.len() implies (
    #[trigger] files[i]) != config_name(#[trigger] compatibles[j]) by {
        assert(files[i] != compatibles[j] + seq!['.', 'y', 'a', 'm', 'l']);
    }
}

/// A device name gets the extension behind it, whatever dots and directories
/// it holds; a name that has the extension already stands as it is.
#[verifier::rlimit(40)]
pub proof fn lemma_config_path_forms(
    configs_dir: Seq<char>,
    within: Seq<char>,
    stem: Seq<char>,
    last: Seq<char>,
)
    requires
        configs_dir.len() > 0,
        configs_dir.last() != '/',
        within.len() == 0 || within.last() == '/' && within[0] != '/',
        stem.len() > 0,
        !stem.contains('/'),
        last.len() > 0,
        !last.contains('/'),
        !last.contains('.'),
    ensures
        last != seq!['y', 'a', 'm', 'l'] ==> config_path(
            configs_dir,
            within + (stem.push('.') + last),
        ) == configs_dir + seq!['/'] + within + (stem.push('.') + last) + seq![
            '.',
            'y',
            'a',
            'm',
            'l',
        ],
        config_path(configs_dir, within + last) == configs_dir + seq!['/'] + within + last + seq![
            '.',
            'y',
            'a',
            'm',
            'l',
        ],
        config_path(configs_dir, within + (stem.push('.') + seq!['y', 'a', 'm', 'l']))
            == configs_dir + seq!['/'] + within + stem + seq!['.', 'y', 'a', 'm', 'l'],
{
    reveal_strlit("yaml");
    reveal_strlit(".yaml");
    let yaml = seq!['y', 'a', 'm', 'l'];
    assert("yaml"@ =~= yaml);
    assert(".yaml"@ =~= seq!['.', 'y', 'a', 'm', 'l']);
    assert(!yaml.contains('/') && !yaml.contains('.'));
    let front = configs_dir + seq!['/'] + within;
    assert(front.last() == '/');
    assert(stem.contains(stem[0]) && last.contains(last[0]));
    // A name with dots in it.
    let dotted = stem.push('.') + last;
    assert(dotted.len() >= 3 && dotted[stem.len() as int] == '.');
    assert forall|i: int| 0 <= i < dotted.len() implies dotted[i] != '/' by {
        if i < stem.len() {
            assert(stem.contains(stem[i]));
        } else if i > stem.len() {
            assert(last.contains(last[i - stem.len() - 1]));
        }
    }
    lemma_below(configs_dir, within, dotted);
    assert(path::extension(within + dotted) == Some(last)) by {
        path::lemma_extensions_are_exchanged(within, stem, last, yaml);
    }
    assert(path::without_trailing(front + dotted) == front + dotted) by {
        path::lemma_file_name_forms(front, dotted);
    }
    // A name without one.
    lemma_below(configs_dir, within, last);
    assert(path::extension(within + last) is None) by {
        path::lemma_extensions_are_added(within, last, yaml);
    }
    assert(path::with_extension(front + last, "yaml"@) == front + last + seq!['.'] + yaml) by {
        path::lemma_extensions_are_added(front, last, yaml);
    }
    assert(front + last + seq!['.'] + yaml =~= front + last + seq!['.', 'y', 'a', 'm', 'l']);
    // A name with the extension.
    let full = stem.push('.') + yaml;
    assert(full[0] == stem[0]);
    lemma_below(configs_dir, within, full);
    assert(path::extension(within + full) == Some(yaml)) by {
        path::lemma_extensions_are_exchanged(within, stem, yaml, yaml);
    }
    assert(path::with_extension(front + full, "yaml"@) == front + stem + seq!['.'] + yaml) by {
        path::lemma_extensions_are_exchanged(front, stem, yaml, yaml);
    }
    assert(front + stem + seq!['.'] + yaml =~= front + stem + seq!['.', 'y', 'a', 'm', 'l']);
}

/// A relative path below a directory.
proof fn lemma_below(configs_dir: Seq<char>, within: Seq<char>, name: Seq<char>)
    requires
        configs_dir.len() > 0,
        configs_dir.last() != '/',
        within.len() == 0 || within[0] != '/',
        name.len() > 0,
        name[0] != '/',
    ensures
        path::join(configs_dir, within + name) == configs_dir + seq!['/'] + within + name,
{
    assert((within + name)[0] != '/');
    path::lemma_join_forms(configs_dir, within + name);
    assert(configs_dir + seq!['/'] + (within + name) =~= configs_dir + seq!['/'] + within + name);
}

/// The two characters that stand for the release.
pub open spec fn release_sign() -> Seq<char> {
    seq!['%', 'k']
}

/// A command line without `%k` is parted at every single space: the first word
/// is the command, the others are the arguments, and a line of one word has
/// none.
pub proof fn lemma_command_lines_are_parted(
    word: Seq<char>,
    rest: Seq<char>,
    release: Seq<char>,
)
    requires
        !word.contains(' '),
        forall|at: int|
            0 <= at <= word.len() + rest.len() ==> !#[trigger] text::stands_at(
                word.push(' ') + rest,
                release_sign(),
                at,
            ),
    ensures
        command_of(word, release) == word,
        arguments_of(word, release) is None,
        command_of(word.push(' ') + rest, release) == word,
        arguments_of(word.push(' ') + rest, release) == Some(text::split(rest, ' ')),
{
    let sign = release_sign();
    let whole = word.push(' ') + rest;
    assert forall|at: int| 0 <= at < word.len() implies !#[trigger] text::stands_at(
        word,
        sign,
        at,
    ) by {
        assert(!text::stands_at(whole, sign, at));
        if text::stands_at(word, sign, at) {
            assert(whole.subrange(at, at + sign.len()) =~= word.subrange(at, at + sign.len()));
        }
    }
    text::lemma_replace_leaves_the_rest(word, sign, release);
    text::lemma_replace_leaves_the_rest(whole, sign, release);
    text::lemma_split_without_separator(word, ' ');
    text::lemma_split_at_separator(word, rest, ' ');
    let words = seq![word] + text::split(rest, ' ');
    assert(words.drop_first() =~= text::split(rest, ' '));
}

/// A command that ended with success is one; every other is an error that
/// names the command and says what went wrong.
pub proof fn lemma_commands_succeed_or_not(
    command: Seq<char>,
    error: Error,
    status: String,
)
    ensures
        executed(command, (Execution::Ended { success: true, status })) is Ok,
        executed(command, (Execution::Ended { success: false, status })) == Err::<
            (),
            error::ErrorView,
        >(
            error::ErrorView {
                kind: ErrorKind::Other,
                message: command + " returned with exit code "@ + status@,
            },
        ),
        executed(command, (Execution::NotStarted { error })) == Err::<(), error::ErrorView>(
            error::ErrorView {
                kind: error.kind,
                message: command + ": unable to execute command: "@ + error.message@,
            },
        ),
{
}

/// Where `%k` stands in a command line, the release stands in its place, as
/// often as it does: behind the first one the words are those of the rest.
pub proof fn lemma_release_stands_for_its_sign(
    a: Seq<char>,
    b: Seq<char>,
    release: Seq<char>,
)
    requires
        forall|at: int|
            0 <= at < a.len() ==> !#[trigger] text::stands_at(
                a + release_sign() + b,
                release_sign(),
                at,
            ),
    ensures
        command_words(b, release).len() > 0,
        command_words(a + release_sign() + b, release) == text::split(
            a + release,
            ' ',
        ).drop_last() + seq![
            text::split(a + release, ' ').last() + command_words(b, release).first(),
        ] + command_words(b, release).drop_first(),
{
    let sign = release_sign();
    text::lemma_replace_exchanges_the_first(a, b, sign, release);
    text::lemma_split_of_two(a + release, text::replace(b, sign, release), ' ');
}

/// A separator behind the name of a device does not count.
pub proof fn lemma_separators_behind_devices_do_not_count(
    configs_dir: Seq<char>,
    device: Seq<char>,
)
    requires
        configs_dir.len() > 0,
        configs_dir.last() != '/',
        device.len() > 0,
        !device.contains('/'),
        device != seq!['.'],
        device != seq!['.', '.'],
    ensures
        config_path(configs_dir, device.push('/')) == config_path(configs_dir, device),
{
    let none = Seq::<char>::empty();
    let front = configs_dir + seq!['/'];
    assert(device.contains(device[0]));
    assert(device.push('/')[0] == device[0]);
    assert(path::join(configs_dir, device) =~= front + device) by {
        path::lemma_join_forms(configs_dir, device);
    }
    assert(path::join(configs_dir, device.push('/')) =~= (front + device).push('/')) by {
        path::lemma_join_forms(configs_dir, device.push('/'));
    }
    assert(none + device =~= device);
    reveal_strlit("yaml");
    path::lemma_extensions_before_separators(none, device, "yaml"@);
    path::lemma_extensions_before_separators(front, device, "yaml"@);
    path::lemma_file_name_forms(front, device);
}

} // verus!
