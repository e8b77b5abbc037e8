//! The active A/B slot: how it is written, where it is reported, and when
//! the reports agree.

use vstd::prelude::*;
use vstd::string::*;

use crate::error::{Error, ErrorKind};
use crate::error;
use crate::text;
use crate::text::{chars_of, same_chars, split_pair, split_words, text_of, trim, trim_matches};

verus! {

/// One of the two sets of partitions of an A/B device.
#[derive(Clone, Copy, Debug, PartialEq, Eq, Structural)]
pub enum Slot {
    A,
    B,
}

impl DeepView for Slot {
    type V = Slot;

    open spec fn deep_view(&self) -> Slot {
        *self
    }
}

/// What a slot adds to the name of a partition.
pub open spec fn slot_suffix(slot: Slot) -> Seq<char> {
    match slot {
        Slot::A => "_a"@,
        Slot::B => "_b"@,
    }
}

/// The slot that a value names, with or without the underscore; white space
/// around the value and then double quotes around it do not count.
pub open spec fn slot_value(value: Seq<char>) -> Option<Slot> {
    let name = text::strip(text::strip(value, text::white()), text::only('"'));
    if name == "a"@ || name == "_a"@ {
        Some(Slot::A)
    } else if name == "b"@ || name == "_b"@ {
        Some(Slot::B)
    } else {
        None
    }
}

/// An error about the form of some input.
pub open spec fn invalid_data(message: Seq<char>) -> error::ErrorView {
    error::ErrorView { kind: ErrorKind::InvalidData, message }
}

/// A further report of the slot must agree with the one known so far.
pub open spec fn merged_slot(current: Option<Slot>, candidate: Slot, source: Seq<char>) -> Result<
    Option<Slot>,
    error::ErrorView,
> {
    if current is Some && current != Some(candidate) {
        Err(invalid_data("Conflicting active slot values in "@ + source))
    } else {
        Ok(Some(candidate))
    }
}

/// The key and the value of a command line argument that reports the slot.
pub open spec fn slot_argument(argument: Seq<char>) -> Option<(Seq<char>, Seq<char>)> {
    match text::split_once(argument, '=') {
        Some((key, value)) => if key == "androidboot.slot_suffix"@ || key == "androidboot.slot"@ {
            Some((key, value))
        } else {
            None
        },
        None => None,
    }
}

/// Reads arguments from the left, given the slot known so far; the first
/// argument that names no slot or another slot is the error.
pub open spec fn scan_arguments(arguments: Seq<Seq<char>>, current: Option<Slot>) -> Result<
    Option<Slot>,
    error::ErrorView,
>
    decreases arguments.len(),
{
    if arguments.len() == 0 {
        Ok(current)
    } else {
        match slot_argument(arguments.first()) {
            None => scan_arguments(arguments.drop_first(), current),
            Some((key, value)) => match slot_value(value) {
                None => Err(
                    invalid_data(
                        "Unsupported "@ + key + " value '"@ + value + "' in /proc/cmdline"@,
                    ),
                ),
                Some(candidate) => match merged_slot(current, candidate, "/proc/cmdline"@) {
                    Ok(slot) => scan_arguments(arguments.drop_first(), slot),
                    Err(error) => Err(error),
                },
            },
        }
    }
}

/// The slot that a kernel command line reports.
pub open spec fn cmdline_slot(cmdline: Seq<char>) -> Result<Option<Slot>, error::ErrorView> {
    scan_arguments(text::words(cmdline), None)
}

/// The slot on which the command line and `qbootctl` agree.
pub open spec fn agreed_slot(cmdline: Option<Slot>, qbootctl: Option<Slot>) -> Result<
    Option<Slot>,
    error::ErrorView,
> {
    match (cmdline, qbootctl) {
        (Some(a), Some(b)) => if a == b {
            Ok(Some(a))
        } else {
            Err(
                invalid_data(
                    "Active slot mismatch: kernel command line reports "@ + slot_suffix(a)
                        + ", qbootctl reports "@ + slot_suffix(b),
                ),
            )
        },
        (Some(a), None) => Ok(Some(a)),
        (None, other) => Ok(other),
    }
}

/// The active slot, from the command line and from what `qbootctl` printed
/// if it ran with success.
pub open spec fn active_slot(cmdline: Seq<char>, qbootctl: Option<Seq<char>>) -> Result<
    Option<Slot>,
    error::ErrorView,
> {
    match cmdline_slot(cmdline) {
        Err(error) => Err(error),
        Ok(reported) => match qbootctl {
            None => agreed_slot(reported, None),
            Some(output) => match slot_value(output) {
                None => Err(
                    invalid_data(
                        "qbootctl returned unsupported slot value '"@ + text::strip(
                            output,
                            text::white(),
                        ) + "'"@,
                    ),
                ),
                Some(slot) => agreed_slot(reported, Some(slot)),
            },
        },
    }
}

impl Slot {
    /// What the slot adds to the name of a partition.
    pub fn suffix(self) -> (suffix: &'static str)
        ensures
            suffix@ == slot_suffix(self),
    {
        match self {
            Slot::A => "_a",
            Slot::B => "_b",
        }
    }
}

/// Whether characters spell the given text.
fn spells(chars: &[char], text: &str) -> (same: bool)
    ensures
        same == (chars@ == text@),
{
    same_chars(chars, &chars_of(text))
}

/// Reads the name of a slot.
pub fn parse_slot(value: &str) -> (slot: Option<Slot>)
    ensures
        slot == slot_value(value@),
{
    let chars = chars_of(value);
    let name = trim_matches(trim(&chars), '"');
    if spells(name, "a") || spells(name, "_a") {
        Some(Slot::A)
    } else if spells(name, "b") || spells(name, "_b") {
        Some(Slot::B)
    } else {
        None
    }
}

/// Takes a further report of the slot into account.
pub fn merge_slot(current: Option<Slot>, candidate: Slot, source: &str) -> (merged: Result<
    Option<Slot>,
    Error,
>)
    ensures
        error::result_view(merged) == merged_slot(current, candidate, source@),
{
    if let Some(known) = current {
        if known != candidate {
            let mut message = "Conflicting active slot values in ".to_string();
            message.append(source);
            return Err(Error::new(ErrorKind::InvalidData, message));
        }
    }
    Ok(Some(candidate))
}

/// Reads the slot from a kernel command line.
pub fn slot_from_cmdline(cmdline: &str) -> (slot: Result<Option<Slot>, Error>)
    ensures
        error::result_view(slot) == cmdline_slot(cmdline@),
{
    let arguments = split_words(&chars_of(cmdline));
    let ghost all = text::pieces_of(arguments@);
    let mut slot: Option<Slot> = None;
    assert(all.skip(0) =~= all);
    for i in 0..arguments.len()
        invariant
            all == text::pieces_of(arguments@),
            scan_arguments(all, None) == scan_arguments(all.skip(i as int), slot),
            cmdline_slot(cmdline@) == scan_arguments(all, None),
    {
        let argument = &arguments[i];
        assert(argument@ == all[i as int]);
        assert(all.skip(i as int).first() == argument@);
        assert(all.skip(i as int).drop_first() =~= all.skip(i + 1));
        if let Some((key, value)) = split_pair(argument, '=') {
            if spells(&key, "androidboot.slot_suffix") || spells(&key, "androidboot.slot") {
                let value_text = text_of(&value);
                match parse_slot(value_text.as_str()) {
                    None => {
                        let mut message = "Unsupported ".to_string();
                        message.append(text_of(&key).as_str());
                        message.append(" value '");
                        message.append(value_text.as_str());
                        message.append("' in /proc/cmdline");
                        return Err(Error::new(ErrorKind::InvalidData, message));
                    },
                    Some(candidate) => match merge_slot(slot, candidate, "/proc/cmdline") {
                        Ok(merged) => {
                            slot = merged;
                        },
                        Err(error) => {
                            return Err(error);
                        },
                    },
                }
            }
        }
    }
    assert(all.skip(all.len() as int) =~= Seq::<Seq<char>>::empty());
    Ok(slot)
}

/// Compares the two reports of the active slot.
pub fn reconcile_slots(cmdline: Option<Slot>, qbootctl: Option<Slot>) -> (slot: Result<
    Option<Slot>,
    Error,
>)
    ensures
        error::result_view(slot) == agreed_slot(cmdline, qbootctl),
{
    match (cmdline, qbootctl) {
        (Some(a), Some(b)) => {
            if a == b {
                Ok(Some(a))
            } else {
                let mut message =
                    "Active slot mismatch: kernel command line reports ".to_string();
                message.append(a.suffix());
                message.append(", qbootctl reports ");
                message.append(b.suffix());
                Err(Error::new(ErrorKind::InvalidData, message))
            }
        },
        (Some(a), None) => Ok(Some(a)),
        (None, other) => Ok(other),
    }
}

/// Determines the active slot from the text of the kernel command line and
/// from what `qbootctl` printed, if it ran with success.
pub fn detect_active_slot(cmdline: &str, qbootctl: Option<&str>) -> (slot: Result<
    Option<Slot>,
    Error,
>)
    ensures
        error::result_view(slot) == active_slot(cmdline@, qbootctl.deep_view()),
{
    let reported = match slot_from_cmdline(cmdline) {
        Ok(reported) => reported,
        Err(error) => {
            return Err(error);
        },
    };
    match qbootctl {
        None => reconcile_slots(reported, None),
        Some(output) => match parse_slot(output) {
            None => {
                let mut message = "qbootctl returned unsupported slot value '".to_string();
                message.append(text_of(trim(&chars_of(output))).as_str());
                message.append("'");
                Err(Error::new(ErrorKind::InvalidData, message))
            },
            Some(slot) => reconcile_slots(reported, Some(slot)),
        },
    }
}

/// Whether an argument reports the given slot.
pub open spec fn reports(argument: Seq<char>, slot: Slot) -> bool {
    slot_argument(argument) matches Some((key, value)) && slot_value(value) == Some(slot)
}

/// A scan gives a slot exactly where every argument about the slot reports
/// that slot and something does report it; it gives none exactly where no
/// argument is about the slot.
proof fn lemma_scan(arguments: Seq<Seq<char>>, current: Option<Slot>)
    ensures
        forall|slot: Slot|
            scan_arguments(arguments, current) == Ok::<Option<Slot>, error::ErrorView>(Some(slot))
                <==> {
                &&& forall|i: int|
                    0 <= i < arguments.len() && slot_argument(#[trigger] arguments[i]) is Some
                        ==> reports(arguments[i], slot)
                &&& current is Some ==> current == Some(slot)
                &&& current is Some || exists|i: int|
                    0 <= i < arguments.len() && slot_argument(#[trigger] arguments[i]) is Some
            },
        scan_arguments(arguments, current) == Ok::<Option<Slot>, error::ErrorView>(None) <==> {
            &&& current is None
            &&& forall|i: int|
                0 <= i < arguments.len() ==> slot_argument(#[trigger] arguments[i]) is None
        },
    decreases arguments.len(),
{
    if arguments.len() > 0 {
        let rest = arguments.drop_first();
        let head = arguments.first();
        assert(arguments[0] == head);
        assert(forall|i: int| 0 <= i < rest.len() ==> rest[i] == #[trigger] arguments[i + 1]);
        assert(forall|i: int| 0 < i < arguments.len() ==> #[trigger] arguments[i] == rest[i - 1]);
        match slot_argument(head) {
            None => {
                lemma_scan(rest, current);
            },
            Some((key, value)) => {
                if let Some(candidate) = slot_value(value) {
                    lemma_scan(rest, Some(candidate));
                }
            },
        }
    }
}

/// A command line has a slot exactly where it names one and names no other:
/// every `androidboot.slot` or `androidboot.slot_suffix` argument has that
/// slot as its value, and there is at least one.
pub proof fn lemma_cmdline_names_one_slot(cmdline: Seq<char>, slot: Slot)
    ensures
        cmdline_slot(cmdline) == Ok::<Option<Slot>, error::ErrorView>(Some(slot)) <==> {
            &&& forall|i: int|
                0 <= i < text::words(cmdline).len() && slot_argument(
                    #[trigger] text::words(cmdline)[i],
                ) is Some ==> reports(text::words(cmdline)[i], slot)
            &&& exists|i: int|
                0 <= i < text::words(cmdline).len() && slot_argument(
                    #[trigger] text::words(cmdline)[i],
                ) is Some
        },
{
    lemma_scan(text::words(cmdline), None);
}

/// A command line has no slot exactly where no argument is about the slot.
pub proof fn lemma_cmdline_without_slot(cmdline: Seq<char>)
    ensures
        cmdline_slot(cmdline) == Ok::<Option<Slot>, error::ErrorView>(None) <==> forall|i: int|
            0 <= i < text::words(cmdline).len() ==> slot_argument(
                #[trigger] text::words(cmdline)[i],
            ) is None,
{
    lemma_scan(text::words(cmdline), None);
}

/// When `qbootctl` reports a slot, an active slot is found exactly where that
/// slot is it and the command line names the same slot or none.
pub proof fn lemma_qbootctl_must_match(cmdline: Seq<char>, output: Seq<char>, slot: Slot)
    ensures
        active_slot(cmdline, Some(output)) == Ok::<Option<Slot>, error::ErrorView>(Some(slot)) <==> {
            &&& slot_value(output) == Some(slot)
            &&& {
                ||| cmdline_slot(cmdline) == Ok::<Option<Slot>, error::ErrorView>(Some(slot))
                ||| cmdline_slot(cmdline) == Ok::<Option<Slot>, error::ErrorView>(None)
            }
        },
        active_slot(cmdline, Some(output)) != Ok::<Option<Slot>, error::ErrorView>(None),
{
}

/// The suffix of a slot is read back as the slot.
pub proof fn lemma_suffix_reads_back(slot: Slot)
    ensures
        slot_value(slot_suffix(slot)) == Some(slot),
{
    reveal_strlit("a");
    reveal_strlit("_a");
    reveal_strlit("b");
    reveal_strlit("_b");
}

/// Where `qbootctl` reports nothing, the active slot is what the command line
/// reports; an error in the command line comes before all else.
pub proof fn lemma_command_line_decides_alone(cmdline: Seq<char>, qbootctl: Option<Seq<char>>)
    ensures
        active_slot(cmdline, None) == cmdline_slot(cmdline),
        cmdline_slot(cmdline) is Err ==> active_slot(cmdline, qbootctl) == cmdline_slot(cmdline),
{
}

/// Where the command line reports nothing, the active slot is what `qbootctl`
/// reports, and where it reports a slot the two have to be the same.
pub proof fn lemma_qbootctl_decides(cmdline: Seq<char>, output: Seq<char>)
    ensures
        cmdline_slot(cmdline) == Ok::<Option<Slot>, error::ErrorView>(None) ==> match slot_value(
            output,
        ) {
            Some(slot) => active_slot(cmdline, Some(output)) == Ok::<
                Option<Slot>,
                error::ErrorView,
            >(Some(slot)),
            None => active_slot(cmdline, Some(output)) matches Err(e) && e.kind
                == ErrorKind::InvalidData,
        },
        forall|a: Slot|
            cmdline_slot(cmdline) == Ok::<Option<Slot>, error::ErrorView>(Some(a))
                ==> #[trigger] settled(a, slot_value(output), active_slot(cmdline, Some(output))),
{
}

/// What the command line's slot and what `qbootctl` reported come to.
pub open spec fn settled(
    named: Slot,
    reported: Option<Slot>,
    outcome: Result<Option<Slot>, error::ErrorView>,
) -> bool {
    match outcome {
        Ok(active) => active == Some(named) && reported == Some(named),
        Err(error) => reported != Some(named) && error.kind == ErrorKind::InvalidData,
    }
}

/// Whether every character is a double quote.
pub open spec fn quotes(s: Seq<char>) -> bool {
    forall|i: int| 0 <= i < s.len() ==> #[trigger] s[i] == '"'
}

/// Whether every character is white space.
pub open spec fn blank(s: Seq<char>) -> bool {
    forall|i: int| 0 <= i < s.len() ==> text::is_white_space(#[trigger] s[i])
}

/// A slot is named by its letter, with an underscore before it or not, in any
/// number of quotes, in any white space.
pub proof fn lemma_named_slots(
    front: Seq<char>,
    left: Seq<char>,
    right: Seq<char>,
    back: Seq<char>,
)
    requires
        blank(front),
        blank(back),
        quotes(left),
        quotes(right),
    ensures
        slot_value(front + (left + seq!['a'] + right) + back) == Some(Slot::A),
        slot_value(front + (left + seq!['_', 'a'] + right) + back) == Some(Slot::A),
        slot_value(front + (left + seq!['b'] + right) + back) == Some(Slot::B),
        slot_value(front + (left + seq!['_', 'b'] + right) + back) == Some(Slot::B),
{
    reveal_strlit("a");
    reveal_strlit("_a");
    reveal_strlit("b");
    reveal_strlit("_b");
    assert("a"@ =~= seq!['a'] && "_a"@ =~= seq!['_', 'a']);
    assert("b"@ =~= seq!['b'] && "_b"@ =~= seq!['_', 'b']);
    lemma_core_of_value(front, left, "a"@, right, back);
    lemma_core_of_value(front, left, "_a"@, right, back);
    lemma_core_of_value(front, left, "b"@, right, back);
    lemma_core_of_value(front, left, "_b"@, right, back);
}

/// What is left of a value without its white space and its quotes.
proof fn lemma_core_of_value(
    front: Seq<char>,
    left: Seq<char>,
    core: Seq<char>,
    right: Seq<char>,
    back: Seq<char>,
)
    requires
        blank(front),
        blank(back),
        quotes(left),
        quotes(right),
        core.len() > 0,
        !text::is_white_space(core.first()) && core.first() != '"',
        !text::is_white_space(core.last()) && core.last() != '"',
    ensures
        text::strip(
            text::strip(front + (left + core + right) + back, text::white()),
            text::only('"'),
        ) == core,
{
    let quoted = left + core + right;
    assert(quoted.first() == if left.len() > 0 {
        left[0]
    } else {
        core.first()
    });
    assert(quoted.last() == if right.len() > 0 {
        right[right.len() - 1]
    } else {
        core.last()
    });
    assert forall|i: int| 0 <= i < front.len() implies text::white()(#[trigger] front[i]) by {}
    assert forall|i: int| 0 <= i < back.len() implies text::white()(#[trigger] back[i]) by {}
    text::lemma_strip_leaves_the_core(front, quoted, back, text::white());
    assert forall|i: int| 0 <= i < left.len() implies text::only('"')(#[trigger] left[i]) by {}
    assert forall|i: int| 0 <= i < right.len() implies text::only('"')(#[trigger] right[i]) by {}
    text::lemma_strip_leaves_the_core(left, core, right, text::only('"'));
}

/// Nothing else names a slot: a value that does is made up of white space,
/// quotes and the name.
pub proof fn lemma_nothing_else_names_a_slot(value: Seq<char>, slot: Slot) -> (parts: (
    Seq<char>,
    Seq<char>,
    Seq<char>,
    Seq<char>,
    Seq<char>,
))
    requires
        slot_value(value) == Some(slot),
    ensures
        value == parts.0 + (parts.1 + parts.2 + parts.3) + parts.4,
        blank(parts.0),
        quotes(parts.1),
        match slot {
            Slot::A => parts.2 == seq!['a'] || parts.2 == seq!['_', 'a'],
            Slot::B => parts.2 == seq!['b'] || parts.2 == seq!['_', 'b'],
        },
        quotes(parts.3),
        blank(parts.4),
{
    reveal_strlit("a");
    reveal_strlit("_a");
    reveal_strlit("b");
    reveal_strlit("_b");
    assert("a"@ =~= seq!['a'] && "_a"@ =~= seq!['_', 'a']);
    assert("b"@ =~= seq!['b'] && "_b"@ =~= seq!['_', 'b']);
    let quoted = text::strip(value, text::white());
    let core = text::strip(quoted, text::only('"'));
    let outer = text::lemma_strip_parts(value, text::white());
    let inner = text::lemma_strip_parts(quoted, text::only('"'));
    assert forall|i: int| 0 <= i < outer.0.len() implies text::is_white_space(
        #[trigger] outer.0[i],
    ) by {
        assert(text::white()(outer.0[i]));
    }
    assert forall|i: int| 0 <= i < outer.1.len() implies text::is_white_space(
        #[trigger] outer.1[i],
    ) by {
        assert(text::white()(outer.1[i]));
    }
    assert forall|i: int| 0 <= i < inner.0.len() implies #[trigger] inner.0[i] == '"' by {
        assert(text::only('"')(inner.0[i]));
    }
    assert forall|i: int| 0 <= i < inner.1.len() implies #[trigger] inner.1[i] == '"' by {
        assert(text::only('"')(inner.1[i]));
    }
    (outer.0, inner.0, core, inner.1, outer.1)
}

/// An argument is about the slot exactly where what stands before its first
/// `=` is one of the two keys; what stands behind is the value.
pub proof fn lemma_slot_arguments(key: Seq<char>, value: Seq<char>)
    requires
        !key.contains('='),
    ensures
        slot_argument(key + seq!['='] + value) == (if key == "androidboot.slot"@ || key
            == "androidboot.slot_suffix"@ {
            Some((key, value))
        } else {
            None
        }),
        slot_argument(key) is None,
{
    text::lemma_split_once_at_the_first(key, value, '=');
}

/// A scan of two lists is that of the second with what the first has given.
proof fn lemma_scan_in_turn(a: Seq<Seq<char>>, b: Seq<Seq<char>>, current: Option<Slot>)
    ensures
        scan_arguments(a + b, current) == (match scan_arguments(a, current) {
            Ok(slot) => scan_arguments(b, slot),
            Err(error) => Err(error),
        }),
    decreases a.len(),
{
    if a.len() == 0 {
        assert(a + b =~= b);
    } else {
        let rest = a.drop_first();
        assert((a + b).drop_first() =~= rest + b);
        assert((a + b).first() == a.first());
        lemma_scan_in_turn(rest, b, current);
        if let Some((key, value)) = slot_argument(a.first()) {
            if let Some(candidate) = slot_value(value) {
                lemma_scan_in_turn(rest, b, Some(candidate));
            }
        }
    }
}

/// Every error of a scan is about the form of the command line.
proof fn lemma_scan_errors(arguments: Seq<Seq<char>>, current: Option<Slot>)
    ensures
        scan_arguments(arguments, current) matches Err(error) ==> error.kind
            == ErrorKind::InvalidData,
    decreases arguments.len(),
{
    if arguments.len() > 0 {
        let rest = arguments.drop_first();
        lemma_scan_errors(rest, current);
        if let Some((key, value)) = slot_argument(arguments.first()) {
            if let Some(candidate) = slot_value(value) {
                lemma_scan_errors(rest, Some(candidate));
            }
        }
    }
}

/// Two command lines, one behind the other, report what each of them does:
/// one slot where only one is named, however often, and an error where two are
/// or where one of them is in error.
pub proof fn lemma_command_lines_add_up(a: Seq<char>, sep: char, b: Seq<char>)
    requires
        text::is_white_space(sep),
    ensures
        ({
            let both = cmdline_slot(a.push(sep) + b);
            match (cmdline_slot(a), cmdline_slot(b)) {
                (Err(error), _) => both == Err::<Option<Slot>, error::ErrorView>(error),
                (Ok(_), Err(_)) => both is Err,
                (Ok(None), Ok(other)) => both == Ok::<Option<Slot>, error::ErrorView>(other),
                (Ok(one), Ok(None)) => both == Ok::<Option<Slot>, error::ErrorView>(one),
                (Ok(Some(one)), Ok(Some(other))) => if one == other {
                    both == Ok::<Option<Slot>, error::ErrorView>(Some(one))
                } else {
                    both matches Err(error) && error.kind == ErrorKind::InvalidData
                },
            }
        }),
{
    let left = text::words(a);
    let right = text::words(b);
    text::lemma_words_are_parted_by_white_space(a, sep, b);
    lemma_scan_in_turn(left, right, None);
    lemma_scan(right, None);
    if let Ok(Some(one)) = cmdline_slot(a) {
        lemma_scan(right, Some(one));
        lemma_scan_errors(right, Some(one));
        if let Ok(Some(other)) = cmdline_slot(b) {
            let i = choose|i: int|
                0 <= i < right.len() && slot_argument(#[trigger] right[i]) is Some;
            assert(reports(right[i], other));
        }
        if let Ok(Some(found)) = scan_arguments(right, Some(one)) {
            assert(found == one);
        }
        if cmdline_slot(b) is Err {
            let both = scan_arguments(right, Some(one));
            if let Ok(found) = both {
                assert(found == Some(one));
                if exists|i: int|
                    0 <= i < right.len() && slot_argument(#[trigger] right[i]) is Some {
                    assert(scan_arguments(right, None) == Ok::<Option<Slot>, error::ErrorView>(
                        Some(one),
                    ));
                } else {
                    assert(scan_arguments(right, None) == Ok::<Option<Slot>, error::ErrorView>(
                        None,
                    ));
                }
            }
        }
    }
}

/// A single argument: under one of the two keys its value has to name a slot,
/// and any other argument says nothing.
pub proof fn lemma_single_arguments(key: Seq<char>, value: Seq<char>)
    requires
        !key.contains('='),
        forall|i: int| 0 <= i < key.len() ==> !text::is_white_space(#[trigger] key[i]),
        forall|i: int| 0 <= i < value.len() ==> !text::is_white_space(#[trigger] value[i]),
    ensures
        cmdline_slot(key) == Ok::<Option<Slot>, error::ErrorView>(None),
        key != "androidboot.slot"@ && key != "androidboot.slot_suffix"@ ==> cmdline_slot(
            key + seq!['='] + value,
        ) == Ok::<Option<Slot>, error::ErrorView>(None),
        key == "androidboot.slot"@ || key == "androidboot.slot_suffix"@ ==> match slot_value(
            value,
        ) {
            Some(slot) => cmdline_slot(key + seq!['='] + value) == Ok::<
                Option<Slot>,
                error::ErrorView,
            >(Some(slot)),
            None => cmdline_slot(key + seq!['='] + value) matches Err(error) && error.kind
                == ErrorKind::InvalidData && error.message == "Unsupported "@ + key + " value '"@
                + value + "' in /proc/cmdline"@,
        },
{
    let argument = key + seq!['='] + value;
    lemma_slot_arguments(key, value);
    text::lemma_words_are_parted_by_white_space(key, ' ', Seq::empty());
    text::lemma_words_are_parted_by_white_space(argument, ' ', Seq::empty());
    assert forall|i: int| 0 <= i < argument.len() implies !text::is_white_space(
        #[trigger] argument[i],
    ) by {
        if i < key.len() {
            assert(argument[i] == key[i]);
        } else if i > key.len() {
            assert(argument[i] == value[i - key.len() - 1]);
        }
    }
    assert(text::words(argument) =~= seq![argument]);
    assert(seq![argument].drop_first() =~= Seq::<Seq<char>>::empty());
    if key.len() > 0 {
        assert(seq![key].drop_first() =~= Seq::<Seq<char>>::empty());
    }
    reveal_with_fuel(scan_arguments, 2);
}

/// A report of the slot stands where none came before it or the same did; a
/// different one is a conflict, named after where it was found.
pub proof fn lemma_reports_are_merged(candidate: Slot, other: Slot, source: Seq<char>)
    ensures
        merged_slot(None, candidate, source) == Ok::<Option<Slot>, error::ErrorView>(
            Some(candidate),
        ),
        merged_slot(Some(candidate), candidate, source) == Ok::<Option<Slot>, error::ErrorView>(
            Some(candidate),
        ),
        other != candidate ==> merged_slot(Some(other), candidate, source) == Err::<
            Option<Slot>,
            error::ErrorView,
        >(
            error::ErrorView {
                kind: ErrorKind::InvalidData,
                message: "Conflicting active slot values in "@ + source,
            },
        ),
{
}

/// Arguments that name one slot are in conflict with another one.
proof fn lemma_scan_conflict(arguments: Seq<Seq<char>>, one: Slot, other: Slot)
    requires
        one != other,
        scan_arguments(arguments, None) == Ok::<Option<Slot>, error::ErrorView>(Some(other)),
    ensures
        scan_arguments(arguments, Some(one)) == Err::<Option<Slot>, error::ErrorView>(
            invalid_data("Conflicting active slot values in "@ + "/proc/cmdline"@),
        ),
    decreases arguments.len(),
{
    if arguments.len() > 0 {
        let rest = arguments.drop_first();
        match slot_argument(arguments.first()) {
            None => lemma_scan_conflict(rest, one, other),
            Some((_, value)) => {
                lemma_scan(rest, slot_value(value));
            },
        }
    }
}

/// A command line that names two slots is in conflict with itself.
pub proof fn lemma_conflicting_slots_are_reported(
    a: Seq<char>,
    sep: char,
    b: Seq<char>,
    one: Slot,
    other: Slot,
)
    requires
        text::is_white_space(sep),
        one != other,
        cmdline_slot(a) == Ok::<Option<Slot>, error::ErrorView>(Some(one)),
        cmdline_slot(b) == Ok::<Option<Slot>, error::ErrorView>(Some(other)),
    ensures
        cmdline_slot(a.push(sep) + b) == Err::<Option<Slot>, error::ErrorView>(
            error::ErrorView {
                kind: ErrorKind::InvalidData,
                message: "Conflicting active slot values in /proc/cmdline"@,
            },
        ),
{
    reveal_strlit("Conflicting active slot values in ");
    reveal_strlit("/proc/cmdline");
    reveal_strlit("Conflicting active slot values in /proc/cmdline");
    assert("Conflicting active slot values in "@ + "/proc/cmdline"@
        =~= "Conflicting active slot values in /proc/cmdline"@);
    text::lemma_words_are_parted_by_white_space(a, sep, b);
    lemma_scan_in_turn(text::words(a), text::words(b), None);
    lemma_scan_conflict(text::words(b), one, other);
}

/// What `qbootctl` printed and names no slot is reported without the white
/// space around it, and a slot that differs from that of the command line is
/// reported with both suffixes.
pub proof fn lemma_mismatches_are_reported(
    cmdline: Seq<char>,
    front: Seq<char>,
    core: Seq<char>,
    back: Seq<char>,
)
    requires
        cmdline_slot(cmdline) is Ok,
        blank(front),
        blank(back),
        core.len() > 0,
        !text::is_white_space(core.first()),
        !text::is_white_space(core.last()),
    ensures
        ({
            let printed = front + core + back;
            let outcome = active_slot(cmdline, Some(printed));
            &&& slot_value(printed) is None ==> outcome == Err::<Option<Slot>, error::ErrorView>(
                error::ErrorView {
                    kind: ErrorKind::InvalidData,
                    message: "qbootctl returned unsupported slot value '"@ + core + "'"@,
                },
            )
            &&& cmdline_slot(cmdline) == Ok::<Option<Slot>, error::ErrorView>(Some(Slot::A))
                && slot_value(printed) == Some(Slot::B) ==> outcome == Err::<
                Option<Slot>,
                error::ErrorView,
            >(
                error::ErrorView {
                    kind: ErrorKind::InvalidData,
                    message: "Active slot mismatch: kernel command line reports "@ + seq!['_', 'a']
                        + ", qbootctl reports "@ + seq!['_', 'b'],
                },
            )
            &&& cmdline_slot(cmdline) == Ok::<Option<Slot>, error::ErrorView>(Some(Slot::B))
                && slot_value(printed) == Some(Slot::A) ==> outcome == Err::<
                Option<Slot>,
                error::ErrorView,
            >(
                error::ErrorView {
                    kind: ErrorKind::InvalidData,
                    message: "Active slot mismatch: kernel command line reports "@ + seq!['_', 'b']
                        + ", qbootctl reports "@ + seq!['_', 'a'],
                },
            )
        }),
{
    reveal_strlit("_a");
    reveal_strlit("_b");
    assert("_a"@ =~= seq!['_', 'a'] && "_b"@ =~= seq!['_', 'b']);
    assert forall|i: int| 0 <= i < front.len() implies text::white()(#[trigger] front[i]) by {
        assert(text::is_white_space(front[i]));
    }
    assert forall|i: int| 0 <= i < back.len() implies text::white()(#[trigger] back[i]) by {
        assert(text::is_white_space(back[i]));
    }
    text::lemma_strip_leaves_the_core(front, core, back, text::white());
}

} // verus!
