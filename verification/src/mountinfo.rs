//! The kernel's table of mounts: device numbers, escaped paths, and where a
//! device is mounted.

use vstd::prelude::*;

use crate::number;
use crate::number::parse_unsigned;
use crate::text;
use crate::text::{chars_of, replace_all, split_chars, split_lines, split_pair, text_of};

verus! {

/// A path as it stands in the table, with its escapes exchanged one kind
/// after the other: space, tab, line feed, and the backslash last.
pub open spec fn decoded(path: Seq<char>) -> Seq<char> {
    let spaces = text::replace(path, seq!['\\', '0', '4', '0'], seq![' ']);
    let tabs = text::replace(spaces, seq!['\\', '0', '1', '1'], seq!['\t']);
    let feeds = text::replace(tabs, seq!['\\', '0', '1', '2'], seq!['\n']);
    text::replace(feeds, seq!['\\', '1', '3', '4'], seq!['\\'])
}

/// The major number of a device, from the bits that hold it.
pub open spec fn major_number(dev: u64) -> u64 {
    ((dev >> 8) & 0xfff) | ((dev >> 32) & 0xfffff000)
}

/// The minor number of a device, from the bits that hold it.
pub open spec fn minor_number(dev: u64) -> u64 {
    (dev & 0xff) | ((dev >> 12) & 0xffffff00)
}

/// The two numbers of a device written as `major:minor`.
pub open spec fn device_of(device: Seq<char>) -> Option<(u64, u64)> {
    match text::split_once(device, ':') {
        Some((major, minor)) => match (
            number::unsigned_value(major, u64::MAX as nat),
            number::unsigned_value(minor, u64::MAX as nat),
        ) {
            (Some(a), Some(b)) => Some((a as u64, b as u64)),
            _ => None,
        },
        None => None,
    }
}

/// Whether a line of the table is about the given device.
pub open spec fn line_is_about(line: Seq<char>, major: u64, minor: u64) -> bool {
    let fields = text::split(line, ' ');
    fields.len() >= 5 && device_of(fields[2]) == Some((major, minor))
}

/// Whether a line mounts the root of its filesystem rather than a part of it.
pub open spec fn line_mounts_root(line: Seq<char>) -> bool {
    text::split(line, ' ')[3] == seq!['/']
}

/// The mount point of a line.
pub open spec fn line_mount_point(line: Seq<char>) -> Seq<char> {
    decoded(text::split(line, ' ')[4])
}

/// The mount point of the first line about the device that mounts the root of
/// its filesystem; failing that, the given fallback; failing that, the mount
/// point of the first line about the device.
pub open spec fn mount_point_in(
    table: Seq<Seq<char>>,
    major: u64,
    minor: u64,
    fallback: Option<Seq<char>>,
) -> Option<Seq<char>>
    decreases table.len(),
{
    if table.len() == 0 {
        fallback
    } else {
        let line = table.first();
        if !line_is_about(line, major, minor) {
            mount_point_in(table.drop_first(), major, minor, fallback)
        } else if line_mounts_root(line) {
            Some(line_mount_point(line))
        } else if fallback is None {
            mount_point_in(table.drop_first(), major, minor, Some(line_mount_point(line)))
        } else {
            mount_point_in(table.drop_first(), major, minor, fallback)
        }
    }
}

/// Exchanges the escapes of a path for the characters they stand for.
pub fn decode_mountinfo_path(path: &str) -> (plain: String)
    ensures
        plain@ == decoded(path@),
{
    text_of(&decode_chars(&chars_of(path)))
}

/// Exchanges the escapes of a path for the characters they stand for.
fn decode_chars(path: &[char]) -> (plain: Vec<char>)
    ensures
        plain@ == decoded(path@),
{
    let space: Vec<char> = vec!['\\', '0', '4', '0'];
    let tab: Vec<char> = vec!['\\', '0', '1', '1'];
    let feed: Vec<char> = vec!['\\', '0', '1', '2'];
    let slash: Vec<char> = vec!['\\', '1', '3', '4'];
    let space_char: Vec<char> = vec![' '];
    let tab_char: Vec<char> = vec!['\t'];
    let feed_char: Vec<char> = vec!['\n'];
    let slash_char: Vec<char> = vec!['\\'];
    assert(space@ =~= seq!['\\', '0', '4', '0'] && space_char@ =~= seq![' ']);
    assert(tab@ =~= seq!['\\', '0', '1', '1'] && tab_char@ =~= seq!['\t']);
    assert(feed@ =~= seq!['\\', '0', '1', '2'] && feed_char@ =~= seq!['\n']);
    assert(slash@ =~= seq!['\\', '1', '3', '4'] && slash_char@ =~= seq!['\\']);
    let spaces = replace_all(path, &space, &space_char);
    let tabs = replace_all(&spaces, &tab, &tab_char);
    let feeds = replace_all(&tabs, &feed, &feed_char);
    replace_all(&feeds, &slash, &slash_char)
}

/// The major and minor number of a device.
pub fn device_numbers(dev: u64) -> (numbers: (u64, u64))
    ensures
        numbers == (major_number(dev), minor_number(dev)),
{
    let major: u64 = ((dev >> 8) & 0xfff) | ((dev >> 32) & 0xfffff000);
    let minor: u64 = (dev & 0xff) | ((dev >> 12) & 0xffffff00);
    (major, minor)
}

/// Reads the two numbers of a device.
fn device_in(device: &[char]) -> (numbers: Option<(u64, u64)>)
    ensures
        numbers == device_of(device@),
{
    match split_pair(device, ':') {
        None => None,
        Some((major, minor)) => match (
            parse_unsigned(&major, u64::MAX),
            parse_unsigned(&minor, u64::MAX),
        ) {
            (Some(a), Some(b)) => Some((a, b)),
            _ => None,
        },
    }
}

/// Reads a device written as `major:minor`.
pub fn parse_mountinfo_device(device: &str) -> (numbers: Option<(u64, u64)>)
    ensures
        numbers == device_of(device@),
{
    device_in(&chars_of(device))
}

/// Finds where a device is mounted.
pub fn mounted_path_from_mountinfo(
    mountinfo: &str,
    source_major: u64,
    source_minor: u64,
) -> (mount_point: Option<String>)
    ensures
        mount_point.deep_view() == mount_point_in(
            text::lines(mountinfo@),
            source_major,
            source_minor,
            None,
        ),
{
    let table = split_lines(&chars_of(mountinfo));
    let ghost all = text::pieces_of(table@);
    let mut fallback: Option<String> = None;
    assert(all.skip(0) =~= all);
    for i in 0..table.len()
        invariant
            all == text::pieces_of(table@),
            all == text::lines(mountinfo@),
            mount_point_in(all, source_major, source_minor, None) == mount_point_in(
                all.skip(i as int),
                source_major,
                source_minor,
                fallback.deep_view(),
            ),
    {
        let line = &table[i];
        assert(line@ == all[i as int]);
        assert(all.skip(i as int).first() == line@);
        assert(all.skip(i as int).drop_first() =~= all.skip(i + 1));
        let fields = split_chars(line, ' ');
        let ghost parts = text::split(line@, ' ');
        if fields.len() >= 5 {
            assert(fields[2]@ == parts[2]);
            assert(fields[3]@ == parts[3]);
            assert(fields[4]@ == parts[4]);
            if let Some((major, minor)) = device_in(&fields[2]) {
                if major == source_major && minor == source_minor {
                    let mount_point = text_of(&decode_chars(&fields[4]));
                    if fields[3].len() == 1 && fields[3][0] == '/' {
                        assert(fields[3]@ =~= seq!['/']);
                        return Some(mount_point);
                    }
                    assert(fields[3]@ != seq!['/']);
                    if fallback.is_none() {
                        fallback = Some(mount_point);
                    }
                }
            }
        }
    }
    assert(all.skip(all.len() as int) =~= Seq::<Seq<char>>::empty());
    fallback
}

/// The device that has the given numbers.
pub open spec fn device_with(major: u64, minor: u64) -> u64 {
    ((major & 0xfffff000) << 32) | ((major & 0xfff) << 8) | ((minor & 0xffffff00) << 12) | (minor
        & 0xff)
}

/// Every device is known by its two numbers, each of which has 32 bits, and
/// every such pair of numbers belongs to a device.
pub proof fn lemma_device_numbers_identify(dev: u64, major: u64, minor: u64)
    ensures
        major_number(dev) <= u32::MAX,
        minor_number(dev) <= u32::MAX,
        device_with(major_number(dev), minor_number(dev)) == dev,
        major <= u32::MAX && minor <= u32::MAX ==> {
            &&& major_number(device_with(major, minor)) == major
            &&& minor_number(device_with(major, minor)) == minor
        },
{
    assert(((dev >> 8) & 0xfff) | ((dev >> 32) & 0xfffff000) <= 0xffff_ffff) by (bit_vector);
    assert((dev & 0xff) | ((dev >> 12) & 0xffffff00) <= 0xffff_ffff) by (bit_vector);
    assert(device_with(major_number(dev), minor_number(dev)) == dev) by (bit_vector);
    assert(major <= 0xffff_ffff && minor <= 0xffff_ffff ==> major_number(device_with(major, minor))
        == major) by (bit_vector);
    assert(major <= 0xffff_ffff && minor <= 0xffff_ffff ==> minor_number(device_with(major, minor))
        == minor) by (bit_vector);
}

/// The escape of a character that the table does not hold as it is.
pub open spec fn escape(c: char) -> Seq<char> {
    if c == ' ' {
        seq!['\\', '0', '4', '0']
    } else if c == '\t' {
        seq!['\\', '0', '1', '1']
    } else if c == '\n' {
        seq!['\\', '0', '1', '2']
    } else {
        seq!['\\', '1', '3', '4']
    }
}

/// A path with each of the given characters exchanged for its escape.
pub open spec fn escaped(path: Seq<char>, special: Set<char>) -> Seq<char>
    decreases path.len(),
{
    if path.len() == 0 {
        path
    } else {
        let c = path.first();
        let unit = if special.contains(c) {
            escape(c)
        } else {
            seq![c]
        };
        unit + escaped(path.drop_first(), special)
    }
}

/// The characters that the kernel escapes in its table of mounts.
pub open spec fn kernel_escapes() -> Set<char> {
    set![' ', '\t', '\n', '\\']
}

/// A character that does not begin the pattern is passed over.
proof fn lemma_replace_passes(c: char, rest: Seq<char>, pattern: Seq<char>, with: Seq<char>)
    requires
        pattern.len() > 0,
        pattern.first() != c,
    ensures
        text::replace(seq![c] + rest, pattern, with) == seq![c] + text::replace(
            rest,
            pattern,
            with,
        ),
{
    let whole = seq![c] + rest;
    assert(whole.drop_first() =~= rest);
    if text::starts_with(whole, pattern) {
        assert(whole.take(pattern.len() as int)[0] == c);
    }
}

/// Undoing the escape of one character leaves the others escaped.
proof fn lemma_unescape_one(path: Seq<char>, special: Set<char>, c: char)
    requires
        special.subset_of(kernel_escapes()),
        special.contains('\\'),
        special.contains(c),
    ensures
        text::replace(escaped(path, special), escape(c), seq![c]) == escaped(
            path,
            special.remove(c),
        ),
    decreases path.len(),
{
    if path.len() > 0 {
        let head = path.first();
        let rest = escaped(path.drop_first(), special);
        let whole = escaped(path, special);
        let pattern = escape(c);
        lemma_unescape_one(path.drop_first(), special, c);
        if head == c {
            assert(whole.take(4) =~= pattern);
            assert(whole.skip(4) =~= rest);
        } else if special.contains(head) {
            let unit = escape(head);
            assert(kernel_escapes().contains(head) && kernel_escapes().contains(c));
            assert(unit != pattern) by {
                if unit == pattern {
                    assert(unit[2] == pattern[2] && unit[3] == pattern[3] && unit[1] == pattern[1]);
                }
            }
            assert(whole.take(4) =~= unit);
            let second = seq![unit[1]] + (seq![unit[2]] + (seq![unit[3]] + rest));
            assert(whole.drop_first() =~= second);
            lemma_replace_passes(unit[1], seq![unit[2]] + (seq![unit[3]] + rest), pattern, seq![c]);
            lemma_replace_passes(unit[2], seq![unit[3]] + rest, pattern, seq![c]);
            lemma_replace_passes(unit[3], rest, pattern, seq![c]);
            let tail = text::replace(rest, pattern, seq![c]);
            assert(seq![unit[0]] + (seq![unit[1]] + (seq![unit[2]] + (seq![unit[3]] + tail)))
                =~= unit + tail);
        } else {
            assert(head != '\\');
            lemma_replace_passes(head, rest, pattern, seq![c]);
        }
    }
}

/// With no character to escape a path stays as it is.
proof fn lemma_nothing_escaped(path: Seq<char>)
    ensures
        escaped(path, Set::empty()) == path,
    decreases path.len(),
{
    if path.len() > 0 {
        lemma_nothing_escaped(path.drop_first());
        assert(seq![path.first()] + path.drop_first() =~= path);
    }
}

/// Decoding gives back every path that the kernel escaped, whatever the path
/// holds.
pub proof fn lemma_decoding_undoes_escaping(path: Seq<char>)
    ensures
        decoded(escaped(path, kernel_escapes())) == path,
{
    let all = kernel_escapes();
    let no_space = all.remove(' ');
    let no_tab = no_space.remove('\t');
    let no_feed = no_tab.remove('\n');
    lemma_unescape_one(path, all, ' ');
    lemma_unescape_one(path, no_space, '\t');
    lemma_unescape_one(path, no_tab, '\n');
    lemma_unescape_one(path, no_feed, '\\');
    assert(no_feed.remove('\\') =~= Set::<char>::empty());
    lemma_nothing_escaped(path);
}

/// Where a device is mounted: the first line about the device that mounts the
/// root of its filesystem decides; without such a line the first line about
/// the device does; without any, the device is not mounted.
pub proof fn lemma_root_mount_is_preferred(table: Seq<Seq<char>>, major: u64, minor: u64, at: int)
    requires
        0 <= at < table.len(),
        line_is_about(table[at], major, minor),
    ensures
        line_mounts_root(table[at]) && (forall|i: int|
            0 <= i < at && line_is_about(#[trigger] table[i], major, minor) ==> !line_mounts_root(
                table[i],
            )) ==> mount_point_in(table, major, minor, None) == Some(line_mount_point(table[at])),
        (forall|i: int|
            0 <= i < table.len() && line_is_about(#[trigger] table[i], major, minor)
                ==> !line_mounts_root(table[i]) && i >= at) ==> mount_point_in(
            table,
            major,
            minor,
            None,
        ) == Some(line_mount_point(table[at])),
{
    lemma_mount_point(table, major, minor, None, at);
}

/// A device that no line is about is not mounted.
pub proof fn lemma_unlisted_device_is_not_mounted(table: Seq<Seq<char>>, major: u64, minor: u64)
    requires
        forall|i: int|
            0 <= i < table.len() ==> !line_is_about(#[trigger] table[i], major, minor),
    ensures
        mount_point_in(table, major, minor, None) is None,
{
    lemma_no_line(table, major, minor, None);
}

/// Lines that do not mount a root leave a fallback that is already there.
proof fn lemma_fallback_stays(
    table: Seq<Seq<char>>,
    major: u64,
    minor: u64,
    fallback: Seq<char>,
)
    requires
        forall|i: int|
            0 <= i < table.len() && line_is_about(#[trigger] table[i], major, minor)
                ==> !line_mounts_root(table[i]),
    ensures
        mount_point_in(table, major, minor, Some(fallback)) == Some(fallback),
    decreases table.len(),
{
    if table.len() > 0 {
        let rest = table.drop_first();
        assert forall|i: int|
            0 <= i < rest.len() && line_is_about(#[trigger] rest[i], major, minor) implies
            !line_mounts_root(rest[i]) by {
            assert(rest[i] == table[i + 1]);
        }
        assert(table[0] == table.first());
        lemma_fallback_stays(rest, major, minor, fallback);
    }
}

proof fn lemma_no_line(table: Seq<Seq<char>>, major: u64, minor: u64, fallback: Option<Seq<char>>)
    requires
        forall|i: int|
            0 <= i < table.len() ==> !line_is_about(#[trigger] table[i], major, minor),
    ensures
        mount_point_in(table, major, minor, fallback) == fallback,
    decreases table.len(),
{
    if table.len() > 0 {
        let rest = table.drop_first();
        assert forall|i: int| 0 <= i < rest.len() implies !line_is_about(
            #[trigger] rest[i],
            major,
            minor,
        ) by {
            assert(rest[i] == table[i + 1]);
        }
        assert(table[0] == table.first());
        lemma_no_line(rest, major, minor, fallback);
    }
}

proof fn lemma_mount_point(
    table: Seq<Seq<char>>,
    major: u64,
    minor: u64,
    fallback: Option<Seq<char>>,
    at: int,
)
    requires
        0 <= at < table.len(),
        line_is_about(table[at], major, minor),
    ensures
        line_mounts_root(table[at]) && (forall|i: int|
            0 <= i < at && line_is_about(#[trigger] table[i], major, minor) ==> !line_mounts_root(
                table[i],
            )) ==> mount_point_in(table, major, minor, fallback) == Some(
            line_mount_point(table[at]),
        ),
        fallback is None && (forall|i: int|
            0 <= i < table.len() && line_is_about(#[trigger] table[i], major, minor)
                ==> !line_mounts_root(table[i]) && i >= at) ==> mount_point_in(
            table,
            major,
            minor,
            fallback,
        ) == Some(line_mount_point(table[at])),
    decreases table.len(),
{
    let rest = table.drop_first();
    let head = table.first();
    assert(table[0] == head);
    assert(forall|i: int| 0 <= i < rest.len() ==> rest[i] == #[trigger] table[i + 1]);
    if at == 0 {
        if forall|i: int|
            0 <= i < table.len() && line_is_about(#[trigger] table[i], major, minor)
                ==> !line_mounts_root(table[i]) && i >= at {
            assert forall|i: int|
                0 <= i < rest.len() && line_is_about(#[trigger] rest[i], major, minor) implies
                !line_mounts_root(rest[i]) by {
                assert(rest[i] == table[i + 1]);
            }
            if fallback is None {
                lemma_fallback_stays(rest, major, minor, line_mount_point(head));
            }
        }
    } else {
        assert(rest[at - 1] == table[at]);
        let next = if line_is_about(head, major, minor) && fallback is None {
            Some(line_mount_point(head))
        } else {
            fallback
        };
        lemma_mount_point(rest, major, minor, next, at - 1);
        if forall|i: int|
            0 <= i < at && line_is_about(#[trigger] table[i], major, minor) ==> !line_mounts_root(
                table[i],
            ) {
            assert forall|i: int|
                0 <= i < at - 1 && line_is_about(#[trigger] rest[i], major, minor) implies
                !line_mounts_root(rest[i]) by {
                assert(rest[i] == table[i + 1]);
            }
        }
        if forall|i: int|
            0 <= i < table.len() && line_is_about(#[trigger] table[i], major, minor)
                ==> !line_mounts_root(table[i]) && i >= at {
            assert forall|i: int|
                0 <= i < rest.len() && line_is_about(#[trigger] rest[i], major, minor) implies
                !line_mounts_root(rest[i]) && i >= at - 1 by {
                assert(rest[i] == table[i + 1]);
            }
        }
    }
}

/// Five fields of a line of the table.
pub open spec fn five_fields(
    id: Seq<char>,
    parent: Seq<char>,
    device: Seq<char>,
    within: Seq<char>,
    point: Seq<char>,
) -> Seq<char> {
    id.push(' ') + (parent.push(' ') + (device.push(' ') + (within.push(' ') + point)))
}

/// The fields of a line: the third tells the device, the fourth whether the
/// root of the filesystem is mounted, and the fifth the mount point. What
/// follows the fifth makes no difference.
pub proof fn lemma_lines_have_fields(
    id: Seq<char>,
    parent: Seq<char>,
    device: Seq<char>,
    within: Seq<char>,
    point: Seq<char>,
    rest: Seq<char>,
    major: u64,
    minor: u64,
)
    requires
        !id.contains(' '),
        !parent.contains(' '),
        !device.contains(' '),
        !within.contains(' '),
        !point.contains(' '),
    ensures
        ({
            let bare = five_fields(id, parent, device, within, point);
            let full = bare.push(' ') + rest;
            &&& line_is_about(bare, major, minor) <==> device_of(device) == Some((major, minor))
            &&& line_is_about(full, major, minor) <==> device_of(device) == Some((major, minor))
            &&& line_mounts_root(bare) <==> within == seq!['/']
            &&& line_mounts_root(full) <==> within == seq!['/']
            &&& line_mount_point(bare) == decoded(point)
            &&& line_mount_point(full) == decoded(point)
            &&& !line_is_about(
                id.push(' ') + (parent.push(' ') + (device.push(' ') + within)),
                major,
                minor,
            )
        }),
{
    text::lemma_split_without_separator(id, ' ');
    text::lemma_split_without_separator(parent, ' ');
    text::lemma_split_without_separator(device, ' ');
    text::lemma_split_without_separator(within, ' ');
    text::lemma_split_without_separator(point, ' ');
    let tail = within.push(' ') + point;
    let later = device.push(' ') + tail;
    let most = parent.push(' ') + later;
    let bare = five_fields(id, parent, device, within, point);
    text::lemma_split_at_separator(within, point, ' ');
    text::lemma_split_at_separator(device, tail, ' ');
    text::lemma_split_at_separator(parent, later, ' ');
    text::lemma_split_at_separator(id, most, ' ');
    text::lemma_split_at_separator(bare, rest, ' ');
    assert(text::split(bare, ' ') =~= seq![id, parent, device, within, point]);
    let full = bare.push(' ') + rest;
    assert(text::split(full, ' ') =~= seq![id, parent, device, within, point] + text::split(
        rest,
        ' ',
    ));
    text::lemma_split_at_separator(device, within, ' ');
    text::lemma_split_at_separator(parent, device.push(' ') + within, ' ');
    text::lemma_split_at_separator(id, parent.push(' ') + (device.push(' ') + within), ' ');
    assert(text::split(
        id.push(' ') + (parent.push(' ') + (device.push(' ') + within)),
        ' ',
    ) =~= seq![id, parent, device, within]);
}

/// A line with less than five fields is about no device.
pub proof fn lemma_short_lines_are_about_nothing(line: Seq<char>, major: u64, minor: u64)
    requires
        line_is_about(line, major, minor),
    ensures
        exists|a: int, b: int, c: int, d: int|
            0 <= a < b < c < d < line.len() && #[trigger] line[a] == ' ' && #[trigger] line[b] == ' '
                && #[trigger] line[c] == ' ' && #[trigger] line[d] == ' ',
{
    let spaces = lemma_spaces_of(line);
    assert(line[spaces[0]] == ' ' && line[spaces[1]] == ' ' && line[spaces[2]] == ' '
        && line[spaces[3]] == ' ');
}

/// The places of the separators of a line.
proof fn lemma_spaces_of(line: Seq<char>) -> (spaces: Seq<int>)
    ensures
        spaces.len() == text::split(line, ' ').len() - 1,
        text::split(line, ' ').len() > 0,
        forall|i: int|
            0 <= i < spaces.len() ==> 0 <= #[trigger] spaces[i] < line.len() && line[spaces[i]]
                == ' ',
        forall|i: int, j: int|
            0 <= i < j < spaces.len() ==> #[trigger] spaces[i] < #[trigger] spaces[j],
    decreases line.len(),
{
    if line.len() == 0 {
        Seq::empty()
    } else {
        let before = lemma_spaces_of(line.drop_last());
        assert forall|i: int| 0 <= i < before.len() implies line[#[trigger] before[i]] == ' ' by {
            assert(line.drop_last()[before[i]] == ' ');
        }
        if line.last() == ' ' {
            before.push(line.len() - 1)
        } else {
            before
        }
    }
}

/// A device is written as its two numbers with a colon between them; nothing
/// without a colon is a device.
pub proof fn lemma_devices_are_written(a: u64, b: u64, left: Seq<char>, right: Seq<char>)
    requires
        !left.contains(':'),
    ensures
        device_of(number::decimal(a as nat) + seq![':'] + number::decimal(b as nat)) == Some(
            (a, b),
        ),
        device_of(left) is None,
        device_of(left + seq![':'] + right) == (match (
            number::unsigned_value(left, u64::MAX as nat),
            number::unsigned_value(right, u64::MAX as nat),
        ) {
            (Some(x), Some(y)) => Some((x as u64, y as u64)),
            _ => None,
        }),
{
    let first = number::decimal(a as nat);
    number::lemma_numbers_read(Seq::empty(), a as nat, u64::MAX as nat);
    number::lemma_numbers_read(Seq::empty(), b as nat, u64::MAX as nat);
    number::lemma_decimal_reads_back(a as nat);
    if first.contains(':') {
        let i = choose|i: int| 0 <= i < first.len() && first[i] == ':';
        assert(number::is_digit(first[i]));
    }
    text::lemma_split_once_at_the_first(first, number::decimal(b as nat), ':');
    text::lemma_split_once_at_the_first(left, right, ':');
}

/// A device is found in a table whose only line is about it, whatever follows
/// the mount point, and whether or not a line feed ends the line.
pub proof fn lemma_single_line_tables(
    id: Seq<char>,
    parent: Seq<char>,
    within: Seq<char>,
    point: Seq<char>,
    rest: Seq<char>,
    major: u64,
    minor: u64,
)
    requires
        !id.contains(' ') && !id.contains('\n'),
        !parent.contains(' ') && !parent.contains('\n'),
        !within.contains(' ') && !within.contains('\n'),
        !point.contains(' ') && !point.contains('\n'),
        !rest.contains('\n'),
        rest.len() > 0 ==> rest.last() != '\r',
    ensures
        ({
            let device = number::decimal(major as nat) + seq![':'] + number::decimal(
                minor as nat,
            );
            let line = five_fields(id, parent, device, within, point).push(' ') + rest;
            &&& mount_point_in(text::lines(line), major, minor, None) == Some(decoded(point))
            &&& mount_point_in(text::lines(line.push('\n')), major, minor, None) == Some(
                decoded(point),
            )
        }),
{
    let device = number::decimal(major as nat) + seq![':'] + number::decimal(minor as nat);
    let bare = five_fields(id, parent, device, within, point);
    let line = bare.push(' ') + rest;
    lemma_devices_are_written(major, minor, Seq::empty(), Seq::empty());
    number::lemma_decimal_reads_back(major as nat);
    number::lemma_decimal_reads_back(minor as nat);
    assert forall|i: int| 0 <= i < device.len() implies device[i] != ' ' && device[i] != '\n' by {
        let digits = number::decimal(major as nat);
        let more = number::decimal(minor as nat);
        if i < digits.len() {
            assert(number::is_digit(digits[i]));
        } else if i > digits.len() {
            assert(number::is_digit(more[i - digits.len() - 1]));
        }
    }
    lemma_lines_have_fields(id, parent, device, within, point, rest, major, minor);
    let tail = within.push(' ') + point;
    let later = device.push(' ') + tail;
    let most = parent.push(' ') + later;
    lemma_no_feed(within, ' ', point);
    lemma_no_feed(device, ' ', tail);
    lemma_no_feed(parent, ' ', later);
    lemma_no_feed(id, ' ', most);
    lemma_no_feed(bare, ' ', rest);
    text::lemma_lines_end_at_line_feeds(line, Seq::empty());
    text::lemma_lines_end_at_line_feeds(Seq::empty(), Seq::empty());
    assert(line.push('\n') + Seq::<char>::empty() =~= line.push('\n'));
    assert(line.last() != '\r') by {
        if rest.len() > 0 {
            assert(line.last() == rest.last());
        } else {
            assert(line.last() == ' ');
        }
    }
    assert(text::lines(line) =~= seq![line]);
    assert(text::lines(line.push('\n')) =~= seq![line]);
    assert(seq![line].drop_first() =~= Seq::<Seq<char>>::empty());
    reveal_with_fuel(mount_point_in, 2);
}

/// No line feed comes in by putting two texts behind each other.
proof fn lemma_no_feed(a: Seq<char>, sep: char, b: Seq<char>)
    requires
        !a.contains('\n'),
        !b.contains('\n'),
        sep != '\n',
    ensures
        !(a.push(sep) + b).contains('\n'),
{
    let whole = a.push(sep) + b;
    assert forall|i: int| 0 <= i < whole.len() implies whole[i] != '\n' by {
        if i < a.len() {
            assert(a.contains(a[i]));
        } else if i > a.len() {
            assert(b.contains(b[i - a.len() - 1]));
        }
    }
}

/// A table is read line by line: a first line about another device changes
/// nothing, and one that mounts the root of the filesystem decides.
pub proof fn lemma_tables_are_read_by_line(
    line: Seq<char>,
    rest: Seq<char>,
    major: u64,
    minor: u64,
)
    requires
        !line.contains('\n'),
        line.len() == 0 || line.last() != '\r',
    ensures
        !line_is_about(line, major, minor) ==> mount_point_in(
            text::lines(line.push('\n') + rest),
            major,
            minor,
            None,
        ) == mount_point_in(text::lines(rest), major, minor, None),
        line_is_about(line, major, minor) && line_mounts_root(line) ==> mount_point_in(
            text::lines(line.push('\n') + rest),
            major,
            minor,
            None,
        ) == Some(line_mount_point(line)),
        line_is_about(line, major, minor) ==> mount_point_in(
            text::lines(line.push('\n') + rest),
            major,
            minor,
            None,
        ) is Some,
{
    text::lemma_lines_end_at_line_feeds(line, rest);
    let all = text::lines(line.push('\n') + rest);
    assert(all.first() == line);
    assert(all.drop_first() =~= text::lines(rest));
    lemma_fallback_is_found(text::lines(rest), major, minor, line_mount_point(line));
}

/// With a fallback something is always found.
proof fn lemma_fallback_is_found(
    table: Seq<Seq<char>>,
    major: u64,
    minor: u64,
    fallback: Seq<char>,
)
    ensures
        mount_point_in(table, major, minor, Some(fallback)) is Some,
    decreases table.len(),
{
    if table.len() > 0 {
        lemma_fallback_is_found(table.drop_first(), major, minor, fallback);
    }
}

/// More text behind a line that is about a device changes nothing of what is
/// found.
pub proof fn lemma_more_fields_change_nothing(
    table: Seq<Seq<char>>,
    at: int,
    extra: Seq<char>,
    major: u64,
    minor: u64,
    fallback: Option<Seq<char>>,
)
    requires
        0 <= at < table.len(),
        line_is_about(table[at], major, minor),
    ensures
        line_is_about(table[at].push(' ') + extra, major, minor),
        mount_point_in(
            table.update(at, table[at].push(' ') + extra),
            major,
            minor,
            fallback,
        ) == mount_point_in(table, major, minor, fallback),
    decreases table.len(),
{
    let longer = table[at].push(' ') + extra;
    let changed = table.update(at, longer);
    text::lemma_split_at_separator(table[at], extra, ' ');
    let fields = text::split(table[at], ' ');
    let more = text::split(longer, ' ');
    assert(more[2] == fields[2] && more[3] == fields[3] && more[4] == fields[4]);
    if at == 0 {
        assert(changed.drop_first() =~= table.drop_first());
    } else {
        let rest = table.drop_first();
        assert(changed.drop_first() =~= rest.update(at - 1, longer));
        assert(rest[at - 1] == table[at]);
        assert(changed.first() == table.first());
        let line = table.first();
        let next = if line_is_about(line, major, minor) && fallback is None {
            Some(line_mount_point(line))
        } else {
            fallback
        };
        lemma_more_fields_change_nothing(rest, at - 1, extra, major, minor, next);
    }
}

} // verus!
