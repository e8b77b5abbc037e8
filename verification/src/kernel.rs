//! Kernel versions and the constraints a configuration puts on them.

use vstd::prelude::*;
use vstd::slice::slice_subrange;

use crate::number;
use crate::number::{is_decimal_digit, parse_unsigned};
use crate::text;
use crate::text::{chars_of, has_prefix, same_text, split_chars, text_of};

verus! {

/// The numeric part of a kernel release.
#[derive(Clone, Copy, Debug, PartialEq, Eq, PartialOrd, Ord, Structural)]
pub struct KernelVersion {
    pub major: u32,
    pub minor: u32,
    pub patch: u32,
}

/// How a constraint compares the running kernel with its version.
#[derive(Clone, Copy, Debug, PartialEq, Eq, Structural)]
pub enum ConstraintOp {
    Lt,
    Lte,
    Gt,
    Gte,
    Eq,
}

/// The longest prefix of digits and dots.
pub open spec fn numeric_prefix(s: Seq<char>) -> Seq<char>
    decreases s.len(),
{
    if s.len() > 0 && (number::is_digit(s.first()) || s.first() == '.') {
        seq![s.first()] + numeric_prefix(s.drop_first())
    } else {
        Seq::empty()
    }
}

/// The numbers of a version as they are written.
pub open spec fn version_parts(s: Seq<char>) -> Seq<Seq<char>> {
    text::non_empty(text::split(numeric_prefix(s), '.'))
}

/// The number in the given place; zero where there is none or it is too large.
pub open spec fn part_or_zero(parts: Seq<Seq<char>>, place: int) -> u32 {
    if place < parts.len() {
        match number::unsigned_value(parts[place], u32::MAX as nat) {
            Some(n) => n as u32,
            None => 0,
        }
    } else {
        0
    }
}

/// The version at the front of a kernel release. The first number must be
/// there and in range; a missing or oversized later number counts as zero.
pub open spec fn version_of(s: Seq<char>) -> Option<KernelVersion> {
    let parts = version_parts(s);
    if parts.len() > 0 && number::unsigned_value(parts[0], u32::MAX as nat) is Some {
        Some(
            KernelVersion {
                major: part_or_zero(parts, 0),
                minor: part_or_zero(parts, 1),
                patch: part_or_zero(parts, 2),
            },
        )
    } else {
        None
    }
}

/// Whether `a` is an earlier version than `b`.
pub open spec fn earlier(a: KernelVersion, b: KernelVersion) -> bool {
    ||| a.major < b.major
    ||| a.major == b.major && a.minor < b.minor
    ||| a.major == b.major && a.minor == b.minor && a.patch < b.patch
}

/// Whether `running` stands in the given relation to `version`.
pub open spec fn satisfies(running: KernelVersion, op: ConstraintOp, version: KernelVersion) -> bool {
    match op {
        ConstraintOp::Lt => earlier(running, version),
        ConstraintOp::Lte => earlier(running, version) || running == version,
        ConstraintOp::Gt => earlier(version, running),
        ConstraintOp::Gte => earlier(version, running) || running == version,
        ConstraintOp::Eq => running == version,
    }
}

/// The operator at the front of a constraint and how many characters it takes.
pub open spec fn leading_op(s: Seq<char>) -> Option<(ConstraintOp, int)> {
    if text::starts_with(s, seq!['<', '=']) {
        Some((ConstraintOp::Lte, 2))
    } else if text::starts_with(s, seq!['<']) {
        Some((ConstraintOp::Lt, 1))
    } else if text::starts_with(s, seq!['>', '=']) {
        Some((ConstraintOp::Gte, 2))
    } else if text::starts_with(s, seq!['>']) {
        Some((ConstraintOp::Gt, 1))
    } else if text::starts_with(s, seq!['=']) {
        Some((ConstraintOp::Eq, 1))
    } else {
        None
    }
}

/// A constraint: an operator followed by a version.
pub open spec fn constraint_of(s: Seq<char>) -> Option<(ConstraintOp, KernelVersion)> {
    match leading_op(s) {
        Some((op, width)) => match version_of(s.skip(width)) {
            Some(version) => Some((op, version)),
            None => None,
        },
        None => None,
    }
}

/// Whether the running kernel meets a constraint. `*` is met by every kernel;
/// what is no constraint is met by none.
pub open spec fn matches_constraint(running: KernelVersion, constraint: Seq<char>) -> bool {
    ||| constraint == "*"@
    ||| constraint_of(constraint) matches Some((op, version)) && satisfies(running, op, version)
}

impl KernelVersion {
    /// Whether this version is earlier than `other`.
    pub fn is_earlier(self, other: KernelVersion) -> (yes: bool)
        ensures
            yes == earlier(self, other),
    {
        self.major < other.major || (self.major == other.major && (self.minor < other.minor || (
        self.minor == other.minor && self.patch < other.patch)))
    }
}

/// The number in the given place, or zero.
fn part_at(parts: &Vec<Vec<char>>, place: usize) -> (n: u32)
    ensures
        n == part_or_zero(text::pieces_of(parts@), place as int),
{
    if place < parts.len() {
        assert(parts[place as int]@ == text::pieces_of(parts@)[place as int]);
        match parse_unsigned(&parts[place], u32::MAX as u64) {
            Some(n) => n as u32,
            None => 0,
        }
    } else {
        0
    }
}

/// Reads the version at the front of a kernel release.
pub fn parse_kernel_version(version: &str) -> (parsed: Option<KernelVersion>)
    ensures
        parsed == version_of(version@),
{
    let chars = chars_of(version);
    let mut prefix: Vec<char> = Vec::new();
    let mut i: usize = 0;
    assert(chars@.skip(0) =~= chars@);
    assert(prefix@ + numeric_prefix(chars@) =~= numeric_prefix(chars@));
    while i < chars.len() && (is_decimal_digit(chars[i]) || chars[i] == '.')
        invariant
            i <= chars@.len(),
            numeric_prefix(chars@) == prefix@ + numeric_prefix(chars@.skip(i as int)),
        decreases chars@.len() - i,
    {
        let ghost rest = chars@.skip(i as int);
        let ghost before = prefix@;
        assert(rest.drop_first() =~= chars@.skip(i + 1));
        prefix.push(chars[i]);
        assert(before + (seq![rest.first()] + numeric_prefix(rest.drop_first())) =~= prefix@
            + numeric_prefix(rest.drop_first()));
        i = i + 1;
    }
    assert(numeric_prefix(chars@) =~= prefix@);
    let pieces = split_chars(&prefix, '.');
    let ghost all = text::pieces_of(pieces@);
    let ghost keep = |piece: Seq<char>| piece.len() > 0;
    let mut parts: Vec<Vec<char>> = Vec::new();
    assert(all.take(0).filter(keep) =~= Seq::<Seq<char>>::empty()) by {
        reveal(Seq::filter);
    }
    for j in 0..pieces.len()
        invariant
            all == text::pieces_of(pieces@),
            keep == (|piece: Seq<char>| piece.len() > 0),
            text::pieces_of(parts@) == all.take(j as int).filter(keep),
    {
        let piece = &pieces[j];
        assert(piece@ == all[j as int]);
        assert(all.take(j + 1).drop_last() =~= all.take(j as int));
        proof {
            reveal(Seq::filter);
        }
        if piece.len() > 0 {
            let ghost grown = text::pieces_of(parts@).push(piece@);
            parts.push(vstd::slice::slice_to_vec(piece.as_slice()));
            assert(text::pieces_of(parts@) =~= grown);
        }
    }
    assert(all.take(all.len() as int) =~= all);
    assert(text::pieces_of(parts@) == version_parts(version@));
    if parts.len() == 0 {
        return None;
    }
    assert(parts[0]@ == version_parts(version@)[0]);
    match parse_unsigned(&parts[0], u32::MAX as u64) {
        None => None,
        Some(major) => Some(
            KernelVersion {
                major: major as u32,
                minor: part_at(&parts, 1),
                patch: part_at(&parts, 2),
            },
        ),
    }
}

/// Reads a constraint such as `<7.0`.
pub fn parse_constraint(constraint: &str) -> (parsed: Option<(ConstraintOp, KernelVersion)>)
    ensures
        parsed == constraint_of(constraint@),
{
    let chars = chars_of(constraint);
    let lte: Vec<char> = vec!['<', '='];
    let lt: Vec<char> = vec!['<'];
    let gte: Vec<char> = vec!['>', '='];
    let gt: Vec<char> = vec!['>'];
    let eq: Vec<char> = vec!['='];
    assert(lte@ =~= seq!['<', '=']);
    assert(lt@ =~= seq!['<']);
    assert(gte@ =~= seq!['>', '=']);
    assert(gt@ =~= seq!['>']);
    assert(eq@ =~= seq!['=']);
    let (op, width): (ConstraintOp, usize) = if has_prefix(&chars, &lte) {
        (ConstraintOp::Lte, 2)
    } else if has_prefix(&chars, &lt) {
        (ConstraintOp::Lt, 1)
    } else if has_prefix(&chars, &gte) {
        (ConstraintOp::Gte, 2)
    } else if has_prefix(&chars, &gt) {
        (ConstraintOp::Gt, 1)
    } else if has_prefix(&chars, &eq) {
        (ConstraintOp::Eq, 1)
    } else {
        return None;
    };
    assert(chars@.subrange(width as int, chars@.len() as int) =~= chars@.skip(width as int));
    let value = text_of(slice_subrange(chars.as_slice(), width, chars.len()));
    match parse_kernel_version(value.as_str()) {
        Some(version) => Some((op, version)),
        None => None,
    }
}

/// Matches one constraint against the running kernel.
pub fn constraint_matches(running: KernelVersion, constraint: &str) -> (matched: bool)
    ensures
        matched == matches_constraint(running, constraint@),
{
    if same_text(constraint, "*") {
        return true;
    }
    match parse_constraint(constraint) {
        Some((op, version)) => match op {
            ConstraintOp::Lt => running.is_earlier(version),
            ConstraintOp::Lte => running.is_earlier(version) || running == version,
            ConstraintOp::Gt => version.is_earlier(running),
            ConstraintOp::Gte => version.is_earlier(running) || running == version,
            ConstraintOp::Eq => running == version,
        },
        None => false,
    }
}

/// Versions are totally ordered: of any two exactly one is earlier unless
/// they are the same, and the order is transitive.
pub proof fn lemma_versions_are_ordered(a: KernelVersion, b: KernelVersion, c: KernelVersion)
    ensures
        a == b <==> !earlier(a, b) && !earlier(b, a),
        !(earlier(a, b) && earlier(b, a)),
        earlier(a, b) && earlier(b, c) ==> earlier(a, c),
{
}

/// A version that can be read does not start with an operator character.
proof fn lemma_version_starts_with_a_digit_or_dot(version: Seq<char>)
    requires
        version_of(version) is Some,
    ensures
        version.len() > 0,
        number::is_digit(version.first()) || version.first() == '.',
{
    if version.len() == 0 || !(number::is_digit(version.first()) || version.first() == '.') {
        let prefix = numeric_prefix(version);
        assert(prefix =~= Seq::<char>::empty());
        let pieces = text::split(prefix, '.');
        let keep = |piece: Seq<char>| piece.len() > 0;
        assert(pieces =~= seq![Seq::<char>::empty()]);
        assert(pieces.drop_last() =~= Seq::<Seq<char>>::empty());
        reveal(Seq::filter);
        assert(pieces.drop_last().filter(keep) =~= Seq::<Seq<char>>::empty());
        assert(pieces.filter(keep) =~= Seq::<Seq<char>>::empty());
    }
}

/// Whatever version `v` stands behind them, `<v` and `>=v` share out all
/// kernels between them, and so do `<=v` and `>v`; `=v` is met where `<=v` and
/// `>=v` both are.
pub proof fn lemma_opposite_constraints(running: KernelVersion, version: Seq<char>)
    requires
        version_of(version) is Some,
    ensures
        matches_constraint(running, seq!['<'] + version) <==> !matches_constraint(
            running,
            seq!['>', '='] + version,
        ),
        matches_constraint(running, seq!['<', '='] + version) <==> !matches_constraint(
            running,
            seq!['>'] + version,
        ),
        matches_constraint(running, seq!['='] + version) <==> matches_constraint(
            running,
            seq!['<', '='] + version,
        ) && matches_constraint(running, seq!['>', '='] + version),
{
    lemma_version_starts_with_a_digit_or_dot(version);
    reveal_strlit("*");
    let lt = seq!['<'] + version;
    let lte = seq!['<', '='] + version;
    let gt = seq!['>'] + version;
    let gte = seq!['>', '='] + version;
    let eq = seq!['='] + version;
    assert(lt.skip(1) =~= version);
    assert(gt.skip(1) =~= version);
    assert(eq.skip(1) =~= version);
    assert(lte.skip(2) =~= version);
    assert(gte.skip(2) =~= version);
    assert(lt.take(1) =~= seq!['<']);
    assert(lt.take(2)[1] != '=');
    assert(gt.take(1) =~= seq!['>']);
    assert(gt.take(2)[1] != '=');
    assert(lte.take(2) =~= seq!['<', '=']);
    assert(gte.take(2) =~= seq!['>', '=']);
    assert(eq.take(1) =~= seq!['=']);
    assert(gt.take(2)[0] == '>' && gt.take(1)[0] == '>');
    assert(gte.take(2)[0] == '>' && gte.take(1)[0] == '>');
    assert(eq.take(2)[0] == '=' && eq.take(1)[0] == '=');
    assert(seq!['<', '='][1] == '=' && seq!['>', '='][1] == '=');
    assert(seq!['<', '='][0] == '<' && seq!['>', '='][0] == '>');
    assert(seq!['<'][0] == '<' && seq!['>'][0] == '>');
    assert(lt[0] != '*' && lte[0] != '*' && gt[0] != '*' && gte[0] != '*' && eq[0] != '*');
    lemma_versions_are_ordered(running, version_of(version).unwrap(), running);
}

/// The catch-all matches every kernel, and what cannot be read as a constraint
/// matches none.
pub proof fn lemma_catch_all_and_unreadable(running: KernelVersion, constraint: Seq<char>)
    ensures
        matches_constraint(running, "*"@),
        constraint != "*"@ && constraint_of(constraint) is None ==> !matches_constraint(
            running,
            constraint,
        ),
{
}

/// The digits and dots in front of other text.
proof fn lemma_numeric_prefix_of(front: Seq<char>, rest: Seq<char>)
    requires
        forall|i: int|
            0 <= i < front.len() ==> number::is_digit(#[trigger] front[i]) || front[i] == '.',
        rest.len() > 0 ==> !number::is_digit(rest.first()) && rest.first() != '.',
    ensures
        numeric_prefix(front + rest) == front,
    decreases front.len(),
{
    let whole = front + rest;
    if front.len() == 0 {
        assert(whole =~= rest);
        assert(numeric_prefix(whole) =~= front);
    } else {
        assert(number::is_digit(front[0]) || front[0] == '.');
        assert(whole.drop_first() =~= front.drop_first() + rest);
        assert forall|i: int| 0 <= i < front.drop_first().len() implies number::is_digit(
            #[trigger] front.drop_first()[i],
        ) || front.drop_first()[i] == '.' by {
            assert(front.drop_first()[i] == front[i + 1]);
        }
        lemma_numeric_prefix_of(front.drop_first(), rest);
        assert(seq![front.first()] + front.drop_first() =~= front);
    }
}

/// A written number is a piece without dots that is not empty.
proof fn lemma_number_piece(n: nat)
    ensures
        number::decimal(n).len() > 0,
        !number::decimal(n).contains('.'),
        forall|i: int| 0 <= i < number::decimal(n).len() ==> number::is_digit(
            #[trigger] number::decimal(n)[i],
        ),
        text::non_empty(text::split(number::decimal(n), '.')) == seq![number::decimal(n)],
{
    let written = number::decimal(n);
    number::lemma_decimal_reads_back(n);
    if written.contains('.') {
        let i = choose|i: int| 0 <= i < written.len() && written[i] == '.';
        assert(number::is_digit(written[i]));
    }
    text::lemma_split_without_separator(written, '.');
    let keep = |piece: Seq<char>| piece.len() > 0;
    reveal(Seq::filter);
    assert(seq![written].drop_last() =~= Seq::<Seq<char>>::empty());
    assert(Seq::<Seq<char>>::empty().filter(keep) =~= Seq::<Seq<char>>::empty());
    assert(seq![written].filter(keep) =~= seq![written]);
}

/// A release that begins with one, two or three numbers between dots has these
/// as its version, whatever follows them; missing ones are zero, and so are
/// later ones that are too large. Where the first is too large, or the release
/// begins otherwise, it has no version.
pub proof fn lemma_releases_have_versions(a: nat, b: nat, c: nat, rest: Seq<char>)
    requires
        rest.len() > 0 ==> !('0' <= rest.first() <= '9') && rest.first() != '.',
    ensures
        ({
            let later = |n: nat|
                if n <= u32::MAX {
                    n as u32
                } else {
                    0u32
                };
            let version = |minor: u32, patch: u32|
                if a <= u32::MAX {
                    Some(KernelVersion { major: a as u32, minor, patch })
                } else {
                    None
                };
            let one = number::decimal(a);
            let two = one.push('.') + number::decimal(b);
            let three = two.push('.') + number::decimal(c);
            &&& version_of(one + rest) == version(0, 0)
            &&& version_of(two + rest) == version(later(b), 0)
            &&& version_of(three + rest) == version(later(b), later(c))
            &&& version_of(rest) is None
        }),
{
    let one = number::decimal(a);
    let two = one.push('.') + number::decimal(b);
    let three = two.push('.') + number::decimal(c);
    lemma_number_piece(a);
    lemma_number_piece(b);
    lemma_number_piece(c);
    number::lemma_numbers_read(Seq::empty(), a, u32::MAX as nat);
    number::lemma_numbers_read(Seq::empty(), b, u32::MAX as nat);
    number::lemma_numbers_read(Seq::empty(), c, u32::MAX as nat);
    lemma_numeric_prefix_of(one, rest);
    assert forall|i: int| 0 <= i < two.len() implies number::is_digit(#[trigger] two[i]) || two[i]
        == '.' by {
        if i < one.len() {
            assert(two[i] == one[i]);
        } else if i > one.len() {
            assert(two[i] == number::decimal(b)[i - one.len() - 1]);
        }
    }
    lemma_numeric_prefix_of(two, rest);
    assert forall|i: int| 0 <= i < three.len() implies number::is_digit(#[trigger] three[i])
        || three[i] == '.' by {
        if i < two.len() {
            assert(three[i] == two[i]);
        } else if i > two.len() {
            assert(three[i] == number::decimal(c)[i - two.len() - 1]);
        }
    }
    lemma_numeric_prefix_of(three, rest);
    text::lemma_split_at_separator(one, number::decimal(b), '.');
    text::lemma_non_empty_of(text::split(one, '.'), text::split(number::decimal(b), '.'));
    text::lemma_split_at_separator(two, number::decimal(c), '.');
    text::lemma_non_empty_of(text::split(two, '.'), text::split(number::decimal(c), '.'));
    assert(version_parts(one + rest) =~= seq![one]);
    assert(version_parts(two + rest) =~= seq![one, number::decimal(b)]);
    assert(version_parts(three + rest) =~= seq![one, number::decimal(b), number::decimal(c)]);
    if version_of(rest) is Some {
        lemma_version_starts_with_a_digit_or_dot(rest);
    }
}

/// A constraint compares the running kernel with its version, number by
/// number, the way its operator says.
pub proof fn lemma_constraints_compare(running: KernelVersion, text: Seq<char>)
    requires
        version_of(text) is Some,
    ensures
        ({
            let v = version_of(text).unwrap();
            let before = running.major < v.major || running.major == v.major && (running.minor
                < v.minor || running.minor == v.minor && running.patch < v.patch);
            let same = running.major == v.major && running.minor == v.minor && running.patch
                == v.patch;
            &&& matches_constraint(running, seq!['<'] + text) <==> before
            &&& matches_constraint(running, seq!['<', '='] + text) <==> before || same
            &&& matches_constraint(running, seq!['>'] + text) <==> !before && !same
            &&& matches_constraint(running, seq!['>', '='] + text) <==> !before
            &&& matches_constraint(running, seq!['='] + text) <==> same
        }),
{
    lemma_version_starts_with_a_digit_or_dot(text);
    reveal_strlit("*");
    let lt = seq!['<'] + text;
    let lte = seq!['<', '='] + text;
    let gt = seq!['>'] + text;
    let gte = seq!['>', '='] + text;
    let eq = seq!['='] + text;
    assert(lt.skip(1) =~= text);
    assert(gt.skip(1) =~= text);
    assert(eq.skip(1) =~= text);
    assert(lte.skip(2) =~= text);
    assert(gte.skip(2) =~= text);
    assert(lt.take(1) =~= seq!['<']);
    assert(lt.take(2)[1] != '=');
    assert(gt.take(1) =~= seq!['>']);
    assert(gt.take(2)[1] != '=');
    assert(lte.take(2) =~= seq!['<', '=']);
    assert(gte.take(2) =~= seq!['>', '=']);
    assert(eq.take(1) =~= seq!['=']);
    assert(gt.take(2)[0] == '>' && gt.take(1)[0] == '>');
    assert(gte.take(2)[0] == '>' && gte.take(1)[0] == '>');
    assert(eq.take(2)[0] == '=' && eq.take(1)[0] == '=');
    assert(seq!['<', '='][1] == '=' && seq!['>', '='][1] == '=');
    assert(seq!['<', '='][0] == '<' && seq!['>', '='][0] == '>');
    assert(seq!['<'][0] == '<' && seq!['>'][0] == '>');
    assert(lt[0] != '*' && lte[0] != '*' && gt[0] != '*' && gte[0] != '*' && eq[0] != '*');
}

/// What begins with no operator is met only if it is the catch-all, which is
/// met always.
pub proof fn lemma_constraints_begin_with_an_operator(
    running: KernelVersion,
    constraint: Seq<char>,
)
    requires
        constraint.len() == 0 || constraint.first() != '<' && constraint.first() != '>'
            && constraint.first() != '=',
    ensures
        matches_constraint(running, constraint) <==> constraint == seq!['*'],
{
    reveal_strlit("*");
    assert("*"@ =~= seq!['*']);
    if constraint.len() > 0 {
        assert(constraint.len() >= 1 ==> constraint.take(1)[0] == constraint.first());
        assert(constraint.len() >= 2 ==> constraint.take(2)[0] == constraint.first());
        assert(seq!['<', '='][0] == '<' && seq!['>', '='][0] == '>');
        assert(seq!['<'][0] == '<' && seq!['>'][0] == '>' && seq!['='][0] == '=');
    }
}

/// Digits and dots in front stand before those of the text behind them.
proof fn lemma_numeric_prefix_behind(front: Seq<char>, s: Seq<char>)
    requires
        forall|i: int|
            0 <= i < front.len() ==> number::is_digit(#[trigger] front[i]) || front[i] == '.',
    ensures
        numeric_prefix(front + s) == front + numeric_prefix(s),
    decreases front.len(),
{
    let whole = front + s;
    if front.len() == 0 {
        assert(whole =~= s);
        assert(front + numeric_prefix(s) =~= numeric_prefix(s));
    } else {
        let rest = front.drop_first();
        assert(number::is_digit(front[0]) || front[0] == '.');
        assert(whole.drop_first() =~= rest + s);
        assert forall|i: int| 0 <= i < rest.len() implies number::is_digit(#[trigger] rest[i])
            || rest[i] == '.' by {
            assert(rest[i] == front[i + 1]);
        }
        lemma_numeric_prefix_behind(rest, s);
        assert(seq![front.first()] + (rest + numeric_prefix(s)) =~= front + numeric_prefix(s));
    }
}

/// Dots that follow each other, and dots in front, count for nothing more than
/// a single dot and none.
pub proof fn lemma_repeated_dots_do_not_count(front: Seq<char>, s: Seq<char>)
    requires
        forall|i: int| 0 <= i < front.len() ==> '0' <= #[trigger] front[i] <= '9' || front[i] == '.',
    ensures
        version_of(front.push('.').push('.') + s) == version_of(front.push('.') + s),
        version_of(seq!['.'] + s) == version_of(s),
{
    let one = front.push('.');
    let two = one.push('.');
    let none = Seq::<char>::empty();
    let tail = numeric_prefix(s);
    lemma_numeric_prefix_behind(one, s);
    lemma_numeric_prefix_behind(two, s);
    lemma_numeric_prefix_behind(seq!['.'], s);
    text::lemma_split_without_separator(none, '.');
    text::lemma_split_at_separator(front, tail, '.');
    text::lemma_split_at_separator(one, tail, '.');
    text::lemma_split_at_separator(front, none, '.');
    text::lemma_split_at_separator(none, tail, '.');
    assert(one + none =~= one);
    assert(none.push('.') + tail =~= seq!['.'] + tail);
    text::lemma_non_empty_of(text::split(front, '.'), text::split(tail, '.'));
    text::lemma_non_empty_of(text::split(one, '.'), text::split(tail, '.'));
    text::lemma_non_empty_of(text::split(front, '.'), text::split(none, '.'));
    text::lemma_non_empty_of(text::split(none, '.'), text::split(tail, '.'));
    let nothing = Seq::<Seq<char>>::empty();
    assert(text::non_empty(seq![none]) =~= nothing) by {
        reveal(Seq::filter);
        let keep = |piece: Seq<char>| piece.len() > 0;
        assert(seq![none].drop_last() =~= nothing);
        assert(nothing.filter(keep) =~= nothing);
        assert(seq![none].filter(keep) =~= nothing);
    }
    assert(version_parts(two + s) =~= version_parts(one + s));
    assert(version_parts(seq!['.'] + s) =~= version_parts(s));
}

/// Three pieces between dots.
proof fn lemma_three_pieces(a: Seq<char>, b: Seq<char>, c: Seq<char>)
    requires
        a.len() > 0 && b.len() > 0 && c.len() > 0,
        !a.contains('.') && !b.contains('.') && !c.contains('.'),
    ensures
        text::split((a.push('.') + b).push('.') + c, '.') == seq![a, b, c],
        text::non_empty(seq![a, b, c]) == seq![a, b, c],
{
    text::lemma_split_without_separator(a, '.');
    text::lemma_split_without_separator(b, '.');
    text::lemma_split_without_separator(c, '.');
    text::lemma_split_at_separator(a, b, '.');
    text::lemma_split_at_separator(a.push('.') + b, c, '.');
    let pieces = seq![a, b, c];
    assert(text::split((a.push('.') + b).push('.') + c, '.') =~= pieces);
    reveal(Seq::filter);
    let keep = |piece: Seq<char>| piece.len() > 0;
    let nothing = Seq::<Seq<char>>::empty();
    assert(pieces.drop_last() =~= seq![a, b]);
    assert(seq![a, b].drop_last() =~= seq![a]);
    assert(seq![a].drop_last() =~= nothing);
    assert(nothing.filter(keep) =~= nothing);
    assert(seq![a].filter(keep) =~= seq![a]);
    assert(seq![a, b].filter(keep) =~= seq![a, b]);
    assert(pieces.filter(keep) =~= pieces);
}

/// Three digit strings between dots are digits and dots.
proof fn lemma_three_are_numeric(a: Seq<char>, b: Seq<char>, c: Seq<char>, i: int)
    requires
        forall|i: int| 0 <= i < a.len() ==> '0' <= #[trigger] a[i] <= '9',
        forall|i: int| 0 <= i < b.len() ==> '0' <= #[trigger] b[i] <= '9',
        forall|i: int| 0 <= i < c.len() ==> '0' <= #[trigger] c[i] <= '9',
        0 <= i < ((a.push('.') + b).push('.') + c).len(),
    ensures
        ({
            let found = ((a.push('.') + b).push('.') + c)[i];
            number::is_digit(found) || found == '.'
        }),
{
    let two = a.push('.') + b;
    let three = two.push('.') + c;
    if i < a.len() {
        assert(three[i] == a[i]);
    } else if i == a.len() {
        assert(three[i] == '.');
    } else if i < two.len() {
        assert(three[i] == b[i - a.len() - 1]);
    } else if i == two.len() {
        assert(three[i] == '.');
    } else {
        assert(three[i] == c[i - two.len() - 1]);
    }
}

/// The first three numbers make the version, however they are written and
/// whatever numbers and other text follow: the first must be in range, and an
/// oversized later one counts as zero.
#[verifier::rlimit(40)]
pub proof fn lemma_three_numbers_make_a_version(
    a: Seq<char>,
    b: Seq<char>,
    c: Seq<char>,
    more: Seq<char>,
    rest: Seq<char>,
)
    requires
        a.len() > 0 && b.len() > 0 && c.len() > 0,
        forall|i: int| 0 <= i < a.len() ==> '0' <= #[trigger] a[i] <= '9',
        forall|i: int| 0 <= i < b.len() ==> '0' <= #[trigger] b[i] <= '9',
        forall|i: int| 0 <= i < c.len() ==> '0' <= #[trigger] c[i] <= '9',
        more.len() > 0 ==> more[0] == '.',
        forall|i: int| 0 <= i < more.len() ==> '0' <= #[trigger] more[i] <= '9' || more[i] == '.',
        rest.len() > 0 ==> !('0' <= rest.first() <= '9') && rest.first() != '.',
    ensures
        ({
            let read = |s: Seq<char>| number::unsigned_value(s, 0xffff_ffff);
            let later = |s: Seq<char>|
                match number::unsigned_value(s, 0xffff_ffff) {
                    Some(n) => n as u32,
                    None => 0u32,
                };
            version_of((a.push('.') + b).push('.') + c + more + rest) == (match read(a) {
                Some(n) => Some(
                    KernelVersion { major: n as u32, minor: later(b), patch: later(c) },
                ),
                None => None,
            })
        }),
{
    let three = (a.push('.') + b).push('.') + c;
    let all = three + more;
    let pieces = seq![a, b, c];
    assert(numeric_prefix(all + rest) == all) by {
        assert forall|i: int| 0 <= i < all.len() implies number::is_digit(#[trigger] all[i])
            || all[i] == '.' by {
            if i < three.len() {
                lemma_three_are_numeric(a, b, c, i);
                assert(all[i] == three[i]);
            } else {
                assert(all[i] == more[i - three.len()]);
            }
        }
        lemma_numeric_prefix_of(all, rest);
    }
    lemma_three_pieces(a, b, c);
    let parts = version_parts(all + rest);
    if more.len() == 0 {
        assert(all =~= three);
        assert(parts == pieces);
    } else {
        let behind = more.drop_first();
        assert(all =~= three.push('.') + behind);
        text::lemma_split_at_separator(three, behind, '.');
        text::lemma_non_empty_of(pieces, text::split(behind, '.'));
        assert(parts == pieces + text::non_empty(text::split(behind, '.')));
    }
    assert(parts[0] == a && parts[1] == b && parts[2] == c);
}

/// A constraint is read as its operator and the version behind it.
pub proof fn lemma_constraints_are_read(text: Seq<char>)
    requires
        version_of(text) is Some,
    ensures
        ({
            let v = version_of(text).unwrap();
            &&& constraint_of(seq!['<'] + text) == Some((ConstraintOp::Lt, v))
            &&& constraint_of(seq!['<', '='] + text) == Some((ConstraintOp::Lte, v))
            &&& constraint_of(seq!['>'] + text) == Some((ConstraintOp::Gt, v))
            &&& constraint_of(seq!['>', '='] + text) == Some((ConstraintOp::Gte, v))
            &&& constraint_of(seq!['='] + text) == Some((ConstraintOp::Eq, v))
            &&& constraint_of(text) is None
        }),
{
    lemma_version_starts_with_a_digit_or_dot(text);
    let lt = seq!['<'] + text;
    let lte = seq!['<', '='] + text;
    let gt = seq!['>'] + text;
    let gte = seq!['>', '='] + text;
    let eq = seq!['='] + text;
    assert(lt.skip(1) =~= text);
    assert(gt.skip(1) =~= text);
    assert(eq.skip(1) =~= text);
    assert(lte.skip(2) =~= text);
    assert(gte.skip(2) =~= text);
    assert(lt.take(1) =~= seq!['<']);
    assert(lt.take(2)[1] != '=');
    assert(gt.take(1) =~= seq!['>']);
    assert(gt.take(2)[1] != '=');
    assert(lte.take(2) =~= seq!['<', '=']);
    assert(gte.take(2) =~= seq!['>', '=']);
    assert(eq.take(1) =~= seq!['=']);
    assert(gt.take(2)[0] == '>' && gt.take(1)[0] == '>');
    assert(gte.take(2)[0] == '>' && gte.take(1)[0] == '>');
    assert(eq.take(2)[0] == '=' && eq.take(1)[0] == '=');
    assert(text.take(1)[0] == text[0]);
    assert(text.len() >= 2 ==> text.take(2)[0] == text[0]);
    assert(seq!['<', '='][1] == '=' && seq!['>', '='][1] == '=');
    assert(seq!['<', '='][0] == '<' && seq!['>', '='][0] == '>');
    assert(seq!['<'][0] == '<' && seq!['>'][0] == '>' && seq!['='][0] == '=');
}

/// What stands behind an operator and is no version makes no constraint.
pub proof fn lemma_constraints_need_a_version(op: char, text: Seq<char>)
    requires
        op == '<' || op == '>' || op == '=',
        text.len() == 0 || !('0' <= text.first() <= '9') && text.first() != '.' && text.first()
            != '=',
    ensures
        constraint_of(seq![op] + text) is None,
{
    let whole = seq![op] + text;
    assert(whole.skip(1) =~= text);
    if version_of(text) is Some {
        lemma_version_starts_with_a_digit_or_dot(text);
    }
    assert(whole.len() >= 2 ==> whole.take(2)[1] == text[0]);
    assert(seq!['<', '='][1] == '=' && seq!['>', '='][1] == '=');
}

/// Versions compare number by number, and each operator says which outcomes
/// satisfy it.
pub proof fn lemma_operators_compare(running: KernelVersion, v: KernelVersion)
    ensures
        ({
            let before = running.major < v.major || running.major == v.major && (running.minor
                < v.minor || running.minor == v.minor && running.patch < v.patch);
            let same = running.major == v.major && running.minor == v.minor && running.patch
                == v.patch;
            &&& earlier(running, v) == before
            &&& satisfies(running, ConstraintOp::Lt, v) == before
            &&& satisfies(running, ConstraintOp::Lte, v) == (before || same)
            &&& satisfies(running, ConstraintOp::Gt, v) == (!before && !same)
            &&& satisfies(running, ConstraintOp::Gte, v) == !before
            &&& satisfies(running, ConstraintOp::Eq, v) == same
        }),
{
}

} // verus!
