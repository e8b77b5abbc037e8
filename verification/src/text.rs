//! Text as sequences of characters: trimming, splitting and replacing, each
//! with the meaning the standard library gives it.

use vstd::prelude::*;
use vstd::slice::{slice_subrange, slice_to_vec};
use vstd::string::*;

verus! {

/// `String::push` appends the given character to the end of the string.
pub assume_specification[ String::push ](s: &mut String, c: char)
    ensures
        final(s)@ == old(s)@.push(c),
;

/// The Unicode `White_Space` characters.
pub open spec fn is_white_space(c: char) -> bool {
    let code: int = c as int;
    ||| 0x09 <= code <= 0x0d
    ||| code == 0x20
    ||| code == 0x85
    ||| code == 0xa0
    ||| code == 0x1680
    ||| 0x2000 <= code <= 0x200a
    ||| code == 0x2028
    ||| code == 0x2029
    ||| code == 0x202f
    ||| code == 0x205f
    ||| code == 0x3000
}

/// The set of white space characters.
pub open spec fn white() -> spec_fn(char) -> bool {
    |c: char| is_white_space(c)
}

/// The set that holds one character.
pub open spec fn only(sep: char) -> spec_fn(char) -> bool {
    |c: char| c == sep
}

/// `s` without its longest prefix of characters of `set`.
pub open spec fn strip_front(s: Seq<char>, set: spec_fn(char) -> bool) -> Seq<char>
    decreases s.len(),
{
    if s.len() > 0 && set(s.first()) {
        strip_front(s.drop_first(), set)
    } else {
        s
    }
}

/// `s` without its longest suffix of characters of `set`.
pub open spec fn strip_back(s: Seq<char>, set: spec_fn(char) -> bool) -> Seq<char>
    decreases s.len(),
{
    if s.len() > 0 && set(s.last()) {
        strip_back(s.drop_last(), set)
    } else {
        s
    }
}

/// `s` without leading and trailing characters of `set`.
pub open spec fn strip(s: Seq<char>, set: spec_fn(char) -> bool) -> Seq<char> {
    strip_back(strip_front(s, set), set)
}

/// The pieces of `s` between characters of `set`; text without such a
/// character is one piece.
pub open spec fn split_by(s: Seq<char>, set: spec_fn(char) -> bool) -> Seq<Seq<char>>
    decreases s.len(),
{
    if s.len() == 0 {
        seq![Seq::<char>::empty()]
    } else {
        let before = split_by(s.drop_last(), set);
        if set(s.last()) {
            before.push(Seq::empty())
        } else {
            before.drop_last().push(before.last().push(s.last()))
        }
    }
}

/// The pieces of `s` between occurrences of `sep`.
pub open spec fn split(s: Seq<char>, sep: char) -> Seq<Seq<char>> {
    split_by(s, only(sep))
}

/// The pieces that hold at least one character.
pub open spec fn non_empty(pieces: Seq<Seq<char>>) -> Seq<Seq<char>> {
    pieces.filter(|piece: Seq<char>| piece.len() > 0)
}

/// The words of `s`: its non-empty pieces between white space.
pub open spec fn words(s: Seq<char>) -> Seq<Seq<char>> {
    non_empty(split_by(s, white()))
}

/// The position of the first `c` in `s`, or the length of `s` without one.
pub open spec fn position(s: Seq<char>, c: char) -> int
    decreases s.len(),
{
    if s.len() == 0 || s.first() == c {
        0
    } else {
        1 + position(s.drop_first(), c)
    }
}

/// What stands before and after the first `sep`.
pub open spec fn split_once(s: Seq<char>, sep: char) -> Option<(Seq<char>, Seq<char>)> {
    let at: int = position(s, sep);
    if at < s.len() {
        Some((s.take(at), s.skip(at + 1)))
    } else {
        None
    }
}

/// Whether `s` begins with `prefix`.
pub open spec fn starts_with(s: Seq<char>, prefix: Seq<char>) -> bool {
    s.len() >= prefix.len() && s.take(prefix.len() as int) == prefix
}

/// Whether `s` ends with `suffix`.
pub open spec fn ends_with(s: Seq<char>, suffix: Seq<char>) -> bool {
    s.len() >= suffix.len() && s.skip(s.len() - suffix.len()) == suffix
}

/// `s` with each occurrence of the non-empty `pattern`, found from the left
/// and without overlap, exchanged for `with`.
pub open spec fn replace(s: Seq<char>, pattern: Seq<char>, with: Seq<char>) -> Seq<char>
    decreases s.len(),
{
    if pattern.len() == 0 || s.len() == 0 {
        s
    } else if starts_with(s, pattern) {
        with + replace(s.skip(pattern.len() as int), pattern, with)
    } else {
        seq![s.first()] + replace(s.drop_first(), pattern, with)
    }
}

/// `s` without one carriage return at its end.
pub open spec fn without_carriage_return(s: Seq<char>) -> Seq<char> {
    if s.len() > 0 && s.last() == '\r' {
        s.drop_last()
    } else {
        s
    }
}

/// The lines of `s`: each ends with a line feed, which a carriage return may
/// precede; what follows the last line feed is a line if it is not empty.
pub open spec fn lines(s: Seq<char>) -> Seq<Seq<char>> {
    let pieces = split(s, '\n');
    let ended = pieces.drop_last().map_values(|line: Seq<char>| without_carriage_return(line));
    if pieces.last().len() > 0 {
        ended.push(pieces.last())
    } else {
        ended
    }
}

/// The characters behind each piece of a split.
pub open spec fn pieces_of(pieces: Seq<Vec<char>>) -> Seq<Seq<char>> {
    pieces.map_values(|piece: Vec<char>| piece@)
}

/// The characters of a string, in order.
pub fn chars_of(s: &str) -> (chars: Vec<char>)
    ensures
        chars@ == s@,
{
    let mut chars: Vec<char> = Vec::new();
    for c in it: s.chars()
        invariant
            chars@ == it.seq().take(it.index() as int),
            it.seq() == s@,
    {
        chars.push(c);
        assert(it.seq().take(it.index() + 1) =~= it.seq().take(it.index() as int).push(c));
    }
    chars
}

/// The string made of the given characters.
pub fn text_of(chars: &[char]) -> (s: String)
    ensures
        s@ == chars@,
{
    let mut s = String::new();
    for i in 0..chars.len()
        invariant
            s@ == chars@.take(i as int),
    {
        s.push(chars[i]);
        assert(chars@.take(i + 1) =~= chars@.take(i as int).push(chars@[i as int]));
    }
    assert(chars@.take(chars@.len() as int) =~= chars@);
    s
}

/// Whether two sequences of characters are the same.
pub fn same_chars(a: &[char], b: &[char]) -> (same: bool)
    ensures
        same == (a@ == b@),
{
    if a.len() != b.len() {
        return false;
    }
    for i in 0..a.len()
        invariant
            a@.len() == b@.len(),
            forall|j: int| 0 <= j < i ==> a@[j] == b@[j],
    {
        if a[i] != b[i] {
            return false;
        }
    }
    assert(a@ =~= b@);
    true
}

/// Whether two strings are the same.
pub fn same_text(a: &str, b: &str) -> (same: bool)
    ensures
        same == (a@ == b@),
{
    same_chars(&chars_of(a), &chars_of(b))
}

/// Whether `c` is a white space character.
pub fn is_space(c: char) -> (space: bool)
    ensures
        space == is_white_space(c),
{
    let code: u32 = c as u32;
    (0x09 <= code && code <= 0x0d) || code == 0x20 || code == 0x85 || code == 0xa0 || code == 0x1680
        || (0x2000 <= code && code <= 0x200a) || code == 0x2028 || code == 0x2029 || code == 0x202f
        || code == 0x205f || code == 0x3000
}

/// `s` without trailing white space.
pub fn trim_end(s: &[char]) -> (trimmed: &[char])
    ensures
        trimmed@ == strip_back(s@, white()),
{
    let mut end: usize = s.len();
    assert(s@.take(end as int) =~= s@);
    while end > 0 && is_space(s[end - 1])
        invariant
            end <= s@.len(),
            strip_back(s@, white()) == strip_back(s@.take(end as int), white()),
        decreases end,
    {
        assert(s@.take(end as int).drop_last() =~= s@.take(end - 1));
        end = end - 1;
    }
    assert(s@.subrange(0, end as int) =~= s@.take(end as int));
    slice_subrange(s, 0, end)
}

/// `s` without leading and trailing white space.
pub fn trim(s: &[char]) -> (trimmed: &[char])
    ensures
        trimmed@ == strip(s@, white()),
{
    let mut start: usize = 0;
    assert(s@.skip(0) =~= s@);
    while start < s.len() && is_space(s[start])
        invariant
            start <= s@.len(),
            strip_front(s@, white()) == strip_front(s@.skip(start as int), white()),
        decreases s@.len() - start,
    {
        assert(s@.skip(start as int).drop_first() =~= s@.skip(start + 1));
        start = start + 1;
    }
    assert(s@.subrange(start as int, s@.len() as int) =~= s@.skip(start as int));
    trim_end(slice_subrange(s, start, s.len()))
}

/// `s` without leading and trailing occurrences of `c`.
pub fn trim_matches(s: &[char], c: char) -> (trimmed: &[char])
    ensures
        trimmed@ == strip(s@, only(c)),
{
    let mut start: usize = 0;
    assert(s@.skip(0) =~= s@);
    while start < s.len() && s[start] == c
        invariant
            start <= s@.len(),
            strip_front(s@, only(c)) == strip_front(s@.skip(start as int), only(c)),
        decreases s@.len() - start,
    {
        assert(s@.skip(start as int).drop_first() =~= s@.skip(start + 1));
        start = start + 1;
    }
    let ghost front = s@.skip(start as int);
    let mut end: usize = s.len();
    assert(s@.subrange(start as int, end as int) =~= front);
    while end > start && s[end - 1] == c
        invariant
            start <= end <= s@.len(),
            strip_back(front, only(c)) == strip_back(
                s@.subrange(start as int, end as int),
                only(c),
            ),
        decreases end,
    {
        assert(s@.subrange(start as int, end as int).drop_last() =~= s@.subrange(
            start as int,
            end - 1,
        ));
        end = end - 1;
    }
    slice_subrange(s, start, end)
}

/// The pieces of `s` between occurrences of `sep`.
pub fn split_chars(s: &[char], sep: char) -> (pieces: Vec<Vec<char>>)
    ensures
        pieces_of(pieces@) == split(s@, sep),
        pieces@.len() > 0,
{
    let mut done: Vec<Vec<char>> = Vec::new();
    let mut piece: Vec<char> = Vec::new();
    for i in 0..s.len()
        invariant
            split(s@.take(i as int), sep) == pieces_of(done@).push(piece@),
    {
        let c = s[i];
        assert(s@.take(i + 1).drop_last() =~= s@.take(i as int));
        let ghost before = pieces_of(done@).push(piece@);
        if c == sep {
            let ghost old_done = done@;
            done.push(piece);
            piece = Vec::new();
            assert(pieces_of(done@) =~= before);
        } else {
            piece.push(c);
            assert(before.drop_last() =~= pieces_of(done@));
        }
    }
    assert(s@.take(s@.len() as int) =~= s@);
    let ghost all = pieces_of(done@).push(piece@);
    done.push(piece);
    assert(pieces_of(done@) =~= all);
    done
}

/// The words of `s`.
pub fn split_words(s: &[char]) -> (pieces: Vec<Vec<char>>)
    ensures
        pieces_of(pieces@) == words(s@),
{
    let ghost keep = |piece: Seq<char>| piece.len() > 0;
    let mut done: Vec<Vec<char>> = Vec::new();
    let ghost mut all: Seq<Seq<char>> = Seq::empty();
    let mut piece: Vec<char> = Vec::new();
    for i in 0..s.len()
        invariant
            keep == (|piece: Seq<char>| piece.len() > 0),
            split_by(s@.take(i as int), white()) == all.push(piece@),
            pieces_of(done@) == all.filter(keep),
    {
        let c = s[i];
        assert(s@.take(i + 1).drop_last() =~= s@.take(i as int));
        let ghost old_all = all;
        if is_space(c) {
            proof {
                all = all.push(piece@);
                assert(all.drop_last() =~= old_all);
                reveal(Seq::filter);
            }
            if piece.len() > 0 {
                let ghost grown = pieces_of(done@).push(piece@);
                done.push(piece);
                assert(pieces_of(done@) =~= grown);
            }
            piece = Vec::new();
        } else {
            let ghost before = all.push(piece@);
            piece.push(c);
            assert(before.drop_last() =~= all);
        }
    }
    assert(s@.take(s@.len() as int) =~= s@);
    proof {
        assert(all.push(piece@).drop_last() =~= all);
        reveal(Seq::filter);
    }
    if piece.len() > 0 {
        let ghost grown = pieces_of(done@).push(piece@);
        done.push(piece);
        assert(pieces_of(done@) =~= grown);
    }
    done
}

/// The position of the first `c` in `s`, or the length of `s` without one.
pub fn position_of(s: &[char], c: char) -> (at: usize)
    ensures
        at == position(s@, c),
        at <= s@.len(),
{
    let mut at: usize = 0;
    assert(s@.skip(0) =~= s@);
    while at < s.len() && s[at] != c
        invariant
            at <= s@.len(),
            position(s@, c) == at + position(s@.skip(at as int), c),
        decreases s@.len() - at,
    {
        assert(s@.skip(at as int).drop_first() =~= s@.skip(at + 1));
        at = at + 1;
    }
    at
}

/// What stands before and after the first `sep`.
pub fn split_pair(s: &[char], sep: char) -> (pair: Option<(Vec<char>, Vec<char>)>)
    ensures
        match pair {
            Some((before, after)) => split_once(s@, sep) == Some((before@, after@)),
            None => split_once(s@, sep) is None,
        },
{
    let at: usize = position_of(s, sep);
    if at < s.len() {
        assert(s@.subrange(0, at as int) =~= s@.take(at as int));
        assert(s@.subrange(at + 1, s@.len() as int) =~= s@.skip(at + 1));
        Some(
            (
                slice_to_vec(slice_subrange(s, 0, at)),
                slice_to_vec(slice_subrange(s, at + 1, s.len())),
            ),
        )
    } else {
        None
    }
}

/// Whether `s` has `prefix` at its front.
pub fn has_prefix(s: &[char], prefix: &[char]) -> (has: bool)
    ensures
        has == starts_with(s@, prefix@),
{
    if s.len() < prefix.len() {
        return false;
    }
    assert(s@.subrange(0, prefix@.len() as int) =~= s@.take(prefix@.len() as int));
    same_chars(slice_subrange(s, 0, prefix.len()), prefix)
}

/// Whether `s` has `suffix` at its end.
pub fn has_suffix(s: &[char], suffix: &[char]) -> (has: bool)
    ensures
        has == ends_with(s@, suffix@),
{
    if s.len() < suffix.len() {
        return false;
    }
    let from: usize = s.len() - suffix.len();
    assert(s@.subrange(from as int, s@.len() as int) =~= s@.skip(from as int));
    same_chars(slice_subrange(s, from, s.len()), suffix)
}

/// `s` with each occurrence of `pattern` exchanged for `with`.
pub fn replace_all(s: &[char], pattern: &[char], with: &[char]) -> (replaced: Vec<char>)
    requires
        pattern@.len() > 0,
    ensures
        replaced@ == replace(s@, pattern@, with@),
{
    let mut replaced: Vec<char> = Vec::new();
    let mut at: usize = 0;
    assert(s@.skip(0) =~= s@);
    assert(replaced@ + s@ =~= s@);
    assert(replaced@ + replace(s@, pattern@, with@) =~= replace(s@, pattern@, with@));
    while at < s.len()
        invariant
            pattern@.len() > 0,
            at <= s@.len(),
            replace(s@, pattern@, with@) == replaced@ + replace(
                s@.skip(at as int),
                pattern@,
                with@,
            ),
        decreases s@.len() - at,
    {
        let ghost rest = s@.skip(at as int);
        let ghost sofar = replaced@;
        assert(s@.subrange(at as int, s@.len() as int) =~= rest);
        if has_prefix(slice_subrange(s, at, s.len()), pattern) {
            let ghost tail = replace(rest.skip(pattern@.len() as int), pattern@, with@);
            for i in 0..with.len()
                invariant
                    replaced@ == sofar + with@.take(i as int),
            {
                replaced.push(with[i]);
                assert(with@.take(i + 1) =~= with@.take(i as int).push(with@[i as int]));
                assert(replaced@ =~= sofar + with@.take(i + 1));
            }
            assert(with@.take(with@.len() as int) =~= with@);
            assert(rest.skip(pattern@.len() as int) =~= s@.skip(at + pattern@.len()));
            assert(sofar + (with@ + tail) =~= (sofar + with@) + tail);
            at = at + pattern.len();
        } else {
            let ghost tail = replace(rest.drop_first(), pattern@, with@);
            replaced.push(s[at]);
            assert(rest.drop_first() =~= s@.skip(at + 1));
            assert(sofar + (seq![rest.first()] + tail) =~= replaced@ + tail);
            at = at + 1;
        }
    }
    assert(s@.skip(at as int) =~= Seq::<char>::empty());
    assert(replaced@ + Seq::<char>::empty() =~= replaced@);
    replaced
}

/// The lines of `s`.
pub fn split_lines(s: &[char]) -> (found: Vec<Vec<char>>)
    ensures
        pieces_of(found@) == lines(s@),
{
    let pieces = split_chars(s, '\n');
    let ghost all = pieces_of(pieces@);
    let ghost clean = |line: Seq<char>| without_carriage_return(line);
    let mut found: Vec<Vec<char>> = Vec::new();
    let last: usize = pieces.len() - 1;
    for i in 0..last
        invariant
            last + 1 == pieces@.len(),
            all == pieces_of(pieces@),
            clean == (|line: Seq<char>| without_carriage_return(line)),
            pieces_of(found@) == all.take(i as int).map_values(clean),
    {
        let piece = &pieces[i];
        assert(piece@ == all[i as int]);
        let end: usize = if piece.len() > 0 && piece[piece.len() - 1] == '\r' {
            piece.len() - 1
        } else {
            piece.len()
        };
        assert(piece@.subrange(0, end as int) =~= without_carriage_return(piece@));
        let line = slice_to_vec(slice_subrange(piece.as_slice(), 0, end));
        let ghost grown = pieces_of(found@).push(line@);
        found.push(line);
        assert(pieces_of(found@) =~= grown);
        assert(all.take(i + 1).map_values(clean) =~= all.take(i as int).map_values(clean).push(
            clean(all[i as int]),
        ));
    }
    assert(all.take(last as int) =~= all.drop_last());
    let rest = &pieces[last];
    assert(rest@ == all.last());
    if rest.len() > 0 {
        let line = slice_to_vec(rest.as_slice());
        let ghost grown = pieces_of(found@).push(line@);
        found.push(line);
        assert(pieces_of(found@) =~= grown);
    }
    found
}

/// A split has a piece, and no piece holds the separator.
pub proof fn lemma_pieces_hold_no_separator(s: Seq<char>, sep: char)
    ensures
        split(s, sep).len() > 0,
        forall|i: int| 0 <= i < split(s, sep).len() ==> !(#[trigger] split(s, sep)[i]).contains(sep),
    decreases s.len(),
{
    if s.len() > 0 {
        lemma_pieces_hold_no_separator(s.drop_last(), sep);
        let before = split(s.drop_last(), sep);
        let pieces = split(s, sep);
        assert forall|i: int| 0 <= i < pieces.len() implies !(#[trigger] pieces[i]).contains(sep) by {
            if i < before.len() - 1 {
                assert(pieces[i] == before[i]);
            } else if s.last() == sep {
                assert(i < before.len() ==> pieces[i] == before[i]);
            } else {
                let old_piece = before.last();
                assert(pieces[i] == old_piece.push(s.last()));
                assert(!before[before.len() - 1].contains(sep));
                if pieces[i].contains(sep) {
                    let k = choose|k: int| 0 <= k < pieces[i].len() && pieces[i][k] == sep;
                    assert(old_piece[k] == sep);
                }
            }
        }
    }
}

/// Text without the separator is its own only piece.
pub proof fn lemma_split_without_separator(s: Seq<char>, sep: char)
    requires
        !s.contains(sep),
    ensures
        split(s, sep) == seq![s],
    decreases s.len(),
{
    if s.len() > 0 {
        assert forall|i: int| 0 <= i < s.drop_last().len() implies s.drop_last()[i] != sep by {
            assert(s.contains(s[i]));
        }
        lemma_split_without_separator(s.drop_last(), sep);
        assert(s.contains(s.last()));
        assert(s.drop_last().push(s.last()) =~= s);
        assert(split(s, sep) =~= seq![s]);
    } else {
        assert(s =~= Seq::<char>::empty());
    }
}

/// The pieces of two texts with a separator between them are the pieces of
/// the one followed by the pieces of the other.
pub proof fn lemma_split_at_separator(a: Seq<char>, b: Seq<char>, sep: char)
    ensures
        split(a.push(sep) + b, sep) == split(a, sep) + split(b, sep),
    decreases b.len(),
{
    let whole = a.push(sep) + b;
    if b.len() == 0 {
        assert(whole =~= a.push(sep));
        assert(whole.drop_last() =~= a);
        assert(split(whole, sep) =~= split(a, sep) + split(b, sep));
    } else {
        lemma_split_at_separator(a, b.drop_last(), sep);
        lemma_pieces_hold_no_separator(b.drop_last(), sep);
        assert(whole.drop_last() =~= a.push(sep) + b.drop_last());
        assert(split(whole, sep) =~= split(a, sep) + split(b, sep));
    }
}

/// Stripping removes just the edge: what stands between a prefix and a suffix
/// of characters of the set, and neither begins nor ends with one, is left.
pub proof fn lemma_strip_leaves_the_core(
    front: Seq<char>,
    core: Seq<char>,
    back: Seq<char>,
    set: spec_fn(char) -> bool,
)
    requires
        forall|i: int| 0 <= i < front.len() ==> set(#[trigger] front[i]),
        forall|i: int| 0 <= i < back.len() ==> set(#[trigger] back[i]),
        core.len() > 0,
        !set(core.first()),
        !set(core.last()),
    ensures
        strip(front + core + back, set) == core,
        strip_back(front + core + back, set) == front + core,
{
    lemma_strip_front_of(front, core + back, set);
    assert(front + core + back =~= front + (core + back));
    lemma_strip_back_of(core, back, set);
    lemma_strip_back_of(front + core, back, set);
}

/// Text that is all of the set is stripped to nothing.
pub proof fn lemma_strip_leaves_nothing(s: Seq<char>, set: spec_fn(char) -> bool)
    requires
        forall|i: int| 0 <= i < s.len() ==> set(#[trigger] s[i]),
    ensures
        strip(s, set) == Seq::<char>::empty(),
        strip_back(s, set) == Seq::<char>::empty(),
{
    let none = Seq::<char>::empty();
    lemma_strip_front_of(s, none, set);
    assert(s + none =~= s);
    lemma_strip_back_of(none, s, set);
    assert(none + s =~= s);
}

/// A prefix of characters of the set is stripped.
proof fn lemma_strip_front_of(front: Seq<char>, rest: Seq<char>, set: spec_fn(char) -> bool)
    requires
        forall|i: int| 0 <= i < front.len() ==> set(#[trigger] front[i]),
        rest.len() > 0 ==> !set(rest.first()),
    ensures
        strip_front(front + rest, set) == rest,
    decreases front.len(),
{
    if front.len() == 0 {
        assert(front + rest =~= rest);
    } else {
        assert(set(front[0]));
        assert((front + rest).drop_first() =~= front.drop_first() + rest);
        assert forall|i: int| 0 <= i < front.drop_first().len() implies set(
            #[trigger] front.drop_first()[i],
        ) by {
            assert(front.drop_first()[i] == front[i + 1]);
        }
        lemma_strip_front_of(front.drop_first(), rest, set);
    }
}

/// A suffix of characters of the set is stripped.
proof fn lemma_strip_back_of(rest: Seq<char>, back: Seq<char>, set: spec_fn(char) -> bool)
    requires
        forall|i: int| 0 <= i < back.len() ==> set(#[trigger] back[i]),
        rest.len() > 0 ==> !set(rest.last()),
    ensures
        strip_back(rest + back, set) == rest,
    decreases back.len(),
{
    if back.len() == 0 {
        assert(rest + back =~= rest);
    } else {
        assert(set(back[back.len() - 1]));
        assert((rest + back).drop_last() =~= rest + back.drop_last());
        assert forall|i: int| 0 <= i < back.drop_last().len() implies set(
            #[trigger] back.drop_last()[i],
        ) by {
            assert(back.drop_last()[i] == back[i]);
        }
        lemma_strip_back_of(rest, back.drop_last(), set);
    }
}

/// The first separator parts a text in two; without one there are no parts.
pub proof fn lemma_split_once_at_the_first(a: Seq<char>, b: Seq<char>, sep: char)
    requires
        !a.contains(sep),
    ensures
        split_once(a + seq![sep] + b, sep) == Some((a, b)),
        split_once(a, sep) is None,
{
    let whole = a + seq![sep] + b;
    lemma_position_of_first(a, seq![sep] + b, sep);
    assert(whole =~= a + (seq![sep] + b));
    assert(whole.take(a.len() as int) =~= a);
    assert(whole.skip(a.len() as int + 1) =~= b);
    lemma_position_of_first(a, Seq::empty(), sep);
    assert(a + Seq::<char>::empty() =~= a);
}

/// The first place of a character, or the end of a text that does not hold it.
pub proof fn lemma_position_of_first(a: Seq<char>, rest: Seq<char>, c: char)
    requires
        !a.contains(c),
        rest.len() == 0 || rest.first() == c,
    ensures
        position(a + rest, c) == a.len(),
    decreases a.len(),
{
    if a.len() == 0 {
        assert(a + rest =~= rest);
    } else {
        assert(a.contains(a[0]));
        assert((a + rest).drop_first() =~= a.drop_first() + rest);
        assert forall|i: int| 0 <= i < a.drop_first().len() implies a.drop_first()[i] != c by {
            assert(a.contains(a[i + 1]));
        }
        lemma_position_of_first(a.drop_first(), rest, c);
    }
}

/// A text begins with a prefix and ends with a suffix exactly where it is made
/// up of it and the rest.
pub proof fn lemma_edges(a: Seq<char>, b: Seq<char>, s: Seq<char>)
    ensures
        starts_with(a + b, a),
        ends_with(a + b, b),
        starts_with(s, a) ==> s == a + s.skip(a.len() as int),
        ends_with(s, b) ==> s == s.take(s.len() - b.len()) + b,
{
    assert((a + b).take(a.len() as int) =~= a);
    assert((a + b).skip((a + b).len() - b.len()) =~= b);
    if starts_with(s, a) {
        assert(s =~= s.take(a.len() as int) + s.skip(a.len() as int));
    }
    if ends_with(s, b) {
        assert(s =~= s.take(s.len() - b.len()) + s.skip(s.len() - b.len()));
    }
}

/// Whether a pattern stands in a text at a place.
pub open spec fn stands_at(s: Seq<char>, pattern: Seq<char>, at: int) -> bool {
    0 <= at && at + pattern.len() <= s.len() && s.subrange(at, at + pattern.len()) == pattern
}

/// Replacing exchanges the first occurrence of the pattern and goes on behind
/// it.
pub proof fn lemma_replace_exchanges_the_first(
    a: Seq<char>,
    b: Seq<char>,
    pattern: Seq<char>,
    with: Seq<char>,
)
    requires
        pattern.len() > 0,
        forall|at: int| 0 <= at < a.len() ==> !#[trigger] stands_at(a + pattern + b, pattern, at),
    ensures
        replace(a + pattern + b, pattern, with) == a + with + replace(b, pattern, with),
    decreases a.len(),
{
    let whole = a + pattern + b;
    if a.len() == 0 {
        assert(whole =~= pattern + b);
        assert(whole.take(pattern.len() as int) =~= pattern);
        assert(whole.skip(pattern.len() as int) =~= b);
        assert(a + with =~= with);
    } else {
        let rest = a.drop_first();
        let shorter = rest + pattern + b;
        assert(whole.drop_first() =~= shorter);
        assert forall|at: int| 0 <= at < rest.len() implies !#[trigger] stands_at(
            shorter,
            pattern,
            at,
        ) by {
            assert(!stands_at(whole, pattern, at + 1));
            if stands_at(shorter, pattern, at) {
                assert(whole.subrange(at + 1, at + 1 + pattern.len()) =~= shorter.subrange(
                    at,
                    at + pattern.len(),
                ));
            }
        }
        lemma_replace_exchanges_the_first(rest, b, pattern, with);
        assert(!stands_at(whole, pattern, 0));
        assert(whole.subrange(0, pattern.len() as int) =~= whole.take(pattern.len() as int));
        assert(replace(whole, pattern, with) == seq![a.first()] + replace(shorter, pattern, with));
        assert(seq![a.first()] + (rest + with + replace(b, pattern, with)) =~= a + with + replace(
            b,
            pattern,
            with,
        ));
    }
}

/// Replacing leaves a text alone where the pattern does not occur.
pub proof fn lemma_replace_leaves_the_rest(a: Seq<char>, pattern: Seq<char>, with: Seq<char>)
    requires
        pattern.len() > 0,
        forall|at: int| 0 <= at < a.len() ==> !#[trigger] stands_at(a, pattern, at),
    ensures
        replace(a, pattern, with) == a,
    decreases a.len(),
{
    if a.len() > 0 {
        let rest = a.drop_first();
        assert forall|at: int| 0 <= at < rest.len() implies !#[trigger] stands_at(
            rest,
            pattern,
            at,
        ) by {
            assert(!stands_at(a, pattern, at + 1));
            if stands_at(rest, pattern, at) {
                assert(a.subrange(at + 1, at + 1 + pattern.len()) =~= rest.subrange(
                    at,
                    at + pattern.len(),
                ));
            }
        }
        lemma_replace_leaves_the_rest(rest, pattern, with);
        assert(!stands_at(a, pattern, 0));
        if starts_with(a, pattern) {
            assert(a.subrange(0, pattern.len() as int) =~= a.take(pattern.len() as int));
        }
        assert(seq![a.first()] + rest =~= a);
    }
}

/// A line feed ends a line, with the carriage return before it; what follows
/// are the other lines. Text without a line feed is a line unless it is empty.
pub proof fn lemma_lines_end_at_line_feeds(a: Seq<char>, b: Seq<char>)
    requires
        !a.contains('\n'),
    ensures
        lines(a.push('\n') + b) == seq![
            if a.len() > 0 && a.last() == '\r' {
                a.drop_last()
            } else {
                a
            },
        ] + lines(b),
        a.len() > 0 ==> lines(a) == seq![a],
        a.len() == 0 ==> lines(a) == Seq::<Seq<char>>::empty(),
{
    lemma_split_at_separator(a, b, '\n');
    lemma_split_without_separator(a, '\n');
    lemma_pieces_hold_no_separator(b, '\n');
    let whole = a.push('\n') + b;
    let f = |line: Seq<char>| without_carriage_return(line);
    let rest = split(b, '\n');
    assert(split(whole, '\n') =~= seq![a] + rest);
    assert(split(whole, '\n').drop_last().map_values(f) =~= seq![without_carriage_return(a)]
        + rest.drop_last().map_values(f));
    assert(split(whole, '\n').last() == rest.last());
    assert(lines(whole) =~= seq![without_carriage_return(a)] + lines(b));
    assert(split(a, '\n').drop_last().map_values(f) =~= Seq::<Seq<char>>::empty());
    assert(lines(a) =~= if a.len() > 0 {
        seq![a]
    } else {
        Seq::empty()
    });
}

/// Pieces of a split between characters of a set.
proof fn lemma_split_by_at(a: Seq<char>, sep: char, b: Seq<char>, set: spec_fn(char) -> bool)
    requires
        set(sep),
    ensures
        split_by(a, set).len() > 0,
        split_by(b, set).len() > 0,
        split_by(a.push(sep) + b, set) == split_by(a, set) + split_by(b, set),
    decreases a.len() + 2 * b.len(),
{
    let whole = a.push(sep) + b;
    if a.len() > 0 {
        lemma_split_by_at(a.drop_last(), sep, Seq::empty(), set);
    }
    if b.len() == 0 {
        assert(whole =~= a.push(sep));
        assert(whole.drop_last() =~= a);
        assert(split_by(whole, set) =~= split_by(a, set) + split_by(b, set));
    } else {
        lemma_split_by_at(a, sep, b.drop_last(), set);
        assert(whole.drop_last() =~= a.push(sep) + b.drop_last());
        assert(split_by(whole, set) =~= split_by(a, set) + split_by(b, set));
    }
}

/// Text without characters of the set is one piece.
proof fn lemma_split_by_none(s: Seq<char>, set: spec_fn(char) -> bool)
    requires
        forall|i: int| 0 <= i < s.len() ==> !set(#[trigger] s[i]),
    ensures
        split_by(s, set) == seq![s],
    decreases s.len(),
{
    if s.len() > 0 {
        assert(!set(s[s.len() - 1]));
        assert forall|i: int| 0 <= i < s.drop_last().len() implies !set(
            #[trigger] s.drop_last()[i],
        ) by {
            assert(s.drop_last()[i] == s[i]);
        }
        lemma_split_by_none(s.drop_last(), set);
        assert(s.drop_last().push(s.last()) =~= s);
        assert(split_by(s, set) =~= seq![s]);
    } else {
        assert(s =~= Seq::<char>::empty());
    }
}

/// Keeping the pieces that are not empty works piece by piece.
pub proof fn lemma_non_empty_of(a: Seq<Seq<char>>, b: Seq<Seq<char>>)
    ensures
        non_empty(a + b) == non_empty(a) + non_empty(b),
    decreases b.len(),
{
    reveal(Seq::filter);
    if b.len() == 0 {
        assert(a + b =~= a);
        assert(non_empty(b) =~= Seq::<Seq<char>>::empty());
        assert(non_empty(a) + non_empty(b) =~= non_empty(a));
    } else {
        lemma_non_empty_of(a, b.drop_last());
        assert((a + b).drop_last() =~= a + b.drop_last());
        assert(non_empty(a + b) =~= non_empty(a) + non_empty(b));
    }
}

/// White space parts words: the words of two texts with white space between
/// them are those of the one and those of the other, and text without white
/// space is one word unless it is empty.
pub proof fn lemma_words_are_parted_by_white_space(a: Seq<char>, sep: char, b: Seq<char>)
    requires
        is_white_space(sep),
    ensures
        words(a.push(sep) + b) == words(a) + words(b),
        (forall|i: int| 0 <= i < a.len() ==> !is_white_space(#[trigger] a[i])) ==> words(a) == (
        if a.len() > 0 {
            seq![a]
        } else {
            Seq::empty()
        }),
{
    lemma_split_by_at(a, sep, b, white());
    lemma_non_empty_of(split_by(a, white()), split_by(b, white()));
    if forall|i: int| 0 <= i < a.len() ==> !is_white_space(#[trigger] a[i]) {
        assert forall|i: int| 0 <= i < a.len() implies !white()(#[trigger] a[i]) by {}
        lemma_split_by_none(a, white());
        let keep = |piece: Seq<char>| piece.len() > 0;
        let one = seq![a];
        assert(one.drop_last() =~= Seq::<Seq<char>>::empty());
        reveal(Seq::filter);
        assert(Seq::<Seq<char>>::empty().filter(keep) =~= Seq::<Seq<char>>::empty());
        assert(one.filter(keep) =~= if a.len() > 0 {
            seq![a]
        } else {
            Seq::empty()
        });
    }
}

/// What stripping removes is a prefix and a suffix of characters of the set.
pub proof fn lemma_strip_parts(s: Seq<char>, set: spec_fn(char) -> bool) -> (parts: (
    Seq<char>,
    Seq<char>,
))
    ensures
        s == parts.0 + strip(s, set) + parts.1,
        forall|i: int| 0 <= i < parts.0.len() ==> set(#[trigger] parts.0[i]),
        forall|i: int| 0 <= i < parts.1.len() ==> set(#[trigger] parts.1[i]),
        strip(s, set).len() > 0 ==> !set(strip(s, set).first()) && !set(strip(s, set).last()),
{
    let front = lemma_strip_front_part(s, set);
    let inner = strip_front(s, set);
    let back = lemma_strip_back_part(inner, set);
    assert(s =~= front + strip(s, set) + back);
    if strip(s, set).len() > 0 {
        assert(inner.first() == strip(s, set).first());
    }
    (front, back)
}

/// What stripping removes in front.
proof fn lemma_strip_front_part(s: Seq<char>, set: spec_fn(char) -> bool) -> (front: Seq<char>)
    ensures
        s == front + strip_front(s, set),
        forall|i: int| 0 <= i < front.len() ==> set(#[trigger] front[i]),
        strip_front(s, set).len() > 0 ==> !set(strip_front(s, set).first()),
    decreases s.len(),
{
    if s.len() > 0 && set(s.first()) {
        let rest = lemma_strip_front_part(s.drop_first(), set);
        let front = seq![s.first()] + rest;
        let left = strip_front(s.drop_first(), set);
        assert(s =~= seq![s.first()] + s.drop_first());
        assert(front + left =~= seq![s.first()] + (rest + left));
        assert forall|i: int| 0 <= i < front.len() implies set(#[trigger] front[i]) by {
            if i > 0 {
                assert(front[i] == rest[i - 1]);
            }
        }
        front
    } else {
        assert(s =~= Seq::<char>::empty() + s);
        Seq::empty()
    }
}

/// What stripping removes at the back.
proof fn lemma_strip_back_part(s: Seq<char>, set: spec_fn(char) -> bool) -> (back: Seq<char>)
    ensures
        s == strip_back(s, set) + back,
        forall|i: int| 0 <= i < back.len() ==> set(#[trigger] back[i]),
        strip_back(s, set).len() > 0 ==> !set(strip_back(s, set).last()),
    decreases s.len(),
{
    if s.len() > 0 && set(s.last()) {
        let rest = lemma_strip_back_part(s.drop_last(), set);
        let back = rest.push(s.last());
        let left = strip_back(s.drop_last(), set);
        assert(s =~= s.drop_last().push(s.last()));
        assert(left + back =~= (left + rest).push(s.last()));
        back
    } else {
        assert(s =~= s + Seq::<char>::empty());
        Seq::empty()
    }
}

/// The white space characters: those that Unicode gives that property.
pub proof fn lemma_white_space_characters(c: char)
    ensures
        white()(c) == is_white_space(c),
        is_white_space(c) <==> (c == '\t' || c == '\n' || c == '\u{b}' || c == '\u{c}' || c == '\r'
            || c == ' ' || c == '\u{85}' || c == '\u{a0}' || c == '\u{1680}' || c == '\u{2000}' || c
            == '\u{2001}' || c == '\u{2002}' || c == '\u{2003}' || c == '\u{2004}' || c == '\u{2005}'
            || c == '\u{2006}' || c == '\u{2007}' || c == '\u{2008}' || c == '\u{2009}' || c
            == '\u{200a}' || c == '\u{2028}' || c == '\u{2029}' || c == '\u{202f}' || c == '\u{205f}'
            || c == '\u{3000}'),
{
}

/// Where two texts stand together, the last piece of the first and the first
/// piece of the second are one piece.
pub proof fn lemma_split_of_two(a: Seq<char>, b: Seq<char>, sep: char)
    ensures
        split(a, sep).len() > 0,
        split(b, sep).len() > 0,
        split(a + b, sep) == split(a, sep).drop_last() + seq![
            split(a, sep).last() + split(b, sep).first(),
        ] + split(b, sep).drop_first(),
    decreases b.len(),
{
    lemma_pieces_hold_no_separator(a, sep);
    lemma_pieces_hold_no_separator(b, sep);
    let left = split(a, sep);
    let right = split(b, sep);
    let whole = split(a + b, sep);
    if b.len() == 0 {
        assert(a + b =~= a);
        assert(left.last() + right.first() =~= left.last());
        assert(left.drop_last() + seq![left.last()] =~= left);
        assert(whole =~= left.drop_last() + seq![left.last() + right.first()]
            + right.drop_first());
    } else {
        let front = b.drop_last();
        let before = split(front, sep);
        lemma_split_of_two(a, front, sep);
        assert((a + b).drop_last() =~= a + front);
        let joined = left.drop_last() + seq![left.last() + before.first()] + before.drop_first();
        assert(split(a + front, sep) == joined);
        if b.last() == sep {
            assert(right == before.push(Seq::empty()));
            assert(right.drop_first() =~= before.drop_first().push(Seq::empty()));
            assert(whole =~= left.drop_last() + seq![left.last() + right.first()]
                + right.drop_first());
        } else {
            assert(right == before.drop_last().push(before.last().push(b.last())));
            assert(whole == joined.drop_last().push(joined.last().push(b.last())));
            if before.len() == 1 {
                assert(right.first() == before.first().push(b.last()));
                assert(joined.last() == left.last() + before.first());
                assert((left.last() + before.first()).push(b.last()) =~= left.last()
                    + right.first());
            } else {
                assert(right.first() == before.first());
                assert(joined.last() == before.last());
            }
            assert(whole =~= left.drop_last() + seq![left.last() + right.first()]
                + right.drop_first());
        }
    }
}

} // verus!
