//! Unix paths as text: joining, normalising, naming and renaming, with the
//! meaning `std::path` gives these operations on Unix.

use vstd::prelude::*;
use vstd::slice::slice_subrange;
use vstd::string::*;

use crate::text;
use crate::text::{chars_of, split_chars, text_of};

verus! {

/// Whether a path starts at the root.
pub open spec fn is_absolute(path: Seq<char>) -> bool {
    path.len() > 0 && path.first() == '/'
}

/// `path` seen from `base`: an absolute path replaces the base.
pub open spec fn join(base: Seq<char>, path: Seq<char>) -> Seq<char> {
    if is_absolute(path) {
        path
    } else if base.len() == 0 || base.last() == '/' {
        base + path
    } else {
        base.push('/') + path
    }
}

/// The piece that stands for the current directory.
pub open spec fn dot() -> Seq<char> {
    seq!['.']
}

/// The pieces of a path that name something.
pub open spec fn naming() -> spec_fn(Seq<char>) -> bool {
    |piece: Seq<char>| piece.len() > 0 && piece != dot()
}

/// A current-directory piece is kept only at the front of a relative path.
pub open spec fn leading_dot(path: Seq<char>) -> Seq<Seq<char>> {
    if !is_absolute(path) && text::split(path, '/').first() == dot() {
        seq![dot()]
    } else {
        Seq::empty()
    }
}

/// The components of a path below its root, if it has one.
pub open spec fn components(path: Seq<char>) -> Seq<Seq<char>> {
    leading_dot(path) + text::split(path, '/').filter(naming())
}

/// Pieces with one `/` between each and the next.
pub open spec fn joined(pieces: Seq<Seq<char>>) -> Seq<char>
    decreases pieces.len(),
{
    if pieces.len() == 0 {
        Seq::empty()
    } else if pieces.len() == 1 {
        pieces.first()
    } else {
        joined(pieces.drop_last()).push('/') + pieces.last()
    }
}

/// The root of a path, if it has one.
pub open spec fn root(path: Seq<char>) -> Seq<char> {
    if is_absolute(path) {
        seq!['/']
    } else {
        Seq::empty()
    }
}

/// A path rebuilt from its components.
pub open spec fn normalized(path: Seq<char>) -> Seq<char> {
    root(path) + joined(components(path))
}

/// `path` up to the end of its last component.
pub open spec fn without_trailing(path: Seq<char>) -> Seq<char>
    decreases path.len(),
{
    if path.len() > 0 && path.last() == '/' {
        without_trailing(path.drop_last())
    } else if path.len() > 1 && path.last() == '.' && path[path.len() - 2] == '/' {
        without_trailing(path.drop_last())
    } else {
        path
    }
}

/// The last component of a path, unless it is a root, `.` or `..`.
pub open spec fn file_name(path: Seq<char>) -> Option<Seq<char>> {
    let name = text::split(without_trailing(path), '/').last();
    if name.len() == 0 || name == dot() || name == seq!['.', '.'] {
        None
    } else {
        Some(name)
    }
}

/// The position of the last `c` in `s`, or -1 without one.
pub open spec fn last_position(s: Seq<char>, c: char) -> int
    decreases s.len(),
{
    if s.len() == 0 {
        -1
    } else if s.last() == c {
        s.len() - 1
    } else {
        last_position(s.drop_last(), c)
    }
}

/// How much of a file name precedes its extension.
pub open spec fn stem_len(name: Seq<char>) -> int {
    let at: int = last_position(name, '.');
    if at > 0 {
        at
    } else {
        name.len() as int
    }
}

/// The extension of the last component of a path, if it has one.
pub open spec fn extension(path: Seq<char>) -> Option<Seq<char>> {
    match file_name(path) {
        Some(name) => if stem_len(name) < name.len() {
            Some(name.skip(stem_len(name) + 1))
        } else {
            None
        },
        None => None,
    }
}

/// `path` with the extension of its last component exchanged for `extension`,
/// or removed where `extension` is empty; a path without a file name stays as
/// it is.
pub open spec fn with_extension(path: Seq<char>, extension: Seq<char>) -> Seq<char> {
    match file_name(path) {
        Some(name) => {
            let body = without_trailing(path);
            let stem = body.take(body.len() - name.len() + stem_len(name));
            if extension.len() == 0 {
                stem
            } else {
                stem.push('.') + extension
            }
        },
        None => path,
    }
}

/// Joins `path` onto `base`.
pub fn join_path(base: &str, path: &str) -> (whole: String)
    ensures
        whole@ == join(base@, path@),
{
    let path_chars = chars_of(path);
    if path_chars.len() > 0 && path_chars[0] == '/' {
        return path.to_string();
    }
    let base_chars = chars_of(base);
    let mut whole = base.to_string();
    if base_chars.len() > 0 && base_chars[base_chars.len() - 1] != '/' {
        whole.push('/');
    }
    whole.append(path);
    whole
}

/// Rebuilds a path from its components.
pub fn normalize_path(path: &str) -> (whole: String)
    ensures
        whole@ == normalized(path@),
{
    let chars = chars_of(path);
    let pieces = split_chars(&chars, '/');
    let ghost all = text::pieces_of(pieces@);
    let absolute = chars.len() > 0 && chars[0] == '/';
    let mut whole: Vec<char> = Vec::new();
    if absolute {
        whole.push('/');
    }
    assert(whole@ =~= root(path@));
    assert(pieces[0]@ == all[0]);
    let mut named = false;
    let ghost mut kept: Seq<Seq<char>> = Seq::empty();
    if !absolute && pieces[0].len() == 1 && pieces[0][0] == '.' {
        assert(pieces[0]@ =~= dot());
        whole.push('.');
        named = true;
        proof {
            kept = seq![dot()];
            assert(joined(kept) =~= dot());
        }
    }
    assert(kept =~= leading_dot(path@));
    assert(whole@ =~= root(path@) + joined(kept));
    assert(all.take(0).filter(naming()) =~= Seq::<Seq<char>>::empty()) by {
        reveal(Seq::filter);
    }
    for i in 0..pieces.len()
        invariant
            all == text::pieces_of(pieces@),
            all == text::split(path@, '/'),
            kept == leading_dot(path@) + all.take(i as int).filter(naming()),
            named == (kept.len() > 0),
            whole@ == root(path@) + joined(kept),
    {
        let piece = &pieces[i];
        assert(piece@ == all[i as int]);
        assert(all.take(i + 1).drop_last() =~= all.take(i as int));
        proof {
            reveal(Seq::filter);
        }
        if piece.len() > 0 && !(piece.len() == 1 && piece[0] == '.') {
            let ghost before = whole@;
            let ghost old_kept = kept;
            assert(piece@ != dot());
            if named {
                whole.push('/');
            }
            let ghost mid = whole@;
            for j in 0..piece.len()
                invariant
                    whole@ == mid + piece@.take(j as int),
            {
                whole.push(piece[j]);
                assert(piece@.take(j + 1) =~= piece@.take(j as int).push(piece@[j as int]));
                assert(whole@ =~= mid + piece@.take(j + 1));
            }
            assert(piece@.take(piece@.len() as int) =~= piece@);
            proof {
                kept = kept.push(piece@);
                assert(kept.drop_last() =~= old_kept);
                assert(whole@ =~= root(path@) + joined(kept));
            }
            named = true;
        } else {
            assert(piece.len() == 1 ==> piece@ =~= dot());
        }
        assert(kept =~= leading_dot(path@) + all.take(i + 1).filter(naming()));
    }
    assert(all.take(all.len() as int) =~= all);
    text_of(&whole)
}

/// Where the last component of a path ends.
fn end_of_components(path: &[char]) -> (end: usize)
    ensures
        end <= path@.len(),
        path@.take(end as int) == without_trailing(path@),
{
    let mut end: usize = path.len();
    assert(path@.take(end as int) =~= path@);
    while end > 0 && (path[end - 1] == '/' || (end > 1 && path[end - 1] == '.' && path[end - 2]
        == '/'))
        invariant
            end <= path@.len(),
            without_trailing(path@) == without_trailing(path@.take(end as int)),
        decreases end,
    {
        assert(path@.take(end as int).drop_last() =~= path@.take(end - 1));
        end = end - 1;
    }
    end
}

/// The last component of a path, unless it is a root, `.` or `..`.
pub fn file_name_of(path: &str) -> (name: Option<String>)
    ensures
        name.deep_view() == file_name(path@),
{
    let chars = chars_of(path);
    let end: usize = end_of_components(&chars);
    assert(chars@.subrange(0, end as int) =~= chars@.take(end as int));
    let pieces = split_chars(slice_subrange(chars.as_slice(), 0, end), '/');
    let name = &pieces[pieces.len() - 1];
    assert(name@ == text::pieces_of(pieces@).last());
    let is_dot = name.len() == 1 && name[0] == '.';
    let is_dots = name.len() == 2 && name[0] == '.' && name[1] == '.';
    assert(is_dot == (name@ == dot())) by {
        if is_dot {
            assert(name@ =~= dot());
        }
    }
    assert(is_dots == (name@ == seq!['.', '.'])) by {
        if is_dots {
            assert(name@ =~= seq!['.', '.']);
        }
    }
    if name.len() == 0 || is_dot || is_dots {
        None
    } else {
        Some(text_of(name.as_slice()))
    }
}

/// How much of a file name precedes its extension.
fn stem_end(name: &[char]) -> (end: usize)
    ensures
        end == stem_len(name@),
        end <= name@.len(),
{
    let mut end: usize = name.len();
    assert(name@.take(end as int) =~= name@);
    while end > 0 && name[end - 1] != '.'
        invariant
            end <= name@.len(),
            last_position(name@, '.') == last_position(name@.take(end as int), '.'),
        decreases end,
    {
        assert(name@.take(end as int).drop_last() =~= name@.take(end - 1));
        end = end - 1;
    }
    if end > 1 {
        end - 1
    } else {
        name.len()
    }
}

/// The extension of the last component of a path, if it has one.
pub fn extension_of(path: &str) -> (found: Option<String>)
    ensures
        found.deep_view() == extension(path@),
{
    match file_name_of(path) {
        None => None,
        Some(name) => {
            let chars = chars_of(name.as_str());
            let stem: usize = stem_end(&chars);
            if stem < chars.len() {
                assert(chars@.subrange(stem + 1, chars@.len() as int) =~= chars@.skip(stem + 1));
                Some(text_of(slice_subrange(chars.as_slice(), stem + 1, chars.len())))
            } else {
                None
            }
        },
    }
}

/// A path up to the end of its last component.
pub fn trim_components(path: &str) -> (trimmed: String)
    ensures
        trimmed@ == without_trailing(path@),
{
    let chars = chars_of(path);
    let end: usize = end_of_components(&chars);
    assert(chars@.subrange(0, end as int) =~= chars@.take(end as int));
    text_of(slice_subrange(chars.as_slice(), 0, end))
}

/// A piece of a split is no longer than the text.
proof fn lemma_last_piece_fits(s: Seq<char>, sep: char)
    ensures
        text::split(s, sep).len() > 0,
        text::split(s, sep).last().len() <= s.len(),
    decreases s.len(),
{
    if s.len() > 0 {
        lemma_last_piece_fits(s.drop_last(), sep);
    }
}

/// Exchanges the extension of the last component of a path. An extension holds
/// no separator.
pub fn set_extension(path: &str, extension: &str) -> (renamed: String)
    requires
        !extension@.contains('/'),
    ensures
        renamed@ == with_extension(path@, extension@),
{
    match file_name_of(path) {
        None => path.to_string(),
        Some(name) => {
            let chars = chars_of(path);
            let end: usize = end_of_components(&chars);
            let name_chars = chars_of(name.as_str());
            let stem: usize = stem_end(&name_chars);
            proof {
                lemma_last_piece_fits(without_trailing(path@), '/');
            }
            let keep: usize = end - name_chars.len() + stem;
            let ghost body = without_trailing(path@);
            assert(chars@.subrange(0, keep as int) =~= body.take(keep as int));
            let mut renamed = text_of(slice_subrange(chars.as_slice(), 0, keep));
            if chars_of(extension).len() > 0 {
                renamed.push('.');
                renamed.append(extension);
            }
            renamed
        },
    }
}

/// Filtering one more piece.
proof fn lemma_filter_push(pieces: Seq<Seq<char>>, piece: Seq<char>, keep: spec_fn(Seq<char>) -> bool)
    ensures
        pieces.push(piece).filter(keep) == (if keep(piece) {
            pieces.filter(keep).push(piece)
        } else {
            pieces.filter(keep)
        }),
{
    reveal(Seq::filter);
    assert(pieces.push(piece).drop_last() =~= pieces);
}

/// Pieces that all name something pass the filter unchanged.
proof fn lemma_filter_keeps_all(pieces: Seq<Seq<char>>, keep: spec_fn(Seq<char>) -> bool)
    requires
        forall|i: int| 0 <= i < pieces.len() ==> keep(#[trigger] pieces[i]),
    ensures
        pieces.filter(keep) == pieces,
    decreases pieces.len(),
{
    reveal(Seq::filter);
    if pieces.len() > 0 {
        let front = pieces.drop_last();
        assert forall|i: int| 0 <= i < front.len() implies keep(#[trigger] front[i]) by {
            assert(front[i] == pieces[i]);
        }
        lemma_filter_keeps_all(front, keep);
        assert(front.push(pieces.last()) =~= pieces);
    }
}

/// Filtering two runs of pieces one after the other.
proof fn lemma_filter_concat(
    a: Seq<Seq<char>>,
    b: Seq<Seq<char>>,
    keep: spec_fn(Seq<char>) -> bool,
)
    ensures
        (a + b).filter(keep) == a.filter(keep) + b.filter(keep),
    decreases b.len(),
{
    reveal(Seq::filter);
    if b.len() == 0 {
        assert(a + b =~= a);
        assert(a.filter(keep) + b.filter(keep) =~= a.filter(keep));
    } else {
        lemma_filter_concat(a, b.drop_last(), keep);
        assert((a + b).drop_last() =~= a + b.drop_last());
        assert((a + b).filter(keep) =~= a.filter(keep) + b.filter(keep));
    }
}

/// What passes the filter comes from the pieces.
proof fn lemma_filter_members(pieces: Seq<Seq<char>>, keep: spec_fn(Seq<char>) -> bool)
    ensures
        forall|i: int|
            0 <= i < pieces.filter(keep).len() ==> keep(#[trigger] pieces.filter(keep)[i])
                && pieces.contains(pieces.filter(keep)[i]),
    decreases pieces.len(),
{
    reveal(Seq::filter);
    if pieces.len() > 0 {
        let front = pieces.drop_last();
        lemma_filter_members(front, keep);
        let kept = pieces.filter(keep);
        assert forall|i: int| 0 <= i < kept.len() implies keep(#[trigger] kept[i])
            && pieces.contains(kept[i]) by {
            if i < front.filter(keep).len() {
                assert(kept[i] == front.filter(keep)[i]);
                let k = choose|k: int| 0 <= k < front.len() && front[k] == kept[i];
                assert(pieces[k] == kept[i]);
            } else {
                assert(kept[i] == pieces.last());
                assert(pieces[pieces.len() - 1] == kept[i]);
            }
        }
    }
}

/// Joined pieces split into the same pieces.
proof fn lemma_split_joined(pieces: Seq<Seq<char>>)
    requires
        pieces.len() > 0,
        forall|i: int| 0 <= i < pieces.len() ==> !(#[trigger] pieces[i]).contains('/'),
    ensures
        text::split(joined(pieces), '/') == pieces,
    decreases pieces.len(),
{
    text::lemma_split_without_separator(pieces.last(), '/');
    if pieces.len() == 1 {
        assert(pieces =~= seq![pieces.last()]);
    } else {
        let front = pieces.drop_last();
        assert forall|i: int| 0 <= i < front.len() implies !(#[trigger] front[i]).contains('/') by {
            assert(front[i] == pieces[i]);
        }
        lemma_split_joined(front);
        text::lemma_split_at_separator(joined(front), pieces.last(), '/');
        assert(front + seq![pieces.last()] =~= pieces);
    }
}

/// The components of a path hold no separator and are not empty; only the
/// first can be `.`.
proof fn lemma_components_are_names(path: Seq<char>)
    ensures
        forall|i: int|
            0 <= i < components(path).len() ==> (#[trigger] components(path)[i]).len() > 0
                && !components(path)[i].contains('/') && (components(path)[i] == dot() ==> i == 0
                && leading_dot(path).len() > 0),
{
    let pieces = text::split(path, '/');
    text::lemma_pieces_hold_no_separator(path, '/');
    lemma_filter_members(pieces, naming());
    let lead = leading_dot(path);
    let named = pieces.filter(naming());
    assert forall|i: int| 0 <= i < components(path).len() implies (#[trigger] components(
        path,
    )[i]).len() > 0 && !components(path)[i].contains('/') && (components(path)[i] == dot() ==> i
        == 0 && lead.len() > 0) by {
        if i < lead.len() {
            assert(components(path)[i] == dot());
        } else {
            assert(components(path)[i] == named[i - lead.len()]);
            assert(naming()(named[i - lead.len()]));
            let k = choose|k: int| 0 <= k < pieces.len() && pieces[k] == named[i - lead.len()];
            assert(!pieces[k].contains('/'));
        }
    }
}

/// Joined pieces start with the first piece.
proof fn lemma_joined_starts(pieces: Seq<Seq<char>>)
    requires
        pieces.len() > 0,
        pieces.first().len() > 0,
    ensures
        joined(pieces).len() > 0,
        joined(pieces).first() == pieces.first().first(),
    decreases pieces.len(),
{
    if pieces.len() > 1 {
        lemma_joined_starts(pieces.drop_last());
    }
}

/// Normalising a path a second time changes nothing.
pub proof fn lemma_normalized_is_stable(path: Seq<char>)
    ensures
        normalized(normalized(path)) == normalized(path),
{
    let names = components(path);
    let body = joined(names);
    let whole = normalized(path);
    lemma_components_are_names(path);
    if names.len() > 0 {
        lemma_split_joined(names);
        lemma_joined_starts(names);
        assert(names[0].contains(names[0][0]));
    } else {
        text::lemma_split_without_separator(body, '/');
    }
    if is_absolute(path) {
        let before = Seq::<char>::empty();
        assert(whole =~= before.push('/') + body);
        text::lemma_split_at_separator(before, body, '/');
        text::lemma_split_without_separator(before, '/');
        lemma_filter_concat(text::split(before, '/'), text::split(body, '/'), naming());
        assert(text::split(before, '/') =~= Seq::<Seq<char>>::empty().push(before));
        lemma_filter_push(Seq::empty(), before, naming());
        assert(Seq::<Seq<char>>::empty().filter(naming()) =~= Seq::<Seq<char>>::empty()) by {
            reveal(Seq::filter);
        }
        if names.len() > 0 {
            assert forall|i: int| 0 <= i < names.len() implies naming()(#[trigger] names[i]) by {}
            lemma_filter_keeps_all(names, naming());
        } else {
            assert(text::split(body, '/') =~= Seq::<Seq<char>>::empty().push(body));
            lemma_filter_push(Seq::empty(), body, naming());
        }
        assert(components(whole) =~= names);
    } else {
        assert(whole =~= body);
        if names.len() > 0 {
            assert(!is_absolute(whole));
            let lead = leading_dot(path);
            let rest = text::split(path, '/').filter(naming());
            lemma_filter_members(text::split(path, '/'), naming());
            lemma_filter_concat(lead, rest, naming());
            lemma_filter_keeps_all(rest, naming());
            if lead.len() > 0 {
                assert(lead =~= Seq::<Seq<char>>::empty().push(dot()));
                lemma_filter_push(Seq::empty(), dot(), naming());
            }
            assert(Seq::<Seq<char>>::empty().filter(naming()) =~= Seq::<Seq<char>>::empty()) by {
                reveal(Seq::filter);
            }
            assert(names.filter(naming()) =~= rest);
            assert(leading_dot(whole) =~= lead);
            assert(components(whole) =~= names);
        } else {
            assert(text::split(body, '/') =~= Seq::<Seq<char>>::empty().push(body));
            lemma_filter_push(Seq::empty(), body, naming());
            assert(Seq::<Seq<char>>::empty().filter(naming()) =~= Seq::<Seq<char>>::empty()) by {
                reveal(Seq::filter);
            }
            assert(components(whole) =~= names);
        }
    }
}

/// Below a non-empty base, `.` is the base itself.
pub proof fn lemma_dot_is_the_base(base: Seq<char>)
    requires
        base.len() > 0,
    ensures
        normalized(join(base, dot())) == normalized(base),
{
    let whole = join(base, dot());
    let pieces = text::split(base, '/');
    text::lemma_pieces_hold_no_separator(base, '/');
    assert(!dot().contains('/'));
    text::lemma_split_without_separator(dot(), '/');
    if base.last() == '/' {
        let front = base.drop_last();
        let blank = Seq::<char>::empty();
        assert(base =~= front.push('/') + blank);
        assert(whole =~= front.push('/') + dot());
        text::lemma_split_at_separator(front, blank, '/');
        text::lemma_split_at_separator(front, dot(), '/');
        text::lemma_split_without_separator(blank, '/');
        text::lemma_pieces_hold_no_separator(front, '/');
        let kept = text::split(front, '/');
        assert(pieces =~= kept.push(blank));
        assert(text::split(whole, '/') =~= kept.push(dot()));
        lemma_filter_push(kept, blank, naming());
        lemma_filter_push(kept, dot(), naming());
        assert(pieces.first() == kept.first());
    } else {
        text::lemma_split_at_separator(base, dot(), '/');
        assert(text::split(whole, '/') =~= pieces.push(dot()));
        lemma_filter_push(pieces, dot(), naming());
    }
    assert(text::split(whole, '/').first() == pieces.first());
    assert(is_absolute(whole) == is_absolute(base));
    assert(components(whole) =~= components(base));
}

/// A normalised path ends in a separator only if it is the root itself.
pub proof fn lemma_normalized_ends_in_a_name(path: Seq<char>)
    ensures
        normalized(path).len() > 0 && normalized(path).last() == '/' ==> normalized(path)
            == seq!['/'],
{
    let names = components(path);
    lemma_components_are_names(path);
    if names.len() > 0 {
        let last = names[names.len() - 1];
        assert(last.len() > 0 && !last.contains('/'));
        assert(last.contains(last.last()));
        lemma_joined_ends(names);
        assert(normalized(path).last() == last.last());
    } else {
        assert(normalized(path) =~= root(path));
    }
}

/// Joined pieces end with the last piece.
proof fn lemma_joined_ends(pieces: Seq<Seq<char>>)
    requires
        pieces.len() > 0,
        pieces.last().len() > 0,
    ensures
        joined(pieces).len() > 0,
        joined(pieces).last() == pieces.last().last(),
{
}

/// A plain name below a base is the file name of the whole.
pub proof fn lemma_join_names(base: Seq<char>, name: Seq<char>)
    requires
        name.len() > 0,
        !name.contains('/'),
        name != dot(),
        name != seq!['.', '.'],
    ensures
        file_name(join(base, name)) == Some(name),
        without_trailing(join(base, name)) == join(base, name),
{
    let whole = join(base, name);
    assert(name.contains(name[0]));
    assert(name.contains(name.last()));
    assert(whole.last() == name.last());
    if name.len() == 1 {
        assert(name =~= seq![name[0]]);
    } else {
        assert(name.contains(name[name.len() - 2]));
        assert(whole[whole.len() - 2] == name[name.len() - 2]);
    }
    text::lemma_split_without_separator(name, '/');
    if base.len() == 0 {
        assert(whole =~= name);
    } else if base.last() == '/' {
        assert(whole =~= base.drop_last().push('/') + name);
        text::lemma_split_at_separator(base.drop_last(), name, '/');
    } else {
        text::lemma_split_at_separator(base, name, '/');
    }
    assert(text::split(whole, '/').last() == name);
}

/// The stem of a name is no longer than the name.
pub proof fn lemma_stem_fits(name: Seq<char>)
    ensures
        last_position(name, '.') < name.len(),
        0 <= stem_len(name) <= name.len(),
    decreases name.len(),
{
    if name.len() > 0 {
        lemma_stem_fits(name.drop_last());
    }
}

/// A relative path stands behind its base and a separator, of which there is
/// just one; an absolute path stands alone.
pub proof fn lemma_join_forms(base: Seq<char>, path: Seq<char>)
    ensures
        path.len() > 0 && path[0] == '/' ==> join(base, path) == path,
        path.len() == 0 || path[0] != '/' ==> {
            &&& base.len() > 0 && base.last() != '/' ==> join(base, path) == base + seq!['/'] + path
            &&& base.len() == 0 || base.last() == '/' ==> join(base, path) == base + path
        },
{
    assert(base.push('/') =~= base + seq!['/']);
}

/// A name behind a directory, plain or with separators behind it, is the file
/// name; a path that ends in `..`, or is nothing but separators, has none.
pub proof fn lemma_file_name_forms(front: Seq<char>, name: Seq<char>)
    requires
        front.len() == 0 || front.last() == '/',
        name.len() > 0,
        !name.contains('/'),
    ensures
        name != seq!['.'] && name != seq!['.', '.'] ==> {
            &&& file_name(front + name) == Some(name)
            &&& file_name((front + name).push('/')) == Some(name)
            &&& file_name((front + name).push('/').push('.')) == Some(name)
            &&& without_trailing(front + name) == front + name
            &&& without_trailing((front + name).push('/')) == front + name
            &&& without_trailing((front + name).push('/').push('.')) == front + name
        },
        name == seq!['.', '.'] ==> file_name(front + name) is None,
        file_name(Seq::empty()) is None,
        file_name(seq!['/']) is None,
{
    let whole = front + name;
    assert(name.contains(name[0]));
    if name != dot() && name != seq!['.', '.'] {
        lemma_join_names(front, name);
        assert(join(front, name) =~= whole);
        assert(whole.push('/').drop_last() =~= whole);
        assert(whole.push('/').push('.').drop_last() =~= whole.push('/'));
    }
    if name == seq!['.', '.'] {
        text::lemma_split_without_separator(name, '/');
        assert(whole.last() == '.' && whole[whole.len() - 2] == '.');
        assert(without_trailing(whole) == whole);
        if front.len() > 0 {
            assert(whole =~= front.drop_last().push('/') + name);
            text::lemma_split_at_separator(front.drop_last(), name, '/');
        } else {
            assert(whole =~= name);
        }
        assert(text::split(whole, '/').last() == name);
    }
    let none = Seq::<char>::empty();
    text::lemma_split_without_separator(none, '/');
    assert(seq!['/'].drop_last() =~= none);
}

/// Where the last of a character stands.
proof fn lemma_last_position_at(front: Seq<char>, c: char, back: Seq<char>)
    requires
        !back.contains(c),
    ensures
        last_position(front.push(c) + back, c) == front.len(),
        last_position(back, c) == -1,
    decreases back.len(),
{
    let whole = front.push(c) + back;
    if back.len() == 0 {
        assert(whole =~= front.push(c));
    } else {
        assert(back.contains(back.last()));
        assert(whole.drop_last() =~= front.push(c) + back.drop_last());
        assert forall|i: int| 0 <= i < back.drop_last().len() implies back.drop_last()[i] != c by {
            assert(back.contains(back[i]));
        }
        lemma_last_position_at(front, c, back.drop_last());
    }
}

/// Exchanging an extension changes what stands behind the last dot of the last
/// component and nothing else.
#[verifier::rlimit(40)]
pub proof fn lemma_extensions_are_exchanged(
    front: Seq<char>,
    stem: Seq<char>,
    old_extension: Seq<char>,
    new_extension: Seq<char>,
)
    requires
        front.len() == 0 || front.last() == '/',
        stem.len() > 0,
        !stem.contains('/'),
        !old_extension.contains('/'),
        !old_extension.contains('.'),
        !(stem == seq!['.'] && old_extension.len() == 0),
    ensures
        new_extension.len() > 0 ==> with_extension(
            front + (stem.push('.') + old_extension),
            new_extension,
        ) == front + stem + seq!['.'] + new_extension,
        new_extension.len() == 0 ==> with_extension(
            front + (stem.push('.') + old_extension),
            new_extension,
        ) == front + stem,
        extension(front + (stem.push('.') + old_extension)) == Some(old_extension),
{
    let name = stem.push('.') + old_extension;
    let whole = front + name;
    assert(name[stem.len() as int] == '.');
    assert forall|i: int| 0 <= i < name.len() implies name[i] != '/' by {
        if i < stem.len() {
            assert(stem.contains(stem[i]));
        } else if i > stem.len() {
            assert(old_extension.contains(old_extension[i - stem.len() - 1]));
        }
    }
    if name == seq!['.', '.'] {
        assert(stem =~= seq!['.']);
    }
    if name == dot() {
        assert(name.len() == 1);
    }
    assert(file_name(whole) == Some(name) && without_trailing(whole) == whole) by {
        lemma_file_name_forms(front, name);
    }
    assert(last_position(name, '.') == stem.len()) by {
        lemma_last_position_at(stem, '.', old_extension);
    }
    assert(whole.take(whole.len() - name.len() + stem.len()) =~= front + stem);
    assert((front + stem).push('.') =~= front + stem + seq!['.']);
    assert(name.skip(stem.len() as int + 1) =~= old_extension);
}

/// A name without an extension, or whose only dot comes first, gets the
/// extension behind it.
#[verifier::rlimit(40)]
pub proof fn lemma_extensions_are_added(
    front: Seq<char>,
    name: Seq<char>,
    new_extension: Seq<char>,
)
    requires
        front.len() == 0 || front.last() == '/',
        name.len() > 0,
        !name.contains('/'),
        !name.contains('.'),
        new_extension.len() > 0,
    ensures
        with_extension(front + name, new_extension) == front + name + seq!['.'] + new_extension,
        with_extension(front + (seq!['.'] + name), new_extension) == front + (seq!['.'] + name)
            + seq!['.'] + new_extension,
        extension(front + name) is None,
        extension(front + (seq!['.'] + name)) is None,
{
    let plain = front + name;
    assert(name.contains(name[0]));
    assert(file_name(plain) == Some(name) && without_trailing(plain) == plain) by {
        lemma_file_name_forms(front, name);
    }
    let none = Seq::<char>::empty();
    let hidden = seq!['.'] + name;
    assert(none.push('.') + name =~= hidden);
    assert(last_position(name, '.') == -1 && last_position(hidden, '.') == 0) by {
        lemma_last_position_at(none, '.', name);
    }
    assert(plain.take(plain.len() as int) =~= plain);
    assert(plain.push('.') =~= plain + seq!['.']);
    assert forall|i: int| 0 <= i < hidden.len() implies hidden[i] != '/' by {
        if i > 0 {
            assert(name.contains(name[i - 1]));
        }
    }
    assert(hidden[1] == name[0]);
    assert(hidden.len() >= 2);
    let covered = front + hidden;
    assert(file_name(covered) == Some(hidden) && without_trailing(covered) == covered) by {
        lemma_file_name_forms(front, hidden);
    }
    assert(covered.take(covered.len() as int) =~= covered);
    assert(covered.push('.') =~= covered + seq!['.']);
}

/// The first piece of a path that does not begin with a separator.
proof fn lemma_first_piece(path: Seq<char>)
    requires
        path.len() > 0,
        path.first() != '/',
    ensures
        text::split(path, '/').len() > 0,
        text::split(path, '/').first().len() > 0,
    decreases path.len(),
{
    if path.len() == 1 {
        assert(path =~= seq![path[0]]);
        text::lemma_split_without_separator(path, '/');
    } else {
        lemma_first_piece(path.drop_last());
    }
}

/// A path is normalised component by component: a name behind a base comes
/// behind the normalised base, whatever number of separators and `.` stand
/// between the two; those at the end are dropped.
pub proof fn lemma_normalized_by_component(base: Seq<char>, name: Seq<char>)
    requires
        base.len() > 0,
        name.len() > 0,
        !name.contains('/'),
        name != seq!['.'],
    ensures
        normalized(base.push('/') + name) == (if normalized(base) == seq!['/'] {
            seq!['/'] + name
        } else {
            normalized(base) + seq!['/'] + name
        }),
        normalized(base.push('/')) == normalized(base),
        normalized(base.push('/').push('.')) == normalized(base),
        normalized(name) == name,
        normalized(seq!['/']) == seq!['/'],
        normalized(seq!['/'] + name) == seq!['/'] + name,
        normalized(seq!['.']) == seq!['.'],
        normalized(Seq::empty()) == Seq::<char>::empty(),
{
    let blank = Seq::<char>::empty();
    let none = Seq::<Seq<char>>::empty();
    let pieces = text::split(base, '/');
    let whole = base.push('/') + name;
    text::lemma_pieces_hold_no_separator(base, '/');
    text::lemma_split_without_separator(name, '/');
    text::lemma_split_without_separator(blank, '/');
    assert(!dot().contains('/'));
    text::lemma_split_without_separator(dot(), '/');
    assert(none.filter(naming()) =~= none) by {
        reveal(Seq::filter);
    }
    // A name behind the base.
    text::lemma_split_at_separator(base, name, '/');
    assert(text::split(whole, '/') =~= pieces.push(name));
    lemma_filter_push(pieces, name, naming());
    assert(whole.first() == base.first());
    assert(text::split(whole, '/').first() == pieces.first());
    let names = components(base);
    assert(components(whole) =~= names.push(name));
    assert(names.push(name).drop_last() =~= names);
    if names.len() > 0 {
        lemma_components_are_names(base);
        assert(joined(names.push(name)) =~= joined(names).push('/') + name);
        assert(normalized(whole) =~= normalized(base) + seq!['/'] + name);
        lemma_joined_ends(names);
        lemma_joined_starts(names);
        let last = names[names.len() - 1];
        assert(last.contains(last.last()));
        assert(normalized(base).last() != '/');
    } else {
        if !is_absolute(base) {
            lemma_first_piece(base);
            if pieces.first() != dot() {
                lemma_first_is_kept(pieces);
            }
        }
        assert(normalized(base) =~= seq!['/']);
        assert(normalized(whole) =~= seq!['/'] + name);
    }
    // A separator or a dot behind the base.
    text::lemma_split_at_separator(base, blank, '/');
    assert(base.push('/') + blank =~= base.push('/'));
    assert(text::split(base.push('/'), '/') =~= pieces.push(blank));
    lemma_filter_push(pieces, blank, naming());
    assert(components(base.push('/')) =~= names);
    text::lemma_split_at_separator(base, dot(), '/');
    assert(base.push('/') + dot() =~= base.push('/').push('.'));
    assert(text::split(base.push('/').push('.'), '/') =~= pieces.push(dot()));
    lemma_filter_push(pieces, dot(), naming());
    assert(components(base.push('/').push('.')) =~= names);
    // Single names and the root.
    assert(name.contains(name[0]));
    lemma_filter_push(none, name, naming());
    lemma_filter_push(none, blank, naming());
    lemma_filter_push(none, dot(), naming());
    assert(none.push(name) =~= seq![name] && none.push(blank) =~= seq![blank] && none.push(dot())
        =~= seq![dot()]);
    assert(components(name) =~= seq![name]);
    assert(normalized(name) =~= name);
    assert(components(dot()) =~= seq![dot()]);
    assert(normalized(dot()) =~= dot());
    assert(components(blank) =~= none);
    assert(normalized(blank) =~= blank);
    text::lemma_split_at_separator(blank, blank, '/');
    assert(blank.push('/') + blank =~= seq!['/']);
    assert(text::split(seq!['/'], '/') =~= seq![blank].push(blank));
    lemma_filter_push(seq![blank], blank, naming());
    assert(components(seq!['/']) =~= none);
    assert(normalized(seq!['/']) =~= seq!['/']);
    let rooted = seq!['/'] + name;
    text::lemma_split_at_separator(blank, name, '/');
    assert(blank.push('/') + name =~= rooted);
    assert(text::split(rooted, '/') =~= seq![blank].push(name));
    lemma_filter_push(seq![blank], name, naming());
    assert(components(rooted) =~= seq![name]);
    assert(normalized(rooted) =~= rooted);
}

/// A first piece that names something is kept.
proof fn lemma_first_is_kept(pieces: Seq<Seq<char>>)
    requires
        pieces.len() > 0,
        naming()(pieces.first()),
    ensures
        pieces.filter(naming()).len() > 0,
{
    pieces.lemma_filter_contains(naming(), 0);
}

/// Separators behind a path do not count when its extension is exchanged, and
/// a path without a file name stays as it is.
pub proof fn lemma_extensions_before_separators(
    front: Seq<char>,
    name: Seq<char>,
    new_extension: Seq<char>,
)
    requires
        front.len() == 0 || front.last() == '/',
        name.len() > 0,
        !name.contains('/'),
        name != seq!['.'],
    ensures
        name != seq!['.', '.'] ==> {
            &&& with_extension((front + name).push('/'), new_extension) == with_extension(
                front + name,
                new_extension,
            )
            &&& extension((front + name).push('/')) == extension(front + name)
        },
        name == seq!['.', '.'] ==> with_extension(front + name, new_extension) == front + name,
{
    lemma_file_name_forms(front, name);
}

/// Separators, and dots behind them, do not count at the end of a path.
pub proof fn lemma_ends_do_not_count(path: Seq<char>)
    ensures
        without_trailing(path.push('/')) == without_trailing(path),
        without_trailing(path.push('/').push('.')) == without_trailing(path),
        path.len() > 0 && path.last() != '/' && path.last() != '.' ==> without_trailing(path)
            == path,
{
    assert(path.push('/').drop_last() =~= path);
    assert(path.push('/').push('.').drop_last() =~= path.push('/'));
}

} // verus!
