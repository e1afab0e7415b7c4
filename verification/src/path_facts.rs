//! What follows from how a path is read.

use crate::paths::{
    alike, components, dotted, extension_of, extension_or_empty, file_name_of, is_end_of,
    is_extended, is_filler, is_name, is_separator, kept, last_dot, last_part, may_be_extended,
    may_be_extension, may_be_file_name, may_be_joined, may_be_same, may_be_within, may_separate,
    names_on_drive, no_separator, on_drive, path_with_extension, plain, portable, prefix_length,
    segments, slashed, starts_double, stem_of, swapped, verbatim, with_extension,
};
use vstd::prelude::*;

verus! {

/// A path that reads the same on every platform has no prefix.
pub(crate) proof fn lemma_portable_has_no_prefix(path: Seq<char>)
    requires
        portable(path),
    ensures
        slashed(path) == path,
        !on_drive(path),
        !starts_double(path),
{
    assert forall|i: int| 0 <= i < path.len() implies #[trigger] slashed(path)[i] == path[i] by {
        assert(path.contains(path[i]));
    }
    assert(slashed(path) =~= path);
    if starts_double(path) {
        assert(path.contains(path[0]) && path.contains(path[1]));
        assert(path.subrange(0, 2) =~= seq!['/', '/']);
    }
}

/// The file name of a path on which all platforms agree is its last component.
pub proof fn law_a_portable_path_has_its_name(path: Seq<char>, name: Option<Seq<char>>)
    requires
        portable(path),
        may_be_file_name(path, name),
    ensures
        name == file_name_of(path),
{
    lemma_portable_has_no_prefix(path);
}

/// Paths on which all platforms agree are the same exactly if their components
/// are.
pub proof fn law_portable_paths_are_compared_by_components(
    a: Seq<char>,
    b: Seq<char>,
    same: bool,
)
    requires
        portable(a),
        portable(b),
        may_be_same(a, b, same),
    ensures
        same == (components(a) == components(b)),
{
    lemma_portable_has_no_prefix(a);
    lemma_portable_has_no_prefix(b);
    if alike(a, b) {
        assert(components(a) =~= components(b));
    }
}

/// There is a last segment, in which no `/` stands, and what stands behind the
/// last separator of either kind stands at its end.
proof fn lemma_last_segment(path: Seq<char>)
    ensures
        segments(path).len() > 0,
        !segments(path).last().contains('/'),
        last_part(segments(path).last()) == last_part(path),
        segments(path).len() == 1 ==> segments(path)[0] == path,
        path.len() > 0 && path[0] == '/' ==> segments(path).len() > 1,
        segments(path).last().len() <= path.len(),
    decreases path.len(),
{
    if path.len() > 0 {
        let before = path.drop_last();
        lemma_last_segment(before);
        let last = segments(before).last();
        if path.last() != '/' {
            assert(segments(path).last() == last.push(path.last()));
            assert(last.push(path.last()).drop_last() =~= last);
            if last.push(path.last()).contains('/') {
                let i = choose|i: int|
                    0 <= i < last.len() + 1 && last.push(path.last())[i] == '/';
                assert(last[i] == '/');
            }
            if segments(before).len() == 1 {
                assert(before.push(path.last()) =~= path);
            }
        }
    }
}

/// Where both separators count, the last segment is what stands behind the last
/// separator.
proof fn lemma_last_segment_of_slashed(path: Seq<char>)
    ensures
        segments(slashed(path)).last() == last_part(path),
    decreases path.len(),
{
    if path.len() > 0 {
        let before = path.drop_last();
        lemma_last_segment_of_slashed(before);
        lemma_last_segment(slashed(before));
        assert(slashed(path).drop_last() =~= slashed(before));
    }
}

/// A last segment that counts is the last component.
proof fn lemma_last_component(path: Seq<char>)
    requires
        segments(path).last().len() > 0,
        segments(path).last() != seq!['.'],
    ensures
        components(path).len() > 0,
        components(path).last() == segments(path).last(),
        segments(path).len() > 1 ==> components(path).len() > 1,
{
    reveal(Seq::filter);
    lemma_last_segment(path);
    let rest = segments(path).skip(1);
    if segments(path).len() > 1 {
        assert(rest.last() == segments(path).last());
    } else {
        assert(rest =~= Seq::empty());
        assert(kept(rest) =~= Seq::empty());
    }
}

/// What stands behind the last separator is the same without the front.
proof fn lemma_last_part_of_rest(path: Seq<char>, from: int)
    requires
        0 <= from <= path.len(),
        last_part(path).len() <= path.len() - from,
    ensures
        last_part(path.skip(from)) == last_part(path),
    decreases path.len(),
{
    if path.len() > from && last_part(path).len() > 0 {
        let before = path.drop_last();
        assert(last_part(path).drop_last() =~= last_part(before));
        lemma_last_part_of_rest(before, from);
        assert(path.skip(from).drop_last() =~= before.skip(from));
    }
}

/// The last dot stands inside, if there is one.
pub(crate) proof fn lemma_last_dot_is_inside(name: Seq<char>)
    ensures
        -1 <= last_dot(name) < name.len(),
    decreases name.len(),
{
    if name.len() > 0 && name.last() != '.' {
        lemma_last_dot_is_inside(name.drop_last());
    }
}

/// What the last dot is.
pub(crate) proof fn lemma_last_dot_is_a_dot(name: Seq<char>)
    ensures
        last_dot(name) >= 0 ==> name[last_dot(name)] == '.',
    decreases name.len(),
{
    if name.len() > 0 && name.last() != '.' {
        lemma_last_dot_is_inside(name.drop_last());
        lemma_last_dot_is_a_dot(name.drop_last());
    }
}

/// The last part of a path stands at its end, and if it has a dot, the last one
/// of the path is its last one.
proof fn lemma_last_part_is_the_end(path: Seq<char>)
    ensures
        ({
            let from = path.len() - last_part(path).len();
            &&& from >= 0
            &&& path.skip(from) == last_part(path)
            &&& last_dot(last_part(path)) >= 0 ==> last_dot(path) == from + last_dot(
                last_part(path),
            )
        }),
    decreases path.len(),
{
    let part = last_part(path);
    if part.len() > 0 {
        let before = path.drop_last();
        lemma_last_part_is_the_end(before);
        assert(part.drop_last() =~= last_part(before));
        let from = path.len() - part.len();
        assert(path.skip(from) =~= before.skip(from).push(path.last()));
    } else {
        assert(path.skip(path.len() as int) =~= part);
    }
}

/// The extension of a text that ends in a name with a dot inside is what follows
/// its last dot.
pub(crate) proof fn lemma_extension_of_last_part(text: Seq<char>)
    requires
        last_dot(last_part(text)) > 0,
    ensures
        0 < last_dot(text) < text.len(),
        extension_of(text) == extension_of(last_part(text)),
        extension_of(text) == Some(text.skip(last_dot(text) + 1)),
{
    let part = last_part(text);
    lemma_last_part_is_the_end(text);
    lemma_last_dot_is_inside(part);
    assert(part.skip(last_dot(part) + 1) =~= text.skip(last_dot(text) + 1));
}

/// Where `/` alone separates components, a path that ends in a name with a dot
/// inside has a file name, which ends so too.
proof fn lemma_file_name_of_dotted(path: Seq<char>)
    requires
        last_dot(last_part(path)) > 0,
        last_part(path) != seq!['.', '.'],
    ensures
        file_name_of(path) == Some(segments(path).last()),
        last_part(segments(path).last()) == last_part(path),
        components(path).len() > 0,
        components(path).last() == segments(path).last(),
        segments(path).len() > 1 ==> components(path).len() > 1,
{
    lemma_last_segment(path);
    let last = segments(path).last();
    lemma_last_dot_is_inside(last_part(path));
    lemma_last_part_is_the_end(last);
    assert(seq!['.'].len() == 1);
    if last == seq!['.', '.'] {
        reveal_with_fuel(last_part, 3);
        assert(last_part(last) =~= last);
    }
    lemma_last_component(path);
}

/// On every platform a path that ends in a name with a dot inside has the
/// extension that it ends in, if it has a file name; it has one if it is
/// ordinary, namely what follows its last separator of either kind, its last
/// `/`, or its drive.
pub proof fn law_a_dotted_path_has_its_extension(path: Seq<char>, name: Option<Seq<char>>)
    requires
        dotted(path),
        may_be_file_name(path, name),
    ensures
        name matches Some(name) ==> extension_of(name) == Some(path.skip(last_dot(path) + 1)),
        0 < last_dot(path) < path.len(),
        plain(path) ==> name is Some,
        plain(path) ==> {
            ||| name->0 == last_part(path)
            ||| name->0 == segments(path).last()
            ||| names_on_drive(path) && name->0 == path.skip(2)
            ||| verbatim(path) && path.contains('/') && is_end_of(path, name->0)
        },
{
    lemma_extension_of_last_part(path);
    lemma_file_name_of_dotted(path);
    lemma_file_name_of_dotted_slashed(path);
    lemma_extension_of_last_part(segments(path).last());
    if names_on_drive(path) {
        let rest = path.skip(2);
        lemma_last_part_is_the_end(path);
        assert(path.skip(0) =~= path);
        lemma_last_part_holds_no_separator(path);
        assert forall|i: int| 0 <= i < rest.len() implies !is_separator(#[trigger] rest[i]) by {
            assert(last_part(path)[i + 2] == rest[i]);
        }
        lemma_last_part_of_sum(Seq::empty(), rest);
        assert(Seq::<char>::empty() + rest =~= rest);
        lemma_last_dot_of_rest(path, 2);
        lemma_file_name_of_dotted_slashed(rest);
        assert(rest.skip(last_dot(rest) + 1) =~= path.skip(last_dot(path) + 1));
    } else if on_drive(path) {
        lemma_part_ends_behind_separator(path);
        lemma_last_part_of_rest(path, 2);
        lemma_file_name_of_dotted_slashed(path.skip(2));
    }
    if let Some(name) = name {
        if is_end_of(path, name) {
            lemma_last_dot_is_inside(last_part(path));
            assert(name =~= path.skip(path.len() - name.len()));
            lemma_last_part_of_rest(path, path.len() - name.len());
            lemma_extension_of_last_part(name);
        }
    }
}

/// What stands in front of the last part, if anything, ends in a separator.
proof fn lemma_part_ends_behind_separator(path: Seq<char>)
    ensures
        last_part(path).len() <= path.len(),
        last_part(path).len() < path.len() ==> is_separator(
            path[path.len() - last_part(path).len() - 1],
        ),
    decreases path.len(),
{
    if path.len() > 0 && !is_separator(path.last()) {
        lemma_part_ends_behind_separator(path.drop_last());
    }
}

/// Where both separators count, the file name of a path that ends in a name with
/// a dot inside is that name.
proof fn lemma_file_name_of_dotted_slashed(path: Seq<char>)
    requires
        last_dot(last_part(path)) > 0,
        last_part(path) != seq!['.', '.'],
    ensures
        file_name_of(slashed(path)) == Some(last_part(path)),
        components(slashed(path)).len() > 0,
        components(slashed(path)).last() == last_part(path),
        last_part(path).len() < path.len() ==> components(slashed(path)).len() > 1,
{
    lemma_last_segment_of_slashed(path);
    lemma_last_segment(slashed(path));
    lemma_last_dot_is_inside(last_part(path));
    assert(seq!['.'].len() == 1);
    lemma_last_component(slashed(path));
}

/// The last dot of a text is that of its end, if it stands there.
proof fn lemma_last_dot_of_rest(text: Seq<char>, from: int)
    requires
        0 <= from <= last_dot(text),
    ensures
        last_dot(text.skip(from)) == last_dot(text) - from,
    decreases text.len(),
{
    lemma_last_dot_is_inside(text);
    let rest = text.skip(from);
    assert(rest.last() == text.last());
    if text.last() != '.' {
        lemma_last_dot_is_inside(text.drop_last());
        lemma_last_dot_of_rest(text.drop_last(), from);
        assert(rest.drop_last() =~= text.drop_last().skip(from));
    }
}

/// An ordinary path with another extension is another path on every platform.
pub(crate) proof fn lemma_new_extension_is_another_path(
    path: Seq<char>,
    extension: Seq<char>,
    same: bool,
)
    requires
        plain(path),
        extension.len() > 0,
        no_separator(extension),
        forall|i: int| 0 <= i < extension.len() ==> #[trigger] extension[i] != '.',
        extension != path.skip(last_dot(path) + 1),
        may_be_same(path_with_extension(path, extension), path, same),
    ensures
        !same,
{
    let out = path_with_extension(path, extension);
    lemma_new_extension_keeps_dotted(path, extension);
    lemma_extension_of_last_part(path);
    lemma_extension_of_last_part(out);
    lemma_file_name_of_dotted(path);
    lemma_file_name_of_dotted(out);
    lemma_extension_of_last_part(segments(path).last());
    lemma_extension_of_last_part(segments(out).last());
    lemma_file_name_of_dotted_slashed(path);
    lemma_file_name_of_dotted_slashed(out);
    if same && alike(out, path) {
        let x = components(slashed(out));
        let y = components(slashed(path));
        let at = x.len() - 1;
        assert(x[at] == last_part(out) && y[at] == last_part(path));
        if at == 0 && on_drive(path) {
            lemma_part_ends_behind_separator(path);
            lemma_part_ends_behind_separator(out);
            lemma_last_part_is_the_end(path);
            lemma_last_part_is_the_end(out);
            assert(path.skip(0) =~= path);
            assert(out.skip(0) =~= out);
            assert(out.skip(1).skip(last_dot(path)) =~= extension);
            assert(path.skip(1).skip(last_dot(path)) =~= path.skip(last_dot(path) + 1));
        }
    }
}

/// On every platform ordinary paths that end in different names are different,
/// if those do not hold a drive.
pub proof fn law_other_names_are_other_paths(a: Seq<char>, b: Seq<char>, same: bool)
    requires
        plain(a),
        plain(b),
        last_part(a) != last_part(b),
        !names_on_drive(a) || !names_on_drive(b),
        may_be_same(a, b, same),
    ensures
        !same,
{
    lemma_file_name_of_dotted(a);
    lemma_file_name_of_dotted(b);
    lemma_file_name_of_dotted_slashed(a);
    lemma_file_name_of_dotted_slashed(b);
    if alike(a, b) {
        let x = components(slashed(a));
        let y = components(slashed(b));
        let at = x.len() - 1;
        assert(x[at] == x.last() && y[at] == y.last());
        lemma_part_ends_behind_separator(a);
        lemma_part_ends_behind_separator(b);
    }
}

/// On every platform the extension of an ordinary path is what follows its last
/// dot.
pub proof fn law_an_ordinary_path_has_its_extension(path: Seq<char>, extension: Seq<char>)
    requires
        plain(path),
        may_be_extension(path, extension),
    ensures
        extension == path.skip(last_dot(path) + 1),
{
    let name = choose|name: Option<Seq<char>>| #[trigger]
        may_be_file_name(path, name) && extension == extension_or_empty(name);
    law_a_dotted_path_has_its_extension(path, name);
}

/// All segments behind the first count where both separators do: none is empty
/// or `.`.
pub open spec fn all_count(path: Seq<char>) -> bool {
    forall|i: int|
        0 < i < segments(slashed(path)).len() ==> (#[trigger] segments(slashed(path))[i]).len() > 0
            && segments(slashed(path))[i] != seq!['.']
}

/// All segments count where both separators do, but for what stands before the
/// first separator, or between the two in front.
pub open spec fn tidy(path: Seq<char>) -> bool {
    if starts_double(path) {
        all_count(path.skip(1))
    } else {
        all_count(path)
    }
}

/// `a` and `b` lie on the same share or device, if on any.
pub open spec fn share_prefix(a: Seq<char>, b: Seq<char>) -> bool {
    let x = components(slashed(a));
    let y = components(slashed(b));
    &&& starts_double(a) == starts_double(b)
    &&& starts_double(a) ==> forall|i: int|
        0 <= i < prefix_length(x) && i < x.len() && i < y.len() ==> #[trigger] x[i] == y[i]
}

/// One more separator in front adds a segment, but no component.
proof fn lemma_second_separator(path: Seq<char>)
    requires
        path.len() > 0,
        path[0] == '/',
    ensures
        components(seq!['/'] + path) == components(path),
{
    let longer = seq!['/'] + path;
    lemma_segments_behind_slash(path);
    lemma_first_segment(path);
    let rest = segments(path).skip(1);
    assert(segments(longer).skip(1) =~= segments(path));
    assert(segments(path) =~= seq![segments(path)[0]] + rest);
    lemma_empty_is_not_kept(segments(path)[0], rest);
    assert(longer[0] == '/');
}

/// An empty segment in front is not kept.
proof fn lemma_empty_is_not_kept(segment: Seq<char>, rest: Seq<Seq<char>>)
    requires
        segment.len() == 0,
    ensures
        kept(seq![segment] + rest) == kept(rest),
    decreases rest.len(),
{
    reveal(Seq::filter);
    if rest.len() == 0 {
        let all = seq![segment] + rest;
        assert(rest =~= Seq::empty());
        assert(all.last() == segment);
        assert(all.drop_last() =~= rest);
        assert(kept(all) == kept(all.drop_last()));
    } else {
        lemma_empty_is_not_kept(segment, rest.drop_last());
        assert((seq![segment] + rest).drop_last() =~= seq![segment] + rest.drop_last());
    }
}

/// The segments of a path behind one more `/`.
proof fn lemma_segments_behind_slash(path: Seq<char>)
    ensures
        segments(seq!['/'] + path) == seq![Seq::<char>::empty()] + segments(path),
    decreases path.len(),
{
    let longer = seq!['/'] + path;
    if path.len() == 0 {
        reveal_with_fuel(segments, 2);
        assert(longer =~= seq!['/']);
        assert(longer.drop_last() =~= Seq::empty());
        assert(segments(longer) =~= seq![Seq::<char>::empty()] + segments(path));
    } else {
        lemma_segments_behind_slash(path.drop_last());
        lemma_last_segment(path.drop_last());
        assert(longer.drop_last() =~= seq!['/'] + path.drop_last());
        assert(longer.last() == path.last());
        assert(segments(longer) =~= seq![Seq::<char>::empty()] + segments(path));
    }
}

/// The only separator in `path` is `separator`.
pub open spec fn has_one_separator(path: Seq<char>, separator: char) -> bool {
    forall|i: int|
        0 <= i < path.len() && is_separator(#[trigger] path[i]) ==> path[i] == separator
}

/// If all count, all are kept.
proof fn lemma_all_are_kept(all: Seq<Seq<char>>)
    requires
        forall|i: int| 0 <= i < all.len() ==> (#[trigger] all[i]).len() > 0 && all[i] != seq!['.'],
    ensures
        kept(all) == all,
    decreases all.len(),
{
    reveal(Seq::filter);
    if all.len() > 0 {
        let fewer = all.drop_last();
        assert forall|i: int| 0 <= i < fewer.len() implies (#[trigger] fewer[i]).len() > 0
            && fewer[i] != seq!['.'] by {
            assert(fewer[i] == all[i]);
        }
        lemma_all_are_kept(fewer);
        assert(all[all.len() - 1] == all.last());
        assert(fewer.push(all.last()) =~= all);
    } else {
        assert(kept(all) =~= all);
    }
}

/// The first segment holds no `/`, and is empty in front of one.
proof fn lemma_first_segment(path: Seq<char>)
    ensures
        segments(path).len() > 0,
        !segments(path)[0].contains('/'),
        path.len() > 0 && path[0] == '/' ==> segments(path)[0].len() == 0,
        path.len() > 0 && path[0] != '/' ==> segments(path)[0].len() > 0 && segments(path)[0][0]
            == path[0],
    decreases path.len(),
{
    if path.len() > 0 {
        let before = path.drop_last();
        lemma_first_segment(before);
        lemma_last_segment(before);
        lemma_last_segment(path);
        if segments(before).len() == 1 && path.last() != '/' {
            assert(segments(path)[0] == segments(path).last());
        }
    }
}

/// Paths with the same segments are the same.
proof fn lemma_segments_tell_the_path(a: Seq<char>, b: Seq<char>)
    requires
        segments(a) == segments(b),
    ensures
        a == b,
    decreases a.len() + b.len(),
{
    lemma_last_segment(a);
    lemma_last_segment(b);
    if a.len() == 0 || b.len() == 0 {
        assert(segments(a).len() == 1 && segments(b).len() == 1);
        assert(a =~= b);
    } else {
        let x = segments(a.drop_last());
        let y = segments(b.drop_last());
        lemma_last_segment(a.drop_last());
        lemma_last_segment(b.drop_last());
        if a.last() == '/' {
            assert(segments(a).last().len() == 0);
            assert(b.last() == '/');
            assert(x =~= segments(a).drop_last());
            assert(y =~= segments(b).drop_last());
        } else {
            assert(segments(a).last() == x.last().push(a.last()));
            assert(b.last() != '/');
            assert(segments(b).last() == y.last().push(b.last()));
            assert(x.last() =~= segments(a).last().drop_last());
            assert(y.last() =~= segments(b).last().drop_last());
            assert(a.last() == segments(a).last().last());
            assert(b.last() == segments(b).last().last());
            assert(x.drop_last() =~= segments(a).drop_last());
            assert(y.drop_last() =~= segments(b).drop_last());
            assert(x =~= x.drop_last().push(x.last()));
            assert(y =~= y.drop_last().push(y.last()));
        }
        lemma_segments_tell_the_path(a.drop_last(), b.drop_last());
        assert(a =~= a.drop_last().push(a.last()));
        assert(b =~= b.drop_last().push(b.last()));
    }
}

/// Tidy paths with the same components are the same where both separators count.
proof fn lemma_components_tell_a_tidy_path(a: Seq<char>, b: Seq<char>)
    requires
        tidy(a),
        tidy(b),
        starts_double(a) == starts_double(b),
        components(slashed(a)) == components(slashed(b)),
    ensures
        slashed(a) == slashed(b),
{
    if starts_double(a) {
        let p = a.skip(1);
        let q = b.skip(1);
        assert(slashed(a) =~= seq!['/'] + slashed(p));
        assert(slashed(b) =~= seq!['/'] + slashed(q));
        lemma_second_separator(slashed(p));
        lemma_second_separator(slashed(q));
        lemma_components_tell_the_path(p, q);
    } else {
        lemma_components_tell_the_path(a, b);
    }
}

/// Paths all of whose segments count are the same if their components are, where
/// both separators do.
proof fn lemma_components_tell_the_path(a: Seq<char>, b: Seq<char>)
    requires
        all_count(a),
        all_count(b),
        components(slashed(a)) == components(slashed(b)),
    ensures
        slashed(a) == slashed(b),
{
    let p = slashed(a);
    let q = slashed(b);
    lemma_first_segment(p);
    lemma_first_segment(q);
    let x = segments(p).skip(1);
    let y = segments(q).skip(1);
    assert forall|i: int| 0 <= i < x.len() implies (#[trigger] x[i]).len() > 0 && x[i]
        != seq!['.'] by {
        assert(x[i] == segments(p)[i + 1]);
    }
    assert forall|i: int| 0 <= i < y.len() implies (#[trigger] y[i]).len() > 0 && y[i]
        != seq!['.'] by {
        assert(y[i] == segments(q)[i + 1]);
    }
    lemma_all_are_kept(x);
    lemma_all_are_kept(y);
    lemma_last_segment(p);
    lemma_last_segment(q);
    if p.len() > 0 && q.len() > 0 {
        assert(components(p)[0] == components(q)[0]);
        assert(components(p).skip(1) =~= x);
        assert(components(q).skip(1) =~= y);
        assert(seq!['/'].contains('/')) by {
            assert(seq!['/'][0] == '/');
        }
        if p[0] == '/' {
            assert(q[0] == '/');
            assert(segments(p)[0] =~= segments(q)[0]);
        } else {
            assert(q[0] != '/');
        }
        assert(segments(p) =~= seq![segments(p)[0]] + x);
        assert(segments(q) =~= seq![segments(q)[0]] + y);
        lemma_segments_tell_the_path(p, q);
    } else if p.len() > 0 {
        assert(components(p).len() > 0);
        assert(segments(q).len() == 1);
        assert(y =~= Seq::empty());
    } else if q.len() > 0 {
        assert(components(q).len() > 0);
        assert(segments(p).len() == 1);
        assert(x =~= Seq::empty());
    }
}

/// On every platform tidy paths that are written with one separator, and lie on
/// the same share or under the same letter of a drive if on any, are the same
/// only if they are the same text.
pub proof fn law_one_separator_is_one_spelling(a: Seq<char>, b: Seq<char>, separator: char)
    requires
        tidy(a),
        tidy(b),
        has_one_separator(a, separator),
        has_one_separator(b, separator),
        share_prefix(a, b),
        on_drive(a) && on_drive(b) ==> a[0] == b[0],
        may_be_same(a, b, true),
    ensures
        a == b,
{
    if slashed(a) == slashed(b) {
        assert(a.len() == slashed(a).len() && b.len() == slashed(b).len());
        assert forall|i: int| 0 <= i < a.len() implies #[trigger] a[i] == b[i] by {
            assert(slashed(a)[i] == slashed(b)[i]);
            assert(is_separator(a[i]) == is_separator(b[i]));
        }
        assert(a =~= b);
    }
    if components(a) == components(b) {
        if separator == '\\' {
            lemma_without_slash_is_one_component(a);
            lemma_without_slash_is_one_component(b);
            if a.len() > 0 {
                assert(components(a)[0] == a);
            }
            if b.len() > 0 {
                assert(components(b)[0] == b);
            }
        } else {
            assert(slashed(a) =~= a);
            assert(slashed(b) =~= b);
            lemma_components_tell_a_tidy_path(a, b);
        }
    } else {
        let x = components(slashed(a));
        let y = components(slashed(b));
        assert forall|i: int| 0 <= i < x.len() implies #[trigger] x[i] == y[i] by {
            if i == 0 && on_drive(a) && on_drive(b) && x[0] != y[0] {
                lemma_first_segment(slashed(a));
                lemma_first_segment(slashed(b));
                assert(x[0] == segments(slashed(a))[0]);
                assert(y[0] == segments(slashed(b))[0]);
                assert(x[0] =~= seq![x[0][0]] + x[0].skip(1));
                assert(y[0] =~= seq![y[0][0]] + y[0].skip(1));
            }
        }
        assert(x =~= y);
        lemma_components_tell_a_tidy_path(a, b);
    }
}

/// A path without `/` is one component where `/` alone separates them.
proof fn lemma_without_slash_is_one_component(path: Seq<char>)
    requires
        has_one_separator(path, '\\'),
    ensures
        path.len() > 0 ==> components(path) == seq![path],
        path.len() == 0 ==> components(path).len() == 0,
{
    reveal(Seq::filter);
    if path.contains('/') {
        let i = choose|i: int| 0 <= i < path.len() && path[i] == '/';
        assert(is_separator(path[i]));
    }
    lemma_segments_of_sum(Seq::empty(), path);
    assert(Seq::<char>::empty() + path =~= path);
    assert(segments(path) =~= seq![path]);
    assert(segments(path).skip(1) =~= Seq::empty());
    assert(kept(segments(path).skip(1)) =~= Seq::empty());
    assert(path.len() > 0 ==> path[0] != '/') by {
        if path.len() > 0 {
            assert(path.contains(path[0]));
        }
    }
    if path.len() > 0 {
        assert(components(path) =~= seq![path]);
    }
}

/// The last dot of two texts put together is that of the second, if it has one.
proof fn lemma_last_dot_of_sum(a: Seq<char>, b: Seq<char>)
    requires
        last_dot(b) >= 0,
    ensures
        last_dot(a + b) == a.len() + last_dot(b),
    decreases b.len(),
{
    lemma_last_dot_is_inside(b);
    assert((a + b).last() == b.last());
    if b.last() != '.' {
        assert((a + b).drop_last() =~= a + b.drop_last());
        lemma_last_dot_of_sum(a, b.drop_last());
    }
}

/// The last dot of a name is the one before an extension in which there is none.
pub(crate) proof fn lemma_last_dot_before(stem: Seq<char>, extension: Seq<char>)
    requires
        forall|i: int| 0 <= i < extension.len() ==> #[trigger] extension[i] != '.',
    ensures
        last_dot(stem.push('.') + extension) == stem.len(),
    decreases extension.len(),
{
    let name = stem.push('.') + extension;
    if extension.len() == 0 {
        assert(name =~= stem.push('.'));
    } else {
        assert(name.last() == extension.last());
        assert(name.drop_last() =~= stem.push('.') + extension.drop_last());
        lemma_last_dot_before(stem, extension.drop_last());
    }
}

/// Nothing behind the last separator is one.
proof fn lemma_last_part_holds_no_separator(path: Seq<char>)
    ensures
        forall|i: int|
            0 <= i < last_part(path).len() ==> !is_separator(#[trigger] last_part(path)[i]),
    decreases path.len(),
{
    if path.len() > 0 && !is_separator(path.last()) {
        let before = path.drop_last();
        lemma_last_part_holds_no_separator(before);
        assert forall|i: int| 0 <= i < last_part(path).len() implies !is_separator(
            #[trigger] last_part(path)[i],
        ) by {
            if i < last_part(before).len() {
                assert(last_part(path)[i] == last_part(before)[i]);
            }
        }
    }
}

/// What stands behind a separator, or alone, is the last part if no separator
/// stands in it.
proof fn lemma_last_part_of_sum(front: Seq<char>, part: Seq<char>)
    requires
        front.len() == 0 || is_separator(front.last()),
        forall|i: int| 0 <= i < part.len() ==> !is_separator(#[trigger] part[i]),
    ensures
        last_part(front + part) == part,
    decreases part.len(),
{
    if part.len() == 0 {
        assert(front + part =~= front);
        assert(last_part(front) =~= part);
    } else {
        let fewer = part.drop_last();
        assert forall|i: int| 0 <= i < fewer.len() implies !is_separator(#[trigger] fewer[i]) by {
            assert(fewer[i] == part[i]);
        }
        lemma_last_part_of_sum(front, fewer);
        assert((front + part).drop_last() =~= front + fewer);
        assert((front + part).last() == part[part.len() - 1]);
        assert(fewer.push(part.last()) =~= part);
    }
}

/// A path that ends in a name with a dot inside still does with another
/// extension, and starts as it did; if it is ordinary, it stays so.
pub(crate) proof fn lemma_new_extension_keeps_dotted(path: Seq<char>, extension: Seq<char>)
    requires
        dotted(path),
        extension.len() > 0,
        no_separator(extension),
        forall|i: int| 0 <= i < extension.len() ==> #[trigger] extension[i] != '.',
    ensures
        dotted(path_with_extension(path, extension)),
        plain(path) ==> plain(path_with_extension(path, extension)),
        last_dot(path_with_extension(path, extension)) == last_dot(path),
        path_with_extension(path, extension).skip(last_dot(path) + 1) == extension,
{
    let part = last_part(path);
    let out = path_with_extension(path, extension);
    lemma_last_part_is_the_end(path);
    lemma_last_dot_is_inside(part);
    lemma_part_ends_behind_separator(path);
    lemma_last_part_holds_no_separator(path);
    let from = path.len() - part.len();
    let front = path.take(from);
    let stem = part.take(last_dot(part));
    let new = stem.push('.') + extension;
    assert forall|i: int| 0 <= i < part.len() implies #[trigger] part[i] == path[from + i] by {
        assert(path.skip(from)[i] == path[from + i]);
    }
    assert(path.take(last_dot(path)) =~= front + stem);
    assert(out =~= front + new);
    assert forall|i: int| 0 <= i < new.len() implies !is_separator(#[trigger] new[i]) by {
        if i < stem.len() {
            assert(new[i] == part[i]);
        } else if i > stem.len() {
            assert(new[i] == extension[i - stem.len() - 1]);
            assert(extension.contains(extension[i - stem.len() - 1]));
        }
    }
    lemma_last_part_of_sum(front, new);
    lemma_last_dot_before(stem, extension);
    lemma_last_dot_before(path.take(last_dot(path)), extension);
    assert(new.last() == extension.last());
    assert(out.skip(last_dot(path) + 1) =~= extension);
    assert(out[0] == path[0]);
    if last_dot(path) > 1 {
        assert(out[1] == path[1]);
    } else {
        assert(out[1] == '.');
        assert(from == 0);
        assert(part[0] == path[0]);
    }
    if names_on_drive(out) {
        assert(from == 0);
        assert(last_dot(path) > 1);
        assert(names_on_drive(path));
        assert(out.skip(2).last() == extension.last());
    }
    if starts_double(out) {
        assert(from >= 2) by {
            if from < 2 {
                assert(part[1 - from] == path[1]);
                assert(last_dot(part) > 0);
            }
        }
        assert(last_dot(path) > 2);
        assert(out[2] == path[2]);
        if last_dot(path) > 3 {
            assert(out[3] == path[3]);
        } else {
            assert(out[3] == '.');
        }
        assert(path =~= front + part);
        assert forall|i: int| 0 <= i < part.len() implies #[trigger] part[i] != '/' && part[i]
            != '\\' by {
            assert(!is_separator(part[i]));
        }
        assert(slashed(path) =~= slashed(front) + part);
        assert(slashed(out) =~= slashed(front) + new);
        lemma_components_of_other_end(slashed(front), part, new);
        assert(swapped(path) =~= swapped(front) + part);
        assert(swapped(out) =~= swapped(front) + new);
        lemma_components_of_other_end(swapped(front), part, new);
        assert(seq!['.'].len() == 1);
    }
}

/// What follows the last `/` is the last component, so that another text there
/// leaves the others as they are.
proof fn lemma_components_of_other_end(front: Seq<char>, a: Seq<char>, b: Seq<char>)
    requires
        front.len() > 0,
        a.len() > 1,
        b.len() > 1,
        !a.contains('/'),
        !b.contains('/'),
    ensures
        components(front + a).len() == components(front + b).len(),
        forall|i: int|
            0 <= i < components(front + a).len() - 1 ==> #[trigger] components(front + a)[i]
                == components(front + b)[i],
{
    lemma_segments_of_sum(front, a);
    lemma_segments_of_sum(front, b);
    lemma_last_segment(front);
    let before = segments(front).drop_last();
    let last = segments(front).last();
    assert((front + a)[0] == front[0] && (front + b)[0] == front[0]);
    if before.len() == 0 {
        assert(segments(front + a).skip(1) =~= Seq::empty());
        assert(segments(front + b).skip(1) =~= Seq::empty());
    } else {
        let inner = before.skip(1);
        assert(segments(front + a).skip(1) =~= inner.push(last + a));
        assert(segments(front + b).skip(1) =~= inner.push(last + b));
        lemma_kept_of_push(inner, last + a);
        lemma_kept_of_push(inner, last + b);
    }
}

/// A segment of two or more characters counts.
proof fn lemma_kept_of_push(all: Seq<Seq<char>>, segment: Seq<char>)
    requires
        segment.len() > 1,
    ensures
        kept(all.push(segment)) == kept(all).push(segment),
{
    reveal(Seq::filter);
    assert(all.push(segment).drop_last() =~= all);
    assert(seq!['.'].len() == 1);
}

/// A text that ends in filler ends in no name.
proof fn lemma_filler_ends_in_no_name(text: Seq<char>, rest: Seq<char>)
    requires
        is_filler(rest),
        rest.len() > 0,
    ensures
        last_part(text + rest).len() <= 1,
{
    reveal_with_fuel(last_part, 3);
    let all = text + rest;
    assert(all.last() == rest.last());
    if !is_separator(rest.last()) {
        assert(rest.len() > 1);
        assert(is_separator(rest[rest.len() - 2]));
        assert(all.drop_last().last() == rest[rest.len() - 2]);
    }
}

/// A path that ends in a name with a dot inside comes out with the new extension
/// in place of the old one, on every platform on which it has a file name, and
/// else as it was.
pub proof fn law_the_end_of_a_dotted_path_is_replaced(
    path: Seq<char>,
    extension: Seq<char>,
    out: Seq<char>,
)
    requires
        dotted(path),
        may_be_extended(path, extension, out),
    ensures
        out == path || out == path_with_extension(path, extension),
        plain(path) ==> out == path_with_extension(path, extension),
{
    let name = choose|name: Option<Seq<char>>| #[trigger]
        may_be_file_name(path, name) && is_extended(path, name, extension, out);
    law_a_dotted_path_has_its_extension(path, name);
    if let Some(name) = name {
        let (front, rest) = choose|front: Seq<char>, rest: Seq<char>| #[trigger]
            (front + name + rest) == path && is_filler(rest) && out == front + with_extension(
                name,
                extension,
            );
        if rest.len() > 0 {
            lemma_filler_ends_in_no_name(front + name, rest);
            lemma_last_dot_is_inside(last_part(path));
        }
        assert(front + name =~= path);
        lemma_last_dot_of_sum(front, name);
        assert(front + stem_of(name) =~= path.take(last_dot(path)));
        assert(front + with_extension(name, extension) =~= path_with_extension(path, extension));
    }
}

/// A separator behind a path adds no component.
proof fn lemma_components_before_separator(path: Seq<char>)
    requires
        path.len() > 0,
    ensures
        components(path.push('/')) == components(path),
{
    reveal(Seq::filter);
    lemma_last_segment(path);
    let longer = path.push('/');
    assert(longer.drop_last() =~= path);
    let rest = segments(path).skip(1);
    assert(segments(longer).skip(1) =~= rest.push(Seq::empty()));
    assert(rest.push(Seq::empty()).drop_last() =~= rest);
    assert(kept(rest.push(Seq::empty())) == kept(rest));
}

/// A text without `/` goes on with the last segment.
proof fn lemma_segments_of_sum(path: Seq<char>, text: Seq<char>)
    requires
        !text.contains('/'),
    ensures
        segments(path + text) == segments(path).drop_last().push(segments(path).last() + text),
    decreases text.len(),
{
    lemma_last_segment(path);
    if text.len() == 0 {
        assert(path + text =~= path);
        assert(segments(path).last() + text =~= segments(path).last());
        assert(segments(path).drop_last().push(segments(path).last()) =~= segments(path));
    } else {
        let fewer = text.drop_last();
        assert(text.contains(text.last()));
        if fewer.contains('/') {
            let i = choose|i: int| 0 <= i < fewer.len() && fewer[i] == '/';
            assert(text[i] == '/');
        }
        lemma_segments_of_sum(path, fewer);
        assert((path + text).drop_last() =~= path + fewer);
        let before = segments(path + fewer);
        assert(before.drop_last() =~= segments(path).drop_last());
        assert((segments(path).last() + fewer).push(text.last()) =~= segments(path).last() + text);
    }
}

/// A name behind a separator, or alone, is one more component.
proof fn lemma_components_with_name(path: Seq<char>, name: Seq<char>)
    requires
        path.len() == 0 || path.last() == '/',
        is_name(name),
    ensures
        components(path + name) == components(path).push(name),
{
    reveal(Seq::filter);
    let all = path + name;
    lemma_segments_of_sum(path, name);
    lemma_last_segment(path);
    if path.len() == 0 {
        assert(all =~= name);
        lemma_last_segment(name);
        assert(name.contains(name[0]));
        assert(segments(all) =~= seq![name]);
        assert(segments(all).skip(1) =~= Seq::empty());
        assert(kept(segments(all).skip(1)) =~= Seq::empty());
        assert(segments(path).skip(1) =~= Seq::empty());
        assert(kept(segments(path).skip(1)) =~= Seq::empty());
        assert(components(all) =~= components(path).push(name));
    } else {
        assert(segments(path).last() =~= Seq::empty());
        assert(Seq::<char>::empty() + name =~= name);
        assert(segments(path).len() > 1);
        let inner = segments(path).skip(1).drop_last();
        assert(segments(path).skip(1) =~= inner.push(Seq::empty()));
        assert(segments(all).skip(1) =~= inner.push(name));
        assert(inner.push(name).drop_last() =~= inner);
        assert(inner.push(Seq::<char>::empty()).drop_last() =~= inner);
        assert(kept(inner.push(name)) == kept(inner).push(name));
        assert(kept(inner.push(Seq::empty())) == kept(inner));
        assert(components(all) =~= components(path).push(name));
    }
}

/// A name within a directory is one more component, whichever separator is put
/// between them.
pub(crate) proof fn lemma_components_of_joined(path: Seq<char>, name: Seq<char>, out: Seq<char>)
    requires
        may_be_joined(path, name, out),
        !on_drive(path),
        is_name(name),
        no_separator(name),
    ensures
        components(slashed(out)) == components(slashed(path)).push(name),
{
    let separator = choose|separator: Seq<char>| #[trigger]
        may_separate(path, separator) && out == path + separator + name;
    assert forall|i: int| 0 <= i < name.len() implies #[trigger] slashed(name)[i] == name[i] by {
        assert(name.contains(name[i]));
    }
    assert(slashed(name) =~= name);
    let flat = slashed(path);
    if separator.len() == 0 {
        assert(slashed(out) =~= flat + name);
        lemma_components_with_name(flat, name);
    } else {
        assert(slashed(out) =~= flat.push('/') + name);
        lemma_components_with_name(flat.push('/'), name);
        lemma_components_before_separator(flat);
    }
}

/// What is within a directory does not start as Windows takes it, unless the
/// directory does.
pub(crate) proof fn lemma_joined_is_not_verbatim(path: Seq<char>, name: Seq<char>, out: Seq<char>)
    requires
        may_be_joined(path, name, out),
        !verbatim(path),
        name.len() > 2,
        name[0] != '?',
        name[1] != '?',
        name[2] != '?',
        path.len() != 3 || !starts_double(path),
    ensures
        !verbatim(out),
{
    let separator = choose|separator: Seq<char>| #[trigger]
        may_separate(path, separator) && out == path + separator + name;
    if path.len() > 3 {
        assert(out[0] == path[0] && out[1] == path[1]);
        assert(out[2] == path[2] && out[3] == path[3]);
    } else if path.len() == 3 {
        assert(out[0] == path[0] && out[1] == path[1] && out[2] == path[2]);
    } else {
        let at = 2 - path.len();
        assert(separator.len() <= 1);
        if at < separator.len() {
            assert(out[2] == separator[at]);
        } else {
            assert(out[2] == name[at - separator.len()]);
        }
    }
}

/// A text without a last dot holds none.
proof fn lemma_no_last_dot(text: Seq<char>)
    requires
        last_dot(text) < 0,
    ensures
        forall|i: int| 0 <= i < text.len() ==> #[trigger] text[i] != '.',
    decreases text.len(),
{
    if text.len() > 0 {
        let before = text.drop_last();
        lemma_no_last_dot(before);
        assert forall|i: int| 0 <= i < text.len() implies #[trigger] text[i] != '.' by {
            if i < before.len() {
                assert(before[i] == text[i]);
            }
        }
    }
}

/// If no dot stands behind the last separator, that stands behind the last dot.
pub(crate) proof fn lemma_separator_behind_last_dot(text: Seq<char>)
    requires
        last_dot(last_part(text)) < 0,
        last_dot(text) >= 0,
    ensures
        exists|i: int| last_dot(text) < i < text.len() && is_separator(#[trigger] text[i]),
{
    let part = last_part(text);
    let at = last_dot(text);
    lemma_no_last_dot(part);
    lemma_last_dot_is_inside(text);
    lemma_last_dot_is_a_dot(text);
    lemma_last_part_is_the_end(text);
    lemma_part_ends_behind_separator(text);
    let from = text.len() - part.len();
    if at >= from {
        assert(text.skip(from)[at - from] == text[at]);
        assert(part[at - from] == '.');
    }
    assert(is_separator(text[from - 1]));
}

/// On every platform a path that ends in a name without a dot has a file name
/// that does, if it has one.
pub(crate) proof fn lemma_name_without_dot(path: Seq<char>, name: Seq<char>)
    requires
        last_part(path).len() > 0,
        last_dot(last_part(path)) < 0,
        may_be_file_name(path, Some(name)),
    ensures
        last_dot(last_part(name)) < 0,
{
    let part = last_part(path);
    lemma_no_last_dot(part);
    lemma_last_part_holds_no_separator(path);
    lemma_last_part_of_sum(Seq::empty(), part);
    assert(Seq::<char>::empty() + part =~= part);
    assert(part[0] != '.');
    lemma_file_name_ends_in_part(path);
    lemma_last_segment_of_slashed(path);
    lemma_last_segment(slashed(path));
    lemma_last_component(slashed(path));
    if on_drive(path) {
        lemma_part_ends_behind_separator(path);
        if names_on_drive(path) {
            let rest = path.skip(2);
            lemma_last_part_is_the_end(path);
            assert(path.skip(0) =~= path);
            assert forall|i: int| 0 <= i < rest.len() implies !is_separator(#[trigger] rest[i]) by {
                assert(part[i + 2] == rest[i]);
            }
            lemma_last_part_of_sum(Seq::empty(), rest);
            assert(Seq::<char>::empty() + rest =~= rest);
            lemma_no_dot_in_rest(path, 2);
            if rest.len() > 0 {
                assert(rest[0] == part[2]);
                lemma_last_segment_of_slashed(rest);
                lemma_last_segment(slashed(rest));
                lemma_last_component(slashed(rest));
            } else {
                assert(slashed(rest) =~= Seq::empty());
                lemma_without_slash_is_one_component(slashed(rest));
            }
        } else {
            lemma_last_part_of_rest(path, 2);
            lemma_last_segment_of_slashed(path.skip(2));
            lemma_last_segment(slashed(path.skip(2)));
            lemma_last_component(slashed(path.skip(2)));
        }
    }
    if is_end_of(path, name) {
        assert(name =~= path.skip(path.len() - name.len()));
        lemma_last_part_of_rest(path, path.len() - name.len());
    }
}

/// The end of a text without a dot has none.
proof fn lemma_no_dot_in_rest(text: Seq<char>, from: int)
    requires
        0 <= from <= text.len(),
        last_dot(text) < 0,
    ensures
        last_dot(text.skip(from)) < 0,
{
    let rest = text.skip(from);
    lemma_no_last_dot(text);
    lemma_last_dot_is_inside(rest);
    lemma_last_dot_is_a_dot(rest);
    if last_dot(rest) >= 0 {
        assert(rest[last_dot(rest)] == text[from + last_dot(rest)]);
    }
}

/// Where `/` alone separates components, a path that ends in a name without a dot
/// has a file name that ends so too.
proof fn lemma_file_name_ends_in_part(path: Seq<char>)
    requires
        last_part(path).len() > 0,
        last_part(path)[last_part(path).len() - 1] != '.',
    ensures
        components(path).len() > 0,
        components(path).last() == segments(path).last(),
        last_part(segments(path).last()) == last_part(path),
{
    lemma_last_segment(path);
    let last = segments(path).last();
    lemma_last_part_is_the_end(last);
    if last == seq!['.'] {
        assert(last_part(path).last() == last.last());
    }
    lemma_last_component(path);
}

/// What is within a directory ends in its name, unless Windows takes the
/// directory as it stands.
pub(crate) proof fn lemma_within_ends_in_name(path: Seq<char>, name: Seq<char>, out: Seq<char>)
    requires
        may_be_within(path, name, out),
    ensures
        name.is_suffix_of(out) || verbatim(path),
        is_name(name) && no_separator(name) ==> name.is_suffix_of(out),
        is_name(name) && no_separator(name) && !on_drive(name) ==> out != path,
{
    if name.len() > 0 {
        assert(name.contains(name[0]));
    }
    assert(components(slashed(path)).push(name).len() == components(slashed(path)).len() + 1);
    if may_be_joined(path, name, out) {
        let separator = choose|separator: Seq<char>| #[trigger]
            may_separate(path, separator) && out == path + separator + name;
        assert(name.len() > 0 ==> out.len() > path.len());
        assert(out.subrange(out.len() - name.len(), out.len() as int) =~= name);
    } else if on_drive(name) && out == name {
        assert(out.subrange(0, out.len() as int) =~= name);
    } else if name.len() > 0 && is_separator(name[0]) && exists|n: int|
        0 <= n <= path.len() && out == #[trigger] path.take(n) + name {
        assert(out.subrange(out.len() - name.len(), out.len() as int) =~= name);
    }
}

/// Each segment of a path is made of its characters.
proof fn lemma_segments_hold_characters(path: Seq<char>, at: int, c: char)
    requires
        0 <= at < segments(path).len(),
        segments(path)[at].contains(c),
    ensures
        path.contains(c),
    decreases path.len(),
{
    if path.len() > 0 {
        let before = path.drop_last();
        lemma_last_segment(before);
        let segment = segments(path)[at];
        let i = choose|i: int| 0 <= i < segment.len() && segment[i] == c;
        if at < segments(before).len() - 1 || path.last() == '/' {
            assert(segment == segments(before)[at]);
            lemma_segments_hold_characters(before, at, c);
            let k = choose|k: int| 0 <= k < before.len() && before[k] == c;
            assert(path[k] == c);
        } else if i < segments(before).last().len() {
            assert(segments(before)[at][i] == c);
            lemma_segments_hold_characters(before, at, c);
            let k = choose|k: int| 0 <= k < before.len() && before[k] == c;
            assert(path[k] == c);
        } else {
            assert(path[path.len() - 1] == c);
        }
    }
}

/// The file name of a path on which all platforms agree holds no separator.
pub(crate) proof fn lemma_name_of_portable_path(path: Seq<char>, name: Seq<char>)
    requires
        portable(path),
        file_name_of(path) == Some(name),
    ensures
        no_separator(name),
{
    if name.contains('\\') {
        let rest = segments(path).skip(1);
        lemma_last_segment(path);
        if components(path).len() == 1 {
            if path[0] != '/' {
                lemma_segments_hold_characters(path, 0, '\\');
            } else {
                assert(name == seq!['/']);
                assert(name[0] == '/');
            }
        } else {
            let last = kept(rest).len() - 1;
            assert(name == kept(rest)[last]);
            assert(kept(rest).contains(name));
            lemma_kept_are_segments(rest, name);
            let k = choose|k: int| 0 <= k < rest.len() && rest[k] == name;
            assert(segments(path)[k + 1] == name);
            lemma_segments_hold_characters(path, k + 1, '\\');
        }
    }
}

/// What is kept of segments are some of them.
proof fn lemma_kept_are_segments(all: Seq<Seq<char>>, segment: Seq<char>)
    requires
        kept(all).contains(segment),
    ensures
        all.contains(segment),
    decreases all.len(),
{
    reveal(Seq::filter);
    if all.len() > 0 {
        let fewer = all.drop_last();
        let i = choose|i: int| 0 <= i < kept(all).len() && kept(all)[i] == segment;
        if i < kept(fewer).len() {
            assert(kept(fewer)[i] == segment);
            lemma_kept_are_segments(fewer, segment);
            let k = choose|k: int| 0 <= k < fewer.len() && fewer[k] == segment;
            assert(all[k] == segment);
        } else {
            assert(all[all.len() - 1] == segment);
        }
    }
}

/// Where `/` alone separates components, what stands behind the last one is the file
/// name, and is one more component than the directory in front has: so a file is
/// called what it is called in its directory.
pub proof fn law_a_file_is_called_what_stands_behind_its_directory(
    directory: Seq<char>,
    name: Seq<char>,
)
    requires
        is_name(name),
    ensures
        file_name_of(name) == Some(name),
        file_name_of(directory.push('/') + name) == Some(name),
        directory.len() > 0 ==> components(directory.push('/') + name) == components(
            directory,
        ).push(name),
{
    lemma_components_with_name(Seq::empty(), name);
    assert(Seq::<char>::empty() + name =~= name);
    lemma_components_with_name(directory.push('/'), name);
    if directory.len() > 0 {
        lemma_components_before_separator(directory);
    }
}

} // verus!
