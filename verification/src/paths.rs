//! Paths as text, taken apart and put together by the rules of `std::path`.

use crate::text::{ascii_lower, chars_of, text_of};
use std::path::{Path, PathBuf};
use vstd::prelude::*;
use vstd::string::*;

verus! {

/// `path` split at every `/`.
pub open spec fn segments(path: Seq<char>) -> Seq<Seq<char>>
    decreases path.len(),
{
    if path.len() == 0 {
        seq![Seq::empty()]
    } else {
        let before = segments(path.drop_last());
        if path.last() == '/' {
            before.push(Seq::empty())
        } else {
            before.drop_last().push(before.last().push(path.last()))
        }
    }
}

/// The segments that count: not the empty ones, and not `.`.
pub open spec fn kept(segments: Seq<Seq<char>>) -> Seq<Seq<char>> {
    segments.filter(|segment: Seq<char>| segment.len() > 0 && segment != seq!['.'])
}

/// The components of a path where `/` alone separates them: `/` for the root,
/// then what stands between the separators. Repeated and trailing separators
/// count for nothing, nor does a `.` that is not at the front.
pub open spec fn components(path: Seq<char>) -> Seq<Seq<char>> {
    let front = if path.len() > 0 && path[0] == '/' {
        seq![seq!['/']]
    } else if path.len() > 0 {
        seq![segments(path)[0]]
    } else {
        Seq::empty()
    };
    front + kept(segments(path).skip(1))
}

/// A component that names something: not the root, and not `.` or `..`.
pub open spec fn is_name(component: Seq<char>) -> bool {
    &&& component.len() > 0
    &&& !component.contains('/')
    &&& component != seq!['.']
    &&& component != seq!['.', '.']
}

/// The file name of a path where `/` alone separates components: the last of
/// them, if that names something.
pub open spec fn file_name_of(path: Seq<char>) -> Option<Seq<char>> {
    let all = components(path);
    if all.len() > 0 && is_name(all.last()) {
        Some(all.last())
    } else {
        None
    }
}

/// `c` separates components on some platform.
pub open spec fn is_separator(c: char) -> bool {
    c == '/' || c == '\\'
}

/// `path` with `/` for each separator, as Windows reads it.
pub open spec fn slashed(path: Seq<char>) -> Seq<char> {
    path.map_values(
        |c: char|
            if c == '\\' {
                '/'
            } else {
                c
            },
    )
}

/// `path` with the two separators exchanged.
pub open spec fn swapped(path: Seq<char>) -> Seq<char> {
    path.map_values(
        |c: char|
            if c == '\\' {
                '/'
            } else if c == '/' {
                '\\'
            } else {
                c
            },
    )
}

/// `path` starts as one with a drive of Windows does.
pub open spec fn on_drive(path: Seq<char>) -> bool {
    path.len() > 1 && path[1] == ':' && !is_separator(path[0])
}

/// `path` starts with two separators, as the paths of shares and devices of
/// Windows do.
pub open spec fn starts_double(path: Seq<char>) -> bool {
    path.len() > 1 && is_separator(path[0]) && is_separator(path[1])
}

/// `path` starts as the paths do that Windows takes as they stand, in which `\`
/// alone separates components.
pub open spec fn verbatim(path: Seq<char>) -> bool {
    path.len() > 3 && path[0] == '\\' && path[1] == '\\' && path[2] == '?' && path[3] == '\\'
}

/// `path` reads the same on every platform: `/` is its only separator, and it
/// starts with none of the prefixes of Windows.
pub open spec fn portable(path: Seq<char>) -> bool {
    &&& !path.contains('\\')
    &&& !seq!['/', '/'].is_prefix_of(path)
    &&& path.len() > 1 ==> path[1] != ':'
}

/// What stands in `path` behind everything that separates components on some
/// platform.
pub open spec fn last_part(path: Seq<char>) -> Seq<char>
    decreases path.len(),
{
    if path.len() == 0 || is_separator(path.last()) {
        Seq::empty()
    } else {
        last_part(path.drop_last()).push(path.last())
    }
}

/// `path` is a name alone, behind a drive of Windows.
pub open spec fn names_on_drive(path: Seq<char>) -> bool {
    on_drive(path) && last_part(path).len() == path.len()
}

/// `path` ends in a name with a dot inside, with or without the drive.
pub open spec fn dotted(path: Seq<char>) -> bool {
    &&& last_dot(last_part(path)) > 0
    &&& last_part(path) != seq!['.', '.']
    &&& names_on_drive(path) ==> last_dot(path) > 2 && path.skip(2) != seq!['.', '.']
}

/// How many components the prefix takes of a path that starts with two
/// separators and has these components, at most: the root and the two parts that
/// name a share or device, or what marks a path that is taken as it stands with
/// what it marks, which may be a share. Behind the mark of a share either
/// separator may stand.
pub open spec fn prefix_length(parts: Seq<Seq<char>>) -> int {
    if parts.len() > 2 && parts[1] == seq!['?'] && (parts[2] == seq!['U', 'N', 'C'] || seq![
        'U',
        'N',
        'C',
        '\\',
    ].is_prefix_of(parts[2])) {
        5
    } else {
        3
    }
}

/// `path` may have no file name on Windows though it has one where `/` alone
/// separates components: all of it may be the prefix that names a share or
/// device. One that is taken as it stands may also end in a `.` that counts.
pub open spec fn may_be_nameless(path: Seq<char>) -> bool {
    let parts = components(slashed(path));
    let verbatim_parts = components(swapped(path));
    ||| starts_double(path) && parts.len() <= prefix_length(parts)
    ||| verbatim(path) && (verbatim_parts.len() <= prefix_length(verbatim_parts) || last_part(
        path,
    ).len() == 0 || last_part(path) == seq!['.'])
}

/// `path` is an ordinary path of a file with an extension: it ends in a name
/// with a dot inside, and that is no part of a prefix of Windows.
pub open spec fn plain(path: Seq<char>) -> bool {
    dotted(path) && !may_be_nameless(path)
}

/// `name` is how `path` ends, and ends itself in what stands behind all
/// separators.
pub open spec fn is_end_of(path: Seq<char>, name: Seq<char>) -> bool {
    &&& name.len() > 0
    &&& last_part(path).len() > 0 ==> name.is_suffix_of(path) && last_part(path).len()
        <= name.len()
}

/// What the file name of `path` may be: the one where `/` alone separates
/// components, or the one on Windows. There both separators count, and a drive
/// is no part of a name; a path that is all prefix has no file name. In a path
/// that is taken as it stands `/` may be part of a name.
pub open spec fn may_be_file_name(path: Seq<char>, name: Option<Seq<char>>) -> bool {
    ||| name == file_name_of(path)
    ||| name == file_name_of(slashed(path))
    ||| on_drive(path) && name == file_name_of(slashed(path.skip(2)))
    ||| may_be_nameless(path) && name is None
    ||| verbatim(path) && path.contains('/') && name is Some && is_end_of(path, name->0)
}

/// `a` and `b` are the same but for the letter case of the drive in front.
pub open spec fn same_but_for_drive_case(a: Seq<char>, b: Seq<char>) -> bool {
    &&& a.len() > 0 && b.len() > 0
    &&& ascii_lower(a[0]) == ascii_lower(b[0])
    &&& a.skip(1) == b.skip(1)
}

/// `a` and `b` have the same components as Windows reads them, but for the
/// letter case of a drive and for the prefix that names a share or device.
pub open spec fn alike(a: Seq<char>, b: Seq<char>) -> bool {
    let x = components(slashed(a));
    let y = components(slashed(b));
    &&& x.len() == y.len()
    &&& forall|i: int|
        0 <= i < x.len() ==> {
            ||| #[trigger] x[i] == y[i]
            ||| starts_double(a) && starts_double(b) && i < prefix_length(x)
            ||| i == 0 && on_drive(a) && on_drive(b) && same_but_for_drive_case(x[i], y[i])
        }
}

/// `a` and `b` have the same components as Windows reads them; of paths of
/// shares and devices it is not said.
pub open spec fn surely_alike(a: Seq<char>, b: Seq<char>) -> bool {
    if on_drive(a) || on_drive(b) {
        &&& on_drive(a) && on_drive(b) && a[0] == b[0]
        &&& components(slashed(a.skip(2))) == components(slashed(b.skip(2)))
    } else {
        &&& !starts_double(a) && !starts_double(b)
        &&& components(slashed(a)) == components(slashed(b))
    }
}

/// What the outcome of comparing two paths may be. A path is the same as itself;
/// otherwise the components decide, where `/` alone separates them or as Windows
/// reads them.
pub open spec fn may_be_same(a: Seq<char>, b: Seq<char>, same: bool) -> bool {
    &&& a == b ==> same
    &&& {
        ||| same == (components(a) == components(b))
        ||| (same ==> alike(a, b)) && (surely_alike(a, b) ==> same)
    }
}

/// Separators, and `.` between them, which count for nothing behind a component.
pub open spec fn is_filler(text: Seq<char>) -> bool {
    text.len() > 0 ==> {
        &&& is_separator(text[0])
        &&& forall|i: int|
            0 <= i < text.len() ==> is_separator(#[trigger] text[i]) || text[i] == '.'
        &&& forall|i: int|
            0 < i < text.len() ==> is_separator(#[trigger] text[i]) || is_separator(text[i - 1])
    }
}

/// `out` is `path` with `extension` in place of that of its file name `name`.
pub open spec fn is_extended(
    path: Seq<char>,
    name: Option<Seq<char>>,
    extension: Seq<char>,
    out: Seq<char>,
) -> bool {
    match name {
        None => out == path,
        Some(name) => exists|front: Seq<char>, rest: Seq<char>| #[trigger]
            (front + name + rest) == path && is_filler(rest) && out == front + with_extension(
                name,
                extension,
            ),
    }
}

/// `out` may be `path` with `extension` in place of that of its file name.
pub open spec fn may_be_extended(path: Seq<char>, extension: Seq<char>, out: Seq<char>) -> bool {
    exists|name: Option<Seq<char>>| #[trigger]
        may_be_file_name(path, name) && is_extended(path, name, extension, out)
}

/// `path` with `extension` in place of what follows its last dot; an empty one
/// only takes that away, with the dot.
pub open spec fn path_with_extension(path: Seq<char>, extension: Seq<char>) -> Seq<char> {
    if extension.len() == 0 {
        path.take(last_dot(path))
    } else {
        path.take(last_dot(path)).push('.') + extension
    }
}

/// Between `directory` and what follows stands nothing that counts. Behind a
/// root the `.` that counts for nothing may stand at once.
pub open spec fn is_gap(directory: Seq<char>, between: Seq<char>) -> bool {
    ||| is_filler(between)
    ||| directory.len() > 0 && is_separator(directory.last()) && is_filler(
        seq![directory.last()] + between,
    )
}

/// `directory` is what stands in `path` before its file name `name`.
pub open spec fn is_before_name(
    path: Seq<char>,
    directory: Seq<char>,
    name: Seq<char>,
) -> bool {
    exists|between: Seq<char>, rest: Seq<char>| #[trigger]
        (directory + between + name + rest) == path && is_gap(directory, between) && is_filler(
            rest,
        )
}

/// What `path` without its last component may be.
pub open spec fn may_be_parent(path: Seq<char>, parent: Option<Seq<char>>) -> bool {
    match parent {
        Some(directory) => directory.is_prefix_of(path) && (may_be_file_name(path, None)
            || exists|name: Seq<char>| #[trigger]
            may_be_file_name(path, Some(name)) && is_before_name(path, directory, name)),
        None => may_be_file_name(path, None),
    }
}

/// `separator` may be what is put between the directory `path` and a name in it.
pub open spec fn may_separate(path: Seq<char>, separator: Seq<char>) -> bool {
    if path.len() == 0 || path.last() == '/' {
        separator == Seq::<char>::empty()
    } else if path.last() == '\\' {
        separator == Seq::<char>::empty() || separator == seq!['/']
    } else {
        ||| separator == seq!['/']
        ||| separator == seq!['\\']
        ||| on_drive(path) && path.len() == 2 && separator == Seq::<char>::empty()
    }
}

/// `out` may be `name` within the directory `path`.
pub open spec fn may_be_joined(path: Seq<char>, name: Seq<char>, out: Seq<char>) -> bool {
    exists|separator: Seq<char>| #[trigger]
        may_separate(path, separator) && out == path + separator + name
}

/// What `name` within the directory `path` may be. A name that starts as a path
/// with a drive or a root does may take the place of the directory, but for its
/// prefix; a directory that Windows takes as it stands is normalised there, of
/// which it is stated what comes of a name without separators.
pub open spec fn may_be_within(path: Seq<char>, name: Seq<char>, out: Seq<char>) -> bool {
    ||| may_be_joined(path, name, out)
    ||| on_drive(name) && out == name
    ||| name.len() > 0 && is_separator(name[0]) && exists|n: int|
        0 <= n <= path.len() && out == #[trigger] path.take(n) + name
    ||| verbatim(path) && (is_name(name) && no_separator(name) ==> name.is_suffix_of(out)
        && components(slashed(out)) == components(slashed(path)).push(name))
}

/// `path` with `name` for its file name, as components.
pub open spec fn renamed(path: Seq<char>, name: Seq<char>) -> Seq<Seq<char>> {
    components(path).drop_last().push(name)
}

/// No separator of any platform stands in `text`.
pub open spec fn no_separator(text: Seq<char>) -> bool {
    !text.contains('/') && !text.contains('\\')
}

/// Where the last dot of `name` stands, or -1 if it has none.
pub open spec fn last_dot(name: Seq<char>) -> int
    decreases name.len(),
{
    if name.len() == 0 || name.last() == '.' {
        name.len() - 1
    } else {
        last_dot(name.drop_last())
    }
}

/// The extension of a file name: what follows its last dot. A name with no dot,
/// or with a dot at its front only, has none.
pub open spec fn extension_of(name: Seq<char>) -> Option<Seq<char>> {
    if last_dot(name) > 0 {
        Some(name.skip(last_dot(name) + 1))
    } else {
        None
    }
}

/// A file name without its extension.
pub open spec fn stem_of(name: Seq<char>) -> Seq<char> {
    if last_dot(name) > 0 {
        name.take(last_dot(name))
    } else {
        name
    }
}

/// `name` with `extension` in place of its own; an empty one only takes it away.
pub open spec fn with_extension(name: Seq<char>, extension: Seq<char>) -> Seq<char> {
    if extension.len() == 0 {
        stem_of(name)
    } else {
        stem_of(name).push('.') + extension
    }
}

/// The extension of a file name, empty where there is no name or it has none.
pub open spec fn extension_or_empty(name: Option<Seq<char>>) -> Seq<char> {
    match name {
        Some(name) => match extension_of(name) {
            Some(extension) => extension,
            None => Seq::empty(),
        },
        None => Seq::empty(),
    }
}

/// `extension` is that of what may be the file name of `path`.
pub open spec fn may_be_extension(path: Seq<char>, extension: Seq<char>) -> bool {
    exists|name: Option<Seq<char>>| #[trigger]
        may_be_file_name(path, name) && extension == extension_or_empty(name)
}

/// Calls `Path::file_name`: the last component of `path`, if it names
/// something.
///
/// Which characters separate components depends on the platform: the name is
/// what one of them gives.
#[verifier::external_body]
pub(crate) fn file_name(path: &str) -> (name: Option<String>)
    ensures
        may_be_file_name(path@, text_of(name)),
{
    Path::new(path).file_name().and_then(|name| name.to_str()).map(|name| name.to_string())
}

/// Calls `PathBuf::set_extension`: `path` with the extension of its file name
/// replaced by `extension`, and ending there, or just `path` where it has no
/// file name.
///
/// What the file name is depends on the platform. Where all agree, the outcome
/// is stated by its components too.
#[verifier::external_body]
pub(crate) fn set_extension(path: &str, extension: &str) -> (out: String)
    requires
        no_separator(extension@),
    ensures
        may_be_extended(path@, extension@, out@),
        portable(path@) && file_name_of(path@) is Some && is_name(
            with_extension(file_name_of(path@)->0, extension@),
        ) ==> portable(out@) && components(out@) == renamed(
            path@,
            with_extension(file_name_of(path@)->0, extension@),
        ),
{
    let mut out = PathBuf::from(path);
    out.set_extension(extension);
    out.to_string_lossy().into_owned()
}

/// Compares with `Path::eq`: whether two paths have the same components.
///
/// What the components are depends on the platform: the outcome is that on one
/// of them. Whether Windows takes two spellings for the same drive, share or
/// device is not stated.
#[verifier::external_body]
pub(crate) fn same_path(a: &str, b: &str) -> (same: bool)
    ensures
        may_be_same(a@, b@, same),
{
    Path::new(a) == Path::new(b)
}

/// Calls `Path::parent`: `path` without its last component, which is how `path`
/// starts. A path with a file name has a parent.
///
/// What the components are depends on the platform. Where all agree, those of
/// the parent are stated too.
#[verifier::external_body]
pub(crate) fn parent(path: &str) -> (parent: Option<String>)
    ensures
        may_be_parent(path@, text_of(parent)),
        portable(path@) && file_name_of(path@) is Some ==> {
            &&& parent is Some
            &&& portable(parent->0@)
            &&& components(parent->0@) == components(path@).drop_last()
        },
{
    Path::new(path).parent().and_then(|dir| dir.to_str()).map(|dir| dir.to_string())
}

/// Calls `Path::join`: `name` within the directory `path`.
///
/// Which separator is put between them depends on the platform, as does whether
/// a name takes the place of the directory. What Windows makes of a name with
/// separators in a directory that it takes as it stands is not stated.
#[verifier::external_body]
pub(crate) fn join(path: &str, name: &str) -> (out: String)
    ensures
        may_be_within(path@, name@, out@),
{
    Path::new(path).join(name).to_string_lossy().into_owned()
}

/// Where the last dot of `name` stands; the length of `name` if it has none.
fn find_last_dot(name: &Vec<char>) -> (dot: usize)
    ensures
        dot <= name@.len(),
        dot < name@.len() ==> dot == last_dot(name@),
        dot == name@.len() ==> last_dot(name@) == -1,
{
    let mut i: usize = name.len();
    assert(name@.take(i as int) =~= name@);
    while i > 0
        invariant
            i <= name@.len(),
            last_dot(name@) == last_dot(name@.take(i as int)),
        decreases i,
    {
        if name[i - 1] == '.' {
            return i - 1;
        }
        assert(name@.take(i as int).drop_last() =~= name@.take(i - 1));
        i -= 1;
    }
    name.len()
}

/// The extension of a file name, or an empty text where it has none.
pub fn extension_text(name: &str) -> (extension: String)
    ensures
        extension@ == extension_or_empty(Some(name@)),
{
    let chars: Vec<char> = chars_of(name);
    let dot: usize = find_last_dot(&chars);
    let mut extension: String = String::new();
    if dot == 0 || dot == chars.len() {
        return extension;
    }
    let mut i: usize = dot + 1;
    while i < chars.len()
        invariant
            dot < i <= chars@.len(),
            chars@ == name@,
            extension@ == chars@.subrange(dot + 1, i as int),
        decreases chars@.len() - i,
    {
        extension.push(chars[i]);
        assert(chars@.subrange(dot + 1, i + 1) =~= chars@.subrange(dot + 1, i as int).push(
            chars@[i as int],
        ));
        i += 1;
    }
    assert(chars@.subrange(dot + 1, i as int) =~= chars@.skip(dot + 1));
    extension
}

/// The extension of the file name of `path`, or an empty text where it has none.
pub(crate) fn path_extension(path: &str) -> (extension: String)
    ensures
        may_be_extension(path@, extension@),
{
    let name: Option<String> = file_name(path);
    assert(may_be_file_name(path@, text_of(name)));
    match name {
        Some(name) => extension_text(name.as_str()),
        None => String::new(),
    }
}

/// `name` with `extension` in place of its own.
pub(crate) fn name_with_extension(name: &str, extension: &str) -> (out: String)
    ensures
        out@ == with_extension(name@, extension@),
{
    let chars: Vec<char> = chars_of(name);
    let dot: usize = find_last_dot(&chars);
    let end: usize = if dot == 0 {
        chars.len()
    } else {
        dot
    };
    let mut out: String = String::new();
    let mut i: usize = 0;
    while i < end
        invariant
            i <= end <= chars@.len(),
            out@ == chars@.take(i as int),
        decreases end - i,
    {
        out.push(chars[i]);
        assert(chars@.take(i + 1) =~= chars@.take(i as int).push(chars@[i as int]));
        i += 1;
    }
    assert(chars@.take(chars@.len() as int) =~= chars@);
    assert(out@ == stem_of(name@));
    if !extension.is_empty() {
        out.push('.');
        out.append(extension);
    }
    out
}

} // verus!
