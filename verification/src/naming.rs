//! The name of a converted image: that of the input, with the extension of the
//! new format in the letter case of the old one.

use crate::errors::ConvertError;
use crate::path_facts::{
    law_a_dotted_path_has_its_extension, law_a_portable_path_has_its_name,
    law_portable_paths_are_compared_by_components, law_the_end_of_a_dotted_path_is_replaced,
    lemma_extension_of_last_part, lemma_last_dot_before, lemma_last_dot_is_a_dot,
    lemma_last_dot_is_inside, lemma_new_extension_is_another_path,
    lemma_new_extension_keeps_dotted,
};
use crate::paths::{
    components, dotted, extension_of, extension_or_empty, extension_text, file_name, file_name_of,
    is_name, last_dot, may_be_extended, may_be_file_name, may_be_same, name_with_extension,
    no_separator, path_with_extension, plain, portable, renamed, same_path, set_extension, stem_of,
    with_extension,
};
use crate::text::{
    ascii_lower, ascii_lowered, ascii_upper, ascii_uppered, char_is_lower, char_is_upper,
    char_to_uppercase, char_uppered, chars_of, same_but_for_ascii_case, same_text, text_of,
    to_uppercase, uppered,
};
use vstd::prelude::*;
use vstd::string::*;
use vstd::utf8::is_ascii_chars;

verus! {

/// `text` has a small letter.
pub open spec fn has_lower(text: Seq<char>) -> bool {
    exists|i: int| 0 <= i < text.len() && char_is_lower(#[trigger] text[i])
}

/// `text` has a capital letter.
pub open spec fn has_upper(text: Seq<char>) -> bool {
    exists|i: int| 0 <= i < text.len() && char_is_upper(#[trigger] text[i])
}

/// `text` with its first character made capital.
pub open spec fn capitalized(text: Seq<char>) -> Seq<char> {
    if text.len() == 0 {
        text
    } else {
        char_uppered(text[0]) + text.skip(1)
    }
}

/// `target` in the letter case of `input`: capital where `input` is, with a
/// capital in front where `input` is mixed, and as it is otherwise.
pub open spec fn case_matched(input: Seq<char>, target: Seq<char>) -> Seq<char> {
    if !has_upper(input) {
        target
    } else if has_lower(input) {
        capitalized(target)
    } else {
        uppered(target)
    }
}

/// `text` with its first character made capital.
fn capitalize(text: &str) -> (capital: String)
    ensures
        capital@ == capitalized(text@),
{
    let chars: Vec<char> = chars_of(text);
    if chars.len() == 0 {
        return String::new();
    }
    let mut capital: String = char_to_uppercase(chars[0]);
    let ghost front = capital@;
    let mut i: usize = 1;
    while i < chars.len()
        invariant
            1 <= i <= chars@.len(),
            capital@ == front + chars@.subrange(1, i as int),
        decreases chars@.len() - i,
    {
        capital.push(chars[i]);
        assert(chars@.subrange(1, i + 1) =~= chars@.subrange(1, i as int).push(chars@[i as int]));
        i += 1;
    }
    assert(chars@.subrange(1, i as int) =~= chars@.skip(1));
    capital
}

/// `target_lower` in the letter case of `input_ext`.
pub fn case_matched_extension(input_ext: &str, target_lower: &str) -> (matched: String)
    ensures
        matched@ == case_matched(input_ext@, target_lower@),
{
    let chars: Vec<char> = chars_of(input_ext);
    let mut lower: bool = false;
    let mut upper: bool = false;
    let mut i: usize = 0;
    while i < chars.len()
        invariant
            i <= chars@.len(),
            lower == exists|k: int| 0 <= k < i && char_is_lower(#[trigger] chars@[k]),
            upper == exists|k: int| 0 <= k < i && char_is_upper(#[trigger] chars@[k]),
        decreases chars@.len() - i,
    {
        let c: char = chars[i];
        lower = lower || c.is_lowercase();
        upper = upper || c.is_uppercase();
        i += 1;
    }
    if upper && !lower {
        to_uppercase(target_lower)
    } else if upper {
        capitalize(target_lower)
    } else {
        target_lower.to_owned()
    }
}

/// The extension that a file called `name` gets when it is converted to the
/// format with extension `target`.
pub open spec fn matched_extension(name: Seq<char>, target: Seq<char>) -> Seq<char> {
    case_matched(extension_or_empty(Some(name)), target)
}

/// What a file called `name` is called when it is converted to the format with
/// extension `target`.
pub open spec fn converted_name(name: Seq<char>, target: Seq<char>) -> Seq<char> {
    with_extension(name, matched_extension(name, target))
}

/// A name with another extension, which is not empty, is a name.
proof fn lemma_renaming_gives_a_name(name: Seq<char>, extension: Seq<char>)
    requires
        name.len() > 0,
        !name.contains('/'),
        extension.len() > 0,
        !extension.contains('/'),
    ensures
        is_name(with_extension(name, extension)),
{
    let new = with_extension(name, extension);
    let stem = stem_of(name);
    assert(last_dot(name) < name.len()) by {
        lemma_last_dot_is_inside(name);
    }
    if new.contains('/') {
        let i = choose|i: int| 0 <= i < new.len() && new[i] == '/';
        if i < stem.len() {
            assert(name[i] == '/');
        } else {
            assert(extension[i - stem.len() - 1] == '/');
        }
        assert(false);
    }
    assert(new.len() >= 3);
    assert(seq!['.'].len() == 1 && seq!['.', '.'].len() == 2);
}

/// What a file called `name` is called when it is converted to the format with
/// extension `target_lower`; nothing where that is the same name.
pub fn converted_file_name(name: &str, target_lower: &str) -> (new_name: Option<String>)
    ensures
        match new_name {
            Some(new_name) => {
                &&& new_name@ == converted_name(name@, target_lower@)
                &&& new_name@ != name@
            },
            None => converted_name(name@, target_lower@) == name@,
        },
{
    let extension: String = extension_text(name);
    let matched: String = case_matched_extension(extension.as_str(), target_lower);
    let new_name: String = name_with_extension(name, matched.as_str());
    if same_text(new_name.as_str(), name) {
        None
    } else {
        Some(new_name)
    }
}

/// Where the image at `input` is written when it is converted to the format
/// with extension `target_lower`: beside it, under the same name but for the
/// extension. An input with no file name, or whose name would not change, is
/// refused.
///
/// What the file name of a path is depends on the platform: the outcome is that
/// on one of them. [`law_the_output_is_beside_the_input`] says what follows for
/// ordinary paths.
pub fn output_path_with_matched_ext(input: &str, target_lower: &str) -> (output: Result<
    String,
    ConvertError,
>)
    requires
        can_be_extension(target_lower@),
    ensures
        may_be_output(input@, target_lower@, output),
{
    let name: Option<String> = file_name(input);
    assert(may_be_file_name(input@, text_of(name)));
    match name {
        Some(name) => output_beside(input, name.as_str(), target_lower),
        None => Err(ConvertError::OutputIsInput(input.to_owned())),
    }
}

/// No separator of any platform stands in `text`.
fn has_no_separator(text: &str) -> (none: bool)
    ensures
        none == no_separator(text@),
{
    let chars: Vec<char> = chars_of(text);
    let mut i: usize = 0;
    while i < chars.len()
        invariant
            i <= chars@.len(),
            chars@ == text@,
            forall|k: int| 0 <= k < i ==> #[trigger] chars@[k] != '/' && chars@[k] != '\\',
        decreases chars@.len() - i,
    {
        if chars[i] == '/' || chars[i] == '\\' {
            assert(text@.contains(text@[i as int]));
            return false;
        }
        i += 1;
    }
    true
}

/// `target` can be an extension in each letter case: no separator of any
/// platform stands in it.
pub open spec fn can_be_extension(target: Seq<char>) -> bool {
    &&& no_separator(target)
    &&& no_separator(uppered(target))
    &&& no_separator(capitalized(target))
}

/// [`output_path_with_matched_ext`] for whatever text; nothing where the text
/// cannot be an extension.
pub fn output_path_if_extension(input: &str, target_lower: &str) -> (output: Option<
    Result<String, ConvertError>,
>)
    ensures
        output is Some <==> can_be_extension(target_lower@),
        output matches Some(output) ==> may_be_output(input@, target_lower@, output),
{
    if has_no_separator(target_lower) && has_no_separator(to_uppercase(target_lower).as_str())
        && has_no_separator(capitalize(target_lower).as_str()) {
        Some(output_path_with_matched_ext(input, target_lower))
    } else {
        None
    }
}

/// `output` is where an image called `name` at `input` is written when it is
/// converted to the format with extension `target`: the extension of the file
/// name is replaced. Where all platforms agree on `input`, this is also said of
/// its components.
pub open spec fn is_output_beside(
    input: Seq<char>,
    name: Seq<char>,
    target: Seq<char>,
    output: Seq<char>,
) -> bool {
    &&& may_be_extended(input, matched_extension(name, target), output)
    &&& portable(input) && (matched_extension(name, target).len() > 0 || is_name(
        converted_name(name, target),
    )) ==> portable(output) && components(output) == renamed(input, converted_name(name, target))
}

/// Where the image at the ordinary path `input` is written when it is converted
/// to the format with extension `target`: what follows the last dot is replaced.
pub open spec fn converted_path(input: Seq<char>, target: Seq<char>) -> Seq<char> {
    path_with_extension(input, case_matched(input.skip(last_dot(input) + 1), target))
}

/// The image at an ordinary path is written to that path with the new extension
/// in place of the old one; so is one at a path that may be all prefix, unless it
/// is taken to be so and stays as it is.
pub proof fn law_the_output_is_beside_the_input(
    input: Seq<char>,
    name: Seq<char>,
    target: Seq<char>,
    output: Seq<char>,
)
    requires
        dotted(input),
        may_be_file_name(input, Some(name)),
        is_output_beside(input, name, target, output),
    ensures
        output == input || output == converted_path(input, target),
        plain(input) ==> output == converted_path(input, target),
{
    law_a_dotted_path_has_its_extension(input, Some(name));
    law_the_end_of_a_dotted_path_is_replaced(input, matched_extension(name, target), output);
}

/// An image called `name` at `input` may be written to `input` itself when it is
/// converted to the format with extension `target`.
pub open spec fn may_stay(input: Seq<char>, name: Seq<char>, target: Seq<char>) -> bool {
    exists|output: Seq<char>| #[trigger]
        is_output_beside(input, name, target, output) && may_be_same(output, input, true)
}

/// `output` says where the image at `input` with the file name `name` is written
/// when it is converted to the format with extension `target`, or that it would
/// be written to `input` itself.
pub open spec fn is_output(
    input: Seq<char>,
    name: Option<Seq<char>>,
    target: Seq<char>,
    output: Result<String, ConvertError>,
) -> bool {
    match output {
        Err(refused) => {
            &&& name is None || converted_name(name->0, target) == name->0 || may_stay(
                input,
                name->0,
                target,
            )
            &&& refused matches ConvertError::OutputIsInput(path) && path@ == input
        },
        Ok(path) => {
            &&& name is Some && converted_name(name->0, target) != name->0
            &&& is_output_beside(input, name->0, target, path@)
            &&& may_be_same(path@, input, false)
            &&& path@ != input
        },
    }
}

/// `output` may say where the image at `input` is written when it is converted to the
/// format with extension `target`.
pub open spec fn may_be_output(
    input: Seq<char>,
    target: Seq<char>,
    output: Result<String, ConvertError>,
) -> bool {
    exists|name: Option<Seq<char>>| #[trigger]
        may_be_file_name(input, name) && is_output(input, name, target, output)
}

/// Where all platforms agree on the path of an image or it is an ordinary one,
/// an image whose name changes is written elsewhere.
pub(crate) proof fn lemma_a_new_name_is_elsewhere(
    input: Seq<char>,
    name: Seq<char>,
    target: Seq<char>,
)
    requires
        portable(input) || plain(input),
        may_be_file_name(input, Some(name)),
        is_plain_extension(matched_extension(name, target)),
        converted_name(name, target) != name,
    ensures
        !may_stay(input, name, target),
{
    let extension = matched_extension(name, target);
    if may_stay(input, name, target) {
        let output = choose|output: Seq<char>| #[trigger]
            is_output_beside(input, name, target, output) && may_be_same(output, input, true);
        if portable(input) {
            law_a_portable_path_has_its_name(input, Some(name));
            law_portable_paths_are_compared_by_components(output, input, true);
            assert(components(output).last() == converted_name(name, target));
        } else {
            law_the_output_is_beside_the_input(input, name, target, output);
            law_a_dotted_path_has_its_extension(input, Some(name));
            if extension == input.skip(last_dot(input) + 1) {
                lemma_name_is_stem_and_extension(name);
            }
            lemma_new_extension_is_another_path(input, extension, true);
        }
    }
}

/// `extension` is not empty and holds neither dots nor separators.
pub open spec fn is_plain_extension(extension: Seq<char>) -> bool {
    &&& extension.len() > 0
    &&& no_separator(extension)
    &&& forall|i: int| 0 <= i < extension.len() ==> #[trigger] extension[i] != '.'
}

/// A name with an extension is its stem, a dot, and that extension.
proof fn lemma_name_is_stem_and_extension(name: Seq<char>)
    requires
        extension_of(name) is Some,
    ensures
        stem_of(name).push('.') + extension_of(name)->0 == name,
{
    lemma_last_dot_is_inside(name);
    lemma_last_dot_is_a_dot(name);
    assert(stem_of(name).push('.') + extension_of(name)->0 =~= name);
}

/// Where all platforms agree on the path of an image or it is an ordinary one, a
/// conversion is refused exactly if the image has no file name or would keep it;
/// and no conversion that is not refused writes to the image itself.
pub proof fn law_an_output_is_refused_if_it_is_the_input(
    input: Seq<char>,
    name: Option<Seq<char>>,
    target: Seq<char>,
    output: Result<String, ConvertError>,
)
    requires
        may_be_file_name(input, name),
        is_output(input, name, target, output),
    ensures
        output matches Ok(path) ==> path@ != input && may_be_same(path@, input, false),
        (portable(input) || plain(input)) && is_plain_extension(
            case_matched(extension_or_empty(name), target),
        ) ==> (output is Err <==> name is None || converted_name(name->0, target) == name->0),
{
    if (portable(input) || plain(input)) && is_plain_extension(
        case_matched(extension_or_empty(name), target),
    ) && name is Some && converted_name(name->0, target) != name->0 {
        lemma_a_new_name_is_elsewhere(input, name->0, target);
    }
}

/// [`output_path_with_matched_ext`] for an input whose file name is `name`.
pub(crate) fn output_beside(input: &str, name: &str, target_lower: &str) -> (output: Result<
    String,
    ConvertError,
>)
    requires
        may_be_file_name(input@, Some(name@)),
        can_be_extension(target_lower@),
    ensures
        is_output(input@, Some(name@), target_lower@, output),
{
    if converted_file_name(name, target_lower).is_none() {
        return Err(ConvertError::OutputIsInput(input.to_owned()));
    }
    let extension: String = case_matched_extension(extension_text(name).as_str(), target_lower);
    proof {
        if portable(input@) {
            law_a_portable_path_has_its_name(input@, Some(name@));
        }
        if portable(input@) && extension@.len() > 0 {
            lemma_renaming_gives_a_name(name@, extension@);
        }
    }
    let output: String = set_extension(input, extension.as_str());
    if same_path(output.as_str(), input) {
        assert(is_output_beside(input@, name@, target_lower@, output@));
        return Err(ConvertError::OutputIsInput(input.to_owned()));
    }
    Ok(output)
}

/// A text of two or more of the letters `a` to `z`, as the extensions of the
/// image formats are.
pub open spec fn small_letters(text: Seq<char>) -> bool {
    &&& text.len() >= 2
    &&& forall|i: int| 0 <= i < text.len() ==> 'a' <= #[trigger] text[i] <= 'z'
}

/// Changing the extension keeps its letter case: small, capital, and with a
/// capital in front.
pub proof fn law_the_case_of_the_extension_is_kept(small: Seq<char>, target: Seq<char>)
    requires
        small_letters(small),
        small_letters(target),
    ensures
        case_matched(small, target) == target,
        case_matched(uppered(small), target) == uppered(target),
        case_matched(capitalized(small), target) == capitalized(target),
{
    assert(is_ascii_chars(small));
    let capital = uppered(small);
    assert forall|i: int| 0 <= i < capital.len() implies 'A' <= #[trigger] capital[i] <= 'Z' by {
        assert(capital[i] == ascii_upper(small[i]));
    }
    assert(char_is_upper(capital[0]));
    let mixed = capitalized(small);
    assert(char_uppered(small[0]) =~= seq![ascii_upper(small[0])]);
    assert(mixed[0] == ascii_upper(small[0]));
    assert(mixed[1] == small[1]);
    assert(char_is_upper(mixed[0]) && char_is_lower(mixed[1]));
}

/// Whatever the letter case of the input's extension, the new extension is that
/// of the new format but for letter case.
pub proof fn law_the_new_extension_is_that_of_the_format(input: Seq<char>, target: Seq<char>)
    requires
        small_letters(target),
    ensures
        same_but_for_ascii_case(case_matched(input, target), target),
{
    let matched = case_matched(input, target);
    assert(is_ascii_chars(target));
    assert(char_uppered(target[0]) =~= seq![ascii_upper(target[0])]);
    assert forall|i: int| 0 <= i < target.len() implies ascii_lower(#[trigger] matched[i])
        == ascii_lower(target[i]) by {
        assert(matched[i] == target[i] || matched[i] == ascii_upper(target[i]));
    }
    assert(ascii_lowered(matched) =~= ascii_lowered(target));
}

/// Converting an image and converting it back gives its name back, if its
/// extension is written in small letters, in capitals, or with a capital in
/// front.
pub proof fn law_converting_back_restores_the_name(
    name: Seq<char>,
    small: Seq<char>,
    target: Seq<char>,
)
    requires
        small_letters(small),
        small_letters(target),
        extension_of(name) matches Some(extension) && in_one_case(extension, small),
    ensures
        converted_name(converted_name(name, target), small) == name,
{
    law_the_case_of_the_extension_is_kept(small, target);
    law_the_case_of_the_extension_is_kept(target, small);
    let extension = extension_of(name)->0;
    let matched = matched_extension(name, target);
    let there = converted_name(name, target);
    lemma_last_dot_is_inside(name);
    assert(is_ascii_chars(target));
    assert(char_uppered(target[0]) =~= seq![ascii_upper(target[0])]);
    assert forall|i: int| 0 <= i < matched.len() implies #[trigger] matched[i] != '.' by {
        assert(matched[i] == target[i] || matched[i] == ascii_upper(target[i]));
    }
    lemma_extension_of_renamed(stem_of(name), matched);
    assert(extension.len() > 0);
    lemma_last_dot_is_a_dot(name);
    assert(stem_of(name).push('.') + extension =~= name);
}

/// `extension` is `small` in small letters, in capitals, or with a capital in
/// front.
pub open spec fn in_one_case(extension: Seq<char>, small: Seq<char>) -> bool {
    extension == small || extension == uppered(small) || extension == capitalized(small)
}

/// The extension that is matched to another is letters.
pub(crate) proof fn lemma_matched_extension_is_letters(input: Seq<char>, target: Seq<char>)
    requires
        small_letters(target),
    ensures
        case_matched(input, target).len() == target.len(),
        is_plain_extension(case_matched(input, target)),
{
    let matched = case_matched(input, target);
    assert(is_ascii_chars(target));
    assert(char_uppered(target[0]) =~= seq![ascii_upper(target[0])]);
    assert forall|i: int| 0 <= i < matched.len() implies #[trigger] matched[i] != '.' && matched[i]
        != '/' && matched[i] != '\\' by {
        assert(matched[i] == target[i] || matched[i] == ascii_upper(target[i]));
    }
}

/// Replacing the extension at the end of a path and replacing it back ends at
/// that path.
proof fn lemma_converting_back_restores_the_text(
    path: Seq<char>,
    small: Seq<char>,
    target: Seq<char>,
)
    requires
        dotted(path),
        small_letters(small),
        small_letters(target),
        in_one_case(path.skip(last_dot(path) + 1), small),
    ensures
        converted_path(converted_path(path, target), small) == path,
{
    lemma_extension_of_last_part(path);
    law_converting_back_restores_the_name(path, small, target);
    law_the_case_of_the_extension_is_kept(small, target);
    law_the_case_of_the_extension_is_kept(target, small);
    let there = converted_path(path, target);
    assert(there == converted_name(path, target));
    let stem = path.take(last_dot(path));
    let matched = matched_extension(path, target);
    lemma_matched_extension_is_letters(extension_or_empty(Some(path)), target);
    lemma_last_dot_before(stem, matched);
    lemma_extension_of_renamed(stem, matched);
}

/// Converting an image and converting it back ends at the path of the image, if
/// its extension is written in small letters, in capitals, or with a capital in
/// front: as text at an ordinary path, and by its components where all platforms
/// agree on the path. At a path that may be all prefix it does so if it is not
/// refused.
pub proof fn law_converting_back_restores_the_path(
    path: Seq<char>,
    name: Option<Seq<char>>,
    there: String,
    name_there: Option<Seq<char>>,
    back: Result<String, ConvertError>,
    small: Seq<char>,
    target: Seq<char>,
)
    requires
        small_letters(small),
        small_letters(target),
        small != target,
        may_be_file_name(path, name),
        name is Some && extension_of(name->0) is Some && in_one_case(
            extension_of(name->0)->0,
            small,
        ),
        is_output(path, name, target, Ok(there)),
        may_be_file_name(there@, name_there),
        is_output(there@, name_there, small, back),
    ensures
        plain(path) ==> back is Ok && back->Ok_0@ == path,
        portable(path) ==> back is Ok && components(back->Ok_0@) == components(path),
        dotted(path) && back is Ok ==> back->Ok_0@ == path,
{
    law_the_case_of_the_extension_is_kept(small, target);
    let matched = matched_extension(name->0, target);
    lemma_matched_extension_is_letters(extension_of(name->0)->0, target);
    law_the_new_extension_is_that_of_the_format(extension_of(name->0)->0, target);
    if dotted(path) {
        law_a_dotted_path_has_its_extension(path, name);
        law_the_output_is_beside_the_input(path, name->0, target, there@);
        lemma_converting_back_restores_the_text(path, small, target);
        lemma_new_extension_keeps_dotted(path, matched);
        if there@ == converted_path(path, target) {
            law_a_dotted_path_has_its_extension(there@, name_there);
            if let Ok(back) = back {
                law_the_output_is_beside_the_input(there@, name_there->0, small, back@);
            }
            if plain(path) {
                law_a_conversion_changes_the_name(name_there->0, target, small);
                lemma_matched_extension_is_letters(extension_or_empty(name_there), small);
                lemma_a_new_name_is_elsewhere(there@, name_there->0, small);
            }
        }
    }
    if portable(path) {
        law_a_portable_path_has_its_name(path, name);
        law_a_portable_path_has_its_name(there@, name_there);
        lemma_renaming_gives_a_name(name->0, matched);
        let new = converted_name(name->0, target);
        assert(components(there@).last() == new);
        assert(name_there == Some(new));
        law_converting_back_restores_the_name(name->0, small, target);
        lemma_extension_of_converted(name->0, target);
        law_a_conversion_changes_the_name(new, target, small);
        lemma_matched_extension_is_letters(extension_or_empty(name_there), small);
        lemma_a_new_name_is_elsewhere(there@, new, small);
        assert(components(there@).drop_last() =~= components(path).drop_last());
        assert(components(path).drop_last().push(name->0) =~= components(path));
    }
}

/// A converted image has a file name with the extension of the new format, where
/// all platforms agree on its path or it is an ordinary one.
pub proof fn law_a_converted_image_has_the_new_extension(
    path: Seq<char>,
    name: Option<Seq<char>>,
    there: String,
    name_there: Option<Seq<char>>,
    target: Seq<char>,
)
    requires
        small_letters(target),
        portable(path) || plain(path),
        may_be_file_name(path, name),
        name is Some && extension_of(name->0) is Some,
        is_output(path, name, target, Ok(there)),
        may_be_file_name(there@, name_there),
    ensures
        name_there is Some,
        same_but_for_ascii_case(extension_or_empty(name_there), target),
        plain(path) ==> plain(there@) && there@.skip(last_dot(there@) + 1) == case_matched(
            path.skip(last_dot(path) + 1),
            target,
        ),
{
    let extension = extension_of(name->0)->0;
    let matched = matched_extension(name->0, target);
    lemma_matched_extension_is_letters(extension, target);
    law_the_new_extension_is_that_of_the_format(extension, target);
    if plain(path) {
        law_a_dotted_path_has_its_extension(path, name);
        law_the_output_is_beside_the_input(path, name->0, target, there@);
        lemma_new_extension_keeps_dotted(path, matched);
        law_a_dotted_path_has_its_extension(there@, name_there);
    } else {
        law_a_portable_path_has_its_name(path, name);
        law_a_portable_path_has_its_name(there@, name_there);
        lemma_renaming_gives_a_name(name->0, matched);
        assert(components(there@).last() == converted_name(name->0, target));
        lemma_extension_of_converted(name->0, target);
    }
}

/// The extension of a converted file is the one that was matched.
proof fn lemma_extension_of_converted(name: Seq<char>, target: Seq<char>)
    requires
        small_letters(target),
        extension_of(name) is Some,
    ensures
        extension_of(converted_name(name, target)) == Some(matched_extension(name, target)),
        same_but_for_ascii_case(matched_extension(name, target), target),
{
    let extension = extension_of(name)->0;
    lemma_last_dot_is_inside(name);
    lemma_matched_extension_is_letters(extension, target);
    law_the_new_extension_is_that_of_the_format(extension, target);
    lemma_extension_of_renamed(stem_of(name), matched_extension(name, target));
}

/// The name made of a stem and an extension has that stem and that extension.
proof fn lemma_extension_of_renamed(stem: Seq<char>, extension: Seq<char>)
    requires
        stem.len() > 0,
        forall|i: int| 0 <= i < extension.len() ==> #[trigger] extension[i] != '.',
    ensures
        extension_of(stem.push('.') + extension) == Some(extension),
        stem_of(stem.push('.') + extension) == stem,
{
    let name = stem.push('.') + extension;
    lemma_last_dot_before(stem, extension);
    assert(name.skip(stem.len() as int + 1) =~= extension);
    assert(name.take(stem.len() as int) =~= stem);
}

/// Converting an image from one format to another changes its name, so that no
/// conversion writes over its input.
pub proof fn law_a_conversion_changes_the_name(
    name: Seq<char>,
    small: Seq<char>,
    target: Seq<char>,
)
    requires
        small_letters(small),
        small_letters(target),
        small != target,
        same_but_for_ascii_case(extension_or_empty(Some(name)), small),
    ensures
        converted_name(name, target) != name,
        matched_extension(name, target).len() > 0,
{
    let extension = extension_or_empty(Some(name));
    let matched = matched_extension(name, target);
    assert(ascii_lowered(extension).len() == ascii_lowered(small).len());
    law_the_new_extension_is_that_of_the_format(extension, target);
    assert(ascii_lowered(matched).len() == ascii_lowered(target).len());
    assert(ascii_lowered(small) =~= small);
    assert(ascii_lowered(target) =~= target);
    lemma_last_dot_is_inside(name);
    assert(is_ascii_chars(target));
    assert(char_uppered(target[0]) =~= seq![ascii_upper(target[0])]);
    assert forall|i: int| 0 <= i < matched.len() implies #[trigger] matched[i] != '.' by {
        assert(matched[i] == target[i] || matched[i] == ascii_upper(target[i]));
    }
    lemma_extension_of_renamed(stem_of(name), matched);
}

/// Small letters hold no separator, in whatever letter case.
pub(crate) proof fn lemma_small_letters_hold_no_separator(text: Seq<char>)
    requires
        small_letters(text),
    ensures
        can_be_extension(text),
{
    assert(is_ascii_chars(text));
    let capital = uppered(text);
    assert(capital =~= ascii_uppered(text));
    assert forall|i: int| 0 <= i < capital.len() implies 'A' <= #[trigger] capital[i] <= 'Z' by {
        assert(capital[i] == ascii_upper(text[i]));
    }
    let mixed = capitalized(text);
    assert(char_uppered(text[0]) =~= seq![ascii_upper(text[0])]);
    assert forall|i: int| 0 <= i < mixed.len() implies 'A' <= #[trigger] mixed[i] <= 'z'
        && mixed[i] != '\\' by {
        assert(mixed[i] == text[i] || mixed[i] == ascii_upper(text[i]));
    }
}

/// A new extension of letters takes its letter case from the old one, letter by
/// letter: it has no capitals if the old one has none, a capital in front alone if
/// the old one has both capitals and small letters, and capitals throughout if the
/// old one has capitals alone.
pub proof fn law_each_letter_takes_its_case_from_the_old_extension(
    input: Seq<char>,
    target: Seq<char>,
    at: int,
)
    requires
        is_ascii_chars(input),
        small_letters(target),
        0 <= at < target.len(),
    ensures
        ({
            let capitals = exists|i: int| 0 <= i < input.len() && 'A' <= #[trigger] input[i] <= 'Z';
            let smalls = exists|i: int| 0 <= i < input.len() && 'a' <= #[trigger] input[i] <= 'z';
            &&& case_matched(input, target).len() == target.len()
            &&& case_matched(input, target)[at] as int == target[at] as int - if capitals && (at
                == 0 || !smalls) {
                32int
            } else {
                0
            }
        }),
{
    let capitals = exists|i: int| 0 <= i < input.len() && 'A' <= #[trigger] input[i] <= 'Z';
    let smalls = exists|i: int| 0 <= i < input.len() && 'a' <= #[trigger] input[i] <= 'z';
    assert(capitals == has_upper(input)) by {
        if capitals {
            let i = choose|i: int| 0 <= i < input.len() && 'A' <= #[trigger] input[i] <= 'Z';
            assert(char_is_upper(input[i]));
        }
        if has_upper(input) {
            let i = choose|i: int| 0 <= i < input.len() && char_is_upper(#[trigger] input[i]);
            assert('A' <= input[i] <= 'Z');
        }
    }
    assert(smalls == has_lower(input)) by {
        if smalls {
            let i = choose|i: int| 0 <= i < input.len() && 'a' <= #[trigger] input[i] <= 'z';
            assert(char_is_lower(input[i]));
        }
        if has_lower(input) {
            let i = choose|i: int| 0 <= i < input.len() && char_is_lower(#[trigger] input[i]);
            assert('a' <= input[i] <= 'z');
        }
    }
    assert(is_ascii_chars(target));
    assert(char_uppered(target[0]) =~= seq![ascii_upper(target[0])]);
}

/// A file name is its stem, a dot and its extension, of which the extension holds no
/// dot; a name without a dot, or with one in front alone, has no extension.
pub proof fn law_a_name_is_its_stem_and_its_extension(
    stem: Seq<char>,
    extension: Seq<char>,
    target: Seq<char>,
)
    requires
        !extension.contains('.'),
    ensures
        stem.len() > 0 ==> converted_name(stem.push('.') + extension, target) == (if case_matched(
            extension,
            target,
        ).len() > 0 {
            stem.push('.') + case_matched(extension, target)
        } else {
            stem
        }),
        stem.len() > 0 ==> extension_of(stem.push('.') + extension) == Some(extension),
        stem.len() > 0 ==> stem_of(stem.push('.') + extension) == stem,
        stem.len() > 0 ==> extension_or_empty(Some(stem.push('.') + extension)) == extension,
        stem.len() > 0 ==> with_extension(stem.push('.') + extension, target) == (if target.len()
            > 0 {
            stem.push('.') + target
        } else {
            stem
        }),
        extension_of(extension) is None && stem_of(extension) == extension,
        extension_or_empty(Some(extension)).len() == 0 && extension_or_empty(None).len() == 0,
        extension_of(seq!['.'] + extension) is None,
        stem_of(seq!['.'] + extension) == seq!['.'] + extension,
{
    assert forall|i: int| 0 <= i < extension.len() implies #[trigger] extension[i] != '.' by {
        assert(extension.contains(extension[i]));
    }
    if stem.len() > 0 {
        lemma_extension_of_renamed(stem, extension);
    }
    lemma_last_dot_before(Seq::empty(), extension);
    assert(Seq::<char>::empty().push('.') + extension =~= seq!['.'] + extension);
    if last_dot(extension) >= 0 {
        lemma_last_dot_is_inside(extension);
        lemma_last_dot_is_a_dot(extension);
        assert(extension[last_dot(extension)] == '.');
    }
}

/// The image at an ordinary path that ends in a dot and an extension is written to
/// what stands before that, a dot, and the new extension in the letter case of the
/// old one.
pub proof fn law_only_the_end_of_a_path_changes(
    stem: Seq<char>,
    extension: Seq<char>,
    target: Seq<char>,
    output: Result<String, ConvertError>,
)
    requires
        !extension.contains('.'),
        plain(stem.push('.') + extension),
        is_plain_extension(case_matched(extension, target)),
        may_be_output(stem.push('.') + extension, target, output),
    ensures
        output matches Ok(path) ==> path@ == stem.push('.') + case_matched(extension, target),
        output is Err <==> case_matched(extension, target) == extension,
        output matches Err(error) ==> error.told() == "Output path would equal input path: "@ + (
        stem.push('.') + extension),
{
    let input = stem.push('.') + extension;
    let name = choose|name: Option<Seq<char>>| #[trigger]
        may_be_file_name(input, name) && is_output(input, name, target, output);
    assert forall|i: int| 0 <= i < extension.len() implies #[trigger] extension[i] != '.' by {
        assert(extension.contains(extension[i]));
    }
    lemma_last_dot_before(stem, extension);
    assert(input.skip(last_dot(input) + 1) =~= extension);
    assert(input.take(last_dot(input)) =~= stem);
    law_a_dotted_path_has_its_extension(input, name);
    law_an_output_is_refused_if_it_is_the_input(input, name, target, output);
    lemma_name_is_stem_and_extension(name->0);
    let matched = case_matched(extension, target);
    let here = stem_of(name->0).push('.');
    if matched != extension && here + matched == here + extension {
        assert((here + matched).skip(here.len() as int) =~= matched);
        assert((here + extension).skip(here.len() as int) =~= extension);
    }
    if let Ok(path) = output {
        law_the_output_is_beside_the_input(input, name->0, target, path@);
    }
}

/// Where all platforms agree on the path of an image, it is written beside itself under
/// its name with the new extension; it is refused exactly if it has no file name or would
/// keep it.
pub proof fn law_an_image_is_written_beside_itself(
    input: Seq<char>,
    target: Seq<char>,
    output: Result<String, ConvertError>,
)
    requires
        portable(input),
        is_plain_extension(case_matched(extension_or_empty(file_name_of(input)), target)),
        may_be_output(input, target, output),
    ensures
        output is Err <==> file_name_of(input) is None || converted_name(
            file_name_of(input)->0,
            target,
        ) == file_name_of(input)->0,
        output matches Ok(path) ==> components(path@) == components(input).drop_last().push(
            converted_name(file_name_of(input)->0, target),
        ),
        output matches Err(error) ==> error.told() == "Output path would equal input path: "@
            + input,
{
    let name = choose|name: Option<Seq<char>>| #[trigger]
        may_be_file_name(input, name) && is_output(input, name, target, output);
    law_a_portable_path_has_its_name(input, name);
    law_an_output_is_refused_if_it_is_the_input(input, name, target, output);
}

/// Whatever the old extension is, the new one is as it was given if the old one has no
/// capitals, is in uppercase if the old one has capitals and no small letters, and has its
/// first character alone in uppercase if the old one has both.
pub proof fn law_the_old_extension_sets_the_case(input: Seq<char>, target: Seq<char>)
    ensures
        (forall|i: int| 0 <= i < input.len() ==> !char_is_upper(#[trigger] input[i]))
            ==> case_matched(input, target) == target,
        (exists|i: int| 0 <= i < input.len() && char_is_upper(#[trigger] input[i])) && (forall|
            i: int,
        |
            0 <= i < input.len() ==> !char_is_lower(#[trigger] input[i])) ==> case_matched(
            input,
            target,
        ) == uppered(target),
        (exists|i: int| 0 <= i < input.len() && char_is_upper(#[trigger] input[i])) && (exists|
            i: int,
        | 0 <= i < input.len() && char_is_lower(#[trigger] input[i])) ==> case_matched(
            input,
            target,
        ) == (if target.len() > 0 {
            char_uppered(target[0]) + target.skip(1)
        } else {
            target
        }),
{
}

} // verus!
