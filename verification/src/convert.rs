//! Conversions between image formats: when one is refused, what it writes
//! where, and in which steps.
//!
//! The caller asks the file system, reads, writes and compresses.

use crate::bytes::{be_value, lemma_one_byte_more};
use crate::chd_cache::{law_a_read_gives_the_bytes_of_the_image, ChdView};
use crate::errors::{two, ConvertError};
use crate::iso::SECTOR_SIZE;
use crate::naming::{
    case_matched, converted_name, converted_path, is_output_beside,
    law_a_conversion_changes_the_name, law_the_case_of_the_extension_is_kept,
    law_the_output_is_beside_the_input, lemma_a_new_name_is_elsewhere,
    lemma_matched_extension_is_letters, lemma_small_letters_hold_no_separator, may_stay,
    output_beside, small_letters,
};
use crate::path_facts::{
    law_a_dotted_path_has_its_extension, law_a_portable_path_has_its_name,
    lemma_components_of_joined, lemma_joined_is_not_verbatim, lemma_last_dot_before,
    lemma_name_of_portable_path,
    lemma_portable_has_no_prefix, lemma_within_ends_in_name,
};
use crate::paths::{
    components, extension_or_empty, extension_text, file_name, file_name_of, is_before_name,
    is_name, join, last_dot, may_be_file_name, may_be_joined, may_be_parent, may_be_same,
    may_be_within, may_separate, on_drive, parent, plain, portable, renamed, slashed, verbatim,
};
use crate::scan::{find_inner_iso, first_iso, law_the_first_image_of_an_archive_is_found};
use crate::text::{
    ascii_lower, ascii_lowered, ascii_uppered, decimal, decimal_text, eq_ignore_ascii_case,
    law_decimal_digits_tell_the_number, lowered, same_but_for_ascii_case, text_of, texts,
};
use vstd::prelude::*;
use vstd::string::*;
use vstd::utf8::is_ascii_chars;

verus! {

/// A conversion that may go on: the image to read, and where to write.
#[derive(Debug)]
pub struct ConvertJob {
    pub input: String,
    pub output: String,
}

/// The input is there, is a file, and has the extension of its format.
pub open spec fn accepted(
    exists: bool,
    is_file: bool,
    name: Option<Seq<char>>,
    wanted: Seq<char>,
) -> bool {
    exists && is_file && same_but_for_ascii_case(extension_or_empty(name), wanted)
}

/// `error` is why an input is refused that is not accepted; of compressed ones
/// the path is not told.
pub open spec fn is_refusal(
    error: ConvertError,
    path: Seq<char>,
    exists: bool,
    is_file: bool,
    wanted: Seq<char>,
    compressed: bool,
) -> bool {
    if !exists {
        if compressed {
            error == ConvertError::ArchiveMissing
        } else {
            error matches ConvertError::InputMissing(told) && told@ == path
        }
    } else if !is_file {
        if compressed {
            error == ConvertError::ArchiveNotAFile
        } else {
            error matches ConvertError::InputNotAFile(told) && told@ == path
        }
    } else {
        error matches ConvertError::WrongExtension(told) && told@ == wanted
    }
}

/// `outcome` is what a conversion of the image called `name` at `path` from the
/// format with extension `wanted` to that with extension `target` starts with. An
/// image that would be written to itself is refused.
pub open spec fn is_start(
    outcome: Result<ConvertJob, ConvertError>,
    path: Seq<char>,
    name: Option<Seq<char>>,
    exists: bool,
    is_file: bool,
    wanted: Seq<char>,
    target: Seq<char>,
    compressed: bool,
) -> bool {
    match outcome {
        Err(error) => if accepted(exists, is_file, name, wanted) {
            &&& name is Some && may_stay(path, name->0, target)
            &&& error matches ConvertError::OutputIsInput(told) && told@ == path
        } else {
            is_refusal(error, path, exists, is_file, wanted, compressed)
        },
        Ok(job) => {
            &&& accepted(exists, is_file, name, wanted)
            &&& job.input@ == path
            &&& name is Some
            &&& converted_name(name->0, target) != name->0
            &&& is_output_beside(path, name->0, target, job.output@)
            &&& may_be_same(job.output@, path, false)
            &&& job.output@ != path
        },
    }
}

/// Starts a conversion of the image at `path` from the format with extension
/// `wanted` to that with extension `target`; `name` is the file name of `path`.
fn start(
    path: &str,
    name: &Option<String>,
    exists: bool,
    is_file: bool,
    wanted: &str,
    target: &str,
    compressed: bool,
) -> (outcome: Result<ConvertJob, ConvertError>)
    requires
        may_be_file_name(path@, text_of(*name)),
        small_letters(wanted@),
        small_letters(target@),
        wanted@ != target@,
    ensures
        is_start(
            outcome,
            path@,
            text_of(*name),
            exists,
            is_file,
            wanted@,
            target@,
            compressed,
        ),
{
    if !exists {
        return Err(
            if compressed {
                ConvertError::ArchiveMissing
            } else {
                ConvertError::InputMissing(path.to_owned())
            },
        );
    }
    if !is_file {
        return Err(
            if compressed {
                ConvertError::ArchiveNotAFile
            } else {
                ConvertError::InputNotAFile(path.to_owned())
            },
        );
    }
    let name: &String = match name {
        Some(name) => name,
        None => {
            assert(ascii_lowered(wanted@).len() > 0);
            assert(ascii_lowered(Seq::<char>::empty()).len() == 0);
            return Err(ConvertError::WrongExtension(wanted.to_owned()));
        },
    };
    let extension: String = extension_text(name.as_str());
    if !eq_ignore_ascii_case(extension.as_str(), wanted) {
        return Err(ConvertError::WrongExtension(wanted.to_owned()));
    }
    proof {
        law_a_conversion_changes_the_name(name@, wanted@, target@);
        lemma_small_letters_hold_no_separator(target@);
    }
    match output_beside(path, name.as_str(), target) {
        Ok(output) => Ok(ConvertJob { input: path.to_owned(), output }),
        Err(refused) => Err(refused),
    }
}

/// The extensions of the formats are written in small letters.
pub(crate) proof fn lemma_extensions_are_small_letters()
    ensures
        small_letters("iso"@),
        small_letters("ziso"@),
        small_letters("chd"@),
        "iso"@ != "ziso"@,
        "iso"@ != "chd"@,
{
    reveal_strlit("iso");
    reveal_strlit("ziso");
    reveal_strlit("chd");
    assert("iso"@.len() != "ziso"@.len());
    assert("iso"@[0] != "chd"@[0]);
}

/// `outcome` is what the conversion of the disc image at `path` to a CHD starts with, if the
/// answers about that path are these.
pub open spec fn starts_iso_to_chd(
    path: Seq<char>,
    exists: bool,
    is_file: bool,
    outcome: Result<ConvertJob, ConvertError>,
) -> bool {
    exists|name: Option<Seq<char>>| #[trigger]
        may_be_file_name(path, name) && is_start(
            outcome,
            path,
            name,
            exists,
            is_file,
            "iso"@,
            "chd"@,
            false,
        )
}

/// `outcome` is what the conversion of the ZISO at `path` to a disc image starts with, if the
/// answers about that path are these.
pub open spec fn starts_ziso_to_iso(
    path: Seq<char>,
    exists: bool,
    is_file: bool,
    outcome: Result<ConvertJob, ConvertError>,
) -> bool {
    exists|name: Option<Seq<char>>| #[trigger]
        may_be_file_name(path, name) && is_start(
            outcome,
            path,
            name,
            exists,
            is_file,
            "ziso"@,
            "iso"@,
            true,
        )
}

/// `outcome` is what the conversion of the CHD at `path` to a disc image starts with, if the
/// answers about that path are these.
pub open spec fn starts_chd_to_iso(
    path: Seq<char>,
    exists: bool,
    is_file: bool,
    outcome: Result<ConvertJob, ConvertError>,
) -> bool {
    exists|name: Option<Seq<char>>| #[trigger]
        may_be_file_name(path, name) && is_start(
            outcome,
            path,
            name,
            exists,
            is_file,
            "chd"@,
            "iso"@,
            true,
        )
}

/// Starts the conversion of the disc image at `iso_path` to a CHD, if the
/// answers about that path allow it.
///
/// What the file name of a path is depends on the platform.
pub fn convert_iso_to_chd(iso_path: &str, exists: bool, is_file: bool) -> (outcome: Result<
    ConvertJob,
    ConvertError,
>)
    ensures
        starts_iso_to_chd(iso_path@, exists, is_file, outcome),
{
    proof {
        lemma_extensions_are_small_letters();
    }
    let name: Option<String> = file_name(iso_path);
    let ghost named = text_of(name);
    assert(may_be_file_name(iso_path@, named));
    start(iso_path, &name, exists, is_file, "iso", "chd", false)
}

/// Starts the conversion of the ZISO at `ziso_path` to a disc image, if the
/// answers about that path allow it.
///
/// What the file name of a path is depends on the platform.
pub fn convert_ziso_to_iso(ziso_path: &str, exists: bool, is_file: bool) -> (outcome: Result<
    ConvertJob,
    ConvertError,
>)
    ensures
        starts_ziso_to_iso(ziso_path@, exists, is_file, outcome),
{
    proof {
        lemma_extensions_are_small_letters();
    }
    let name: Option<String> = file_name(ziso_path);
    let ghost named = text_of(name);
    assert(may_be_file_name(ziso_path@, named));
    start(ziso_path, &name, exists, is_file, "ziso", "iso", true)
}

/// Starts the conversion of the CHD at `chd_path` to a disc image, if the
/// answers about that path allow it.
///
/// What the file name of a path is depends on the platform.
pub fn convert_chd_to_iso(chd_path: &str, exists: bool, is_file: bool) -> (outcome: Result<
    ConvertJob,
    ConvertError,
>)
    ensures
        starts_chd_to_iso(chd_path@, exists, is_file, outcome),
{
    proof {
        lemma_extensions_are_small_letters();
    }
    let name: Option<String> = file_name(chd_path);
    let ghost named = text_of(name);
    assert(may_be_file_name(chd_path@, named));
    start(chd_path, &name, exists, is_file, "chd", "iso", true)
}

impl ConvertJob {
    /// `outcome` is whether the conversion goes on, if this is whether there is
    /// something at the path to write to.
    pub open spec fn checks_output(
        self,
        exists: bool,
        outcome: Result<(), ConvertError>,
    ) -> bool {
        match outcome {
            Err(refused) => {
                &&& exists
                &&& refused matches ConvertError::OutputExists(path) && path@ == self.output@
            },
            Ok(_) => !exists,
        }
    }

    /// Goes on only if there is nothing at the path to write to.
    pub fn output_checked(&self, exists: bool) -> (outcome: Result<(), ConvertError>)
        ensures
            self.checks_output(exists, outcome),
    {
        if exists {
            Err(ConvertError::OutputExists(self.output.clone()))
        } else {
            Ok(())
        }
    }
}

/// Where all platforms agree on a path, or it is an ordinary one, it decides a
/// conversion: that starts exactly if the path is that of a file with the
/// extension of its format, in whatever letter case, and then writes beside the
/// input.
pub proof fn law_an_ordinary_path_decides_a_conversion(
    outcome: Result<ConvertJob, ConvertError>,
    path: Seq<char>,
    name: Option<Seq<char>>,
    exists: bool,
    is_file: bool,
    wanted: Seq<char>,
    target: Seq<char>,
    compressed: bool,
)
    requires
        small_letters(wanted),
        small_letters(target),
        wanted != target,
        portable(path) || plain(path),
        may_be_file_name(path, name),
        is_start(outcome, path, name, exists, is_file, wanted, target, compressed),
    ensures
        outcome is Ok <==> exists && is_file && same_but_for_ascii_case(
            if plain(path) {
                path.skip(last_dot(path) + 1)
            } else {
                extension_or_empty(file_name_of(path))
            },
            wanted,
        ),
        outcome matches Ok(job) ==> {
            &&& job.input@ == path
            &&& plain(path) ==> job.output@ == converted_path(path, target)
            &&& portable(path) ==> components(job.output@) == renamed(
                path,
                converted_name(file_name_of(path)->0, target),
            )
        },
{
    if plain(path) {
        law_a_dotted_path_has_its_extension(path, name);
    } else {
        law_a_portable_path_has_its_name(path, name);
    }
    if portable(path) {
        law_a_portable_path_has_its_name(path, name);
    }
    if accepted(exists, is_file, name, wanted) {
        assert(ascii_lowered(extension_or_empty(name)).len() == ascii_lowered(wanted).len());
        law_a_conversion_changes_the_name(name->0, wanted, target);
        lemma_matched_extension_is_letters(extension_or_empty(name), target);
        lemma_a_new_name_is_elsewhere(path, name->0, target);
    }
    if let Ok(job) = outcome {
        if plain(path) {
            law_the_output_is_beside_the_input(path, name->0, target, job.output@);
        }
    }
}

/// A packing that may go on. A ZArchive is packed from a directory, so that the
/// image is first put alone into a temporary one.
#[derive(Debug)]
pub struct PackJob {
    pub job: ConvertJob,
    /// The temporary directory, beside the input.
    pub temp_dir: String,
    /// Where the image is put within it.
    pub staged: String,
}

/// The name of the temporary directory of process `pid`.
pub open spec fn temp_name(pid: nat) -> Seq<char> {
    ".netiso_convert_"@ + decimal(pid)
}

/// `directory` may be the one in which `path` lies: `path` without its last
/// component, or the current directory for a path that has none.
pub open spec fn may_be_directory_of(path: Seq<char>, directory: Seq<char>) -> bool {
    &&& may_be_parent(path, Some(directory)) || (may_be_parent(path, None) && directory == "."@)
    &&& portable(path) && file_name_of(path) is Some ==> portable(directory) && components(
        directory,
    ) == components(path).drop_last()
}

/// `temp_dir` and `staged` are where the image called `name` at `path` is put to
/// be packed: in a directory of its own beside it.
pub open spec fn is_staging(
    path: Seq<char>,
    name: Seq<char>,
    pid: nat,
    temp_dir: Seq<char>,
    staged: Seq<char>,
) -> bool {
    &&& temp_name(pid).is_suffix_of(temp_dir)
    &&& name.is_suffix_of(staged) || verbatim(temp_dir)
    &&& exists|directory: Seq<char>| #[trigger]
        may_be_directory_of(path, directory) && may_be_within(
            directory,
            temp_name(pid),
            temp_dir,
        )
    &&& may_be_within(temp_dir, name, staged)
}

/// Where all platforms agree on the path of an image, it is put to be packed
/// into a directory that lies beside it under a name of its own, which is not
/// the image's; so the image is not put where it is.
pub proof fn law_an_image_is_staged_beside_itself(
    path: Seq<char>,
    name: Seq<char>,
    pid: nat,
    temp_dir: Seq<char>,
    staged: Seq<char>,
)
    requires
        portable(path),
        file_name_of(path) == Some(name),
        same_but_for_ascii_case(extension_or_empty(Some(name)), "iso"@),
        is_staging(path, name, pid, temp_dir, staged),
    ensures
        components(slashed(temp_dir)) == components(path).drop_last().push(temp_name(pid)),
        temp_name(pid) != name,
        components(slashed(staged)) == components(slashed(temp_dir)).push(name) || (on_drive(name)
            && staged == name),
        staged != path,
{
    lemma_portable_has_no_prefix(path);
    lemma_temp_name_is_a_name(pid);
    let directory = choose|directory: Seq<char>| #[trigger]
        may_be_directory_of(path, directory) && may_be_within(
            directory,
            temp_name(pid),
            temp_dir,
        );
    lemma_portable_has_no_prefix(directory);
    lemma_portable_has_no_prefix(temp_name(pid));
    lemma_start_of_temp_name(pid);
    if verbatim(directory) {
        assert(directory.contains(directory[0]));
    }
    assert(may_be_joined(directory, temp_name(pid), temp_dir));
    lemma_joined_is_not_verbatim(directory, temp_name(pid), temp_dir);
    lemma_name_of_portable_path(path, name);
    lemma_components_of_joined(directory, temp_name(pid), temp_dir);
    reveal_strlit("iso");
    assert(ascii_lowered("iso"@).len() == 3);
    lemma_temp_name_has_no_extension(pid);
    assert(ascii_lowered(Seq::<char>::empty()).len() == 0);
    assert(name.contains(name[0]));
    if may_be_joined(temp_dir, name, staged) {
        lemma_temp_dir_is_not_on_drive(directory, pid, temp_dir);
        lemma_components_of_joined(temp_dir, name, staged);
        assert(components(slashed(staged)).len() == components(path).len() + 1);
    }
}

/// An ordinary path has a file name on every platform, before which its directory
/// stands.
proof fn lemma_an_ordinary_path_has_a_directory(path: Seq<char>, directory: Seq<char>)
    requires
        plain(path),
        may_be_directory_of(path, directory),
    ensures
        exists|name: Seq<char>| #[trigger]
            may_be_file_name(path, Some(name)) && is_before_name(path, directory, name),
{
    if may_be_file_name(path, None) {
        law_a_dotted_path_has_its_extension(path, None);
    }
}

/// How the name of the temporary directory starts.
proof fn lemma_start_of_temp_name(pid: nat)
    ensures
        temp_name(pid).len() > 2,
        temp_name(pid)[0] == '.',
        temp_name(pid)[1] == 'n',
        temp_name(pid)[2] == 'e',
{
    reveal_strlit(".netiso_convert_");
}

/// On every platform an image at an ordinary path is put to be packed into a
/// directory that lies where the image does, under a name that is not the
/// image's.
pub proof fn law_an_ordinary_image_is_staged_beside_itself(
    path: Seq<char>,
    name: Seq<char>,
    pid: nat,
    temp_dir: Seq<char>,
    staged: Seq<char>,
) -> (place: (Seq<char>, Seq<char>))
    requires
        plain(path),
        may_be_file_name(path, Some(name)),
        same_but_for_ascii_case(path.skip(last_dot(path) + 1), "iso"@),
        is_staging(path, name, pid, temp_dir, staged),
    ensures
        may_be_file_name(path, Some(place.1)),
        is_before_name(path, place.0, place.1),
        may_be_within(place.0, temp_name(pid), temp_dir),
        may_be_within(temp_dir, name, staged),
        place.1 != temp_name(pid),
        name != temp_name(pid),
        temp_dir != place.0,
{
    let directory = choose|directory: Seq<char>| #[trigger]
        may_be_directory_of(path, directory) && may_be_within(
            directory,
            temp_name(pid),
            temp_dir,
        );
    lemma_an_ordinary_path_has_a_directory(path, directory);
    lemma_temp_name_is_a_name(pid);
    lemma_portable_has_no_prefix(temp_name(pid));
    lemma_within_ends_in_name(directory, temp_name(pid), temp_dir);
    let other = choose|other: Seq<char>| #[trigger]
        may_be_file_name(path, Some(other)) && is_before_name(path, directory, other);
    law_a_dotted_path_has_its_extension(path, Some(other));
    law_a_dotted_path_has_its_extension(path, Some(name));
    lemma_temp_name_has_no_extension(pid);
    reveal_strlit("iso");
    assert(ascii_lowered("iso"@).len() == ascii_lowered(path.skip(last_dot(path) + 1)).len());
    (directory, other)
}

/// The name of the temporary directory has no extension.
proof fn lemma_temp_name_has_no_extension(pid: nat)
    ensures
        extension_or_empty(Some(temp_name(pid))) == Seq::<char>::empty(),
{
    reveal_strlit(".netiso_convert_");
    lemma_decimal_is_digits(pid);
    let name = temp_name(pid);
    let front = ".netiso_convert_"@;
    assert forall|i: int| 0 < i < name.len() implies #[trigger] name[i] != '.' by {
        if i < front.len() {
            assert(name[i] == front[i]);
        } else {
            assert(name[i] == decimal(pid)[i - front.len()]);
        }
    }
    lemma_last_dot_in_front(name);
}

proof fn lemma_last_dot_in_front(name: Seq<char>)
    requires
        forall|i: int| 0 < i < name.len() ==> #[trigger] name[i] != '.',
    ensures
        last_dot(name) <= 0,
    decreases name.len(),
{
    if name.len() > 0 && name.last() != '.' {
        let before = name.drop_last();
        assert forall|i: int| 0 < i < before.len() implies #[trigger] before[i] != '.' by {
            assert(name[i] != '.');
        }
        lemma_last_dot_in_front(before);
    } else if name.len() > 0 {
        assert(name[name.len() - 1] == '.');
    }
}

/// Within a directory that is not on a drive, neither is the temporary one.
proof fn lemma_temp_dir_is_not_on_drive(directory: Seq<char>, pid: nat, temp_dir: Seq<char>)
    requires
        portable(directory),
        may_be_joined(directory, temp_name(pid), temp_dir),
    ensures
        !on_drive(temp_dir),
{
    reveal_strlit(".netiso_convert_");
    let separator = choose|separator: Seq<char>| #[trigger]
        may_separate(directory, separator) && temp_dir == directory + separator + temp_name(pid);
    let name = temp_name(pid);
    assert(name[0] == '.' && name[1] == 'n');
    if directory.len() > 1 {
        assert(temp_dir[1] == directory[1]);
    } else {
        assert(temp_dir[1] == (separator + name)[1 - directory.len()]);
    }
}

proof fn lemma_decimal_is_digits(n: nat)
    ensures
        decimal(n).len() > 0,
        forall|i: int| 0 <= i < decimal(n).len() ==> '0' <= #[trigger] decimal(n)[i] <= '9',
    decreases n,
{
    if n >= 10 {
        lemma_decimal_is_digits(n / 10);
    }
}

proof fn lemma_temp_name_is_a_name(pid: nat)
    ensures
        is_name(temp_name(pid)),
        portable(temp_name(pid)),
{
    reveal_strlit(".netiso_convert_");
    let front = ".netiso_convert_"@;
    let name = temp_name(pid);
    lemma_decimal_is_digits(pid);
    assert forall|i: int| 0 <= i < name.len() implies #[trigger] name[i] != '/' && name[i]
        != '\\' by {
        if i < front.len() {
            assert(name[i] == front[i]);
        } else {
            assert(name[i] == decimal(pid)[i - front.len()]);
        }
    }
    assert(name.len() > 2);
    assert(seq!['.'].len() == 1 && seq!['.', '.'].len() == 2);
    assert(name[0] == front[0] && name[1] == front[1]);
    if seq!['/', '/'].is_prefix_of(name) {
        assert(name.subrange(0, 2)[0] == seq!['/', '/'][0]);
    }
}

/// `outcome` is what the conversion of the disc image at `path` to a ZISO by the
/// process `pid` starts with, if the answers about that path are these.
pub open spec fn starts_iso_to_ziso(
    path: Seq<char>,
    exists: bool,
    is_file: bool,
    pid: nat,
    outcome: Result<PackJob, ConvertError>,
) -> bool {
    exists|name: Option<Seq<char>>| #[trigger]
        may_be_file_name(path, name) && {
            &&& is_start(
                job_of(outcome),
                path,
                name,
                exists,
                is_file,
                "iso"@,
                "ziso"@,
                false,
            )
            &&& outcome matches Ok(pack) ==> is_staging(
                path,
                name->0,
                pid,
                pack.temp_dir@,
                pack.staged@,
            )
        }
}

/// The conversion of a packing that may go on.
pub open spec fn job_of(outcome: Result<PackJob, ConvertError>) -> Result<
    ConvertJob,
    ConvertError,
> {
    match outcome {
        Ok(pack) => Ok(pack.job),
        Err(error) => Err(error),
    }
}

/// Starts the conversion of the disc image at `iso_path` to a ZISO by the
/// process `pid`, if the answers about that path allow it.
///
/// What the components of a path are depends on the platform.
pub fn convert_iso_to_ziso(iso_path: &str, exists: bool, is_file: bool, pid: u32) -> (outcome:
    Result<PackJob, ConvertError>)
    ensures
        starts_iso_to_ziso(iso_path@, exists, is_file, pid as nat, outcome),
{
    proof {
        lemma_extensions_are_small_letters();
        lemma_temp_name_is_a_name(pid as nat);
    }
    let name: Option<String> = file_name(iso_path);
    let ghost named = text_of(name);
    assert(may_be_file_name(iso_path@, named));
    let job: ConvertJob = match start(iso_path, &name, exists, is_file, "iso", "ziso", false) {
        Ok(job) => job,
        Err(error) => return Err(error),
    };
    let directory: String = match parent(iso_path) {
        Some(directory) => directory,
        None => ".".to_owned(),
    };
    let temp: String = two(".netiso_convert_", decimal_text(pid as u64).as_str());
    let temp_dir: String = join(directory.as_str(), temp.as_str());
    proof {
        if portable(iso_path@) {
            law_a_portable_path_has_its_name(iso_path@, named);
        }
        assert(may_be_directory_of(iso_path@, directory@));
        lemma_start_of_temp_name(pid as nat);
        lemma_within_ends_in_name(directory@, temp@, temp_dir@);
    }
    let name: String = match name {
        Some(name) => name,
        None => String::new(),
    };
    let staged: String = join(temp_dir.as_str(), name.as_str());
    proof {
        lemma_within_ends_in_name(temp_dir@, name@, staged@);
    }
    Ok(PackJob { job, temp_dir, staged })
}

/// What came of a step of a packing.
#[derive(Debug)]
pub enum PackEvent {
    /// Whether there is something at the path to write to.
    OutputChecked { exists: bool },
    /// The temporary directory was made anew, or the reason why not.
    TempMade(Result<(), String>),
    /// The image was linked into it, or could not be.
    Linked { done: bool },
    /// The image was copied into it, or the reason why not.
    Copied(Result<(), String>),
    /// The directory was packed, or the reason why not.
    Packed(Result<(), String>),
}

/// The next step of a packing.
#[derive(Debug)]
pub enum PackAction {
    /// Make the temporary directory, in place of one that may be there.
    MakeTemp,
    /// Link the image into it.
    Link,
    /// Copy the image into it.
    Copy,
    /// Pack the directory.
    Pack,
    /// End well, after removing the temporary directory.
    Finish,
    /// End with an error, after removing what is to be removed.
    Fail { remove_temp: bool, remove_output: bool, error: ConvertError },
}

impl PackJob {
    /// `action` is the next step after `event`.
    pub open spec fn follows(self, event: PackEvent, action: PackAction) -> bool {
        match event {
            PackEvent::OutputChecked { exists } => if exists {
                action matches PackAction::Fail { remove_temp, remove_output, error }
                    && !remove_temp && !remove_output && (error matches ConvertError::OutputExists(
                    path,
                ) && path@ == self.job.output@)
            } else {
                action is MakeTemp
            },
            PackEvent::TempMade(Ok(_)) => action is Link,
            PackEvent::TempMade(Err(reason)) => action == (PackAction::Fail {
                remove_temp: false,
                remove_output: false,
                error: ConvertError::Refused(reason),
            }),
            PackEvent::Linked { done } => if done {
                action is Pack
            } else {
                action is Copy
            },
            PackEvent::Copied(Ok(_)) => action is Pack,
            PackEvent::Copied(Err(reason)) => action == (PackAction::Fail {
                remove_temp: true,
                remove_output: false,
                error: ConvertError::StagingFailed(reason),
            }),
            PackEvent::Packed(Ok(_)) => action is Finish,
            PackEvent::Packed(Err(reason)) => action == (PackAction::Fail {
                remove_temp: true,
                remove_output: true,
                error: ConvertError::PackFailed(reason),
            }),
        }
    }

    /// The next step after `event`. A link is tried before a copy is made; what
    /// was written is removed if packing fails.
    pub fn step(&self, event: PackEvent) -> (action: PackAction)
        ensures
            self.follows(event, action),
    {
        match event {
            PackEvent::OutputChecked { exists } => match self.job.output_checked(exists) {
                Ok(_) => PackAction::MakeTemp,
                Err(error) => PackAction::Fail { remove_temp: false, remove_output: false, error },
            },
            PackEvent::TempMade(Ok(_)) => PackAction::Link,
            PackEvent::TempMade(Err(reason)) => PackAction::Fail {
                remove_temp: false,
                remove_output: false,
                error: ConvertError::Refused(reason),
            },
            PackEvent::Linked { done } => if done {
                PackAction::Pack
            } else {
                PackAction::Copy
            },
            PackEvent::Copied(Ok(_)) => PackAction::Pack,
            PackEvent::Copied(Err(reason)) => PackAction::Fail {
                remove_temp: true,
                remove_output: false,
                error: ConvertError::StagingFailed(reason),
            },
            PackEvent::Packed(Ok(_)) => PackAction::Finish,
            PackEvent::Packed(Err(reason)) => PackAction::Fail {
                remove_temp: true,
                remove_output: true,
                error: ConvertError::PackFailed(reason),
            },
        }
    }
}

/// Once the temporary directory has been made, a packing does not end without
/// removing it; and what is at the path to write to is removed only after
/// packing to it, so never if it was there before.
pub proof fn law_a_packing_leaves_nothing_behind(
    job: PackJob,
    event: PackEvent,
    action: PackAction,
)
    requires
        job.follows(event, action),
    ensures
        !(event is OutputChecked || event is TempMade) ==> match action {
            PackAction::Fail { remove_temp, .. } => remove_temp,
            _ => true,
        },
        action matches PackAction::Fail { remove_output, .. } ==> (remove_output <==> event
            is Packed),
        action is Finish ==> event is Packed,
{
}

/// Consecutive bytes of an image.
#[derive(Clone, Copy, PartialEq, Eq, Structural, Debug)]
pub struct Chunk {
    pub offset: u64,
    pub len: u64,
}

/// How many bytes of a ZISO are extracted at a time.
pub const ZISO_CHUNK_SIZE: u64 = 0x100000;

/// How many bytes of a CHD are extracted at a time.
pub const CHD_CHUNK_SIZE: u64 = 0x400000;

/// The part of an image of `size` bytes that is to be extracted next, `step`
/// bytes at a time, when `offset` bytes have been; nothing at the end.
pub open spec fn chunk_after(size: u64, step: u64, offset: u64) -> Option<Chunk> {
    if offset >= size {
        None
    } else if size - offset <= step {
        Some(Chunk { offset, len: (size - offset) as u64 })
    } else {
        Some(Chunk { offset, len: step })
    }
}

/// The part of an image of `size` bytes that is to be extracted next, `step`
/// bytes at a time, when `offset` bytes have been; nothing at the end.
pub fn next_chunk(size: u64, step: u64, offset: u64) -> (chunk: Option<Chunk>)
    ensures
        chunk == chunk_after(size, step, offset),
{
    if offset >= size {
        return None;
    }
    let left: u64 = size - offset;
    Some(
        Chunk {
            offset,
            len: if left <= step {
                left
            } else {
                step
            },
        },
    )
}

/// The bytes of `image` in `chunk`.
pub open spec fn bytes_in(image: Seq<u8>, chunk: Chunk) -> Seq<u8> {
    image.subrange(chunk.offset as int, chunk.offset + chunk.len)
}

/// What has been written when all of `image` from `offset` on has been
/// extracted, `step` bytes at a time.
pub open spec fn extracted(image: Seq<u8>, step: u64, offset: u64) -> Seq<u8>
    decreases image.len() - offset,
{
    match chunk_after(image.len() as u64, step, offset) {
        None => Seq::empty(),
        Some(chunk) => if chunk.len > 0 && offset < image.len() && offset + chunk.len
            <= image.len() {
            bytes_in(image, chunk) + extracted(image, step, (offset + chunk.len) as u64)
        } else {
            Seq::empty()
        },
    }
}

/// Extracting an image chunk by chunk gives the image, byte for byte.
pub proof fn law_extracting_gives_the_image(image: Seq<u8>, step: u64)
    requires
        image.len() <= u64::MAX,
        step > 0,
    ensures
        extracted(image, step, 0) == image,
{
    lemma_extracted(image, step, 0);
    assert(image.subrange(0, image.len() as int) =~= image);
}

proof fn lemma_extracted(image: Seq<u8>, step: u64, offset: u64)
    requires
        offset <= image.len() <= u64::MAX,
        step > 0,
    ensures
        extracted(image, step, offset) == image.subrange(offset as int, image.len() as int),
    decreases image.len() - offset,
{
    if offset < image.len() {
        let chunk = chunk_after(image.len() as u64, step, offset)->0;
        let next = (offset + chunk.len) as u64;
        lemma_extracted(image, step, next);
        assert(bytes_in(image, chunk) + image.subrange(next as int, image.len() as int)
            =~= image.subrange(offset as int, image.len() as int));
    } else {
        assert(image.subrange(offset as int, image.len() as int) =~= Seq::<u8>::empty());
    }
}

/// How a CHD is created.
#[derive(Clone, Copy, Debug)]
pub struct ChdOptions {
    /// The codecs; a zero ends them.
    pub codecs: [u32; 4],
    /// The number of bytes in a hunk.
    pub hunk_size: u32,
}

/// The tag of Zstandard among the codecs of a CHD: `zstd` as four bytes.
pub open spec fn zstd_tag() -> nat {
    be_value(seq![0x7au8, 0x73u8, 0x74u8, 0x64u8])
}

/// A CHD that is created so is compressed with Zstandard alone, and has one sector in a
/// hunk.
pub open spec fn suit_consoles(options: ChdOptions) -> bool {
    &&& options.codecs[0] == zstd_tag()
    &&& forall|i: int| 1 <= i < 4 ==> options.codecs[i] == 0
    &&& options.hunk_size == SECTOR_SIZE
}

/// How a CHD is created: compressed with Zstandard alone, because that is
/// decompressed fast enough for a console that waits, and with one sector in a
/// hunk, because that is the smallest unit to decompress.
pub fn chd_options() -> (options: ChdOptions)
    ensures
        suit_consoles(options),
{
    proof {
        let tag = seq![0x7au8, 0x73u8, 0x74u8, 0x64u8];
        reveal_with_fuel(be_value, 5);
        assert(tag.drop_last() =~= seq![0x7au8, 0x73u8, 0x74u8]);
        assert(tag.drop_last().drop_last() =~= seq![0x7au8, 0x73u8]);
        assert(tag.drop_last().drop_last().drop_last() =~= seq![0x7au8]);
        assert(tag.drop_last().drop_last().drop_last().drop_last() =~= Seq::<u8>::empty());
    }
    ChdOptions { codecs: [0x7a73_7464, 0, 0, 0], hunk_size: 2048 }
}

/// An extraction of a compressed image under way.
#[derive(Debug)]
pub struct Extraction {
    output: String,
    inner: String,
    size: u64,
    step: u64,
    offset: u64,
}

/// What an [`Extraction`] is: where it writes, which file of an archive it
/// reads, how long the image is, how much is extracted at a time, and how much
/// has been.
#[verifier::ext_equal]
pub struct ExtractionView {
    pub output: Seq<char>,
    pub inner: Seq<char>,
    pub size: u64,
    pub step: u64,
    pub offset: u64,
}

impl View for Extraction {
    type V = ExtractionView;

    closed spec fn view(&self) -> ExtractionView {
        ExtractionView {
            output: self.output@,
            inner: self.inner@,
            size: self.size,
            step: self.step,
            offset: self.offset,
        }
    }
}

/// What came of a step of an extraction.
#[derive(Debug)]
pub enum ExtractEvent {
    /// The files in the archive.
    Listed(Vec<String>),
    /// The size of the image, if it is known.
    Sized(Option<u64>),
    /// Whether there is something at the path to write to.
    OutputChecked { exists: bool },
    /// The file to write was created, or the reason why not.
    Created(Result<(), String>),
    /// The bytes of the chunk that was to be read, or the reason why not.
    Read(Result<Vec<u8>, ConvertError>),
    /// The bytes were written, or the reason why not.
    Written(Result<(), String>),
    /// All that was written is in the file, or the reason why not.
    Flushed(Result<(), String>),
}

/// The next step of an extraction.
#[derive(Debug)]
pub enum ExtractAction {
    /// Ask for the size of the file [`Extraction::inner`] of the archive.
    Measure,
    /// Ask whether there is something at the path to write to.
    CheckOutput,
    /// Create the file to write.
    Create,
    /// Read a chunk of the image.
    Read(Chunk),
    /// Write these bytes.
    Write(Vec<u8>),
    /// Bring all that was written into the file.
    Flush,
    /// End well.
    Finish,
    /// End with an error.
    Fail(ConvertError),
}

impl ExtractionView {
    /// The chunk that is to be read next.
    pub open spec fn chunk(self) -> Option<Chunk> {
        chunk_after(self.size, self.step, self.offset)
    }

    /// `action` reads the next chunk, or brings the extraction to its end if
    /// there is none.
    pub open spec fn goes_on(self, action: ExtractAction) -> bool {
        match self.chunk() {
            Some(chunk) => action == ExtractAction::Read(chunk),
            None => action == ExtractAction::Flush,
        }
    }

    /// `event` leads to `next`, and `action` is the next step.
    pub open spec fn follows(
        self,
        event: ExtractEvent,
        next: ExtractionView,
        action: ExtractAction,
    ) -> bool {
        match event {
            ExtractEvent::Listed(files) => match first_iso(texts(files@)) {
                Some(inner) => {
                    &&& next == ExtractionView { inner: files@[inner]@, ..self }
                    &&& action == ExtractAction::Measure
                },
                None => next == self && action == ExtractAction::Fail(ConvertError::NoInnerIso),
            },
            ExtractEvent::Sized(Some(size)) => {
                &&& next == ExtractionView { size, offset: 0, ..self }
                &&& action == ExtractAction::CheckOutput
            },
            ExtractEvent::Sized(None) => next == self && action == ExtractAction::Fail(
                ConvertError::NoInnerSize,
            ),
            ExtractEvent::OutputChecked { exists } => {
                &&& next == self
                &&& if exists {
                    action matches ExtractAction::Fail(error) && (error
                        matches ConvertError::OutputExists(path) && path@ == self.output)
                } else {
                    action == ExtractAction::Create
                }
            },
            ExtractEvent::Created(Ok(_)) => next == self && self.goes_on(action),
            ExtractEvent::Read(Ok(bytes)) => next == self && action == ExtractAction::Write(bytes),
            ExtractEvent::Read(Err(error)) => next == self && action == ExtractAction::Fail(error),
            ExtractEvent::Written(Ok(_)) => {
                &&& next == (match self.chunk() {
                    Some(chunk) => ExtractionView {
                        offset: (self.offset + chunk.len) as u64,
                        ..self
                    },
                    None => self,
                })
                &&& next.goes_on(action)
            },
            ExtractEvent::Flushed(Ok(_)) => next == self && action == ExtractAction::Finish,
            ExtractEvent::Created(Err(reason)) => next == self && action == ExtractAction::Fail(
                ConvertError::Refused(reason),
            ),
            ExtractEvent::Written(Err(reason)) => next == self && action == ExtractAction::Fail(
                ConvertError::Refused(reason),
            ),
            ExtractEvent::Flushed(Err(reason)) => next == self && action == ExtractAction::Fail(
                ConvertError::Refused(reason),
            ),
        }
    }
}

/// An extraction to `output` that has not started, `step` bytes at a time.
pub open spec fn extraction_start(output: Seq<char>, step: u64) -> ExtractionView {
    ExtractionView { output, inner: Seq::empty(), size: 0, step, offset: 0 }
}

impl Extraction {
    /// The extraction of the disc image in a ZISO; its first event is the list
    /// of files in the archive.
    pub fn from_ziso(job: &ConvertJob) -> (extraction: Extraction)
        ensures
            extraction@ == extraction_start(job.output@, ZISO_CHUNK_SIZE),
    {
        Extraction {
            output: job.output.clone(),
            inner: String::new(),
            size: 0,
            step: ZISO_CHUNK_SIZE,
            offset: 0,
        }
    }

    /// The extraction of a CHD; its first event is the size of the image.
    pub fn from_chd(job: &ConvertJob) -> (extraction: Extraction)
        ensures
            extraction@ == extraction_start(job.output@, CHD_CHUNK_SIZE),
    {
        Extraction {
            output: job.output.clone(),
            inner: String::new(),
            size: 0,
            step: CHD_CHUNK_SIZE,
            offset: 0,
        }
    }

    /// The file of the archive that is the disc image.
    pub fn inner(&self) -> (inner: &str)
        ensures
            inner@ == self@.inner,
    {
        self.inner.as_str()
    }

    /// Where the image is written.
    pub fn output(&self) -> (output: &str)
        ensures
            output@ == self@.output,
    {
        self.output.as_str()
    }

    /// The step that reads the next chunk, or the one at the end.
    fn go_on(&self) -> (action: ExtractAction)
        ensures
            self@.goes_on(action),
    {
        match next_chunk(self.size, self.step, self.offset) {
            Some(chunk) => ExtractAction::Read(chunk),
            None => ExtractAction::Flush,
        }
    }

    /// The next step after `event`: the disc image is found and measured, the
    /// path to write to is checked, and the image is written chunk by chunk.
    pub fn step(&mut self, event: ExtractEvent) -> (action: ExtractAction)
        ensures
            old(self)@.follows(event, final(self)@, action),
    {
        match event {
            ExtractEvent::Listed(files) => match find_inner_iso(&files) {
                Some(inner) => {
                    self.inner = files[inner].clone();
                    ExtractAction::Measure
                },
                None => ExtractAction::Fail(ConvertError::NoInnerIso),
            },
            ExtractEvent::Sized(Some(size)) => {
                self.size = size;
                self.offset = 0;
                ExtractAction::CheckOutput
            },
            ExtractEvent::Sized(None) => ExtractAction::Fail(ConvertError::NoInnerSize),
            ExtractEvent::OutputChecked { exists } => if exists {
                ExtractAction::Fail(ConvertError::OutputExists(self.output.clone()))
            } else {
                ExtractAction::Create
            },
            ExtractEvent::Created(Ok(_)) => self.go_on(),
            ExtractEvent::Read(Ok(bytes)) => ExtractAction::Write(bytes),
            ExtractEvent::Read(Err(error)) => ExtractAction::Fail(error),
            ExtractEvent::Written(Ok(_)) => {
                if let Some(chunk) = next_chunk(self.size, self.step, self.offset) {
                    self.offset = self.offset + chunk.len;
                }
                self.go_on()
            },
            ExtractEvent::Flushed(Ok(_)) => ExtractAction::Finish,
            ExtractEvent::Created(Err(reason)) => ExtractAction::Fail(
                ConvertError::Refused(reason),
            ),
            ExtractEvent::Written(Err(reason)) => ExtractAction::Fail(
                ConvertError::Refused(reason),
            ),
            ExtractEvent::Flushed(Err(reason)) => ExtractAction::Fail(
                ConvertError::Refused(reason),
            ),
        }
    }
}

/// The bytes that an archive gave for `chunk`, or the error if it gave none.
pub open spec fn read_outcome(chunk: Chunk, data: Option<Vec<u8>>) -> Result<
    Vec<u8>,
    ConvertError,
> {
    match data {
        Some(data) => Ok(data),
        None => Err(ConvertError::ReadFailed(chunk.offset)),
    }
}

/// The bytes that an archive gave for `chunk`, or the error if it gave none.
pub fn chunk_read(chunk: Chunk, data: Option<Vec<u8>>) -> (outcome: Result<Vec<u8>, ConvertError>)
    ensures
        outcome == read_outcome(chunk, data),
{
    match data {
        Some(data) => Ok(data),
        None => Err(ConvertError::ReadFailed(chunk.offset)),
    }
}

/// Each chunk that is written takes an extraction on by the bytes of the image
/// that come next.
pub proof fn law_each_chunk_is_the_next_of_the_image(
    extraction: ExtractionView,
    next: ExtractionView,
    action: ExtractAction,
    image: Seq<u8>,
)
    requires
        extraction.size == image.len(),
        extraction.step > 0,
        extraction.chunk() is Some,
        extraction.follows(ExtractEvent::Written(Ok(())), next, action),
    ensures
        extraction.offset < next.offset <= image.len(),
        next.size == image.len(),
        extracted(image, extraction.step, extraction.offset) == bytes_in(
            image,
            extraction.chunk()->0,
        ) + extracted(image, next.step, next.offset),
        action is Flush <==> next.offset == image.len(),
{
}

/// Each chunk of a CHD is read whole, whatever was at hand, and is that part of
/// the image.
pub proof fn law_each_chunk_of_a_chd_is_read_whole(
    state: ChdView,
    disc: Seq<u8>,
    step: u64,
    offset: u64,
)
    requires
        state.wf(),
        state.holds(disc),
        disc.len() <= u64::MAX,
        chunk_after(disc.len() as u64, step, offset) is Some,
    ensures
        ({
            let chunk = chunk_after(disc.len() as u64, step, offset)->0;
            state.read_through(disc, chunk.offset as nat, chunk.len as nat, Seq::empty())
                == bytes_in(disc, chunk)
        }),
{
    let chunk = chunk_after(disc.len() as u64, step, offset)->0;
    law_a_read_gives_the_bytes_of_the_image(state, disc, chunk.offset as nat, chunk.len as nat);
}

/// A run of an extraction: the states that it goes through, what came of each
/// step, and the step that followed upon it.
pub struct ExtractionRun {
    pub states: Seq<ExtractionView>,
    pub events: Seq<ExtractEvent>,
    pub actions: Seq<ExtractAction>,
}

/// `event` is what may come of `action` if the image that is extracted is `image`:
/// its size is told, and each chunk of it that is read is that part of it, unless
/// that fails. Nothing comes of an end.
pub open spec fn comes_of(image: Seq<u8>, action: ExtractAction, event: ExtractEvent) -> bool {
    match action {
        ExtractAction::Measure => event matches ExtractEvent::Sized(size) && (size matches Some(
            size,
        ) ==> size == image.len()),
        ExtractAction::CheckOutput => event is OutputChecked,
        ExtractAction::Create => event is Created,
        ExtractAction::Read(chunk) => event matches ExtractEvent::Read(outcome) && (outcome
            matches Ok(bytes) ==> bytes@ == image.subrange(
            chunk.offset as int,
            chunk.offset + chunk.len,
        )),
        ExtractAction::Write(_) => event is Written,
        ExtractAction::Flush => event is Flushed,
        ExtractAction::Finish => false,
        ExtractAction::Fail(_) => false,
    }
}

impl ExtractionRun {
    /// This is a run of an extraction of `image` that starts in `first`: it lists
    /// the files of an archive, or is told the size of the image at once, and goes
    /// on from each step with what came of it.
    pub open spec fn extracts(self, first: ExtractionView, image: Seq<u8>) -> bool {
        &&& self.events.len() > 0
        &&& self.actions.len() == self.events.len()
        &&& self.states.len() == self.events.len() + 1
        &&& self.states[0] == first
        &&& self.events[0] is Listed || (self.events[0] matches ExtractEvent::Sized(size) && (size
            matches Some(size) ==> size == image.len()))
        &&& forall|i: int|
            0 <= i < self.events.len() ==> (#[trigger] self.states[i]).follows(
                self.events[i],
                self.states[i + 1],
                self.actions[i],
            )
        &&& forall|i: int|
            0 < i < self.events.len() ==> comes_of(
                image,
                self.actions[i - 1],
                #[trigger] self.events[i],
            )
    }
}

/// All that `actions` write, put together.
pub open spec fn written(actions: Seq<ExtractAction>) -> Seq<u8>
    decreases actions.len(),
{
    if actions.len() == 0 {
        Seq::empty()
    } else {
        match actions.last() {
            ExtractAction::Write(bytes) => written(actions.drop_last()) + bytes@,
            _ => written(actions.drop_last()),
        }
    }
}

/// A run that has come to `state` and goes on with `action` as its step `at` has written
/// `done`, which is how `image` starts.
spec fn stands(
    state: ExtractionView,
    action: ExtractAction,
    done: Seq<u8>,
    image: Seq<u8>,
    at: int,
) -> bool {
    match action {
        ExtractAction::Measure => at == 0 && done.len() == 0 && state.offset == 0,
        ExtractAction::CheckOutput => at <= 1 && done.len() == 0 && state.offset == 0 && state.size
            == image.len(),
        ExtractAction::Create => at <= 2 && done.len() == 0 && state.offset == 0 && state.size
            == image.len(),
        ExtractAction::Read(chunk) => {
            &&& state.size == image.len()
            &&& state.offset < image.len()
            &&& state.chunk() == Some(chunk)
            &&& done == image.take(state.offset as int)
            &&& at <= 3 + 2 * done.len()
        },
        ExtractAction::Write(bytes) => {
            &&& state.size == image.len()
            &&& state.offset < image.len()
            &&& bytes@.len() > 0
            &&& state.chunk() matches Some(chunk) && bytes@.len() == chunk.len
            &&& done == image.take(state.offset + bytes@.len())
            &&& state.offset + bytes@.len() <= image.len()
            &&& at <= 2 + 2 * done.len()
        },
        ExtractAction::Flush => done == image && at <= 3 + 2 * image.len(),
        ExtractAction::Finish => done == image && at <= 4 + 2 * image.len(),
        ExtractAction::Fail(_) => {
            &&& done.len() <= image.len()
            &&& done == image.take(done.len() as int)
            &&& at <= 5 + 2 * image.len()
        },
    }
}

/// How a run goes on from one step to the next.
proof fn lemma_a_run_goes_on(
    before: ExtractionView,
    last: ExtractAction,
    done: Seq<u8>,
    event: ExtractEvent,
    state: ExtractionView,
    action: ExtractAction,
    image: Seq<u8>,
    at: int,
)
    requires
        before.step > 0,
        image.len() <= u64::MAX,
        stands(before, last, done, image, at),
        comes_of(image, last, event),
        before.follows(event, state, action),
    ensures
        state.output == before.output,
        state.step == before.step,
        stands(
            state,
            action,
            done + (match action {
                ExtractAction::Write(bytes) => bytes@,
                _ => Seq::empty(),
            }),
            image,
            at + 1,
        ),
{
    assert(image.take(0) =~= Seq::<u8>::empty());
    assert(image.take(image.len() as int) =~= image);
    assert(done + Seq::<u8>::empty() =~= done);
    match last {
        ExtractAction::Read(chunk) => {
            let part = image.subrange(chunk.offset as int, chunk.offset + chunk.len);
            assert(image.take(before.offset as int) + part =~= image.take(
                before.offset + chunk.len,
            ));
        },
        ExtractAction::Measure | ExtractAction::CheckOutput | ExtractAction::Create => {
            assert(done =~= image.take(0));
        },
        _ => {},
    }
}

/// Where a run stands after its step `at`.
proof fn lemma_where_a_run_stands(
    run: ExtractionRun,
    output: Seq<char>,
    step: u64,
    image: Seq<u8>,
    at: int,
)
    requires
        step == ZISO_CHUNK_SIZE || step == CHD_CHUNK_SIZE,
        image.len() <= u64::MAX,
        run.extracts(extraction_start(output, step), image),
        0 <= at < run.actions.len(),
    ensures
        run.states[at + 1].output == output,
        run.states[at + 1].step == step,
        stands(
            run.states[at + 1],
            run.actions[at],
            written(run.actions.take(at + 1)),
            image,
            at,
        ),
    decreases at,
{
    let before = run.actions.take(at);
    let now = run.actions.take(at + 1);
    assert(now.drop_last() =~= before);
    assert(now.last() == run.actions[at]);
    assert(run.states[at].follows(run.events[at], run.states[at + 1], run.actions[at]));
    assert(written(now) =~= written(before) + (match run.actions[at] {
        ExtractAction::Write(bytes) => bytes@,
        _ => Seq::empty(),
    }));
    if at == 0 {
        assert(before =~= Seq::empty());
        assert(written(before) =~= Seq::<u8>::empty());
        assert(image.take(0) =~= Seq::<u8>::empty());
    } else {
        lemma_where_a_run_stands(run, output, step, image, at - 1);
        assert(comes_of(image, run.actions[at - 1], run.events[at]));
        lemma_a_run_goes_on(
            run.states[at],
            run.actions[at - 1],
            written(before),
            run.events[at],
            run.states[at + 1],
            run.actions[at],
            image,
            at - 1,
        );
    }
}

/// Extracting writes the image, byte for byte and in order, to the path that was
/// given: at each step what has been written is how the image starts, each chunk
/// that is read is what comes next, and an extraction neither brings what was
/// written into the file nor ends well before all of the image has been written.
pub proof fn law_an_extraction_writes_the_image(
    run: ExtractionRun,
    output: Seq<char>,
    step: u64,
    image: Seq<u8>,
    at: int,
)
    requires
        step == ZISO_CHUNK_SIZE || step == CHD_CHUNK_SIZE,
        image.len() <= u64::MAX,
        run.extracts(extraction_start(output, step), image),
        0 <= at < run.actions.len(),
    ensures
        ({
            let done = written(run.actions.take(at + 1));
            &&& run.states[at + 1].output == output
            &&& done.len() <= image.len()
            &&& done == image.take(done.len() as int)
            &&& run.actions[at] is Flush || run.actions[at] is Finish ==> done == image
            &&& run.actions[at] is Finish ==> at > 0 && run.actions[at - 1] is Flush
            &&& run.actions[at] matches ExtractAction::Read(chunk) ==> {
                &&& chunk.offset == done.len()
                &&& chunk.len > 0
                &&& chunk.offset + chunk.len <= image.len()
                &&& chunk.len == step || chunk.offset + chunk.len == image.len()
                &&& chunk.len <= step
            }
        }),
{
    lemma_where_a_run_stands(run, output, step, image, at);
    assert(run.states[at].follows(run.events[at], run.states[at + 1], run.actions[at]));
    if at > 0 {
        assert(comes_of(image, run.actions[at - 1], run.events[at]));
    }
    assert(image.take(image.len() as int) =~= image);
    assert(image.take(0) =~= Seq::<u8>::empty());
    let done = written(run.actions.take(at + 1));
    if run.actions[at] is Measure || run.actions[at] is CheckOutput || run.actions[at] is Create {
        assert(done =~= image.take(0));
    }
}

/// An extraction comes to its end: it takes no more than two steps for each byte of
/// the image and six for the rest, and it goes on from each step that is not an
/// end. So, if nothing fails, it ends well.
pub proof fn law_an_extraction_ends(
    run: ExtractionRun,
    output: Seq<char>,
    step: u64,
    image: Seq<u8>,
)
    requires
        step == ZISO_CHUNK_SIZE || step == CHD_CHUNK_SIZE,
        image.len() <= u64::MAX,
        run.extracts(extraction_start(output, step), image),
    ensures
        run.events.len() <= 2 * image.len() + 6,
        forall|i: int|
            0 <= i < run.actions.len() - 1 ==> !((#[trigger] run.actions[i]) is Finish
                || run.actions[i] is Fail),
{
    let last = run.actions.len() - 1;
    lemma_where_a_run_stands(run, output, step, image, last);
    assert(run.actions.take(last + 1) =~= run.actions);
    law_an_extraction_writes_the_image(run, output, step, image, last);
    assert forall|i: int| 0 <= i < last implies !((#[trigger] run.actions[i]) is Finish
        || run.actions[i] is Fail) by {
        assert(comes_of(image, run.actions[i + 1 - 1], run.events[i + 1]));
    }
}

/// An extraction creates, reads and writes nothing unless there was nothing at the
/// path to write to.
pub proof fn law_an_extraction_overwrites_nothing(
    run: ExtractionRun,
    output: Seq<char>,
    step: u64,
    image: Seq<u8>,
    at: int,
) -> (asked: int)
    requires
        step == ZISO_CHUNK_SIZE || step == CHD_CHUNK_SIZE,
        image.len() <= u64::MAX,
        run.extracts(extraction_start(output, step), image),
        0 <= at < run.actions.len(),
        run.actions[at] is Create || run.actions[at] is Read || run.actions[at] is Write
            || run.actions[at] is Flush || run.actions[at] is Finish,
    ensures
        0 <= asked <= at,
        run.events[asked] matches ExtractEvent::OutputChecked { exists } && !exists,
        run.actions[asked] is Create,
    decreases at,
{
    assert(run.states[at].follows(run.events[at], run.states[at + 1], run.actions[at]));
    if run.actions[at] is Create {
        at
    } else {
        assert(at > 0);
        assert(comes_of(image, run.actions[at - 1], run.events[at]));
        law_an_extraction_overwrites_nothing(run, output, step, image, at - 1)
    }
}

/// An extraction fails exactly where something has gone wrong, and tells what: an
/// archive without a disc image or without its size, something at the path to
/// write to, or a refusal to create, to read, to write or to bring what was
/// written into the file.
pub proof fn law_an_extraction_fails_for_a_reason(
    state: ExtractionView,
    event: ExtractEvent,
    next: ExtractionView,
    action: ExtractAction,
)
    requires
        state.follows(event, next, action),
    ensures
        action is Fail <==> match event {
            ExtractEvent::Listed(files) => forall|k: int|
                0 <= k < files@.len() ==> !".iso"@.is_suffix_of(lowered((#[trigger] files@[k])@)),
            ExtractEvent::Sized(size) => size is None,
            ExtractEvent::OutputChecked { exists } => exists,
            ExtractEvent::Created(outcome) => outcome is Err,
            ExtractEvent::Read(outcome) => outcome is Err,
            ExtractEvent::Written(outcome) => outcome is Err,
            ExtractEvent::Flushed(outcome) => outcome is Err,
        },
        action matches ExtractAction::Fail(error) ==> next == state && error.told() == (
        match event {
            ExtractEvent::Listed(_) => "No .iso file found inside ZISO archive"@,
            ExtractEvent::Sized(_) => "Could not determine inner ISO size"@,
            ExtractEvent::OutputChecked { .. } => "Output file already exists: "@ + state.output,
            ExtractEvent::Created(outcome) => outcome->Err_0@,
            ExtractEvent::Read(outcome) => outcome->Err_0.told(),
            ExtractEvent::Written(outcome) => outcome->Err_0@,
            ExtractEvent::Flushed(outcome) => outcome->Err_0@,
        }),
{
    if let ExtractEvent::Listed(files) = event {
        law_the_first_image_of_an_archive_is_found(texts(files@));
        match first_iso(texts(files@)) {
            Some(at) => {
                assert(texts(files@)[at] == files@[at]@);
            },
            None => {
                assert forall|k: int| 0 <= k < files@.len() implies !".iso"@.is_suffix_of(
                    lowered((#[trigger] files@[k])@),
                ) by {
                    assert(texts(files@)[k] == files@[k]@);
                }
            },
        }
    }
}

/// What is extracted from an archive is its first file whose name ends in `.iso` in
/// lowercase: that is the one that is measured.
pub proof fn law_the_image_of_an_archive_is_extracted(
    state: ExtractionView,
    files: Vec<String>,
    next: ExtractionView,
    action: ExtractAction,
) -> (at: int)
    requires
        state.follows(ExtractEvent::Listed(files), next, action),
        exists|k: int|
            0 <= k < files@.len() && ".iso"@.is_suffix_of(lowered(#[trigger] files@[k]@)),
    ensures
        action is Measure,
        0 <= at < files@.len(),
        next.inner == files@[at]@,
        next.output == state.output,
        ".iso"@.is_suffix_of(lowered(files@[at]@)),
        forall|k: int| 0 <= k < at ==> !".iso"@.is_suffix_of(lowered(#[trigger] files@[k]@)),
{
    law_the_first_image_of_an_archive_is_found(texts(files@));
    let k = choose|k: int|
        0 <= k < files@.len() && ".iso"@.is_suffix_of(lowered(#[trigger] files@[k]@));
    assert(texts(files@)[k] == files@[k]@);
    let at = first_iso(texts(files@))->0;
    assert forall|k: int| 0 <= k < at implies !".iso"@.is_suffix_of(
        lowered(#[trigger] files@[k]@),
    ) by {
        assert(texts(files@)[k] == files@[k]@);
    }
    at
}

/// A run of a packing: what came of each step, and the step that followed upon it.
pub struct PackRun {
    pub events: Seq<PackEvent>,
    pub actions: Seq<PackAction>,
}

impl PackRun {
    /// This is a run of the packing of `job`: it starts with whether there is
    /// something at the path to write to, and goes on from each step with what came
    /// of it.
    pub open spec fn packs(self, job: PackJob) -> bool {
        &&& self.events.len() > 0
        &&& self.actions.len() == self.events.len()
        &&& self.events[0] is OutputChecked
        &&& forall|i: int|
            0 <= i < self.events.len() ==> job.follows(
                #[trigger] self.events[i],
                self.actions[i],
            )
        &&& forall|i: int|
            0 < i < self.events.len() ==> match self.actions[i - 1] {
                PackAction::MakeTemp => (#[trigger] self.events[i]) is TempMade,
                PackAction::Link => self.events[i] is Linked,
                PackAction::Copy => self.events[i] is Copied,
                PackAction::Pack => self.events[i] is Packed,
                PackAction::Finish => false,
                PackAction::Fail { .. } => false,
            }
    }
}

/// A packing makes the temporary directory, puts the image into it and packs it, in
/// this order: it makes the directory only if there was nothing at the path to write
/// to, packs only once the image was linked or copied into it, copies only where no
/// link could be made, and ends well only once it has packed. It ends after five
/// steps at the latest.
pub proof fn law_a_packing_goes_step_by_step(job: PackJob, run: PackRun, at: int)
    requires
        run.packs(job),
        0 <= at < run.actions.len(),
    ensures
        run.actions.len() <= 5,
        match run.actions[at] {
            PackAction::MakeTemp => at == 0 && run.events[0]->exists == false,
            PackAction::Link => at == 1 && run.actions[0] is MakeTemp,
            PackAction::Copy => at == 2 && run.actions[1] is Link && !run.events[2]->done,
            PackAction::Pack => (at == 2 && run.actions[1] is Link && run.events[2]->done) || (at
                == 3 && run.actions[2] is Copy && run.events[3]->Copied_0 is Ok),
            PackAction::Finish => at > 0 && run.actions[at - 1] is Pack && run.events[at]->Packed_0
                is Ok,
            PackAction::Fail { .. } => true,
        },
{
    assert forall|i: int| 0 <= i < run.events.len() implies job.follows(
        #[trigger] run.events[i],
        run.actions[i],
    ) && (i > 0 ==> match run.actions[i - 1] {
        PackAction::MakeTemp => run.events[i] is TempMade,
        PackAction::Link => run.events[i] is Linked,
        PackAction::Copy => run.events[i] is Copied,
        PackAction::Pack => run.events[i] is Packed,
        PackAction::Finish => false,
        PackAction::Fail { .. } => false,
    }) by {}
    let n = run.events.len();
    assert(job.follows(run.events[0], run.actions[0]));
    if n > 1 {
        assert(job.follows(run.events[1], run.actions[1]));
    }
    if n > 2 {
        assert(job.follows(run.events[2], run.actions[2]));
    }
    if n > 3 {
        assert(job.follows(run.events[3], run.actions[3]));
    }
    if n > 4 {
        assert(job.follows(run.events[4], run.actions[4]));
    }
    if n > 5 {
        assert(job.follows(run.events[5], run.actions[5]));
    }
}

/// A packing fails exactly where something has gone wrong that it cannot do without,
/// tells what, and removes what it has made: the temporary directory once it is
/// there, and the archive once packing to it has failed.
pub proof fn law_a_packing_fails_for_a_reason(job: PackJob, event: PackEvent, action: PackAction)
    requires
        job.follows(event, action),
    ensures
        action is Fail <==> match event {
            PackEvent::OutputChecked { exists } => exists,
            PackEvent::TempMade(outcome) => outcome is Err,
            PackEvent::Linked { .. } => false,
            PackEvent::Copied(outcome) => outcome is Err,
            PackEvent::Packed(outcome) => outcome is Err,
        },
        action matches PackAction::Fail { remove_temp, remove_output, error } ==> {
            &&& remove_temp <==> event is Copied || event is Packed
            &&& remove_output <==> event is Packed
            &&& error.told() == (match event {
                PackEvent::OutputChecked { .. } => "Output file already exists: "@
                    + job.job.output@,
                PackEvent::TempMade(outcome) => outcome->Err_0@,
                PackEvent::Linked { .. } => Seq::empty(),
                PackEvent::Copied(outcome) => "Failed to stage ISO in temp dir: "@
                    + outcome->Err_0@,
                PackEvent::Packed(outcome) => "Failed to create ZISO: "@ + outcome->Err_0@,
            })
        },
{
}

/// What the conversion of a file at an ordinary path comes to whose extension is that of
/// its format, in whatever letter case.
proof fn lemma_a_conversion_of_an_ordinary_path(
    outcome: Result<ConvertJob, ConvertError>,
    stem: Seq<char>,
    extension: Seq<char>,
    name: Option<Seq<char>>,
    exists: bool,
    is_file: bool,
    wanted: Seq<char>,
    target: Seq<char>,
    compressed: bool,
)
    requires
        small_letters(wanted),
        small_letters(target),
        wanted != target,
        same_but_for_ascii_case(extension, wanted),
        plain(stem.push('.') + extension),
        may_be_file_name(stem.push('.') + extension, name),
        is_start(
            outcome,
            stem.push('.') + extension,
            name,
            exists,
            is_file,
            wanted,
            target,
            compressed,
        ),
    ensures
        outcome is Ok <==> exists && is_file,
        outcome matches Ok(job) ==> {
            &&& job.input@ == stem.push('.') + extension
            &&& job.output@ == stem.push('.') + case_matched(extension, target)
        },
        case_matched(wanted, target) == target,
        case_matched(ascii_uppered(wanted), target) == ascii_uppered(target),
{
    let path = stem.push('.') + extension;
    assert(ascii_lowered(extension).len() == ascii_lowered(wanted).len());
    assert forall|i: int| 0 <= i < extension.len() implies #[trigger] extension[i] != '.' by {
        assert(ascii_lowered(extension)[i] == ascii_lowered(wanted)[i]);
        assert(ascii_lower(extension[i]) == ascii_lower(wanted[i]));
    }
    lemma_last_dot_before(stem, extension);
    assert(path.skip(last_dot(path) + 1) =~= extension);
    assert(path.take(last_dot(path)) =~= stem);
    assert(is_ascii_chars(wanted) && is_ascii_chars(target));
    law_the_case_of_the_extension_is_kept(wanted, target);
    law_an_ordinary_path_decides_a_conversion(
        outcome,
        path,
        name,
        exists,
        is_file,
        wanted,
        target,
        compressed,
    );
    lemma_matched_extension_is_letters(extension, target);
}

/// A file at an ordinary path with the extension `iso`, in whatever letter case, is converted
/// to the ZISO beside it with the extension `ziso` in that letter case, and nothing else
/// changes. What is not there, or is no file, is refused, and that is told.
pub proof fn law_an_iso_becomes_a_ziso(
    stem: Seq<char>,
    extension: Seq<char>,
    exists: bool,
    is_file: bool,
    pid: nat,
    outcome: Result<PackJob, ConvertError>,
)
    requires
        same_but_for_ascii_case(extension, "iso"@),
        plain(stem.push('.') + extension),
        starts_iso_to_ziso(stem.push('.') + extension, exists, is_file, pid, outcome),
    ensures
        ({
            let path = stem.push('.') + extension;
            match outcome {
                Ok(pack) => {
                    &&& exists && is_file
                    &&& pack.job.input@ == path
                    &&& pack.job.output@ == stem.push('.') + case_matched(extension, "ziso"@)
                    &&& extension == seq!['i', 's', 'o'] ==> pack.job.output@ == stem + ".ziso"@
                    &&& extension == seq!['I', 'S', 'O'] ==> pack.job.output@ == stem + ".ZISO"@
                },
                Err(error) => {
                    &&& !(exists && is_file)
                    &&& error.told() == if !exists {
                        "Input file does not exist: "@ + path
                    } else {
                        "Input path is not a file: "@ + path
                    }
                },
            }
        }),
{
    reveal_strlit(".ZISO");
    reveal_strlit(".ziso");
    reveal_strlit("iso");
    reveal_strlit("ziso");
    let path = stem.push('.') + extension;
    assert("iso"@ =~= seq!['i', 's', 'o']);
    assert("ziso"@ =~= seq!['z', 'i', 's', 'o']);
    assert(ascii_uppered("iso"@) =~= seq!['I', 'S', 'O']);
    assert(ascii_uppered("ziso"@) =~= seq!['Z', 'I', 'S', 'O']);
    assert("iso"@.len() != "ziso"@.len());
    let name = choose|name: Option<Seq<char>>| #[trigger]
        may_be_file_name(path, name) && is_start(
            job_of(outcome),
            path,
            name,
            exists,
            is_file,
            "iso"@,
            "ziso"@,
            false,
        );
    lemma_a_conversion_of_an_ordinary_path(
        job_of(outcome),
        stem,
        extension,
        name,
        exists,
        is_file,
        "iso"@,
        "ziso"@,
        false,
    );
    assert(stem + ".ziso"@ =~= stem.push('.') + seq!['z', 'i', 's', 'o']);
    assert(stem + ".ZISO"@ =~= stem.push('.') + seq!['Z', 'I', 'S', 'O']);
}

/// A file at an ordinary path with the extension `iso`, in whatever letter case, is converted
/// to the CHD beside it with the extension `chd` in that letter case, and nothing else
/// changes. What is not there, or is no file, is refused, and that is told.
pub proof fn law_an_iso_becomes_a_chd(
    stem: Seq<char>,
    extension: Seq<char>,
    exists: bool,
    is_file: bool,
    outcome: Result<ConvertJob, ConvertError>,
)
    requires
        same_but_for_ascii_case(extension, "iso"@),
        plain(stem.push('.') + extension),
        starts_iso_to_chd(stem.push('.') + extension, exists, is_file, outcome),
    ensures
        ({
            let path = stem.push('.') + extension;
            match outcome {
                Ok(job) => {
                    &&& exists && is_file
                    &&& job.input@ == path
                    &&& job.output@ == stem.push('.') + case_matched(extension, "chd"@)
                    &&& extension == seq!['i', 's', 'o'] ==> job.output@ == stem + ".chd"@
                    &&& extension == seq!['I', 'S', 'O'] ==> job.output@ == stem + ".CHD"@
                },
                Err(error) => {
                    &&& !(exists && is_file)
                    &&& error.told() == if !exists {
                        "Input file does not exist: "@ + path
                    } else {
                        "Input path is not a file: "@ + path
                    }
                },
            }
        }),
{
    reveal_strlit(".CHD");
    reveal_strlit(".chd");
    reveal_strlit("iso");
    reveal_strlit("chd");
    let path = stem.push('.') + extension;
    assert("iso"@ =~= seq!['i', 's', 'o']);
    assert("chd"@ =~= seq!['c', 'h', 'd']);
    assert(ascii_uppered("iso"@) =~= seq!['I', 'S', 'O']);
    assert(ascii_uppered("chd"@) =~= seq!['C', 'H', 'D']);
    assert("iso"@[0] != "chd"@[0]);
    let name = choose|name: Option<Seq<char>>| #[trigger]
        may_be_file_name(path, name) && is_start(
            outcome,
            path,
            name,
            exists,
            is_file,
            "iso"@,
            "chd"@,
            false,
        );
    lemma_a_conversion_of_an_ordinary_path(
        outcome,
        stem,
        extension,
        name,
        exists,
        is_file,
        "iso"@,
        "chd"@,
        false,
    );
    assert(stem + ".chd"@ =~= stem.push('.') + seq!['c', 'h', 'd']);
    assert(stem + ".CHD"@ =~= stem.push('.') + seq!['C', 'H', 'D']);
}

/// A file at an ordinary path with the extension `ziso`, in whatever letter case, is converted
/// to the disc image beside it with the extension `iso` in that letter case, and nothing else
/// changes. What is not there, or is no file, is refused, and that is told.
pub proof fn law_a_ziso_becomes_an_iso(
    stem: Seq<char>,
    extension: Seq<char>,
    exists: bool,
    is_file: bool,
    outcome: Result<ConvertJob, ConvertError>,
)
    requires
        same_but_for_ascii_case(extension, "ziso"@),
        plain(stem.push('.') + extension),
        starts_ziso_to_iso(stem.push('.') + extension, exists, is_file, outcome),
    ensures
        ({
            let path = stem.push('.') + extension;
            match outcome {
                Ok(job) => {
                    &&& exists && is_file
                    &&& job.input@ == path
                    &&& job.output@ == stem.push('.') + case_matched(extension, "iso"@)
                    &&& extension == seq!['z', 'i', 's', 'o'] ==> job.output@ == stem + ".iso"@
                    &&& extension == seq!['Z', 'I', 'S', 'O'] ==> job.output@ == stem + ".ISO"@
                },
                Err(error) => {
                    &&& !(exists && is_file)
                    &&& error.told() == if !exists {
                        "Input file does not exist"@
                    } else {
                        "Input is not a file"@
                    }
                },
            }
        }),
{
    reveal_strlit(".ISO");
    reveal_strlit(".iso");
    reveal_strlit("ziso");
    reveal_strlit("iso");
    let path = stem.push('.') + extension;
    assert("ziso"@ =~= seq!['z', 'i', 's', 'o']);
    assert("iso"@ =~= seq!['i', 's', 'o']);
    assert(ascii_uppered("ziso"@) =~= seq!['Z', 'I', 'S', 'O']);
    assert(ascii_uppered("iso"@) =~= seq!['I', 'S', 'O']);
    assert("ziso"@.len() != "iso"@.len());
    let name = choose|name: Option<Seq<char>>| #[trigger]
        may_be_file_name(path, name) && is_start(
            outcome,
            path,
            name,
            exists,
            is_file,
            "ziso"@,
            "iso"@,
            true,
        );
    lemma_a_conversion_of_an_ordinary_path(
        outcome,
        stem,
        extension,
        name,
        exists,
        is_file,
        "ziso"@,
        "iso"@,
        true,
    );
    assert(stem + ".iso"@ =~= stem.push('.') + seq!['i', 's', 'o']);
    assert(stem + ".ISO"@ =~= stem.push('.') + seq!['I', 'S', 'O']);
}

/// A file at an ordinary path with the extension `chd`, in whatever letter case, is converted
/// to the disc image beside it with the extension `iso` in that letter case, and nothing else
/// changes. What is not there, or is no file, is refused, and that is told.
pub proof fn law_a_chd_becomes_an_iso(
    stem: Seq<char>,
    extension: Seq<char>,
    exists: bool,
    is_file: bool,
    outcome: Result<ConvertJob, ConvertError>,
)
    requires
        same_but_for_ascii_case(extension, "chd"@),
        plain(stem.push('.') + extension),
        starts_chd_to_iso(stem.push('.') + extension, exists, is_file, outcome),
    ensures
        ({
            let path = stem.push('.') + extension;
            match outcome {
                Ok(job) => {
                    &&& exists && is_file
                    &&& job.input@ == path
                    &&& job.output@ == stem.push('.') + case_matched(extension, "iso"@)
                    &&& extension == seq!['c', 'h', 'd'] ==> job.output@ == stem + ".iso"@
                    &&& extension == seq!['C', 'H', 'D'] ==> job.output@ == stem + ".ISO"@
                },
                Err(error) => {
                    &&& !(exists && is_file)
                    &&& error.told() == if !exists {
                        "Input file does not exist"@
                    } else {
                        "Input is not a file"@
                    }
                },
            }
        }),
{
    reveal_strlit(".ISO");
    reveal_strlit(".iso");
    reveal_strlit("chd");
    reveal_strlit("iso");
    let path = stem.push('.') + extension;
    assert("chd"@ =~= seq!['c', 'h', 'd']);
    assert("iso"@ =~= seq!['i', 's', 'o']);
    assert(ascii_uppered("chd"@) =~= seq!['C', 'H', 'D']);
    assert(ascii_uppered("iso"@) =~= seq!['I', 'S', 'O']);
    assert("chd"@[0] != "iso"@[0]);
    let name = choose|name: Option<Seq<char>>| #[trigger]
        may_be_file_name(path, name) && is_start(
            outcome,
            path,
            name,
            exists,
            is_file,
            "chd"@,
            "iso"@,
            true,
        );
    lemma_a_conversion_of_an_ordinary_path(
        outcome,
        stem,
        extension,
        name,
        exists,
        is_file,
        "chd"@,
        "iso"@,
        true,
    );
    assert(stem + ".iso"@ =~= stem.push('.') + seq!['i', 's', 'o']);
    assert(stem + ".ISO"@ =~= stem.push('.') + seq!['I', 'S', 'O']);
}

/// A conversion of a file starts exactly if the file has the extension of its format, in
/// whatever letter case, and otherwise tells which one it must have: where all platforms
/// agree on its path, or that is an ordinary one. Where all agree, the new file lies
/// beside it under its name with the new extension.
pub proof fn law_the_extension_decides_each_conversion(
    path: Seq<char>,
    pid: nat,
    to_ziso: Result<PackJob, ConvertError>,
    to_chd: Result<ConvertJob, ConvertError>,
    from_ziso: Result<ConvertJob, ConvertError>,
    from_chd: Result<ConvertJob, ConvertError>,
)
    requires
        portable(path) || plain(path),
        starts_iso_to_ziso(path, true, true, pid, to_ziso),
        starts_iso_to_chd(path, true, true, to_chd),
        starts_ziso_to_iso(path, true, true, from_ziso),
        starts_chd_to_iso(path, true, true, from_chd),
    ensures
        ({
            let extension = if plain(path) {
                path.skip(last_dot(path) + 1)
            } else {
                extension_or_empty(file_name_of(path))
            };
            let name = file_name_of(path)->0;
            let directory = components(path).drop_last();
            &&& to_ziso is Ok <==> same_but_for_ascii_case(extension, "iso"@)
            &&& to_chd is Ok <==> same_but_for_ascii_case(extension, "iso"@)
            &&& from_ziso is Ok <==> same_but_for_ascii_case(extension, "ziso"@)
            &&& from_chd is Ok <==> same_but_for_ascii_case(extension, "chd"@)
            &&& to_ziso matches Err(error) ==> error.told() == "Input file must have ."@ + "iso"@
                + " extension"@
            &&& to_chd matches Err(error) ==> error.told() == "Input file must have ."@ + "iso"@
                + " extension"@
            &&& from_ziso matches Err(error) ==> error.told() == "Input file must have ."@
                + "ziso"@ + " extension"@
            &&& from_chd matches Err(error) ==> error.told() == "Input file must have ."@ + "chd"@
                + " extension"@
            &&& to_ziso matches Ok(pack) ==> pack.job.input@ == path && (portable(path)
                ==> components(pack.job.output@) == directory.push(converted_name(name, "ziso"@)))
            &&& to_chd matches Ok(job) ==> job.input@ == path && (portable(path) ==> components(
                job.output@,
            ) == directory.push(converted_name(name, "chd"@)))
            &&& from_ziso matches Ok(job) ==> job.input@ == path && (portable(path) ==> components(
                job.output@,
            ) == directory.push(converted_name(name, "iso"@)))
            &&& from_chd matches Ok(job) ==> job.input@ == path && (portable(path) ==> components(
                job.output@,
            ) == directory.push(converted_name(name, "iso"@)))
        }),
{
    lemma_extensions_are_small_letters();
    lemma_the_extension_decides(job_of(to_ziso), path, "iso"@, "ziso"@, false);
    lemma_the_extension_decides(to_chd, path, "iso"@, "chd"@, false);
    lemma_the_extension_decides(from_ziso, path, "ziso"@, "iso"@, true);
    lemma_the_extension_decides(from_chd, path, "chd"@, "iso"@, true);
}

/// What the conversion of a file comes to.
proof fn lemma_the_extension_decides(
    outcome: Result<ConvertJob, ConvertError>,
    path: Seq<char>,
    wanted: Seq<char>,
    target: Seq<char>,
    compressed: bool,
)
    requires
        small_letters(wanted),
        small_letters(target),
        wanted != target,
        portable(path) || plain(path),
        exists|name: Option<Seq<char>>| #[trigger]
            may_be_file_name(path, name) && is_start(
                outcome,
                path,
                name,
                true,
                true,
                wanted,
                target,
                compressed,
            ),
    ensures
        outcome is Ok <==> same_but_for_ascii_case(
            if plain(path) {
                path.skip(last_dot(path) + 1)
            } else {
                extension_or_empty(file_name_of(path))
            },
            wanted,
        ),
        outcome matches Err(error) ==> error.told() == "Input file must have ."@ + wanted
            + " extension"@,
        outcome matches Ok(job) ==> job.input@ == path && (portable(path) ==> components(
            job.output@,
        ) == components(path).drop_last().push(
            converted_name(file_name_of(path)->0, target),
        )),
{
    let name = choose|name: Option<Seq<char>>| #[trigger]
        may_be_file_name(path, name) && is_start(
            outcome,
            path,
            name,
            true,
            true,
            wanted,
            target,
            compressed,
        );
    law_an_ordinary_path_decides_a_conversion(
        outcome,
        path,
        name,
        true,
        true,
        wanted,
        target,
        compressed,
    );
    if plain(path) {
        law_a_dotted_path_has_its_extension(path, name);
    } else {
        law_a_portable_path_has_its_name(path, name);
    }
}

/// A conversion goes on exactly if there is nothing at the path to write to, and
/// otherwise tells that there is.
pub proof fn law_no_output_is_overwritten(
    job: ConvertJob,
    exists: bool,
    outcome: Result<(), ConvertError>,
)
    requires
        job.checks_output(exists, outcome),
    ensures
        outcome is Ok <==> !exists,
        outcome matches Err(error) ==> error.told() == "Output file already exists: "@
            + job.output@,
{
}

/// What an archive gave for a chunk is passed on as it is, and where it gave nothing
/// the place is told.
pub proof fn law_a_chunk_is_passed_on(chunk: Chunk, data: Option<Vec<u8>>)
    ensures
        data matches Some(bytes) ==> read_outcome(chunk, data) is Ok && read_outcome(
            chunk,
            data,
        )->Ok_0@ == bytes@,
        data is None ==> read_outcome(chunk, data) is Err && read_outcome(
            chunk,
            data,
        )->Err_0.told() == "Failed to read at offset "@ + decimal(chunk.offset as nat),
{
}

/// The temporary directories of two processes have different names, which start with
/// a dot.
pub proof fn law_each_process_has_its_own_directory(pid: nat, other: nat)
    requires
        pid != other,
    ensures
        temp_name(pid) != temp_name(other),
        ".netiso_convert_"@.is_prefix_of(temp_name(pid)),
        temp_name(pid)[0] == '.',
{
    let front = ".netiso_convert_"@;
    lemma_start_of_temp_name(pid);
    law_decimal_digits_tell_the_number(pid, other);
    assert(temp_name(pid).skip(front.len() as int) =~= decimal(pid));
    assert(temp_name(other).skip(front.len() as int) =~= decimal(other));
    assert(temp_name(pid).subrange(0, front.len() as int) =~= front);
}

/// A CHD is created with the codec alone whose tag is the letters `zstd`, the first
/// counting most, and with hunks of 2048 bytes.
pub proof fn law_a_chd_is_created_for_fast_reads(options: ChdOptions)
    requires
        suit_consoles(options),
    ensures
        options.codecs[0] == 0x100_0000 * ('z' as int) + 0x1_0000 * ('s' as int) + 256 * (
        't' as int) + ('d' as int),
        options.codecs[1] == 0 && options.codecs[2] == 0 && options.codecs[3] == 0,
        options.hunk_size == 2048,
{
    let tag = seq![0x7au8, 0x73u8, 0x74u8, 0x64u8];
    lemma_one_byte_more(tag, 0, 0);
    lemma_one_byte_more(tag, 0, 1);
    lemma_one_byte_more(tag, 0, 2);
    lemma_one_byte_more(tag, 0, 3);
    assert(tag.subrange(0, 4) =~= tag);
}

/// A ZISO is extracted a mebibyte at a time, and a CHD four.
pub proof fn law_chunks_have_their_sizes(output: Seq<char>)
    ensures
        ZISO_CHUNK_SIZE == 1024 * 1024,
        CHD_CHUNK_SIZE == 4 * 1024 * 1024,
        extraction_start(output, ZISO_CHUNK_SIZE).output == output,
        extraction_start(output, ZISO_CHUNK_SIZE).step == 1024 * 1024,
        extraction_start(output, CHD_CHUNK_SIZE).step == 4 * 1024 * 1024,
{
}

/// An image that is to be packed is put, under its own name, into a directory named for
/// the process that lies beside it, and not where it is: where all platforms agree on
/// its path.
pub proof fn law_an_iso_is_packed_from_a_directory_of_its_own(
    path: Seq<char>,
    pid: nat,
    outcome: Result<PackJob, ConvertError>,
)
    requires
        portable(path),
        starts_iso_to_ziso(path, true, true, pid, outcome),
    ensures
        outcome matches Ok(pack) ==> {
            let name = file_name_of(path)->0;
            &&& file_name_of(path) is Some
            &&& components(slashed(pack.temp_dir@)) == components(path).drop_last().push(
                ".netiso_convert_"@ + decimal(pid),
            )
            &&& !on_drive(name) ==> components(slashed(pack.staged@)) == components(
                path,
            ).drop_last().push(".netiso_convert_"@ + decimal(pid)).push(name)
            &&& name.is_suffix_of(pack.staged@)
            &&& pack.staged@ != path
        },
{
    if let Ok(pack) = outcome {
        let name = choose|name: Option<Seq<char>>| #[trigger]
            may_be_file_name(path, name) && {
                &&& is_start(
                    job_of(outcome),
                    path,
                    name,
                    true,
                    true,
                    "iso"@,
                    "ziso"@,
                    false,
                )
                &&& outcome matches Ok(pack) ==> is_staging(
                    path,
                    name->0,
                    pid,
                    pack.temp_dir@,
                    pack.staged@,
                )
            };
        law_a_portable_path_has_its_name(path, name);
        law_an_image_is_staged_beside_itself(
            path,
            name->0,
            pid,
            pack.temp_dir@,
            pack.staged@,
        );
        if verbatim(pack.temp_dir@) {
            lemma_staging_is_not_verbatim(path, name->0, pid, pack.temp_dir@, pack.staged@);
        }
    }
}

/// Beside a path on which all platforms agree, the temporary directory is not one that
/// Windows takes as it stands.
proof fn lemma_staging_is_not_verbatim(
    path: Seq<char>,
    name: Seq<char>,
    pid: nat,
    temp_dir: Seq<char>,
    staged: Seq<char>,
)
    requires
        portable(path),
        file_name_of(path) == Some(name),
        is_staging(path, name, pid, temp_dir, staged),
    ensures
        !verbatim(temp_dir),
{
    lemma_temp_name_is_a_name(pid);
    let directory = choose|directory: Seq<char>| #[trigger]
        may_be_directory_of(path, directory) && may_be_within(
            directory,
            temp_name(pid),
            temp_dir,
        );
    lemma_portable_has_no_prefix(directory);
    lemma_portable_has_no_prefix(temp_name(pid));
    lemma_start_of_temp_name(pid);
    if verbatim(directory) {
        assert(directory.contains(directory[0]));
    }
    assert(may_be_joined(directory, temp_name(pid), temp_dir));
    lemma_joined_is_not_verbatim(directory, temp_name(pid), temp_dir);
}

/// The chunk that comes next starts where the last one ended, and is as long as a chunk
/// may be, or as what is left of the image where that is less; behind the end there is
/// none.
pub proof fn law_a_chunk_is_what_comes_next(size: u64, step: u64, offset: u64)
    ensures
        chunk_after(size, step, offset) is None <==> offset >= size,
        chunk_after(size, step, offset) matches Some(chunk) ==> {
            &&& chunk.offset == offset
            &&& chunk.len <= step
            &&& offset + chunk.len <= size
            &&& chunk.len == step || offset + chunk.len == size
        },
{
}

/// Wherever an image lies that is to be packed, it is put under its own name into a
/// directory named for the process, beside it as one of the platforms reads its path.
pub proof fn law_an_iso_is_staged_to_be_packed(
    path: Seq<char>,
    pid: nat,
    pack: PackJob,
) -> (name: Seq<char>)
    requires
        starts_iso_to_ziso(path, true, true, pid, Ok(pack)),
    ensures
        may_be_file_name(path, Some(name)),
        is_staging(path, name, pid, pack.temp_dir@, pack.staged@),
        (".netiso_convert_"@ + decimal(pid)).is_suffix_of(pack.temp_dir@),
        name.is_suffix_of(pack.staged@) || verbatim(pack.temp_dir@),
{
    let name = choose|name: Option<Seq<char>>| #[trigger]
        may_be_file_name(path, name) && {
            &&& is_start(Ok(pack.job), path, name, true, true, "iso"@, "ziso"@, false)
            &&& is_staging(path, name->0, pid, pack.temp_dir@, pack.staged@)
        };
    name->0
}

/// What is not there, or is no file, is refused whatever its path is, and that is told:
/// with the path where a disc image was to be converted, and without it where a
/// compressed image was.
pub proof fn law_only_files_are_converted(
    path: Seq<char>,
    exists: bool,
    is_file: bool,
    pid: nat,
    to_ziso: Result<PackJob, ConvertError>,
    to_chd: Result<ConvertJob, ConvertError>,
    from_ziso: Result<ConvertJob, ConvertError>,
    from_chd: Result<ConvertJob, ConvertError>,
)
    requires
        !(exists && is_file),
        starts_iso_to_ziso(path, exists, is_file, pid, to_ziso),
        starts_iso_to_chd(path, exists, is_file, to_chd),
        starts_ziso_to_iso(path, exists, is_file, from_ziso),
        starts_chd_to_iso(path, exists, is_file, from_chd),
    ensures
        ({
            let told = if exists {
                "Input path is not a file: "@ + path
            } else {
                "Input file does not exist: "@ + path
            };
            let told_of_compressed = if exists {
                "Input is not a file"@
            } else {
                "Input file does not exist"@
            };
            &&& to_ziso is Err && to_ziso->Err_0.told() == told
            &&& to_chd is Err && to_chd->Err_0.told() == told
            &&& from_ziso is Err && from_ziso->Err_0.told() == told_of_compressed
            &&& from_chd is Err && from_chd->Err_0.told() == told_of_compressed
        }),
{
}

/// An extraction goes on to read what it found and to write where it was told to: the
/// file of the archive that it reads is settled when its files are listed, how long the
/// image is when it is measured, and where it is written at the start; how far it has come
/// changes only when a chunk has been written, and by as many bytes as that has.
pub proof fn law_an_extraction_keeps_what_is_settled(
    state: ExtractionView,
    event: ExtractEvent,
    next: ExtractionView,
    action: ExtractAction,
)
    requires
        state.follows(event, next, action),
    ensures
        next.output == state.output,
        next.step == state.step,
        event !is Listed ==> next.inner == state.inner,
        event !is Sized ==> next.size == state.size,
        event matches ExtractEvent::Sized(Some(size)) ==> next.size == size && next.offset == 0,
        !(event is Sized || event is Written) ==> next.offset == state.offset,
        event matches ExtractEvent::Written(outcome) ==> next.offset == state.offset + (
        match state.chunk() {
            Some(chunk) => if outcome is Ok {
                chunk.len as int
            } else {
                0
            },
            None => 0,
        }),
{
}

} // verus!
