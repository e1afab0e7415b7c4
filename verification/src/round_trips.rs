//! What converting an image and serving or extracting the result come to
//! together.

use crate::chd_cache::ChdView;
use crate::convert::{
    bytes_in, chunk_after, extracted, extraction_start, is_start,
    law_each_chunk_of_a_chd_is_read_whole, law_extracting_gives_the_image,
    lemma_extensions_are_small_letters, CHD_CHUNK_SIZE, ConvertJob, ExtractAction, ExtractEvent,
    ExtractionView, ZISO_CHUNK_SIZE,
};
use crate::errors::ConvertError;
use crate::iso::IsoEntryView;
use crate::naming::{
    in_one_case, law_a_converted_image_has_the_new_extension,
    law_converting_back_restores_the_path,
};
use crate::path_facts::{law_a_dotted_path_has_its_extension, law_a_portable_path_has_its_name};
use crate::paths::{
    components, extension_of, extension_or_empty, may_be_extension, may_be_file_name, plain,
    portable,
};
use crate::scan::{
    first_iso, found_paths, is_image_extension, kind_of, law_an_image_is_found_by_its_name,
    law_image_extensions_tell_the_kind, law_no_path_is_listed_twice, lemma_an_image_is_listed,
    lemma_first_scan_takes_images, lemma_kept_is_chosen, listed, may_be_new_image, may_choose,
    selection, view_paths, Finding, FoundImage, ImageKind,
};
use crate::text::{ascii_lowered, same_but_for_ascii_case, texts};
use vstd::prelude::*;
use vstd::string::*;

verus! {

/// Where a conversion that starts writes.
pub open spec fn output_of(outcome: Result<ConvertJob, ConvertError>) -> Result<
    String,
    ConvertError,
> {
    match outcome {
        Ok(job) => Ok(job.output),
        Err(error) => Err(error),
    }
}

/// A converted image can be converted back to where it came from, if its
/// extension was written in small letters, in capitals, or with a capital in
/// front: to the same path at an ordinary one, and to one with the same
/// components where all platforms agree on the path.
pub proof fn law_a_converted_image_can_be_converted_back(
    path: Seq<char>,
    name: Option<Seq<char>>,
    job: ConvertJob,
    name_there: Option<Seq<char>>,
    back: Result<ConvertJob, ConvertError>,
    target: Seq<char>,
)
    requires
        target == "ziso"@ || target == "chd"@,
        portable(path) || plain(path),
        may_be_file_name(path, name),
        is_start(Ok(job), path, name, true, true, "iso"@, target, false),
        in_one_case(extension_or_empty(name), "iso"@),
        may_be_file_name(job.output@, name_there),
        is_start(back, job.output@, name_there, true, true, target, "iso"@, true),
    ensures
        back is Ok,
        back->Ok_0.input@ == job.output@,
        plain(path) ==> back->Ok_0.output@ == path,
        portable(path) ==> components(back->Ok_0.output@) == components(path),
{
    lemma_extensions_are_small_letters();
    reveal_strlit("iso");
    assert(ascii_lowered("iso"@).len() == ascii_lowered(extension_or_empty(name)).len());
    assert("iso"@.len() == 3);
    assert(extension_of(name->0) is Some);
    law_a_converted_image_has_the_new_extension(path, name, job.output, name_there, target);
    law_converting_back_restores_the_path(
        path,
        name,
        job.output,
        name_there,
        output_of(back),
        "iso"@,
        target,
    );
}

/// If a ZISO holds an image alone, under the name of the file that was packed,
/// extracting it writes that image, byte for byte, to where it came from.
pub proof fn law_a_ziso_gives_the_image_back(
    path: Seq<char>,
    name: Option<Seq<char>>,
    job: ConvertJob,
    name_there: Option<Seq<char>>,
    back: ConvertJob,
    image: Seq<u8>,
    files: Vec<String>,
    listed: ExtractionView,
    sized: ExtractionView,
    first: ExtractAction,
    second: ExtractAction,
)
    requires
        portable(path) || plain(path),
        may_be_file_name(path, name),
        is_start(Ok(job), path, name, true, true, "iso"@, "ziso"@, false),
        in_one_case(extension_or_empty(name), "iso"@),
        may_be_file_name(job.output@, name_there),
        is_start(Ok(back), job.output@, name_there, true, true, "ziso"@, "iso"@, true),
        image.len() <= u64::MAX,
        files@.len() == 1,
        files@[0]@ == name->0,
        extraction_start(back.output@, ZISO_CHUNK_SIZE).follows(
            ExtractEvent::Listed(files),
            listed,
            first,
        ),
        listed.follows(ExtractEvent::Sized(Some(image.len() as u64)), sized, second),
    ensures
        plain(path) ==> sized.output == path,
        portable(path) ==> components(sized.output) == components(path),
        first == ExtractAction::Measure,
        sized.inner == name->0,
        second == ExtractAction::CheckOutput,
        sized.size == image.len(),
        extracted(image, sized.step, sized.offset) == image,
{
    law_a_converted_image_can_be_converted_back(path, name, job, name_there, Ok(back), "ziso"@);
    law_an_image_is_found_by_its_name(name->0);
    assert(texts(files@)[0] == name->0);
    law_extracting_gives_the_image(image, ZISO_CHUNK_SIZE);
}

/// If a CHD decompresses to an image, extracting it writes that image, byte for
/// byte, to where it came from, whatever hunks are at hand when a chunk is read.
pub proof fn law_a_chd_gives_the_image_back(
    path: Seq<char>,
    name: Option<Seq<char>>,
    job: ConvertJob,
    name_there: Option<Seq<char>>,
    back: ConvertJob,
    image: Seq<u8>,
    sized: ExtractionView,
    action: ExtractAction,
)
    requires
        portable(path) || plain(path),
        may_be_file_name(path, name),
        is_start(Ok(job), path, name, true, true, "iso"@, "chd"@, false),
        in_one_case(extension_or_empty(name), "iso"@),
        may_be_file_name(job.output@, name_there),
        is_start(Ok(back), job.output@, name_there, true, true, "chd"@, "iso"@, true),
        image.len() <= u64::MAX,
        extraction_start(back.output@, CHD_CHUNK_SIZE).follows(
            ExtractEvent::Sized(Some(image.len() as u64)),
            sized,
            action,
        ),
    ensures
        plain(path) ==> sized.output == path,
        portable(path) ==> components(sized.output) == components(path),
        action == ExtractAction::CheckOutput,
        sized.size == image.len(),
        extracted(image, sized.step, sized.offset) == image,
        forall|state: ChdView, offset: u64|
            #![trigger chunk_after(image.len() as u64, sized.step, offset), state.holds(image)]
            state.wf() && state.holds(image) ==> match chunk_after(
                image.len() as u64,
                sized.step,
                offset,
            ) {
                Some(chunk) => state.read_through(
                    image,
                    chunk.offset as nat,
                    chunk.len as nat,
                    Seq::empty(),
                ) == bytes_in(image, chunk),
                None => true,
            },
{
    law_a_converted_image_can_be_converted_back(path, name, job, name_there, Ok(back), "chd"@);
    law_extracting_gives_the_image(image, CHD_CHUNK_SIZE);
    assert forall|state: ChdView, offset: u64|
        #![trigger chunk_after(image.len() as u64, sized.step, offset), state.holds(image)]
        state.wf() && state.holds(image) implies match chunk_after(
        image.len() as u64,
        sized.step,
        offset,
    ) {
        Some(chunk) => state.read_through(
            image,
            chunk.offset as nat,
            chunk.len as nat,
            Seq::empty(),
        ) == bytes_in(image, chunk),
        None => true,
    } by {
        if chunk_after(image.len() as u64, sized.step, offset) is Some {
            law_each_chunk_of_a_chd_is_read_whole(state, image, sized.step, offset);
        }
    }
}

/// An image and the ZISO that it was converted to are both listed by a scan of
/// their directory, each once and with the same number of sectors, if the archive
/// holds an image as long as the one that was packed, under its name. The ZISO is
/// looked into as one, that image is found in it, and its data starts at 0. All
/// platforms are to agree on the path of the image, or it is to be ordinary.
pub proof fn law_a_converted_image_is_listed_beside_its_source(
    path: Seq<char>,
    name: Option<Seq<char>>,
    job: ConvertJob,
    files: Seq<Seq<char>>,
    keep: Seq<bool>,
    found: Seq<FoundImage>,
    names: Seq<Option<Seq<char>>>,
    start: u64,
    size: u64,
)
    requires
        portable(path) || plain(path),
        may_be_file_name(path, name),
        is_start(Ok(job), path, name, true, true, "iso"@, "ziso"@, false),
        files.no_duplicates(),
        files.contains(path),
        files.contains(job.output@),
        may_choose(Seq::empty(), files, keep),
        found_paths(found) == selection(files, keep),
        names.len() == found.len(),
        forall|i: int|
            0 <= i < found.len() && (#[trigger] found[i]).path@ == path ==> found[i].finding
                == (Finding::Iso { data_start: Some(start), file_size: size }),
        forall|i: int|
            0 <= i < found.len() && (#[trigger] found[i]).path@ == job.output@ ==> found[i].finding
                == Finding::Ziso(Some(size)),
    ensures
        job.output@ != path,
        first_iso(seq![name->0]) == Some(0int),
        view_paths(listed(found, names)).no_duplicates(),
        exists|i: int|
            0 <= i < listed(found, names).len() && {
                let entry = #[trigger] listed(found, names)[i];
                entry.path == path && entry.data_start == start && entry.sector_count == size / 2048
            },
        exists|i: int|
            0 <= i < listed(found, names).len() && {
                let entry = #[trigger] listed(found, names)[i];
                entry.path == job.output@ && entry.data_start == 0 && entry.sector_count == size
                    / 2048
            },
        forall|extension: Seq<char>| #[trigger]
            may_be_extension(job.output@, extension) ==> kind_of(extension) == ImageKind::Ziso,
{
    lemma_extensions_are_small_letters();
    let output = job.output@;
    reveal_strlit("iso");
    assert(ascii_lowered("iso"@).len() == ascii_lowered(extension_or_empty(name)).len());
    assert(extension_of(name->0) is Some);
    law_an_image_is_found_by_its_name(name->0);
    assert forall|other: Option<Seq<char>>| #[trigger] may_be_file_name(path, other) implies
        is_image_extension(extension_or_empty(other)) by {
        if plain(path) {
            law_a_dotted_path_has_its_extension(path, name);
            law_a_dotted_path_has_its_extension(path, other);
        } else {
            law_a_portable_path_has_its_name(path, name);
            law_a_portable_path_has_its_name(path, other);
        }
    }
    assert forall|there: Option<Seq<char>>| #[trigger] may_be_file_name(output, there) implies
        same_but_for_ascii_case(extension_or_empty(there), "ziso"@) by {
        law_a_converted_image_has_the_new_extension(path, name, job.output, there, "ziso"@);
    }
    assert forall|extension: Seq<char>| #[trigger]
        may_be_extension(output, extension) implies kind_of(extension) == ImageKind::Ziso by {
        let there = choose|there: Option<Seq<char>>| #[trigger]
            may_be_file_name(output, there) && extension == extension_or_empty(there);
        law_image_extensions_tell_the_kind(extension);
    }
    let at = lemma_an_image_is_taken(path, files, keep, found);
    lemma_an_image_is_listed(found, names, at);
    let there = lemma_an_image_is_taken(output, files, keep, found);
    lemma_an_image_is_listed(found, names, there);
    let none = Seq::<IsoEntryView>::empty();
    assert(view_paths(none) =~= Seq::empty());
    law_no_path_is_listed_twice(none, files, keep, found, names);
    assert(none + listed(found, names) =~= listed(found, names));
}

/// A first scan looks into a file that has the extension of an image on every
/// platform.
proof fn lemma_an_image_is_taken(
    path: Seq<char>,
    files: Seq<Seq<char>>,
    keep: Seq<bool>,
    found: Seq<FoundImage>,
) -> (at: int)
    requires
        forall|name: Option<Seq<char>>| #[trigger]
            may_be_file_name(path, name) ==> is_image_extension(extension_or_empty(name)),
        files.contains(path),
        may_choose(Seq::empty(), files, keep),
        found_paths(found) == selection(files, keep),
    ensures
        0 <= at < found.len(),
        found[at].path@ == path,
{
    let k = choose|k: int| 0 <= k < files.len() && files[k] == path;
    assert(may_be_new_image(Seq::empty(), files[k], keep[k]));
    lemma_first_scan_takes_images(path, keep[k]);
    lemma_kept_is_chosen(files, keep, k);
    let at = choose|at: int| 0 <= at < found.len() && found_paths(found)[at] == path;
    assert(found_paths(found)[at] == found[at].path@);
    at
}

} // verus!
