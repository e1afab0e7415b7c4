//! Which images the server offers: what a directory scan keeps and adds.
//!
//! Walking the directory and looking into the files is done by the caller,
//! which reports what it found.

use crate::chd_cache::chd_opened;
use crate::iso::{
    entries_view, get_data_start, marked_at, next_probe, partition_start, xgd_magic, IsoEntry,
    IsoEntryView, LAYOUTS, ProbeStep, SECTOR_SIZE,
};
use crate::path_facts::{
    law_a_file_is_called_what_stands_behind_its_directory, law_a_portable_path_has_its_name,
    law_an_ordinary_path_has_its_extension, law_portable_paths_are_compared_by_components,
    lemma_last_dot_is_a_dot, lemma_last_dot_is_inside, lemma_name_without_dot,
    lemma_separator_behind_last_dot,
};
use crate::paths::{
    components, extension_or_empty, file_name, file_name_of, is_name, is_separator, last_dot,
    last_part, may_be_extension, may_be_file_name, may_be_same, path_extension, plain, portable,
    same_path,
};
use crate::text::{
    ascii_lower, ascii_lowered, ends_with, eq_ignore_ascii_case, lemma_lowered_end, lowered,
    same_but_for_ascii_case, same_text, text_of, texts, to_lowercase,
};
use vstd::prelude::*;
use vstd::string::*;
use vstd::utf8::is_ascii_chars;

verus! {

/// How an image is stored.
#[derive(Clone, Copy, PartialEq, Eq, Structural, Debug)]
pub enum ImageKind {
    /// As it is.
    Iso,
    /// Alone in a ZArchive.
    Ziso,
    /// As a CHD.
    Chd,
}

/// How a file with this extension is taken to store an image.
pub open spec fn kind_of(extension: Seq<char>) -> ImageKind {
    if lowered(extension) == "ziso"@ {
        ImageKind::Ziso
    } else if lowered(extension) == "chd"@ {
        ImageKind::Chd
    } else {
        ImageKind::Iso
    }
}

/// A file with this extension is an image.
pub open spec fn is_image_extension(extension: Seq<char>) -> bool {
    ||| same_but_for_ascii_case(extension, "iso"@)
    ||| same_but_for_ascii_case(extension, "ziso"@)
    ||| same_but_for_ascii_case(extension, "chd"@)
}

/// How a file with this extension is taken to store an image.
pub fn kind_of_extension(extension: &str) -> (kind: ImageKind)
    ensures
        kind == kind_of(extension@),
{
    let lower: String = to_lowercase(extension);
    if same_text(lower.as_str(), "ziso") {
        ImageKind::Ziso
    } else if same_text(lower.as_str(), "chd") {
        ImageKind::Chd
    } else {
        ImageKind::Iso
    }
}

/// A file with this extension is an image.
pub fn has_image_extension(extension: &str) -> (is: bool)
    ensures
        is == is_image_extension(extension@),
{
    eq_ignore_ascii_case(extension, "iso") || eq_ignore_ascii_case(extension, "ziso")
        || eq_ignore_ascii_case(extension, "chd")
}

/// `kind` may be how the file at `path` is taken to store an image.
pub open spec fn may_be_kind(path: Seq<char>, kind: ImageKind) -> bool {
    exists|extension: Seq<char>| #[trigger]
        may_be_extension(path, extension) && kind == kind_of(extension)
}

/// How the file at `path` is taken to store an image.
///
/// What the file name of a path is depends on the platform.
pub fn image_kind(path: &str) -> (kind: ImageKind)
    ensures
        may_be_kind(path@, kind),
{
    let extension: String = path_extension(path);
    kind_of_extension(extension.as_str())
}

/// The pattern for everything in `directory`, or, if `recursive`, in it and in
/// all directories below it.
pub open spec fn pattern_for(
    directory: Seq<char>,
    separator: Seq<char>,
    recursive: bool,
) -> Seq<char> {
    if recursive {
        directory + separator + "**"@ + separator + "*"@
    } else {
        directory + separator + "*"@
    }
}

/// A scan looks at all that stands in the directory, and a recursive one at all that
/// stands in what `**` stands for there.
pub proof fn law_a_recursive_scan_goes_through_all_directories(
    directory: Seq<char>,
    separator: Seq<char>,
)
    ensures
        pattern_for(directory, separator, false) == directory + separator + seq!['*'],
        pattern_for(directory, separator, true) == pattern_for(
            directory + separator + seq!['*', '*'],
            separator,
            false,
        ),
{
    reveal_strlit("*");
    reveal_strlit("**");
    assert("*"@ =~= seq!['*']);
    assert("**"@ =~= seq!['*', '*']);
}

/// The pattern for everything in `directory`, or, if `recursive`, in it and in
/// all directories below it.
pub fn glob_pattern(directory: &str, separator: &str, recursive: bool) -> (pattern: String)
    ensures
        pattern@ == pattern_for(directory@, separator@, recursive),
{
    let mut pattern: String = directory.to_owned();
    pattern.append(separator);
    if recursive {
        pattern.append("**");
        pattern.append(separator);
    }
    pattern.append("*");
    pattern
}

/// `all` without the items that are not to be kept.
pub open spec fn selection<A>(all: Seq<A>, keep: Seq<bool>) -> Seq<A>
    decreases all.len(),
{
    if all.len() == 0 || keep.len() != all.len() {
        Seq::empty()
    } else if keep.last() {
        selection(all.drop_last(), keep.drop_last()).push(all.last())
    } else {
        selection(all.drop_last(), keep.drop_last())
    }
}

/// The images of an earlier scan whose files are still there, in their order.
pub fn retain_existing(old_entries: &Vec<IsoEntry>, exists: &Vec<bool>) -> (kept: Vec<IsoEntry>)
    requires
        exists@.len() == old_entries@.len(),
    ensures
        kept@ == selection(old_entries@, exists@),
{
    let mut kept: Vec<IsoEntry> = Vec::new();
    let mut i: usize = 0;
    while i < old_entries.len()
        invariant
            i <= old_entries@.len(),
            exists@.len() == old_entries@.len(),
            kept@ == selection(old_entries@.take(i as int), exists@.take(i as int)),
        decreases old_entries@.len() - i,
    {
        assert(old_entries@.take(i + 1).drop_last() =~= old_entries@.take(i as int));
        assert(exists@.take(i + 1).drop_last() =~= exists@.take(i as int));
        if exists[i] {
            kept.push(old_entries[i].clone());
        }
        i += 1;
    }
    assert(old_entries@.take(i as int) =~= old_entries@);
    assert(exists@.take(i as int) =~= exists@);
    kept
}

/// The paths of a list of images.
pub open spec fn paths_of(entries: Seq<IsoEntry>) -> Seq<Seq<char>> {
    entries.map_values(|entry: IsoEntry| entry.path@)
}

/// What may be the outcome of looking for `path` among `known`: each of these is
/// compared with it.
pub open spec fn may_be_known(known: Seq<Seq<char>>, path: Seq<char>, found: bool) -> bool {
    exists|same: Seq<bool>| #[trigger]
        may_compare(known, path, same) && found == same.contains(true)
}

/// `same` may be the outcomes of comparing each of `known` with `path`.
pub open spec fn may_compare(known: Seq<Seq<char>>, path: Seq<char>, same: Seq<bool>) -> bool {
    &&& same.len() == known.len()
    &&& forall|i: int| 0 <= i < known.len() ==> may_be_same(known[i], path, #[trigger] same[i])
}

/// `wanted` may be whether the file at `path` is a new image: it has the
/// extension of one, and its path is not among `known`.
pub open spec fn may_be_new_image(known: Seq<Seq<char>>, path: Seq<char>, wanted: bool) -> bool {
    exists|found: bool, extension: Seq<char>| #[trigger]
        may_be_known(known, path, found) && #[trigger] may_be_extension(path, extension) && wanted
            == (!found && is_image_extension(extension))
}

/// The path of one of `entries` is `path`.
fn is_known(entries: &Vec<IsoEntry>, path: &str) -> (found: bool)
    ensures
        may_be_known(paths_of(entries@), path@, found),
{
    let ghost mut same: Seq<bool> = Seq::empty();
    let mut found: bool = false;
    let mut i: usize = 0;
    while i < entries.len()
        invariant
            i <= entries@.len(),
            same.len() == i,
            forall|k: int|
                0 <= k < i ==> may_be_same(paths_of(entries@)[k], path@, #[trigger] same[k]),
            found == same.contains(true),
        decreases entries@.len() - i,
    {
        let this: bool = same_path(entries[i].path.as_str(), path);
        proof {
            let before = same;
            same = same.push(this);
            assert(this ==> same[i as int]);
            if before.contains(true) {
                let k = choose|k: int| 0 <= k < before.len() && before[k] == true;
                assert(same[k] == true);
            }
            if same.contains(true) && !this {
                let k = choose|k: int| 0 <= k < same.len() && same[k] == true;
                assert(before[k] == true);
            }
        }
        found = found || this;
        i += 1;
    }
    assert(may_compare(paths_of(entries@), path@, same));
    found
}

/// The file at `path` is an image that is not among `entries`.
///
/// What the file name of a path is, and when two paths are the same, depends on
/// the platform; [`law_portable_paths_decide`] says what follows where all
/// platforms agree.
pub fn is_new_image(entries: &Vec<IsoEntry>, path: &str) -> (wanted: bool)
    ensures
        may_be_new_image(paths_of(entries@), path@, wanted),
{
    let found: bool = is_known(entries, path);
    let extension: String = path_extension(path);
    let wanted: bool = !found && has_image_extension(extension.as_str());
    assert(may_be_known(paths_of(entries@), path@, found) && may_be_extension(path@, extension@));
    wanted
}

/// `keep` may be which of `files` are new images.
pub open spec fn may_choose(
    known: Seq<Seq<char>>,
    files: Seq<Seq<char>>,
    keep: Seq<bool>,
) -> bool {
    &&& keep.len() == files.len()
    &&& forall|i: int|
        0 <= i < files.len() ==> may_be_new_image(known, files[i], #[trigger] keep[i])
}

/// `chosen` may be the new images among `files`, in their order.
pub open spec fn may_be_chosen(
    known: Seq<Seq<char>>,
    files: Seq<String>,
    chosen: Seq<String>,
) -> bool {
    exists|keep: Seq<bool>| #[trigger]
        may_choose(known, texts(files), keep) && chosen == selection(files, keep)
}

/// The images among `files` that are not among `entries`, in their order.
pub fn new_image_paths(entries: &Vec<IsoEntry>, files: &Vec<String>) -> (chosen: Vec<String>)
    ensures
        may_be_chosen(paths_of(entries@), files@, chosen@),
{
    let ghost mut keep: Seq<bool> = Seq::empty();
    let mut chosen: Vec<String> = Vec::new();
    let mut i: usize = 0;
    while i < files.len()
        invariant
            i <= files@.len(),
            keep.len() == i,
            forall|k: int|
                0 <= k < i ==> may_be_new_image(
                    paths_of(entries@),
                    texts(files@)[k],
                    #[trigger] keep[k],
                ),
            chosen@ == selection(files@.take(i as int), keep),
        decreases files@.len() - i,
    {
        let wanted: bool = is_new_image(entries, files[i].as_str());
        proof {
            let before = keep;
            keep = keep.push(wanted);
            assert(files@.take(i + 1).drop_last() =~= files@.take(i as int));
            assert(keep.drop_last() =~= before);
        }
        if wanted {
            chosen.push(files[i].clone());
        }
        i += 1;
    }
    assert(files@.take(i as int) =~= files@);
    assert(may_choose(paths_of(entries@), texts(files@), keep));
    chosen
}

/// A file of an archive is a disc image by its name.
pub open spec fn is_iso_name(name: Seq<char>) -> bool {
    ".iso"@.is_suffix_of(lowered(name))
}

/// Which of the files of an archive is its disc image: the first that is one by
/// its name.
pub open spec fn first_iso(files: Seq<Seq<char>>) -> Option<int>
    decreases files.len(),
{
    if files.len() == 0 {
        None
    } else if is_iso_name(files[0]) {
        Some(0)
    } else {
        match first_iso(files.skip(1)) {
            Some(at) => Some(at + 1),
            None => None,
        }
    }
}

proof fn lemma_first_iso(files: Seq<Seq<char>>, at: int)
    requires
        0 <= at <= files.len(),
        forall|k: int| 0 <= k < at ==> !is_iso_name(#[trigger] files[k]),
        at < files.len() ==> is_iso_name(files[at]),
    ensures
        first_iso(files) == (if at < files.len() {
            Some(at)
        } else {
            None
        }),
    decreases files.len(),
{
    if files.len() > 0 && at > 0 {
        assert(!is_iso_name(files[0]));
        assert forall|k: int| 0 <= k < at - 1 implies !is_iso_name(#[trigger] files.skip(1)[k]) by {
            assert(!is_iso_name(files[k + 1]));
        }
        lemma_first_iso(files.skip(1), at - 1);
    }
}

/// The disc image of an archive is the first of its files whose name ends in
/// `.iso` in lowercase; where no name does, it has none.
pub proof fn law_the_first_image_of_an_archive_is_found(files: Seq<Seq<char>>)
    ensures
        match first_iso(files) {
            Some(at) => {
                &&& 0 <= at < files.len()
                &&& ".iso"@.is_suffix_of(lowered(files[at]))
                &&& forall|k: int|
                    0 <= k < at ==> !".iso"@.is_suffix_of(lowered(#[trigger] files[k]))
            },
            None => forall|k: int|
                0 <= k < files.len() ==> !".iso"@.is_suffix_of(lowered(#[trigger] files[k])),
        },
    decreases files.len(),
{
    if files.len() > 0 && !is_iso_name(files[0]) {
        let rest = files.skip(1);
        law_the_first_image_of_an_archive_is_found(rest);
        let until = match first_iso(rest) {
            Some(at) => at,
            None => rest.len() as int,
        };
        assert forall|k: int| 0 <= k < until + 1 implies !".iso"@.is_suffix_of(
            lowered(#[trigger] files[k]),
        ) by {
            if k > 0 {
                assert(rest[k - 1] == files[k]);
            }
        }
    }
}

/// Which of the files of an archive is its disc image.
pub fn find_inner_iso(files: &Vec<String>) -> (inner: Option<usize>)
    ensures
        match inner {
            Some(inner) => inner < files@.len() && first_iso(texts(files@)) == Some(inner as int),
            None => first_iso(texts(files@)) is None,
        },
{
    let mut i: usize = 0;
    while i < files.len()
        invariant
            i <= files@.len(),
            forall|k: int| 0 <= k < i ==> !is_iso_name(#[trigger] texts(files@)[k]),
        decreases files@.len() - i,
    {
        let lower: String = to_lowercase(files[i].as_str());
        if ends_with(lower.as_str(), ".iso") {
            proof {
                lemma_first_iso(texts(files@), i as int);
            }
            return Some(i);
        }
        i += 1;
    }
    proof {
        lemma_first_iso(texts(files@), i as int);
    }
    None
}

/// The size of a CHD image and of its hunks, from its header.
pub open spec fn chd_sizes(hunk_size: nat, hunk_count: nat) -> (nat, nat) {
    (hunk_size * hunk_count, hunk_size)
}

/// A CHD is listed with the size that it has when it is read: that of all its hunks.
pub proof fn law_a_chd_is_listed_with_the_size_it_is_read_with(
    path: Seq<char>,
    hunk_size: nat,
    hunk_count: nat,
)
    ensures
        chd_sizes(hunk_size, hunk_count).0 == hunk_size * hunk_count,
        chd_sizes(hunk_size, hunk_count).0 == chd_opened(
            path,
            hunk_size,
            hunk_count,
        ).logical_size(),
        chd_sizes(hunk_size, hunk_count).1 == hunk_size,
        chd_sizes(hunk_size, hunk_count).1 == chd_opened(path, hunk_size, hunk_count).hunk_size,
{
}

/// The size of a CHD image and of its hunks, from its header.
pub fn probe_chd_sync(hunk_size: u32, hunk_count: u32) -> (sizes: (u64, u64))
    ensures
        (sizes.0 as nat, sizes.1 as nat) == chd_sizes(hunk_size as nat, hunk_count as nat),
{
    assert(hunk_size * hunk_count <= u32::MAX * u32::MAX) by (nonlinear_arith)
        requires
            hunk_size <= u32::MAX,
            hunk_count <= u32::MAX,
    ;
    let sizes: (u64, u64) = (hunk_size as u64 * hunk_count as u64, hunk_size as u64);
    sizes
}

/// What a look into a file gave.
#[derive(Debug)]
pub enum Finding {
    /// An uncompressed image of `file_size` bytes; where its game partition
    /// starts, if it could be read.
    Iso { data_start: Option<u64>, file_size: u64 },
    /// A ZArchive; the size of the disc image in it, if it could be read and
    /// has one.
    Ziso(Option<u64>),
    /// A CHD; the size of its hunks and how many it has, if it could be read.
    Chd(Option<(u32, u32)>),
}

/// A new file, and what a look into it gave.
#[derive(Debug)]
pub struct FoundImage {
    pub path: String,
    pub finding: Finding,
}

impl Finding {
    /// Where the game partition starts and how many bytes the image has; nothing
    /// where the file is no image after all.
    pub open spec fn extent(self) -> Option<(u64, int)> {
        match self {
            Finding::Iso { data_start: Some(data_start), file_size } => Some(
                (data_start, file_size as int),
            ),
            Finding::Ziso(Some(size)) => Some((0, size as int)),
            Finding::Chd(Some(geometry)) => Some((0, geometry.0 * geometry.1)),
            _ => None,
        }
    }
}

/// What came of a step of a look into a file.
#[derive(Debug)]
pub enum LookEvent {
    /// Nothing has been done yet.
    Begin,
    /// The files in the archive, if it could be read.
    Listed(Option<Vec<String>>),
    /// The size of the disc image in the archive, if the archive tells.
    InnerSize(Option<u64>),
    /// The size of the hunks of the CHD and how many it has, if it could be read.
    Header(Option<(u32, u32)>),
    /// The length of the open file, if it could be had.
    Length(Option<u64>),
    /// The bytes where the layout `slot` has its mark in the open file of `len`
    /// bytes, if they could be read.
    Mark { len: u64, slot: usize, bytes: Option<[u8; 20]> },
}

/// The next step of a look into a file.
#[derive(Debug)]
pub enum LookAction {
    /// List the files in the archive.
    List,
    /// Ask for the size of this file of the archive.
    MeasureInner(usize),
    /// Read the header of the CHD.
    ReadHeader,
    /// Open the file and ask for its length.
    Measure,
    /// Read the 20 bytes at `offset`, where the layout `slot` has its mark.
    ReadMark { slot: usize, offset: u64 },
    /// Nothing: this is what the look gave.
    Done(Finding),
}

/// The next step in the search for the game partition of a file of `file_size`
/// bytes.
pub open spec fn after_probe(file_size: u64, step: ProbeStep) -> LookAction {
    match step {
        ProbeStep::Read { slot, offset } => LookAction::ReadMark { slot, offset },
        ProbeStep::Found(start) => LookAction::Done(
            Finding::Iso { data_start: Some(start), file_size },
        ),
    }
}

/// `action` is the next step, after `event`, of a look into a file of `file_size`
/// bytes that stores an image as `kind` says.
pub open spec fn looks(
    kind: ImageKind,
    file_size: u64,
    event: LookEvent,
    action: LookAction,
) -> bool {
    match event {
        LookEvent::Begin => action == (match kind {
            ImageKind::Ziso => LookAction::List,
            ImageKind::Chd => LookAction::ReadHeader,
            ImageKind::Iso => LookAction::Measure,
        }),
        LookEvent::Listed(Some(files)) => match first_iso(texts(files@)) {
            Some(inner) => action matches LookAction::MeasureInner(measured) && measured == inner
                && inner < files@.len(),
            None => action == LookAction::Done(Finding::Ziso(None)),
        },
        LookEvent::Listed(None) => action == LookAction::Done(Finding::Ziso(None)),
        LookEvent::InnerSize(size) => action == LookAction::Done(Finding::Ziso(size)),
        LookEvent::Header(geometry) => action == LookAction::Done(Finding::Chd(geometry)),
        LookEvent::Length(Some(len)) => action == after_probe(file_size, next_probe(len, 0)),
        LookEvent::Mark { len, slot, bytes: Some(bytes) } => action == after_probe(
            file_size,
            if bytes@ == xgd_magic() {
                ProbeStep::Found(partition_start(slot as int))
            } else {
                next_probe(len, slot + 1)
            },
        ),
        LookEvent::Length(None) => action == LookAction::Done(
            Finding::Iso { data_start: None, file_size },
        ),
        LookEvent::Mark { bytes: None, .. } => action == LookAction::Done(
            Finding::Iso { data_start: None, file_size },
        ),
    }
}

/// The next step of a look into a file of `file_size` bytes that stores an image
/// as `kind` says. Of an archive the size of its disc image is wanted, of a CHD
/// its geometry, and of an uncompressed image where its game partition starts;
/// what cannot be read gives nothing.
pub fn look(kind: ImageKind, file_size: u64, event: LookEvent) -> (action: LookAction)
    requires
        event matches LookEvent::Mark { slot, .. } ==> slot < LAYOUTS,
    ensures
        looks(kind, file_size, event, action),
{
    let step: ProbeStep = match event {
        LookEvent::Begin => return match kind {
            ImageKind::Ziso => LookAction::List,
            ImageKind::Chd => LookAction::ReadHeader,
            ImageKind::Iso => LookAction::Measure,
        },
        LookEvent::Listed(Some(files)) => return match find_inner_iso(&files) {
            Some(inner) => LookAction::MeasureInner(inner),
            None => LookAction::Done(Finding::Ziso(None)),
        },
        LookEvent::Listed(None) => return LookAction::Done(Finding::Ziso(None)),
        LookEvent::InnerSize(size) => return LookAction::Done(Finding::Ziso(size)),
        LookEvent::Header(geometry) => return LookAction::Done(Finding::Chd(geometry)),
        LookEvent::Length(Some(len)) => get_data_start(len, None),
        LookEvent::Mark { len, slot, bytes: Some(bytes) } => get_data_start(
            len,
            Some((slot, bytes)),
        ),
        LookEvent::Length(None) => return LookAction::Done(
            Finding::Iso { data_start: None, file_size },
        ),
        LookEvent::Mark { bytes: None, .. } => return LookAction::Done(
            Finding::Iso { data_start: None, file_size },
        ),
    };
    match step {
        ProbeStep::Read { slot, offset } => LookAction::ReadMark { slot, offset },
        ProbeStep::Found(start) => LookAction::Done(
            Finding::Iso { data_start: Some(start), file_size },
        ),
    }
}

/// What the list says of an image named `name` at `path`.
pub open spec fn entry_for(
    path: Seq<char>,
    name: Option<Seq<char>>,
    extent: (u64, int),
) -> IsoEntryView {
    IsoEntryView {
        path,
        filename: match name {
            Some(name) => name,
            None => Seq::empty(),
        },
        data_start: extent.0,
        sector_count: (extent.1 / SECTOR_SIZE as int) as u64,
        has_type1_file: 0,
    }
}

/// What the list says of the images among `found`, if `names` are their names.
pub open spec fn listed(found: Seq<FoundImage>, names: Seq<Option<Seq<char>>>) -> Seq<IsoEntryView>
    decreases found.len(),
{
    if found.len() == 0 || names.len() != found.len() {
        Seq::empty()
    } else {
        let before = listed(found.drop_last(), names.drop_last());
        match found.last().finding.extent() {
            Some(extent) => before.push(entry_for(found.last().path@, names.last(), extent)),
            None => before,
        }
    }
}

/// `names` may be the file names of `found`.
pub open spec fn may_be_names(found: Seq<FoundImage>, names: Seq<Option<Seq<char>>>) -> bool {
    &&& names.len() == found.len()
    &&& forall|i: int|
        0 <= i < found.len() ==> may_be_file_name(found[i].path@, #[trigger] names[i])
}

/// `entries` may be the list of images after a scan: those that were kept, then those
/// of the new files that are images.
pub open spec fn may_be_list(
    kept: Seq<IsoEntry>,
    found: Seq<FoundImage>,
    entries: Seq<IsoEntry>,
) -> bool {
    &&& exists|names: Seq<Option<Seq<char>>>| #[trigger]
        may_be_names(found, names) && entries_view(entries) == entries_view(kept) + listed(
            found,
            names,
        )
    &&& kept.is_prefix_of(entries)
}

/// Why nothing is served: no image was found.
#[derive(Clone, Copy, PartialEq, Eq, Structural, Debug)]
pub struct NothingFound;

impl NothingFound {
    /// What the user is told.
    pub fn text(&self) -> (text: String)
        ensures
            text@ == "No iso files enumerated"@,
    {
        "No iso files enumerated".to_owned()
    }
}

/// `outcome` is whether there is something to serve.
pub open spec fn may_serve(entries: Seq<IsoEntry>, outcome: Result<(), NothingFound>) -> bool {
    outcome is Err <==> entries.len() == 0
}

/// Serving starts only if there is an image to serve.
pub fn check_listing(entries: &Vec<IsoEntry>) -> (outcome: Result<(), NothingFound>)
    ensures
        may_serve(entries@, outcome),
{
    if entries.len() == 0 {
        Err(NothingFound)
    } else {
        Ok(())
    }
}

/// The list of images after a scan: those that were kept, then those of the new
/// files that are images.
pub fn get_iso_files(kept: Vec<IsoEntry>, found: &Vec<FoundImage>) -> (entries: Vec<IsoEntry>)
    ensures
        may_be_list(kept@, found@, entries@),
{
    let ghost mut names: Seq<Option<Seq<char>>> = Seq::empty();
    let ghost first = kept@;
    let mut entries: Vec<IsoEntry> = kept;
    assert(entries_view(first) + listed(found@.take(0), names) =~= entries_view(first));
    let mut i: usize = 0;
    while i < found.len()
        invariant
            i <= found@.len(),
            names.len() == i,
            forall|k: int| 0 <= k < i ==> may_be_file_name(found@[k].path@, #[trigger] names[k]),
            entries_view(entries@) == entries_view(first) + listed(found@.take(i as int), names),
            first.is_prefix_of(entries@),
        decreases found@.len() - i,
    {
        let path: &String = &found[i].path;
        let name: Option<String> = file_name(path.as_str());
        let ghost so_far = names;
        proof {
            names = names.push(text_of(name));
            assert(found@.take(i + 1).drop_last() =~= found@.take(i as int));
            assert(names.drop_last() =~= so_far);
        }
        let extent: Option<(u64, u64)> = match &found[i].finding {
            Finding::Iso { data_start: Some(data_start), file_size } => Some(
                (*data_start, *file_size),
            ),
            Finding::Ziso(Some(size)) => Some((0, *size)),
            Finding::Chd(Some(geometry)) => Some((0, probe_chd_sync(geometry.0, geometry.1).0)),
            _ => None,
        };
        if let Some(extent) = extent {
            let entry: IsoEntry = IsoEntry {
                path: path.clone(),
                filename: match name {
                    Some(name) => name,
                    None => String::new(),
                },
                data_start: extent.0,
                sector_count: extent.1 / SECTOR_SIZE as u64,
                has_type1_file: 0,
            };
            let ghost before = entries@;
            entries.push(entry);
            assert(entries_view(entries@) =~= entries_view(before).push(entry@));
        }
        i += 1;
    }
    assert(found@.take(i as int) =~= found@);
    assert(may_be_names(found@, names));
    entries
}

/// Where all paths read the same on every platform, a file is a new image
/// exactly if it has the extension of one and no known path has its components.
pub proof fn law_portable_paths_decide(known: Seq<Seq<char>>, path: Seq<char>, wanted: bool)
    requires
        portable(path),
        forall|i: int| 0 <= i < known.len() ==> portable(#[trigger] known[i]),
        may_be_new_image(known, path, wanted),
    ensures
        wanted == (is_image_extension(extension_or_empty(file_name_of(path))) && forall|i: int|
            0 <= i < known.len() ==> components(#[trigger] known[i]) != components(path)),
{
    let (found, extension) = choose|found: bool, extension: Seq<char>| #[trigger]
        may_be_known(known, path, found) && #[trigger] may_be_extension(path, extension) && wanted
            == (!found && is_image_extension(extension));
    let name = choose|name: Option<Seq<char>>| #[trigger]
        may_be_file_name(path, name) && extension == extension_or_empty(name);
    law_a_portable_path_has_its_name(path, name);
    let same = choose|same: Seq<bool>| #[trigger]
        may_compare(known, path, same) && found == same.contains(true);
    if found {
        let i = choose|i: int| 0 <= i < same.len() && same[i] == true;
        assert(may_be_same(known[i], path, same[i]));
        law_portable_paths_are_compared_by_components(known[i], path, same[i]);
    } else {
        assert forall|i: int| 0 <= i < known.len() implies components(#[trigger] known[i])
            != components(path) by {
            assert(may_be_same(known[i], path, same[i]));
            law_portable_paths_are_compared_by_components(known[i], path, same[i]);
        }
    }
}

/// Whether `a` and `b` are the same is not left to the platform: all agree on
/// both, or they are no two spellings of one path.
pub open spec fn told_apart(a: Seq<char>, b: Seq<char>) -> bool {
    (portable(a) && portable(b)) || (may_be_same(a, b, true) ==> a == b)
}

/// `a` and `b` are the same on every platform.
pub open spec fn surely_same(a: Seq<char>, b: Seq<char>) -> bool {
    a == b || (portable(a) && portable(b) && components(a) == components(b))
}

/// The file at `path` has the extension of an image on every platform.
pub open spec fn is_surely_image(path: Seq<char>) -> bool {
    forall|extension: Seq<char>| #[trigger]
        may_be_extension(path, extension) ==> is_image_extension(extension)
}

/// The file at `path` has the extension of an image on no platform.
pub open spec fn is_surely_no_image(path: Seq<char>) -> bool {
    forall|extension: Seq<char>| #[trigger]
        may_be_extension(path, extension) ==> !is_image_extension(extension)
}

/// The platform decides nothing about which of `files` are new images: each has
/// the extension of one on all platforms or on none, and if it has, is told
/// apart from each of `known`.
pub open spec fn decided(known: Seq<Seq<char>>, files: Seq<Seq<char>>) -> bool {
    &&& forall|i: int|
        0 <= i < files.len() ==> is_surely_image(#[trigger] files[i]) || is_surely_no_image(
            files[i],
        )
    &&& forall|k: int, i: int|
        0 <= k < known.len() && 0 <= i < files.len() ==> is_surely_no_image(#[trigger] files[i])
            || told_apart(#[trigger] known[k], files[i])
}

/// The file at `path` is an image on every platform, and its path is not among
/// `known`.
pub open spec fn is_new(known: Seq<Seq<char>>, path: Seq<char>) -> bool {
    &&& is_surely_image(path)
    &&& forall|k: int| 0 <= k < known.len() ==> !surely_same(#[trigger] known[k], path)
}

/// A path on which all platforms agree, or that is ordinary, has the extension of
/// an image on all platforms or on none; one that ends in a name without a dot
/// has it on none.
pub proof fn law_the_extension_tells_an_image(path: Seq<char>)
    ensures
        plain(path) ==> if is_image_extension(path.skip(last_dot(path) + 1)) {
            is_surely_image(path)
        } else {
            is_surely_no_image(path)
        },
        portable(path) ==> if is_image_extension(extension_or_empty(file_name_of(path))) {
            is_surely_image(path)
        } else {
            is_surely_no_image(path)
        },
        !(is_surely_image(path) && is_surely_no_image(path)),
        last_part(path).len() > 0 && last_dot(last_part(path)) < 0 ==> is_surely_no_image(path),
{
    assert(may_be_file_name(path, file_name_of(path)));
    assert(may_be_extension(path, extension_or_empty(file_name_of(path))));
    assert forall|extension: Seq<char>| #[trigger] may_be_extension(path, extension) && plain(
        path,
    ) implies extension == path.skip(last_dot(path) + 1) by {
        law_an_ordinary_path_has_its_extension(path, extension);
    }
    assert forall|extension: Seq<char>| #[trigger] may_be_extension(path, extension) && portable(
        path,
    ) implies extension == extension_or_empty(file_name_of(path)) by {
        let name = choose|name: Option<Seq<char>>| #[trigger]
            may_be_file_name(path, name) && extension == extension_or_empty(name);
        law_a_portable_path_has_its_name(path, name);
    }
    if last_part(path).len() > 0 && last_dot(last_part(path)) < 0 {
        assert forall|extension: Seq<char>| #[trigger]
            may_be_extension(path, extension) implies !is_image_extension(extension) by {
            let name = choose|name: Option<Seq<char>>| #[trigger]
                may_be_file_name(path, name) && extension == extension_or_empty(name);
            if let Some(name) = name {
                lemma_name_without_dot(path, name);
                lemma_no_image_without_dot(name);
            } else {
                lemma_no_image_with_separator(extension);
            }
        }
    }
}

/// A text that is empty or holds a separator is no extension of an image.
proof fn lemma_no_image_with_separator(extension: Seq<char>)
    requires
        extension.len() == 0 || extension.contains('/') || extension.contains('\\'),
    ensures
        !is_image_extension(extension),
{
    reveal_strlit("iso");
    reveal_strlit("ziso");
    reveal_strlit("chd");
    let small = ascii_lowered(extension);
    assert(ascii_lowered("iso"@) =~= seq!['i', 's', 'o']);
    assert(ascii_lowered("ziso"@) =~= seq!['z', 'i', 's', 'o']);
    assert(ascii_lowered("chd"@) =~= seq!['c', 'h', 'd']);
    if extension.len() > 0 {
        let i = choose|i: int|
            0 <= i < extension.len() && (extension[i] == '/' || extension[i] == '\\');
        assert(small[i] == extension[i]);
        assert(seq!['i', 's', 'o'].len() == 3 && seq!['z', 'i', 's', 'o'].len() == 4);
    }
}

/// A file whose name ends in no dotted part does not have the extension of an
/// image.
proof fn lemma_no_image_without_dot(name: Seq<char>)
    requires
        last_dot(last_part(name)) < 0,
    ensures
        !is_image_extension(extension_or_empty(Some(name))),
{
    let at = last_dot(name);
    let extension = extension_or_empty(Some(name));
    if at > 0 {
        lemma_separator_behind_last_dot(name);
        let i = choose|i: int| at < i < name.len() && is_separator(#[trigger] name[i]);
        assert(extension[i - at - 1] == name[i]);
    }
    lemma_no_image_with_separator(extension);
}

/// Where nothing is left to the platform, a file is taken for a new image exactly
/// if it has the extension of one and its path is not known.
pub proof fn law_paths_that_are_told_apart_decide(
    known: Seq<Seq<char>>,
    files: Seq<Seq<char>>,
    keep: Seq<bool>,
)
    requires
        decided(known, files),
        may_choose(known, files, keep),
    ensures
        keep == Seq::new(files.len(), |i: int| is_new(known, files[i])),
{
    assert forall|i: int| 0 <= i < files.len() implies #[trigger] keep[i] == is_new(
        known,
        files[i],
    ) by {
        let path = files[i];
        assert(may_be_new_image(known, path, keep[i]));
        let (found, extension) = choose|found: bool, extension: Seq<char>| #[trigger]
            may_be_known(known, path, found) && #[trigger] may_be_extension(path, extension)
                && keep[i] == (!found && is_image_extension(extension));
        law_the_extension_tells_an_image(path);
        let same = choose|same: Seq<bool>| #[trigger]
            may_compare(known, path, same) && found == same.contains(true);
        assert forall|k: int| 0 <= k < known.len() && is_surely_image(
            path,
        ) implies #[trigger] same[k] == surely_same(known[k], path) by {
            assert(may_be_same(known[k], path, same[k]));
            assert(is_surely_no_image(files[i]) || told_apart(known[k], files[i]));
            if portable(known[k]) && portable(path) {
                law_portable_paths_are_compared_by_components(known[k], path, same[k]);
            }
        }
        if found {
            let k = choose|k: int| 0 <= k < same.len() && same[k] == true;
            assert(is_surely_image(path) ==> surely_same(known[k], path));
        } else if is_surely_image(path) {
            assert forall|k: int| 0 <= k < known.len() implies !surely_same(
                #[trigger] known[k],
                path,
            ) by {
                assert(!same[k]);
            }
        }
    }
    assert(keep =~= Seq::new(files.len(), |i: int| is_new(known, files[i])));
}

/// A path that is known is not taken for a new image.
proof fn lemma_known_is_not_new(known: Seq<Seq<char>>, path: Seq<char>, wanted: bool)
    requires
        known.contains(path),
        may_be_new_image(known, path, wanted),
    ensures
        !wanted,
{
    let (found, extension) = choose|found: bool, extension: Seq<char>| #[trigger]
        may_be_known(known, path, found) && #[trigger] may_be_extension(path, extension) && wanted
            == (!found && is_image_extension(extension));
    let same = choose|same: Seq<bool>| #[trigger]
        may_compare(known, path, same) && found == same.contains(true);
    let i = choose|i: int| 0 <= i < known.len() && known[i] == path;
    assert(may_be_same(known[i], path, same[i]));
    assert(same.contains(true));
}

/// The paths that a list of images says.
pub open spec fn view_paths(entries: Seq<IsoEntryView>) -> Seq<Seq<char>> {
    entries.map_values(|entry: IsoEntryView| entry.path)
}

/// The paths of new files.
pub open spec fn found_paths(found: Seq<FoundImage>) -> Seq<Seq<char>> {
    found.map_values(|image: FoundImage| image.path@)
}

/// Which of new files are images.
pub open spec fn are_images(found: Seq<FoundImage>) -> Seq<bool> {
    found.map_values(|image: FoundImage| image.finding.extent() is Some)
}

/// The components of each path.
pub open spec fn components_of(paths: Seq<Seq<char>>) -> Seq<Seq<Seq<char>>> {
    paths.map_values(|path: Seq<char>| components(path))
}

/// All of `paths` read the same on every platform.
pub open spec fn all_portable(paths: Seq<Seq<char>>) -> bool {
    forall|i: int| 0 <= i < paths.len() ==> portable(#[trigger] paths[i])
}

/// The paths that are listed are those of the files that are images.
proof fn lemma_listed_paths(found: Seq<FoundImage>, names: Seq<Option<Seq<char>>>)
    requires
        names.len() == found.len(),
    ensures
        view_paths(listed(found, names)) == selection(found_paths(found), are_images(found)),
    decreases found.len(),
{
    if found.len() > 0 {
        lemma_listed_paths(found.drop_last(), names.drop_last());
        assert(found_paths(found).drop_last() =~= found_paths(found.drop_last()));
        assert(are_images(found).drop_last() =~= are_images(found.drop_last()));
        let before = listed(found.drop_last(), names.drop_last());
        if found.last().finding.extent() is Some {
            let entry = entry_for(
                found.last().path@,
                names.last(),
                found.last().finding.extent()->0,
            );
            assert(view_paths(before.push(entry)) =~= view_paths(before).push(entry.path));
        }
    } else {
        assert(view_paths(listed(found, names)) =~= Seq::empty());
    }
}

/// A part of what does not repeat does not repeat.
proof fn lemma_part_does_not_repeat<A>(first: Seq<A>, all: Seq<A>, keep: Seq<bool>)
    requires
        (first + all).no_duplicates(),
    ensures
        (first + selection(all, keep)).no_duplicates(),
    decreases all.len(),
{
    if all.len() == 0 || keep.len() != all.len() {
        assert(first + selection(all, keep) =~= first);
        assert forall|i: int, j: int|
            0 <= i < first.len() && 0 <= j < first.len() && i != j implies first[i] != first[j] by {
            assert((first + all)[i] == first[i] && (first + all)[j] == first[j]);
        }
    } else {
        let fewer = all.drop_last();
        let last = all.last();
        let chosen = selection(fewer, keep.drop_last());
        assert((first + fewer).no_duplicates()) by {
            assert forall|i: int, j: int|
                0 <= i < (first + fewer).len() && 0 <= j < (first + fewer).len() && i
                    != j implies (first + fewer)[i] != (first + fewer)[j] by {
                assert((first + all)[i] == (first + fewer)[i]);
                assert((first + all)[j] == (first + fewer)[j]);
            }
        }
        lemma_part_does_not_repeat(first, fewer, keep.drop_last());
        if keep.last() {
            lemma_selection_is_part(fewer, keep.drop_last(), last);
            let end = (first + all).len() - 1;
            assert((first + all)[end] == last);
            assert(!(first + chosen).contains(last)) by {
                if (first + chosen).contains(last) {
                    let i = choose|i: int|
                        0 <= i < (first + chosen).len() && (first + chosen)[i] == last;
                    if i < first.len() {
                        assert((first + all)[i] == last);
                    } else {
                        assert(chosen[i - first.len()] == last);
                        let k = choose|k: int| 0 <= k < fewer.len() && fewer[k] == last;
                        assert((first + all)[first.len() + k] == last);
                    }
                }
            }
            assert(first + chosen.push(last) =~= (first + chosen).push(last));
        }
    }
}

/// Choosing fewer files leaves a choice.
proof fn lemma_choice_of_fewer(known: Seq<Seq<char>>, files: Seq<Seq<char>>, keep: Seq<bool>)
    requires
        may_choose(known, files, keep),
        files.len() > 0,
    ensures
        may_choose(known, files.drop_last(), keep.drop_last()),
        may_be_new_image(known, files.last(), keep.last()),
{
    assert(may_be_new_image(known, files[files.len() - 1], keep[files.len() - 1]));
    assert forall|i: int| 0 <= i < files.drop_last().len() implies may_be_new_image(
        known,
        files.drop_last()[i],
        #[trigger] keep.drop_last()[i],
    ) by {
        assert(may_be_new_image(known, files[i], keep[i]));
    }
}

/// What is chosen repeats nothing and is not known, if `image` tells paths apart
/// by which a known path is recognised.
proof fn lemma_choice_does_not_repeat<A>(
    known: Seq<Seq<char>>,
    files: Seq<Seq<char>>,
    keep: Seq<bool>,
    image: spec_fn(Seq<char>) -> A,
)
    requires
        known.map_values(image).no_duplicates(),
        files.map_values(image).no_duplicates(),
        may_choose(known, files, keep),
        forall|i: int|
            0 <= i < files.len() && keep[i] ==> !known.map_values(image).contains(
                image(#[trigger] files[i]),
            ),
    ensures
        (known + selection(files, keep)).map_values(image).no_duplicates(),
    decreases files.len(),
{
    if files.len() == 0 {
        assert(known + selection(files, keep) =~= known);
    } else {
        let fewer = files.drop_last();
        let last = files.last();
        lemma_choice_of_fewer(known, files, keep);
        assert(fewer.map_values(image).no_duplicates()) by {
            assert forall|i: int, j: int|
                0 <= i < fewer.len() && 0 <= j < fewer.len() && i != j implies fewer.map_values(
                image,
            )[i] != fewer.map_values(image)[j] by {
                assert(files.map_values(image)[i] == fewer.map_values(image)[i]);
                assert(files.map_values(image)[j] == fewer.map_values(image)[j]);
            }
        }
        assert forall|i: int|
            0 <= i < fewer.len() && keep.drop_last()[i] implies !known.map_values(image).contains(
            image(#[trigger] fewer[i]),
        ) by {
            assert(files[i] == fewer[i]);
        }
        lemma_choice_does_not_repeat(known, fewer, keep.drop_last(), image);
        if keep.last() {
            let chosen = selection(fewer, keep.drop_last());
            let before = (known + chosen).map_values(image);
            assert(files[files.len() - 1] == last);
            assert(!known.map_values(image).contains(image(last)));
            assert(!before.contains(image(last))) by {
                if before.contains(image(last)) {
                    let i = choose|i: int| 0 <= i < before.len() && before[i] == image(last);
                    if i < known.len() {
                        assert(known.map_values(image)[i] == image(last));
                    } else {
                        let other = chosen[i - known.len()];
                        assert(chosen.contains(other));
                        lemma_selection_is_part(fewer, keep.drop_last(), other);
                        let k = choose|k: int| 0 <= k < fewer.len() && fewer[k] == other;
                        assert(files.map_values(image)[k] == image(last));
                        assert(files.map_values(image)[files.len() - 1] == image(last));
                    }
                }
            }
            assert((known + chosen.push(last)).map_values(image) =~= before.push(image(last)));
        }
    }
}

/// A scan lists no path twice, if the earlier list did not and the walk through
/// the directory meets no path twice. Where all platforms agree on the paths,
/// neither does it list two paths with the same components.
pub proof fn law_no_path_is_listed_twice(
    entries: Seq<IsoEntryView>,
    files: Seq<Seq<char>>,
    keep: Seq<bool>,
    found: Seq<FoundImage>,
    names: Seq<Option<Seq<char>>>,
)
    requires
        may_choose(view_paths(entries), files, keep),
        found_paths(found) == selection(files, keep),
        names.len() == found.len(),
    ensures
        view_paths(entries).no_duplicates() && files.no_duplicates() ==> view_paths(
            entries + listed(found, names),
        ).no_duplicates(),
        all_portable(view_paths(entries)) && all_portable(files) && components_of(
            view_paths(entries),
        ).no_duplicates() && components_of(files).no_duplicates() ==> components_of(
            view_paths(entries + listed(found, names)),
        ).no_duplicates(),
{
    let known = view_paths(entries);
    let chosen = selection(files, keep);
    let images = are_images(found);
    lemma_listed_paths(found, names);
    assert(view_paths(entries + listed(found, names)) =~= known + selection(chosen, images));
    if known.no_duplicates() && files.no_duplicates() {
        let itself = |path: Seq<char>| path;
        assert(known.map_values(itself) =~= known);
        assert(files.map_values(itself) =~= files);
        assert forall|i: int| 0 <= i < files.len() && keep[i] implies !known.map_values(
            itself,
        ).contains(itself(#[trigger] files[i])) by {
            assert(may_be_new_image(known, files[i], keep[i]));
            if known.contains(files[i]) {
                lemma_known_is_not_new(known, files[i], keep[i]);
            }
        }
        lemma_choice_does_not_repeat(known, files, keep, itself);
        assert((known + chosen).map_values(itself) =~= known + chosen);
        lemma_part_does_not_repeat(known, chosen, images);
    }
    if all_portable(known) && all_portable(files) && components_of(known).no_duplicates()
        && components_of(files).no_duplicates() {
        let image = |path: Seq<char>| components(path);
        assert(known.map_values(image) =~= components_of(known));
        assert(files.map_values(image) =~= components_of(files));
        assert forall|i: int| 0 <= i < files.len() && keep[i] implies !known.map_values(
            image,
        ).contains(image(#[trigger] files[i])) by {
            assert(may_be_new_image(known, files[i], keep[i]));
            law_portable_paths_decide(known, files[i], keep[i]);
        }
        lemma_choice_does_not_repeat(known, files, keep, image);
        lemma_selection_of_map(chosen, images, image);
        assert((known + chosen).map_values(image) =~= components_of(known) + chosen.map_values(
            image,
        ));
        lemma_part_does_not_repeat(components_of(known), chosen.map_values(image), images);
        assert(components_of(known + selection(chosen, images)) =~= components_of(known)
            + selection(chosen.map_values(image), images));
    }
}

/// Choosing and then mapping is mapping and then choosing.
proof fn lemma_selection_of_map<A, B>(all: Seq<A>, keep: Seq<bool>, image: spec_fn(A) -> B)
    ensures
        selection(all.map_values(image), keep) == selection(all, keep).map_values(image),
    decreases all.len(),
{
    if all.len() > 0 && keep.len() == all.len() {
        lemma_selection_of_map(all.drop_last(), keep.drop_last(), image);
        assert(all.map_values(image).drop_last() =~= all.drop_last().map_values(image));
        let before = selection(all.drop_last(), keep.drop_last());
        assert(before.push(all.last()).map_values(image) =~= before.map_values(image).push(
            image(all.last()),
        ));
    } else {
        assert(selection(all.map_values(image), keep) =~= selection(all, keep).map_values(image));
    }
}

/// What is kept of a sequence is chosen.
pub(crate) proof fn lemma_kept_is_chosen<A>(all: Seq<A>, keep: Seq<bool>, at: int)
    requires
        keep.len() == all.len(),
        0 <= at < all.len(),
        keep[at],
    ensures
        selection(all, keep).contains(all[at]),
    decreases all.len(),
{
    let before = selection(all.drop_last(), keep.drop_last());
    let chosen = selection(all, keep);
    if at == all.len() - 1 {
        assert(chosen[before.len() as int] == all[at]);
    } else {
        lemma_kept_is_chosen(all.drop_last(), keep.drop_last(), at);
        let k = choose|k: int| 0 <= k < before.len() && before[k] == all[at];
        assert(chosen[k] == all[at]);
    }
}

/// What is chosen of a sequence was kept.
proof fn lemma_chosen_was_kept<A>(all: Seq<A>, keep: Seq<bool>, item: A) -> (at: int)
    requires
        selection(all, keep).contains(item),
    ensures
        keep.len() == all.len(),
        0 <= at < all.len(),
        keep[at],
        all[at] == item,
    decreases all.len(),
{
    let chosen = selection(all, keep);
    let i = choose|i: int| 0 <= i < chosen.len() && chosen[i] == item;
    let before = selection(all.drop_last(), keep.drop_last());
    if keep.last() && i == before.len() {
        all.len() - 1
    } else {
        assert(before[i] == item);
        lemma_chosen_was_kept(all.drop_last(), keep.drop_last(), item)
    }
}

/// While all files are there, none is dropped from the list.
pub proof fn law_nothing_is_dropped_while_all_is_there<A>(all: Seq<A>, exists: Seq<bool>)
    requires
        exists.len() == all.len(),
        forall|i: int| 0 <= i < exists.len() ==> #[trigger] exists[i],
    ensures
        selection(all, exists) == all,
    decreases all.len(),
{
    if all.len() > 0 {
        assert(exists[exists.len() - 1]);
        assert forall|i: int| 0 <= i < exists.drop_last().len() implies #[trigger]
            exists.drop_last()[i] by {
            assert(exists[i]);
        }
        law_nothing_is_dropped_while_all_is_there(all.drop_last(), exists.drop_last());
        assert(all.drop_last().push(all.last()) =~= all);
    } else {
        assert(selection(all, exists) =~= all);
    }
}

/// A second scan of the same files lists nothing more, if what the first passed
/// over is passed over again and each look gives what it gave before.
pub proof fn law_a_second_look_adds_nothing(
    entries: Seq<IsoEntryView>,
    files: Seq<Seq<char>>,
    keep: Seq<bool>,
    found: Seq<FoundImage>,
    names: Seq<Option<Seq<char>>>,
    keep_again: Seq<bool>,
    found_again: Seq<FoundImage>,
    names_again: Seq<Option<Seq<char>>>,
)
    requires
        keep.len() == files.len(),
        found_paths(found) == selection(files, keep),
        names.len() == found.len(),
        may_choose(view_paths(entries + listed(found, names)), files, keep_again),
        found_paths(found_again) == selection(files, keep_again),
        names_again.len() == found_again.len(),
        forall|i: int| 0 <= i < files.len() && #[trigger] keep_again[i] ==> keep[i],
        forall|i: int, j: int|
            0 <= i < found.len() && 0 <= j < found_again.len() && (#[trigger] found[i]).path@ == (
            #[trigger] found_again[j]).path@ ==> found[i].finding.extent()
                == found_again[j].finding.extent(),
    ensures
        listed(found_again, names_again) == Seq::<IsoEntryView>::empty(),
        entries + listed(found, names) + listed(found_again, names_again) == entries + listed(
            found,
            names,
        ),
{
    let list = entries + listed(found, names);
    let known = view_paths(list);
    lemma_listed_paths(found, names);
    lemma_listed_paths(found_again, names_again);
    let more = listed(found_again, names_again);
    if more.len() > 0 {
        let path = view_paths(more)[0];
        assert(view_paths(more).contains(path));
        let j = lemma_chosen_was_kept(found_paths(found_again), are_images(found_again), path);
        assert(found_paths(found_again)[j] == path);
        assert(selection(files, keep_again).contains(path));
        let at = lemma_chosen_was_kept(files, keep_again, path);
        lemma_kept_is_chosen(files, keep, at);
        let i = choose|i: int| 0 <= i < found.len() && found_paths(found)[i] == path;
        assert(found[i].path@ == found_again[j].path@);
        assert(are_images(found)[i]);
        lemma_kept_is_chosen(found_paths(found), are_images(found), i);
        let k = choose|k: int|
            0 <= k < listed(found, names).len() && view_paths(listed(found, names))[k] == path;
        assert(known[entries.len() + k] == path);
        assert(may_be_new_image(known, files[at], keep_again[at]));
        lemma_known_is_not_new(known, path, true);
    }
    assert(more =~= Seq::empty());
    assert(list + more =~= list);
}

/// Where nothing is left to the platform, a rescan of files that have not changed
/// gives the same list: it adds, drops and reorders nothing.
pub proof fn law_a_rescan_changes_nothing(
    entries: Seq<IsoEntryView>,
    files: Seq<Seq<char>>,
    keep: Seq<bool>,
    found: Seq<FoundImage>,
    names: Seq<Option<Seq<char>>>,
    exists: Seq<bool>,
    keep_again: Seq<bool>,
    found_again: Seq<FoundImage>,
    names_again: Seq<Option<Seq<char>>>,
)
    requires
        decided(view_paths(entries), files),
        decided(files, files),
        may_choose(view_paths(entries), files, keep),
        found_paths(found) == selection(files, keep),
        names.len() == found.len(),
        exists.len() == (entries + listed(found, names)).len(),
        forall|i: int| 0 <= i < exists.len() ==> #[trigger] exists[i],
        may_choose(view_paths(entries + listed(found, names)), files, keep_again),
        found_paths(found_again) == selection(files, keep_again),
        names_again.len() == found_again.len(),
        forall|i: int, j: int|
            0 <= i < found.len() && 0 <= j < found_again.len() && (#[trigger] found[i]).path@ == (
            #[trigger] found_again[j]).path@ ==> found[i].finding.extent()
                == found_again[j].finding.extent(),
    ensures
        selection(entries + listed(found, names), exists) + listed(found_again, names_again)
            == entries + listed(found, names),
{
    let list = entries + listed(found, names);
    let known = view_paths(list);
    law_nothing_is_dropped_while_all_is_there(list, exists);
    lemma_listed_paths(found, names);
    assert forall|k: int, i: int|
        0 <= k < known.len() && 0 <= i < files.len() implies is_surely_no_image(
        #[trigger] files[i],
    ) || told_apart(#[trigger] known[k], files[i]) by {
        if k < entries.len() {
            assert(known[k] == view_paths(entries)[k]);
        } else {
            let path = view_paths(listed(found, names))[k - entries.len()];
            assert(view_paths(listed(found, names)).contains(path));
            let at = lemma_chosen_was_kept(found_paths(found), are_images(found), path);
            assert(selection(files, keep).contains(path));
            let from = lemma_chosen_was_kept(files, keep, path);
            assert(files[from] == known[k]);
        }
    }
    law_paths_that_are_told_apart_decide(view_paths(entries), files, keep);
    law_paths_that_are_told_apart_decide(known, files, keep_again);
    assert forall|i: int| 0 <= i < files.len() && #[trigger] keep_again[i] implies keep[i] by {
        assert(is_new(known, files[i]));
        assert forall|k: int| 0 <= k < entries.len() implies !surely_same(
            #[trigger] view_paths(entries)[k],
            files[i],
        ) by {
            assert(known[k] == view_paths(entries)[k]);
        }
    }
    law_a_second_look_adds_nothing(
        entries,
        files,
        keep,
        found,
        names,
        keep_again,
        found_again,
        names_again,
    );
}

/// Of two sequences put together the chosen parts are put together.
proof fn lemma_selection_of_sum<A>(a: Seq<A>, b: Seq<A>, keep_a: Seq<bool>, keep_b: Seq<bool>)
    requires
        keep_a.len() == a.len(),
        keep_b.len() == b.len(),
    ensures
        selection(a + b, keep_a + keep_b) == selection(a, keep_a) + selection(b, keep_b),
    decreases b.len(),
{
    if b.len() == 0 {
        assert(a + b =~= a && keep_a + keep_b =~= keep_a);
        assert(selection(a, keep_a) + selection(b, keep_b) =~= selection(a, keep_a));
    } else {
        lemma_selection_of_sum(a, b.drop_last(), keep_a, keep_b.drop_last());
        assert((a + b).drop_last() =~= a + b.drop_last());
        assert((keep_a + keep_b).drop_last() =~= keep_a + keep_b.drop_last());
        assert(selection(a + b, keep_a + keep_b) =~= selection(a, keep_a) + selection(b, keep_b));
    }
}

/// Of two sequences of files put together the lists are put together.
proof fn lemma_listed_of_sum(
    a: Seq<FoundImage>,
    b: Seq<FoundImage>,
    names_a: Seq<Option<Seq<char>>>,
    names_b: Seq<Option<Seq<char>>>,
)
    requires
        names_a.len() == a.len(),
        names_b.len() == b.len(),
    ensures
        listed(a + b, names_a + names_b) == listed(a, names_a) + listed(b, names_b),
    decreases b.len(),
{
    if b.len() == 0 {
        assert(a + b =~= a && names_a + names_b =~= names_a);
        assert(listed(a, names_a) + listed(b, names_b) =~= listed(a, names_a));
    } else {
        lemma_listed_of_sum(a, b.drop_last(), names_a, names_b.drop_last());
        assert((a + b).drop_last() =~= a + b.drop_last());
        assert((names_a + names_b).drop_last() =~= names_a + names_b.drop_last());
        assert(listed(a + b, names_a + names_b) =~= listed(a, names_a) + listed(b, names_b));
    }
}

/// A file that turns out to be no image leaves the scan as it is without it: the
/// other files may be chosen as they are, and are where nothing is left to the
/// platform; the list is the same, and does not hold the file.
pub proof fn law_a_file_that_is_no_image_changes_nothing(
    known: Seq<Seq<char>>,
    before: Seq<Seq<char>>,
    file: Seq<char>,
    after: Seq<Seq<char>>,
    keep_before: Seq<bool>,
    keep_file: bool,
    keep_after: Seq<bool>,
    keep_without: Seq<bool>,
    found_before: Seq<FoundImage>,
    found: FoundImage,
    found_after: Seq<FoundImage>,
    names_before: Seq<Option<Seq<char>>>,
    name: Option<Seq<char>>,
    names_after: Seq<Option<Seq<char>>>,
)
    requires
        keep_before.len() == before.len(),
        keep_after.len() == after.len(),
        may_choose(known, before + seq![file] + after, keep_before + seq![keep_file] + keep_after),
        may_choose(known, before + after, keep_without),
        names_before.len() == found_before.len(),
        names_after.len() == found_after.len(),
        found.finding.extent() is None,
    ensures
        may_choose(known, before + after, keep_before + keep_after),
        decided(known, before + after) ==> keep_without == keep_before + keep_after,
        !found_paths(found_before + found_after).contains(found.path@) ==> !view_paths(
            listed(found_before + found_after, names_before + names_after),
        ).contains(found.path@),
        selection(before + seq![file] + after, keep_before + seq![keep_file] + keep_after)
            == selection(before, keep_before) + (if keep_file {
            seq![file]
        } else {
            seq![]
        }) + selection(after, keep_after),
        selection(before + after, keep_before + keep_after) == selection(before, keep_before)
            + selection(after, keep_after),
        listed(
            found_before + seq![found] + found_after,
            names_before + seq![name] + names_after,
        ) == listed(found_before + found_after, names_before + names_after),
{
    let files = before + seq![file] + after;
    let keep = keep_before + seq![keep_file] + keep_after;
    let fewer = before + after;
    let fewer_keep = keep_before + keep_after;
    assert forall|i: int| 0 <= i < fewer.len() implies may_be_new_image(
        known,
        fewer[i],
        #[trigger] fewer_keep[i],
    ) by {
        let at = if i < before.len() {
            i
        } else {
            i + 1
        };
        assert(files[at] == fewer[i]);
        assert(may_be_new_image(known, files[at], keep[at]));
    }
    if decided(known, fewer) {
        law_paths_that_are_told_apart_decide(known, fewer, fewer_keep);
        law_paths_that_are_told_apart_decide(known, fewer, keep_without);
    }
    let others = found_before + found_after;
    lemma_listed_paths(others, names_before + names_after);
    lemma_selection_is_part(found_paths(others), are_images(others), found.path@);
    lemma_selection_of_sum(before, after, keep_before, keep_after);
    lemma_selection_of_sum(before, seq![file], keep_before, seq![keep_file]);
    lemma_selection_of_sum(before + seq![file], after, keep_before + seq![keep_file], keep_after);
    reveal_with_fuel(selection, 2);
    assert(selection(seq![file], seq![keep_file]) =~= if keep_file {
        seq![file]
    } else {
        seq![]
    });
    lemma_listed_of_sum(found_before, found_after, names_before, names_after);
    lemma_listed_of_sum(found_before, seq![found], names_before, seq![name]);
    lemma_listed_of_sum(
        found_before + seq![found],
        found_after,
        names_before + seq![name],
        names_after,
    );
    reveal_with_fuel(listed, 2);
    assert(seq![found].drop_last() =~= Seq::empty());
    assert(listed(seq![found], seq![name]) =~= Seq::empty());
    assert(listed(found_before, names_before) + Seq::empty() =~= listed(
        found_before,
        names_before,
    ));
}

/// A file that was taken and is an image is listed with its extent.
pub(crate) proof fn lemma_an_image_is_listed(
    found: Seq<FoundImage>,
    names: Seq<Option<Seq<char>>>,
    at: int,
)
    requires
        names.len() == found.len(),
        0 <= at < found.len(),
        found[at].finding.extent() is Some,
    ensures
        listed(found, names).contains(
            entry_for(found[at].path@, names[at], found[at].finding.extent()->0),
        ),
    decreases found.len(),
{
    let entry = entry_for(found[at].path@, names[at], found[at].finding.extent()->0);
    let before = listed(found.drop_last(), names.drop_last());
    let list = listed(found, names);
    if at == found.len() - 1 {
        assert(list[before.len() as int] == entry);
    } else {
        lemma_an_image_is_listed(found.drop_last(), names.drop_last(), at);
        let k = choose|k: int| 0 <= k < before.len() && before[k] == entry;
        assert(list[k] == entry);
    }
}

/// A first scan takes a file that has the extension of an image on every
/// platform.
pub(crate) proof fn lemma_first_scan_takes_images(path: Seq<char>, wanted: bool)
    requires
        forall|name: Option<Seq<char>>| #[trigger]
            may_be_file_name(path, name) ==> is_image_extension(extension_or_empty(name)),
        may_be_new_image(Seq::empty(), path, wanted),
    ensures
        wanted,
{
    let (found, extension) = choose|found: bool, extension: Seq<char>| #[trigger]
        may_be_known(Seq::empty(), path, found) && #[trigger] may_be_extension(path, extension)
            && wanted == (!found && is_image_extension(extension));
    let same = choose|same: Seq<bool>| #[trigger]
        may_compare(Seq::empty(), path, same) && found == same.contains(true);
}

/// An image is found by its name within an archive.
pub proof fn law_an_image_is_found_by_its_name(name: Seq<char>)
    requires
        same_but_for_ascii_case(extension_or_empty(Some(name)), "iso"@),
    ensures
        is_iso_name(name),
{
    reveal_strlit("iso");
    reveal_strlit(".iso");
    let extension = extension_or_empty(Some(name));
    assert(ascii_lowered(extension).len() == ascii_lowered("iso"@).len());
    lemma_last_dot_is_inside(name);
    lemma_last_dot_is_a_dot(name);
    let at = last_dot(name);
    assert(extension == name.skip(at + 1));
    let end = name.skip(at);
    assert forall|i: int| 0 <= i < 3 implies #[trigger] ascii_lower(extension[i]) == "iso"@[i] by {
        assert(ascii_lowered(extension)[i] == ascii_lowered("iso"@)[i]);
    }
    assert(end =~= seq!['.', extension[0], extension[1], extension[2]]);
    assert(ascii_lower(extension[0]) == 'i');
    assert(ascii_lower(extension[1]) == 's');
    assert(ascii_lower(extension[2]) == 'o');
    assert(ascii_lowered(end) =~= ".iso"@);
    assert(end.is_suffix_of(name)) by {
        assert(name.subrange(name.len() - end.len(), name.len() as int) =~= end);
    }
    lemma_lowered_end(name, end);
}

proof fn lemma_selection_is_part<A>(all: Seq<A>, keep: Seq<bool>, item: A)
    ensures
        selection(all, keep).contains(item) ==> all.contains(item),
    decreases all.len(),
{
    if all.len() > 0 && keep.len() == all.len() {
        let chosen = selection(all, keep);
        lemma_selection_is_part(all.drop_last(), keep.drop_last(), item);
        if chosen.contains(item) {
            let i = choose|i: int| 0 <= i < chosen.len() && chosen[i] == item;
            let before = selection(all.drop_last(), keep.drop_last());
            if i < before.len() {
                assert(before[i] == item);
                let k = choose|k: int| 0 <= k < all.drop_last().len() && all.drop_last()[k] == item;
                assert(all[k] == item);
            } else {
                assert(all[all.len() - 1] == item);
            }
        }
    }
}

/// Each extension that makes a file an image also tells how the image is
/// stored, whatever its letter case.
pub proof fn law_image_extensions_tell_the_kind(extension: Seq<char>)
    ensures
        same_but_for_ascii_case(extension, "iso"@) ==> kind_of(extension) == ImageKind::Iso,
        same_but_for_ascii_case(extension, "ziso"@) ==> kind_of(extension) == ImageKind::Ziso,
        same_but_for_ascii_case(extension, "chd"@) ==> kind_of(extension) == ImageKind::Chd,
{
    reveal_strlit("iso");
    reveal_strlit("ziso");
    reveal_strlit("chd");
    assert(ascii_lowered("iso"@) =~= "iso"@);
    assert(ascii_lowered("ziso"@) =~= "ziso"@);
    assert(ascii_lowered("chd"@) =~= "chd"@);
    assert("iso"@.len() == 3 && "ziso"@.len() == 4 && "chd"@.len() == 3);
    assert("iso"@[0] != "chd"@[0]);
    if same_but_for_ascii_case(extension, "iso"@) || same_but_for_ascii_case(extension, "ziso"@)
        || same_but_for_ascii_case(extension, "chd"@) {
        let small = ascii_lowered(extension);
        assert(is_ascii_chars(small));
        assert forall|i: int| 0 <= i < extension.len() implies '\0' <= #[trigger] extension[i]
            <= '\u{7f}' by {
            assert(small[i] <= '\u{7f}');
        }
        assert(is_ascii_chars(extension));
    }
}

/// A compressed image is listed with its partition at the start.
pub proof fn law_a_compressed_image_starts_at_zero(finding: Finding)
    requires
        finding is Ziso || finding is Chd,
    ensures
        finding.extent() matches Some(extent) ==> extent.0 == 0,
{
}

/// An image is listed with as many sectors as fit in it.
pub proof fn law_whole_sectors_are_listed(
    path: Seq<char>,
    name: Option<Seq<char>>,
    start: u64,
    size: u64,
)
    ensures
        ({
            let sectors = entry_for(path, name, (start, size as int)).sector_count;
            sectors * 2048 <= size < (sectors + 1) * 2048
        }),
{
}

/// The files that are images by their extension are those that end in `iso`, `ziso`
/// or `chd`, in whatever letter case.
pub proof fn law_images_have_one_of_three_extensions(extension: Seq<char>)
    ensures
        is_image_extension(extension) <==> {
            ||| ascii_lowered(extension) == seq!['i', 's', 'o']
            ||| ascii_lowered(extension) == seq!['z', 'i', 's', 'o']
            ||| ascii_lowered(extension) == seq!['c', 'h', 'd']
        },
        is_ascii_chars(extension) ==> {
            &&& kind_of(extension) == ImageKind::Ziso <==> ascii_lowered(extension) == seq![
                'z',
                'i',
                's',
                'o',
            ]
            &&& kind_of(extension) == ImageKind::Chd <==> ascii_lowered(extension) == seq![
                'c',
                'h',
                'd',
            ]
        },
{
    reveal_strlit("iso");
    reveal_strlit("ziso");
    reveal_strlit("chd");
    assert("iso"@ =~= seq!['i', 's', 'o']);
    assert("ziso"@ =~= seq!['z', 'i', 's', 'o']);
    assert("chd"@ =~= seq!['c', 'h', 'd']);
    assert(ascii_lowered("iso"@) =~= "iso"@);
    assert(ascii_lowered("ziso"@) =~= "ziso"@);
    assert(ascii_lowered("chd"@) =~= "chd"@);
    assert("ziso"@.len() != "chd"@.len());
}

/// What is kept of a sequence is decided item by item, and stays in its order: of one
/// item it is the item or nothing, and of two sequences put together what is kept of
/// the one and then of the other.
pub proof fn law_each_item_is_kept_or_not<A>(
    item: A,
    a: Seq<A>,
    b: Seq<A>,
    keep_a: Seq<bool>,
    keep_b: Seq<bool>,
)
    requires
        keep_a.len() == a.len(),
        keep_b.len() == b.len(),
    ensures
        selection(seq![item], seq![true]) == seq![item],
        selection(seq![item], seq![false]) == Seq::<A>::empty(),
        selection(a + b, keep_a + keep_b) == selection(a, keep_a) + selection(b, keep_b),
{
    lemma_selection_of_sum(a, b, keep_a, keep_b);
    reveal_with_fuel(selection, 2);
    assert(selection(seq![item], seq![true]) =~= seq![item]);
    assert(selection(seq![item], seq![false]) =~= Seq::<A>::empty());
}

/// Keeping what meets a condition is filtering by it.
proof fn lemma_selection_is_filter<A>(all: Seq<A>, keep: Seq<bool>, wanted: spec_fn(A) -> bool)
    requires
        keep.len() == all.len(),
        forall|i: int| 0 <= i < all.len() ==> keep[i] == wanted(#[trigger] all[i]),
    ensures
        selection(all, keep) == all.filter(wanted),
    decreases all.len(),
{
    reveal(Seq::filter);
    if all.len() > 0 {
        let fewer = all.drop_last();
        assert forall|i: int| 0 <= i < fewer.len() implies keep.drop_last()[i] == wanted(
            #[trigger] fewer[i],
        ) by {
            assert(all[i] == fewer[i]);
        }
        lemma_selection_is_filter(fewer, keep.drop_last(), wanted);
        assert(all[all.len() - 1] == all.last());
    } else {
        assert(selection(all, keep) =~= all.filter(wanted));
    }
}

/// Where all platforms agree on the paths, the new images are all files that have the
/// extension of one and no known path with the same components, in their order.
pub proof fn law_all_new_images_are_chosen(
    known: Seq<Seq<char>>,
    files: Seq<String>,
    chosen: Seq<String>,
)
    requires
        may_be_chosen(known, files, chosen),
        all_portable(known),
        all_portable(texts(files)),
    ensures
        chosen == files.filter(
            |file: String|
                is_image_extension(extension_or_empty(file_name_of(file@))) && forall|k: int|
                    0 <= k < known.len() ==> components(#[trigger] known[k]) != components(file@),
        ),
{
    let wanted = |file: String|
        is_image_extension(extension_or_empty(file_name_of(file@))) && forall|k: int|
            0 <= k < known.len() ==> components(#[trigger] known[k]) != components(file@);
    let keep = choose|keep: Seq<bool>| #[trigger]
        may_choose(known, texts(files), keep) && chosen == selection(files, keep);
    assert forall|i: int| 0 <= i < files.len() implies keep[i] == wanted(#[trigger] files[i]) by {
        assert(texts(files)[i] == files[i]@);
        assert(may_be_new_image(known, texts(files)[i], keep[i]));
        law_portable_paths_decide(known, files[i]@, keep[i]);
    }
    lemma_selection_is_filter(files, keep, wanted);
}

/// `entry` says of `image` what was found.
spec fn tells_of(entry: IsoEntryView, image: FoundImage) -> bool {
    &&& entry.path == image.path@
    &&& entry.has_type1_file == 0
    &&& may_be_file_name(image.path@, Some(entry.filename)) || (may_be_file_name(image.path@, None)
        && entry.filename == Seq::<char>::empty())
    &&& match image.finding {
        Finding::Iso { data_start, file_size } => data_start == Some(entry.data_start)
            && entry.sector_count == file_size / 2048,
        Finding::Ziso(size) => entry.data_start == 0 && entry.sector_count == size->0 / 2048,
        Finding::Chd(Some(geometry)) => entry.data_start == 0 && entry.sector_count == (geometry.0
            * geometry.1) / 2048,
        Finding::Chd(None) => false,
    }
}

/// Each file that was found to be an image is told of in its turn.
proof fn lemma_listed_tells_of_each(found: Seq<FoundImage>, names: Seq<Option<Seq<char>>>)
    requires
        may_be_names(found, names),
    ensures
        ({
            let images = found.filter(
                |image: FoundImage|
                    match image.finding {
                        Finding::Iso { data_start, .. } => data_start is Some,
                        Finding::Ziso(size) => size is Some,
                        Finding::Chd(geometry) => geometry is Some,
                    },
            );
            &&& listed(found, names).len() == images.len()
            &&& forall|i: int|
                0 <= i < images.len() ==> tells_of(listed(found, names)[i], #[trigger] images[i])
        }),
    decreases found.len(),
{
    reveal(Seq::filter);
    if found.len() > 0 {
        let fewer = found.drop_last();
        let last = found.last();
        assert(may_be_file_name(found[found.len() - 1].path@, names[found.len() - 1]));
        assert forall|i: int| 0 <= i < fewer.len() implies may_be_file_name(
            fewer[i].path@,
            #[trigger] names.drop_last()[i],
        ) by {
            assert(may_be_file_name(found[i].path@, names[i]));
        }
        lemma_listed_tells_of_each(fewer, names.drop_last());
        if let Finding::Chd(Some(geometry)) = last.finding {
            assert(geometry.0 * geometry.1 <= u32::MAX * u32::MAX) by (nonlinear_arith)
                requires
                    geometry.0 <= u32::MAX,
                    geometry.1 <= u32::MAX,
            ;
            assert(0 <= geometry.0 * geometry.1) by (nonlinear_arith);
        }
    }
}

/// A scan lists first what was kept, as it was, and then each new file that was found
/// to be an image, once and in its turn: with its path, with its file name as the name
/// that consoles see, with where its data starts, and with as many sectors of 2048
/// bytes as the image fills. Where all platforms agree on the path, the name is its
/// last component, which holds no separator.
pub proof fn law_each_image_is_listed_as_it_was_found(
    kept: Seq<IsoEntry>,
    found: Seq<FoundImage>,
    entries: Seq<IsoEntry>,
)
    requires
        may_be_list(kept, found, entries),
    ensures
        ({
            let images = found.filter(
                |image: FoundImage|
                    match image.finding {
                        Finding::Iso { data_start, .. } => data_start is Some,
                        Finding::Ziso(size) => size is Some,
                        Finding::Chd(geometry) => geometry is Some,
                    },
            );
            &&& entries.len() == kept.len() + images.len()
            &&& forall|i: int| 0 <= i < kept.len() ==> #[trigger] entries[i] == kept[i]
            &&& forall|i: int|
                0 <= i < images.len() ==> {
                    let image = #[trigger] images[i];
                    let entry = entries[kept.len() + i];
                    &&& entry.path@ == image.path@
                    &&& entry.has_type1_file == 0
                    &&& portable(image.path@) && file_name_of(image.path@) is Some ==> {
                        &&& entry.filename@ == file_name_of(image.path@)->0
                        &&& !entry.filename@.contains('/')
                    }
                    &&& may_be_file_name(image.path@, Some(entry.filename@)) || (may_be_file_name(
                        image.path@,
                        None,
                    ) && entry.filename@.len() == 0)
                    &&& match image.finding {
                        Finding::Iso { data_start, file_size } => data_start == Some(
                            entry.data_start,
                        ) && entry.sector_count == file_size / 2048,
                        Finding::Ziso(size) => entry.data_start == 0 && entry.sector_count
                            == size->0 / 2048,
                        Finding::Chd(Some(geometry)) => entry.data_start == 0
                            && entry.sector_count == (geometry.0 * geometry.1) / 2048,
                        Finding::Chd(None) => false,
                    }
                }
        }),
{
    let images = found.filter(
        |image: FoundImage|
            match image.finding {
                Finding::Iso { data_start, .. } => data_start is Some,
                Finding::Ziso(size) => size is Some,
                Finding::Chd(geometry) => geometry is Some,
            },
    );
    let names = choose|names: Seq<Option<Seq<char>>>| #[trigger]
        may_be_names(found, names) && entries_view(entries) == entries_view(kept) + listed(
            found,
            names,
        );
    lemma_listed_tells_of_each(found, names);
    assert(entries.len() == entries_view(entries).len());
    assert(kept.len() == entries_view(kept).len());
    assert forall|i: int| 0 <= i < kept.len() implies #[trigger] entries[i] == kept[i] by {
        assert(entries.subrange(0, kept.len() as int)[i] == kept[i]);
    }
    assert forall|i: int| 0 <= i < images.len() implies tells_of(
        entries[kept.len() + i]@,
        #[trigger] images[i],
    ) && (portable(images[i].path@) && file_name_of(images[i].path@) is Some
        ==> entries[kept.len() + i].filename@ == file_name_of(images[i].path@)->0) by {
        let entry = entries_view(entries)[kept.len() + i];
        assert(entry == entries[kept.len() + i]@);
        assert(tells_of(listed(found, names)[i], images[i]));
        if portable(images[i].path@) && file_name_of(images[i].path@) is Some {
            if may_be_file_name(images[i].path@, None) {
                law_a_portable_path_has_its_name(images[i].path@, None);
            } else {
                law_a_portable_path_has_its_name(images[i].path@, Some(entry.filename));
            }
        }
    }
}

/// A file in a directory is listed under what it is called there, where all platforms
/// agree on its path, whatever its size is and wherever its data starts.
pub proof fn law_a_file_is_listed_under_its_name(
    kept: Seq<IsoEntry>,
    found: Seq<FoundImage>,
    entries: Seq<IsoEntry>,
    directory: Seq<char>,
    name: Seq<char>,
)
    requires
        may_be_list(kept, found, entries),
        portable(directory.push('/') + name),
        is_name(name),
    ensures
        forall|i: int|
            kept.len() <= i < entries.len() && (#[trigger] entries[i]).path@ == directory.push('/')
                + name ==> entries[i].filename@ == name,
{
    let images = found.filter(
        |image: FoundImage|
            match image.finding {
                Finding::Iso { data_start, .. } => data_start is Some,
                Finding::Ziso(size) => size is Some,
                Finding::Chd(geometry) => geometry is Some,
            },
    );
    law_each_image_is_listed_as_it_was_found(kept, found, entries);
    law_a_file_is_called_what_stands_behind_its_directory(directory, name);
    assert forall|i: int|
        kept.len() <= i < entries.len() && (#[trigger] entries[i]).path@ == directory.push('/')
            + name implies entries[i].filename@ == name by {
        let image = images[i - kept.len()];
        assert(entries[kept.len() + (i - kept.len())].path@ == image.path@);
    }
}

/// Serving starts exactly if there is at least one image.
pub proof fn law_nothing_is_served_without_images(
    entries: Seq<IsoEntry>,
    outcome: Result<(), NothingFound>,
)
    requires
        may_serve(entries, outcome),
    ensures
        (exists|entry: IsoEntry| entries.contains(entry)) <==> outcome is Ok,
{
    if entries.len() > 0 {
        assert(entries.contains(entries[0]));
    }
}

/// A run of a look into a file: what came of each step, and the step that followed upon
/// it.
pub struct LookRun {
    pub events: Seq<LookEvent>,
    pub actions: Seq<LookAction>,
}

impl LookRun {
    /// This is a run of a look into the file with the bytes `image`, and goes on from
    /// each step with what came of it.
    pub open spec fn looks_into(self, kind: ImageKind, file_size: u64, image: Seq<u8>) -> bool {
        &&& self.events.len() > 0
        &&& self.actions.len() == self.events.len()
        &&& self.events[0] is Begin
        &&& forall|i: int|
            0 <= i < self.events.len() ==> looks(
                kind,
                file_size,
                #[trigger] self.events[i],
                self.actions[i],
            )
        &&& forall|i: int|
            0 < i < self.events.len() ==> shows(
                image,
                self.actions[i - 1],
                #[trigger] self.events[i],
            )
    }
}

/// `event` is what may come of `action` in a look into the file with the bytes `image`:
/// its length, and the bytes at the place asked for, unless that fails. Nothing comes of
/// an end.
pub open spec fn shows(image: Seq<u8>, action: LookAction, event: LookEvent) -> bool {
    match action {
        LookAction::List => event is Listed,
        LookAction::MeasureInner(_) => event is InnerSize,
        LookAction::ReadHeader => event is Header,
        LookAction::Measure => event matches LookEvent::Length(len) && (len matches Some(len)
            ==> len == image.len()),
        LookAction::ReadMark { slot, offset } => {
            &&& event matches LookEvent::Mark { len, slot: read, bytes }
            &&& len == image.len()
            &&& read == slot
            &&& bytes matches Some(bytes) ==> bytes@ == image.subrange(
                offset as int,
                offset + 20,
            )
        },
        LookAction::Done(_) => false,
    }
}

/// A look into an uncompressed image finds where its game partition starts, by the first
/// of three places at which the text of its mark stands; if it stands at none of them,
/// the image is the partition. Nothing is found only if the file could not be read. The
/// look ends after five steps at the latest.
pub proof fn law_a_look_finds_where_the_partition_starts(
    run: LookRun,
    file_size: u64,
    image: Seq<u8>,
    at: int,
)
    requires
        image.len() <= u64::MAX,
        run.looks_into(ImageKind::Iso, file_size, image),
        0 <= at < run.actions.len(),
    ensures
        run.actions.len() <= 5,
        run.actions[at] matches LookAction::Done(finding) ==> {
            &&& finding matches Finding::Iso { data_start, file_size: size }
            &&& size == file_size
            &&& data_start is None <==> (match run.events[at] {
                LookEvent::Length(len) => len is None,
                LookEvent::Mark { bytes, .. } => bytes is None,
                _ => false,
            })
            &&& data_start matches Some(start) ==> start == if marked_at(image, 0xfda0000) {
                0xfd90000u64
            } else if marked_at(image, 0x2090000) {
                0x2080000
            } else {
                0
            }
        },
        run.actions[at] matches LookAction::ReadMark { offset, .. } ==> offset + 20
            <= image.len(),
        !(run.actions[at] is List || run.actions[at] is MeasureInner || run.actions[at]
            is ReadHeader),
{
    reveal_with_fuel(next_probe, 4);
    let n = run.events.len();
    assert(looks(ImageKind::Iso, file_size, run.events[0], run.actions[0]));
    if n > 1 {
        assert(looks(ImageKind::Iso, file_size, run.events[1], run.actions[1]));
        assert(shows(image, run.actions[1 - 1], run.events[1]));
    }
    if n > 2 {
        assert(looks(ImageKind::Iso, file_size, run.events[2], run.actions[2]));
        assert(shows(image, run.actions[2 - 1], run.events[2]));
    }
    if n > 3 {
        assert(looks(ImageKind::Iso, file_size, run.events[3], run.actions[3]));
        assert(shows(image, run.actions[3 - 1], run.events[3]));
    }
    if n > 4 {
        assert(looks(ImageKind::Iso, file_size, run.events[4], run.actions[4]));
        assert(shows(image, run.actions[4 - 1], run.events[4]));
    }
    if n > 5 {
        assert(shows(image, run.actions[5 - 1], run.events[5]));
    }
}

/// A look into an archive finds the size of its first file whose name ends in `.iso` in
/// lowercase, and a look into a CHD its geometry, as these were told; where they were
/// not, it finds nothing.
pub proof fn law_a_look_finds_what_a_compressed_image_tells(
    run: LookRun,
    kind: ImageKind,
    file_size: u64,
    image: Seq<u8>,
)
    requires
        kind == ImageKind::Ziso || kind == ImageKind::Chd,
        run.looks_into(kind, file_size, image),
    ensures
        kind == ImageKind::Chd ==> {
            &&& run.actions.len() <= 2
            &&& run.actions[0] is ReadHeader
            &&& run.actions.len() == 2 ==> run.events[1] is Header && run.actions[1]
                == LookAction::Done(Finding::Chd(run.events[1]->Header_0))
        },
        kind == ImageKind::Ziso ==> {
            &&& run.actions.len() <= 3
            &&& run.actions[0] is List
            &&& run.actions.len() >= 2 ==> {
                &&& run.events[1] matches LookEvent::Listed(files)
                &&& match run.actions[1] {
                    LookAction::MeasureInner(inner) => {
                        &&& files matches Some(files)
                        &&& inner < files@.len()
                        &&& ".iso"@.is_suffix_of(lowered(files@[inner as int]@))
                        &&& forall|k: int|
                            0 <= k < inner ==> !".iso"@.is_suffix_of(
                                lowered(#[trigger] files@[k]@),
                            )
                    },
                    LookAction::Done(finding) => {
                        &&& finding == Finding::Ziso(None)
                        &&& files matches Some(files) ==> forall|k: int|
                            0 <= k < files@.len() ==> !".iso"@.is_suffix_of(
                                lowered(#[trigger] files@[k]@),
                            )
                    },
                    _ => false,
                }
            }
            &&& run.actions.len() == 3 ==> run.events[2] is InnerSize && run.actions[2]
                == LookAction::Done(Finding::Ziso(run.events[2]->InnerSize_0))
        },
{
    let n = run.events.len();
    assert(looks(kind, file_size, run.events[0], run.actions[0]));
    if n > 1 {
        assert(looks(kind, file_size, run.events[1], run.actions[1]));
        assert(shows(image, run.actions[1 - 1], run.events[1]));
        if let LookEvent::Listed(Some(files)) = run.events[1] {
            law_the_first_image_of_an_archive_is_found(texts(files@));
            let until = match first_iso(texts(files@)) {
                Some(at) => at,
                None => files@.len() as int,
            };
            assert forall|k: int| 0 <= k < until implies !".iso"@.is_suffix_of(
                lowered(#[trigger] files@[k]@),
            ) by {
                assert(texts(files@)[k] == files@[k]@);
            }
            if until < files@.len() {
                assert(texts(files@)[until] == files@[until]@);
            }
        }
    }
    if n > 2 {
        assert(looks(kind, file_size, run.events[2], run.actions[2]));
        assert(shows(image, run.actions[2 - 1], run.events[2]));
    }
    if n > 3 {
        assert(shows(image, run.actions[3 - 1], run.events[3]));
    }
}

/// An image is taken to be stored as the extension of its path says, in whatever letter
/// case: as a ZISO, as a CHD, or else as it is. Where all platforms agree on that path,
/// or it is an ordinary one, they agree on the extension too.
pub proof fn law_an_image_is_stored_as_its_extension_says(
    path: Seq<char>,
    kind: ImageKind,
) -> (extension: Seq<char>)
    requires
        may_be_kind(path, kind),
    ensures
        may_be_extension(path, extension),
        plain(path) ==> extension == path.skip(last_dot(path) + 1),
        portable(path) ==> extension == extension_or_empty(file_name_of(path)),
        ascii_lowered(extension) == seq!['z', 'i', 's', 'o'] ==> kind == ImageKind::Ziso,
        ascii_lowered(extension) == seq!['c', 'h', 'd'] ==> kind == ImageKind::Chd,
        is_ascii_chars(extension) && ascii_lowered(extension) != seq!['z', 'i', 's', 'o']
            && ascii_lowered(extension) != seq!['c', 'h', 'd'] ==> kind == ImageKind::Iso,
{
    let extension = choose|extension: Seq<char>| #[trigger]
        may_be_extension(path, extension) && kind == kind_of(extension);
    law_image_extensions_tell_the_kind(extension);
    law_images_have_one_of_three_extensions(extension);
    reveal_strlit("ziso");
    reveal_strlit("chd");
    assert("ziso"@ =~= seq!['z', 'i', 's', 'o']);
    assert("chd"@ =~= seq!['c', 'h', 'd']);
    assert(ascii_lowered("ziso"@) =~= "ziso"@);
    assert(ascii_lowered("chd"@) =~= "chd"@);
    if plain(path) {
        law_an_ordinary_path_has_its_extension(path, extension);
    }
    if portable(path) {
        let named = choose|named: Option<Seq<char>>| #[trigger]
            may_be_file_name(path, named) && extension == extension_or_empty(named);
        law_a_portable_path_has_its_name(path, named);
    }
    extension
}

/// A file whose path is known is passed over, as is one that has the extension of an
/// image on no platform; one that has it on every platform is taken, unless its path may
/// be the same as one that is known.
pub proof fn law_a_file_is_taken_or_passed_over(
    known: Seq<Seq<char>>,
    path: Seq<char>,
    wanted: bool,
)
    requires
        may_be_new_image(known, path, wanted),
    ensures
        known.contains(path) ==> !wanted,
        is_surely_no_image(path) ==> !wanted,
        is_surely_image(path) && (forall|k: int|
            0 <= k < known.len() ==> !may_be_same(#[trigger] known[k], path, true)) ==> wanted,
{
    if known.contains(path) {
        lemma_known_is_not_new(known, path, wanted);
    }
    let (found, extension) = choose|found: bool, extension: Seq<char>| #[trigger]
        may_be_known(known, path, found) && #[trigger] may_be_extension(path, extension) && wanted
            == (!found && is_image_extension(extension));
    let same = choose|same: Seq<bool>| #[trigger]
        may_compare(known, path, same) && found == same.contains(true);
    if found {
        let k = choose|k: int| 0 <= k < same.len() && same[k] == true;
        assert(may_be_same(known[k], path, same[k]));
        assert(may_be_same(known[k], path, true));
    }
}

} // verus!
