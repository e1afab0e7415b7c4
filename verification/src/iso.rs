//! Disc images: what is known of each, and where the game partition of an
//! uncompressed one starts.

use vstd::prelude::*;
use vstd::string::*;

verus! {

/// The number of bytes in a sector.
pub const SECTOR_SIZE: u16 = 0x800;

/// What the server knows of an image.
#[derive(Debug)]
pub struct IsoEntry {
    /// Where the image is stored.
    pub path: String,
    /// The name under which consoles see the image.
    pub filename: String,
    /// Where the game partition starts.
    pub data_start: u64,
    /// How many whole sectors the image has.
    pub sector_count: u64,
    /// Whether the image has a file of the first type, as consoles ask for it.
    pub has_type1_file: u32,
}

/// What an [`IsoEntry`] says.
pub struct IsoEntryView {
    pub path: Seq<char>,
    pub filename: Seq<char>,
    pub data_start: u64,
    pub sector_count: u64,
    pub has_type1_file: u32,
}

impl View for IsoEntry {
    type V = IsoEntryView;

    open spec fn view(&self) -> IsoEntryView {
        IsoEntryView {
            path: self.path@,
            filename: self.filename@,
            data_start: self.data_start,
            sector_count: self.sector_count,
            has_type1_file: self.has_type1_file,
        }
    }
}

impl Clone for IsoEntry {
    fn clone(&self) -> (copy: IsoEntry)
        ensures
            copy == *self,
    {
        IsoEntry {
            path: self.path.clone(),
            filename: self.filename.clone(),
            data_start: self.data_start,
            sector_count: self.sector_count,
            has_type1_file: self.has_type1_file,
        }
    }
}

/// What a list of images says.
pub open spec fn entries_view(entries: Seq<IsoEntry>) -> Seq<IsoEntryView> {
    entries.map_values(|entry: IsoEntry| entry@)
}

/// The bytes that mark the volume descriptor of a game partition:
/// `MICROSOFT*XBOX*MEDIA`.
pub open spec fn xgd_magic() -> Seq<u8> {
    seq![
        0x4d,
        0x49,
        0x43,
        0x52,
        0x4f,
        0x53,
        0x4f,
        0x46,
        0x54,
        0x2a,
        0x58,
        0x42,
        0x4f,
        0x58,
        0x2a,
        0x4d,
        0x45,
        0x44,
        0x49,
        0x41,
    ]
}

/// How many places are looked at for the mark of a game partition.
pub const LAYOUTS: usize = 3;

/// Where the mark stands in the layout `slot`: the discs of the second
/// generation, of the third, and images of the game partition alone.
pub open spec fn mark_offset(slot: int) -> u64 {
    if slot == 0 {
        0xfda0000
    } else if slot == 1 {
        0x2090000
    } else {
        0x10000
    }
}

/// Where the game partition starts in the layout `slot`.
pub open spec fn partition_start(slot: int) -> u64 {
    if slot == 0 {
        0xfd90000
    } else if slot == 1 {
        0x2080000
    } else {
        0
    }
}

/// What is to be done to find the game partition of an image.
#[derive(Clone, Copy, PartialEq, Eq, Structural, Debug)]
pub enum ProbeStep {
    /// Read the 20 bytes at `offset`, where the layout `slot` has its mark.
    Read { slot: usize, offset: u64 },
    /// Nothing: the partition starts here.
    Found(u64),
}

/// The first look at an image of `len` bytes among the layouts from `slot` on;
/// layouts whose mark would stand behind the end are passed over.
pub open spec fn next_probe(len: u64, slot: int) -> ProbeStep
    decreases LAYOUTS - slot,
{
    if slot >= LAYOUTS {
        ProbeStep::Found(0)
    } else if len >= mark_offset(slot) + 20 {
        ProbeStep::Read { slot: slot as usize, offset: mark_offset(slot) }
    } else {
        next_probe(len, slot + 1)
    }
}

/// The place at which layout `slot` has its mark, and that at which the
/// partition starts.
fn layout(slot: usize) -> (offsets: (u64, u64))
    ensures
        offsets.0 == mark_offset(slot as int),
        offsets.1 == partition_start(slot as int),
{
    match slot {
        0 => (0xfda0000, 0xfd90000),
        1 => (0x2090000, 0x2080000),
        _ => (0x10000, 0x0),
    }
}

/// `bytes` are the mark of a game partition.
fn is_xgd_magic(bytes: &[u8; 20]) -> (is: bool)
    ensures
        is == (bytes@ == xgd_magic()),
{
    let magic: [u8; 20] = [
        0x4d,
        0x49,
        0x43,
        0x52,
        0x4f,
        0x53,
        0x4f,
        0x46,
        0x54,
        0x2a,
        0x58,
        0x42,
        0x4f,
        0x58,
        0x2a,
        0x4d,
        0x45,
        0x44,
        0x49,
        0x41,
    ];
    assert(magic@ =~= xgd_magic());
    let mut i: usize = 0;
    while i < 20
        invariant
            i <= 20,
            magic@ == xgd_magic(),
            forall|k: int| 0 <= k < i ==> bytes@[k] == magic@[k],
        decreases 20 - i,
    {
        if bytes[i] != magic[i] {
            return false;
        }
        i += 1;
    }
    assert(bytes@ =~= xgd_magic());
    true
}

/// Goes on with the search for the game partition of an image of `len` bytes:
/// `last` is the layout that was looked at last, with the bytes that stand
/// where its mark should, and nothing at the start.
///
/// The layouts are tried in order. An image that has none of the marks is taken
/// to be the partition itself.
pub fn get_data_start(len: u64, last: Option<(usize, [u8; 20])>) -> (step: ProbeStep)
    requires
        last matches Some(seen) ==> seen.0 < LAYOUTS,
    ensures
        step == (match last {
            None => next_probe(len, 0),
            Some(seen) => if seen.1@ == xgd_magic() {
                ProbeStep::Found(partition_start(seen.0 as int))
            } else {
                next_probe(len, seen.0 + 1)
            },
        }),
{
    let mut slot: usize = match last {
        None => 0,
        Some(seen) => {
            if is_xgd_magic(&seen.1) {
                return ProbeStep::Found(layout(seen.0).1);
            }
            seen.0 + 1
        },
    };
    let ghost from = slot as int;
    #[verifier::loop_isolation(false)]
    while slot < LAYOUTS
        invariant
            slot <= LAYOUTS,
            next_probe(len, slot as int) == next_probe(len, from),
        decreases LAYOUTS - slot,
    {
        let offset: u64 = layout(slot).0;
        if len >= offset + 20 {
            return ProbeStep::Read { slot, offset };
        }
        slot += 1;
    }
    ProbeStep::Found(0)
}

/// The mark stands at `offset` of `image`.
pub open spec fn marked_at(image: Seq<u8>, offset: u64) -> bool {
    &&& offset + 20 <= image.len()
    &&& image.subrange(offset as int, offset + 20) == xgd_magic()
}

/// Where the game partition of `image` starts.
pub open spec fn data_start_of(image: Seq<u8>) -> u64 {
    if marked_at(image, 0xfda0000) {
        0xfd90000
    } else if marked_at(image, 0x2090000) {
        0x2080000
    } else {
        0
    }
}

/// What the search among the layouts from `slot` on comes to if its reads are
/// answered from `image`.
pub open spec fn search(image: Seq<u8>, slot: int) -> u64
    decreases LAYOUTS - slot,
{
    if slot >= LAYOUTS {
        0
    } else {
        match next_probe(image.len() as u64, slot) {
            ProbeStep::Found(start) => start,
            ProbeStep::Read { slot: read, offset } => if !(slot <= read < LAYOUTS) {
                0
            } else if image.subrange(offset as int, offset + 20) == xgd_magic() {
                partition_start(read as int)
            } else {
                search(image, read + 1)
            },
        }
    }
}

/// The search finds the game partition by the first mark that the image has.
pub proof fn law_the_search_finds_the_partition(image: Seq<u8>)
    requires
        image.len() <= u64::MAX,
    ensures
        search(image, 0) == data_start_of(image),
{
    reveal_with_fuel(search, 4);
    reveal_with_fuel(next_probe, 4);
}

/// A game partition is marked by the text `MICROSOFT*XBOX*MEDIA`.
pub proof fn law_a_partition_is_marked_by_its_text(image: Seq<u8>, offset: u64)
    ensures
        marked_at(image, offset) <==> offset + 20 <= image.len() && forall|i: int|
            0 <= i < 20 ==> image[offset + i] == #[trigger] "MICROSOFT*XBOX*MEDIA"@[i] as u8,
{
    reveal_strlit("MICROSOFT*XBOX*MEDIA");
    let text = "MICROSOFT*XBOX*MEDIA"@;
    let magic = xgd_magic();
    assert forall|i: int| 0 <= i < 20 implies magic[i] == #[trigger] text[i] as u8 by {
        assert(i == 0 || i == 1 || i == 2 || i == 3 || i == 4 || i == 5 || i == 6 || i == 7 || i
            == 8 || i == 9 || i == 10 || i == 11 || i == 12 || i == 13 || i == 14 || i == 15 || i
            == 16 || i == 17 || i == 18 || i == 19);
    }
    if offset + 20 <= image.len() {
        let part = image.subrange(offset as int, offset + 20);
        if part == magic {
            assert forall|i: int| 0 <= i < 20 implies image[offset + i] == #[trigger] text[i]
                as u8 by {
                assert(part[i] == magic[i]);
            }
        } else if forall|i: int| 0 <= i < 20 ==> image[offset + i] == #[trigger] text[i] as u8 {
            assert forall|i: int| 0 <= i < 20 implies part[i] == magic[i] by {
                assert(magic[i] == text[i] as u8);
            }
            assert(part =~= magic);
        }
    }
}

/// A list says of each image what its entry does.
pub proof fn law_a_list_says_what_its_entries_do(entries: Seq<IsoEntry>, at: int)
    requires
        0 <= at < entries.len(),
    ensures
        entries_view(entries).len() == entries.len(),
        entries_view(entries)[at].path == entries[at].path@,
        entries_view(entries)[at].filename == entries[at].filename@,
        entries_view(entries)[at].data_start == entries[at].data_start,
        entries_view(entries)[at].sector_count == entries[at].sector_count,
        entries_view(entries)[at].has_type1_file == entries[at].has_type1_file,
{
}

} // verus!
