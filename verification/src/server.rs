//! One console's connection: what each request is answered.
//!
//! The connection and the images' files are with the caller: a request gives an
//! [`Action`], which the caller carries out, and what came of it gives the next.

use crate::bytes::{
    be_bytes, be_range, be_value, law_bytes_spell_the_number, law_each_byte_has_its_place,
    law_the_last_bytes_are_left, lemma_one_byte_more, write_be,
};
use crate::chd_cache::{law_a_read_gives_the_bytes_of_the_image, ChdView};
use crate::iso::{entries_view, IsoEntry, IsoEntryView, SECTOR_SIZE};
use crate::message::{
    law_each_part_of_a_request_has_its_place, parsed, Cmd, Message, MessageError,
};
use crate::paths::{
    extension_or_empty, file_name_of, last_dot, may_be_extension, plain, portable,
};
use crate::scan::{
    find_inner_iso, first_iso, image_kind, law_an_image_is_stored_as_its_extension_says,
    law_the_first_image_of_an_archive_is_found, may_be_kind, ImageKind,
};
use crate::text::{
    ascii_lowered, ends_with, lemma_removed_around, lemma_removed_is_gone, lemma_removed_is_part,
    lemma_removed_of_absent, lemma_removed_of_nothing, lemma_removed_of_sum, lemma_removed_tail,
    lemma_two_removed, lowered, remove_all, removed, same_text, text_from_utf8, texts,
    to_lowercase,
};
use vstd::prelude::*;
use vstd::string::*;
use vstd::utf8::{
    decode_utf8, encode_scalar, encode_utf8, encode_utf8_decode_utf8, encode_utf8_valid_utf8,
    is_ascii_chars, is_ascii_chars_encode_utf8, valid_utf8,
};

verus! {

/// How the mounted image is read.
#[derive(Debug)]
pub enum IsoFile {
    /// From its file.
    Regular,
    /// From the file at `inner_path` of an archive.
    Ziso { inner_path: String },
    /// From a CHD.
    Chd,
}

/// The mounted image.
#[derive(Debug)]
pub struct ActiveIso {
    pub file: IsoFile,
    pub metadata: IsoEntry,
}

/// What the server knows on one connection.
#[derive(Debug)]
pub struct Server {
    /// The images that it offers.
    pub files: Vec<IsoEntry>,
    /// The image that is mounted.
    pub active_file: Option<ActiveIso>,
}

/// How the mounted image is read.
pub enum IsoFileView {
    Regular,
    Ziso { inner_path: Seq<char> },
    Chd,
}

/// What an [`ActiveIso`] says.
pub struct ActiveView {
    pub file: IsoFileView,
    pub metadata: IsoEntryView,
}

/// What a [`Server`] is: the images that it offers, and the one that is mounted.
#[verifier::ext_equal]
pub struct ServerView {
    pub files: Seq<IsoEntryView>,
    pub active: Option<ActiveView>,
}

impl View for IsoFile {
    type V = IsoFileView;

    open spec fn view(&self) -> IsoFileView {
        match self {
            IsoFile::Regular => IsoFileView::Regular,
            IsoFile::Ziso { inner_path } => IsoFileView::Ziso { inner_path: inner_path@ },
            IsoFile::Chd => IsoFileView::Chd,
        }
    }
}

impl View for ActiveIso {
    type V = ActiveView;

    open spec fn view(&self) -> ActiveView {
        ActiveView { file: self.file@, metadata: self.metadata@ }
    }
}

impl View for Server {
    type V = ServerView;

    open spec fn view(&self) -> ServerView {
        ServerView {
            files: entries_view(self.files@),
            active: match self.active_file {
                Some(active) => Some(active@),
                None => None,
            },
        }
    }
}

/// What is to be done upon a request.
#[derive(Debug)]
pub enum Action {
    /// End the connection: the console has left.
    Close,
    /// Nothing.
    Ignore,
    /// Send these bytes.
    Send(Vec<u8>),
    /// Send `length` bytes of the mounted image's file from `offset` on.
    ReadFile { offset: u64, length: u32 },
    /// Read `length` bytes from `offset` on of the image in the mounted
    /// archive, for [`ziso_reply`].
    ReadZiso { offset: u64, length: u32 },
    /// Read `length` bytes of the mounted CHD from `offset` on, for
    /// [`chd_reply`].
    ReadChd { offset: u64, length: u32 },
    /// Receive `length` bytes, for [`Server::mount`].
    ReceiveName { length: u32 },
}

/// What an [`Action`] says.
#[verifier::ext_equal]
pub enum ActionView {
    Close,
    Ignore,
    Send(Seq<u8>),
    ReadFile { offset: u64, length: u32 },
    ReadZiso { offset: u64, length: u32 },
    ReadChd { offset: u64, length: u32 },
    ReceiveName { length: u32 },
}

impl View for Action {
    type V = ActionView;

    open spec fn view(&self) -> ActionView {
        match self {
            Action::Close => ActionView::Close,
            Action::Ignore => ActionView::Ignore,
            Action::Send(bytes) => ActionView::Send(bytes@),
            Action::ReadFile { offset, length } => ActionView::ReadFile {
                offset: *offset,
                length: *length,
            },
            Action::ReadZiso { offset, length } => ActionView::ReadZiso {
                offset: *offset,
                length: *length,
            },
            Action::ReadChd { offset, length } => ActionView::ReadChd {
                offset: *offset,
                length: *length,
            },
            Action::ReceiveName { length } => ActionView::ReceiveName { length: *length },
        }
    }
}

/// `n` zero bytes.
pub open spec fn zeros(n: nat) -> Seq<u8> {
    Seq::new(n, |i: int| 0u8)
}

/// The first `n` of `bytes`, filled up with zeros.
pub open spec fn padded(bytes: Seq<u8>, n: nat) -> Seq<u8> {
    if bytes.len() >= n {
        bytes.take(n as int)
    } else {
        bytes + zeros((n - bytes.len()) as nat)
    }
}

/// The answer to a ping: `ISVRokOK`.
pub open spec fn pong() -> Seq<u8> {
    seq![0x49u8, 0x53u8, 0x56u8, 0x52u8, 0x6fu8, 0x6bu8, 0x4fu8, 0x4bu8]
}

/// A server for a new connection, which offers `files`.
pub open spec fn server_for(files: Seq<IsoEntryView>) -> ServerView {
    ServerView { files, active: None }
}

impl ServerView {
    /// What is to be done upon `message`.
    pub open spec fn answer(self, message: Message) -> ActionView {
        let named = if message.iso_index < self.files.len() {
            Some(self.files[message.iso_index as int])
        } else {
            None
        };
        match message.cmd_type {
            Cmd::Ping => ActionView::Send(pong()),
            // The number of sectors is sent in four bytes, also where it takes more.
            Cmd::GetIsoSize => ActionView::Send(
                be_bytes(
                    match self.active {
                        Some(active) => active.metadata.sector_count as nat,
                        None => 0,
                    },
                    4,
                ) + be_bytes(SECTOR_SIZE as nat, 4),
            ),
            Cmd::HasType1File => ActionView::Send(
                be_bytes(
                    match named {
                        Some(entry) => entry.has_type1_file as nat,
                        None => 0,
                    },
                    4,
                ),
            ),
            Cmd::ReadData => match self.active {
                None => ActionView::Ignore,
                Some(active) => match active.file {
                    IsoFileView::Regular => ActionView::ReadFile {
                        offset: message.offset,
                        length: message.length,
                    },
                    IsoFileView::Ziso { .. } => ActionView::ReadZiso {
                        offset: if message.offset >= active.metadata.data_start {
                            (message.offset - active.metadata.data_start) as u64
                        } else {
                            0
                        },
                        length: message.length,
                    },
                    IsoFileView::Chd => ActionView::ReadChd {
                        offset: message.offset,
                        length: message.length,
                    },
                },
            },
            Cmd::GetIsoName => ActionView::Send(
                padded(
                    match named {
                        Some(entry) => encode_utf8(entry.filename),
                        None => Seq::empty(),
                    },
                    message.length as nat,
                ),
            ),
            Cmd::MountIso => ActionView::ReceiveName { length: message.length },
        }
    }

    /// The `size` bytes that have been received into `buffer` lead to `next`, and
    /// `action` is to be done upon them.
    pub open spec fn handles(
        self,
        size: int,
        buffer: Seq<u8>,
        next: ServerView,
        action: Result<Action, MessageError>,
    ) -> bool {
        if size == 0 {
            action is Ok && action->Ok_0@ == ActionView::Close && next == self.unmounted()
        } else {
            next == self && match parsed(buffer) {
                Err(refused) => action == Err::<Action, MessageError>(refused),
                Ok(message) => action is Ok && action->Ok_0@ == self.answer(message),
            }
        }
    }

    /// The same server with nothing mounted.
    pub open spec fn unmounted(self) -> ServerView {
        ServerView { active: None, ..self }
    }

    /// The same server with the image at `index` mounted.
    pub open spec fn mounted(self, index: int, file: IsoFileView) -> ServerView {
        ServerView { active: Some(ActiveView { file, metadata: self.files[index] }), ..self }
    }
}

/// The first `n` of `bytes`, filled up with zeros.
fn pad(bytes: &[u8], n: usize) -> (out: Vec<u8>)
    ensures
        out@ == padded(bytes@, n as nat),
{
    let mut out: Vec<u8> = Vec::with_capacity(n);
    let mut i: usize = 0;
    while i < n
        invariant
            i <= n,
            out@ == padded(bytes@, i as nat),
        decreases n - i,
    {
        let byte: u8 = if i < bytes.len() {
            bytes[i]
        } else {
            0
        };
        out.push(byte);
        i += 1;
        assert(out@ =~= padded(bytes@, i as nat));
    }
    out
}

impl Server {
    /// A server for a new connection.
    pub fn new(files: Vec<IsoEntry>) -> (server: Server)
        ensures
            server@ == server_for(entries_view(files@)),
    {
        Server { files, active_file: None }
    }

    /// Unmounts the mounted image.
    pub fn disable_current_iso(&mut self)
        ensures
            final(self)@ == old(self)@.unmounted(),
    {
        self.active_file = None;
    }

    /// What is to be done upon the `size` bytes that have been received into
    /// `buffer`, which is zero behind them. Receiving none means that the
    /// console has left; bytes that are no request end the connection too.
    pub fn handler(&mut self, size: usize, buffer: &[u8; 20]) -> (action: Result<
        Action,
        MessageError,
    >)
        ensures
            old(self)@.handles(size as int, buffer@, final(self)@, action),
    {
        if size == 0 {
            self.disable_current_iso();
            return Ok(Action::Close);
        }
        match Message::read(buffer) {
            Err(refused) => Err(refused),
            Ok(message) => Ok(self.answer(message)),
        }
    }

    /// What is to be done upon `message`.
    pub fn answer(&self, message: Message) -> (action: Action)
        ensures
            action@ == self@.answer(message),
    {
        let index: usize = message.iso_index as usize;
        match message.cmd_type {
            Cmd::Ping => {
                let bytes: Vec<u8> = vec![0x49, 0x53, 0x56, 0x52, 0x6f, 0x6b, 0x4f, 0x4b];
                assert(bytes@ =~= pong());
                Action::Send(bytes)
            },
            Cmd::GetIsoSize => {
                let sector_count: u64 = match &self.active_file {
                    Some(active) => active.metadata.sector_count,
                    None => 0,
                };
                let mut bytes: Vec<u8> = write_be(sector_count, 4);
                let mut sector_size: Vec<u8> = write_be(SECTOR_SIZE as u64, 4);
                bytes.append(&mut sector_size);
                Action::Send(bytes)
            },
            Cmd::HasType1File => {
                let flag: u32 = if index < self.files.len() {
                    self.files[index].has_type1_file
                } else {
                    0
                };
                Action::Send(write_be(flag as u64, 4))
            },
            Cmd::ReadData => match &self.active_file {
                None => Action::Ignore,
                Some(active) => match &active.file {
                    IsoFile::Regular => Action::ReadFile {
                        offset: message.offset,
                        length: message.length,
                    },
                    IsoFile::Ziso { .. } => Action::ReadZiso {
                        offset: message.offset.saturating_sub(active.metadata.data_start),
                        length: message.length,
                    },
                    IsoFile::Chd => Action::ReadChd {
                        offset: message.offset,
                        length: message.length,
                    },
                },
            },
            Cmd::GetIsoName => {
                let length: usize = message.length as usize;
                if index < self.files.len() {
                    Action::Send(pad(self.files[index].filename.as_str().as_bytes(), length))
                } else {
                    let nothing: Vec<u8> = Vec::new();
                    Action::Send(pad(nothing.as_slice(), length))
                }
            },
            Cmd::MountIso => Action::ReceiveName { length: message.length },
        }
    }
}

/// What is to be done upon a name to be mounted.
#[derive(Debug)]
pub enum MountStep {
    /// The mounted image has been unmounted: send these bytes.
    Disabled(Vec<u8>),
    /// No image has that name: send these bytes.
    NotFound(Vec<u8>),
    /// Open the image at `index`, which is stored as `kind` says, for
    /// [`Server::opened`].
    Open { index: usize, kind: ImageKind },
}

/// What came of opening an image.
#[derive(Debug)]
pub enum Opened {
    /// It could not be opened.
    Failed,
    /// Its file is open.
    File,
    /// It is open as an archive, which holds these files.
    Archive(Vec<String>),
    /// It is open as a CHD.
    Chd,
}

/// What came of mounting an opened image.
#[derive(Debug)]
pub enum Mounted {
    /// It is mounted: send these bytes.
    Done(Vec<u8>),
    /// It is not: send these bytes.
    Refused(Vec<u8>),
}

impl Mounted {
    /// The image is not mounted, which is answered with 0.
    pub open spec fn is_refused(self) -> bool {
        self matches Mounted::Refused(bytes) && bytes@ == be_bytes(0, 4)
    }

    /// The image is mounted, which is answered with 1.
    pub open spec fn is_done(self) -> bool {
        self matches Mounted::Done(bytes) && bytes@ == be_bytes(1, 4)
    }
}

/// Why a name to be mounted was not understood: it is not UTF-8.
#[derive(Clone, Copy, PartialEq, Eq, Structural, Debug)]
pub struct NameNotUtf8;

/// A name as a console sends it, without the directory in front, without the
/// separators and without the zeros that fill it up.
pub open spec fn normalized(name: Seq<char>) -> Seq<char> {
    removed(removed(removed(name, "\\Mount"@), "\\"@), "\0"@)
}

/// The name that stands for no image.
pub open spec fn no_image() -> Seq<char> {
    "[Disable Current ISO]"@
}

/// `name` is what the name of an image ends with, but for letter case.
pub open spec fn names_image(entry: IsoEntryView, name: Seq<char>) -> bool {
    lowered(name).is_suffix_of(lowered(entry.filename))
}

/// Which is the first of `files` that `name` names; the number of files if it
/// names none.
pub open spec fn first_named(files: Seq<IsoEntryView>, name: Seq<char>) -> int
    decreases files.len(),
{
    if files.len() == 0 || names_image(files[0], name) {
        0
    } else {
        1 + first_named(files.skip(1), name)
    }
}

proof fn lemma_first_named(files: Seq<IsoEntryView>, name: Seq<char>, at: int)
    requires
        0 <= at <= files.len(),
        forall|k: int| 0 <= k < at ==> !names_image(#[trigger] files[k], name),
        at < files.len() ==> names_image(files[at], name),
    ensures
        first_named(files, name) == at,
    decreases files.len(),
{
    if files.len() > 0 && at > 0 {
        assert(!names_image(files[0], name));
        assert forall|k: int| 0 <= k < at - 1 implies !names_image(
            #[trigger] files.skip(1)[k],
            name,
        ) by {
            assert(!names_image(files[k + 1], name));
        }
        lemma_first_named(files.skip(1), name, at - 1);
    }
}

/// A name as a console sends it, without the directory in front, without the
/// separators and without the zeros that fill it up.
pub fn normalize(name: &str) -> (clean: String)
    ensures
        clean@ == normalized(name@),
{
    proof {
        reveal_strlit("\\Mount");
        reveal_strlit("\\");
        reveal_strlit("\0");
    }
    let no_directory: String = remove_all(name, "\\Mount");
    let no_separator: String = remove_all(no_directory.as_str(), "\\");
    remove_all(no_separator.as_str(), "\0")
}

impl ServerView {
    /// The wish to mount what `name` names leads to `next`, and `step` is to be
    /// done upon it.
    pub open spec fn mounts(
        self,
        name: Seq<u8>,
        next: ServerView,
        step: Result<MountStep, NameNotUtf8>,
    ) -> bool {
        let wanted = normalized(decode_utf8(name));
        let at = first_named(self.files, wanted);
        &&& step is Err <==> !valid_utf8(name)
        &&& next == (if valid_utf8(name) && wanted == no_image() {
            self.unmounted()
        } else {
            self
        })
        &&& step matches Ok(step) ==> if wanted == no_image() {
            step matches MountStep::Disabled(bytes) && bytes@ == be_bytes(0, 4)
        } else if at >= self.files.len() {
            step matches MountStep::NotFound(bytes) && bytes@ == be_bytes(0, 4)
        } else {
            &&& step matches MountStep::Open { index, kind }
            &&& index == at
            &&& may_be_kind(self.files[at].path, kind)
        }
    }

    /// That opening the image at `index` came to `outcome` leads to `next`, and
    /// `reply` is what came of mounting it.
    pub open spec fn opens(
        self,
        index: int,
        outcome: Opened,
        next: ServerView,
        reply: Mounted,
    ) -> bool {
        match outcome {
            Opened::Failed => reply.is_refused() && next == self,
            Opened::File => reply.is_done() && next == self.mounted(index, IsoFileView::Regular),
            Opened::Chd => reply.is_done() && next == self.mounted(index, IsoFileView::Chd),
            Opened::Archive(names) => match first_iso(texts(names@)) {
                Some(inner) => {
                    &&& reply.is_done()
                    &&& next == self.mounted(
                        index,
                        IsoFileView::Ziso { inner_path: names@[inner]@ },
                    )
                },
                None => reply.is_refused() && next == self,
            },
        }
    }
}

impl Server {
    /// Which is the first image that `name` names; the number of images if it
    /// names none.
    fn find(&self, name: &str) -> (at: usize)
        ensures
            at == first_named(self@.files, name@),
            at <= self@.files.len(),
    {
        let wanted: String = to_lowercase(name);
        let mut i: usize = 0;
        while i < self.files.len()
            invariant
                i <= self.files@.len(),
                wanted@ == lowered(name@),
                forall|k: int| 0 <= k < i ==> !names_image(#[trigger] self@.files[k], name@),
            decreases self.files@.len() - i,
        {
            let filename: String = to_lowercase(self.files[i].filename.as_str());
            assert(filename@ == lowered(self@.files[i as int].filename));
            if ends_with(filename.as_str(), wanted.as_str()) {
                proof {
                    lemma_first_named(self@.files, name@, i as int);
                }
                return i;
            }
            i += 1;
        }
        proof {
            lemma_first_named(self@.files, name@, i as int);
        }
        i
    }

    /// What is to be done upon `name`, which a console wants mounted. The name
    /// that stands for no image unmounts the mounted one and is answered with
    /// 0, as is a name that names no image.
    pub fn mount(&mut self, name: Vec<u8>) -> (step: Result<MountStep, NameNotUtf8>)
        ensures
            old(self)@.mounts(name@, final(self)@, step),
    {
        let text: String = match text_from_utf8(name) {
            Some(text) => text,
            None => return Err(NameNotUtf8),
        };
        let wanted: String = normalize(text.as_str());
        if same_text(wanted.as_str(), "[Disable Current ISO]") {
            self.disable_current_iso();
            return Ok(MountStep::Disabled(write_be(0, 4)));
        }
        let index: usize = self.find(wanted.as_str());
        if index < self.files.len() {
            assert(self@.files[index as int].path == self.files@[index as int].path@);
            let kind: ImageKind = image_kind(self.files[index].path.as_str());
            Ok(MountStep::Open { index, kind })
        } else {
            Ok(MountStep::NotFound(write_be(0, 4)))
        }
    }

    /// Mounts the image at `index`, if opening it came to something, and gives
    /// the answer: 1 if it was mounted, else 0. An image that was mounted
    /// before stays so if this one is not.
    pub fn opened(&mut self, index: usize, outcome: Opened) -> (reply: Mounted)
        requires
            index < old(self)@.files.len(),
        ensures
            old(self)@.opens(index as int, outcome, final(self)@, reply),
    {
        let file: IsoFile = match outcome {
            Opened::Failed => return Mounted::Refused(write_be(0, 4)),
            Opened::File => IsoFile::Regular,
            Opened::Chd => IsoFile::Chd,
            Opened::Archive(names) => match find_inner_iso(&names) {
                None => return Mounted::Refused(write_be(0, 4)),
                Some(inner) => IsoFile::Ziso { inner_path: names[inner].clone() },
            },
        };
        let metadata: IsoEntry = self.files[index].clone();
        self.active_file = Some(ActiveIso { file, metadata });
        Mounted::Done(write_be(1, 4))
    }
}

/// The answer to a request for `length` bytes of an image in an archive, given
/// what the archive gave: zeros where it gave nothing.
pub open spec fn archive_answer(length: nat, data: Option<Seq<u8>>) -> Seq<u8> {
    match data {
        Some(bytes) => bytes.take(length as int),
        None => zeros(length),
    }
}

/// The answer to a request for `length` bytes of an image in an archive, given
/// what the archive gave: zeros where it gave nothing.
pub fn ziso_reply(length: u32, data: Option<Vec<u8>>) -> (reply: Vec<u8>)
    requires
        data matches Some(bytes) ==> bytes@.len() >= length,
    ensures
        reply@ == archive_answer(
            length as nat,
            match data {
                Some(bytes) => Some(bytes@),
                None => None,
            },
        ),
{
    match data {
        Some(bytes) => pad(bytes.as_slice(), length as usize),
        None => {
            let nothing: Vec<u8> = Vec::new();
            let reply: Vec<u8> = pad(nothing.as_slice(), length as usize);
            assert(reply@ =~= zeros(length as nat));
            reply
        },
    }
}

/// The answer to a request for `length` bytes of a CHD image, given what could
/// be read: filled up with zeros where that is less.
pub fn chd_reply(length: u32, data: &Vec<u8>) -> (reply: Vec<u8>)
    ensures
        reply@ == padded(data@, length as nat),
{
    pad(data.as_slice(), length as usize)
}

/// What is sent for a name, or for bytes that may fall short, has the length
/// that was asked for.
pub proof fn law_a_padded_answer_has_the_length_asked_for(bytes: Seq<u8>, n: nat)
    ensures
        padded(bytes, n).len() == n,
        zeros(n).len() == n,
{
}

/// A mounted image is the one that is described, and when nothing is mounted no
/// data is sent.
pub proof fn law_the_mounted_image_is_described(
    server: ServerView,
    index: int,
    file: IsoFileView,
    message: Message,
)
    requires
        0 <= index < server.files.len(),
        message.cmd_type == Cmd::GetIsoSize,
    ensures
        server.mounted(index, file).answer(message) == ActionView::Send(
            be_bytes(server.files[index].sector_count as nat, 4) + be_bytes(2048, 4),
        ),
        server.unmounted().answer(message) == ActionView::Send(
            be_bytes(0, 4) + be_bytes(2048, 4),
        ),
        server.unmounted().answer(Message { cmd_type: Cmd::ReadData, ..message })
            == ActionView::Ignore,
{
}

/// However an image is stored, the bytes that are read are those that the
/// console asked for, if one in an archive is listed with its partition at the
/// start, as those are.
pub proof fn law_the_bytes_asked_for_are_read(server: ServerView, message: Message)
    requires
        message.cmd_type == Cmd::ReadData,
        server.active matches Some(active) && (active.file is Ziso
            ==> active.metadata.data_start == 0),
    ensures
        match server.answer(message) {
            ActionView::ReadFile { offset, length } => offset == message.offset && length
                == message.length,
            ActionView::ReadZiso { offset, length } => offset == message.offset && length
                == message.length,
            ActionView::ReadChd { offset, length } => offset == message.offset && length
                == message.length,
            _ => false,
        },
{
}

/// A name to be mounted is looked for without separators and zeros.
pub proof fn law_no_separators_or_zeros_are_looked_for(name: Seq<char>)
    ensures
        !normalized(name).contains('\\'),
        !normalized(name).contains('\0'),
{
    reveal_strlit("\\");
    reveal_strlit("\0");
    assert("\\"@ =~= seq!['\\']);
    assert("\0"@ =~= seq!['\0']);
    let no_directory = removed(name, "\\Mount"@);
    lemma_removed_is_gone(no_directory, '\\');
    lemma_removed_is_part(removed(no_directory, "\\"@), "\0"@, '\\');
    lemma_removed_is_gone(removed(no_directory, "\\"@), '\0');
}

/// A name that was told in full can be sent back to be mounted: it names the
/// image that it was told for, or one before it in the list.
pub proof fn law_a_told_name_can_be_mounted(files: Seq<IsoEntryView>, index: int, n: nat)
    requires
        0 <= index < files.len(),
        encode_utf8(files[index].filename).len() <= n,
        !files[index].filename.contains('\\'),
        !files[index].filename.contains('\0'),
        files[index].filename != no_image(),
    ensures
        valid_utf8(padded(encode_utf8(files[index].filename), n)),
        normalized(decode_utf8(padded(encode_utf8(files[index].filename), n)))
            == files[index].filename,
        first_named(files, files[index].filename) <= index,
{
    let name = files[index].filename;
    let fill = (n - encode_utf8(name).len()) as nat;
    let sent = name + Seq::new(fill, |i: int| '\0');
    lemma_encoding_of_filled(name, fill);
    assert(padded(encode_utf8(name), n) =~= encode_utf8(name) + zeros(fill));
    encode_utf8_valid_utf8(sent);
    encode_utf8_decode_utf8(sent);
    reveal_strlit("\\Mount");
    reveal_strlit("\\");
    reveal_strlit("\0");
    assert("\0"@ =~= seq!['\0']);
    if sent.contains('\\') {
        let k = choose|k: int| 0 <= k < sent.len() && sent[k] == '\\';
        assert(name[k] == '\\');
    }
    lemma_removed_of_nothing(sent, "\\Mount"@);
    lemma_removed_of_nothing(sent, "\\"@);
    lemma_removed_tail(name, '\0', fill);
    lemma_first_named_is_first(files, name, index);
}

proof fn lemma_first_named_is_first(files: Seq<IsoEntryView>, name: Seq<char>, at: int)
    requires
        0 <= at < files.len(),
        names_image(files[at], name),
    ensures
        first_named(files, name) <= at,
    decreases at,
{
    if at > 0 {
        lemma_first_named_is_first(files.skip(1), name, at - 1);
    }
}

/// A text filled up with zero characters is encoded as the text filled up with
/// zero bytes.
proof fn lemma_encoding_of_filled(text: Seq<char>, n: nat)
    ensures
        encode_utf8(text + Seq::new(n, |i: int| '\0')) == encode_utf8(text) + zeros(n),
    decreases text.len() + n,
{
    let all = text + Seq::new(n, |i: int| '\0');
    if text.len() > 0 {
        let tail = text.drop_first();
        assert(all.drop_first() =~= tail + Seq::new(n, |i: int| '\0'));
        lemma_encoding_of_filled(tail, n);
        assert(encode_utf8(all) =~= encode_utf8(text) + zeros(n));
    } else if n > 0 {
        let fewer = (n - 1) as nat;
        assert(all.drop_first() =~= text + Seq::new(fewer, |i: int| '\0'));
        lemma_encoding_of_filled(text, fewer);
        assert(is_ascii_chars(seq!['\0']));
        is_ascii_chars_encode_utf8(seq!['\0']);
        assert(seq!['\0'].drop_first() =~= Seq::<char>::empty());
        assert(encode_utf8(seq!['\0']) =~= encode_scalar(0u32));
        assert(encode_scalar(0u32) =~= seq![0u8]);
        assert(encode_utf8(all) =~= encode_utf8(text) + zeros(n));
    } else {
        assert(all =~= text);
        assert(encode_utf8(text) + zeros(n) =~= encode_utf8(text));
    }
}

/// The size of an image is told exactly, if its number of sectors fits in the
/// four bytes that it is told in.
pub proof fn law_the_size_is_told_exactly(server: ServerView, message: Message)
    requires
        message.cmd_type == Cmd::GetIsoSize,
        server.active matches Some(active) && active.metadata.sector_count <= u32::MAX,
    ensures
        server.answer(message) matches ActionView::Send(bytes) && bytes.len() == 8 && be_value(
            bytes.take(4),
        ) == server.active->0.metadata.sector_count && be_value(bytes.skip(4)) == 2048,
{
    reveal_with_fuel(be_range, 5);
    let sectors = server.active->0.metadata.sector_count as nat;
    law_bytes_spell_the_number(sectors, 4);
    law_bytes_spell_the_number(2048, 4);
    let bytes = be_bytes(sectors, 4) + be_bytes(2048, 4);
    assert(bytes.take(4) =~= be_bytes(sectors, 4));
    assert(bytes.skip(4) =~= be_bytes(2048, 4));
}

/// A console that reads from a mounted archive gets the bytes of the image that
/// it asked for, if the archive gives those that it is asked for.
pub proof fn law_an_archive_is_answered_with_its_bytes(
    server: ServerView,
    message: Message,
    image: Seq<u8>,
)
    requires
        message.cmd_type == Cmd::ReadData,
        server.active matches Some(active) && active.file is Ziso && active.metadata.data_start
            == 0,
        message.offset + message.length <= image.len(),
    ensures
        server.answer(message) matches ActionView::ReadZiso { offset, length } && archive_answer(
            length as nat,
            Some(image.subrange(offset as int, offset + length)),
        ) == image.subrange(message.offset as int, message.offset + message.length),
{
    let bytes = image.subrange(message.offset as int, message.offset + message.length);
    assert(bytes.take(message.length as int) =~= bytes);
}

/// A console that reads from a mounted CHD gets the bytes of the image, whatever
/// was at hand, and zeros where the image has ended.
pub proof fn law_a_chd_is_answered_with_its_bytes(
    state: ChdView,
    disc: Seq<u8>,
    offset: nat,
    length: nat,
)
    requires
        state.wf(),
        state.holds(disc),
        offset < state.logical_size(),
    ensures
        ({
            let reply = padded(state.read_through(disc, offset, length, Seq::empty()), length);
            &&& reply.len() == length
            &&& forall|i: int|
                0 <= i < length ==> #[trigger] reply[i] == (if offset + i < disc.len() {
                    disc[offset + i]
                } else {
                    0
                })
        }),
{
    law_a_read_gives_the_bytes_of_the_image(state, disc, offset, length);
}

/// Bytes that have been received are understood by their places: a request leaves
/// the server as it is and is answered by its command, and no bytes at all unmount
/// the mounted image and end the connection.
pub proof fn law_a_received_request_is_answered(
    server: ServerView,
    size: int,
    buffer: Seq<u8>,
    next: ServerView,
    action: Result<Action, MessageError>,
)
    requires
        buffer.len() == 20,
        server.handles(size, buffer, next, action),
    ensures
        next.files == server.files,
        next.active == (if size == 0 {
            None
        } else {
            server.active
        }),
        size == 0 ==> action is Ok && action->Ok_0 is Close,
        size != 0 ==> {
            let starts = buffer[0] == 'I' as u8 && buffer[1] == 'S' as u8 && buffer[2] == 'V' as u8
                && buffer[3] == 'R' as u8;
            let number = 256 * buffer[4] + buffer[5];
            let message = Message {
                cmd_type: if number == 0 {
                    Cmd::Ping
                } else if number == 1 {
                    Cmd::GetIsoSize
                } else if number == 2 {
                    Cmd::HasType1File
                } else if number == 3 {
                    Cmd::ReadData
                } else if number == 4 {
                    Cmd::GetIsoName
                } else {
                    Cmd::MountIso
                },
                iso_index: (256 * buffer[6] + buffer[7]) as u16,
                offset: (0x100_0000_0000_0000 * buffer[8] + 0x1_0000_0000_0000 * buffer[9]
                    + 0x100_0000_0000 * buffer[10] + 0x1_0000_0000 * buffer[11] + 0x100_0000
                    * buffer[12] + 0x1_0000 * buffer[13] + 256 * buffer[14] + buffer[15]) as u64,
                length: (0x100_0000 * buffer[16] + 0x1_0000 * buffer[17] + 256 * buffer[18]
                    + buffer[19]) as u32,
            };
            &&& !starts ==> action == Err::<Action, MessageError>(MessageError::BadMagic)
            &&& starts && number > 5 ==> action == Err::<Action, MessageError>(
                MessageError::UnknownCommand(number as u16),
            )
            &&& starts && number <= 5 ==> action is Ok && action->Ok_0@ == server.answer(message)
        },
{
    law_each_part_of_a_request_has_its_place(buffer);
}

/// A ping is answered with `ISVRokOK`, whatever is offered or mounted.
pub proof fn law_a_ping_is_answered(server: ServerView, message: Message)
    requires
        message.cmd_type == Cmd::Ping,
    ensures
        server.answer(message) matches ActionView::Send(bytes) && bytes.len() == 8 && forall|i: int|
            0 <= i < 8 ==> #[trigger] bytes[i] == seq!['I', 'S', 'V', 'R', 'o', 'k', 'O', 'K'][i]
                as u8,
{
    let told = seq!['I', 'S', 'V', 'R', 'o', 'k', 'O', 'K'];
    let bytes = server.answer(message)->Send_0;
    assert forall|i: int| 0 <= i < 8 implies #[trigger] bytes[i] == told[i] as u8 by {
        assert(i == 0 || i == 1 || i == 2 || i == 3 || i == 4 || i == 5 || i == 6 || i == 7);
    }
}

/// The size is told of the image that is mounted, in sectors of 2048 bytes, as far
/// as four bytes hold it; where nothing is mounted it is 0.
pub proof fn law_the_size_of_the_mounted_image_is_told(server: ServerView, message: Message)
    requires
        message.cmd_type == Cmd::GetIsoSize,
    ensures
        server.answer(message) matches ActionView::Send(bytes) && {
            &&& bytes.len() == 8
            &&& 0x100_0000 * bytes[0] + 0x1_0000 * bytes[1] + 256 * bytes[2] + bytes[3] == (
            match server.active {
                Some(active) => active.metadata.sector_count as int,
                None => 0,
            }) % 0x1_0000_0000
            &&& 0x100_0000 * bytes[4] + 0x1_0000 * bytes[5] + 256 * bytes[6] + bytes[7] == 2048
        },
{
    let bytes = server.answer(message)->Send_0;
    let sectors = match server.active {
        Some(active) => active.metadata.sector_count as nat,
        None => 0,
    };
    lemma_four_bytes(sectors);
    lemma_four_bytes(2048);
}

/// Four bytes of a number, most significant byte first.
proof fn lemma_four_bytes(n: nat)
    ensures
        be_bytes(n, 4).len() == 4,
        0x100_0000 * be_bytes(n, 4)[0] + 0x1_0000 * be_bytes(n, 4)[1] + 256 * be_bytes(n, 4)[2]
            + be_bytes(n, 4)[3] == n as int % 0x1_0000_0000,
{
    let bytes = be_bytes(n, 4);
    law_each_byte_has_its_place(n, 4, 0);
    law_the_last_bytes_are_left(n, 4);
    reveal_with_fuel(be_range, 5);
    lemma_one_byte_more(bytes, 0, 0);
    lemma_one_byte_more(bytes, 0, 1);
    lemma_one_byte_more(bytes, 0, 2);
    lemma_one_byte_more(bytes, 0, 3);
    assert(bytes.subrange(0, 4) =~= bytes);
}

/// Whether an image has a file of the first type is told of the image at the index
/// asked for; where there is none it is 0.
pub proof fn law_the_type_of_the_image_asked_for_is_told(server: ServerView, message: Message)
    requires
        message.cmd_type == Cmd::HasType1File,
    ensures
        server.answer(message) matches ActionView::Send(bytes) && {
            &&& bytes.len() == 4
            &&& 0x100_0000 * bytes[0] + 0x1_0000 * bytes[1] + 256 * bytes[2] + bytes[3] == if (
            message.iso_index < server.files.len()) {
                server.files[message.iso_index as int].has_type1_file as int
            } else {
                0
            }
        },
{
    lemma_four_bytes(
        if message.iso_index < server.files.len() {
            server.files[message.iso_index as int].has_type1_file as nat
        } else {
            0
        },
    );
}

/// A read is served from how the mounted image is stored, and from nothing else:
/// from its file, its archive or its CHD, at the offset asked for, which within an
/// archive counts from where the data starts. Where nothing is mounted, nothing is
/// read.
pub proof fn law_a_read_is_served_from_what_is_mounted(server: ServerView, message: Message)
    requires
        message.cmd_type == Cmd::ReadData,
    ensures
        server.active is None <==> server.answer(message) is Ignore,
        server.active matches Some(active) ==> {
            &&& active.file is Regular ==> server.answer(message) == (ActionView::ReadFile {
                offset: message.offset,
                length: message.length,
            })
            &&& active.file is Chd ==> server.answer(message) == (ActionView::ReadChd {
                offset: message.offset,
                length: message.length,
            })
            &&& active.file is Ziso ==> {
                &&& server.answer(message) matches ActionView::ReadZiso { offset, length }
                &&& length == message.length
                &&& message.offset >= active.metadata.data_start ==> offset
                    + active.metadata.data_start == message.offset
                &&& message.offset < active.metadata.data_start ==> offset == 0
            }
        },
{
}

/// The name is told of the image at the index asked for, byte by byte in UTF-8, cut
/// or filled up with zeros to the length asked for; where there is no image it is
/// zeros alone.
pub proof fn law_the_name_of_the_image_asked_for_is_told(server: ServerView, message: Message)
    requires
        message.cmd_type == Cmd::GetIsoName,
    ensures
        server.answer(message) matches ActionView::Send(bytes) && bytes.len() == message.length
            && forall|i: int|
            0 <= i < message.length ==> #[trigger] bytes[i] == (if message.iso_index
                < server.files.len() && i < encode_utf8(
                server.files[message.iso_index as int].filename,
            ).len() {
                encode_utf8(server.files[message.iso_index as int].filename)[i]
            } else {
                0
            }),
{
}

/// A wish to mount is followed by a name of the length told.
pub proof fn law_a_wish_to_mount_awaits_its_name(server: ServerView, message: Message)
    requires
        message.cmd_type == Cmd::MountIso,
    ensures
        server.answer(message) == (ActionView::ReceiveName { length: message.length }),
{
}

/// How the search for a named image ends: at the first that the name names.
proof fn lemma_first_named_is_named(files: Seq<IsoEntryView>, name: Seq<char>)
    ensures
        0 <= first_named(files, name) <= files.len(),
        forall|k: int|
            0 <= k < first_named(files, name) ==> !names_image(#[trigger] files[k], name),
        first_named(files, name) < files.len() ==> names_image(
            files[first_named(files, name)],
            name,
        ),
    decreases files.len(),
{
    if files.len() > 0 && !names_image(files[0], name) {
        let rest = files.skip(1);
        lemma_first_named_is_named(rest, name);
        assert forall|k: int| 0 <= k < first_named(files, name) implies !names_image(
            #[trigger] files[k],
            name,
        ) by {
            if k > 0 {
                assert(rest[k - 1] == files[k]);
            }
        }
    }
}

/// The image that is opened upon a name is the first whose file name ends, in
/// lowercase, with the name in lowercase; where no file name does, none is found.
/// The name that stands for no image unmounts the mounted one, and nothing else
/// changes what is mounted. What was not found, or was unmounted, is answered with
/// the number 0.
pub proof fn law_the_first_image_of_that_name_is_opened(
    server: ServerView,
    name: Seq<u8>,
    next: ServerView,
    step: Result<MountStep, NameNotUtf8>,
)
    requires
        server.mounts(name, next, step),
    ensures
        valid_utf8(name) <==> step is Ok,
        next.files == server.files,
        step is Err ==> next.active == server.active,
        step matches Ok(step) ==> {
            let wanted = normalized(decode_utf8(name));
            &&& step is Disabled <==> wanted == "[Disable Current ISO]"@
            &&& step is Disabled ==> next.active is None
            &&& step !is Disabled ==> next.active == server.active
            &&& match step {
                MountStep::Disabled(bytes) => bytes@ == seq![0u8, 0u8, 0u8, 0u8],
                MountStep::NotFound(bytes) => {
                    &&& bytes@ == seq![0u8, 0u8, 0u8, 0u8]
                    &&& forall|k: int|
                        0 <= k < server.files.len() ==> !lowered(wanted).is_suffix_of(
                            lowered((#[trigger] server.files[k]).filename),
                        )
                },
                MountStep::Open { index, .. } => {
                    &&& index < server.files.len()
                    &&& lowered(wanted).is_suffix_of(lowered(server.files[index as int].filename))
                    &&& forall|k: int|
                        0 <= k < index ==> !lowered(wanted).is_suffix_of(
                            lowered((#[trigger] server.files[k]).filename),
                        )
                },
            }
        },
{
    lemma_small_numbers();
    if let Ok(step) = step {
        let wanted = normalized(decode_utf8(name));
        lemma_first_named_is_named(server.files, wanted);
        assert forall|k: int| 0 <= k < first_named(server.files, wanted) implies !lowered(
            wanted,
        ).is_suffix_of(lowered((#[trigger] server.files[k]).filename)) by {
            assert(!names_image(server.files[k], wanted));
        }
    }
}

/// The numbers 0 and 1 in four bytes.
proof fn lemma_small_numbers()
    ensures
        be_bytes(0, 4) == seq![0u8, 0u8, 0u8, 0u8],
        be_bytes(1, 4) == seq![0u8, 0u8, 0u8, 1u8],
{
    reveal_with_fuel(be_bytes, 5);
    assert(be_bytes(0, 4) =~= seq![0u8, 0u8, 0u8, 0u8]);
    assert(be_bytes(1, 4) =~= seq![0u8, 0u8, 0u8, 1u8]);
}

/// If the file name of one image alone ends with a name, in whatever letter case,
/// that image is opened.
pub proof fn law_the_only_image_of_that_name_is_opened(
    server: ServerView,
    name: Seq<u8>,
    next: ServerView,
    step: Result<MountStep, NameNotUtf8>,
    at: int,
)
    requires
        server.mounts(name, next, step),
        valid_utf8(name),
        normalized(decode_utf8(name)) != "[Disable Current ISO]"@,
        0 <= at < server.files.len(),
        lowered(normalized(decode_utf8(name))).is_suffix_of(lowered(server.files[at].filename)),
        forall|k: int|
            0 <= k < server.files.len() && k != at ==> !lowered(
                normalized(decode_utf8(name)),
            ).is_suffix_of(lowered((#[trigger] server.files[k]).filename)),
    ensures
        step matches Ok(MountStep::Open { index, .. }) && index == at,
{
    law_the_first_image_of_that_name_is_opened(server, name, next, step);
    assert(server.files[at].filename == server.files[at].filename);
}

/// An image is opened as what the extension of its path says, in whatever letter case: as
/// a ZISO, as a CHD, or else as it is. Where all platforms agree on that path, or it is
/// an ordinary one, they agree on the extension too.
pub proof fn law_an_image_is_opened_as_it_is_stored(
    server: ServerView,
    name: Seq<u8>,
    next: ServerView,
    index: usize,
    kind: ImageKind,
) -> (extension: Seq<char>)
    requires
        server.mounts(name, next, Ok(MountStep::Open { index, kind })),
    ensures
        ({
            let path = server.files[index as int].path;
            &&& may_be_extension(path, extension)
            &&& plain(path) ==> extension == path.skip(last_dot(path) + 1)
            &&& portable(path) ==> extension == extension_or_empty(file_name_of(path))
            &&& ascii_lowered(extension) == seq!['z', 'i', 's', 'o'] ==> kind == ImageKind::Ziso
            &&& ascii_lowered(extension) == seq!['c', 'h', 'd'] ==> kind == ImageKind::Chd
            &&& is_ascii_chars(extension) && ascii_lowered(extension) != seq!['z', 'i', 's', 'o']
                && ascii_lowered(extension) != seq!['c', 'h', 'd'] ==> kind == ImageKind::Iso
        }),
{
    law_an_image_is_stored_as_its_extension_says(server.files[index as int].path, kind)
}

/// An image that was opened is the one that is mounted, to be read as it was
/// opened; from an archive its first file is read whose name ends in `.iso` in
/// lowercase. That is answered with the number 1. Where opening failed, or the
/// archive has no such file, what was mounted stays so, and the answer is 0.
pub proof fn law_an_opened_image_is_mounted(
    server: ServerView,
    index: int,
    outcome: Opened,
    next: ServerView,
    reply: Mounted,
)
    requires
        0 <= index < server.files.len(),
        server.opens(index, outcome, next, reply),
    ensures
        next.files == server.files,
        match reply {
            Mounted::Done(bytes) => {
                &&& bytes@ == seq![0u8, 0u8, 0u8, 1u8]
                &&& next.active matches Some(active)
                &&& active.metadata == server.files[index]
                &&& match outcome {
                    Opened::Failed => false,
                    Opened::File => active.file is Regular,
                    Opened::Chd => active.file is Chd,
                    Opened::Archive(names) => {
                        &&& active.file matches IsoFileView::Ziso { inner_path }
                        &&& exists|at: int|
                            0 <= at < names@.len() && (#[trigger] names@[at])@ == inner_path
                                && ".iso"@.is_suffix_of(lowered(inner_path)) && forall|k: int|
                                0 <= k < at ==> !".iso"@.is_suffix_of(
                                    lowered((#[trigger] names@[k])@),
                                )
                    },
                }
            },
            Mounted::Refused(bytes) => {
                &&& bytes@ == seq![0u8, 0u8, 0u8, 0u8]
                &&& next.active == server.active
                &&& match outcome {
                    Opened::Failed => true,
                    Opened::Archive(names) => forall|k: int|
                        0 <= k < names@.len() ==> !".iso"@.is_suffix_of(
                            lowered((#[trigger] names@[k])@),
                        ),
                    _ => false,
                }
            },
        },
{
    lemma_small_numbers();
    if let Opened::Archive(names) = outcome {
        law_the_first_image_of_an_archive_is_found(texts(names@));
        match first_iso(texts(names@)) {
            Some(at) => {
                assert(texts(names@)[at] == names@[at]@);
                assert forall|k: int| 0 <= k < at implies !".iso"@.is_suffix_of(
                    lowered((#[trigger] names@[k])@),
                ) by {
                    assert(texts(names@)[k] == names@[k]@);
                }
            },
            None => {
                assert forall|k: int| 0 <= k < names@.len() implies !".iso"@.is_suffix_of(
                    lowered((#[trigger] names@[k])@),
                ) by {
                    assert(texts(names@)[k] == names@[k]@);
                }
            },
        }
    }
}

/// Once an image is mounted, it is the one whose size is told and that is read:
/// from its file, from its archive or from its CHD, as it was opened.
pub proof fn law_a_mounted_image_is_the_one_that_is_read(
    server: ServerView,
    index: int,
    outcome: Opened,
    next: ServerView,
    reply: Mounted,
    message: Message,
)
    requires
        0 <= index < server.files.len(),
        server.opens(index, outcome, next, reply),
        reply is Done,
    ensures
        message.cmd_type == Cmd::GetIsoSize ==> {
            &&& next.answer(message) matches ActionView::Send(bytes)
            &&& 0x100_0000 * bytes[0] + 0x1_0000 * bytes[1] + 256 * bytes[2] + bytes[3]
                == server.files[index].sector_count as int % 0x1_0000_0000
        },
        message.cmd_type == Cmd::ReadData ==> match next.answer(message) {
            ActionView::ReadFile { offset, length } => outcome is File && offset == message.offset
                && length == message.length,
            ActionView::ReadChd { offset, length } => outcome is Chd && offset == message.offset
                && length == message.length,
            ActionView::ReadZiso { offset, length } => outcome is Archive && length
                == message.length && (server.files[index].data_start == 0 ==> offset
                == message.offset),
            _ => false,
        },
{
    law_an_opened_image_is_mounted(server, index, outcome, next, reply);
    if message.cmd_type == Cmd::GetIsoSize {
        law_the_size_of_the_mounted_image_is_told(next, message);
    }
    if message.cmd_type == Cmd::ReadData {
        law_a_read_is_served_from_what_is_mounted(next, message);
    }
}

/// A name to be mounted is looked for as it was sent, character by character, but
/// for separators and zeros; where `\Mount` stands in it, what stands before and
/// behind that is put together.
pub proof fn law_a_name_is_looked_for_as_it_was_sent(front: Seq<char>, back: Seq<char>)
    ensures
        normalized(front + "\\Mount"@ + back) == normalized(front) + normalized(back),
        (forall|i: int|
            0 <= i <= front.len() - 6 ==> #[trigger] front.subrange(i, i + 6) != "\\Mount"@)
            ==> normalized(front) == front.filter(|c: char| c != '\\' && c != '\0'),
{
    reveal_strlit("\\Mount");
    reveal_strlit("\\");
    reveal_strlit("\0");
    assert("\\"@ =~= seq!['\\']);
    assert("\0"@ =~= seq!['\0']);
    let mark = "\\Mount"@;
    lemma_removed_around(front, mark, back);
    let a = removed(front, mark);
    let b = removed(back, mark);
    lemma_removed_of_sum(a, b, '\\');
    lemma_removed_of_sum(removed(a, seq!['\\']), removed(b, seq!['\\']), '\0');
    if forall|i: int| 0 <= i <= front.len() - 6 ==> #[trigger] front.subrange(i, i + 6) != mark {
        lemma_removed_of_absent(front, mark);
        lemma_two_removed(front, '\\', '\0');
    }
}

/// What an archive gave is sent as far as it was asked for, and zeros where it gave
/// nothing.
pub proof fn law_an_archive_is_answered_as_far_as_asked(length: nat, data: Option<Seq<u8>>)
    requires
        data matches Some(bytes) ==> bytes.len() >= length,
    ensures
        archive_answer(length, data).len() == length,
        forall|i: int|
            0 <= i < length ==> #[trigger] archive_answer(length, data)[i] == (match data {
                Some(bytes) => bytes[i],
                None => 0u8,
            }),
{
}

/// Bytes that are cut or filled up to a length are those bytes as far as they go,
/// and zeros behind them.
pub proof fn law_bytes_are_filled_up_with_zeros(bytes: Seq<u8>, n: nat)
    ensures
        padded(bytes, n).len() == n,
        forall|i: int|
            0 <= i < n ==> #[trigger] padded(bytes, n)[i] == (if i < bytes.len() {
                bytes[i]
            } else {
                0u8
            }),
{
}

/// On a new connection all images are offered and none is mounted: the size is 0, and
/// nothing is read.
pub proof fn law_a_connection_starts_with_nothing_mounted(
    files: Seq<IsoEntryView>,
    message: Message,
)
    ensures
        server_for(files).files == files,
        server_for(files).active is None,
        message.cmd_type == Cmd::ReadData ==> server_for(files).answer(message) is Ignore,
        message.cmd_type == Cmd::GetIsoSize ==> {
            &&& server_for(files).answer(message) matches ActionView::Send(bytes)
            &&& bytes.take(4) == seq![0u8, 0u8, 0u8, 0u8]
        },
{
    if message.cmd_type == Cmd::GetIsoSize {
        lemma_small_numbers();
        law_the_size_of_the_mounted_image_is_told(server_for(files), message);
        assert(server_for(files).answer(message)->Send_0.take(4) =~= be_bytes(0, 4));
    }
}

/// An action says what is to be done: each is told apart from all others.
pub proof fn law_an_action_says_what_is_to_be_done(action: Action)
    ensures
        match action {
            Action::Close => action@ is Close,
            Action::Ignore => action@ is Ignore,
            Action::Send(bytes) => action@ == ActionView::Send(bytes@),
            Action::ReadFile { offset, length } => action@ == (ActionView::ReadFile {
                offset,
                length,
            }),
            Action::ReadZiso { offset, length } => action@ == (ActionView::ReadZiso {
                offset,
                length,
            }),
            Action::ReadChd { offset, length } => action@ == (ActionView::ReadChd {
                offset,
                length,
            }),
            Action::ReceiveName { length } => action@ == (ActionView::ReceiveName { length }),
        },
{
}

/// A server says which images it offers, which one is mounted, and how that is read.
pub proof fn law_a_server_says_what_it_knows(server: Server)
    ensures
        server@.files == entries_view(server.files@),
        server@.active is None <==> server.active_file is None,
        server.active_file matches Some(active) ==> {
            &&& server@.active->0.metadata == active.metadata@
            &&& match active.file {
                IsoFile::Regular => server@.active->0.file is Regular,
                IsoFile::Chd => server@.active->0.file is Chd,
                IsoFile::Ziso { inner_path } => server@.active->0.file == (IsoFileView::Ziso {
                    inner_path: inner_path@,
                }),
            }
        },
{
}

} // verus!
