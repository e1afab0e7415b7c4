//! The requests of a console, as they arrive over the network.

use crate::bytes::{
    be_bytes, be_range, be_value, law_a_number_has_the_bytes_that_spell_it,
    law_bytes_spell_the_number, lemma_be_value_fits, lemma_one_byte_more, read_be, write_be,
};
use vstd::prelude::*;

verus! {

/// How many bytes a request takes.
pub const MESSAGE_SIZE: usize = 20;

/// What a request asks for.
#[derive(Clone, Copy, PartialEq, Eq, Structural, Debug)]
pub enum Cmd {
    Ping,
    GetIsoSize,
    HasType1File,
    ReadData,
    GetIsoName,
    MountIso,
}

/// A request.
#[derive(Clone, Copy, PartialEq, Eq, Structural, Debug)]
pub struct Message {
    pub cmd_type: Cmd,
    pub iso_index: u16,
    pub offset: u64,
    pub length: u32,
}

/// Why bytes are no request.
#[derive(Clone, Copy, PartialEq, Eq, Structural, Debug)]
pub enum MessageError {
    /// They do not start with `ISVR`.
    BadMagic,
    /// They ask for something unknown.
    UnknownCommand(u16),
}

/// The bytes with which each request starts: `ISVR`.
pub open spec fn magic() -> Seq<u8> {
    seq![0x49u8, 0x53u8, 0x56u8, 0x52u8]
}

/// The number of a command in a request.
pub open spec fn cmd_number(cmd: Cmd) -> u16 {
    match cmd {
        Cmd::Ping => 0,
        Cmd::GetIsoSize => 1,
        Cmd::HasType1File => 2,
        Cmd::ReadData => 3,
        Cmd::GetIsoName => 4,
        Cmd::MountIso => 5,
    }
}

/// The command with a given number.
pub open spec fn cmd_numbered(number: nat) -> Option<Cmd> {
    if number == 0 {
        Some(Cmd::Ping)
    } else if number == 1 {
        Some(Cmd::GetIsoSize)
    } else if number == 2 {
        Some(Cmd::HasType1File)
    } else if number == 3 {
        Some(Cmd::ReadData)
    } else if number == 4 {
        Some(Cmd::GetIsoName)
    } else if number == 5 {
        Some(Cmd::MountIso)
    } else {
        None
    }
}

/// The request that `bytes` hold: the magic, the command, an index into the
/// list of images, an offset and a length, each most significant byte first.
pub open spec fn parsed(bytes: Seq<u8>) -> Result<Message, MessageError> {
    if bytes.subrange(0, 4) != magic() {
        Err(MessageError::BadMagic)
    } else {
        match cmd_numbered(be_value(bytes.subrange(4, 6))) {
            None => Err(MessageError::UnknownCommand(be_value(bytes.subrange(4, 6)) as u16)),
            Some(cmd_type) => Ok(
                Message {
                    cmd_type,
                    iso_index: be_value(bytes.subrange(6, 8)) as u16,
                    offset: be_value(bytes.subrange(8, 16)) as u64,
                    length: be_value(bytes.subrange(16, 20)) as u32,
                },
            ),
        }
    }
}

/// The bytes of a request.
pub open spec fn serialized(message: Message) -> Seq<u8> {
    magic() + be_bytes(cmd_number(message.cmd_type) as nat, 2) + be_bytes(
        message.iso_index as nat,
        2,
    ) + be_bytes(message.offset as nat, 8) + be_bytes(message.length as nat, 4)
}

impl Message {
    /// The request that `bytes` hold.
    pub fn read(bytes: &[u8; 20]) -> (message: Result<Message, MessageError>)
        ensures
            message == parsed(bytes@),
    {
        let slice: &[u8] = bytes.as_slice();
        proof {
            reveal_with_fuel(be_range, 5);
        }
        if slice[0] != 0x49 || slice[1] != 0x53 || slice[2] != 0x56 || slice[3] != 0x52 {
            assert(bytes@.subrange(0, 4)[0] == bytes@[0]);
            assert(bytes@.subrange(0, 4)[1] == bytes@[1]);
            assert(bytes@.subrange(0, 4)[2] == bytes@[2]);
            assert(bytes@.subrange(0, 4)[3] == bytes@[3]);
            return Err(MessageError::BadMagic);
        }
        assert(bytes@.subrange(0, 4) =~= magic());
        let number: u64 = read_be(slice, 4, 6);
        let cmd_type: Cmd = match number {
            0 => Cmd::Ping,
            1 => Cmd::GetIsoSize,
            2 => Cmd::HasType1File,
            3 => Cmd::ReadData,
            4 => Cmd::GetIsoName,
            5 => Cmd::MountIso,
            _ => return Err(MessageError::UnknownCommand(number as u16)),
        };
        Ok(
            Message {
                cmd_type,
                iso_index: read_be(slice, 6, 8) as u16,
                offset: read_be(slice, 8, 16),
                length: read_be(slice, 16, 20) as u32,
            },
        )
    }

    /// The bytes of the request.
    pub fn write(&self) -> (bytes: Vec<u8>)
        ensures
            bytes@ == serialized(*self),
    {
        let number: u64 = match self.cmd_type {
            Cmd::Ping => 0,
            Cmd::GetIsoSize => 1,
            Cmd::HasType1File => 2,
            Cmd::ReadData => 3,
            Cmd::GetIsoName => 4,
            Cmd::MountIso => 5,
        };
        let mut bytes: Vec<u8> = vec![0x49, 0x53, 0x56, 0x52];
        assert(bytes@ =~= magic());
        let mut field: Vec<u8> = write_be(number, 2);
        bytes.append(&mut field);
        let mut field: Vec<u8> = write_be(self.iso_index as u64, 2);
        bytes.append(&mut field);
        let mut field: Vec<u8> = write_be(self.offset, 8);
        bytes.append(&mut field);
        let mut field: Vec<u8> = write_be(self.length as u64, 4);
        bytes.append(&mut field);
        bytes
    }
}

/// A request that is written is read back as it was.
pub proof fn law_a_written_request_is_read_back(message: Message)
    ensures
        serialized(message).len() == MESSAGE_SIZE,
        parsed(serialized(message)) == Ok::<Message, MessageError>(message),
{
    reveal_with_fuel(be_range, 9);
    let number = cmd_number(message.cmd_type) as nat;
    law_bytes_spell_the_number(number, 2);
    law_bytes_spell_the_number(message.iso_index as nat, 2);
    law_bytes_spell_the_number(message.offset as nat, 8);
    law_bytes_spell_the_number(message.length as nat, 4);
    let bytes = serialized(message);
    assert(bytes.subrange(0, 4) =~= magic());
    assert(bytes.subrange(4, 6) =~= be_bytes(number, 2));
    assert(bytes.subrange(6, 8) =~= be_bytes(message.iso_index as nat, 2));
    assert(bytes.subrange(8, 16) =~= be_bytes(message.offset as nat, 8));
    assert(bytes.subrange(16, 20) =~= be_bytes(message.length as nat, 4));
}

/// Bytes that hold a request are the bytes of that request, and of no other.
pub proof fn law_a_read_request_has_those_bytes(bytes: Seq<u8>)
    requires
        bytes.len() == MESSAGE_SIZE,
        parsed(bytes) is Ok,
    ensures
        serialized(parsed(bytes)->Ok_0) == bytes,
{
    reveal_with_fuel(be_range, 9);
    lemma_be_value_fits(bytes.subrange(6, 8));
    lemma_be_value_fits(bytes.subrange(8, 16));
    lemma_be_value_fits(bytes.subrange(16, 20));
    law_a_number_has_the_bytes_that_spell_it(bytes.subrange(4, 6));
    law_a_number_has_the_bytes_that_spell_it(bytes.subrange(6, 8));
    law_a_number_has_the_bytes_that_spell_it(bytes.subrange(8, 16));
    law_a_number_has_the_bytes_that_spell_it(bytes.subrange(16, 20));
    assert(serialized(parsed(bytes)->Ok_0) =~= bytes);
}

/// Each part of a request has its place: the four bytes `ISVR`, then two with the
/// number of the command, two with the index of an image, eight with an offset
/// and four with a length, each most significant byte first. There are six
/// commands, which have the numbers from 0 on.
pub proof fn law_each_part_of_a_request_has_its_place(bytes: Seq<u8>)
    requires
        bytes.len() == 20,
    ensures
        ({
            let starts = bytes[0] == 'I' as u8 && bytes[1] == 'S' as u8 && bytes[2] == 'V' as u8
                && bytes[3] == 'R' as u8;
            let number = 256 * bytes[4] + bytes[5];
            &&& !starts ==> parsed(bytes) == Err::<Message, MessageError>(MessageError::BadMagic)
            &&& starts && number > 5 ==> parsed(bytes) == Err::<Message, MessageError>(
                MessageError::UnknownCommand(number as u16),
            )
            &&& starts && number <= 5 ==> {
                &&& parsed(bytes) matches Ok(message)
                &&& number == 0 ==> message.cmd_type == Cmd::Ping
                &&& number == 1 ==> message.cmd_type == Cmd::GetIsoSize
                &&& number == 2 ==> message.cmd_type == Cmd::HasType1File
                &&& number == 3 ==> message.cmd_type == Cmd::ReadData
                &&& number == 4 ==> message.cmd_type == Cmd::GetIsoName
                &&& number == 5 ==> message.cmd_type == Cmd::MountIso
                &&& message.iso_index == 256 * bytes[6] + bytes[7]
                &&& message.offset == 0x100_0000_0000_0000 * bytes[8] + 0x1_0000_0000_0000
                    * bytes[9] + 0x100_0000_0000 * bytes[10] + 0x1_0000_0000 * bytes[11]
                    + 0x100_0000 * bytes[12] + 0x1_0000 * bytes[13] + 256 * bytes[14] + bytes[15]
                &&& message.length == 0x100_0000 * bytes[16] + 0x1_0000 * bytes[17] + 256
                    * bytes[18] + bytes[19]
            }
        }),
{
    let front = bytes.subrange(0, 4);
    assert(front[0] == bytes[0] && front[1] == bytes[1] && front[2] == bytes[2] && front[3]
        == bytes[3]);
    assert('I' as u8 == 0x49 && 'S' as u8 == 0x53 && 'V' as u8 == 0x56 && 'R' as u8 == 0x52);
    if bytes[0] == 0x49 && bytes[1] == 0x53 && bytes[2] == 0x56 && bytes[3] == 0x52 {
        assert(front =~= magic());
    }
    lemma_one_byte_more(bytes, 4, 4);
    lemma_one_byte_more(bytes, 4, 5);
    lemma_one_byte_more(bytes, 6, 6);
    lemma_one_byte_more(bytes, 6, 7);
    lemma_one_byte_more(bytes, 8, 8);
    lemma_one_byte_more(bytes, 8, 9);
    lemma_one_byte_more(bytes, 8, 10);
    lemma_one_byte_more(bytes, 8, 11);
    lemma_one_byte_more(bytes, 8, 12);
    lemma_one_byte_more(bytes, 8, 13);
    lemma_one_byte_more(bytes, 8, 14);
    lemma_one_byte_more(bytes, 8, 15);
    lemma_one_byte_more(bytes, 16, 16);
    lemma_one_byte_more(bytes, 16, 17);
    lemma_one_byte_more(bytes, 16, 18);
    lemma_one_byte_more(bytes, 16, 19);
}

/// A request that is written has each part in its place.
pub proof fn law_a_written_request_has_its_number(message: Message)
    ensures
        ({
            let bytes = serialized(message);
            &&& bytes.len() == 20
            &&& bytes.take(4) == seq!['I' as u8, 'S' as u8, 'V' as u8, 'R' as u8]
            &&& 256 * bytes[4] + bytes[5] == (match message.cmd_type {
                Cmd::Ping => 0int,
                Cmd::GetIsoSize => 1,
                Cmd::HasType1File => 2,
                Cmd::ReadData => 3,
                Cmd::GetIsoName => 4,
                Cmd::MountIso => 5,
            })
            &&& 256 * bytes[6] + bytes[7] == message.iso_index
            &&& 0x100_0000 * bytes[16] + 0x1_0000 * bytes[17] + 256 * bytes[18] + bytes[19]
                == message.length
        }),
{
    law_a_written_request_is_read_back(message);
    law_each_part_of_a_request_has_its_place(serialized(message));
    assert(serialized(message).take(4) =~= magic());
}

} // verus!
