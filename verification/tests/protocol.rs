use netiso_srv::message::{Cmd, Message, MessageError};

#[test]
fn a_written_request_is_read_back() {
    let message = Message { cmd_type: Cmd::ReadData, iso_index: 7, offset: 0x0102030405060708, length: 0x800 };
    let bytes = message.write();
    assert_eq!(
        bytes,
        vec![
            0x49, 0x53, 0x56, 0x52, 0, 3, 0, 7, 1, 2, 3, 4, 5, 6, 7, 8, 0, 0, 8, 0
        ]
    );
    let mut buffer = [0u8; 20];
    buffer.copy_from_slice(&bytes);
    assert_eq!(Message::read(&buffer), Ok(message));
}

#[test]
fn bytes_that_are_no_request_are_refused() {
    let mut buffer = [0u8; 20];
    assert_eq!(Message::read(&buffer), Err(MessageError::BadMagic));
    buffer[..4].copy_from_slice(b"ISVR");
    assert_eq!(Message::read(&buffer).unwrap().cmd_type, Cmd::Ping);
    buffer[5] = 6;
    assert_eq!(Message::read(&buffer), Err(MessageError::UnknownCommand(6)));
}
