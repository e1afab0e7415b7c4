use netiso_srv::iso::IsoEntry;
use netiso_srv::message::{Cmd, Message, MessageError};
use netiso_srv::scan::ImageKind;
use netiso_srv::server::{
    normalize, ziso_reply, Action, IsoFile, MountStep, Mounted, NameNotUtf8, Opened, Server,
};

fn entry(path: &str, filename: &str, sector_count: u64) -> IsoEntry {
    IsoEntry {
        path: path.to_string(),
        filename: filename.to_string(),
        data_start: 0,
        sector_count,
        has_type1_file: 0,
    }
}

fn server() -> Server {
    Server::new(vec![
        entry("/isos/Halo.iso", "Halo.iso", 0x11223344),
        entry("/isos/Forza.ZISO", "Forza.ZISO", 3),
        entry("/isos/Fable.Chd", "Fable.Chd", 0x1_0000_0005),
    ])
}

fn request(cmd_type: Cmd, iso_index: u16, offset: u64, length: u32) -> [u8; 20] {
    let mut buffer = [0u8; 20];
    buffer.copy_from_slice(&Message { cmd_type, iso_index, offset, length }.write());
    buffer
}

fn sent(server: &mut Server, cmd_type: Cmd, iso_index: u16, length: u32) -> Vec<u8> {
    match server.handler(20, &request(cmd_type, iso_index, 0, length)) {
        Ok(Action::Send(bytes)) => bytes,
        other => panic!("{other:?}"),
    }
}

fn mount(server: &mut Server, name: &str) -> (usize, ImageKind) {
    match server.mount(name.as_bytes().to_vec()) {
        Ok(MountStep::Open { index, kind }) => (index, kind),
        other => panic!("{other:?}"),
    }
}

fn assert_mounted(reply: Mounted) {
    assert!(matches!(reply, Mounted::Done(bytes) if bytes == [0, 0, 0, 1]));
}

fn assert_refused(reply: Mounted) {
    assert!(matches!(reply, Mounted::Refused(bytes) if bytes == [0, 0, 0, 0]));
}

#[test]
fn a_ping_is_answered() {
    assert_eq!(sent(&mut server(), Cmd::Ping, 0, 0), b"ISVRokOK".to_vec());
}

#[test]
fn a_console_that_leaves_closes_the_connection() {
    let mut server = server();
    assert_mounted(server.opened(0, Opened::File));
    assert!(matches!(server.handler(0, &[0; 20]), Ok(Action::Close)));
    assert!(server.active_file.is_none());
}

#[test]
fn bytes_that_are_no_request_end_the_connection() {
    let mut server = server();
    assert!(matches!(server.handler(3, &[0; 20]), Err(MessageError::BadMagic)));
    let mut buffer = request(Cmd::Ping, 0, 0, 0);
    buffer[4] = 1;
    assert!(matches!(server.handler(20, &buffer), Err(MessageError::UnknownCommand(0x100))));
}

#[test]
fn the_size_of_the_mounted_image_is_told() {
    let mut server = server();
    assert_eq!(sent(&mut server, Cmd::GetIsoSize, 0, 0), vec![0, 0, 0, 0, 0, 0, 8, 0]);
    server.opened(0, Opened::File);
    assert_eq!(
        sent(&mut server, Cmd::GetIsoSize, 1, 0),
        vec![0x11, 0x22, 0x33, 0x44, 0, 0, 8, 0]
    );
    // Only the last four bytes of a larger number are told.
    server.opened(2, Opened::Chd);
    assert_eq!(sent(&mut server, Cmd::GetIsoSize, 0, 0), vec![0, 0, 0, 5, 0, 0, 8, 0]);
    server.disable_current_iso();
    assert_eq!(sent(&mut server, Cmd::GetIsoSize, 0, 0), vec![0, 0, 0, 0, 0, 0, 8, 0]);
}

#[test]
fn the_flag_of_an_image_is_told() {
    let mut server = server();
    server.files[1].has_type1_file = 0x01020304;
    assert_eq!(sent(&mut server, Cmd::HasType1File, 0, 0), vec![0, 0, 0, 0]);
    assert_eq!(sent(&mut server, Cmd::HasType1File, 1, 0), vec![1, 2, 3, 4]);
    assert_eq!(sent(&mut server, Cmd::HasType1File, 3, 0), vec![0, 0, 0, 0]);
}

#[test]
fn the_name_of_an_image_is_told_in_the_length_asked_for() {
    let mut server = server();
    assert_eq!(sent(&mut server, Cmd::GetIsoName, 0, 10), b"Halo.iso\0\0".to_vec());
    assert_eq!(sent(&mut server, Cmd::GetIsoName, 1, 5), b"Forza".to_vec());
    assert_eq!(sent(&mut server, Cmd::GetIsoName, 3, 4), vec![0, 0, 0, 0]);
    assert_eq!(sent(&mut server, Cmd::GetIsoName, 0, 0), Vec::<u8>::new());
    server.files[0].filename = "é.iso".to_string();
    assert_eq!(sent(&mut server, Cmd::GetIsoName, 0, 7), b"\xc3\xa9.iso\0".to_vec());
}

#[test]
fn data_is_read_as_the_image_is_stored() {
    let read = request(Cmd::ReadData, 0, 0x1000, 0x800);
    let mut server = server();
    assert!(matches!(server.handler(20, &read), Ok(Action::Ignore)));
    server.opened(0, Opened::File);
    assert!(matches!(
        server.handler(20, &read),
        Ok(Action::ReadFile { offset: 0x1000, length: 0x800 })
    ));
    server.opened(2, Opened::Chd);
    assert!(matches!(
        server.handler(20, &read),
        Ok(Action::ReadChd { offset: 0x1000, length: 0x800 })
    ));
    server.opened(1, Opened::Archive(vec!["x.iso".to_string()]));
    assert!(matches!(
        server.handler(20, &read),
        Ok(Action::ReadZiso { offset: 0x1000, length: 0x800 })
    ));
}

#[test]
fn an_archive_is_read_from_the_start_of_its_data() {
    let mut server = server();
    server.files[1].data_start = 0x900;
    server.opened(1, Opened::Archive(vec!["x.iso".to_string()]));
    assert!(matches!(
        server.handler(20, &request(Cmd::ReadData, 0, 0x1000, 1)),
        Ok(Action::ReadZiso { offset: 0x700, length: 1 })
    ));
    assert!(matches!(
        server.handler(20, &request(Cmd::ReadData, 0, 0x800, 1)),
        Ok(Action::ReadZiso { offset: 0, length: 1 })
    ));
}

#[test]
fn a_name_to_be_mounted_is_received_first() {
    assert!(matches!(
        server().handler(20, &request(Cmd::MountIso, 0, 0, 64)),
        Ok(Action::ReceiveName { length: 64 })
    ));
}

#[test]
fn names_are_looked_for_without_separators_and_zeros() {
    assert_eq!(normalize("\\Mount\\Halo.iso\0\0"), "Halo.iso");
    assert_eq!(normalize("a\\b\0c"), "abc");
    assert_eq!(normalize("\\Mount"), "");
    assert_eq!(normalize("\\\\MountMount"), "Mount");
    assert_eq!(normalize("Mount"), "Mount");
    assert_eq!(normalize(""), "");
}

#[test]
fn an_image_is_found_by_the_end_of_its_name_in_any_case() {
    let mut server = server();
    assert_eq!(mount(&mut server, "\\Mount\\halo.ISO\0\0\0"), (0, ImageKind::Iso));
    assert_eq!(mount(&mut server, "FORZA.ziso"), (1, ImageKind::Ziso));
    assert_eq!(mount(&mut server, "able.chd"), (2, ImageKind::Chd));
    // The first that fits is taken, and an empty name fits each.
    assert_eq!(mount(&mut server, "ISO"), (0, ImageKind::Iso));
    assert_eq!(mount(&mut server, "\\Mount\\"), (0, ImageKind::Iso));
    assert!(server.active_file.is_none());
}

#[test]
fn letters_beyond_ascii_are_compared_in_lower_case() {
    let mut server = Server::new(vec![
        entry("a.iso", "a.iso", 1),
        entry("d/ÉTÉ.iso", "ÉTÉ.iso", 1),
    ]);
    assert_eq!(mount(&mut server, "été.ISO"), (1, ImageKind::Iso));
}

#[test]
fn a_name_that_names_no_image_is_answered_with_zero() {
    let mut server = server();
    server.opened(0, Opened::File);
    match server.mount(b"Gears.iso".to_vec()) {
        Ok(MountStep::NotFound(bytes)) => assert_eq!(bytes, vec![0, 0, 0, 0]),
        other => panic!("{other:?}"),
    }
    assert!(server.active_file.is_some());
}

#[test]
fn the_name_for_no_image_unmounts() {
    let mut server = server();
    server.opened(0, Opened::File);
    match server.mount(b"\\Mount\\[Disable Current ISO]\0".to_vec()) {
        Ok(MountStep::Disabled(bytes)) => assert_eq!(bytes, vec![0, 0, 0, 0]),
        other => panic!("{other:?}"),
    }
    assert!(server.active_file.is_none());
}

#[test]
fn a_name_that_is_not_utf8_is_refused() {
    assert!(matches!(server().mount(vec![0x41, 0xff]), Err(NameNotUtf8)));
}

#[test]
fn an_opened_image_is_mounted() {
    let mut server = server();
    assert_mounted(server.opened(0, Opened::File));
    let active = server.active_file.as_ref().unwrap();
    assert!(matches!(active.file, IsoFile::Regular));
    assert_eq!(active.metadata.filename, "Halo.iso");

    let files = vec!["readme.txt".to_string(), "Disc.ISO".to_string(), "b.iso".to_string()];
    assert_mounted(server.opened(1, Opened::Archive(files)));
    let active = server.active_file.as_ref().unwrap();
    assert!(matches!(&active.file, IsoFile::Ziso { inner_path } if inner_path == "Disc.ISO"));
    assert_eq!(active.metadata.path, "/isos/Forza.ZISO");

    assert_mounted(server.opened(2, Opened::Chd));
    assert!(matches!(server.active_file.as_ref().unwrap().file, IsoFile::Chd));
}

#[test]
fn what_is_mounted_stays_if_opening_fails() {
    let mut server = server();
    server.opened(0, Opened::File);
    assert_refused(server.opened(1, Opened::Failed));
    assert_refused(server.opened(1, Opened::Archive(vec!["a.txt".to_string()])));
    assert_eq!(server.active_file.as_ref().unwrap().metadata.filename, "Halo.iso");
}

#[test]
fn a_told_name_can_be_mounted() {
    let mut server = server();
    for index in 0..3u16 {
        let name = sent(&mut server, Cmd::GetIsoName, index, 32);
        assert_eq!(mount(&mut server, &String::from_utf8(name).unwrap()).0, index as usize);
    }
    // A name that another one ends with is taken for the first of them.
    let mut server =
        Server::new(vec![entry("b/my_a.iso", "my_a.iso", 1), entry("a.iso", "a.iso", 1)]);
    assert_eq!(mount(&mut server, "a.iso").0, 0);
}

#[test]
fn an_archive_that_gives_nothing_is_answered_with_zeros() {
    assert_eq!(ziso_reply(3, None), vec![0, 0, 0]);
    assert_eq!(ziso_reply(3, Some(vec![1, 2, 3])), vec![1, 2, 3]);
    assert_eq!(ziso_reply(2, Some(vec![1, 2, 3])), vec![1, 2]);
}

#[test]
fn the_bytes_asked_for_are_read_from_any_partition() {
    let mut server = server();
    server.files[0].data_start = 0x2080000;
    server.opened(0, Opened::File);
    assert!(matches!(
        server.handler(20, &request(Cmd::ReadData, 0, 0x1000, 8)),
        Ok(Action::ReadFile { offset: 0x1000, length: 8 })
    ));
}

#[test]
fn an_archive_is_answered_with_its_bytes() {
    let image: Vec<u8> = (0..64).collect();
    let mut server = server();
    server.opened(1, Opened::Archive(vec!["x.iso".to_string()]));
    match server.handler(20, &request(Cmd::ReadData, 0, 10, 4)) {
        Ok(Action::ReadZiso { offset, length }) => {
            let data = image[offset as usize..][..length as usize].to_vec();
            assert_eq!(ziso_reply(length, Some(data)), vec![10, 11, 12, 13]);
        }
        other => panic!("{other:?}"),
    }
}

#[test]
fn images_on_shares_are_opened_as_they_are_stored() {
    let mut server = Server::new(vec![
        entry("//nas/isos/a.ziso", "a.ziso", 1),
        entry("\\\\nas\\isos\\b.chd", "b.chd", 1),
    ]);
    assert_eq!(mount(&mut server, "a.ziso"), (0, ImageKind::Ziso));
    assert_eq!(mount(&mut server, "b.chd"), (1, ImageKind::Chd));
}
