use netiso_srv::convert::convert_iso_to_ziso;
use netiso_srv::iso::{get_data_start, IsoEntry, ProbeStep, SECTOR_SIZE};
use netiso_srv::scan::{
    check_listing, find_inner_iso, get_iso_files, glob_pattern, has_image_extension, image_kind,
    is_new_image, kind_of_extension, look, new_image_paths, probe_chd_sync, retain_existing,
    Finding, FoundImage, ImageKind, LookAction, LookEvent,
};

const MARK: &[u8; 20] = b"MICROSOFT*XBOX*MEDIA";

fn entry(path: &str) -> IsoEntry {
    IsoEntry {
        path: path.to_string(),
        filename: path.to_string(),
        data_start: 0,
        sector_count: 1,
        has_type1_file: 0,
    }
}

fn strings(texts: &[&str]) -> Vec<String> {
    texts.iter().map(|text| text.to_string()).collect()
}

fn paths(entries: &[IsoEntry]) -> Vec<String> {
    entries.iter().map(|entry| entry.path.clone()).collect()
}

/// Where the search ends in an image of `len` bytes that has the mark at `at`.
fn search(len: u64, at: &[u64]) -> u64 {
    let mut last = None;
    loop {
        match get_data_start(len, last) {
            ProbeStep::Found(start) => return start,
            ProbeStep::Read { slot, offset } => {
                assert!(offset + 20 <= len);
                let bytes = if at.contains(&offset) { *MARK } else { [0; 20] };
                last = Some((slot, bytes));
            }
        }
    }
}

#[test]
fn the_search_finds_the_partition() {
    let len = 0x2_0000_0000;
    assert_eq!(search(len, &[0xfda0000]), 0xfd90000);
    assert_eq!(search(len, &[0x2090000]), 0x2080000);
    assert_eq!(search(len, &[0x10000]), 0);
    assert_eq!(search(len, &[]), 0);
    assert_eq!(search(len, &[0x10000, 0x2090000]), 0x2080000);
    assert_eq!(search(len, &[0x2090000, 0xfda0000]), 0xfd90000);
}

#[test]
fn a_mark_behind_the_end_is_not_looked_for() {
    assert_eq!(search(0xfda0000 + 19, &[0xfda0000, 0x2090000]), 0x2080000);
    assert_eq!(search(0xfda0000 + 20, &[0xfda0000, 0x2090000]), 0xfd90000);
    assert_eq!(get_data_start(0x10013, None), ProbeStep::Found(0));
    assert_eq!(get_data_start(0x10014, None), ProbeStep::Read { slot: 2, offset: 0x10000 });
    assert_eq!(get_data_start(0, None), ProbeStep::Found(0));
    assert_eq!(
        get_data_start(u64::MAX, Some((0, [0; 20]))),
        ProbeStep::Read { slot: 1, offset: 0x2090000 }
    );
}

#[test]
fn extensions_make_images() {
    for extension in ["iso", "ISO", "Iso", "ziso", "ZiSo", "chd", "CHD"] {
        assert!(has_image_extension(extension));
    }
    for extension in ["", "is", "isos", "zar", "txt", "ıso"] {
        assert!(!has_image_extension(extension));
    }
}

#[test]
fn extensions_tell_the_kind() {
    assert_eq!(kind_of_extension("ISO"), ImageKind::Iso);
    assert_eq!(kind_of_extension("zIsO"), ImageKind::Ziso);
    assert_eq!(kind_of_extension("Chd"), ImageKind::Chd);
    assert_eq!(kind_of_extension(""), ImageKind::Iso);
    assert_eq!(image_kind("/isos/a.ZISO"), ImageKind::Ziso);
    assert_eq!(image_kind("a.chd"), ImageKind::Chd);
    assert_eq!(image_kind("a.chd/b"), ImageKind::Iso);
    assert_eq!(image_kind(".chd"), ImageKind::Iso);
    assert_eq!(image_kind("C:\\isos\\a.chd"), ImageKind::Chd);
    assert_eq!(image_kind(".."), ImageKind::Iso);
}

#[test]
fn the_pattern_covers_the_directory() {
    assert_eq!(glob_pattern("/isos", "/", false), "/isos/*");
    assert_eq!(glob_pattern("/isos", "/", true), "/isos/**/*");
    assert_eq!(glob_pattern("C:\\i", "\\", true), "C:\\i\\**\\*");
}

#[test]
fn images_that_are_gone_are_dropped() {
    let old = vec![entry("a.iso"), entry("b.iso"), entry("c.iso")];
    assert_eq!(paths(&retain_existing(&old, &vec![true, false, true])), ["a.iso", "c.iso"]);
    assert_eq!(retain_existing(&vec![], &vec![]).len(), 0);
}

#[test]
fn only_new_images_are_taken() {
    let known = vec![entry("d/a.iso")];
    let files = strings(&["d/a.iso", "d/b.ISO", "d/c.txt", "d/e.chd", "d/iso", "d/f.ziso"]);
    assert_eq!(new_image_paths(&known, &files), ["d/b.ISO", "d/e.chd", "d/f.ziso"]);
}

#[test]
fn paths_are_compared_by_their_components() {
    let known = vec![entry("x.iso"), entry("d/a.iso")];
    assert!(!is_new_image(&known, "d//a.iso"));
    assert!(!is_new_image(&known, "d/./a.iso"));
    assert!(is_new_image(&known, "./d/a.iso"));
    assert!(is_new_image(&known, "d/A.iso"));
    assert!(is_new_image(&known, "a.iso"));
}

#[test]
fn the_first_disc_image_of_an_archive_is_taken() {
    assert_eq!(find_inner_iso(&strings(&["a.txt", "B.ISO", "c.iso"])), Some(1));
    assert_eq!(find_inner_iso(&strings(&["dir/.iso"])), Some(0));
    assert_eq!(find_inner_iso(&strings(&["iso", "a.iso.txt"])), None);
    assert_eq!(find_inner_iso(&strings(&["É.Iso"])), Some(0));
    assert_eq!(find_inner_iso(&strings(&["ΟΔΟΣ.ISO"])), Some(0));
    assert_eq!(find_inner_iso(&strings(&[])), None);
}

#[test]
fn the_size_of_a_chd_is_that_of_its_hunks() {
    assert_eq!(probe_chd_sync(2048, 3), (6144, 2048));
    assert_eq!(probe_chd_sync(u32::MAX, u32::MAX), (0xffff_fffe_0000_0001, 0xffff_ffff));
}

#[test]
fn a_look_begins_by_how_the_image_is_stored() {
    assert!(matches!(look(ImageKind::Iso, 9, LookEvent::Begin), LookAction::Measure));
    assert!(matches!(look(ImageKind::Ziso, 9, LookEvent::Begin), LookAction::List));
    assert!(matches!(look(ImageKind::Chd, 9, LookEvent::Begin), LookAction::ReadHeader));
}

#[test]
fn a_look_into_an_archive_measures_its_disc_image() {
    let kind = ImageKind::Ziso;
    let files = strings(&["a", "b.iso"]);
    assert!(matches!(
        look(kind, 9, LookEvent::Listed(Some(files))),
        LookAction::MeasureInner(1)
    ));
    assert!(matches!(
        look(kind, 9, LookEvent::Listed(Some(strings(&["a"])))),
        LookAction::Done(Finding::Ziso(None))
    ));
    assert!(matches!(
        look(kind, 9, LookEvent::Listed(None)),
        LookAction::Done(Finding::Ziso(None))
    ));
    assert!(matches!(
        look(kind, 9, LookEvent::InnerSize(Some(5))),
        LookAction::Done(Finding::Ziso(Some(5)))
    ));
    assert!(matches!(
        look(kind, 9, LookEvent::InnerSize(None)),
        LookAction::Done(Finding::Ziso(None))
    ));
}

#[test]
fn a_look_into_a_chd_reads_its_header() {
    assert!(matches!(
        look(ImageKind::Chd, 9, LookEvent::Header(Some((2048, 7)))),
        LookAction::Done(Finding::Chd(Some((2048, 7))))
    ));
    assert!(matches!(
        look(ImageKind::Chd, 9, LookEvent::Header(None)),
        LookAction::Done(Finding::Chd(None))
    ));
}

#[test]
fn a_look_into_a_disc_image_searches_its_partition() {
    let kind = ImageKind::Iso;
    let len = 0x3000000;
    assert!(matches!(
        look(kind, len, LookEvent::Length(Some(len))),
        LookAction::ReadMark { slot: 1, offset: 0x2090000 }
    ));
    assert!(matches!(
        look(kind, len, LookEvent::Mark { len, slot: 1, bytes: Some(*MARK) }),
        LookAction::Done(Finding::Iso { data_start: Some(0x2080000), file_size: 0x3000000 })
    ));
    assert!(matches!(
        look(kind, len, LookEvent::Mark { len, slot: 1, bytes: Some([0; 20]) }),
        LookAction::ReadMark { slot: 2, offset: 0x10000 }
    ));
    assert!(matches!(
        look(kind, len, LookEvent::Mark { len, slot: 2, bytes: Some([0; 20]) }),
        LookAction::Done(Finding::Iso { data_start: Some(0), file_size: 0x3000000 })
    ));
    assert!(matches!(
        look(kind, 7, LookEvent::Length(None)),
        LookAction::Done(Finding::Iso { data_start: None, file_size: 7 })
    ));
    assert!(matches!(
        look(kind, 7, LookEvent::Mark { len, slot: 0, bytes: None }),
        LookAction::Done(Finding::Iso { data_start: None, file_size: 7 })
    ));
}

#[test]
fn found_images_are_listed_behind_the_kept_ones() {
    assert_eq!(SECTOR_SIZE, 2048);
    let found = |path: &str, finding| FoundImage { path: path.to_string(), finding };
    let entries = get_iso_files(
        vec![entry("old.iso")],
        &vec![
            found("d/a.iso", Finding::Iso { data_start: Some(0x2080000), file_size: 4095 }),
            found("d/b.iso", Finding::Iso { data_start: None, file_size: 4096 }),
            found("d/c.ziso", Finding::Ziso(Some(4096))),
            found("d/d.ziso", Finding::Ziso(None)),
            found("e.chd", Finding::Chd(Some((1024, 7)))),
            found("f.chd", Finding::Chd(None)),
        ],
    );
    let told: Vec<(&str, &str, u64, u64, u32)> = entries
        .iter()
        .map(|e| {
            (&e.path[..], &e.filename[..], e.data_start, e.sector_count, e.has_type1_file)
        })
        .collect();
    assert_eq!(
        told,
        vec![
            ("old.iso", "old.iso", 0, 1, 0),
            ("d/a.iso", "a.iso", 0x2080000, 1, 0),
            ("d/c.ziso", "c.ziso", 0, 2, 0),
            ("e.chd", "e.chd", 0, 3, 0),
        ]
    );
}

#[test]
fn no_path_is_listed_twice() {
    let files = strings(&["a.iso", "b.iso"]);
    let mut entries = Vec::new();
    for _ in 0..2 {
        let found: Vec<FoundImage> = new_image_paths(&entries, &files)
            .into_iter()
            .map(|path| FoundImage { path, finding: Finding::Ziso(Some(2048)) })
            .collect();
        entries = get_iso_files(entries, &found);
    }
    assert_eq!(paths(&entries), ["a.iso", "b.iso"]);
}

#[test]
fn paths_of_windows_are_told_apart() {
    let known = vec![entry("C:\\isos\\a.iso"), entry("\\\\srv\\isos\\x.iso")];
    assert!(!is_new_image(&known, "C:\\isos\\a.iso"));
    assert!(!is_new_image(&known, "\\\\srv\\isos\\x.iso"));
    assert!(is_new_image(&known, "C:\\isos\\b.iso"));
    assert!(is_new_image(&known, "C:\\more\\a.iso"));
    assert!(is_new_image(&known, "\\\\srv\\isos\\y.iso"));
    assert!(is_new_image(&known, "\\\\srv\\more\\x.iso"));
    assert_eq!(image_kind("\\\\srv\\isos\\x.ziso"), ImageKind::Ziso);
    assert_eq!(image_kind("//srv/isos/x.CHD"), ImageKind::Chd);
    assert_eq!(image_kind("x:a.chd"), ImageKind::Chd);
    assert_eq!(image_kind("\\\\?\\C:\\isos\\x.chd"), ImageKind::Chd);
    assert!(is_new_image(&known, "\\\\?\\C:\\isos\\x.chd"));
    assert!(!is_new_image(&known, "C:\\my.isos\\README"));
    let shared = FoundImage {
        path: "//srv/isos/x.ziso".to_string(),
        finding: Finding::Ziso(Some(2048)),
    };
    assert_eq!(get_iso_files(vec![], &vec![shared])[0].filename, "x.ziso");
    let found = FoundImage {
        path: "C:\\isos\\Game.ISO".to_string(),
        finding: Finding::Iso { data_start: Some(0), file_size: 2048 },
    };
    let name = get_iso_files(vec![], &vec![found])[0].filename.clone();
    assert!(name == "Game.ISO" || name == "C:\\isos\\Game.ISO");
}

#[test]
fn a_rescan_changes_nothing() {
    let files = strings(&["d/a.iso", "d/bad.ziso", "d/b.chd", "d/c.txt", "C:\\my.d\\README"]);
    let scan = |old: Vec<IsoEntry>| {
        let found: Vec<FoundImage> = new_image_paths(&old, &files)
            .into_iter()
            .map(|path| {
                let finding = match image_kind(&path) {
                    ImageKind::Iso => Finding::Iso { data_start: Some(0), file_size: 4096 },
                    ImageKind::Ziso => Finding::Ziso(None),
                    ImageKind::Chd => Finding::Chd(Some((2048, 3))),
                };
                FoundImage { path, finding }
            })
            .collect();
        get_iso_files(old, &found)
    };
    let first = scan(vec![entry("d/old.iso")]);
    assert_eq!(paths(&first), ["d/old.iso", "d/a.iso", "d/b.chd"]);
    let all = vec![true; first.len()];
    let again = scan(retain_existing(&first, &all));
    assert_eq!(format!("{again:?}"), format!("{first:?}"));
}

#[test]
fn a_file_that_is_no_image_changes_nothing() {
    let image = |path: &str| FoundImage {
        path: path.to_string(),
        finding: Finding::Ziso(Some(2048)),
    };
    let bad = FoundImage { path: "x.chd".to_string(), finding: Finding::Chd(None) };
    let with = get_iso_files(vec![], &vec![image("a.ziso"), bad, image("b.ziso")]);
    let without = get_iso_files(vec![], &vec![image("a.ziso"), image("b.ziso")]);
    assert_eq!(format!("{with:?}"), format!("{without:?}"));
}

#[test]
fn a_converted_image_is_listed_beside_its_source() {
    let files = strings(&["d/Game.Iso", "d/Game.Ziso"]);
    assert_eq!(convert_iso_to_ziso(&files[0], true, true, 1).unwrap().job.output, files[1]);
    assert_eq!(find_inner_iso(&strings(&["Game.Iso"])), Some(0));
    let found: Vec<FoundImage> = new_image_paths(&vec![], &files)
        .into_iter()
        .map(|path| {
            let finding = match image_kind(&path) {
                ImageKind::Ziso => Finding::Ziso(Some(6145)),
                _ => Finding::Iso { data_start: Some(0x2080000), file_size: 6145 },
            };
            FoundImage { path, finding }
        })
        .collect();
    let entries = get_iso_files(vec![], &found);
    assert_eq!(paths(&entries), files);
    assert_eq!((entries[0].data_start, entries[0].sector_count), (0x2080000, 3));
    assert_eq!((entries[1].data_start, entries[1].sector_count), (0, 3));
}

#[test]
fn nothing_is_served_without_images() {
    assert!(check_listing(&vec![entry("a.iso")]).is_ok());
    assert_eq!(check_listing(&vec![]).unwrap_err().text(), "No iso files enumerated");
}
