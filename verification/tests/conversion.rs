use netiso_srv::chd_cache::ReadPastEnd;
use netiso_srv::convert::{
    chd_options, chunk_read, convert_chd_to_iso, convert_iso_to_chd, convert_iso_to_ziso,
    convert_ziso_to_iso, next_chunk, Chunk, ConvertJob, ExtractAction, ExtractEvent, Extraction,
    PackAction, PackEvent, PackJob, CHD_CHUNK_SIZE, ZISO_CHUNK_SIZE,
};
use netiso_srv::errors::ConvertError;
use netiso_srv::naming::{
    case_matched_extension, converted_file_name, output_path_if_extension,
    output_path_with_matched_ext,
};
use netiso_srv::paths::extension_text;

fn job(input: &str, output: &str) -> ConvertJob {
    ConvertJob { input: input.to_string(), output: output.to_string() }
}

fn pack_job() -> PackJob {
    convert_iso_to_ziso("/isos/Game.iso", true, true, 42).unwrap()
}

#[test]
fn the_case_of_the_extension_is_kept() {
    assert_eq!(case_matched_extension("iso", "ziso"), "ziso");
    assert_eq!(case_matched_extension("ISO", "ziso"), "ZISO");
    assert_eq!(case_matched_extension("Iso", "ziso"), "Ziso");
    assert_eq!(case_matched_extension("iSO", "chd"), "Chd");
    assert_eq!(case_matched_extension("", "chd"), "chd");
    assert_eq!(case_matched_extension("123", "chd"), "chd");
    assert_eq!(case_matched_extension("Iso", ""), "");
    assert_eq!(case_matched_extension("ISO", ""), "");
}

#[test]
fn letters_beyond_ascii_have_a_case_too() {
    assert_eq!(case_matched_extension("É", "été"), "ÉTÉ");
    assert_eq!(case_matched_extension("é", "été"), "été");
    assert_eq!(case_matched_extension("Éé", "ßa"), "SSa");
    assert_eq!(case_matched_extension("Éé", "éa"), "Éa");
}

#[test]
fn the_extension_follows_the_last_dot() {
    assert_eq!(extension_text("a.b.iso"), "iso");
    assert_eq!(extension_text("a"), "");
    assert_eq!(extension_text(".iso"), "");
    assert_eq!(extension_text("a."), "");
    assert_eq!(extension_text(""), "");
}

#[test]
fn a_converted_file_has_the_new_extension() {
    assert_eq!(converted_file_name("Game.ISO", "chd"), Some("Game.CHD".to_string()));
    assert_eq!(converted_file_name("a.b", "chd"), Some("a.chd".to_string()));
    assert_eq!(converted_file_name("game", "chd"), Some("game.chd".to_string()));
    assert_eq!(converted_file_name(".iso", "chd"), Some(".iso.chd".to_string()));
    assert_eq!(converted_file_name("a.b", ""), Some("a".to_string()));
    assert_eq!(converted_file_name("a.iso", "iso"), None);
}

#[test]
fn converting_back_restores_the_name() {
    for name in ["a.iso", "a.ISO", "a.Iso", "x.y.iso"] {
        let there = converted_file_name(name, "ziso").unwrap();
        assert_eq!(converted_file_name(&there, "iso").unwrap(), name);
    }
    assert_eq!(converted_file_name("a.iSo", "ziso").unwrap(), "a.Ziso");
    assert_eq!(converted_file_name("a.Ziso", "iso").unwrap(), "a.Iso");
}

#[test]
fn the_output_is_beside_the_input() {
    let output = |input, target| output_path_with_matched_ext(input, target).unwrap();
    assert_eq!(output("/path/to/game.iso", "ziso"), "/path/to/game.ziso");
    assert_eq!(output("game.CHD", "iso"), "game.ISO");
    assert_eq!(output("./a.b/game.iso", "chd"), "./a.b/game.chd");
    assert_eq!(output("C:\\isos\\Game.Iso", "ziso"), "C:\\isos\\Game.Ziso");
    assert_eq!(output("/path/game", "iso"), "/path/game.iso");
    assert_eq!(output("a.iSO", "iso"), "a.Iso");
}

#[test]
fn converting_back_restores_the_path() {
    for path in ["/isos/a.iso", "b/a.ISO", "C:\\isos\\a.Iso"] {
        let there = output_path_with_matched_ext(path, "chd").unwrap();
        assert_ne!(there, path);
        assert_eq!(output_path_with_matched_ext(&there, "iso").unwrap(), path);
    }
}

#[test]
fn images_on_shares_and_drives_are_converted_too() {
    for (path, there) in [
        ("\\\\nas\\isos\\game.iso", "\\\\nas\\isos\\game.ziso"),
        ("//nas/isos/Game.ISO", "//nas/isos/Game.ZISO"),
        ("x:a.Iso", "x:a.Ziso"),
        ("\\\\?\\C:\\games\\game.iso", "\\\\?\\C:\\games\\game.ziso"),
        ("\\\\?\\UNC\\nas\\isos\\Game.ISO", "\\\\?\\UNC\\nas\\isos\\Game.ZISO"),
        ("/isos/é.iso", "/isos/é.ziso"),
    ] {
        let job = convert_iso_to_ziso(path, true, true, 1).unwrap().job;
        assert_eq!(job.output, there);
        assert_eq!(convert_ziso_to_iso(there, true, true).unwrap().output, path);
    }
}

#[test]
fn an_output_that_is_the_input_is_refused() {
    for input in ["a.iso", "/", "..", ""] {
        let refused = output_path_with_matched_ext(input, "iso").unwrap_err();
        assert_eq!(refused.text(), format!("Output path would equal input path: {input}"));
    }
}

#[test]
fn a_text_with_a_separator_is_no_extension() {
    assert!(output_path_if_extension("a.iso", "z/so").is_none());
    assert!(output_path_if_extension("a.iso", "z\\so").is_none());
    assert_eq!(output_path_if_extension("a.iso", "ziso").unwrap().unwrap(), "a.ziso");
    assert_eq!(output_path_if_extension("a.ISO", "é").unwrap().unwrap(), "a.É");
    assert!(output_path_if_extension("a.iso", "iso").unwrap().is_err());
}

#[test]
fn conversions_start_with_the_right_extension() {
    let job = convert_iso_to_chd("/isos/Game.ISO", true, true).unwrap();
    assert_eq!(job.input, "/isos/Game.ISO");
    assert_eq!(job.output, "/isos/Game.CHD");
    assert_eq!(convert_ziso_to_iso("a.Ziso", true, true).unwrap().output, "a.Iso");
    assert_eq!(convert_chd_to_iso("a.chd", true, true).unwrap().output, "a.iso");
    assert_eq!(
        convert_iso_to_chd("\\\\?\\C:\\games\\game.iso", true, true).unwrap().output,
        "\\\\?\\C:\\games\\game.chd"
    );
    assert_eq!(pack_job().job.output, "/isos/Game.ziso");
}

#[test]
fn inputs_that_are_not_there_are_refused() {
    let told = "Input file does not exist: a.iso";
    assert_eq!(convert_iso_to_chd("a.iso", false, false).unwrap_err().text(), told);
    assert_eq!(convert_iso_to_ziso("a.iso", false, false, 1).unwrap_err().text(), told);
    let told = "Input file does not exist";
    assert_eq!(convert_ziso_to_iso("a.ziso", false, false).unwrap_err().text(), told);
    assert_eq!(convert_chd_to_iso("a.chd", false, false).unwrap_err().text(), told);
}

#[test]
fn inputs_that_are_no_files_are_refused() {
    let told = "Input path is not a file: a.iso";
    assert_eq!(convert_iso_to_chd("a.iso", true, false).unwrap_err().text(), told);
    assert_eq!(convert_iso_to_ziso("a.iso", true, false, 1).unwrap_err().text(), told);
    let told = "Input is not a file";
    assert_eq!(convert_ziso_to_iso("a.ziso", true, false).unwrap_err().text(), told);
    assert_eq!(convert_chd_to_iso("a.chd", true, false).unwrap_err().text(), told);
}

#[test]
fn inputs_with_another_extension_are_refused() {
    let told = "Input file must have .iso extension";
    for input in ["a.ziso", "a", ".iso", "..", "a.iso/..", "iso"] {
        assert_eq!(convert_iso_to_chd(input, true, true).unwrap_err().text(), told);
        assert_eq!(convert_iso_to_ziso(input, true, true, 1).unwrap_err().text(), told);
    }
    assert_eq!(
        convert_ziso_to_iso("a.iso", true, true).unwrap_err().text(),
        "Input file must have .ziso extension"
    );
    assert_eq!(
        convert_chd_to_iso("a.iso", true, true).unwrap_err().text(),
        "Input file must have .chd extension"
    );
}

#[test]
fn nothing_is_written_over() {
    let job = job("a.iso", "a.chd");
    assert!(job.output_checked(false).is_ok());
    assert_eq!(
        job.output_checked(true).unwrap_err().text(),
        "Output file already exists: a.chd"
    );
}

#[test]
fn an_image_is_staged_beside_itself() {
    let pack = pack_job();
    let parts: Vec<&str> = pack.staged.split(['/', '\\']).collect();
    assert_eq!(parts, ["", "isos", ".netiso_convert_42", "Game.iso"]);
    assert!(pack.staged.starts_with(&pack.temp_dir));
    let pack = convert_iso_to_ziso("Game.iso", true, true, u32::MAX).unwrap();
    assert_eq!(pack.temp_dir, ".netiso_convert_4294967295");
    for path in ["/Game.iso", "/./Game.iso", "/././Game.iso/"] {
        let pack = convert_iso_to_ziso(path, true, true, 0).unwrap();
        assert_eq!(pack.temp_dir, "/.netiso_convert_0");
    }
    let pack = convert_iso_to_ziso("isos/./Game.iso", true, true, 0).unwrap();
    assert!(
        pack.temp_dir == "isos/.netiso_convert_0" || pack.temp_dir == "isos\\.netiso_convert_0"
    );
}

#[test]
fn an_image_at_a_windows_path_is_staged_in_a_directory_of_its_own() {
    let pack = convert_iso_to_ziso("C:\\isos\\Game.iso", true, true, 7).unwrap();
    assert_eq!(pack.job.output, "C:\\isos\\Game.ziso");
    assert!(pack.temp_dir.ends_with(".netiso_convert_7"));
    assert!(pack.staged.starts_with(&pack.temp_dir));
    assert!(pack.staged.ends_with("Game.iso"));
}

#[test]
fn an_image_with_a_colon_in_its_name_is_not_staged_onto_itself() {
    let pack = convert_iso_to_ziso("/games/X: Beyond.iso", true, true, 3).unwrap();
    assert_eq!(pack.job.output, "/games/X: Beyond.ziso");
    assert!(pack.temp_dir.ends_with(".netiso_convert_3"));
    assert!(pack.staged.starts_with(&pack.temp_dir) || pack.staged == "X: Beyond.iso");
    assert!(pack.staged.ends_with("X: Beyond.iso"));
}

#[test]
fn an_image_at_a_path_taken_as_it_stands_is_staged_beside_itself() {
    let pack = convert_iso_to_ziso("\\\\?\\C:\\games\\a.iso", true, true, 4).unwrap();
    assert!(pack.temp_dir.ends_with(".netiso_convert_4"));
    assert_ne!(pack.staged, "\\\\?\\C:\\games\\a.iso");
    assert!(pack.staged.ends_with("a.iso"));
}

#[test]
fn paths_with_trailing_separators_are_restored_too() {
    let there = output_path_with_matched_ext("isos/a.iso/", "chd").unwrap();
    assert_eq!(there, "isos/a.chd");
    assert_eq!(output_path_with_matched_ext(&there, "iso").unwrap(), "isos/a.iso");
}

#[test]
fn a_converted_image_can_be_converted_back() {
    let there = convert_iso_to_ziso("/isos/Game.Iso", true, true, 1).unwrap().job;
    assert_eq!(there.output, "/isos/Game.Ziso");
    let back = convert_ziso_to_iso(&there.output, true, true).unwrap();
    assert_eq!(back.output, "/isos/Game.Iso");
    let mut extraction = Extraction::from_ziso(&back);
    let files = vec!["Game.Iso".to_string()];
    assert!(matches!(extraction.step(ExtractEvent::Listed(files)), ExtractAction::Measure));
    assert_eq!(extraction.inner(), "Game.Iso");
    let there = convert_iso_to_chd("a.ISO", true, true).unwrap();
    assert_eq!(convert_chd_to_iso(&there.output, true, true).unwrap().output, "a.ISO");
}

#[test]
fn a_packing_goes_step_by_step() {
    let pack = pack_job();
    let exists = PackEvent::OutputChecked { exists: false };
    assert!(matches!(pack.step(exists), PackAction::MakeTemp));
    assert!(matches!(pack.step(PackEvent::TempMade(Ok(()))), PackAction::Link));
    assert!(matches!(pack.step(PackEvent::Linked { done: true }), PackAction::Pack));
    assert!(matches!(pack.step(PackEvent::Linked { done: false }), PackAction::Copy));
    assert!(matches!(pack.step(PackEvent::Copied(Ok(()))), PackAction::Pack));
    assert!(matches!(pack.step(PackEvent::Packed(Ok(()))), PackAction::Finish));
}

#[test]
fn a_packing_leaves_nothing_behind() {
    let pack = pack_job();
    let failed = |event| match pack.step(event) {
        PackAction::Fail { remove_temp, remove_output, error } => {
            (remove_temp, remove_output, error.text())
        }
        other => panic!("{other:?}"),
    };
    let why = || "disk full".to_string();
    assert_eq!(
        failed(PackEvent::OutputChecked { exists: true }),
        (false, false, "Output file already exists: /isos/Game.ziso".to_string())
    );
    assert_eq!(
        failed(PackEvent::TempMade(Err(why()))),
        (false, false, "disk full".to_string())
    );
    assert_eq!(
        failed(PackEvent::Copied(Err(why()))),
        (true, false, "Failed to stage ISO in temp dir: disk full".to_string())
    );
    assert_eq!(
        failed(PackEvent::Packed(Err(why()))),
        (true, true, "Failed to create ZISO: disk full".to_string())
    );
}

#[test]
fn chunks_end_with_the_image() {
    assert_eq!(ZISO_CHUNK_SIZE, 1024 * 1024);
    assert_eq!(CHD_CHUNK_SIZE, 4 * 1024 * 1024);
    assert_eq!(next_chunk(10, 4, 0), Some(Chunk { offset: 0, len: 4 }));
    assert_eq!(next_chunk(10, 4, 6), Some(Chunk { offset: 6, len: 4 }));
    assert_eq!(next_chunk(10, 4, 8), Some(Chunk { offset: 8, len: 2 }));
    assert_eq!(next_chunk(10, 4, 10), None);
    assert_eq!(next_chunk(0, 4, 0), None);
}

#[test]
fn extracting_gives_the_image() {
    let image: Vec<u8> = (0..ZISO_CHUNK_SIZE * 2 + 5).map(|i| (i % 253) as u8).collect();
    let mut extraction = Extraction::from_ziso(&job("a.ziso", "a.iso"));
    assert_eq!(extraction.output(), "a.iso");
    let files = vec!["note.txt".to_string(), "A.ISO".to_string()];
    assert!(matches!(extraction.step(ExtractEvent::Listed(files)), ExtractAction::Measure));
    assert_eq!(extraction.inner(), "A.ISO");
    assert!(matches!(
        extraction.step(ExtractEvent::Sized(Some(image.len() as u64))),
        ExtractAction::CheckOutput
    ));
    assert!(matches!(
        extraction.step(ExtractEvent::OutputChecked { exists: false }),
        ExtractAction::Create
    ));
    let mut written = Vec::new();
    let mut chunks = 0;
    let mut action = extraction.step(ExtractEvent::Created(Ok(())));
    loop {
        action = match action {
            ExtractAction::Read(chunk) => {
                chunks += 1;
                let data = image[chunk.offset as usize..][..chunk.len as usize].to_vec();
                extraction.step(ExtractEvent::Read(chunk_read(chunk, Some(data))))
            }
            ExtractAction::Write(bytes) => {
                written.extend_from_slice(&bytes);
                extraction.step(ExtractEvent::Written(Ok(())))
            }
            ExtractAction::Flush => extraction.step(ExtractEvent::Flushed(Ok(()))),
            ExtractAction::Finish => break,
            other => panic!("{other:?}"),
        };
    }
    assert_eq!(chunks, 3);
    assert!(written == image);
}

#[test]
fn an_empty_image_is_extracted_at_once() {
    let mut extraction = Extraction::from_chd(&job("a.chd", "a.iso"));
    extraction.step(ExtractEvent::Sized(Some(0)));
    assert!(matches!(extraction.step(ExtractEvent::Created(Ok(()))), ExtractAction::Flush));
}

#[test]
fn a_chd_is_extracted_in_larger_chunks() {
    let mut extraction = Extraction::from_chd(&job("a.chd", "a.iso"));
    extraction.step(ExtractEvent::Sized(Some(u64::MAX)));
    assert!(matches!(
        extraction.step(ExtractEvent::Created(Ok(()))),
        ExtractAction::Read(Chunk { offset: 0, len: 0x400000 })
    ));
    assert!(matches!(
        extraction.step(ExtractEvent::Written(Ok(()))),
        ExtractAction::Read(Chunk { offset: 0x400000, len: 0x400000 })
    ));
}

#[test]
fn extractions_fail_with_their_reason() {
    let failed = |event| {
        let mut extraction = Extraction::from_ziso(&job("a.ziso", "a.iso"));
        match extraction.step(event) {
            ExtractAction::Fail(error) => error.text(),
            other => panic!("{other:?}"),
        }
    };
    let why = || "disk full".to_string();
    assert_eq!(
        failed(ExtractEvent::Listed(vec!["a.txt".to_string()])),
        "No .iso file found inside ZISO archive"
    );
    assert_eq!(failed(ExtractEvent::Sized(None)), "Could not determine inner ISO size");
    assert_eq!(
        failed(ExtractEvent::OutputChecked { exists: true }),
        "Output file already exists: a.iso"
    );
    assert_eq!(failed(ExtractEvent::Created(Err(why()))), "disk full");
    assert_eq!(failed(ExtractEvent::Written(Err(why()))), "disk full");
    assert_eq!(failed(ExtractEvent::Flushed(Err(why()))), "disk full");
    let chunk = Chunk { offset: 1048576, len: 5 };
    assert_eq!(
        failed(ExtractEvent::Read(chunk_read(chunk, None))),
        "Failed to read at offset 1048576"
    );
}

#[test]
fn the_other_errors_are_told() {
    assert_eq!(
        ConvertError::PastEnd(ReadPastEnd { offset: 12, logical_size: 10 }).text(),
        "CHD read past end: offset 12 >= logical size 10"
    );
    assert_eq!(ConvertError::ReadFailed(0).text(), "Failed to read at offset 0");
    assert_eq!(
        ConvertError::ReadFailed(u64::MAX).text(),
        "Failed to read at offset 18446744073709551615"
    );
    assert_eq!(
        ConvertError::CreateFailed("no space".to_string()).text(),
        "Failed to create CHD: no space"
    );
}

#[test]
fn a_chd_is_created_with_zstandard_and_small_hunks() {
    let options = chd_options();
    assert_eq!(options.codecs, [u32::from_be_bytes(*b"zstd"), 0, 0, 0]);
    assert_eq!(options.hunk_size, 2048);
}
