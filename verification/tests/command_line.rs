use netiso_srv::cli::{
    check_arg, get_arg_value, select_command, usage, Command, Complaint,
};

fn args(texts: &[&str]) -> Vec<String> {
    texts.iter().map(|text| text.to_string()).collect()
}

fn command(texts: &[&str]) -> Command {
    select_command(&mut args(texts))
}

#[test]
fn a_flag_is_taken_out_once() {
    let mut given = args(&["prog", "-r", "dir", "-r"]);
    assert!(check_arg(&mut given, "-r"));
    assert_eq!(given, ["prog", "dir", "-r"]);
    assert!(check_arg(&mut given, "-r"));
    assert!(!check_arg(&mut given, "-r"));
    assert_eq!(given, ["prog", "dir"]);
}

#[test]
fn a_value_is_taken_out_with_its_option() {
    let mut given = args(&["prog", "-i", "a.iso", "dir"]);
    assert_eq!(get_arg_value(&mut given, "-i"), Some("a.iso".to_string()));
    assert_eq!(given, ["prog", "dir"]);
    assert_eq!(get_arg_value(&mut given, "-i"), None);
    assert_eq!(given, ["prog", "dir"]);
    let mut given = args(&["prog", "-i"]);
    assert_eq!(get_arg_value(&mut given, "-i"), None);
    assert_eq!(given, ["prog"]);
}

#[test]
fn a_directory_is_served() {
    let mut given = args(&["prog", "-v", "/isos", "-r", "more"]);
    match select_command(&mut given) {
        Command::Serve { directory, recursive, verbose } => {
            assert_eq!(directory, "/isos");
            assert!(recursive && verbose);
        }
        other => panic!("{other:?}"),
    }
    assert_eq!(given, ["prog", "/isos", "more"]);
    assert!(matches!(
        command(&["prog", "/isos"]),
        Command::Serve { recursive: false, verbose: false, .. }
    ));
}

#[test]
fn each_conversion_has_its_option() {
    assert!(matches!(command(&["p", "-i", "a"]), Command::IsoToZiso(path) if path == "a"));
    assert!(matches!(command(&["p", "-d", "b"]), Command::ZisoToIso(path) if path == "b"));
    assert!(matches!(command(&["p", "-c", "c"]), Command::IsoToChd(path) if path == "c"));
    assert!(matches!(command(&["p", "-x", "d"]), Command::ChdToIso(path) if path == "d"));
    assert!(matches!(command(&["p", "-h", "-i", "a"]), Command::IsoToZiso(_)));
    // A flag is not taken for the value of an option.
    assert!(matches!(command(&["p", "-i", "-v", "a"]), Command::IsoToZiso(path) if path == "a"));
}

#[test]
fn a_conversion_is_asked_for_alone() {
    assert!(matches!(
        command(&["p", "-i", "a", "-x", "b"]),
        Command::Usage(Some(Complaint::ManyConversions))
    ));
    assert!(matches!(
        command(&["p", "-d", "a", "-r"]),
        Command::Usage(Some(Complaint::ConversionAndServing))
    ));
    assert!(matches!(
        command(&["p", "-i", "a", "-d", "b", "-r"]),
        Command::Usage(Some(Complaint::ManyConversions))
    ));
}

#[test]
fn help_and_missing_arguments_give_the_usage() {
    assert!(matches!(command(&["p", "-h", "/isos"]), Command::Usage(None)));
    assert!(matches!(command(&["p", "-h"]), Command::Usage(None)));
    assert!(matches!(command(&["p"]), Command::Usage(Some(Complaint::NoDirectory))));
    assert!(matches!(command(&["p", "-i"]), Command::Usage(Some(Complaint::NoDirectory))));
    assert!(matches!(command(&[]), Command::Usage(Some(Complaint::NoDirectory))));
}

#[test]
fn complaints_are_told() {
    assert_eq!(
        Complaint::ManyConversions.text(),
        "ERROR: conversion modes are mutually exclusive\n"
    );
    assert_eq!(
        Complaint::ConversionAndServing.text(),
        "ERROR: conversion mode and -r (server mode) are mutually exclusive\n"
    );
    assert_eq!(Complaint::NoDirectory.text(), "ERROR: Invalid number of arguments!\n");
}

#[test]
fn the_usage_names_the_program() {
    let text = usage("netiso-srv");
    assert_eq!(
        text.lines().next(),
        Some(
            "Usage: netiso-srv [-rvh] [-i <iso_file>] [-d <ziso_file>] [-c <iso_file>] [-x <chd_file>] [iso directory path]"
        )
    );
    assert_eq!(text.lines().count(), 10);
    assert!(text.ends_with("(requires --features chd)\n"));
}
