//! The command line.

use crate::errors::two;
use crate::text::{same_text, text_of, texts};
use vstd::prelude::*;
use vstd::string::*;

verus! {

/// What the user got wrong.
#[derive(Clone, Copy, PartialEq, Eq, Structural, Debug)]
pub enum Complaint {
    /// More than one conversion was asked for.
    ManyConversions,
    /// A conversion was asked for, and recursive scanning, which is for serving.
    ConversionAndServing,
    /// Neither a conversion nor a directory to serve was given.
    NoDirectory,
}

/// What the program is asked to do.
#[derive(Debug)]
pub enum Command {
    /// Tell how the program is called, after a complaint if there is one.
    Usage(Option<Complaint>),
    /// Convert the disc image at this path to a ZISO.
    IsoToZiso(String),
    /// Convert the ZISO at this path to a disc image.
    ZisoToIso(String),
    /// Convert the disc image at this path to a CHD.
    IsoToChd(String),
    /// Convert the CHD at this path to a disc image.
    ChdToIso(String),
    /// Serve the images in a directory.
    Serve { directory: String, recursive: bool, verbose: bool },
}

/// What a [`Command`] says.
pub enum CommandView {
    Usage(Option<Complaint>),
    IsoToZiso(Seq<char>),
    ZisoToIso(Seq<char>),
    IsoToChd(Seq<char>),
    ChdToIso(Seq<char>),
    Serve { directory: Seq<char>, recursive: bool, verbose: bool },
}

impl View for Command {
    type V = CommandView;

    open spec fn view(&self) -> CommandView {
        match self {
            Command::Usage(complaint) => CommandView::Usage(*complaint),
            Command::IsoToZiso(path) => CommandView::IsoToZiso(path@),
            Command::ZisoToIso(path) => CommandView::ZisoToIso(path@),
            Command::IsoToChd(path) => CommandView::IsoToChd(path@),
            Command::ChdToIso(path) => CommandView::ChdToIso(path@),
            Command::Serve { directory, recursive, verbose } => CommandView::Serve {
                directory: directory@,
                recursive: *recursive,
                verbose: *verbose,
            },
        }
    }
}

/// Where `name` stands first among `args`; the number of arguments if it does
/// not.
pub open spec fn position(args: Seq<Seq<char>>, name: Seq<char>) -> int
    decreases args.len(),
{
    if args.len() == 0 || args[0] == name {
        0
    } else {
        1 + position(args.skip(1), name)
    }
}

/// `name` is among `args`.
pub open spec fn has_arg(args: Seq<Seq<char>>, name: Seq<char>) -> bool {
    position(args, name) < args.len()
}

/// `args` without the first `name`.
pub open spec fn without_arg<A>(args: Seq<A>, at: int) -> Seq<A> {
    if at < args.len() {
        args.remove(at)
    } else {
        args
    }
}

/// The argument behind the first `name`, if there is one.
pub open spec fn arg_value(args: Seq<Seq<char>>, name: Seq<char>) -> Option<Seq<char>> {
    let at = position(args, name);
    if at + 1 < args.len() {
        Some(args[at + 1])
    } else {
        None
    }
}

/// `args` without the argument at `at` and the one behind it.
pub open spec fn without_value<A>(args: Seq<A>, at: int) -> Seq<A> {
    without_arg(without_arg(args, at), at)
}

proof fn lemma_position(args: Seq<Seq<char>>, name: Seq<char>, at: int)
    requires
        0 <= at <= args.len(),
        forall|k: int| 0 <= k < at ==> #[trigger] args[k] != name,
        at < args.len() ==> args[at] == name,
    ensures
        position(args, name) == at,
    decreases args.len(),
{
    if args.len() > 0 && at > 0 {
        assert(args[0] != name);
        assert forall|k: int| 0 <= k < at - 1 implies #[trigger] args.skip(1)[k] != name by {
            assert(args[k + 1] != name);
        }
        lemma_position(args.skip(1), name, at - 1);
    }
}

/// Where `arg_name` stands first among `args`.
fn find_arg(args: &Vec<String>, arg_name: &str) -> (at: usize)
    ensures
        at == position(texts(args@), arg_name@),
        at <= args@.len(),
{
    let mut i: usize = 0;
    while i < args.len()
        invariant
            i <= args@.len(),
            forall|k: int| 0 <= k < i ==> #[trigger] texts(args@)[k] != arg_name@,
        decreases args@.len() - i,
    {
        if same_text(args[i].as_str(), arg_name) {
            proof {
                lemma_position(texts(args@), arg_name@, i as int);
            }
            return i;
        }
        i += 1;
    }
    proof {
        lemma_position(texts(args@), arg_name@, i as int);
    }
    i
}

/// Takes the first `arg_name` out of `args`, and tells whether there was one.
pub fn check_arg(args: &mut Vec<String>, arg_name: &str) -> (found: bool)
    ensures
        found == has_arg(texts(old(args)@), arg_name@),
        final(args)@ == without_arg(old(args)@, position(texts(old(args)@), arg_name@)),
{
    let at: usize = find_arg(args, arg_name);
    if at < args.len() {
        args.remove(at);
        true
    } else {
        false
    }
}

/// Takes the first `arg_name` and the argument behind it out of `args`, and
/// gives the latter.
pub fn get_arg_value(args: &mut Vec<String>, arg_name: &str) -> (value: Option<String>)
    ensures
        text_of(value) == arg_value(texts(old(args)@), arg_name@),
        final(args)@ == without_value(old(args)@, position(texts(old(args)@), arg_name@)),
{
    let ghost before = args@;
    let at: usize = find_arg(args, arg_name);
    if at < args.len() {
        args.remove(at);
        if at < args.len() {
            let value: String = args.remove(at);
            assert(value == before[at + 1]);
            Some(value)
        } else {
            None
        }
    } else {
        None
    }
}

proof fn lemma_texts_without_arg(args: Seq<String>, at: int)
    requires
        0 <= at,
    ensures
        texts(without_arg(args, at)) == without_arg(texts(args), at),
        texts(without_value(args, at)) == without_value(texts(args), at),
{
    assert(texts(without_arg(args, at)) =~= without_arg(texts(args), at));
    assert(texts(without_value(args, at)) =~= without_value(texts(args), at));
}

proof fn lemma_position_is_nonnegative(args: Seq<Seq<char>>, name: Seq<char>)
    ensures
        0 <= position(args, name) <= args.len(),
    decreases args.len(),
{
    if args.len() > 0 && args[0] != name {
        lemma_position_is_nonnegative(args.skip(1), name);
    }
}

/// What is left of `args` when the first `name` has been taken out.
pub open spec fn flag_taken(args: Seq<Seq<char>>, name: Seq<char>) -> Seq<Seq<char>> {
    without_arg(args, position(args, name))
}

/// What is left of `args` when the first `name` and its value have been taken
/// out.
pub open spec fn value_taken(args: Seq<Seq<char>>, name: Seq<char>) -> Seq<Seq<char>> {
    without_value(args, position(args, name))
}

/// The options of a command line.
pub struct Options {
    pub help: bool,
    pub recursive: bool,
    pub verbose: bool,
    pub iso_to_ziso: Option<Seq<char>>,
    pub ziso_to_iso: Option<Seq<char>>,
    pub iso_to_chd: Option<Seq<char>>,
    pub chd_to_iso: Option<Seq<char>>,
    /// What is left when the options have been taken out.
    pub rest: Seq<Seq<char>>,
}

/// The options of a command line. Those without a value are taken out first, so
/// that none of them is mistaken for a value.
pub open spec fn options(args: Seq<Seq<char>>) -> Options {
    let no_h = flag_taken(args, "-h"@);
    let no_r = flag_taken(no_h, "-r"@);
    let no_v = flag_taken(no_r, "-v"@);
    let no_i = value_taken(no_v, "-i"@);
    let no_d = value_taken(no_i, "-d"@);
    let no_c = value_taken(no_d, "-c"@);
    Options {
        help: has_arg(args, "-h"@),
        recursive: has_arg(no_h, "-r"@),
        verbose: has_arg(no_r, "-v"@),
        iso_to_ziso: arg_value(no_v, "-i"@),
        ziso_to_iso: arg_value(no_i, "-d"@),
        iso_to_chd: arg_value(no_d, "-c"@),
        chd_to_iso: arg_value(no_c, "-x"@),
        rest: value_taken(no_c, "-x"@),
    }
}

impl Options {
    /// How many conversions are asked for.
    pub open spec fn conversions(self) -> int {
        (if self.iso_to_ziso is Some {
            1int
        } else {
            0
        }) + (if self.ziso_to_iso is Some {
            1int
        } else {
            0
        }) + (if self.iso_to_chd is Some {
            1int
        } else {
            0
        }) + (if self.chd_to_iso is Some {
            1int
        } else {
            0
        })
    }

    /// What the program is asked to do.
    pub open spec fn command(self) -> CommandView {
        if self.conversions() > 1 {
            CommandView::Usage(Some(Complaint::ManyConversions))
        } else if self.conversions() == 1 && self.recursive {
            CommandView::Usage(Some(Complaint::ConversionAndServing))
        } else if self.iso_to_ziso is Some {
            CommandView::IsoToZiso(self.iso_to_ziso->0)
        } else if self.ziso_to_iso is Some {
            CommandView::ZisoToIso(self.ziso_to_iso->0)
        } else if self.iso_to_chd is Some {
            CommandView::IsoToChd(self.iso_to_chd->0)
        } else if self.chd_to_iso is Some {
            CommandView::ChdToIso(self.chd_to_iso->0)
        } else if self.help {
            CommandView::Usage(None)
        } else if self.rest.len() < 2 {
            CommandView::Usage(Some(Complaint::NoDirectory))
        } else {
            CommandView::Serve {
                directory: self.rest[1],
                recursive: self.recursive,
                verbose: self.verbose,
            }
        }
    }
}

/// What the program is asked to do by `args`, the first of which is its own
/// name. The options are taken out of `args`.
pub fn select_command(args: &mut Vec<String>) -> (command: Command)
    ensures
        command@ == options(texts(old(args)@)).command(),
        texts(final(args)@) == options(texts(old(args)@)).rest,
{
    let help: bool = take_flag(args, "-h");
    let recursive: bool = take_flag(args, "-r");
    let verbose: bool = take_flag(args, "-v");
    let iso_to_ziso: Option<String> = take_value(args, "-i");
    let ziso_to_iso: Option<String> = take_value(args, "-d");
    let iso_to_chd: Option<String> = take_value(args, "-c");
    let chd_to_iso: Option<String> = take_value(args, "-x");
    let mut conversions: usize = 0;
    if iso_to_ziso.is_some() {
        conversions += 1;
    }
    if ziso_to_iso.is_some() {
        conversions += 1;
    }
    if iso_to_chd.is_some() {
        conversions += 1;
    }
    if chd_to_iso.is_some() {
        conversions += 1;
    }
    if conversions > 1 {
        return Command::Usage(Some(Complaint::ManyConversions));
    }
    if conversions == 1 && recursive {
        return Command::Usage(Some(Complaint::ConversionAndServing));
    }
    if let Some(path) = iso_to_ziso {
        return Command::IsoToZiso(path);
    }
    if let Some(path) = ziso_to_iso {
        return Command::ZisoToIso(path);
    }
    if let Some(path) = iso_to_chd {
        return Command::IsoToChd(path);
    }
    if let Some(path) = chd_to_iso {
        return Command::ChdToIso(path);
    }
    if help {
        return Command::Usage(None);
    }
    if args.len() < 2 {
        return Command::Usage(Some(Complaint::NoDirectory));
    }
    Command::Serve { directory: args[1].clone(), recursive, verbose }
}

/// A conversion is done only if it is the only one that is asked for and
/// recursive scanning is not, and a directory is served only if none is.
pub proof fn law_a_conversion_is_asked_for_alone(options: Options)
    ensures
        match options.command() {
            CommandView::IsoToZiso(path) => options.iso_to_ziso == Some(path),
            CommandView::ZisoToIso(path) => options.ziso_to_iso == Some(path),
            CommandView::IsoToChd(path) => options.iso_to_chd == Some(path),
            CommandView::ChdToIso(path) => options.chd_to_iso == Some(path),
            _ => true,
        },
        match options.command() {
            CommandView::Serve { .. } => options.conversions() == 0 && !options.help,
            CommandView::Usage(_) => true,
            _ => options.conversions() == 1 && !options.recursive,
        },
{
}

/// [`check_arg`], over the texts of the arguments.
fn take_flag(args: &mut Vec<String>, arg_name: &str) -> (found: bool)
    ensures
        found == has_arg(texts(old(args)@), arg_name@),
        texts(final(args)@) == flag_taken(texts(old(args)@), arg_name@),
{
    proof {
        let at = position(texts(args@), arg_name@);
        lemma_position_is_nonnegative(texts(args@), arg_name@);
        lemma_texts_without_arg(args@, at);
    }
    check_arg(args, arg_name)
}

/// [`get_arg_value`], over the texts of the arguments.
fn take_value(args: &mut Vec<String>, arg_name: &str) -> (value: Option<String>)
    ensures
        text_of(value) == arg_value(texts(old(args)@), arg_name@),
        texts(final(args)@) == value_taken(texts(old(args)@), arg_name@),
{
    proof {
        let at = position(texts(args@), arg_name@);
        lemma_position_is_nonnegative(texts(args@), arg_name@);
        lemma_texts_without_arg(args@, at);
    }
    get_arg_value(args, arg_name)
}

impl Complaint {
    /// What the user is told.
    pub open spec fn told(self) -> Seq<char> {
        match self {
            Complaint::ManyConversions => "ERROR: conversion modes are mutually exclusive\n"@,
            Complaint::ConversionAndServing =>
                "ERROR: conversion mode and -r (server mode) are mutually exclusive\n"@,
            Complaint::NoDirectory => "ERROR: Invalid number of arguments!\n"@,
        }
    }

    /// What the user is told.
    pub fn text(&self) -> (text: String)
        ensures
            text@ == self.told(),
    {
        match self {
            Complaint::ManyConversions =>
                "ERROR: conversion modes are mutually exclusive\n".to_owned(),
            Complaint::ConversionAndServing =>
                "ERROR: conversion mode and -r (server mode) are mutually exclusive\n".to_owned(),
            Complaint::NoDirectory => "ERROR: Invalid number of arguments!\n".to_owned(),
        }
    }
}

/// How the program called `bin_name` is called.
pub open spec fn usage_told(bin_name: Seq<char>) -> Seq<char> {
    "Usage: "@ + bin_name
        + " [-rvh] [-i <iso_file>] [-d <ziso_file>] [-c <iso_file>] [-x <chd_file>] [iso directory path]\n\nArgs:\n\t-r - Recursive ISO / ZISO / CHD scanning\n\t-v - Verbose output\n\t-h - Print help / usage\n\t-i <file.iso>   - Convert ISO to ZISO (case preserved)\n\t-d <file.ziso>  - Convert ZISO to ISO (case preserved)\n\t-c <file.iso>   - Convert ISO to CHD  (requires --features chd-create)\n\t-x <file.chd>   - Convert CHD to ISO  (requires --features chd)\n"@
}

/// How the program called `bin_name` is called.
pub fn usage(bin_name: &str) -> (text: String)
    ensures
        text@ == usage_told(bin_name@),
{
    let mut text: String = two("Usage: ", bin_name);
    text.append(" [-rvh] [-i <iso_file>] [-d <ziso_file>] [-c <iso_file>] [-x <chd_file>] [iso directory path]\n\nArgs:\n\t-r - Recursive ISO / ZISO / CHD scanning\n\t-v - Verbose output\n\t-h - Print help / usage\n\t-i <file.iso>   - Convert ISO to ZISO (case preserved)\n\t-d <file.ziso>  - Convert ZISO to ISO (case preserved)\n\t-c <file.iso>   - Convert ISO to CHD  (requires --features chd-create)\n\t-x <file.chd>   - Convert CHD to ISO  (requires --features chd)\n");
    text
}

/// An option is looked for where it stands first, and is there exactly if it is among
/// the arguments.
pub proof fn law_an_option_is_found_where_it_stands_first(args: Seq<Seq<char>>, name: Seq<char>)
    ensures
        has_arg(args, name) <==> args.contains(name),
        0 <= position(args, name) <= args.len(),
        forall|k: int| 0 <= k < position(args, name) ==> #[trigger] args[k] != name,
        position(args, name) < args.len() ==> args[position(args, name)] == name,
    decreases args.len(),
{
    if args.len() > 0 && args[0] != name {
        let rest = args.skip(1);
        law_an_option_is_found_where_it_stands_first(rest, name);
        assert forall|k: int| 0 <= k < position(args, name) implies #[trigger] args[k] != name by {
            if k > 0 {
                assert(rest[k - 1] == args[k]);
            }
        }
    }
    if args.contains(name) {
        let k = choose|k: int| 0 <= k < args.len() && args[k] == name;
        assert(position(args, name) <= k);
    }
    if has_arg(args, name) {
        assert(args[position(args, name)] == name);
    }
}

/// Taking out an option leaves all other arguments in their order; what is not there
/// is not taken out.
pub proof fn law_only_the_option_is_taken_out(
    front: Seq<Seq<char>>,
    name: Seq<char>,
    back: Seq<Seq<char>>,
)
    requires
        !front.contains(name),
    ensures
        !has_arg(front, name),
        flag_taken(front, name) == front,
        has_arg(front + seq![name] + back, name),
        flag_taken(front + seq![name] + back, name) == front + back,
{
    let args = front + seq![name] + back;
    law_an_option_is_found_where_it_stands_first(front, name);
    lemma_position_behind(front, name, back);
    assert(args.remove(front.len() as int) =~= front + back);
}

/// Taking out an option with a value gives the argument behind the option and leaves all
/// others in their order; an option at the end has no value, and is taken out alone.
pub proof fn law_only_the_option_and_its_value_are_taken_out(
    front: Seq<Seq<char>>,
    name: Seq<char>,
    value: Seq<char>,
    back: Seq<Seq<char>>,
)
    requires
        !front.contains(name),
    ensures
        arg_value(front, name) is None,
        value_taken(front, name) == front,
        arg_value(front.push(name), name) is None,
        value_taken(front.push(name), name) == front,
        arg_value(front + seq![name, value] + back, name) == Some(value),
        value_taken(front + seq![name, value] + back, name) == front + back,
{
    let args = front + seq![name, value] + back;
    law_an_option_is_found_where_it_stands_first(front, name);
    lemma_position_behind(front, name, seq![value] + back);
    assert(args =~= front + seq![name] + (seq![value] + back));
    assert(args.remove(front.len() as int) =~= front + seq![value] + back);
    assert((front + seq![value] + back).remove(front.len() as int) =~= front + back);
    lemma_position_behind(front, name, Seq::empty());
    assert(front.push(name) =~= front + seq![name] + Seq::<Seq<char>>::empty());
    assert(front.push(name).remove(front.len() as int) =~= front);
}

/// An option stands behind what does not hold it.
proof fn lemma_position_behind(front: Seq<Seq<char>>, name: Seq<char>, back: Seq<Seq<char>>)
    requires
        !front.contains(name),
    ensures
        position(front + seq![name] + back, name) == front.len(),
{
    let args = front + seq![name] + back;
    assert forall|k: int| 0 <= k < front.len() implies #[trigger] args[k] != name by {
        assert(front.contains(front[k]));
    }
    assert(args[front.len() as int] == name);
    lemma_position(args, name, front.len() as int);
}

/// `word` is one of the options.
pub open spec fn is_option(word: Seq<char>) -> bool {
    word.len() == 2 && word[0] == '-' && seq!['h', 'r', 'v', 'i', 'd', 'c', 'x'].contains(word[1])
}

/// None of `words` is an option.
pub open spec fn no_options(words: Seq<Seq<char>>) -> bool {
    forall|i: int| 0 <= i < words.len() ==> !is_option(#[trigger] words[i])
}

/// What the options look like.
proof fn lemma_the_options()
    ensures
        "-h"@ == seq!['-', 'h'],
        "-r"@ == seq!['-', 'r'],
        "-v"@ == seq!['-', 'v'],
        "-i"@ == seq!['-', 'i'],
        "-d"@ == seq!['-', 'd'],
        "-c"@ == seq!['-', 'c'],
        "-x"@ == seq!['-', 'x'],
        is_option("-h"@) && is_option("-r"@) && is_option("-v"@) && is_option("-i"@) && is_option(
            "-d"@,
        ) && is_option("-c"@) && is_option("-x"@),
        "-h"@ != "-r"@ && "-h"@ != "-v"@ && "-r"@ != "-v"@,
        "-h"@ != "-i"@ && "-h"@ != "-d"@ && "-h"@ != "-c"@ && "-h"@ != "-x"@,
        "-r"@ != "-i"@ && "-r"@ != "-d"@ && "-r"@ != "-c"@ && "-r"@ != "-x"@,
        "-v"@ != "-i"@ && "-v"@ != "-d"@ && "-v"@ != "-c"@ && "-v"@ != "-x"@,
        "-i"@ != "-d"@ && "-i"@ != "-c"@ && "-i"@ != "-x"@,
        "-d"@ != "-c"@ && "-d"@ != "-x"@ && "-c"@ != "-x"@,
{
    reveal_strlit("-h");
    reveal_strlit("-r");
    reveal_strlit("-v");
    reveal_strlit("-i");
    reveal_strlit("-d");
    reveal_strlit("-c");
    reveal_strlit("-x");
    assert("-h"@ =~= seq!['-', 'h']);
    assert("-r"@ =~= seq!['-', 'r']);
    assert("-v"@ =~= seq!['-', 'v']);
    assert("-i"@ =~= seq!['-', 'i']);
    assert("-d"@ =~= seq!['-', 'd']);
    assert("-c"@ =~= seq!['-', 'c']);
    assert("-x"@ =~= seq!['-', 'x']);
    let letters = seq!['h', 'r', 'v', 'i', 'd', 'c', 'x'];
    assert(letters[0] == 'h' && letters[1] == 'r' && letters[2] == 'v' && letters[3] == 'i'
        && letters[4] == 'd' && letters[5] == 'c' && letters[6] == 'x');
    assert("-h"@[1] == 'h' && "-r"@[1] == 'r' && "-v"@[1] == 'v' && "-i"@[1] == 'i' && "-d"@[1]
        == 'd' && "-c"@[1] == 'c' && "-x"@[1] == 'x');
}

/// What holds no option is left as it is by each.
proof fn lemma_nothing_is_taken(words: Seq<Seq<char>>, name: Seq<char>)
    requires
        !words.contains(name),
    ensures
        !has_arg(words, name),
        flag_taken(words, name) == words,
        arg_value(words, name) is None,
        value_taken(words, name) == words,
{
    law_only_the_option_is_taken_out(words, name, Seq::empty());
    law_only_the_option_and_its_value_are_taken_out(words, name, name, Seq::empty());
}

/// Among words that are no options none is found.
proof fn lemma_no_option_is_there(words: Seq<Seq<char>>, name: Seq<char>)
    requires
        no_options(words),
        is_option(name),
    ensures
        !words.contains(name),
{
    if words.contains(name) {
        let k = choose|k: int| 0 <= k < words.len() && words[k] == name;
        assert(!is_option(words[k]));
    }
}

/// Taking out one option keeps whether another is there.
proof fn lemma_other_options_stay(args: Seq<Seq<char>>, name: Seq<char>, other: Seq<char>)
    requires
        name != other,
    ensures
        flag_taken(args, name).contains(other) <==> args.contains(other),
{
    let at = position(args, name);
    let left = flag_taken(args, name);
    law_an_option_is_found_where_it_stands_first(args, name);
    if at < args.len() {
        if args.contains(other) {
            let k = choose|k: int| 0 <= k < args.len() && args[k] == other;
            assert(left[if k < at {
                k
            } else {
                k - 1
            }] == other);
        }
        if left.contains(other) {
            let k = choose|k: int| 0 <= k < left.len() && left[k] == other;
            assert(args[if k < at {
                k
            } else {
                k + 1
            }] == other);
        }
    }
}

/// The options without a value are given exactly if they are among the arguments,
/// wherever they stand.
pub proof fn law_a_flag_may_stand_anywhere(args: Seq<Seq<char>>)
    ensures
        options(args).help <==> args.contains(seq!['-', 'h']),
        options(args).recursive <==> args.contains(seq!['-', 'r']),
        options(args).verbose <==> args.contains(seq!['-', 'v']),
{
    lemma_the_options();
    let no_h = flag_taken(args, "-h"@);
    let no_r = flag_taken(no_h, "-r"@);
    law_an_option_is_found_where_it_stands_first(args, "-h"@);
    law_an_option_is_found_where_it_stands_first(no_h, "-r"@);
    law_an_option_is_found_where_it_stands_first(no_r, "-v"@);
    lemma_other_options_stay(args, "-h"@, "-r"@);
    lemma_other_options_stay(args, "-h"@, "-v"@);
    lemma_other_options_stay(no_h, "-r"@, "-v"@);
}

/// Of a command line without options nothing is taken out, and one without options but
/// for a conversion asks for that one, of the path behind it: `-i` to a ZISO, `-d` back
/// from it, `-c` to a CHD, and `-x` back from that.
pub proof fn law_each_conversion_has_its_option(
    front: Seq<Seq<char>>,
    letter: char,
    path: Seq<char>,
    back: Seq<Seq<char>>,
)
    requires
        no_options(front),
        no_options(back),
        !is_option(path),
    ensures
        options(front).conversions() == 0,
        options(front).rest == front,
        !options(front).help && !options(front).recursive && !options(front).verbose,
        letter == 'i' || letter == 'd' || letter == 'c' || letter == 'x' ==> {
            let args = front + seq![seq!['-', letter], path] + back;
            &&& options(args).rest == front + back
            &&& options(args).command() == if letter == 'i' {
                CommandView::IsoToZiso(path)
            } else if letter == 'd' {
                CommandView::ZisoToIso(path)
            } else if letter == 'c' {
                CommandView::IsoToChd(path)
            } else {
                CommandView::ChdToIso(path)
            }
        },
{
    lemma_the_options();
    let rest = front + back;
    assert(no_options(rest)) by {
        assert forall|i: int| 0 <= i < rest.len() implies !is_option(#[trigger] rest[i]) by {
            if i < front.len() {
                assert(!is_option(front[i]));
            } else {
                assert(!is_option(back[i - front.len()]));
            }
        }
    }
    lemma_nothing_in(front);
    lemma_nothing_in(rest);
    if letter == 'i' || letter == 'd' || letter == 'c' || letter == 'x' {
        let name = seq!['-', letter];
        let args = front + seq![name, path] + back;
        assert(is_option(name)) by {
            let letters = seq!['h', 'r', 'v', 'i', 'd', 'c', 'x'];
            assert(letters[3] == 'i' && letters[4] == 'd' && letters[5] == 'c' && letters[6]
                == 'x');
        }
        assert forall|other: Seq<char>| is_option(other) && other != name implies !(
        #[trigger] args.contains(other)) by {
            if args.contains(other) {
                let k = choose|k: int| 0 <= k < args.len() && args[k] == other;
                if k < front.len() {
                    assert(!is_option(front[k]));
                } else if k >= front.len() + 2 {
                    assert(!is_option(back[k - front.len() - 2]));
                }
            }
        }
        lemma_no_option_is_there(front, name);
        law_only_the_option_and_its_value_are_taken_out(front, name, path, back);
        lemma_nothing_is_taken(args, "-h"@);
        lemma_nothing_is_taken(args, "-r"@);
        lemma_nothing_is_taken(args, "-v"@);
        if letter != 'i' {
            assert("-i"@[1] != name[1]);
            lemma_nothing_is_taken(args, "-i"@);
            if letter != 'd' {
                assert("-d"@[1] != name[1]);
                lemma_nothing_is_taken(args, "-d"@);
                if letter != 'c' {
                    assert("-c"@[1] != name[1]);
                    lemma_nothing_is_taken(args, "-c"@);
                }
            }
        }
    }
}

/// Of words that are no options none is taken by any option.
proof fn lemma_nothing_in(words: Seq<Seq<char>>)
    requires
        no_options(words),
    ensures
        !has_arg(words, "-h"@) && flag_taken(words, "-h"@) == words,
        !has_arg(words, "-r"@) && flag_taken(words, "-r"@) == words,
        !has_arg(words, "-v"@) && flag_taken(words, "-v"@) == words,
        arg_value(words, "-i"@) is None && value_taken(words, "-i"@) == words,
        arg_value(words, "-d"@) is None && value_taken(words, "-d"@) == words,
        arg_value(words, "-c"@) is None && value_taken(words, "-c"@) == words,
        arg_value(words, "-x"@) is None && value_taken(words, "-x"@) == words,
{
    lemma_the_options();
    lemma_no_option_is_there(words, "-h"@);
    lemma_no_option_is_there(words, "-r"@);
    lemma_no_option_is_there(words, "-v"@);
    lemma_no_option_is_there(words, "-i"@);
    lemma_no_option_is_there(words, "-d"@);
    lemma_no_option_is_there(words, "-c"@);
    lemma_no_option_is_there(words, "-x"@);
    lemma_nothing_is_taken(words, "-h"@);
    lemma_nothing_is_taken(words, "-r"@);
    lemma_nothing_is_taken(words, "-v"@);
    lemma_nothing_is_taken(words, "-i"@);
    lemma_nothing_is_taken(words, "-d"@);
    lemma_nothing_is_taken(words, "-c"@);
    lemma_nothing_is_taken(words, "-x"@);
}

/// What stands before and behind the flags of a command line is read as if they were not
/// there: so none of them is mistaken for a path.
pub proof fn law_flags_do_not_hide_what_else_is_asked_for(args: Seq<Seq<char>>)
    requires
        ({
            let bare = flag_taken(flag_taken(flag_taken(args, "-h"@), "-r"@), "-v"@);
            !bare.contains("-h"@) && !bare.contains("-r"@) && !bare.contains("-v"@)
        }),
    ensures
        ({
            let bare = flag_taken(flag_taken(flag_taken(args, "-h"@), "-r"@), "-v"@);
            &&& options(args).iso_to_ziso == options(bare).iso_to_ziso
            &&& options(args).ziso_to_iso == options(bare).ziso_to_iso
            &&& options(args).iso_to_chd == options(bare).iso_to_chd
            &&& options(args).chd_to_iso == options(bare).chd_to_iso
            &&& options(args).rest == options(bare).rest
        }),
{
    let bare = flag_taken(flag_taken(flag_taken(args, "-h"@), "-r"@), "-v"@);
    lemma_nothing_is_taken(bare, "-h"@);
    lemma_nothing_is_taken(bare, "-r"@);
    lemma_nothing_is_taken(bare, "-v"@);
}

/// What is asked for is done, whatever the options are: a conversion that is asked for
/// alone, with its path; help; or else the serving of the directory behind the name of
/// the program, recursively and with all messages if so asked. Two conversions, or one
/// with recursive scanning, or no directory, are complained of.
pub proof fn law_what_is_asked_for_is_done(options: Options)
    ensures
        ({
            let command = options.command();
            let to_ziso = options.iso_to_ziso is Some;
            let from_ziso = options.ziso_to_iso is Some;
            let to_chd = options.iso_to_chd is Some;
            let from_chd = options.chd_to_iso is Some;
            let two = (to_ziso && from_ziso) || (to_ziso && to_chd) || (to_ziso && from_chd) || (
            from_ziso && to_chd) || (from_ziso && from_chd) || (to_chd && from_chd);
            let one = (to_ziso || from_ziso || to_chd || from_chd) && !two;
            &&& two ==> command == CommandView::Usage(Some(Complaint::ManyConversions))
            &&& one && options.recursive ==> command == CommandView::Usage(
                Some(Complaint::ConversionAndServing),
            )
            &&& one && !options.recursive && to_ziso ==> command == CommandView::IsoToZiso(
                options.iso_to_ziso->0,
            )
            &&& one && !options.recursive && from_ziso ==> command == CommandView::ZisoToIso(
                options.ziso_to_iso->0,
            )
            &&& one && !options.recursive && to_chd ==> command == CommandView::IsoToChd(
                options.iso_to_chd->0,
            )
            &&& one && !options.recursive && from_chd ==> command == CommandView::ChdToIso(
                options.chd_to_iso->0,
            )
            &&& !one && !two && options.help ==> command == CommandView::Usage(None)
            &&& !one && !two && !options.help && options.rest.len() < 2 ==> command
                == CommandView::Usage(Some(Complaint::NoDirectory))
            &&& !one && !two && !options.help && options.rest.len() >= 2 ==> command == (
            CommandView::Serve {
                directory: options.rest[1],
                recursive: options.recursive,
                verbose: options.verbose,
            })
        }),
{
}

/// The directory behind the name of the program is served, where no option is given, or
/// `-r` alone, which asks for recursive scanning, or `-v` alone, which asks for all
/// messages.
pub proof fn law_a_directory_is_served(front: Seq<Seq<char>>, letter: char, back: Seq<Seq<char>>)
    requires
        no_options(front),
        no_options(back),
        letter == 'r' || letter == 'v',
    ensures
        front.len() >= 2 ==> options(front).command() == (CommandView::Serve {
            directory: front[1],
            recursive: false,
            verbose: false,
        }),
        (front + back).len() >= 2 ==> options(
            front + seq![seq!['-', letter]] + back,
        ).command() == (CommandView::Serve {
            directory: (front + back)[1],
            recursive: letter == 'r',
            verbose: letter == 'v',
        }),
{
    lemma_the_options();
    let rest = front + back;
    let name = seq!['-', letter];
    let args = front + seq![name] + back;
    assert(no_options(rest)) by {
        assert forall|i: int| 0 <= i < rest.len() implies !is_option(#[trigger] rest[i]) by {
            if i < front.len() {
                assert(!is_option(front[i]));
            } else {
                assert(!is_option(back[i - front.len()]));
            }
        }
    }
    lemma_nothing_in(front);
    lemma_nothing_in(rest);
    assert(is_option(name)) by {
        let letters = seq!['h', 'r', 'v', 'i', 'd', 'c', 'x'];
        assert(letters[1] == 'r' && letters[2] == 'v');
    }
    assert forall|other: Seq<char>| is_option(other) && other != name implies !(
    #[trigger] args.contains(other)) by {
        if args.contains(other) {
            let k = choose|k: int| 0 <= k < args.len() && args[k] == other;
            if k < front.len() {
                assert(!is_option(front[k]));
            } else if k > front.len() {
                assert(!is_option(back[k - front.len() - 1]));
            }
        }
    }
    lemma_no_option_is_there(front, name);
    law_only_the_option_is_taken_out(front, name, back);
    assert("-h"@[1] != name[1]);
    lemma_nothing_is_taken(args, "-h"@);
    if letter == 'v' {
        assert("-r"@[1] != name[1]);
        lemma_nothing_is_taken(args, "-r"@);
    }
}

/// Each complaint is told as an error of its own.
pub proof fn law_complaints_are_told_apart(a: Complaint, b: Complaint)
    ensures
        "ERROR: "@.is_prefix_of(a.told()),
        a.told().last() == '\n',
        a.told() == b.told() ==> a == b,
{
    reveal_strlit("ERROR: ");
    reveal_strlit("ERROR: conversion modes are mutually exclusive\n");
    reveal_strlit("ERROR: conversion mode and -r (server mode) are mutually exclusive\n");
    reveal_strlit("ERROR: Invalid number of arguments!\n");
    assert(a.told().subrange(0, 7) =~= "ERROR: "@);
    assert(Complaint::ManyConversions.told()[7] == 'c');
    assert(Complaint::ConversionAndServing.told()[7] == 'c');
    assert(Complaint::NoDirectory.told()[7] == 'I');
    assert(Complaint::ManyConversions.told()[22] == 's');
    assert(Complaint::ConversionAndServing.told()[22] == ' ');
}

/// A command says what it is: each is told apart from all others, with its path or
/// directory as it was given.
pub proof fn law_a_command_says_what_it_is(command: Command)
    ensures
        match command {
            Command::Usage(complaint) => command@ == CommandView::Usage(complaint),
            Command::IsoToZiso(path) => command@ == CommandView::IsoToZiso(path@),
            Command::ZisoToIso(path) => command@ == CommandView::ZisoToIso(path@),
            Command::IsoToChd(path) => command@ == CommandView::IsoToChd(path@),
            Command::ChdToIso(path) => command@ == CommandView::ChdToIso(path@),
            Command::Serve { directory, recursive, verbose } => command@ == (CommandView::Serve {
                directory: directory@,
                recursive,
                verbose,
            }),
        },
{
}

/// The letters of the options, in the order in which these are taken.
pub open spec fn option_letter(at: int) -> char {
    if at == 0 {
        'h'
    } else if at == 1 {
        'r'
    } else if at == 2 {
        'v'
    } else if at == 3 {
        'i'
    } else if at == 4 {
        'd'
    } else if at == 5 {
        'c'
    } else {
        'x'
    }
}

/// The options with a value are taken one after another, `-i`, `-d`, `-c` and `-x`, each
/// with the argument behind it, whatever that is, and what is left is read as if they had
/// not been there. For this none of the options that are taken before may be among the
/// arguments.
pub proof fn law_each_value_is_what_stands_behind_its_option(
    front: Seq<Seq<char>>,
    at: int,
    value: Seq<char>,
    back: Seq<Seq<char>>,
)
    requires
        3 <= at < 7,
        forall|k: int|
            0 <= k <= at ==> !front.contains(seq!['-', #[trigger] option_letter(k)]),
        forall|k: int|
            0 <= k <= at ==> !back.contains(seq!['-', #[trigger] option_letter(k)]),
        forall|k: int|
            0 <= k < at ==> value != seq!['-', #[trigger] option_letter(k)],
    ensures
        ({
            let name = seq!['-', option_letter(at)];
            let given = options(front + seq![name, value] + back);
            let others = options(front + back);
            &&& given.rest == others.rest
            &&& given.help == others.help
            &&& given.recursive == others.recursive
            &&& given.verbose == others.verbose
            &&& given.iso_to_ziso == (if at == 3 {
                Some(value)
            } else {
                others.iso_to_ziso
            })
            &&& given.ziso_to_iso == (if at == 4 {
                Some(value)
            } else {
                others.ziso_to_iso
            })
            &&& given.iso_to_chd == (if at == 5 {
                Some(value)
            } else {
                others.iso_to_chd
            })
            &&& given.chd_to_iso == (if at == 6 {
                Some(value)
            } else {
                others.chd_to_iso
            })
        }),
{
    lemma_the_options();
    let name = seq!['-', option_letter(at)];
    let args = front + seq![name, value] + back;
    let rest = front + back;
    assert forall|k: int| 0 <= k < at implies !args.contains(
        seq!['-', #[trigger] option_letter(k)],
    ) by {
        let other = seq!['-', option_letter(k)];
        assert(other[1] != name[1]);
        if args.contains(other) {
            let j = choose|j: int| 0 <= j < args.len() && args[j] == other;
            if j < front.len() {
                assert(front.contains(front[j]));
            } else if j >= front.len() + 2 {
                assert(back.contains(back[j - front.len() - 2]));
            }
        }
    }
    assert forall|k: int| 0 <= k <= at implies !rest.contains(
        seq!['-', #[trigger] option_letter(k)],
    ) by {
        let other = seq!['-', option_letter(k)];
        if rest.contains(other) {
            let j = choose|j: int| 0 <= j < rest.len() && rest[j] == other;
            if j < front.len() {
                assert(front.contains(front[j]));
            } else {
                assert(back.contains(back[j - front.len()]));
            }
        }
    }
    assert(!front.contains(seq!['-', option_letter(at)]));
    law_only_the_option_and_its_value_are_taken_out(front, name, value, back);
    lemma_nothing_is_taken(args, seq!['-', option_letter(0)]);
    lemma_nothing_is_taken(args, seq!['-', option_letter(1)]);
    lemma_nothing_is_taken(args, seq!['-', option_letter(2)]);
    lemma_nothing_is_taken(rest, seq!['-', option_letter(0)]);
    lemma_nothing_is_taken(rest, seq!['-', option_letter(1)]);
    lemma_nothing_is_taken(rest, seq!['-', option_letter(2)]);
    lemma_nothing_is_taken(rest, seq!['-', option_letter(3)]);
    if at > 3 {
        lemma_nothing_is_taken(args, seq!['-', option_letter(3)]);
        lemma_nothing_is_taken(rest, seq!['-', option_letter(4)]);
    }
    if at > 4 {
        lemma_nothing_is_taken(args, seq!['-', option_letter(4)]);
        lemma_nothing_is_taken(rest, seq!['-', option_letter(5)]);
    }
    if at > 5 {
        lemma_nothing_is_taken(args, seq!['-', option_letter(5)]);
        lemma_nothing_is_taken(rest, seq!['-', option_letter(6)]);
    }
}

/// The usage tells the name of the program, all options, and then what each of them is
/// for: scanning, messages, help, and the four conversions.
pub proof fn law_the_usage_tells_what_each_option_is_for(bin_name: Seq<char>)
    ensures
        usage_told(bin_name) == "Usage: "@ + bin_name
            + " [-rvh] [-i <iso_file>] [-d <ziso_file>] [-c <iso_file>] [-x <chd_file>] [iso directory path]\n"@
            + "\nArgs:\n"@
            + "\t-r - Recursive ISO / ZISO / CHD scanning\n"@
            + "\t-v - Verbose output\n"@
            + "\t-h - Print help / usage\n"@
            + "\t-i <file.iso>   - Convert ISO to ZISO (case preserved)\n"@
            + "\t-d <file.ziso>  - Convert ZISO to ISO (case preserved)\n"@
            + "\t-c <file.iso>   - Convert ISO to CHD  (requires --features chd-create)\n"@
            + "\t-x <file.chd>   - Convert CHD to ISO  (requires --features chd)\n"@,
{
    reveal_strlit(" [-rvh] [-i <iso_file>] [-d <ziso_file>] [-c <iso_file>] [-x <chd_file>] [iso directory path]\n\nArgs:\n\t-r - Recursive ISO / ZISO / CHD scanning\n\t-v - Verbose output\n\t-h - Print help / usage\n\t-i <file.iso>   - Convert ISO to ZISO (case preserved)\n\t-d <file.ziso>  - Convert ZISO to ISO (case preserved)\n\t-c <file.iso>   - Convert ISO to CHD  (requires --features chd-create)\n\t-x <file.chd>   - Convert CHD to ISO  (requires --features chd)\n");
    reveal_strlit(" [-rvh] [-i <iso_file>] [-d <ziso_file>] [-c <iso_file>] [-x <chd_file>] [iso directory path]\n");
    reveal_strlit("\nArgs:\n");
    reveal_strlit("\t-r - Recursive ISO / ZISO / CHD scanning\n");
    reveal_strlit("\t-v - Verbose output\n");
    reveal_strlit("\t-h - Print help / usage\n");
    reveal_strlit("\t-i <file.iso>   - Convert ISO to ZISO (case preserved)\n");
    reveal_strlit("\t-d <file.ziso>  - Convert ZISO to ISO (case preserved)\n");
    reveal_strlit("\t-c <file.iso>   - Convert ISO to CHD  (requires --features chd-create)\n");
    reveal_strlit("\t-x <file.chd>   - Convert CHD to ISO  (requires --features chd)\n");
    assert(" [-rvh] [-i <iso_file>] [-d <ziso_file>] [-c <iso_file>] [-x <chd_file>] [iso directory path]\n\nArgs:\n\t-r - Recursive ISO / ZISO / CHD scanning\n\t-v - Verbose output\n\t-h - Print help / usage\n\t-i <file.iso>   - Convert ISO to ZISO (case preserved)\n\t-d <file.ziso>  - Convert ZISO to ISO (case preserved)\n\t-c <file.iso>   - Convert ISO to CHD  (requires --features chd-create)\n\t-x <file.chd>   - Convert CHD to ISO  (requires --features chd)\n"@ =~= " [-rvh] [-i <iso_file>] [-d <ziso_file>] [-c <iso_file>] [-x <chd_file>] [iso directory path]\n"@
        + "\nArgs:\n"@
        + "\t-r - Recursive ISO / ZISO / CHD scanning\n"@
        + "\t-v - Verbose output\n"@
        + "\t-h - Print help / usage\n"@
        + "\t-i <file.iso>   - Convert ISO to ZISO (case preserved)\n"@
        + "\t-d <file.ziso>  - Convert ZISO to ISO (case preserved)\n"@
        + "\t-c <file.iso>   - Convert ISO to CHD  (requires --features chd-create)\n"@
        + "\t-x <file.chd>   - Convert CHD to ISO  (requires --features chd)\n"@);
    assert(usage_told(bin_name) =~= "Usage: "@ + bin_name
        + " [-rvh] [-i <iso_file>] [-d <ziso_file>] [-c <iso_file>] [-x <chd_file>] [iso directory path]\n"@
        + "\nArgs:\n"@
        + "\t-r - Recursive ISO / ZISO / CHD scanning\n"@
        + "\t-v - Verbose output\n"@
        + "\t-h - Print help / usage\n"@
        + "\t-i <file.iso>   - Convert ISO to ZISO (case preserved)\n"@
        + "\t-d <file.ziso>  - Convert ZISO to ISO (case preserved)\n"@
        + "\t-c <file.iso>   - Convert ISO to CHD  (requires --features chd-create)\n"@
        + "\t-x <file.chd>   - Convert CHD to ISO  (requires --features chd)\n"@);
}

} // verus!
