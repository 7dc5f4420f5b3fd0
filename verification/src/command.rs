//! The command line: which command is meant, and what its arguments ask for.
//!
//! Everything that would write to a device is decided here from the words alone, before any
//! device is opened. An error is the text to show.

use vstd::prelude::*;
use vstd::string::StringExecFns;
use vstd::utf8::{is_ascii_chars, is_ascii_chars_encode_utf8};

use crate::number::{
    address_of, all_digits, decimal_i64, law_addresses_are_read_back,
    law_signed_numbers_are_read_back, or_text, parse_hex, parse_i64,
};
use crate::text::{dec, int_text, number_of, same_text, to_upper, upper, upper_char, views};

verus! {

/// What to do with the session when a command finishes.
#[derive(Debug, Clone, Copy, PartialEq, Eq, Structural)]
pub enum Finish {
    Leave,
    RebootNormal,
    RebootDownload,
    Shutdown,
}

/// The commands of the command line.
#[derive(Debug, Clone, Copy, PartialEq, Eq, Structural)]
pub enum Command {
    List,
    DumpPit,
    PrintPit,
    TarList,
    FlashPlan,
    Flash,
    FactoryReset,
    Erase,
    SetRegion,
    FlashPit,
    UploadProbe,
    UploadDump,
    UploadDmesg,
    UploadReboot,
    DmesgCarve,
    Reboot,
    End,
    Shell,
    Usage,
}

/// The command that a word names.
pub open spec fn command_named(word: Seq<char>) -> Command {
    if word == "list"@ {
        Command::List
    } else if word == "dump-pit"@ {
        Command::DumpPit
    } else if word == "print-pit"@ {
        Command::PrintPit
    } else if word == "tar-list"@ {
        Command::TarList
    } else if word == "flash-plan"@ {
        Command::FlashPlan
    } else if word == "flash"@ {
        Command::Flash
    } else if word == "factory-reset"@ {
        Command::FactoryReset
    } else if word == "erase"@ {
        Command::Erase
    } else if word == "set-region"@ {
        Command::SetRegion
    } else if word == "flash-pit"@ {
        Command::FlashPit
    } else if word == "upload-probe"@ {
        Command::UploadProbe
    } else if word == "upload-dump"@ {
        Command::UploadDump
    } else if word == "upload-dmesg"@ {
        Command::UploadDmesg
    } else if word == "upload-reboot"@ {
        Command::UploadReboot
    } else if word == "dmesg-carve"@ {
        Command::DmesgCarve
    } else if word == "reboot"@ {
        Command::Reboot
    } else if word == "end"@ {
        Command::End
    } else if word == "shell"@ {
        Command::Shell
    } else {
        Command::Usage
    }
}

fn command_word(word: &str) -> (c: Command)
    ensures
        c == command_named(word@),
{
    if same_text(word, "list") {
        Command::List
    } else if same_text(word, "dump-pit") {
        Command::DumpPit
    } else if same_text(word, "print-pit") {
        Command::PrintPit
    } else if same_text(word, "tar-list") {
        Command::TarList
    } else if same_text(word, "flash-plan") {
        Command::FlashPlan
    } else if same_text(word, "flash") {
        Command::Flash
    } else if same_text(word, "factory-reset") {
        Command::FactoryReset
    } else if same_text(word, "erase") {
        Command::Erase
    } else if same_text(word, "set-region") {
        Command::SetRegion
    } else if same_text(word, "flash-pit") {
        Command::FlashPit
    } else if same_text(word, "upload-probe") {
        Command::UploadProbe
    } else if same_text(word, "upload-dump") {
        Command::UploadDump
    } else if same_text(word, "upload-dmesg") {
        Command::UploadDmesg
    } else if same_text(word, "upload-reboot") {
        Command::UploadReboot
    } else if same_text(word, "dmesg-carve") {
        Command::DmesgCarve
    } else if same_text(word, "reboot") {
        Command::Reboot
    } else if same_text(word, "end") {
        Command::End
    } else if same_text(word, "shell") {
        Command::Shell
    } else {
        Command::Usage
    }
}

/// A command line: whether it asks for a wire trace, its command, and the words behind it.
pub struct CommandLine {
    pub debug: bool,
    pub command: Command,
    pub rest: Vec<String>,
}

/// The words of a command line without `--debug`.
pub open spec fn without_debug(args: Seq<Seq<char>>) -> Seq<Seq<char>>
    decreases args.len(),
{
    if args.len() == 0 {
        Seq::empty()
    } else if args.last() == "--debug"@ {
        without_debug(args.drop_last())
    } else {
        without_debug(args.drop_last()).push(args.last())
    }
}

/// Read a command line. The first word is the program's name; `--debug` may stand anywhere.
pub fn parse_command_line(args: &Vec<String>) -> (r: CommandLine)
    ensures
        r.debug == views(args@).contains("--debug"@),
        ({
            let words = without_debug(views(args@));
            &&& r.command == if words.len() >= 2 {
                command_named(words[1])
            } else {
                Command::Usage
            }
            &&& views(r.rest@) == if words.len() >= 2 {
                words.skip(2)
            } else {
                Seq::empty()
            }
        }),
{
    let ghost all = views(args@);
    let mut debug = false;
    let mut seen: usize = 0;
    let mut command = Command::Usage;
    let mut rest: Vec<String> = Vec::new();
    let mut i: usize = 0;
    proof {
        assert(without_debug(all.take(0)) == Seq::<Seq<char>>::empty());
        assert(views(rest@) == Seq::<Seq<char>>::empty());
    }
    while i < args.len()
        invariant
            i <= args@.len(),
            all == views(args@),
            debug == all.take(i as int).contains("--debug"@),
            seen == if without_debug(all.take(i as int)).len() < 2 {
                without_debug(all.take(i as int)).len()
            } else {
                2
            },
            seen < 2 ==> command == Command::Usage && views(rest@) == Seq::<Seq<char>>::empty(),
            seen == 2 ==> command == command_named(without_debug(all.take(i as int))[1]),
            seen == 2 ==> views(rest@) == without_debug(all.take(i as int)).skip(2),
        decreases args@.len() - i,
    {
        let ghost before = all.take(i as int);
        let ghost after = all.take(i + 1);
        let ghost words = without_debug(before);
        let ghost old_rest = views(rest@);
        proof {
            assert(after.drop_last() == before);
            assert(after.last() == args@[i as int]@);
            assert(after == before.push(args@[i as int]@));
        }
        let word: &str = args[i].as_str();
        if same_text(word, "--debug") {
            debug = true;
            assert(after[i as int] == "--debug"@);
        } else {
            proof {
                if after.contains("--debug"@) {
                    let k = after.index_of("--debug"@);
                    assert(before[k] == "--debug"@);
                }
                if before.contains("--debug"@) {
                    let k = before.index_of("--debug"@);
                    assert(after[k] == "--debug"@);
                }
            }
            if seen < 2 {
                if seen == 1 {
                    command = command_word(word);
                    assert(words.push(word@).skip(2) == Seq::<Seq<char>>::empty());
                }
                seen = seen + 1;
            } else {
                rest.push(args[i].clone());
                assert(views(rest@) == old_rest.push(word@));
                assert(words.push(word@).skip(2) == words.skip(2).push(word@));
            }
        }
        i = i + 1;
    }
    assert(all.take(i as int) == all);
    CommandLine { debug, command, rest }
}

/// An optional text, by content.
pub open spec fn text_view(o: Option<String>) -> Option<Seq<char>> {
    match o {
        Some(s) => Some(s@),
        None => None,
    }
}

/// An optional borrowed text, by content.
pub open spec fn str_view(o: Option<&str>) -> Option<Seq<char>> {
    match o {
        Some(s) => Some(s@),
        None => None,
    }
}

/// The word at a place in a list, if there is one.
pub open spec fn word_at(words: Seq<Seq<char>>, i: int) -> Option<Seq<char>> {
    if 0 <= i < words.len() {
        Some(words[i])
    } else {
        None
    }
}

/// A copy of the word at a place in a list, if there is one.
pub fn get_word(words: &Vec<String>, i: usize) -> (r: Option<String>)
    ensures
        text_view(r) == word_at(views(words@), i as int),
{
    if i < words.len() {
        Some(words[i].clone())
    } else {
        None
    }
}

/// The finish that a flag asks for; without a flag the device is left as it is.
pub open spec fn finish_for(flag: Option<Seq<char>>) -> Result<Finish, Seq<char>> {
    match flag {
        None => Ok(Finish::Leave),
        Some(f) => if f == "--reboot"@ {
            Ok(Finish::RebootNormal)
        } else if f == "--reboot-download"@ {
            Ok(Finish::RebootDownload)
        } else if f == "--shutdown"@ {
            Ok(Finish::Shutdown)
        } else {
            Err(
                "unknown option '"@ + f + "' (use --reboot | --reboot-download | --shutdown)"@,
            )
        },
    }
}

/// Read the flag that says how to finish.
pub fn parse_finish(flag: Option<&str>) -> (r: Result<Finish, String>)
    ensures
        or_text(r) == finish_for(str_view(flag)),
{
    match flag {
        None => Ok(Finish::Leave),
        Some(f) => if same_text(f, "--reboot") {
            Ok(Finish::RebootNormal)
        } else if same_text(f, "--reboot-download") {
            Ok(Finish::RebootDownload)
        } else if same_text(f, "--shutdown") {
            Ok(Finish::Shutdown)
        } else {
            let mut m = String::from_str("unknown option '");
            m.append(f);
            m.append("' (use --reboot | --reboot-download | --shutdown)");
            Err(m)
        },
    }
}

/// The finish that a reboot mode asks for; without a mode it is a normal reboot.
pub open spec fn reboot_for(mode: Option<Seq<char>>) -> Result<Finish, Seq<char>> {
    match mode {
        None => Ok(Finish::RebootNormal),
        Some(m) => if m == "normal"@ {
            Ok(Finish::RebootNormal)
        } else if m == "download"@ {
            Ok(Finish::RebootDownload)
        } else {
            Err("unknown reboot mode '"@ + m + "' (use normal | download)"@)
        },
    }
}

/// Read the mode of a reboot.
pub fn parse_reboot(mode: Option<&str>) -> (r: Result<Finish, String>)
    ensures
        or_text(r) == reboot_for(str_view(mode)),
{
    match mode {
        None => Ok(Finish::RebootNormal),
        Some(o) => if same_text(o, "normal") {
            Ok(Finish::RebootNormal)
        } else if same_text(o, "download") {
            Ok(Finish::RebootDownload)
        } else {
            let mut m = String::from_str("unknown reboot mode '");
            m.append(o);
            m.append("' (use normal | download)");
            Err(m)
        },
    }
}

/// Whether a word says how to finish.
pub open spec fn is_finish_flag(w: Seq<char>) -> bool {
    w == "--reboot"@ || w == "--reboot-download"@ || w == "--shutdown"@
}

/// Which options a command knows. A word that is not one of them is an ordinary argument.
#[derive(Debug, Clone, Copy, PartialEq, Eq, Structural)]
pub struct Syntax {
    /// `--pit <file>`
    pub pit: bool,
    /// `--size <bytes>`
    pub size: bool,
    /// `--execute`, `--yes`, `-y` and the flags that say how to finish
    pub execute: bool,
    /// `--tflash`
    pub tflash: bool,
}

/// What a command's words say.
pub struct Options {
    pub pit_file: Option<String>,
    pub size: Option<i64>,
    pub execute: bool,
    pub assume_yes: bool,
    pub tflash: bool,
    pub finish: Option<String>,
    pub positional: Vec<String>,
}

/// What a command's words say, by content.
#[verifier::ext_equal]
pub struct OptionsModel {
    pub pit_file: Option<Seq<char>>,
    pub size: Option<i64>,
    pub execute: bool,
    pub assume_yes: bool,
    pub tflash: bool,
    pub finish: Option<Seq<char>>,
    pub positional: Seq<Seq<char>>,
}

impl View for Options {
    type V = OptionsModel;

    open spec fn view(&self) -> OptionsModel {
        OptionsModel {
            pit_file: text_view(self.pit_file),
            size: self.size,
            execute: self.execute,
            assume_yes: self.assume_yes,
            tflash: self.tflash,
            finish: text_view(self.finish),
            positional: views(self.positional@),
        }
    }
}

/// The options of no words.
pub open spec fn no_options() -> OptionsModel {
    OptionsModel {
        pit_file: None,
        size: None,
        execute: false,
        assume_yes: false,
        tflash: false,
        finish: None,
        positional: Seq::empty(),
    }
}

/// What the words from `i` on add to `acc`. Of an option that is given twice, the last counts.
pub open spec fn options_from(
    args: Seq<Seq<char>>,
    syntax: Syntax,
    i: int,
    acc: OptionsModel,
) -> Result<OptionsModel, Seq<char>>
    decreases args.len() - i,
{
    if i < 0 || i >= args.len() {
        Ok(acc)
    } else if syntax.pit && args[i] == "--pit"@ {
        match word_at(args, i + 1) {
            None => Err("--pit needs a file path"@),
            Some(v) => options_from(
                args,
                syntax,
                i + 2,
                OptionsModel { pit_file: Some(v), ..acc },
            ),
        }
    } else if syntax.size && args[i] == "--size"@ {
        match word_at(args, i + 1) {
            None => Err("--size needs a byte count"@),
            Some(v) => match decimal_i64(v) {
                None => Err("invalid --size (want a byte count)"@),
                Some(n) => options_from(
                    args,
                    syntax,
                    i + 2,
                    OptionsModel { size: Some(n), ..acc },
                ),
            },
        }
    } else if syntax.tflash && args[i] == "--tflash"@ {
        options_from(args, syntax, i + 1, OptionsModel { tflash: true, ..acc })
    } else if syntax.execute && args[i] == "--execute"@ {
        options_from(args, syntax, i + 1, OptionsModel { execute: true, ..acc })
    } else if syntax.execute && (args[i] == "--yes"@ || args[i] == "-y"@) {
        options_from(args, syntax, i + 1, OptionsModel { assume_yes: true, ..acc })
    } else if syntax.execute && is_finish_flag(args[i]) {
        options_from(args, syntax, i + 1, OptionsModel { finish: Some(args[i]), ..acc })
    } else {
        options_from(
            args,
            syntax,
            i + 1,
            OptionsModel { positional: acc.positional.push(args[i]), ..acc },
        )
    }
}

/// What a command's words say.
pub open spec fn options_of(args: Seq<Seq<char>>, syntax: Syntax) -> Result<
    OptionsModel,
    Seq<char>,
> {
    options_from(args, syntax, 0, no_options())
}

/// A result of options, by content.
pub open spec fn options_view(r: Result<Options, String>) -> Result<OptionsModel, Seq<char>> {
    match r {
        Ok(o) => Ok(o@),
        Err(e) => Err(e@),
    }
}

/// Read a command's words.
pub fn parse_options(args: &Vec<String>, syntax: Syntax) -> (r: Result<Options, String>)
    ensures
        options_view(r) == options_of(views(args@), syntax),
{
    let ghost all = views(args@);
    let mut o = Options {
        pit_file: None,
        size: None,
        execute: false,
        assume_yes: false,
        tflash: false,
        finish: None,
        positional: Vec::new(),
    };
    assert(o@ == no_options());
    let mut i: usize = 0;
    while i < args.len()
        invariant
            i <= args@.len(),
            all == views(args@),
            options_from(all, syntax, i as int, o@) == options_of(all, syntax),
        decreases args@.len() - i,
    {
        let word: &str = args[i].as_str();
        let ghost before = o@;
        assert(word@ == all[i as int]);
        if syntax.pit && same_text(word, "--pit") {
            if i + 1 >= args.len() {
                return Err(String::from_str("--pit needs a file path"));
            }
            o.pit_file = Some(args[i + 1].clone());
            assert(o@ == OptionsModel { pit_file: Some(all[i + 1]), ..before });
            i = i + 2;
        } else if syntax.size && same_text(word, "--size") {
            if i + 1 >= args.len() {
                return Err(String::from_str("--size needs a byte count"));
            }
            match parse_i64(args[i + 1].as_str()) {
                None => return Err(String::from_str("invalid --size (want a byte count)")),
                Some(n) => {
                    o.size = Some(n);
                    assert(o@ == OptionsModel { size: Some(n), ..before });
                },
            }
            i = i + 2;
        } else if syntax.tflash && same_text(word, "--tflash") {
            o.tflash = true;
            assert(o@ == OptionsModel { tflash: true, ..before });
            i = i + 1;
        } else if syntax.execute && same_text(word, "--execute") {
            o.execute = true;
            assert(o@ == OptionsModel { execute: true, ..before });
            i = i + 1;
        } else if syntax.execute && (same_text(word, "--yes") || same_text(word, "-y")) {
            o.assume_yes = true;
            assert(o@ == OptionsModel { assume_yes: true, ..before });
            i = i + 1;
        } else if syntax.execute && (same_text(word, "--reboot") || same_text(
            word,
            "--reboot-download",
        ) || same_text(word, "--shutdown")) {
            o.finish = Some(args[i].clone());
            assert(o@ == OptionsModel { finish: Some(word@), ..before });
            i = i + 1;
        } else {
            o.positional.push(args[i].clone());
            assert(o@ == OptionsModel { positional: before.positional.push(word@), ..before });
            i = i + 1;
        }
    }
    Ok(o)
}

/// The first of a command's words, or the text to show where there is none.
pub open spec fn first_word_of(words: Seq<Seq<char>>, usage: Seq<char>) -> Result<
    Seq<char>,
    Seq<char>,
> {
    match word_at(words, 0) {
        Some(w) => Ok(w),
        None => Err(usage),
    }
}

/// A result of a text or an error text, by content.
pub open spec fn text_result(r: Result<String, String>) -> Result<Seq<char>, Seq<char>> {
    match r {
        Ok(s) => Ok(s@),
        Err(e) => Err(e@),
    }
}

/// The first of a command's words, or the usage text.
pub fn required_word(words: &Vec<String>, usage: &str) -> (r: Result<String, String>)
    ensures
        text_result(r) == first_word_of(views(words@), usage@),
{
    match get_word(words, 0) {
        Some(w) => Ok(w),
        None => Err(String::from_str(usage)),
    }
}

/// What `dump-pit` asks for.
pub struct DumpRequest {
    pub path: String,
    pub finish: Finish,
}

/// What the words of `dump-pit` ask for: an output path, and how to finish.
pub open spec fn dump_request_of(args: Seq<Seq<char>>) -> Result<(Seq<char>, Finish), Seq<char>> {
    match word_at(args, 0) {
        None => Err(
            "usage: thor dump-pit <output.pit> [--reboot | --reboot-download | --shutdown]"@,
        ),
        Some(path) => match finish_for(word_at(args, 1)) {
            Ok(f) => Ok((path, f)),
            Err(e) => Err(e),
        },
    }
}

/// Read the words of `dump-pit`.
pub fn dump_request(args: &Vec<String>) -> (r: Result<DumpRequest, String>)
    ensures
        match r {
            Ok(d) => dump_request_of(views(args@)) == Ok::<(Seq<char>, Finish), Seq<char>>(
                (d.path@, d.finish),
            ),
            Err(e) => dump_request_of(views(args@)) == Err::<(Seq<char>, Finish), Seq<char>>(e@),
        },
{
    let path = match get_word(args, 0) {
        Some(p) => p,
        None => return Err(
            String::from_str(
                "usage: thor dump-pit <output.pit> [--reboot | --reboot-download | --shutdown]",
            ),
        ),
    };
    let flag: Option<&str> = if args.len() > 1 {
        Some(args[1].as_str())
    } else {
        None
    };
    match parse_finish(flag) {
        Ok(finish) => Ok(DumpRequest { path, finish }),
        Err(e) => Err(e),
    }
}

/// What a dry run asks for.
pub struct PlanRequest {
    pub file: String,
    pub partition: Option<String>,
    pub pit_file: Option<String>,
}

/// What a dry run asks for, by content.
#[verifier::ext_equal]
pub struct PlanModel {
    pub file: Seq<char>,
    pub partition: Option<Seq<char>>,
    pub pit_file: Option<Seq<char>>,
}

impl View for PlanRequest {
    type V = PlanModel;

    open spec fn view(&self) -> PlanModel {
        PlanModel {
            file: self.file@,
            partition: text_view(self.partition),
            pit_file: text_view(self.pit_file),
        }
    }
}

/// The options of `flash-plan`.
pub open spec fn plan_syntax() -> Syntax {
    Syntax { pit: true, size: false, execute: false, tflash: false }
}

/// The options of `flash`.
pub open spec fn flash_syntax() -> Syntax {
    Syntax { pit: true, size: false, execute: true, tflash: true }
}

/// The options of `erase`.
pub open spec fn erase_syntax() -> Syntax {
    Syntax { pit: false, size: true, execute: true, tflash: false }
}

/// The options of the shell's `erase`, which confirms but needs no `--execute`.
pub open spec fn shell_erase_syntax() -> Syntax {
    Syntax { pit: false, size: true, execute: false, tflash: false }
}

/// The options of `factory-reset`, `set-region` and `flash-pit`.
pub open spec fn action_syntax() -> Syntax {
    Syntax { pit: false, size: false, execute: true, tflash: false }
}

/// What the words of `flash-plan` ask for.
pub open spec fn plan_request_of(args: Seq<Seq<char>>) -> Result<PlanModel, Seq<char>> {
    match options_of(args, plan_syntax()) {
        Err(e) => Err(e),
        Ok(o) => match word_at(o.positional, 0) {
            None => Err("usage: thor flash-plan [--pit <pit>] <file> [partition]"@),
            Some(file) => Ok(
                PlanModel { file, partition: word_at(o.positional, 1), pit_file: o.pit_file },
            ),
        },
    }
}

/// Read the words of `flash-plan`.
pub fn plan_request(args: &Vec<String>) -> (r: Result<PlanRequest, String>)
    ensures
        match r {
            Ok(p) => plan_request_of(views(args@)) == Ok::<PlanModel, Seq<char>>(p@),
            Err(e) => plan_request_of(views(args@)) == Err::<PlanModel, Seq<char>>(e@),
        },
{
    let o = match parse_options(
        args,
        Syntax { pit: true, size: false, execute: false, tflash: false },
    ) {
        Ok(o) => o,
        Err(e) => return Err(e),
    };
    match get_word(&o.positional, 0) {
        None => Err(String::from_str("usage: thor flash-plan [--pit <pit>] <file> [partition]")),
        Some(file) => Ok(
            PlanRequest { file, partition: get_word(&o.positional, 1), pit_file: o.pit_file },
        ),
    }
}

/// What `flash` asks for.
pub enum FlashRequest {
    /// Show the plan, and say so if a finish was asked for that a dry run ignores.
    DryRun { plan: PlanRequest, finish_ignored: bool },
    /// Write to the device.
    Live {
        file: String,
        partition: Option<String>,
        finish: Finish,
        assume_yes: bool,
        tflash: bool,
    },
}

/// What `flash` asks for, by content.
pub enum FlashModel {
    DryRun { plan: PlanModel, finish_ignored: bool },
    Live {
        file: Seq<char>,
        partition: Option<Seq<char>>,
        finish: Finish,
        assume_yes: bool,
        tflash: bool,
    },
}

impl View for FlashRequest {
    type V = FlashModel;

    open spec fn view(&self) -> FlashModel {
        match self {
            FlashRequest::DryRun { plan, finish_ignored } => FlashModel::DryRun {
                plan: plan@,
                finish_ignored: *finish_ignored,
            },
            FlashRequest::Live { file, partition, finish, assume_yes, tflash } => FlashModel::Live {
                file: file@,
                partition: text_view(*partition),
                finish: *finish,
                assume_yes: *assume_yes,
                tflash: *tflash,
            },
        }
    }
}

/// What the words of `flash` ask for: a dry run unless `--execute` is among them.
pub open spec fn flash_request_of(args: Seq<Seq<char>>) -> Result<FlashModel, Seq<char>> {
    match options_of(args, flash_syntax()) {
        Err(e) => Err(e),
        Ok(o) => match word_at(o.positional, 0) {
            None => Err(
                "usage: thor flash [--pit <pit>] [--execute] [--yes] [--reboot|--reboot-download|--shutdown] <file> [partition]"@,
            ),
            Some(file) => if !o.execute {
                Ok(
                    FlashModel::DryRun {
                        plan: PlanModel {
                            file,
                            partition: word_at(o.positional, 1),
                            pit_file: o.pit_file,
                        },
                        finish_ignored: o.finish is Some,
                    },
                )
            } else if o.pit_file is Some {
                Err(
                    "--pit can't be combined with --execute: a live flash uses the device's own PIT"@,
                )
            } else {
                match finish_for(o.finish) {
                    Err(e) => Err(e),
                    Ok(finish) => Ok(
                        FlashModel::Live {
                            file,
                            partition: word_at(o.positional, 1),
                            finish,
                            assume_yes: o.assume_yes,
                            tflash: o.tflash,
                        },
                    ),
                }
            },
        },
    }
}

/// Read the finish of parsed options.
fn options_finish(o: &Options) -> (r: Result<Finish, String>)
    ensures
        or_text(r) == finish_for(o@.finish),
{
    match &o.finish {
        None => parse_finish(None),
        Some(f) => parse_finish(Some(f.as_str())),
    }
}

/// Read the words of `flash`.
pub fn flash_request(args: &Vec<String>) -> (r: Result<FlashRequest, String>)
    ensures
        match r {
            Ok(f) => flash_request_of(views(args@)) == Ok::<FlashModel, Seq<char>>(f@),
            Err(e) => flash_request_of(views(args@)) == Err::<FlashModel, Seq<char>>(e@),
        },
{
    let o = match parse_options(
        args,
        Syntax { pit: true, size: false, execute: true, tflash: true },
    ) {
        Ok(o) => o,
        Err(e) => return Err(e),
    };
    let file = match get_word(&o.positional, 0) {
        None => return Err(
            String::from_str(
                "usage: thor flash [--pit <pit>] [--execute] [--yes] [--reboot|--reboot-download|--shutdown] <file> [partition]",
            ),
        ),
        Some(f) => f,
    };
    let partition = get_word(&o.positional, 1);
    if !o.execute {
        let finish_ignored = o.finish.is_some();
        return Ok(
            FlashRequest::DryRun {
                plan: PlanRequest { file, partition, pit_file: o.pit_file },
                finish_ignored,
            },
        );
    }
    if o.pit_file.is_some() {
        return Err(
            String::from_str(
                "--pit can't be combined with --execute: a live flash uses the device's own PIT",
            ),
        );
    }
    match options_finish(&o) {
        Err(e) => Err(e),
        Ok(finish) => Ok(
            FlashRequest::Live {
                file,
                partition,
                finish,
                assume_yes: o.assume_yes,
                tflash: o.tflash,
            },
        ),
    }
}

/// What a command that would change the device asks for, besides its subject.
#[derive(Debug, Clone, Copy, PartialEq, Eq, Structural)]
pub struct Consent {
    pub assume_yes: bool,
    pub finish: Finish,
}

/// The consent in parsed options.
pub open spec fn consent_of(o: OptionsModel) -> Result<Consent, Seq<char>> {
    match finish_for(o.finish) {
        Ok(finish) => Ok(Consent { assume_yes: o.assume_yes, finish }),
        Err(e) => Err(e),
    }
}

fn options_consent(o: &Options) -> (r: Result<Consent, String>)
    ensures
        or_text(r) == consent_of(o@),
{
    match options_finish(o) {
        Ok(finish) => Ok(Consent { assume_yes: o.assume_yes, finish }),
        Err(e) => Err(e),
    }
}

/// What `erase` asks for.
pub struct EraseRequest {
    pub partition: String,
    pub size: i64,
    pub consent: Consent,
}

/// The partition and the size of an erase, or the text to show.
pub open spec fn erase_subject(o: OptionsModel, usage: Seq<char>) -> Result<
    (Seq<char>, i64),
    Seq<char>,
> {
    match word_at(o.positional, 0) {
        None => Err(usage),
        Some(partition) => match o.size {
            None => Err("erase needs --size <bytes> (the number of zero bytes to write)"@),
            Some(size) => if size <= 0 {
                Err("--size must be positive"@)
            } else {
                Ok((partition, size))
            },
        },
    }
}

/// An erase subject, by content.
pub open spec fn subject_view(r: Result<(String, i64), String>) -> Result<
    (Seq<char>, i64),
    Seq<char>,
> {
    match r {
        Ok((p, n)) => Ok((p@, n)),
        Err(e) => Err(e@),
    }
}

fn options_erase_subject(o: &Options, usage: &str) -> (r: Result<(String, i64), String>)
    ensures
        subject_view(r) == erase_subject(o@, usage@),
{
    let partition = match get_word(&o.positional, 0) {
        None => return Err(String::from_str(usage)),
        Some(p) => p,
    };
    match o.size {
        None => Err(
            String::from_str("erase needs --size <bytes> (the number of zero bytes to write)"),
        ),
        Some(size) => if size <= 0 {
            Err(String::from_str("--size must be positive"))
        } else {
            Ok((partition, size))
        },
    }
}

/// What the words of `erase` ask for.
pub open spec fn erase_request_of(args: Seq<Seq<char>>) -> Result<
    (Seq<char>, i64, Consent),
    Seq<char>,
> {
    match options_of(args, erase_syntax()) {
        Err(e) => Err(e),
        Ok(o) => match erase_subject(
            o,
            "usage: thor erase <partition> --size <bytes> --execute [--yes]"@,
        ) {
            Err(e) => Err(e),
            Ok((partition, size)) => if !o.execute {
                Err(
                    "erase would zero-fill "@ + partition + " with "@ + dec(size as int)
                        + " bytes — re-run with --execute to do it"@,
                )
            } else {
                match consent_of(o) {
                    Err(e) => Err(e),
                    Ok(consent) => Ok((partition, size, consent)),
                }
            },
        },
    }
}

/// Read the words of `erase`.
pub fn erase_request(args: &Vec<String>) -> (r: Result<EraseRequest, String>)
    ensures
        match r {
            Ok(q) => erase_request_of(views(args@)) == Ok::<
                (Seq<char>, i64, Consent),
                Seq<char>,
            >((q.partition@, q.size, q.consent)),
            Err(e) => erase_request_of(views(args@)) == Err::<
                (Seq<char>, i64, Consent),
                Seq<char>,
            >(e@),
        },
{
    let o = match parse_options(
        args,
        Syntax { pit: false, size: true, execute: true, tflash: false },
    ) {
        Ok(o) => o,
        Err(e) => return Err(e),
    };
    let (partition, size): (String, i64) = match options_erase_subject(
        &o,
        "usage: thor erase <partition> --size <bytes> --execute [--yes]",
    ) {
        Ok(s) => s,
        Err(e) => return Err(e),
    };
    if !o.execute {
        let mut m = String::from_str("erase would zero-fill ");
        m.append(partition.as_str());
        m.append(" with ");
        m.append(int_text(size).as_str());
        m.append(" bytes — re-run with --execute to do it");
        return Err(m);
    }
    match options_consent(&o) {
        Err(e) => Err(e),
        Ok(consent) => Ok(EraseRequest { partition, size, consent }),
    }
}

/// What the words of the shell's `erase` ask for.
pub open spec fn shell_erase_of(args: Seq<Seq<char>>) -> Result<(Seq<char>, i64), Seq<char>> {
    match options_of(args, shell_erase_syntax()) {
        Err(e) => Err(e),
        Ok(o) => erase_subject(o, "usage: erase <partition> --size <bytes>"@),
    }
}

/// Read the words of the shell's `erase`.
pub fn shell_erase_request(args: &Vec<String>) -> (r: Result<(String, i64), String>)
    ensures
        subject_view(r) == shell_erase_of(views(args@)),
{
    match parse_options(args, Syntax { pit: false, size: true, execute: false, tflash: false }) {
        Ok(o) => options_erase_subject(&o, "usage: erase <partition> --size <bytes>"),
        Err(e) => Err(e),
    }
}

/// What the words of `factory-reset` ask for.
pub open spec fn reset_request_of(args: Seq<Seq<char>>) -> Result<Consent, Seq<char>> {
    match options_of(args, action_syntax()) {
        Err(e) => Err(e),
        Ok(o) => if !o.execute {
            Err("factory-reset wipes /data — re-run with --execute (and confirm) to do it"@)
        } else {
            consent_of(o)
        },
    }
}

/// Read the words of `factory-reset`.
pub fn reset_request(args: &Vec<String>) -> (r: Result<Consent, String>)
    ensures
        or_text(r) == reset_request_of(views(args@)),
{
    let o = match parse_options(
        args,
        Syntax { pit: false, size: false, execute: true, tflash: false },
    ) {
        Ok(o) => o,
        Err(e) => return Err(e),
    };
    if !o.execute {
        return Err(
            String::from_str(
                "factory-reset wipes /data — re-run with --execute (and confirm) to do it",
            ),
        );
    }
    options_consent(&o)
}

/// A region code as it is sent, in upper case, or the text to show: it has exactly three bytes.
pub open spec fn region_code_of(code: Seq<char>) -> Result<Seq<char>, Seq<char>> {
    if vstd::utf8::encode_utf8(code).len() != 3 {
        Err("a region code is exactly 3 characters (e.g. XAA)"@)
    } else {
        Ok(upper(code))
    }
}

fn region_code(code: &str) -> (r: Result<String, String>)
    ensures
        text_result(r) == region_code_of(code@),
{
    if code.as_bytes().len() != 3 {
        Err(String::from_str("a region code is exactly 3 characters (e.g. XAA)"))
    } else {
        Ok(to_upper(code))
    }
}

/// What a command with a textual subject asks for.
pub struct SubjectRequest {
    pub subject: String,
    pub consent: Consent,
}

/// A subject and a consent, by content.
pub open spec fn subject_request_view(r: Result<SubjectRequest, String>) -> Result<
    (Seq<char>, Consent),
    Seq<char>,
> {
    match r {
        Ok(q) => Ok((q.subject@, q.consent)),
        Err(e) => Err(e@),
    }
}

/// What the words of `set-region` ask for.
pub open spec fn region_request_of(args: Seq<Seq<char>>) -> Result<
    (Seq<char>, Consent),
    Seq<char>,
> {
    match options_of(args, action_syntax()) {
        Err(e) => Err(e),
        Ok(o) => match word_at(o.positional, 0) {
            None => Err("usage: thor set-region <XAA> --execute [--yes]"@),
            Some(word) => match region_code_of(word) {
                Err(e) => Err(e),
                Ok(code) => if !o.execute {
                    Err(
                        "would set region to "@ + code
                            + " — re-run with --execute to do it"@,
                    )
                } else {
                    match consent_of(o) {
                        Err(e) => Err(e),
                        Ok(consent) => Ok((code, consent)),
                    }
                },
            },
        },
    }
}

/// Read the words of `set-region`.
pub fn region_request(args: &Vec<String>) -> (r: Result<SubjectRequest, String>)
    ensures
        subject_request_view(r) == region_request_of(views(args@)),
{
    let o = match parse_options(
        args,
        Syntax { pit: false, size: false, execute: true, tflash: false },
    ) {
        Ok(o) => o,
        Err(e) => return Err(e),
    };
    let word = match get_word(&o.positional, 0) {
        None => return Err(String::from_str("usage: thor set-region <XAA> --execute [--yes]")),
        Some(w) => w,
    };
    let code = match region_code(word.as_str()) {
        Ok(c) => c,
        Err(e) => return Err(e),
    };
    if !o.execute {
        let mut m = String::from_str("would set region to ");
        m.append(code.as_str());
        m.append(" — re-run with --execute to do it");
        return Err(m);
    }
    match options_consent(&o) {
        Err(e) => Err(e),
        Ok(consent) => Ok(SubjectRequest { subject: code, consent }),
    }
}

/// What the words of the shell's `set-region` ask for.
pub open spec fn shell_region_of(args: Seq<Seq<char>>) -> Result<Seq<char>, Seq<char>> {
    match word_at(args, 0) {
        None => Err("usage: set-region <XAA>"@),
        Some(word) => region_code_of(word),
    }
}

/// Read the words of the shell's `set-region`.
pub fn shell_region_request(args: &Vec<String>) -> (r: Result<String, String>)
    ensures
        text_result(r) == shell_region_of(views(args@)),
{
    match get_word(args, 0) {
        None => Err(String::from_str("usage: set-region <XAA>")),
        Some(word) => region_code(word.as_str()),
    }
}

/// What the words of `flash-pit` ask for.
pub open spec fn pit_request_of(args: Seq<Seq<char>>) -> Result<(Seq<char>, Consent), Seq<char>> {
    match options_of(args, action_syntax()) {
        Err(e) => Err(e),
        Ok(o) => match word_at(o.positional, 0) {
            None => Err("usage: thor flash-pit <file.pit> --execute [--yes]"@),
            Some(file) => if !o.execute {
                Err("flash-pit repartitions the device — re-run with --execute to do it"@)
            } else {
                match consent_of(o) {
                    Err(e) => Err(e),
                    Ok(consent) => Ok((file, consent)),
                }
            },
        },
    }
}

/// Read the words of `flash-pit`.
pub fn pit_request(args: &Vec<String>) -> (r: Result<SubjectRequest, String>)
    ensures
        subject_request_view(r) == pit_request_of(views(args@)),
{
    let o = match parse_options(
        args,
        Syntax { pit: false, size: false, execute: true, tflash: false },
    ) {
        Ok(o) => o,
        Err(e) => return Err(e),
    };
    let file = match get_word(&o.positional, 0) {
        None => return Err(String::from_str("usage: thor flash-pit <file.pit> --execute [--yes]")),
        Some(f) => f,
    };
    if !o.execute {
        return Err(
            String::from_str("flash-pit repartitions the device — re-run with --execute to do it"),
        );
    }
    match options_consent(&o) {
        Err(e) => Err(e),
        Ok(consent) => Ok(SubjectRequest { subject: file, consent }),
    }
}

/// The address that the word at `i` stands for, or the text to show.
pub open spec fn address_at(args: Seq<Seq<char>>, i: int, usage: Seq<char>) -> Result<
    u64,
    Seq<char>,
> {
    match word_at(args, i) {
        None => Err(usage),
        Some(w) => address_of(w),
    }
}

fn parse_address_at(args: &Vec<String>, i: usize, usage: &str) -> (r: Result<u64, String>)
    ensures
        or_text(r) == address_at(views(args@), i as int, usage@),
{
    if i < args.len() {
        parse_hex(args[i].as_str())
    } else {
        Err(String::from_str(usage))
    }
}

/// The range that the words of `upload-dmesg` ask for: two hex addresses, the second behind the
/// first.
pub open spec fn dmesg_request_of(args: Seq<Seq<char>>) -> Result<(u64, u64), Seq<char>> {
    let usage = "usage: thor upload-dmesg <start> <end>  (addresses in hex)"@;
    match address_at(args, 0, usage) {
        Err(e) => Err(e),
        Ok(start) => match address_at(args, 1, usage) {
            Err(e) => Err(e),
            Ok(end) => if end <= start {
                Err("end address must be greater than start"@)
            } else {
                Ok((start, end))
            },
        },
    }
}

/// Read the words of `upload-dmesg`.
pub fn dmesg_request(args: &Vec<String>) -> (r: Result<(u64, u64), String>)
    ensures
        or_text(r) == dmesg_request_of(views(args@)),
        r matches Ok(range) ==> range.0 < range.1,
{
    let usage: &str = "usage: thor upload-dmesg <start> <end>  (addresses in hex)";
    let start: u64 = match parse_address_at(args, 0, usage) {
        Ok(a) => a,
        Err(e) => return Err(e),
    };
    let end: u64 = match parse_address_at(args, 1, usage) {
        Ok(a) => a,
        Err(e) => return Err(e),
    };
    if end <= start {
        return Err(String::from_str("end address must be greater than start"));
    }
    Ok((start, end))
}

/// What `upload-dump` asks for.
pub struct UploadDumpRequest {
    pub start: u64,
    pub end: u64,
    pub out: String,
}

/// What the words of `upload-dump` ask for: two hex addresses, the second behind the first, and
/// an output path.
pub open spec fn upload_request_of(args: Seq<Seq<char>>) -> Result<
    (u64, u64, Seq<char>),
    Seq<char>,
> {
    let usage = "usage: thor upload-dump <start> <end> <outfile>  (addresses in hex)"@;
    match address_at(args, 0, usage) {
        Err(e) => Err(e),
        Ok(start) => match address_at(args, 1, usage) {
            Err(e) => Err(e),
            Ok(end) => match word_at(args, 2) {
                None => Err(usage),
                Some(out) => if end <= start {
                    Err("end address must be greater than start"@)
                } else {
                    Ok((start, end, out))
                },
            },
        },
    }
}

/// Read the words of `upload-dump`.
pub fn upload_request(args: &Vec<String>) -> (r: Result<UploadDumpRequest, String>)
    ensures
        match r {
            Ok(q) => upload_request_of(views(args@)) == Ok::<(u64, u64, Seq<char>), Seq<char>>(
                (q.start, q.end, q.out@),
            ),
            Err(e) => upload_request_of(views(args@)) == Err::<
                (u64, u64, Seq<char>),
                Seq<char>,
            >(e@),
        },
        r matches Ok(q) ==> q.start < q.end,
{
    let usage: &str = "usage: thor upload-dump <start> <end> <outfile>  (addresses in hex)";
    let start: u64 = match parse_address_at(args, 0, usage) {
        Ok(a) => a,
        Err(e) => return Err(e),
    };
    let end: u64 = match parse_address_at(args, 1, usage) {
        Ok(a) => a,
        Err(e) => return Err(e),
    };
    let out = match get_word(args, 2) {
        Some(o) => o,
        None => return Err(String::from_str(usage)),
    };
    if end <= start {
        return Err(String::from_str("end address must be greater than start"));
    }
    Ok(UploadDumpRequest { start, end, out })
}

/// Options say `--execute` only if the words do.
proof fn lemma_execute_was_said(args: Seq<Seq<char>>, syntax: Syntax, i: int, acc: OptionsModel)
    requires
        options_from(args, syntax, i, acc) matches Ok(o) && o.execute && !acc.execute,
    ensures
        args.contains("--execute"@),
    decreases args.len() - i,
{
    if 0 <= i < args.len() && !(syntax.execute && args[i] == "--execute"@ && !(syntax.pit && args[i]
        == "--pit"@) && !(syntax.size && args[i] == "--size"@) && !(syntax.tflash && args[i]
        == "--tflash"@)) {
        if syntax.pit && args[i] == "--pit"@ {
            lemma_execute_was_said(
                args,
                syntax,
                i + 2,
                OptionsModel { pit_file: Some(args[i + 1]), ..acc },
            );
        } else if syntax.size && args[i] == "--size"@ {
            lemma_execute_was_said(
                args,
                syntax,
                i + 2,
                OptionsModel { size: decimal_i64(args[i + 1]), ..acc },
            );
        } else if syntax.tflash && args[i] == "--tflash"@ {
            lemma_execute_was_said(args, syntax, i + 1, OptionsModel { tflash: true, ..acc });
        } else if syntax.execute && (args[i] == "--yes"@ || args[i] == "-y"@) {
            lemma_execute_was_said(args, syntax, i + 1, OptionsModel { assume_yes: true, ..acc });
        } else if syntax.execute && is_finish_flag(args[i]) {
            lemma_execute_was_said(
                args,
                syntax,
                i + 1,
                OptionsModel { finish: Some(args[i]), ..acc },
            );
        } else {
            lemma_execute_was_said(
                args,
                syntax,
                i + 1,
                OptionsModel { positional: acc.positional.push(args[i]), ..acc },
            );
        }
    }
}

/// No command line asks for a change to the device without the word `--execute`: a flash is a
/// dry run without it, and the other destructive commands are refused.
pub proof fn law_nothing_destructive_by_default(args: Seq<Seq<char>>)
    requires
        !args.contains("--execute"@),
    ensures
        flash_request_of(args) matches Ok(f) ==> f is DryRun,
        erase_request_of(args) is Err,
        reset_request_of(args) is Err,
        region_request_of(args) is Err,
        pit_request_of(args) is Err,
{
    if options_of(args, flash_syntax()) matches Ok(o) && o.execute {
        lemma_execute_was_said(args, flash_syntax(), 0, no_options());
    }
    if options_of(args, erase_syntax()) matches Ok(o) && o.execute {
        lemma_execute_was_said(args, erase_syntax(), 0, no_options());
    }
    if options_of(args, action_syntax()) matches Ok(o) && o.execute {
        lemma_execute_was_said(args, action_syntax(), 0, no_options());
    }
}

/// Whether a word is an option of `flash` that `flash-plan` does not know.
pub open spec fn is_flash_only(w: Seq<char>) -> bool {
    w == "--tflash"@ || w == "--execute"@ || w == "--yes"@ || w == "-y"@ || is_finish_flag(w)
}

proof fn lemma_same_options(args: Seq<Seq<char>>, i: int, acc: OptionsModel)
    requires
        0 <= i,
        forall|k: int| 0 <= k < args.len() ==> !is_flash_only(#[trigger] args[k]),
    ensures
        options_from(args, flash_syntax(), i, acc) == options_from(args, plan_syntax(), i, acc),
    decreases args.len() - i,
{
    if i < args.len() {
        assert(!is_flash_only(args[i]));
        if args[i] == "--pit"@ {
            if i + 1 < args.len() {
                lemma_same_options(
                    args,
                    i + 2,
                    OptionsModel { pit_file: Some(args[i + 1]), ..acc },
                );
            }
        } else {
            lemma_same_options(
                args,
                i + 1,
                OptionsModel { positional: acc.positional.push(args[i]), ..acc },
            );
        }
    }
}

proof fn lemma_plan_never_executes(args: Seq<Seq<char>>, i: int, acc: OptionsModel)
    requires
        !acc.execute,
        acc.finish is None,
    ensures
        options_from(args, plan_syntax(), i, acc) matches Ok(o) ==> !o.execute && o.finish is None,
    decreases args.len() - i,
{
    if 0 <= i < args.len() {
        if args[i] == "--pit"@ {
            if i + 1 < args.len() {
                lemma_plan_never_executes(
                    args,
                    i + 2,
                    OptionsModel { pit_file: Some(args[i + 1]), ..acc },
                );
            }
        } else {
            lemma_plan_never_executes(
                args,
                i + 1,
                OptionsModel { positional: acc.positional.push(args[i]), ..acc },
            );
        }
    }
}

/// Words that both commands know mean the same to `flash` as to `flash-plan`: without its own
/// options, `flash` is the same dry run.
pub proof fn law_flash_is_flash_plan_by_default(args: Seq<Seq<char>>)
    requires
        forall|k: int| 0 <= k < args.len() ==> !is_flash_only(#[trigger] args[k]),
    ensures
        plan_request_of(args) is Ok <==> flash_request_of(args) is Ok,
        plan_request_of(args) matches Ok(plan) ==> flash_request_of(args) == Ok::<
            FlashModel,
            Seq<char>,
        >(FlashModel::DryRun { plan, finish_ignored: false }),
{
    lemma_same_options(args, 0, no_options());
    lemma_plan_never_executes(args, 0, no_options());
}

/// Whether a word begins with a dash.
pub open spec fn is_dashed(w: Seq<char>) -> bool {
    w.len() > 0 && w[0] == '-'
}

/// The last word that says how to finish.
pub open spec fn last_finish(args: Seq<Seq<char>>) -> Option<Seq<char>>
    decreases args.len(),
{
    if args.len() == 0 {
        None
    } else if args.last() == "--reboot"@ || args.last() == "--reboot-download"@ || args.last()
        == "--shutdown"@ {
        Some(args.last())
    } else {
        last_finish(args.drop_last())
    }
}

/// Whether all words are options without a value or do not begin with a dash.
pub open spec fn only_flags(args: Seq<Seq<char>>) -> bool {
    forall|i: int|
        #![trigger args[i]]
        0 <= i < args.len() ==> !is_dashed(args[i]) || args[i] == "--execute"@ || args[i]
            == "--yes"@ || args[i] == "-y"@ || args[i] == "--tflash"@ || args[i] == "--reboot"@
            || args[i] == "--reboot-download"@ || args[i] == "--shutdown"@
}

/// Wherever they stand, each of the flags of `flash` is taken for what it says, of several that say
/// how to finish the last, and what does not begin with a dash is left, in order.
pub proof fn law_flags_count_wherever_they_stand(args: Seq<Seq<char>>)
    requires
        only_flags(args),
    ensures
        options_of(args, flash_syntax()) == Ok::<OptionsModel, Seq<char>>(
            OptionsModel {
                pit_file: None,
                size: None,
                execute: args.contains("--execute"@),
                assume_yes: args.contains("--yes"@) || args.contains("-y"@),
                tflash: args.contains("--tflash"@),
                finish: last_finish(args),
                positional: args.filter(|w: Seq<char>| !is_dashed(w)),
            },
        ),
{
    lemma_flags(args, 0, no_options());
    assert(args.take(0) == Seq::<Seq<char>>::empty());
    assert(args.skip(0) == args);
}

#[verifier::spinoff_prover]
proof fn lemma_dashes()
    ensures
        is_dashed("--pit"@),
        is_dashed("--size"@),
        is_dashed("--execute"@),
        is_dashed("--yes"@),
        is_dashed("-y"@),
        is_dashed("--tflash"@),
        is_dashed("--reboot"@),
        is_dashed("--reboot-download"@),
        is_dashed("--shutdown"@),
{
    reveal_strlit("--pit");
    reveal_strlit("--size");
    reveal_strlit("--execute");
    reveal_strlit("--yes");
    reveal_strlit("-y");
    reveal_strlit("--tflash");
    reveal_strlit("--reboot");
    reveal_strlit("--reboot-download");
    reveal_strlit("--shutdown");
}

#[verifier::spinoff_prover]
proof fn lemma_flags_differ()
    ensures
        "--pit"@ != "--execute"@ && "--pit"@ != "--yes"@ && "--pit"@ != "-y"@ && "--pit"@
            != "--tflash"@ && !is_finish_flag("--pit"@),
        "--tflash"@ != "--execute"@ && "--tflash"@ != "--yes"@ && "--tflash"@ != "-y"@
            && !is_finish_flag("--tflash"@),
        "--execute"@ != "--yes"@ && "--execute"@ != "-y"@ && !is_finish_flag("--execute"@),
        "--yes"@ != "-y"@ && !is_finish_flag("--yes"@) && !is_finish_flag("-y"@),
        "--size"@ != "--execute"@ && "--size"@ != "--yes"@ && "--size"@ != "-y"@ && "--size"@
            != "--tflash"@ && !is_finish_flag("--size"@),
{
    reveal_strlit("--pit");
    reveal_strlit("--size");
    reveal_strlit("--execute");
    reveal_strlit("--yes");
    reveal_strlit("-y");
    reveal_strlit("--tflash");
    reveal_strlit("--reboot");
    reveal_strlit("--reboot-download");
    reveal_strlit("--shutdown");
    assert("--pit"@.len() == 5 && "--size"@.len() == 6 && "--execute"@.len() == 9 && "--yes"@.len()
        == 5 && "-y"@.len() == 2 && "--tflash"@.len() == 8 && "--reboot"@.len() == 8
        && "--reboot-download"@.len() == 17 && "--shutdown"@.len() == 10);
    assert("--pit"@[2] == 'p' && "--yes"@[2] == 'y' && "--tflash"@[2] == 't' && "--reboot"@[2]
        == 'r');
}

proof fn lemma_flags(args: Seq<Seq<char>>, i: int, acc: OptionsModel)
    requires
        0 <= i <= args.len(),
        only_flags(args),
    ensures
        ({
            let rest = args.skip(i);
            options_from(args, flash_syntax(), i, acc) == Ok::<OptionsModel, Seq<char>>(
                OptionsModel {
                    pit_file: acc.pit_file,
                    size: acc.size,
                    execute: acc.execute || rest.contains("--execute"@),
                    assume_yes: acc.assume_yes || rest.contains("--yes"@) || rest.contains("-y"@),
                    tflash: acc.tflash || rest.contains("--tflash"@),
                    finish: match last_finish(rest) {
                        Some(f) => Some(f),
                        None => acc.finish,
                    },
                    positional: acc.positional + rest.filter(|w: Seq<char>| !is_dashed(w)),
                },
            )
        }),
    decreases args.len() - i,
{
    let rest = args.skip(i);
    let plain = |w: Seq<char>| !is_dashed(w);
    reveal(Seq::filter);
    if i == args.len() {
        assert(rest == Seq::<Seq<char>>::empty());
        assert(acc.positional + rest.filter(plain) == acc.positional);
    } else {
        lemma_dashes();
        lemma_flags_differ();
        let w = args[i];
        let tail = args.skip(i + 1);
        assert(rest == seq![w] + tail);
        lemma_finish_split(w, tail);
        lemma_filter_split(w, tail, plain);
        lemma_contains_split(w, tail, "--execute"@);
        lemma_contains_split(w, tail, "--yes"@);
        lemma_contains_split(w, tail, "-y"@);
        lemma_contains_split(w, tail, "--tflash"@);
        let next = if w == "--tflash"@ {
            OptionsModel { tflash: true, ..acc }
        } else if w == "--execute"@ {
            OptionsModel { execute: true, ..acc }
        } else if w == "--yes"@ || w == "-y"@ {
            OptionsModel { assume_yes: true, ..acc }
        } else if is_finish_flag(w) {
            OptionsModel { finish: Some(w), ..acc }
        } else {
            OptionsModel { positional: acc.positional.push(w), ..acc }
        };
        assert(options_from(args, flash_syntax(), i, acc) == options_from(
            args,
            flash_syntax(),
            i + 1,
            next,
        ));
        lemma_flags(args, i + 1, next);
        assert(acc.positional.push(w) + tail.filter(plain) == acc.positional + (seq![w]
            + tail.filter(plain)));
        assert(Seq::<Seq<char>>::empty() + tail.filter(plain) == tail.filter(plain));
    }
}

proof fn lemma_contains_split(w: Seq<char>, tail: Seq<Seq<char>>, x: Seq<char>)
    ensures
        (seq![w] + tail).contains(x) <==> w == x || tail.contains(x),
{
    let all = seq![w] + tail;
    if w == x {
        assert(all[0] == x);
    }
    if tail.contains(x) {
        let k = choose|k: int| 0 <= k < tail.len() && tail[k] == x;
        assert(all[k + 1] == x);
    }
    if all.contains(x) {
        let k = choose|k: int| 0 <= k < all.len() && all[k] == x;
        if k > 0 {
            assert(tail[k - 1] == x);
        }
    }
}

proof fn lemma_filter_split(w: Seq<char>, tail: Seq<Seq<char>>, keep: spec_fn(Seq<char>) -> bool)
    ensures
        (seq![w] + tail).filter(keep) == (if keep(w) {
            seq![w]
        } else {
            Seq::empty()
        }) + tail.filter(keep),
    decreases tail.len(),
{
    reveal(Seq::filter);
    let all = seq![w] + tail;
    let head = if keep(w) {
        seq![w]
    } else {
        Seq::empty()
    };
    if tail.len() == 0 {
        assert(all.drop_last() == Seq::<Seq<char>>::empty());
        assert(all.last() == w);
        assert(tail.filter(keep) == Seq::<Seq<char>>::empty());
        assert(Seq::<Seq<char>>::empty().filter(keep) == Seq::<Seq<char>>::empty());
        assert(Seq::<Seq<char>>::empty().push(w) == seq![w]);
    } else {
        let short = tail.drop_last();
        lemma_filter_split(w, short, keep);
        assert(all.drop_last() == seq![w] + short);
        assert(all.last() == tail.last());
        assert((head + short.filter(keep)).push(tail.last()) == head + short.filter(keep).push(
            tail.last(),
        ));
    }
}

proof fn lemma_finish_split(w: Seq<char>, tail: Seq<Seq<char>>)
    ensures
        last_finish(seq![w] + tail) == match last_finish(tail) {
            Some(f) => Some(f),
            None => if is_finish_flag(w) {
                Some(w)
            } else {
                None
            },
        },
    decreases tail.len(),
{
    let all = seq![w] + tail;
    if tail.len() == 0 {
        assert(all.drop_last() == Seq::<Seq<char>>::empty());
        assert(all.last() == w);
        reveal_with_fuel(last_finish, 2);
    } else {
        lemma_finish_split(w, tail.drop_last());
        assert(all.drop_last() == seq![w] + tail.drop_last());
        assert(all.last() == tail.last());
    }
}

/// A flash that is to be executed is of the file that is named first, to the partition that is named
/// second, if one is, and as the flags say, wherever they stand.
pub proof fn law_executed_flash_is_what_the_words_say(args: Seq<Seq<char>>)
    requires
        only_flags(args),
        args.contains("--execute"@),
    ensures
        ({
            let named = args.filter(|w: Seq<char>| !is_dashed(w));
            &&& named.len() == 0 ==> flash_request_of(args) is Err
            &&& named.len() > 0 ==> flash_request_of(args) == Ok::<FlashModel, Seq<char>>(
                FlashModel::Live {
                    file: named[0],
                    partition: if named.len() > 1 {
                        Some(named[1])
                    } else {
                        None
                    },
                    finish: match last_finish(args) {
                        None => Finish::Leave,
                        Some(f) => if f == "--reboot"@ {
                            Finish::RebootNormal
                        } else if f == "--reboot-download"@ {
                            Finish::RebootDownload
                        } else {
                            Finish::Shutdown
                        },
                    },
                    assume_yes: args.contains("--yes"@) || args.contains("-y"@),
                    tflash: args.contains("--tflash"@),
                },
            )
        }),
{
    law_flags_count_wherever_they_stand(args);
    lemma_finish_is_a_flag(args);
}

proof fn lemma_finish_is_a_flag(args: Seq<Seq<char>>)
    ensures
        last_finish(args) matches Some(f) ==> is_finish_flag(f),
    decreases args.len(),
{
    if args.len() > 0 {
        lemma_finish_is_a_flag(args.drop_last());
    }
}

/// A dry run against a table in a file names both.
pub proof fn law_plan_names_its_table(pit: Seq<char>, file: Seq<char>, partition: Seq<char>)
    requires
        !is_dashed(file),
        !is_dashed(partition),
    ensures
        plan_request_of(seq!["--pit"@, pit, file, partition]) == Ok::<PlanModel, Seq<char>>(
            PlanModel { file, partition: Some(partition), pit_file: Some(pit) },
        ),
        plan_request_of(seq![file, "--pit"@, pit]) == Ok::<PlanModel, Seq<char>>(
            PlanModel { file, partition: None, pit_file: Some(pit) },
        ),
        plan_request_of(seq!["--pit"@]) is Err,
{
    lemma_dashes();
    reveal_with_fuel(options_from, 5);
    let syntax = plan_syntax();
    let none = no_options();
    let a = seq!["--pit"@, pit, file, partition];
    assert(a[0] == "--pit"@ && a[1] == pit && a[2] == file && a[3] == partition);
    assert(word_at(a, 1) == Some(pit));
    let b = seq![file, "--pit"@, pit];
    assert(b[0] == file && b[1] == "--pit"@ && b[2] == pit);
    assert(word_at(b, 2) == Some(pit));
    let c = seq!["--pit"@];
    assert(c[0] == "--pit"@);
    assert(word_at(c, 1) is None);
    assert(none.positional.push(file).push(partition)[0] == file);
    assert(none.positional.push(file)[0] == file);
}

/// An erase that is to be executed is of the partition that is named and of the size that is given, if
/// that is positive.
pub proof fn law_erase_takes_its_size(partition: Seq<char>, n: i64)
    requires
        !is_dashed(partition),
    ensures
        n > 0 ==> erase_request_of(seq![partition, "--size"@, dec(n as int), "--execute"@]) == Ok::<
            (Seq<char>, i64, Consent),
            Seq<char>,
        >((partition, n, (Consent { assume_yes: false, finish: Finish::Leave }))),
        n <= 0 ==> erase_request_of(seq![partition, "--size"@, dec(n as int), "--execute"@]) is Err,
        erase_request_of(seq![partition, "--execute"@]) is Err,
        n > 0 ==> shell_erase_of(seq![partition, "--size"@, dec(n as int)]) == Ok::<
            (Seq<char>, i64),
            Seq<char>,
        >((partition, n)),
        n <= 0 ==> shell_erase_of(seq![partition, "--size"@, dec(n as int)]) is Err,
{
    lemma_dashes();
    lemma_flags_differ();
    law_signed_numbers_are_read_back(n);
    let none = no_options();
    let named = OptionsModel { positional: none.positional.push(partition), ..none };
    assert(named.positional[0] == partition);
    lemma_sized_words(partition, n, erase_syntax(), true);
    lemma_sized_words(partition, n, shell_erase_syntax(), false);
    assert(options_of(seq![partition, "--execute"@], erase_syntax()) == Ok::<
        OptionsModel,
        Seq<char>,
    >(OptionsModel { execute: true, ..named })) by {
        let b = seq![partition, "--execute"@];
        assert(b[0] == partition && b[1] == "--execute"@);
        let done = OptionsModel { execute: true, ..named };
        assert(options_from(b, erase_syntax(), 2, done) == Ok::<OptionsModel, Seq<char>>(done));
        assert(options_from(b, erase_syntax(), 1, named) == options_from(
            b,
            erase_syntax(),
            2,
            done,
        ));
    }
}

proof fn lemma_sized_words(partition: Seq<char>, n: i64, syntax: Syntax, execute: bool)
    requires
        !is_dashed(partition),
        syntax == if execute {
            erase_syntax()
        } else {
            shell_erase_syntax()
        },
    ensures
        ({
            let short = seq![partition, "--size"@, dec(n as int)];
            options_of(
                if execute {
                    short.push("--execute"@)
                } else {
                    short
                },
                syntax,
            ) == Ok::<OptionsModel, Seq<char>>(
                OptionsModel {
                    size: Some(n),
                    execute,
                    positional: Seq::empty().push(partition),
                    ..no_options()
                },
            )
        }),
        seq![partition, "--size"@, dec(n as int)].push("--execute"@) == seq![
            partition,
            "--size"@,
            dec(n as int),
            "--execute"@,
        ],
{
    lemma_dashes();
    lemma_flags_differ();
    law_signed_numbers_are_read_back(n);
    let short = seq![partition, "--size"@, dec(n as int)];
    let a = if execute {
        short.push("--execute"@)
    } else {
        short
    };
    let none = no_options();
    let named = OptionsModel { positional: none.positional.push(partition), ..none };
    let sized = OptionsModel { size: Some(n), ..named };
    assert(a[0] == partition && a[1] == "--size"@ && a[2] == dec(n as int));
    assert(word_at(a, 2) == Some(dec(n as int)));
    assert(options_from(a, syntax, 1, named) == options_from(a, syntax, 3, sized));
    assert(options_from(a, syntax, 0, none) == options_from(a, syntax, 1, named));
    if execute {
        let done = OptionsModel { execute: true, ..sized };
        assert(a[3] == "--execute"@);
        assert(options_from(a, syntax, 4, done) == Ok::<OptionsModel, Seq<char>>(done));
        assert(options_from(a, syntax, 3, sized) == options_from(a, syntax, 4, done));
    }
}

/// A range of memory is asked for by two addresses in hex, the second behind the first.
pub proof fn law_ranges_are_read_back(
    from: Seq<char>,
    to: Seq<char>,
    start: u64,
    end: u64,
    out: Seq<char>,
)
    requires
        all_digits(from, 16) && number_of(from, 16) == start,
        all_digits(to, 16) && number_of(to, 16) == end,
        from.len() >= 2 ==> from[1] != 'x' && from[1] != 'X',
        to.len() >= 2 ==> to[1] != 'x' && to[1] != 'X',
    ensures
        start < end ==> upload_request_of(seq![from, to, out]) == Ok::<
            (u64, u64, Seq<char>),
            Seq<char>,
        >((start, end, out)),
        start < end ==> dmesg_request_of(seq![from, to]) == Ok::<(u64, u64), Seq<char>>(
            (start, end),
        ),
        start < end ==> dmesg_request_of(
            seq![seq!['0', 'x'] + from, seq!['0', 'x'] + to],
        ) == Ok::<(u64, u64), Seq<char>>((start, end)),
        start >= end ==> upload_request_of(seq![from, to, out]) is Err,
        start >= end ==> dmesg_request_of(seq![from, to]) is Err,
        upload_request_of(seq![from, to]) is Err,
        dmesg_request_of(seq![from]) is Err,
{
    law_addresses_are_read_back(from, start);
    law_addresses_are_read_back(to, end);
    let a = seq![from, to, out];
    assert(a[0] == from && a[1] == to && a[2] == out);
    let b = seq![from, to];
    assert(b[0] == from && b[1] == to);
    let c = seq![seq!['0', 'x'] + from, seq!['0', 'x'] + to];
    assert(c[0] == seq!['0', 'x'] + from && c[1] == seq!['0', 'x'] + to);
    let d = seq![from];
    assert(d[0] == from);
}

/// A region code is three ASCII characters, and is sent in upper case.
pub proof fn law_region_codes(code: Seq<char>)
    requires
        forall|i: int| 0 <= i < code.len() ==> '\0' <= #[trigger] code[i] <= '\x7f',
    ensures
        code.len() == 3 ==> (region_code_of(code) matches Ok(sent) && sent.len() == 3 && forall|
            i: int,
        |
            0 <= i < 3 ==> #[trigger] sent[i] as int == if 'a' <= code[i] <= 'z' {
                code[i] as int - 0x20
            } else {
                code[i] as int
            }),
        code.len() != 3 ==> region_code_of(code) is Err,
{
    assert(is_ascii_chars(code));
    is_ascii_chars_encode_utf8(code);
    assert forall|i: int| 0 <= i < code.len() implies #[trigger] upper(code)[i] as int == if 'a'
        <= code[i] <= 'z' {
        code[i] as int - 0x20
    } else {
        code[i] as int
    } by {
        lemma_upper_char(code[i]);
    }
}

proof fn lemma_upper_char(c: char)
    ensures
        upper_char(c) as int == if 'a' <= c <= 'z' {
            c as int - 0x20
        } else {
            c as int
        },
{
}

/// `--debug` is no word of a command, wherever it stands; all others are, in order.
pub proof fn law_debug_is_left_out(args: Seq<Seq<char>>)
    ensures
        without_debug(args) == args.filter(|w: Seq<char>| w != "--debug"@),
    decreases args.len(),
{
    reveal(Seq::filter);
    if args.len() > 0 {
        law_debug_is_left_out(args.drop_last());
    }
}

/// What a flag that says how to finish asks for.
pub open spec fn finish_meant(flag: Option<Seq<char>>) -> Finish {
    match flag {
        None => Finish::Leave,
        Some(f) => if f == "--reboot"@ {
            Finish::RebootNormal
        } else if f == "--reboot-download"@ {
            Finish::RebootDownload
        } else {
            Finish::Shutdown
        },
    }
}

/// An action that is to be executed is on what is named first, and is confirmed and finished as the
/// flags say, wherever they stand.
pub proof fn law_executed_actions_are_what_the_words_say(args: Seq<Seq<char>>)
    requires
        only_flags(args),
        !args.contains("--tflash"@),
        args.contains("--execute"@),
    ensures
        ({
            let named = args.filter(|w: Seq<char>| !is_dashed(w));
            let consent = Consent {
                assume_yes: args.contains("--yes"@) || args.contains("-y"@),
                finish: finish_meant(last_finish(args)),
            };
            &&& reset_request_of(args) == Ok::<Consent, Seq<char>>(consent)
            &&& named.len() == 0 ==> pit_request_of(args) is Err && region_request_of(args) is Err
            &&& named.len() > 0 ==> pit_request_of(args) == Ok::<(Seq<char>, Consent), Seq<char>>(
                (named[0], consent),
            )
            &&& named.len() > 0 ==> match region_code_of(named[0]) {
                Ok(code) => region_request_of(args) == Ok::<(Seq<char>, Consent), Seq<char>>(
                    (code, consent),
                ),
                Err(m) => region_request_of(args) == Err::<(Seq<char>, Consent), Seq<char>>(m),
            }
        }),
{
    law_flags_count_wherever_they_stand(args);
    lemma_finish_is_a_flag(args);
    lemma_action_options(args, 0, no_options());
}

proof fn lemma_action_options(args: Seq<Seq<char>>, i: int, acc: OptionsModel)
    requires
        0 <= i <= args.len(),
        only_flags(args),
        !args.contains("--tflash"@),
    ensures
        options_from(args, action_syntax(), i, acc) == options_from(args, flash_syntax(), i, acc),
    decreases args.len() - i,
{
    if i < args.len() {
        lemma_dashes();
        lemma_flags_differ();
        let w = args[i];
        assert(args.contains(w));
        let next = if w == "--execute"@ {
            OptionsModel { execute: true, ..acc }
        } else if w == "--yes"@ || w == "-y"@ {
            OptionsModel { assume_yes: true, ..acc }
        } else if is_finish_flag(w) {
            OptionsModel { finish: Some(w), ..acc }
        } else {
            OptionsModel { positional: acc.positional.push(w), ..acc }
        };
        lemma_action_options(args, i + 1, next);
    }
}

} // verus!
