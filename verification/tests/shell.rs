//! The interactive shell: words, completion and what a line asks for.

use thor::command::Finish;
use thor::shell::{
    complete, complete_command, last_token_start, shell_action, split_args, Completion, ShellAction,
    ShellCommand, SHELL_COMMANDS,
};

#[test]
fn split_args_plain() {
    assert_eq!(
        split_args("flash boot.img BOOT"),
        ["flash", "boot.img", "BOOT"]
    );
}

#[test]
fn split_args_collapses_whitespace() {
    assert_eq!(split_args("  spaced   out  "), ["spaced", "out"]);
    assert!(split_args("   ").is_empty());
}

#[test]
fn split_args_honors_double_quotes() {
    assert_eq!(
        split_args("flash \"AP file.tar\" BOOT"),
        ["flash", "AP file.tar", "BOOT"]
    );
}

#[test]
fn split_args_unclosed_quote_runs_to_end() {
    assert_eq!(
        split_args("flash \"unclosed path"),
        ["flash", "unclosed path"]
    );
}

#[test]
fn completes_a_command_prefix() {
    let (start, cands) = complete_command("du", 2, &SHELL_COMMANDS);
    assert_eq!(start, 0);
    assert_eq!(cands, vec!["dump-pit".to_string()]);
}

#[test]
fn empty_prefix_offers_every_command() {
    let (_, cands) = complete_command("", 0, &SHELL_COMMANDS);
    assert_eq!(cands.len(), SHELL_COMMANDS.len());
}

#[test]
fn multiple_matches_are_all_returned() {
    // "e" matches "end" and "exit".
    let (_, cands) = complete_command("e", 1, &SHELL_COMMANDS);
    assert!(cands.contains(&"end".to_string()));
    assert!(cands.contains(&"exit".to_string()));
}

#[test]
fn arguments_are_not_completed_as_commands() {
    // Cursor is in the second token -> no command candidates.
    let (start, cands) = complete_command("flash-plan bo", 13, &SHELL_COMMANDS);
    assert_eq!(start, 11);
    assert!(cands.is_empty());
}

#[test]
fn quotes_may_stand_inside_an_argument() {
    assert_eq!(split_args("a\"b c\"d"), ["ab cd"]);
    assert_eq!(split_args("\"\""), [""]);
    assert_eq!(split_args("x \"\" y"), ["x", "", "y"]);
    assert_eq!(split_args("back\\ slash"), ["back\\", "slash"]);
    assert_eq!(split_args("a\u{3000}b\tc"), ["a", "b", "c"]);
}

#[test]
fn joined_lines_give_their_arguments_in_turn() {
    for (a, b) in [("flash x", "\"y z\""), ("", "b"), ("a ", " ")] {
        let mut want = split_args(a);
        want.extend(split_args(b));
        assert_eq!(split_args(&format!("{a} {b}")), want);
    }
}

#[test]
fn tokens_start_behind_the_last_whitespace() {
    assert_eq!(last_token_start(""), 0);
    assert_eq!(last_token_start("abc"), 0);
    assert_eq!(last_token_start("ab cd"), 3);
    assert_eq!(last_token_start("ab "), 3);
    assert_eq!(last_token_start("é\u{3000}x"), 5);
}

#[test]
fn a_cursor_behind_the_line_counts_as_its_end() {
    let (start, cands) = complete_command("  fla", 99, &SHELL_COMMANDS);
    assert_eq!(start, 2);
    assert_eq!(cands, ["flash-plan", "flash", "flash-pit"]);
    let (start, cands) = complete_command("reboot", 2, &SHELL_COMMANDS);
    assert_eq!((start, cands), (0, vec!["reboot".to_string()]));
}

fn words(line: &str) -> (usize, Vec<String>) {
    match complete(line, line.len()) {
        Completion::Words(start, words) => (start, words),
        Completion::Files => panic!("expected words for {line:?}"),
    }
}

#[test]
fn completion_depends_on_the_command() {
    assert_eq!(words("qu"), (0, vec!["quit".to_string()]));
    assert_eq!(words("reboot "), (7, vec!["normal".to_string(), "download".to_string()]));
    assert_eq!(words("reboot d"), (7, vec!["download".to_string()]));
    assert_eq!(words("debug o"), (6, vec![]));
    for line in ["flash ", "flash-plan x", "dump-pit a b", "tar-list /", "  flash-pit ."] {
        assert!(matches!(complete(line, line.len()), Completion::Files), "{line:?}");
    }
}

#[test]
fn every_command_is_understood() {
    for c in SHELL_COMMANDS {
        assert!(!matches!(shell_action(c), ShellAction::Complain(_) | ShellAction::Nothing), "{c}");
    }
}

#[test]
fn lines_ask_for_actions() {
    assert!(matches!(shell_action("  "), ShellAction::Nothing));
    assert!(matches!(shell_action("?"), ShellAction::Run(ShellCommand::Help, _)));
    match shell_action(" flash \"AP file.tar\" BOOT ") {
        ShellAction::Run(ShellCommand::Flash, args) => assert_eq!(args, ["AP file.tar", "BOOT"]),
        _ => panic!("expected a flash"),
    }
    assert!(matches!(shell_action("pit"), ShellAction::Run(ShellCommand::PrintPit, _)));
    assert!(matches!(shell_action("debug"), ShellAction::DebugShow));
    assert!(matches!(shell_action("debug on"), ShellAction::DebugSet(true)));
    assert!(matches!(shell_action("debug off x"), ShellAction::DebugSet(false)));
    assert!(matches!(shell_action("reboot"), ShellAction::Finish(Finish::RebootNormal)));
    assert!(matches!(shell_action("reboot download"), ShellAction::Finish(Finish::RebootDownload)));
    assert!(matches!(shell_action("end"), ShellAction::Finish(Finish::Shutdown)));
    assert!(matches!(shell_action("exit now"), ShellAction::Leave));
}

#[test]
fn complaints_name_the_word() {
    match shell_action("debug maybe") {
        ShellAction::DebugComplain(m) => {
            assert_eq!(m, "unknown 'debug' argument 'maybe' (use on | off)")
        }
        _ => panic!("expected a complaint"),
    }
    match shell_action("reboot sideways") {
        ShellAction::Complain(m) => {
            assert_eq!(m, "unknown reboot mode 'sideways' (use normal | download)")
        }
        _ => panic!("expected a complaint"),
    }
    match shell_action("fly") {
        ShellAction::Complain(m) => assert_eq!(m, "unknown command 'fly' (try 'help')"),
        _ => panic!("expected a complaint"),
    }
}
