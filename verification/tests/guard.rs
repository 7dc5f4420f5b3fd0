//! The guards in front of destructive actions.

use thor::guard::{confirm_flash, confirm_typed, flash_answer, typed_answer, Action, Guard};

fn warning_of(g: Guard) -> Option<String> {
    match g {
        Guard::Ask { warning, .. } => warning,
        _ => panic!("expected a question"),
    }
}

#[test]
fn yes_opens_every_guard() {
    assert!(matches!(confirm_typed("FLASH", None, true, false), Guard::Open));
    assert!(matches!(confirm_flash("BOOT", true, false), Guard::Open));
    assert!(matches!(Action::FlashPit.confirm(true, true), Guard::Open));
}

#[test]
fn input_that_cannot_answer_is_refused() {
    match confirm_flash("BOOT", false, false) {
        Guard::Refused(m) => assert!(m.starts_with("refusing to flash: input isn't interactive")),
        _ => panic!("expected a refusal"),
    }
    match Action::FactoryReset.confirm(false, false) {
        Guard::Refused(m) => assert!(m.starts_with("refusing: input isn't interactive")),
        _ => panic!("expected a refusal"),
    }
}

#[test]
fn questions_name_what_is_to_be_typed() {
    match confirm_flash("BOOT", false, true) {
        Guard::Ask { warning, prompt } => {
            assert_eq!(warning, None);
            assert_eq!(
                prompt,
                "\nType the partition name 'BOOT' to flash it (anything else aborts): "
            );
        }
        _ => panic!("expected a question"),
    }
    match confirm_typed("YES", Some("careful"), false, true) {
        Guard::Ask { warning, prompt } => {
            assert_eq!(warning.unwrap(), "\nWARNING: careful");
            assert_eq!(prompt, "\nType YES to proceed (anything else aborts): ");
        }
        _ => panic!("expected a question"),
    }
}

#[test]
fn critical_partitions_come_with_a_warning() {
    assert_eq!(
        warning_of(confirm_flash("sbl1", false, true)).unwrap(),
        "\nWARNING: sbl1 is a bootloader/critical partition — a bad flash here can HARD-BRICK the device."
    );
    assert_eq!(warning_of(confirm_flash("CACHE", false, true)), None);
    assert!(warning_of(Action::FlashArchive { any_critical: true }.confirm(false, true)).is_some());
    assert!(warning_of(Action::FlashArchive { any_critical: false }.confirm(false, true)).is_none());
}

#[test]
fn words_and_names_have_to_be_exact() {
    assert!(typed_answer("ERASE", Some(" ERASE\n")));
    assert!(!typed_answer("ERASE", Some("erase")));
    assert!(!typed_answer("ERASE", Some("")));
    assert!(!typed_answer("ERASE", None));
    assert!(flash_answer("BOOT", Some("BOOT\r\n")));
    assert!(!flash_answer("BOOT", Some("boot\n")));
    assert!(!flash_answer("BOOT", Some("y")));
    assert!(!flash_answer("BOOT", None));
}

#[test]
fn actions_have_their_words() {
    let words = [
        (Action::FlashArchive { any_critical: false }, "FLASH"),
        (Action::FactoryReset, "ERASE"),
        (Action::SetRegion, "YES"),
        (Action::FlashPit, "FLASHPIT"),
    ];
    for (action, word) in words {
        assert_eq!(action.word(), word);
    }
    assert!(Action::FactoryReset.warning().unwrap().contains("VaultKeeper"));
    assert!(Action::SetRegion.warning().unwrap().starts_with("UNVERIFIED"));
    assert!(Action::FlashPit.warning().unwrap().contains("HARD-BRICK"));
}
