//! The second pass of an archive flash.

use thor::flashing::{
    first_event, image_line, next_flash_step, summary_line, table_step, FlashEvent, FlashState,
    FlashStep, TableStep,
};
use thor::guard::{confirm_flash, flash_answer, Action};
use thor::live::ArchiveTarget;
use thor::pit::PitEntry;

fn target(name: &str, partition: &str, size: i64) -> ArchiveTarget {
    let entry = PitEntry { partition: partition.to_string(), ..PitEntry::default() };
    ArchiveTarget { name: name.to_string(), entry, size }
}

fn targets() -> Vec<ArchiveTarget> {
    vec![target("boot.img", "BOOT", 1024), target("recovery.img.lz4", "RECOVERY", 2048)]
}

fn image(name: &str) -> FlashEvent {
    FlashEvent::Image(name.to_string())
}

fn failed(message: &str) -> FlashEvent {
    FlashEvent::Failed(message.to_string())
}

/// The steps that events lead to, from the start.
fn run(events: Vec<FlashEvent>) -> Vec<FlashStep> {
    let mut state = FlashState::Ready;
    let mut steps = Vec::new();
    for event in events {
        let (next, step) = next_flash_step(&targets(), 3072, state, event);
        state = next;
        steps.push(step);
    }
    steps
}

fn gives_up(step: &FlashStep) -> bool {
    matches!(step, FlashStep::Fail(_))
}

#[test]
fn matched_images_are_written_in_archive_order() {
    let steps = run(vec![
        FlashEvent::Go,
        FlashEvent::Succeeded,
        image("recovery.img.lz4"),
        FlashEvent::Succeeded,
        image("meta.txt"),
        image("boot.img"),
        FlashEvent::Succeeded,
        FlashEvent::EndOfArchive,
    ]);
    assert_eq!(
        steps,
        [
            FlashStep::Announce { total: 3072 },
            FlashStep::Read,
            FlashStep::Write { target: 1 },
            FlashStep::Read,
            FlashStep::Read,
            FlashStep::Write { target: 0 },
            FlashStep::Read,
            FlashStep::Finish { done: 2 },
        ]
    );
}

#[test]
fn the_first_error_ends_a_flash() {
    let steps = run(vec![FlashEvent::Go, failed("refused"), FlashEvent::Succeeded, image("boot.img")]);
    assert_eq!(steps[1], FlashStep::Fail("refused".to_string()));
    assert!(gives_up(&steps[2]) && gives_up(&steps[3]));

    let steps = run(vec![
        FlashEvent::Go,
        FlashEvent::Succeeded,
        image("boot.img"),
        failed("torn"),
        image("recovery.img.lz4"),
    ]);
    assert_eq!(steps[3], FlashStep::Fail("torn".to_string()));
    assert_eq!(steps[4], FlashStep::Fail("the flash is already over".to_string()));

    let steps = run(vec![FlashEvent::Go, FlashEvent::Succeeded, failed("tar error: bad")]);
    assert_eq!(steps[2], FlashStep::Fail("tar error: bad".to_string()));
}

#[test]
fn nothing_is_written_before_the_announcement() {
    for event in [FlashEvent::Succeeded, image("boot.img"), FlashEvent::EndOfArchive] {
        let (state, step) = next_flash_step(&targets(), 1, FlashState::Ready, event);
        assert_eq!(state, FlashState::Ended);
        assert_eq!(step, FlashStep::Fail("the flash is out of step".to_string()));
    }
    for state in [FlashState::Announcing, FlashState::Writing { done: 0 }] {
        let (state, step) = next_flash_step(&targets(), 1, state, image("boot.img"));
        assert!(state == FlashState::Ended && gives_up(&step));
    }
    // Nor is the total announced twice.
    assert!(gives_up(&run(vec![FlashEvent::Go, FlashEvent::Succeeded, FlashEvent::Go])[2]));
}

#[test]
fn images_are_counted_as_far_as_numbers_go() {
    let state = FlashState::Writing { done: u64::MAX };
    let (state, step) = next_flash_step(&targets(), 1, state, FlashEvent::Succeeded);
    assert_eq!(state, FlashState::Ended);
    assert_eq!(step, FlashStep::Fail("too many images to count".to_string()));
}

#[test]
fn the_last_of_two_targets_of_one_name_is_written() {
    let twice = vec![target("a.img", "A", 1), target("b.img", "B", 2), target("a.img", "A", 3)];
    let reading = FlashState::Reading { done: 0 };
    let (_, step) = next_flash_step(&twice, 6, reading, image("a.img"));
    assert_eq!(step, FlashStep::Write { target: 2 });
}

#[test]
fn progress_through_an_archive_is_shown() {
    assert_eq!(image_line(&targets(), 1, 0), "\n[2/2] BOOT <= boot.img  (1.0 KiB)\n");
    assert_eq!(summary_line(&targets(), 2, 3072), "\nFlashed 2/2 image(s), 3.0 KiB total.\n");
}

#[test]
fn a_refused_flash_sends_nothing() {
    let go = |yes: bool, interactive: bool, answer: Option<&str>| -> FlashEvent {
        let right = flash_answer("BOOT", answer);
        first_event(&confirm_flash("BOOT", yes, interactive), right)
    };
    assert_eq!(go(true, false, None), FlashEvent::Go);
    assert_eq!(go(false, true, Some("BOOT\n")), FlashEvent::Go);
    for refused in [go(false, true, Some("boot")), go(false, true, None), go(false, false, Some("BOOT"))] {
        let steps = run(vec![refused, FlashEvent::Succeeded, image("boot.img"), FlashEvent::Go]);
        assert!(steps[0] == FlashStep::Abort || gives_up(&steps[0]));
        assert!(steps[1..].iter().all(gives_up));
    }
    assert_eq!(run(vec![go(false, true, None)]), [FlashStep::Abort]);
}

#[test]
fn a_table_is_sent_only_past_its_guard() {
    let step = |yes: bool, interactive: bool, right: bool| -> TableStep {
        table_step(&Action::FlashPit.confirm(yes, interactive), right)
    };
    assert_eq!(step(true, false, false), TableStep::Send);
    assert_eq!(step(false, true, true), TableStep::Send);
    assert_eq!(step(false, true, false), TableStep::Abort);
    assert!(matches!(step(false, false, true), TableStep::Fail(m) if m.starts_with("refusing")));
}
