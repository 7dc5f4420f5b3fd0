//! The second pass of an archive flash, step by step: announce the total, then read the archive
//! again and write each image that has a target, and stop at the first error. Whoever talks to the
//! device and reads the archive performs each step and says how it went.

use vstd::prelude::*;
use vstd::string::StringExecFns;

use crate::archive::ArchiveImage;
use crate::guard::{passes, Guard, GuardModel};
use crate::live::{
    last_target, law_live_targets_are_the_planned_ones, lookup_target, target_models, targets_of,
    ArchiveTarget, TargetModel,
};
use crate::pit::PitModel;
use crate::progress::{bytes_text, human_bytes};
use crate::report::image_index;
use crate::text::{contains_text, dec, dec_text, lemma_contains_more, lemma_contains_part};

verus! {

/// How far a flash has come. `done` counts the images that were written.
#[derive(Clone, Copy, Debug, PartialEq, Eq, Structural)]
pub enum FlashState {
    /// Nothing was sent yet.
    Ready,
    /// The total is being announced.
    Announcing,
    /// The archive is being read.
    Reading { done: u64 },
    /// An image is being written.
    Writing { done: u64 },
    /// The flash is over.
    Ended,
}

/// What happened outside.
#[derive(Clone, Debug, PartialEq, Eq)]
pub enum FlashEvent {
    /// The flash may begin.
    Go,
    /// The user declined it.
    Declined,
    /// The announcement was answered, or the image was written.
    Succeeded,
    /// The last step failed, with this message.
    Failed(String),
    /// The archive holds an image of this name next.
    Image(String),
    /// The archive holds no more images.
    EndOfArchive,
}

/// What to do next.
#[derive(Clone, Debug, PartialEq, Eq)]
pub enum FlashStep {
    /// Announce how many bytes will be written in all.
    Announce { total: i64 },
    /// Go on to the next image of the archive.
    Read,
    /// Write the image that was just reached to this target.
    Write { target: usize },
    /// The flash is complete.
    Finish { done: u64 },
    /// Leave it: nothing was sent.
    Abort,
    /// Give up, with this message.
    Fail(String),
}

/// An event, by content.
#[verifier::ext_equal]
pub enum EventModel {
    Go,
    Declined,
    Succeeded,
    Failed(Seq<char>),
    Image(Seq<char>),
    EndOfArchive,
}

/// A step, by content.
#[verifier::ext_equal]
pub enum StepModel {
    Announce { total: i64 },
    Read,
    Write { target: int },
    Finish { done: u64 },
    Abort,
    Fail(Seq<char>),
}

impl View for FlashEvent {
    type V = EventModel;

    open spec fn view(&self) -> EventModel {
        match *self {
            FlashEvent::Go => EventModel::Go,
            FlashEvent::Declined => EventModel::Declined,
            FlashEvent::Succeeded => EventModel::Succeeded,
            FlashEvent::Failed(m) => EventModel::Failed(m@),
            FlashEvent::Image(name) => EventModel::Image(name@),
            FlashEvent::EndOfArchive => EventModel::EndOfArchive,
        }
    }
}

impl View for FlashStep {
    type V = StepModel;

    open spec fn view(&self) -> StepModel {
        match *self {
            FlashStep::Announce { total } => StepModel::Announce { total },
            FlashStep::Read => StepModel::Read,
            FlashStep::Write { target } => StepModel::Write { target: target as int },
            FlashStep::Finish { done } => StepModel::Finish { done },
            FlashStep::Abort => StepModel::Abort,
            FlashStep::Fail(m) => StepModel::Fail(m@),
        }
    }
}

/// The target that an image called `name` is written to.
pub open spec fn target_for(targets: Seq<TargetModel>, name: Seq<char>) -> Option<int> {
    last_target(targets, name, targets.len() as int)
}

/// How a flash behind a guard begins, given whether the answer to its question is right.
pub open spec fn first_of(guard: GuardModel, right_answer: bool) -> EventModel {
    match guard {
        GuardModel::Open => EventModel::Go,
        GuardModel::Refused(reason) => EventModel::Failed(reason),
        GuardModel::Ask { .. } => if right_answer {
            EventModel::Go
        } else {
            EventModel::Declined
        },
    }
}

/// Decide how a flash behind a guard begins, given whether the answer to its question is right.
pub fn first_event(guard: &Guard, right_answer: bool) -> (r: FlashEvent)
    ensures
        r@ == first_of(guard@, right_answer),
{
    match guard {
        Guard::Open => FlashEvent::Go,
        Guard::Refused(reason) => FlashEvent::Failed(reason.clone()),
        Guard::Ask { .. } => if right_answer {
            FlashEvent::Go
        } else {
            FlashEvent::Declined
        },
    }
}

/// What to do about a request to flash a partition table.
#[derive(Clone, Debug, PartialEq, Eq)]
pub enum TableStep {
    /// Send the table.
    Send,
    /// Leave it: nothing was sent.
    Abort,
    /// Give up, with this message.
    Fail(String),
}

/// Decide whether a partition table is sent, given the guard in front of that and whether the answer
/// to its question is right. It is sent if and only if the guard is passed.
pub fn table_step(guard: &Guard, right_answer: bool) -> (r: TableStep)
    ensures
        r is Send <==> passes(guard@, right_answer),
        r matches TableStep::Fail(m) ==> guard@ == GuardModel::Refused(m@),
        guard@ is Refused <==> r is Fail,
{
    match guard {
        Guard::Open => TableStep::Send,
        Guard::Refused(reason) => TableStep::Fail(reason.clone()),
        Guard::Ask { .. } => if right_answer {
            TableStep::Send
        } else {
            TableStep::Abort
        },
    }
}

/// What follows an event.
pub open spec fn next_of(
    targets: Seq<TargetModel>,
    total: i64,
    state: FlashState,
    event: EventModel,
) -> (FlashState, StepModel) {
    match (state, event) {
        (FlashState::Ended, _) => (
            FlashState::Ended,
            StepModel::Fail("the flash is already over"@),
        ),
        (_, EventModel::Failed(m)) => (FlashState::Ended, StepModel::Fail(m)),
        (FlashState::Ready, EventModel::Go) => (
            FlashState::Announcing,
            StepModel::Announce { total },
        ),
        (FlashState::Ready, EventModel::Declined) => (FlashState::Ended, StepModel::Abort),
        (FlashState::Announcing, EventModel::Succeeded) => (
            FlashState::Reading { done: 0 },
            StepModel::Read,
        ),
        (FlashState::Reading { done }, EventModel::Image(name)) => match target_for(targets, name) {
            Some(i) => (FlashState::Writing { done }, StepModel::Write { target: i }),
            None => (state, StepModel::Read),
        },
        (FlashState::Reading { done }, EventModel::EndOfArchive) => (
            FlashState::Ended,
            StepModel::Finish { done },
        ),
        (FlashState::Writing { done }, EventModel::Succeeded) => if done < u64::MAX {
            (FlashState::Reading { done: (done + 1) as u64 }, StepModel::Read)
        } else {
            (FlashState::Ended, StepModel::Fail("too many images to count"@))
        },
        _ => (FlashState::Ended, StepModel::Fail("the flash is out of step"@)),
    }
}

fn give_up(message: &str) -> (r: (FlashState, FlashStep))
    ensures
        r.0 == FlashState::Ended,
        r.1@ == StepModel::Fail(message@),
{
    (FlashState::Ended, FlashStep::Fail(String::from_str(message)))
}

/// Decide what a flash of `targets`, which write `total` bytes in all, does after an event.
pub fn next_flash_step(
    targets: &Vec<ArchiveTarget>,
    total: i64,
    state: FlashState,
    event: FlashEvent,
) -> (r: (FlashState, FlashStep))
    ensures
        r.0 == next_of(target_models(targets@), total, state, event@).0,
        r.1@ == next_of(target_models(targets@), total, state, event@).1,
{
    assert(target_models(targets@).len() == targets.len());
    match (state, event) {
        (FlashState::Ended, _) => give_up("the flash is already over"),
        (_, FlashEvent::Failed(m)) => (FlashState::Ended, FlashStep::Fail(m)),
        (FlashState::Ready, FlashEvent::Go) => (
            FlashState::Announcing,
            FlashStep::Announce { total },
        ),
        (FlashState::Ready, FlashEvent::Declined) => (FlashState::Ended, FlashStep::Abort),
        (FlashState::Announcing, FlashEvent::Succeeded) => (
            FlashState::Reading { done: 0 },
            FlashStep::Read,
        ),
        (FlashState::Reading { done }, FlashEvent::Image(name)) => match lookup_target(
            targets,
            name.as_str(),
        ) {
            Some(i) => (FlashState::Writing { done }, FlashStep::Write { target: i }),
            None => (FlashState::Reading { done }, FlashStep::Read),
        },
        (FlashState::Reading { done }, FlashEvent::EndOfArchive) => (
            FlashState::Ended,
            FlashStep::Finish { done },
        ),
        (FlashState::Writing { done }, FlashEvent::Succeeded) => {
            if done < u64::MAX {
                (FlashState::Reading { done: done + 1 }, FlashStep::Read)
            } else {
                give_up("too many images to count")
            }
        },
        _ => give_up("the flash is out of step"),
    }
}

/// The line shown before an image is written.
pub open spec fn image_text(targets: Seq<TargetModel>, done: u64, target: int) -> Seq<char> {
    let t = targets[target];
    "\n["@ + dec(done + 1) + "/"@ + dec(targets.len() as int) + "] "@ + t.entry.partition + " <= "@
        + t.name + "  ("@ + bytes_text(t.size as int) + ")\n"@
}

/// The line shown before the image number `done + 1` is written to a target.
pub fn image_line(targets: &Vec<ArchiveTarget>, done: u64, target: usize) -> (s: String)
    requires
        target < targets@.len(),
        done < u64::MAX,
    ensures
        s@ == image_text(target_models(targets@), done, target as int),
{
    assert(target_models(targets@)[target as int] == targets@[target as int]@);
    let t: &ArchiveTarget = &targets[target];
    let mut s = String::from_str("\n[");
    s.append(dec_text(done + 1).as_str());
    s.append("/");
    s.append(dec_text(targets.len() as u64).as_str());
    s.append("] ");
    s.append(t.entry.partition.as_str());
    s.append(" <= ");
    s.append(t.name.as_str());
    s.append("  (");
    s.append(human_bytes(t.size).as_str());
    s.append(")\n");
    s
}

/// The line shown when a flash is complete.
pub open spec fn summary_text(done: u64, count: nat, total: i64) -> Seq<char> {
    "\nFlashed "@ + dec(done as int) + "/"@ + dec(count as int) + " image(s), "@ + bytes_text(
        total as int,
    ) + " total.\n"@
}

/// The line shown when a flash of `targets` is complete.
pub fn summary_line(targets: &Vec<ArchiveTarget>, done: u64, total: i64) -> (s: String)
    ensures
        s@ == summary_text(done, targets@.len(), total),
{
    let mut s = String::from_str("\nFlashed ");
    s.append(dec_text(done).as_str());
    s.append("/");
    s.append(dec_text(targets.len() as u64).as_str());
    s.append(" image(s), ");
    s.append(human_bytes(total).as_str());
    s.append(" total.\n");
    s
}

/// The state that a flash is in after `events`, from the start.
pub open spec fn state_after(
    targets: Seq<TargetModel>,
    total: i64,
    events: Seq<EventModel>,
) -> FlashState
    decreases events.len(),
{
    if events.len() == 0 {
        FlashState::Ready
    } else {
        next_of(
            targets,
            total,
            state_after(targets, total, events.drop_last()),
            events.last(),
        ).0
    }
}

/// The steps that `events` lead to, from the start: one for each.
pub open spec fn steps_after(
    targets: Seq<TargetModel>,
    total: i64,
    events: Seq<EventModel>,
) -> Seq<StepModel>
    decreases events.len(),
{
    if events.len() == 0 {
        Seq::empty()
    } else {
        steps_after(targets, total, events.drop_last()).push(
            next_of(
                targets,
                total,
                state_after(targets, total, events.drop_last()),
                events.last(),
            ).1,
        )
    }
}

/// The targets that steps write to, in order.
pub open spec fn written(steps: Seq<StepModel>) -> Seq<int>
    decreases steps.len(),
{
    if steps.len() == 0 {
        Seq::empty()
    } else {
        match steps.last() {
            StepModel::Write { target } => written(steps.drop_last()).push(target),
            _ => written(steps.drop_last()),
        }
    }
}

/// The names of the images that events tell of, in order.
pub open spec fn images_met(events: Seq<EventModel>) -> Seq<Seq<char>>
    decreases events.len(),
{
    if events.len() == 0 {
        Seq::empty()
    } else {
        match events.last() {
            EventModel::Image(name) => images_met(events.drop_last()).push(name),
            _ => images_met(events.drop_last()),
        }
    }
}

/// The targets of those among the images called `names` that have one, in order.
pub open spec fn targets_met(targets: Seq<TargetModel>, names: Seq<Seq<char>>) -> Seq<int>
    decreases names.len(),
{
    if names.len() == 0 {
        Seq::empty()
    } else {
        let before = targets_met(targets, names.drop_last());
        match target_for(targets, names.last()) {
            Some(i) => before.push(i),
            None => before,
        }
    }
}

/// No step among `steps` gives up.
pub open spec fn no_failure(steps: Seq<StepModel>) -> bool {
    forall|i: int| 0 <= i < steps.len() ==> !((#[trigger] steps[i]) is Fail)
}

/// The total is announced first, and once: nothing is announced again, and nothing is read or
/// written before.
pub proof fn law_total_is_announced_first_and_once(
    targets: Seq<TargetModel>,
    total: i64,
    events: Seq<EventModel>,
    i: int,
)
    requires
        0 <= i < events.len(),
    ensures
        steps_after(targets, total, events).len() == events.len(),
        steps_after(targets, total, events)[i] is Announce ==> i == 0,
        i == 0 && !(steps_after(targets, total, events)[i] is Fail) && !(steps_after(
            targets,
            total,
            events,
        )[i] is Abort) ==> steps_after(targets, total, events)[i] == (StepModel::Announce { total }),
        i > 0 && !(steps_after(targets, total, events)[i] is Fail) ==> steps_after(
            targets,
            total,
            events,
        )[0] == (StepModel::Announce { total }),
{
    lemma_run(targets, total, events);
}

/// Unless its guard is passed, a flash announces nothing, reads nothing and writes nothing,
/// whatever happens after it was refused.
pub proof fn law_refused_flash_sends_nothing(
    targets: Seq<TargetModel>,
    total: i64,
    guard: GuardModel,
    right_answer: bool,
    events: Seq<EventModel>,
    i: int,
)
    requires
        !passes(guard, right_answer),
        0 <= i < events.len(),
        events[0] == first_of(guard, right_answer),
    ensures
        steps_after(targets, total, events)[i] is Abort || steps_after(targets, total, events)[i]
            is Fail,
    decreases events.len(),
{
    let before = events.drop_last();
    lemma_run(targets, total, events);
    lemma_run(targets, total, before);
    if i < before.len() {
        law_refused_flash_sends_nothing(targets, total, guard, right_answer, before, i);
    } else if before.len() > 0 {
        lemma_refused_stays(targets, total, guard, right_answer, before);
    }
}

proof fn lemma_refused_stays(
    targets: Seq<TargetModel>,
    total: i64,
    guard: GuardModel,
    right_answer: bool,
    events: Seq<EventModel>,
)
    requires
        !passes(guard, right_answer),
        events.len() > 0,
        events[0] == first_of(guard, right_answer),
    ensures
        state_after(targets, total, events) == FlashState::Ended,
    decreases events.len(),
{
    let before = events.drop_last();
    if before.len() > 0 {
        lemma_refused_stays(targets, total, guard, right_answer, before);
    }
}

/// A failure is passed on, and ends the flash: no step after one that gives up does anything else.
pub proof fn law_first_error_ends_the_flash(
    targets: Seq<TargetModel>,
    total: i64,
    events: Seq<EventModel>,
    i: int,
    j: int,
)
    requires
        0 <= i < j < events.len(),
        steps_after(targets, total, events)[i] is Fail,
    ensures
        steps_after(targets, total, events)[j] is Fail,
    decreases events.len(),
{
    lemma_run(targets, total, events.drop_last());
    lemma_run(targets, total, events);
    let before = events.drop_last();
    if j < before.len() {
        law_first_error_ends_the_flash(targets, total, before, i, j);
    } else {
        assert(steps_after(targets, total, before)[i] is Fail);
    }
}

/// The message of a failed step is the message that the flash ends with.
pub proof fn law_failure_is_passed_on(
    targets: Seq<TargetModel>,
    total: i64,
    events: Seq<EventModel>,
    message: Seq<char>,
)
    requires
        state_after(targets, total, events) != FlashState::Ended,
    ensures
        steps_after(targets, total, events.push(EventModel::Failed(message))).last()
            == StepModel::Fail(message),
        state_after(targets, total, events.push(EventModel::Failed(message)))
            == FlashState::Ended,
{
    let all = events.push(EventModel::Failed(message));
    assert(all.drop_last() == events);
}

/// While nothing fails, each image met in the archive that has a target is written to it, once and
/// in the order of the archive, and nothing else is written.
pub proof fn law_matched_images_are_written_in_order(
    targets: Seq<TargetModel>,
    total: i64,
    events: Seq<EventModel>,
)
    requires
        no_failure(steps_after(targets, total, events)),
    ensures
        written(steps_after(targets, total, events)) == targets_met(targets, images_met(events)),
    decreases events.len(),
{
    if events.len() > 0 {
        let before = events.drop_last();
        let steps = steps_after(targets, total, events);
        let earlier = steps_after(targets, total, before);
        assert(steps.drop_last() == earlier);
        assert(steps.last() == steps[steps.len() - 1]);
        assert forall|i: int| 0 <= i < earlier.len() implies !((#[trigger] earlier[i]) is Fail) by {
            assert(steps[i] == earlier[i]);
        }
        law_matched_images_are_written_in_order(targets, total, before);
        match events.last() {
            EventModel::Image(name) => {
                assert(images_met(events).drop_last() == images_met(before));
                assert(images_met(events).last() == name);
            },
            _ => {},
        }
    }
}

/// A flash that completes counts every image that it wrote.
pub proof fn law_completed_flash_counts_its_images(
    targets: Seq<TargetModel>,
    total: i64,
    events: Seq<EventModel>,
)
    requires
        events.len() > 0,
    ensures
        steps_after(targets, total, events).last() matches StepModel::Finish { done } ==> done
            == written(steps_after(targets, total, events)).len(),
{
    let before = events.drop_last();
    lemma_count(targets, total, before);
    assert(steps_after(targets, total, events).drop_last() == steps_after(targets, total, before));
}

/// The second pass writes what the first one planned: met again, the images of an archive are
/// written one for each target, in the order of the targets, to the same partitions and under the
/// same names.
pub proof fn law_second_pass_writes_what_was_planned(images: Seq<ArchiveImage>, pit: PitModel)
    ensures
        ({
            let targets = targets_of(images, pit);
            let met = targets_met(targets, names_of(images));
            &&& met.len() == targets.len()
            &&& forall|k: int|
                0 <= k < met.len() ==> {
                    &&& 0 <= (#[trigger] met[k]) < targets.len()
                    &&& targets[met[k]].name == targets[k].name
                    &&& targets[met[k]].entry == targets[k].entry
                }
        }),
{
    lemma_second_pass(images, pit, images.len() as int);
    assert(images.take(images.len() as int) == images);
}

/// The names of images.
pub open spec fn names_of(images: Seq<ArchiveImage>) -> Seq<Seq<char>> {
    Seq::new(images.len(), |i: int| images[i].name@)
}

proof fn lemma_run(targets: Seq<TargetModel>, total: i64, events: Seq<EventModel>)
    ensures
        steps_after(targets, total, events).len() == events.len(),
        events.len() > 0 ==> state_after(targets, total, events) != FlashState::Ready,
        (exists|i: int|
            0 <= i < events.len() && (#[trigger] steps_after(targets, total, events)[i]) is Fail)
            ==> state_after(targets, total, events) == FlashState::Ended,
        forall|i: int|
            0 <= i < events.len() && (#[trigger] steps_after(targets, total, events)[i]) is Announce
                ==> i == 0,
        events.len() > 0 && state_after(targets, total, events) != FlashState::Ended
            ==> steps_after(targets, total, events)[0] == (StepModel::Announce { total }),
        events.len() > 0 ==> steps_after(targets, total, events)[0] == (StepModel::Announce {
            total,
        }) || {
            &&& steps_after(targets, total, events)[0] is Fail || steps_after(
                targets,
                total,
                events,
            )[0] is Abort
            &&& state_after(targets, total, events) == FlashState::Ended
            &&& forall|i: int|
                0 < i < events.len() ==> (#[trigger] steps_after(targets, total, events)[i])
                    is Fail
        },
    decreases events.len(),
{
    if events.len() > 0 {
        let before = events.drop_last();
        lemma_run(targets, total, before);
        let steps = steps_after(targets, total, events);
        let earlier = steps_after(targets, total, before);
        assert(steps.drop_last() == earlier);
        assert forall|i: int| 0 <= i < before.len() implies #[trigger] steps[i] == earlier[i] by {}
        if exists|i: int| 0 <= i < events.len() && (#[trigger] steps[i]) is Fail {
            let i = choose|i: int| 0 <= i < events.len() && (#[trigger] steps[i]) is Fail;
            if i < before.len() {
                assert(earlier[i] is Fail);
            }
        }
    }
}

proof fn lemma_count(targets: Seq<TargetModel>, total: i64, events: Seq<EventModel>)
    ensures
        match state_after(targets, total, events) {
            FlashState::Ready => written(steps_after(targets, total, events)).len() == 0,
            FlashState::Announcing => written(steps_after(targets, total, events)).len() == 0,
            FlashState::Reading { done } => written(steps_after(targets, total, events)).len()
                == done,
            FlashState::Writing { done } => written(steps_after(targets, total, events)).len()
                == done + 1,
            FlashState::Ended => true,
        },
    decreases events.len(),
{
    if events.len() > 0 {
        let before = events.drop_last();
        lemma_count(targets, total, before);
        assert(steps_after(targets, total, events).drop_last() == steps_after(
            targets,
            total,
            before,
        ));
    }
}

proof fn lemma_target_for(targets: Seq<TargetModel>, name: Seq<char>, n: int)
    requires
        0 <= n <= targets.len(),
    ensures
        match last_target(targets, name, n) {
            Some(i) => 0 <= i < n && targets[i].name == name,
            None => forall|i: int| 0 <= i < n ==> (#[trigger] targets[i]).name != name,
        },
    decreases n,
{
    if n > 0 {
        lemma_target_for(targets, name, n - 1);
    }
}

/// A matched image has a target under its name.
proof fn lemma_has_target(images: Seq<ArchiveImage>, pit: PitModel, k: int)
    requires
        0 <= k < images.len(),
        image_index(pit.entries, images[k].name@) is Some,
    ensures
        exists|i: int|
            0 <= i < targets_of(images, pit).len() && (#[trigger] targets_of(images, pit)[i]).name
                == images[k].name@,
    decreases images.len(),
{
    let before = images.drop_last();
    let targets = targets_of(images, pit);
    if k < before.len() {
        assert(before[k] == images[k]);
        lemma_has_target(before, pit, k);
        let i = choose|i: int|
            0 <= i < targets_of(before, pit).len() && (#[trigger] targets_of(before, pit)[i]).name
                == images[k].name@;
        assert(targets[i] == targets_of(before, pit)[i]);
    } else {
        assert(targets[targets.len() - 1].name == images[k].name@);
    }
}

proof fn lemma_second_pass(images: Seq<ArchiveImage>, pit: PitModel, n: int)
    requires
        0 <= n <= images.len(),
    ensures
        ({
            let targets = targets_of(images, pit);
            let first = targets_of(images.take(n), pit);
            let met = targets_met(targets, names_of(images.take(n)));
            &&& met.len() == first.len()
            &&& forall|k: int|
                0 <= k < met.len() ==> {
                    &&& 0 <= (#[trigger] met[k]) < targets.len()
                    &&& targets[met[k]].name == first[k].name
                    &&& targets[met[k]].entry == first[k].entry
                }
        }),
    decreases n,
{
    let targets = targets_of(images, pit);
    if n > 0 {
        lemma_second_pass(images, pit, n - 1);
        let img = images[n - 1];
        assert(images.take(n).drop_last() == images.take(n - 1));
        assert(images.take(n).last() == img);
        let names = names_of(images.take(n));
        assert(names.drop_last() == names_of(images.take(n - 1)));
        assert(names.last() == img.name@);
        lemma_target_for(targets, img.name@, targets.len() as int);
        if image_index(pit.entries, img.name@) is Some {
            lemma_has_target(images, pit, n - 1);
        }
        if target_for(targets, img.name@) is Some {
            let k = target_for(targets, img.name@)->0;
            law_live_targets_are_the_planned_ones(images, pit, k);
        }
    }
}

/// Before an image is written, its number, the number of all, the partition, the image and its size are
/// shown; at the end, the number of those written, of all, and the total.
pub proof fn law_progress_is_shown(
    targets: Seq<TargetModel>,
    done: u64,
    target: int,
    total: i64,
)
    ensures
        contains_text(
            image_text(targets, done, target),
            "["@ + dec(done + 1) + "/"@ + dec(targets.len() as int) + "] "@
                + targets[target].entry.partition + " <= "@ + targets[target].name,
        ),
        contains_text(
            image_text(targets, done, target),
            "("@ + bytes_text(targets[target].size as int) + ")"@,
        ),
        contains_text(
            summary_text(done, targets.len(), total),
            dec(done as int) + "/"@ + dec(targets.len() as int) + " image(s), "@ + bytes_text(
                total as int,
            ) + " total"@,
        ),
{
    let t = targets[target];
    lemma_image_line(
        dec(done + 1),
        dec(targets.len() as int),
        t.entry.partition,
        t.name,
        bytes_text(t.size as int),
    );
    lemma_summary_line(dec(done as int), dec(targets.len() as int), bytes_text(total as int));
}

#[verifier::spinoff_prover]
proof fn lemma_image_line(
    number: Seq<char>,
    count: Seq<char>,
    partition: Seq<char>,
    name: Seq<char>,
    size: Seq<char>,
)
    ensures
        ({
            let line = "\n["@ + number + "/"@ + count + "] "@ + partition + " <= "@ + name + "  ("@
                + size + ")\n"@;
            &&& contains_text(
                line,
                "["@ + number + "/"@ + count + "] "@ + partition + " <= "@ + name,
            )
            &&& contains_text(line, "("@ + size + ")"@)
        }),
{
    let head = "["@ + number + "/"@ + count + "] "@ + partition + " <= "@ + name;
    let front = "\n["@ + number + "/"@ + count + "] "@ + partition + " <= "@ + name;
    let shown = "("@ + size + ")"@;
    assert(front =~= "\n"@ + head) by {
        assert("\n["@ == "\n"@ + "["@) by {
            reveal_strlit("\n[");
            reveal_strlit("\n");
            reveal_strlit("[");
        }
    }
    let line = front + "  ("@ + size + ")\n"@;
    assert(line =~= front + "  "@ + shown + "\n"@) by {
        assert("  ("@ == "  "@ + "("@) by {
            reveal_strlit("  (");
            reveal_strlit("  ");
            reveal_strlit("(");
        }
        assert(")\n"@ == ")"@ + "\n"@) by {
            reveal_strlit(")\n");
            reveal_strlit(")");
            reveal_strlit("\n");
        }
    }
    lemma_contains_more("\n"@, head, head);
    lemma_contains_more(front, "  "@, head);
    lemma_contains_more(front + "  "@, shown, head);
    lemma_contains_more(front + "  "@ + shown, "\n"@, head);
    lemma_contains_part(front + "  "@, shown, "\n"@);
}

#[verifier::spinoff_prover]
proof fn lemma_summary_line(done: Seq<char>, count: Seq<char>, total: Seq<char>)
    ensures
        contains_text(
            "\nFlashed "@ + done + "/"@ + count + " image(s), "@ + total + " total.\n"@,
            done + "/"@ + count + " image(s), "@ + total + " total"@,
        ),
{
    let figures = done + "/"@ + count + " image(s), "@ + total + " total"@;
    assert(" total.\n"@ == " total"@ + ".\n"@) by {
        reveal_strlit(" total.\n");
        reveal_strlit(" total");
        reveal_strlit(".\n");
    }
    lemma_contains_part("\nFlashed "@, figures, ".\n"@);
    assert("\nFlashed "@ + figures + ".\n"@ =~= "\nFlashed "@ + done + "/"@ + count + " image(s), "@
        + total + " total.\n"@);
}

} // verus!
