//! The guards in front of destructive actions.
//!
//! A guard is open only to `--yes`, or to a user who types the exact word it asks for. Input that
//! is not interactive cannot answer and is refused, so nothing destructive runs unattended
//! without `--yes`.

use vstd::prelude::*;
use vstd::string::StringExecFns;

use crate::command::{str_view, text_view};
use crate::progress::{is_critical, is_critical_partition};
use crate::text::{
    contains_text, is_space, law_trimming, lemma_contains_part, same_text, trim, trimmed,
};

verus! {

/// What stands between a request and its execution.
pub enum Guard {
    /// Nothing: confirmation was given in advance.
    Open,
    /// The request is refused, for this reason.
    Refused(String),
    /// The user is warned, if there is a warning, and asked.
    Ask { warning: Option<String>, prompt: String },
}

/// What stands between a request and its execution, by content.
pub enum GuardModel {
    Open,
    Refused(Seq<char>),
    Ask { warning: Option<Seq<char>>, prompt: Seq<char> },
}

impl View for Guard {
    type V = GuardModel;

    open spec fn view(&self) -> GuardModel {
        match self {
            Guard::Open => GuardModel::Open,
            Guard::Refused(m) => GuardModel::Refused(m@),
            Guard::Ask { warning, prompt } => GuardModel::Ask {
                warning: text_view(*warning),
                prompt: prompt@,
            },
        }
    }
}

/// The guard in front of an action that a word confirms.
pub open spec fn typed_guard(
    word: Seq<char>,
    warning: Option<Seq<char>>,
    assume_yes: bool,
    interactive: bool,
) -> GuardModel {
    if assume_yes {
        GuardModel::Open
    } else if !interactive {
        GuardModel::Refused(
            "refusing: input isn't interactive and --yes wasn't given, so the confirmation can't be answered"@,
        )
    } else {
        GuardModel::Ask {
            warning: match warning {
                Some(w) => Some("\nWARNING: "@ + w),
                None => None,
            },
            prompt: "\nType "@ + word + " to proceed (anything else aborts): "@,
        }
    }
}

/// Whether an answer is the word, but for whitespace around it. No answer is none.
pub open spec fn is_word(word: Seq<char>, answer: Option<Seq<char>>) -> bool {
    match answer {
        Some(a) => trimmed(a) == word,
        None => false,
    }
}

/// The guard in front of an action that the literal `word` confirms (case-sensitive).
pub fn confirm_typed(word: &str, warning: Option<&str>, assume_yes: bool, interactive: bool) -> (g:
    Guard)
    ensures
        g@ == typed_guard(word@, str_view(warning), assume_yes, interactive),
{
    if assume_yes {
        return Guard::Open;
    }
    if !interactive {
        return Guard::Refused(
            String::from_str(
                "refusing: input isn't interactive and --yes wasn't given, so the confirmation can't be answered",
            ),
        );
    }
    let shown = match warning {
        Some(w) => {
            let mut s = String::from_str("\nWARNING: ");
            s.append(w);
            Some(s)
        },
        None => None,
    };
    let mut prompt = String::from_str("\nType ");
    prompt.append(word);
    prompt.append(" to proceed (anything else aborts): ");
    Guard::Ask { warning: shown, prompt }
}

/// Whether an answer opens the guard of `word`.
pub fn typed_answer(word: &str, answer: Option<&str>) -> (r: bool)
    ensures
        r == is_word(word@, str_view(answer)),
{
    match answer {
        Some(a) => {
            let t = trim(a);
            same_text(t.as_str(), word)
        },
        None => false,
    }
}

/// The guard in front of overwriting a partition, which its name confirms.
pub open spec fn flash_guard(partition: Seq<char>, assume_yes: bool, interactive: bool) -> GuardModel {
    if assume_yes {
        GuardModel::Open
    } else if !interactive {
        GuardModel::Refused(
            "refusing to flash: input isn't interactive and --yes wasn't given, so the confirmation can't be answered"@,
        )
    } else {
        GuardModel::Ask {
            warning: if is_critical(partition) {
                Some(
                    "\nWARNING: "@ + partition
                        + " is a bootloader/critical partition — a bad flash here can HARD-BRICK the device."@,
                )
            } else {
                None
            },
            prompt: "\nType the partition name '"@ + partition
                + "' to flash it (anything else aborts): "@,
        }
    }
}

/// The guard in front of overwriting a partition. The user must type its exact name: a stronger
/// guard than y/n, for it forces naming what is about to be overwritten.
pub fn confirm_flash(partition: &str, assume_yes: bool, interactive: bool) -> (g: Guard)
    ensures
        g@ == flash_guard(partition@, assume_yes, interactive),
{
    if assume_yes {
        return Guard::Open;
    }
    if !interactive {
        return Guard::Refused(
            String::from_str(
                "refusing to flash: input isn't interactive and --yes wasn't given, so the confirmation can't be answered",
            ),
        );
    }
    let warning = if is_critical_partition(partition) {
        let mut s = String::from_str("\nWARNING: ");
        s.append(partition);
        s.append(
            " is a bootloader/critical partition — a bad flash here can HARD-BRICK the device.",
        );
        Some(s)
    } else {
        None
    };
    let mut prompt = String::from_str("\nType the partition name '");
    prompt.append(partition);
    prompt.append("' to flash it (anything else aborts): ");
    Guard::Ask { warning, prompt }
}

/// Whether an answer opens the guard of a partition: it is the partition's exact name.
pub fn flash_answer(partition: &str, answer: Option<&str>) -> (r: bool)
    ensures
        r == is_word(partition@, str_view(answer)),
{
    typed_answer(partition, answer)
}

/// The actions that a fixed word confirms.
#[derive(Debug, Clone, Copy, PartialEq, Eq, Structural)]
pub enum Action {
    /// Flash a whole archive, perhaps with a critical partition in it.
    FlashArchive { any_critical: bool },
    /// Wipe the userdata partition.
    FactoryReset,
    /// Set the region code.
    SetRegion,
    /// Repartition the device.
    FlashPit,
}

/// The word that confirms an action.
pub open spec fn action_word(a: Action) -> Seq<char> {
    match a {
        Action::FlashArchive { .. } => "FLASH"@,
        Action::FactoryReset => "ERASE"@,
        Action::SetRegion => "YES"@,
        Action::FlashPit => "FLASHPIT"@,
    }
}

/// The warning before an action.
pub open spec fn action_warning(a: Action) -> Option<Seq<char>> {
    match a {
        Action::FlashArchive { any_critical } => if any_critical {
            Some(
                "this archive includes a bootloader/critical partition — a bad flash here can HARD-BRICK the device."@,
            )
        } else {
            None
        },
        Action::FactoryReset => Some(
            "on a device with an unlocked bootloader this can trip Samsung's VaultKeeper, which re-locks the bootloader after /data is wiped until you finish setup online."@,
        ),
        Action::SetRegion => Some(
            "UNVERIFIED — 'set region' shares opcode 0x08 with T-Flash enable (likely a bug), so this may enable T-Flash rather than change the region."@,
        ),
        Action::FlashPit => Some(
            "a wrong or mismatched PIT repartitions the device and is a classic way to HARD-BRICK it. Only flash a PIT that exactly matches this device's firmware."@,
        ),
    }
}

impl Action {
    /// The word that confirms the action.
    pub fn word(&self) -> (s: &'static str)
        ensures
            s@ == action_word(*self),
    {
        match self {
            Action::FlashArchive { .. } => "FLASH",
            Action::FactoryReset => "ERASE",
            Action::SetRegion => "YES",
            Action::FlashPit => "FLASHPIT",
        }
    }

    /// The warning before the action.
    pub fn warning(&self) -> (s: Option<&'static str>)
        ensures
            str_view(s) == action_warning(*self),
    {
        match self {
            Action::FlashArchive { any_critical } => if *any_critical {
                Some(
                    "this archive includes a bootloader/critical partition — a bad flash here can HARD-BRICK the device.",
                )
            } else {
                None
            },
            Action::FactoryReset => Some(
                "on a device with an unlocked bootloader this can trip Samsung's VaultKeeper, which re-locks the bootloader after /data is wiped until you finish setup online.",
            ),
            Action::SetRegion => Some(
                "UNVERIFIED — 'set region' shares opcode 0x08 with T-Flash enable (likely a bug), so this may enable T-Flash rather than change the region.",
            ),
            Action::FlashPit => Some(
                "a wrong or mismatched PIT repartitions the device and is a classic way to HARD-BRICK it. Only flash a PIT that exactly matches this device's firmware.",
            ),
        }
    }

    /// The guard in front of the action.
    pub fn confirm(&self, assume_yes: bool, interactive: bool) -> (g: Guard)
        ensures
            g@ == typed_guard(action_word(*self), action_warning(*self), assume_yes, interactive),
    {
        confirm_typed(self.word(), self.warning(), assume_yes, interactive)
    }
}

/// Whether a guard lets a request through, given whether the answer to its question is right.
pub open spec fn passes(guard: GuardModel, right_answer: bool) -> bool {
    match guard {
        GuardModel::Open => true,
        GuardModel::Refused(_) => false,
        GuardModel::Ask { .. } => right_answer,
    }
}

/// Whether a guard lets a request through, given whether the answer to its question is right.
pub fn pass_guard(guard: &Guard, right_answer: bool) -> (r: bool)
    ensures
        r == passes(guard@, right_answer),
{
    match guard {
        Guard::Open => true,
        Guard::Refused(_) => false,
        Guard::Ask { .. } => right_answer,
    }
}

/// No action passes its guard without `--yes`, unless the input is interactive and its exact word
/// was typed.
pub proof fn law_typed_guard_holds(
    action: Action,
    assume_yes: bool,
    interactive: bool,
    answer: Option<Seq<char>>,
)
    ensures
        passes(
            typed_guard(action_word(action), action_warning(action), assume_yes, interactive),
            is_word(action_word(action), answer),
        ) <==> assume_yes || (interactive && (answer matches Some(a) && trimmed(a) == action_word(
            action,
        ))),
{
}

/// No partition is overwritten without `--yes`, unless the input is interactive and its name was
/// typed.
pub proof fn law_flash_guard_holds(
    partition: Seq<char>,
    assume_yes: bool,
    interactive: bool,
    answer: Option<Seq<char>>,
)
    ensures
        passes(
            flash_guard(partition, assume_yes, interactive),
            is_word(partition, answer),
        ) <==> assume_yes || (interactive && (answer matches Some(a) && trimmed(a) == partition)),
{
}

/// A question about a brick-prone partition comes with a warning.
pub proof fn law_critical_partitions_are_warned_about(partition: Seq<char>)
    ensures
        flash_guard(partition, false, true) matches GuardModel::Ask { warning, .. } && (
        warning is Some <==> is_critical(partition)),
{
}

/// The word that an action wants opens its guard, with any whitespace around it; the word in another
/// case, or with anything else, does not.
pub proof fn law_only_the_word_opens_a_guard(
    before: Seq<char>,
    typed: Seq<char>,
    after: Seq<char>,
    word: Seq<char>,
)
    requires
        forall|i: int| 0 <= i < before.len() ==> is_space(#[trigger] before[i]),
        forall|i: int| 0 <= i < after.len() ==> is_space(#[trigger] after[i]),
        typed.len() > 0 ==> !is_space(typed[0]) && !is_space(typed.last()),
    ensures
        is_word(word, Some(before + typed + after)) <==> typed == word,
        !is_word(word, None),
{
    law_trimming(before, typed, after);
}

/// A question names what has to be typed, and shows the warning where there is one. Where nobody can
/// answer it, the request is refused.
pub proof fn law_questions_name_the_word(word: Seq<char>, warning: Option<Seq<char>>)
    ensures
        typed_guard(word, warning, false, true) matches GuardModel::Ask { warning: shown, prompt } && {
            &&& contains_text(prompt, word)
            &&& warning matches Some(w) ==> (shown matches Some(s) && contains_text(s, w))
            &&& warning is None ==> shown is None
        },
        flash_guard(word, false, true) matches GuardModel::Ask { warning: shown, prompt } && {
            &&& contains_text(prompt, word)
            &&& shown matches Some(s) ==> contains_text(s, word)
        },
        typed_guard(word, warning, false, false) is Refused,
        flash_guard(word, false, false) is Refused,
{
    let none = Seq::<char>::empty();
    lemma_contains_part("\nType "@, word, " to proceed (anything else aborts): "@);
    lemma_contains_part(
        "\nType the partition name '"@,
        word,
        "' to flash it (anything else aborts): "@,
    );
    lemma_contains_part(
        "\nWARNING: "@,
        word,
        " is a bootloader/critical partition — a bad flash here can HARD-BRICK the device."@,
    );
    if let Some(w) = warning {
        lemma_contains_part("\nWARNING: "@, w, none);
        assert("\nWARNING: "@ + w + none == "\nWARNING: "@ + w);
    }
}

} // verus!
