//! Destructive actions on a device, and how they end. An action that was not confirmed sends
//! nothing, and leaves the device as it is.

use vstd::prelude::*;
use vstd::string::StringExecFns;
use vstd::utf8::encode_utf8;

use crate::bytes::holds32;
use crate::command::{text_view, Finish};
use crate::odin::{
    ran_command, Odin, OdinError, OdinFault, DEFAULT_TIMEOUT_MS, ERASE_TIMEOUT_MS, REGION_SESSION,
};
use crate::pit::{
    law_cut_tables_are_refused, law_tables_are_read_back, law_wrong_magic_is_refused,
    pit_error_text, pit_of, table_stands, PitData, PitModel,
};
use crate::proto::{command_packet, command_packet_text, PACKET_LEN};
use crate::session::ran_finish;
use crate::transport::{Event, Transport};

verus! {

/// Whether an action was done, or why it failed, by content.
pub open spec fn deed(r: Result<bool, OdinError>) -> Result<bool, OdinFault> {
    match r {
        Ok(done) => Ok(done),
        Err(e) => Err(e@),
    }
}

/// What an action of one command does to a history: confirmed, it is the exchange of that command;
/// unconfirmed, it is nothing.
pub open spec fn acted(
    before: Seq<Event>,
    after: Seq<Event>,
    confirmed: bool,
    packet: Seq<u8>,
    ms: u64,
    r: Result<bool, OdinFault>,
) -> bool {
    if confirmed {
        match r {
            Ok(done) => done && ran_command(after, before.len() as int, packet, ms, Ok(())),
            Err(e) => ran_command(after, before.len() as int, packet, ms, Err(e)),
        }
    } else {
        after == before && r == Ok::<bool, OdinFault>(false)
    }
}

/// Wipe the userdata partition, if that was confirmed. Returns whether it was done.
pub fn factory_reset<T: Transport>(odin: &mut Odin<T>, confirmed: bool) -> (r: Result<
    bool,
    OdinError,
>)
    ensures
        Odin::only_talked(old(odin), final(odin)),
        acted(
            old(odin).history(),
            final(odin).history(),
            confirmed,
            command_packet(REGION_SESSION, 0x07),
            ERASE_TIMEOUT_MS,
            deed(r),
        ),
{
    if !confirmed {
        return Ok(false);
    }
    match odin.erase_user_data() {
        Ok(()) => Ok(true),
        Err(e) => Err(e),
    }
}

/// Set the region code, if that was confirmed. Returns whether it was done.
pub fn set_region<T: Transport>(odin: &mut Odin<T>, code: &str, confirmed: bool) -> (r: Result<
    bool,
    OdinError,
>)
    requires
        8 + encode_utf8(code@).len() <= PACKET_LEN,
    ensures
        Odin::only_talked(old(odin), final(odin)),
        acted(
            old(odin).history(),
            final(odin).history(),
            confirmed,
            command_packet_text(REGION_SESSION, 0x08, code@),
            DEFAULT_TIMEOUT_MS,
            deed(r),
        ),
{
    if !confirmed {
        return Ok(false);
    }
    match odin.set_region_code(code) {
        Ok(()) => Ok(true),
        Err(e) => Err(e),
    }
}

/// Make the flash that follows target an inserted microSD card, if that was asked for. Returns
/// whether it was done.
pub fn choose_storage<T: Transport>(odin: &mut Odin<T>, tflash: bool) -> (r: Result<
    bool,
    OdinError,
>)
    ensures
        Odin::only_talked(old(odin), final(odin)),
        acted(
            old(odin).history(),
            final(odin).history(),
            tflash,
            command_packet(REGION_SESSION, 0x08),
            DEFAULT_TIMEOUT_MS,
            deed(r),
        ),
{
    if !tflash {
        return Ok(false);
    }
    match odin.enable_tflash() {
        Ok(()) => Ok(true),
        Err(e) => Err(e),
    }
}

/// What is wrong with the content of a PIT file, if anything is.
pub open spec fn pit_file_complaint(file: Seq<char>, content: Seq<u8>) -> Option<Seq<char>> {
    match pit_of(content) {
        Ok(_) => None,
        Err(e) => Some(file + " isn't a valid PIT: "@ + pit_error_text(e)),
    }
}

/// Refuse a file that is not a PIT, before a device is touched. `None` where it is one.
pub fn check_pit_file(file: &str, content: &[u8]) -> (r: Option<String>)
    ensures
        text_view(r) == pit_file_complaint(file@, content@),
{
    match PitData::parse(content) {
        Ok(_) => None,
        Err(e) => {
            let mut m = String::from_str(file);
            m.append(" isn't a valid PIT: ");
            m.append(e.message().as_str());
            Some(m)
        },
    }
}

/// How to finish after an action.
pub open spec fn finish_of(done: bool, finish: Finish) -> Finish {
    if done {
        finish
    } else {
        Finish::Leave
    }
}

/// How to finish after an action: as was asked for if it was done, and otherwise by leaving the
/// device be.
pub fn finish_after(done: bool, finish: Finish) -> (r: Finish)
    ensures
        r == finish_of(done, finish),
{
    if done {
        finish
    } else {
        Finish::Leave
    }
}

/// An action that was not confirmed sends nothing, and neither does finishing after it, whatever
/// finish was asked for.
pub proof fn law_unconfirmed_sends_nothing(
    before: Seq<Event>,
    after: Seq<Event>,
    end: Seq<Event>,
    packet: Seq<u8>,
    ms: u64,
    r: Result<bool, OdinFault>,
    finish: Finish,
    text: Seq<char>,
    error: Option<OdinFault>,
)
    requires
        acted(before, after, false, packet, ms, r),
        after.is_prefix_of(end),
        ran_finish(end, after.len() as int, finish_of(r matches Ok(done) && done, finish), text, error),
    ensures
        end == before,
{
}

/// A file that holds a partition table as it is laid out is let through, and one that is cut off is
/// refused by name.
pub proof fn law_only_tables_are_let_through(
    file: Seq<char>,
    content: Seq<u8>,
    pit: PitModel,
    cut: int,
)
    requires
        table_stands(content, pit),
        pit.is_new_version <==> exists|i: int, j: int|
            0 <= i < pit.entries.len() && 0 <= j < pit.entries.len()
                && #[trigger] pit.entries[i].block_size != #[trigger] pit.entries[j].block_size,
        4 <= cut < 28 + 132 * pit.entries.len(),
        cut <= content.len(),
    ensures
        pit_file_complaint(file, content) is None,
        pit_file_complaint(file, content.take(cut)) matches Some(m) && file.is_prefix_of(m),
{
    law_tables_are_read_back(content, pit);
    law_cut_tables_are_refused(content, pit, cut);
}

/// A file that begins with another magic number than that of a partition table is refused by name.
pub proof fn law_other_files_are_refused(file: Seq<char>, content: Seq<u8>, magic: u32)
    requires
        holds32(content, 0, magic as int),
        magic != 0x1234_9876,
    ensures
        pit_file_complaint(file, content) matches Some(m) && file.is_prefix_of(m),
{
    law_wrong_magic_is_refused(content, magic);
}

} // verus!
