//! How a session with a device is opened, kept supplied with its partition table, and closed.

use vstd::prelude::*;
use vstd::string::StringExecFns;

use crate::bytes::holds32;
use crate::command::Finish;
use crate::flash::FlashParams;
use crate::odin::{
    exchange_len, exchange_result, fault_bytes, is_exchange, law_handshake, lemma_exchange_kept,
    odin_fault_text, ran_begin, ran_dump, ran_handshake, sent_at, Odin, OdinError, OdinFault,
    Version, DEFAULT_TIMEOUT_MS, REGION_END,
};
use crate::pit::{pit_error_text, pit_of, PitData};
use crate::proto::{command_packet, law_packets_hold_their_numbers};
use crate::text::{
    contains_text, dec, dec_text, int_text, lemma_contains_more, lemma_contains_part,
    lemma_contains_within,
};
use crate::transport::{Event, Transport};

verus! {

/// What is shown when a session has begun.
pub open spec fn banner(v: Version) -> Seq<char> {
    "Odin session started (bootloader version "@ + dec(v.version as int) + ", unknown1="@ + dec(
        v.unknown1 as int,
    ) + ", unknown2="@ + dec(v.unknown2 as int) + ")\n"@ + (if v.unknown1 != 0 || v.unknown2 != 0 {
        "note: unknown1/unknown2 are non-zero — possible undiscovered capabilities\n"@
    } else {
        Seq::empty()
    })
}

/// The text of a failed handshake, with what to do about it.
pub open spec fn handshake_hint(e: OdinFault) -> Seq<char> {
    odin_fault_text(e)
        + "\nhint: if this timed out, reboot the device back into download mode — a Samsung download-mode connection can't be reused after a prior attempt"@
}

fn banner_text(v: &Version) -> (s: String)
    ensures
        s@ == banner(*v),
{
    let mut s = String::from_str("Odin session started (bootloader version ");
    s.append(int_text(v.version as i64).as_str());
    s.append(", unknown1=");
    s.append(dec_text(v.unknown1 as u64).as_str());
    s.append(", unknown2=");
    s.append(dec_text(v.unknown2 as u64).as_str());
    s.append(")\n");
    if v.unknown1 != 0 || v.unknown2 != 0 {
        s.append("note: unknown1/unknown2 are non-zero — possible undiscovered capabilities\n");
    } else {
        assert(s@ + Seq::<char>::empty() == s@);
    }
    s
}

/// A history from `from` on opens a session, and `r` is what it came to: a handshake, and if it
/// succeeds, the beginning of a session.
pub open spec fn opened(
    h: Seq<Event>,
    from: int,
    version: Option<Version>,
    r: Result<Seq<char>, Seq<char>>,
) -> bool {
    ||| exists|e: OdinFault| #[trigger]
        ran_handshake(h, from, Err(e)) && r == Err::<Seq<char>, Seq<char>>(handshake_hint(e))
    ||| {
        &&& ran_handshake(h.take(from + 2), from, Ok(()))
        &&& exists|e: OdinFault| #[trigger]
            ran_begin(h, from + 2, Err(e)) && r == Err::<Seq<char>, Seq<char>>(odin_fault_text(e))
    }
    ||| {
        &&& ran_handshake(h.take(from + 2), from, Ok(()))
        &&& version matches Some(v) && ran_begin(h, from + 2, Ok(v)) && r == Ok::<
            Seq<char>,
            Seq<char>,
        >(banner(v))
    }
}

/// Shake hands and begin a session. Returns what to show.
pub fn open_session<T: Transport>(odin: &mut Odin<T>) -> (r: Result<String, String>)
    ensures
        old(odin).history().is_prefix_of(final(odin).history()),
        opened(
            final(odin).history(),
            old(odin).history().len() as int,
            final(odin).known_version(),
            match r {
                Ok(s) => Ok(s@),
                Err(e) => Err(e@),
            },
        ),
        r is Ok ==> final(odin).wf(),
        r is Err ==> Odin::only_talked(old(odin), final(odin)),
{
    let ghost from = odin.history().len() as int;
    match odin.handshake() {
        Ok(()) => {},
        Err(e) => {
            let mut m = e.message();
            m.append(
                "\nhint: if this timed out, reboot the device back into download mode — a Samsung download-mode connection can't be reused after a prior attempt",
            );
            assert(ran_handshake(odin.history(), from, Err(e@)));
            return Err(m);
        },
    }
    let ghost mid = odin.history();
    let begun = odin.begin_session();
    proof {
        assert(odin.history().take(from + 2) == mid);
        assert(mid.len() == from + 2);
    }
    match begun {
        Ok(v) => Ok(banner_text(&v)),
        Err(e) => {
            assert(ran_begin(odin.history(), from + 2, Err(e@)));
            Err(e.message())
        },
    }
}

/// What was shown while a session ended, and what went wrong in the end, if anything did.
pub struct Finished {
    pub text: String,
    pub error: Option<OdinError>,
}

/// The error of a finish, by content.
pub open spec fn finish_fault(f: Finished) -> Option<OdinFault> {
    match f.error {
        Some(e) => Some(e@),
        None => None,
    }
}

/// What a command came to that only has to be acknowledged.
pub open spec fn command_fault(h: Seq<Event>, at: int) -> Option<OdinFault> {
    match exchange_result(h, at) {
        Ok(_) => None,
        Err(e) => Some(e),
    }
}

/// A history from `from` on ends a session.
///
/// A reboot first ends the session, whatever comes of that. Where the device cannot reboot into
/// download mode, it reboots normally. Where it cannot shut down, the session is ended.
pub open spec fn ran_finish(
    h: Seq<Event>,
    from: int,
    finish: Finish,
    text: Seq<char>,
    error: Option<OdinFault>,
) -> bool {
    let second = from + exchange_len(h, from);
    let third = second + exchange_len(h, second);
    match finish {
        Finish::Leave => {
            &&& h.len() == from
            &&& text == "(device left in download mode — `thor reboot` to exit)\n"@
            &&& error is None
        },
        Finish::RebootNormal => {
            &&& is_exchange(h, from, command_packet(REGION_END, 0x00), DEFAULT_TIMEOUT_MS)
            &&& is_exchange(h, second, command_packet(REGION_END, 0x01), DEFAULT_TIMEOUT_MS)
            &&& h.len() == third
            &&& error == command_fault(h, second)
            &&& text == if error is None {
                "Rebooting into normal mode.\n"@
            } else {
                Seq::empty()
            }
        },
        Finish::RebootDownload => {
            &&& is_exchange(h, from, command_packet(REGION_END, 0x00), DEFAULT_TIMEOUT_MS)
            &&& is_exchange(h, second, command_packet(REGION_END, 0x02), DEFAULT_TIMEOUT_MS)
            &&& if command_fault(h, second) is None {
                &&& h.len() == third
                &&& text == "Rebooting into download mode.\n"@
                &&& error is None
            } else {
                &&& is_exchange(h, third, command_packet(REGION_END, 0x01), DEFAULT_TIMEOUT_MS)
                &&& h.len() == third + exchange_len(h, third)
                &&& text
                    == "This device doesn't support reboot-to-download; doing a normal reboot.\n"@
                &&& error == command_fault(h, third)
            }
        },
        Finish::Shutdown => {
            &&& is_exchange(h, from, command_packet(REGION_END, 0x03), DEFAULT_TIMEOUT_MS)
            &&& if command_fault(h, from) is None {
                h.len() == second
            } else {
                &&& is_exchange(h, second, command_packet(REGION_END, 0x00), DEFAULT_TIMEOUT_MS)
                &&& h.len() == third
            }
            &&& text == "Device shutting down.\n"@
            &&& error is None
        },
    }
}

/// End a session and optionally reboot or shut down the device, so that it is not left stuck in
/// download mode.
pub fn finish_session<T: Transport>(odin: &mut Odin<T>, finish: Finish) -> (r: Finished)
    ensures
        Odin::only_talked(old(odin), final(odin)),
        ran_finish(
            final(odin).history(),
            old(odin).history().len() as int,
            finish,
            r.text@,
            finish_fault(r),
        ),
{
    let ghost from = odin.history().len() as int;
    match finish {
        Finish::Leave => Finished {
            text: String::from_str("(device left in download mode — `thor reboot` to exit)\n"),
            error: None,
        },
        Finish::RebootNormal => {
            let _ = odin.end_session();
            let ghost h1 = odin.history();
            let rebooted = odin.reboot();
            proof {
                lemma_exchange_kept(h1, odin.history(), from);
            }
            match rebooted {
                Ok(()) => Finished {
                    text: String::from_str("Rebooting into normal mode.\n"),
                    error: None,
                },
                Err(e) => Finished { text: String::new(), error: Some(e) },
            }
        },
        Finish::RebootDownload => {
            let _ = odin.end_session();
            let ghost h1 = odin.history();
            let rebooted = odin.reboot_to_odin();
            let ghost h2 = odin.history();
            proof {
                lemma_exchange_kept(h1, h2, from);
            }
            match rebooted {
                Ok(()) => Finished {
                    text: String::from_str("Rebooting into download mode.\n"),
                    error: None,
                },
                Err(_) => {
                    let text = String::from_str(
                        "This device doesn't support reboot-to-download; doing a normal reboot.\n",
                    );
                    let again = odin.reboot();
                    proof {
                        lemma_exchange_kept(h2, odin.history(), from);
                        lemma_exchange_kept(h2, odin.history(), h1.len() as int);
                    }
                    match again {
                        Ok(()) => Finished { text, error: None },
                        Err(e) => Finished { text, error: Some(e) },
                    }
                },
            }
        },
        Finish::Shutdown => {
            let down = odin.shutdown();
            let ghost h1 = odin.history();
            if down.is_err() {
                let _ = odin.end_session();
                proof {
                    lemma_exchange_kept(h1, odin.history(), from);
                }
            }
            Finished { text: String::from_str("Device shutting down.\n"), error: None }
        },
    }
}

/// Dump the device's partition table and parse it.
pub open spec fn table_of(dump: Result<Seq<u8>, OdinFault>) -> Result<
    crate::pit::PitModel,
    Seq<char>,
> {
    match dump {
        Err(e) => Err(odin_fault_text(e)),
        Ok(bytes) => match pit_of(bytes) {
            Ok(pit) => Ok(pit),
            Err(e) => Err(pit_error_text(e)),
        },
    }
}

/// A partition table or an error text, by content.
pub open spec fn table_result(r: Result<PitData, String>) -> Result<
    crate::pit::PitModel,
    Seq<char>,
> {
    match r {
        Ok(pit) => Ok(pit@),
        Err(e) => Err(e@),
    }
}

/// Dump the device's partition table and parse it.
pub fn read_table<T: Transport>(odin: &mut Odin<T>) -> (r: Result<PitData, String>)
    ensures
        Odin::only_talked(old(odin), final(odin)),
        exists|dump: Result<Seq<u8>, OdinFault>| #[trigger]
            ran_dump::<T>(final(odin).history(), old(odin).history().len() as int, dump) && table_result(
                r,
            ) == table_of(dump),
{
    let dump = odin.dump_pit();
    let ghost seen = fault_bytes(dump);
    let r = match dump {
        Ok(bytes) => match PitData::parse(bytes.as_slice()) {
            Ok(pit) => Ok(pit),
            Err(e) => Err(e.message()),
        },
        Err(e) => Err(e.message()),
    };
    assert(table_result(r) == table_of(seen));
    r
}

/// Get the session's partition table into the cache, dumping it on first use. A table that is
/// there already is kept, and nothing goes over the wire.
pub fn session_table<T: Transport>(odin: &mut Odin<T>, cache: &mut Option<PitData>) -> (r: Result<
    (),
    String,
>)
    ensures
        Odin::only_talked(old(odin), final(odin)),
        *old(cache) is Some ==> {
            &&& r is Ok
            &&& *final(cache) == *old(cache)
            &&& final(odin).history() == old(odin).history()
        },
        *old(cache) is None ==> exists|dump: Result<Seq<u8>, OdinFault>| #[trigger]
            ran_dump::<T>(final(odin).history(), old(odin).history().len() as int, dump) && match table_of(
                dump,
            ) {
                Ok(table) => r is Ok && (*final(cache) matches Some(pit) && pit@ == table),
                Err(m) => (r matches Err(e) && e@ == m) && *final(cache) is None,
            },
{
    if cache.is_some() {
        return Ok(());
    }
    match read_table(odin) {
        Ok(pit) => {
            *cache = Some(pit);
            Ok(())
        },
        Err(e) => Err(e),
    }
}

/// The flash parameters of a session that has begun.
pub fn session_params<T: Transport>(odin: &Odin<T>) -> (r: Result<FlashParams, String>)
    ensures
        match odin.known_params() {
            Some(p) => r == Ok::<FlashParams, String>(p),
            None => r matches Err(e) && e@ == "session has no flash params"@,
        },
{
    match odin.params() {
        Some(p) => Ok(p),
        None => Err(String::from_str("session has no flash params")),
    }
}

/// Leaving a device as it is sends nothing to it.
pub proof fn law_leaving_sends_nothing(
    h: Seq<Event>,
    from: int,
    text: Seq<char>,
    error: Option<OdinFault>,
)
    requires
        ran_finish(h, from, Finish::Leave, text, error),
    ensures
        h.len() == from,
        error is None,
{
}

/// However a session is finished, what goes over the wire are the four commands that end one and
/// their acknowledgements.
pub proof fn law_finish_only_ends(
    h: Seq<Event>,
    from: int,
    finish: Finish,
    text: Seq<char>,
    error: Option<OdinFault>,
    i: int,
)
    requires
        0 <= from <= i < h.len(),
        ran_finish(h, from, finish, text, error),
        h[i] is Write,
    ensures
        exists|sub: i32| 0 <= sub <= 3 && h[i]->data == #[trigger] command_packet(REGION_END, sub),
{
}

/// Whether a message is a packet of region `0x67` with the sub-command `sub` and nothing else.
pub open spec fn is_end_command(data: Seq<u8>, sub: int) -> bool {
    &&& data.len() == 1024
    &&& holds32(data, 0, 0x67)
    &&& holds32(data, 4, sub)
    &&& forall|i: int| 8 <= i < 1024 ==> data[i] == 0
}

/// Whether the exchange that begins at `at` was acknowledged: the message went out, and the answer is
/// eight bytes that do not begin with `0xFF`.
pub open spec fn acknowledged_at(h: Seq<Event>, at: int) -> bool {
    &&& h[at] matches Event::Write { outcome: Ok(_), .. }
    &&& h[at + 1] matches Event::Read { reply: Ok(b), .. } && b.len() == 8 && b[0] != 0xFF
}

/// A reboot ends the session and then reboots: sub-commands 0 and 1. It fails exactly where the second
/// is not acknowledged.
pub proof fn law_reboot_ends_the_session_first(
    h: Seq<Event>,
    from: int,
    text: Seq<char>,
    error: Option<OdinFault>,
)
    requires
        0 <= from,
        ran_finish(h, from, Finish::RebootNormal, text, error),
    ensures
        is_end_command(sent_at(h, from), 0),
        ({
            let second = if h[from] matches Event::Write { outcome: Ok(_), .. } {
                from + 2
            } else {
                from + 1
            };
            &&& is_end_command(sent_at(h, second), 1)
            &&& h.len() <= second + 2
            &&& error is None <==> acknowledged_at(h, second)
        }),
{
    law_packets_hold_their_numbers(0x67, 0, 0, 0);
    law_packets_hold_their_numbers(0x67, 1, 0, 0);
}

/// A reboot into download mode ends the session and then asks for it: sub-commands 0 and 2. Only where
/// that is not acknowledged, a normal reboot follows: sub-command 1.
pub proof fn law_download_reboot_falls_back(
    h: Seq<Event>,
    from: int,
    text: Seq<char>,
    error: Option<OdinFault>,
)
    requires
        0 <= from,
        ran_finish(h, from, Finish::RebootDownload, text, error),
    ensures
        is_end_command(sent_at(h, from), 0),
        ({
            let second = if h[from] matches Event::Write { outcome: Ok(_), .. } {
                from + 2
            } else {
                from + 1
            };
            let third = if h[second] matches Event::Write { outcome: Ok(_), .. } {
                second + 2
            } else {
                second + 1
            };
            &&& is_end_command(sent_at(h, second), 2)
            &&& acknowledged_at(h, second) ==> h.len() == third && error is None
            &&& !acknowledged_at(h, second) ==> is_end_command(sent_at(h, third), 1) && h.len()
                <= third + 2 && (error is None <==> acknowledged_at(h, third))
        }),
{
    law_packets_hold_their_numbers(0x67, 0, 0, 0);
    law_packets_hold_their_numbers(0x67, 1, 0, 0);
    law_packets_hold_their_numbers(0x67, 2, 0, 0);
}

/// A shutdown is asked for by sub-command 3; only where that is not acknowledged, the session is ended:
/// sub-command 0. Neither outcome is an error.
pub proof fn law_shutdown_falls_back(
    h: Seq<Event>,
    from: int,
    text: Seq<char>,
    error: Option<OdinFault>,
)
    requires
        0 <= from,
        ran_finish(h, from, Finish::Shutdown, text, error),
    ensures
        error is None,
        is_end_command(sent_at(h, from), 3),
        ({
            let second = if h[from] matches Event::Write { outcome: Ok(_), .. } {
                from + 2
            } else {
                from + 1
            };
            &&& acknowledged_at(h, from) ==> h.len() == second
            &&& !acknowledged_at(h, from) ==> is_end_command(sent_at(h, second), 0)
        }),
{
    law_packets_hold_their_numbers(0x67, 0, 0, 0);
    law_packets_hold_their_numbers(0x67, 3, 0, 0);
}

/// What is shown of a session that has begun are the three numbers of the device's answer, and a note
/// where one of the other two is not zero.
#[verifier::spinoff_prover]
pub proof fn law_banner_shows_the_version(v: Version)
    ensures
        contains_text(
            banner(v),
            "(bootloader version "@ + dec(v.version as int) + ", unknown1="@ + dec(
                v.unknown1 as int,
            ) + ", unknown2="@ + dec(v.unknown2 as int) + ")"@,
        ),
        v.unknown1 != 0 || v.unknown2 != 0 ==> contains_text(
            banner(v),
            "possible undiscovered capabilities"@,
        ),
        v.unknown1 == 0 && v.unknown2 == 0 ==> banner(v)
            == "Odin session started (bootloader version "@ + dec(v.version as int) + ", unknown1="@
            + dec(0) + ", unknown2="@ + dec(0) + ")\n"@,
{
    let (a, b, c) = (dec(v.version as int), dec(v.unknown1 as int), dec(v.unknown2 as int));
    let none = Seq::<char>::empty();
    let line = "Odin session started (bootloader version "@ + a + ", unknown1="@ + b + ", unknown2="@
        + c + ")\n"@;
    let figures = "(bootloader version "@ + a + ", unknown1="@ + b + ", unknown2="@ + c + ")"@;
    assert(line == "Odin session started "@ + figures + "\n"@) by {
        reveal_strlit("Odin session started (bootloader version ");
        reveal_strlit("Odin session started ");
        reveal_strlit("(bootloader version ");
        reveal_strlit(")\n");
        reveal_strlit(")");
        reveal_strlit("\n");
        assert("Odin session started (bootloader version "@ == "Odin session started "@
            + "(bootloader version "@);
        assert(")\n"@ == ")"@ + "\n"@);
    }
    lemma_contains_part("Odin session started "@, figures, "\n"@);
    if v.unknown1 != 0 || v.unknown2 != 0 {
        let note = "note: unknown1/unknown2 are non-zero — possible undiscovered capabilities\n"@;
        let (x, y) = ("note: unknown1/unknown2 are non-zero — "@, "possible undiscovered capabilities"@);
        assert(note == x + y + "\n"@) by {
            reveal_strlit(
                "note: unknown1/unknown2 are non-zero — possible undiscovered capabilities\n",
            );
            reveal_strlit("note: unknown1/unknown2 are non-zero — ");
            reveal_strlit("possible undiscovered capabilities");
            reveal_strlit("\n");
        }
        lemma_contains_part(x, y, "\n"@);
        lemma_contains_within(line, note, none, y);
        assert(line + note + none == line + note);
        lemma_contains_more(line, note, figures);
    } else {
        assert(line + none == line);
        lemma_contains_more(line, none, figures);
    }
}

/// A session that was opened began with `ODIN` and the answer `LOKE`, and what is shown is the version
/// that the device sent then.
pub proof fn law_opened_sessions_were_greeted(
    h: Seq<Event>,
    from: int,
    version: Option<Version>,
    text: Seq<char>,
)
    requires
        0 <= from,
        opened(h, from, version, Ok(text)),
    ensures
        sent_at(h, from) == seq![0x4Fu8, 0x44, 0x49, 0x4E],
        h[from + 1] matches Event::Read { reply: Ok(b), .. } && b == seq![
            0x4Cu8,
            0x4F,
            0x4B,
            0x45,
        ],
        version matches Some(v) && text == banner(v) && ran_begin(h, from + 2, Ok(v)),
{
    let greeted = h.take(from + 2);
    law_handshake(greeted, from, Ok(()));
    assert(h[from] == greeted[from] && h[from + 1] == greeted[from + 1]);
}

} // verus!
