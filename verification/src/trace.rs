//! Wire tracing: a debug view of the raw USB traffic.
//!
//! A [`Trace`] is the switch. While it is on, every bulk write and read has a line of text: an
//! outgoing command decoded to its Odin region and sub-command name, with a short hex preview.

use vstd::prelude::*;
use vstd::string::StringExecFns;

use crate::bytes::{
    holds32, i32_at, law_signed_32_bits_are_read_back, pattern, read_u32, same_bytes, to_signed32,
    to_unsigned32, unsigned32,
};
use crate::odin::ODIN;
use crate::text::{
    dec, dec_text, hex, hex_text, hex_upper, is_digits, join, joined,
    law_leading_zeros_count_nothing, law_padded_hex_stands_for_its_number, number_of, numeral,
    pad_left, padded_left, views,
};

verus! {

/// How many bytes a trace line shows.
pub const PREVIEW: usize = 12;

/// Whether wire tracing is on.
#[derive(Debug, Clone, Copy, PartialEq, Eq, Structural)]
pub struct Trace {
    pub on: bool,
}

impl Trace {
    /// A switch that is off.
    pub fn new() -> (t: Self)
        ensures
            !t.on,
    {
        Trace { on: false }
    }
}

impl Default for Trace {
    fn default() -> (t: Self)
        ensures
            !t.on,
    {
        Trace { on: false }
    }
}

/// Turn wire tracing on or off.
pub fn set_trace(trace: &mut Trace, on: bool)
    ensures
        final(trace).on == on,
{
    trace.on = on;
}

/// Whether wire tracing is currently on.
pub fn trace_enabled(trace: &Trace) -> (r: bool)
    ensures
        r == trace.on,
{
    trace.on
}

/// The text of a trace line, where tracing is on.
pub open spec fn text_of_line(r: Option<String>) -> Option<Seq<char>> {
    match r {
        Some(s) => Some(s@),
        None => None,
    }
}

/// The line of an outgoing write.
pub open spec fn write_line(data: Seq<u8>) -> Seq<char> {
    "→ "@ + command_text(data) + "   "@ + preview(data, PREVIEW as int)
}

/// The line of an incoming read.
pub open spec fn read_line(data: Seq<u8>) -> Seq<char> {
    "← "@ + dec(data.len() as int) + "B   "@ + preview(data, PREVIEW as int)
}

/// The line for an outgoing write, or `None` unless tracing is on.
pub fn log_write(trace: &Trace, data: &[u8]) -> (r: Option<String>)
    ensures
        text_of_line(r) == if trace.on {
            Some(write_line(data@))
        } else {
            None
        },
{
    if trace_enabled(trace) {
        let mut s = String::from_str("→ ");
        s.append(describe_command(data).as_str());
        s.append("   ");
        s.append(hex_preview(data, PREVIEW).as_str());
        Some(s)
    } else {
        None
    }
}

/// The line for an incoming read, or `None` unless tracing is on.
pub fn log_read(trace: &Trace, data: &[u8]) -> (r: Option<String>)
    ensures
        text_of_line(r) == if trace.on {
            Some(read_line(data@))
        } else {
            None
        },
{
    if trace_enabled(trace) {
        let mut s = String::from_str("← ");
        s.append(dec_text(data.len() as u64).as_str());
        s.append("B   ");
        s.append(hex_preview(data, PREVIEW).as_str());
        Some(s)
    } else {
        None
    }
}

/// The bytes of `data` in hex, two digits each.
pub open spec fn hex_pairs(data: Seq<u8>) -> Seq<Seq<char>> {
    Seq::new(data.len(), |i: int| pad_left(hex(data[i] as nat), 2, '0'))
}

/// Up to `max` bytes in hex with blanks between, and an ellipsis if there are more.
pub open spec fn preview(data: Seq<u8>, max: int) -> Seq<char> {
    if data.len() > max {
        joined(hex_pairs(data.take(max)), " "@) + " …"@
    } else {
        joined(hex_pairs(data), " "@)
    }
}

/// A compact hex preview of up to `max` bytes, with `…` if there are more.
pub fn hex_preview(data: &[u8], max: usize) -> (s: String)
    ensures
        s@ == preview(data@, max as int),
{
    let n: usize = if data.len() < max {
        data.len()
    } else {
        max
    };
    let mut pairs: Vec<String> = Vec::new();
    let mut i: usize = 0;
    while i < n
        invariant
            i <= n <= data@.len(),
            pairs@.len() == i,
            forall|j: int|
                0 <= j < i ==> (#[trigger] pairs@[j])@ == pad_left(hex(data@[j] as nat), 2, '0'),
        decreases n - i,
    {
        let digits = hex_text(data[i] as u64, false);
        pairs.push(padded_left(digits.as_str(), 2, '0'));
        i = i + 1;
    }
    let mut s = join(&pairs, " ");
    assert(views(pairs@) == hex_pairs(data@.take(n as int)));
    if data.len() > max {
        s.append(" …");
    } else {
        assert(data@.take(n as int) == data@);
    }
    s
}

/// The known name for an Odin region and sub-command, or `"?"`.
pub open spec fn name_of(region: i32, sub: i32) -> Seq<char> {
    if region == 0x64 {
        if sub == 0x00 {
            "BeginSession"@
        } else if sub == 0x01 {
            "ResetFlashCount"@
        } else if sub == 0x02 {
            "SetTotalBytes"@
        } else if sub == 0x05 {
            "SendFilePartSize"@
        } else if sub == 0x07 {
            "EraseUserData"@
        } else if sub == 0x08 {
            "EnableTFlash/SetRegion"@
        } else {
            "?"@
        }
    } else if region == 0x65 {
        if sub == 0x00 {
            "FlashPitRequest"@
        } else if sub == 0x01 {
            "DumpPitRequest"@
        } else if sub == 0x02 {
            "PitBlock"@
        } else if sub == 0x03 {
            "PitEnd"@
        } else {
            "?"@
        }
    } else if region == 0x66 {
        if sub == 0x00 {
            "RequestFileFlash"@
        } else if sub == 0x02 {
            "RequestSequence"@
        } else if sub == 0x03 {
            "EndSequence"@
        } else {
            "?"@
        }
    } else if region == 0x67 {
        if sub == 0x00 {
            "EndSession"@
        } else if sub == 0x01 {
            "Reboot"@
        } else if sub == 0x02 {
            "RebootToOdin"@
        } else if sub == 0x03 {
            "Shutdown"@
        } else {
            "?"@
        }
    } else {
        "?"@
    }
}

/// The known name for an Odin region and sub-command, or `"?"`.
pub fn command_name(region: i32, sub: i32) -> (s: &'static str)
    ensures
        s@ == name_of(region, sub),
{
    match (region, sub) {
        (0x64, 0x00) => "BeginSession",
        (0x64, 0x01) => "ResetFlashCount",
        (0x64, 0x02) => "SetTotalBytes",
        (0x64, 0x05) => "SendFilePartSize",
        (0x64, 0x07) => "EraseUserData",
        (0x64, 0x08) => "EnableTFlash/SetRegion",
        (0x65, 0x00) => "FlashPitRequest",
        (0x65, 0x01) => "DumpPitRequest",
        (0x65, 0x02) => "PitBlock",
        (0x65, 0x03) => "PitEnd",
        (0x66, 0x00) => "RequestFileFlash",
        (0x66, 0x02) => "RequestSequence",
        (0x66, 0x03) => "EndSequence",
        (0x67, 0x00) => "EndSession",
        (0x67, 0x01) => "Reboot",
        (0x67, 0x02) => "RebootToOdin",
        (0x67, 0x03) => "Shutdown",
        _ => "?",
    }
}

/// The hex of a signed number's 32 bits, of two digits at least.
pub open spec fn field_hex(v: i32) -> Seq<char> {
    pad_left(hex_upper(unsigned32(v) as nat), 2, '0')
}

/// What an outgoing buffer is, in words: the handshake, a command with its numbers and its name,
/// or just a length.
pub open spec fn command_text(data: Seq<u8>) -> Seq<char> {
    if data == ODIN@ {
        "ODIN (handshake) [4B]"@
    } else if data.len() < 8 {
        "["@ + dec(data.len() as int) + "B]"@
    } else {
        name_of(i32_at(data, 0), i32_at(data, 4)) + " (region=0x"@ + field_hex(i32_at(data, 0))
            + " sub=0x"@ + field_hex(i32_at(data, 4)) + ") ["@ + dec(data.len() as int) + "B]"@
    }
}

/// Decode an outgoing buffer into a human label: the ODIN handshake, or an Odin command's
/// region/sub-command with its known name. Falls back to just the length.
pub fn describe_command(data: &[u8]) -> (s: String)
    ensures
        s@ == command_text(data@),
{
    if same_bytes(data, &ODIN) {
        return String::from_str("ODIN (handshake) [4B]");
    }
    let length = dec_text(data.len() as u64);
    if data.len() < 8 {
        let mut s = String::from_str("[");
        s.append(length.as_str());
        s.append("B]");
        return s;
    }
    let region: i32 = to_signed32(read_u32(data, 0));
    let sub: i32 = to_signed32(read_u32(data, 4));
    let region_hex = hex_text(to_unsigned32(region) as u64, true);
    let sub_hex = hex_text(to_unsigned32(sub) as u64, true);
    let mut s = String::from_str(command_name(region, sub));
    s.append(" (region=0x");
    s.append(padded_left(region_hex.as_str(), 2, '0').as_str());
    s.append(" sub=0x");
    s.append(padded_left(sub_hex.as_str(), 2, '0').as_str());
    s.append(") [");
    s.append(length.as_str());
    s.append("B]");
    s
}

/// Whether two characters are the hex digits of a byte.
pub open spec fn byte_stands(s: Seq<char>, at: int, b: u8) -> bool {
    &&& 0 <= at && at + 2 <= s.len()
    &&& is_digits(s.subrange(at, at + 2), 16, false)
    &&& number_of(s.subrange(at, at + 2), 16) == b
}

/// A preview shows each of the first `max` bytes by its two hex digits, with a blank between them,
/// and an ellipsis where there are more.
#[verifier::spinoff_prover]
pub proof fn law_preview_shows_the_first_bytes(data: Seq<u8>, max: int, i: int)
    requires
        0 < max,
        0 <= i < data.len(),
        i < max,
    ensures
        ({
            let n: int = if data.len() > max {
                max
            } else {
                data.len() as int
            };
            let s = preview(data, max);
            &&& byte_stands(s, 3 * i, data[i])
            &&& i + 1 < n ==> s[3 * i + 2] == ' '
            &&& data.len() <= max ==> s.len() == 3 * n - 1
            &&& data.len() > max ==> s.len() == 3 * n + 1 && s[3 * n - 1] == ' ' && s[3 * n] == '…'
        }),
{
    let shown = if data.len() > max {
        data.take(max)
    } else {
        data
    };
    reveal_strlit(" …");
    lemma_pairs(shown, i);
    let s = preview(data, max);
    let pairs = joined(hex_pairs(shown), " "@);
    assert(s.subrange(3 * i, 3 * i + 2) == pairs.subrange(3 * i, 3 * i + 2));
}

#[verifier::spinoff_prover]
proof fn lemma_pairs(data: Seq<u8>, i: int)
    requires
        0 <= i < data.len(),
    ensures
        ({
            let s = joined(hex_pairs(data), " "@);
            &&& s.len() == 3 * data.len() - 1
            &&& byte_stands(s, 3 * i, data[i])
            &&& i + 1 < data.len() ==> s[3 * i + 2] == ' '
        }),
    decreases data.len(),
{
    reveal_strlit(" ");
    let pairs = hex_pairs(data);
    let s = joined(pairs, " "@);
    let b = data.last();
    let last = pairs.last();
    let n = data.len() as int;
    law_padded_hex_stands_for_its_number(b as nat, 2, false);
    lemma_two_digits(b);
    assert(last.len() == 2);
    if n == 1 {
        assert(s == last);
        assert(s.subrange(0, 2) == last);
    } else {
        let before = data.drop_last();
        let front = joined(hex_pairs(before), " "@);
        assert(pairs.drop_last() == hex_pairs(before));
        assert(s == front + " "@ + last);
        if i < n - 1 {
            lemma_pairs(before, i);
            assert(s.subrange(3 * i, 3 * i + 2) == front.subrange(3 * i, 3 * i + 2));
            assert(i + 1 < n - 1 ==> s[3 * i + 2] == front[3 * i + 2]);
        } else {
            lemma_pairs(before, 0);
            assert(s.subrange(3 * i, 3 * i + 2) == last);
        }
    }
}

proof fn lemma_two_digits(b: u8)
    ensures
        pad_left(hex(b as nat), 2, '0').len() == 2,
{
    let n = b as nat;
    law_leading_zeros_count_nothing(hex(n), 2, 16);
    reveal_with_fuel(numeral, 3);
}

/// A command is described by the region and the sub-command that its first eight bytes hold, with
/// their name and both numbers in hex, and by its length.
pub proof fn law_commands_are_described(data: Seq<u8>, region: i32, sub: i32)
    requires
        data.len() >= 8,
        holds32(data, 0, pattern(region as int, 0x1_0000_0000)),
        holds32(data, 4, pattern(sub as int, 0x1_0000_0000)),
    ensures
        exists|a: Seq<char>, b: Seq<char>|
            {
                &&& #[trigger] number_of(a, 16) == pattern(region as int, 0x1_0000_0000)
                &&& #[trigger] number_of(b, 16) == pattern(sub as int, 0x1_0000_0000)
                &&& a.len() >= 2 && is_digits(a, 16, true)
                &&& b.len() >= 2 && is_digits(b, 16, true)
                &&& command_text(data) == name_of(region, sub) + " (region=0x"@ + a + " sub=0x"@ + b
                    + ") ["@ + dec(data.len() as int) + "B]"@
            },
{
    law_signed_32_bits_are_read_back(data, 0, region);
    law_signed_32_bits_are_read_back(data, 4, sub);
    assert(data != ODIN@) by {
        assert(ODIN@.len() == 4);
    }
    let (a, b) = (field_hex(region), field_hex(sub));
    law_padded_hex_stands_for_its_number(unsigned32(region) as nat, 2, true);
    law_padded_hex_stands_for_its_number(unsigned32(sub) as nat, 2, true);
    assert(number_of(a, 16) == pattern(region as int, 0x1_0000_0000));
    assert(number_of(b, 16) == pattern(sub as int, 0x1_0000_0000));
}

/// A trace line shows up to twelve bytes of what was transferred, and an incoming one its length.
pub proof fn law_trace_lines(data: Seq<u8>)
    ensures
        write_line(data) == "→ "@ + command_text(data) + "   "@ + preview(data, 12),
        read_line(data) == "← "@ + dec(data.len() as int) + "B   "@ + preview(data, 12),
        data.len() < 8 && data != seq![0x4Fu8, 0x44, 0x49, 0x4E] ==> command_text(data) == "["@
            + dec(data.len() as int) + "B]"@,
{
    assert(ODIN@ == seq![0x4Fu8, 0x44, 0x49, 0x4E]);
}

/// What the commands of the four regions are called.
pub proof fn law_commands_have_their_names(sub: i32, region: i32)
    ensures
        name_of(0x64, sub) == match sub {
            0 => "BeginSession"@,
            1 => "ResetFlashCount"@,
            2 => "SetTotalBytes"@,
            5 => "SendFilePartSize"@,
            7 => "EraseUserData"@,
            8 => "EnableTFlash/SetRegion"@,
            _ => "?"@,
        },
        name_of(0x65, sub) == match sub {
            0 => "FlashPitRequest"@,
            1 => "DumpPitRequest"@,
            2 => "PitBlock"@,
            3 => "PitEnd"@,
            _ => "?"@,
        },
        name_of(0x66, sub) == match sub {
            0 => "RequestFileFlash"@,
            2 => "RequestSequence"@,
            3 => "EndSequence"@,
            _ => "?"@,
        },
        name_of(0x67, sub) == match sub {
            0 => "EndSession"@,
            1 => "Reboot"@,
            2 => "RebootToOdin"@,
            3 => "Shutdown"@,
            _ => "?"@,
        },
        region < 0x64 || region > 0x67 ==> name_of(region, sub) == "?"@,
{
}

} // verus!
