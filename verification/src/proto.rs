//! The fixed 1024-byte command packets, and reading integers back out of replies.
//!
//! Every Odin command is a 1024-byte buffer whose first i32 is a *region* and whose second is a
//! *sub-command*, with arguments packed after byte 8, all little-endian. Replies are short
//! (usually 8 bytes) and carry a return value at bytes 4..8.

use vstd::arithmetic::div_mod::lemma_div_denominator;
use vstd::prelude::*;
use vstd::utf8::{encode_utf8, is_ascii_chars, is_ascii_chars_encode_utf8};

use crate::bytes::{
    byte_of, holds32, holds64, i32_at, law_32_bits_are_read_back, le_bytes, lemma_i32_round_trip,
    pattern, read_u32, to_signed32, to_unsigned32, u32_at,
};

verus! {

/// The fixed size of every Odin command packet.
pub const PACKET_LEN: usize = 1024;

/// A builder for a single command packet.
#[derive(Clone)]
pub struct Packet {
    buf: [u8; 1024],
}

impl View for Packet {
    type V = Seq<u8>;

    closed spec fn view(&self) -> Seq<u8> {
        self.buf@
    }
}

/// `s` with `part` written over it from `offset` on.
pub open spec fn written(s: Seq<u8>, offset: int, part: Seq<u8>) -> Seq<u8> {
    Seq::new(
        s.len(),
        |i: int|
            if offset <= i < offset + part.len() {
                part[i - offset]
            } else {
                s[i]
            },
    )
}

/// A packet of zeros.
pub open spec fn blank_packet() -> Seq<u8> {
    Seq::new(1024, |i: int| 0u8)
}

/// The packet of a command: `region` at offset 0, `sub_command` at offset 4, zeros behind.
pub open spec fn command_packet(region: i32, sub_command: i32) -> Seq<u8> {
    written(written(blank_packet(), 0, le_bytes(region as int, 4)), 4, le_bytes(sub_command as int, 4))
}

/// The packet of a command with one i32 argument, at offset 8.
pub open spec fn command_packet_i32(region: i32, sub_command: i32, arg: i32) -> Seq<u8> {
    written(command_packet(region, sub_command), 8, le_bytes(arg as int, 4))
}

/// The packet of a command with one i64 argument, at offset 8.
pub open spec fn command_packet_i64(region: i32, sub_command: i32, arg: i64) -> Seq<u8> {
    written(command_packet(region, sub_command), 8, le_bytes(arg as int, 8))
}

/// The packet of a command with text, in UTF-8, from offset 8 on.
pub open spec fn command_packet_text(region: i32, sub_command: i32, text: Seq<char>) -> Seq<u8> {
    written(command_packet(region, sub_command), 8, encode_utf8(text))
}

impl Packet {
    /// A zero-filled packet.
    pub fn new() -> (p: Self)
        ensures
            p@ == blank_packet(),
    {
        let p = Packet { buf: [0u8;1024] };
        assert(p@ == blank_packet());
        p
    }

    /// A packet with `region` at offset 0 and `sub_command` at offset 4, the header every Odin
    /// command shares.
    pub fn command(region: i32, sub_command: i32) -> (p: Self)
        ensures
            p@ == command_packet(region, sub_command),
    {
        let mut p = Packet::new();
        p.write_i32(0, region);
        p.write_i32(4, sub_command);
        p
    }

    /// Write the `n` low bytes of `value` from `offset` on, low byte first.
    fn write_number(&mut self, offset: usize, value: u64, n: usize)
        requires
            offset + n <= PACKET_LEN,
        ensures
            final(self)@ == written(old(self)@, offset as int, le_bytes(value as int, n as nat)),
    {
        let mut rest: u64 = value;
        let mut k: usize = 0;
        while k < n
            invariant
                k <= n,
                offset + n <= PACKET_LEN,
                self@.len() == PACKET_LEN,
                self@ == written(old(self)@, offset as int, le_bytes(value as int, k as nat)),
                forall|j: nat| #[trigger]
                    byte_of(rest as int, j) == byte_of(value as int, (k + j) as nat),
            decreases n - k,
        {
            let ghost before = self@;
            let ghost r0 = rest as int;
            assert(byte_of(r0, 0) == byte_of(value as int, k as nat));
            self.buf[offset + k] = (rest % 0x100) as u8;
            rest = rest / 0x100;
            k = k + 1;
            proof {
                assert(self@ == before.update(offset + k - 1, byte_of(value as int, (k - 1) as nat)));
                assert(self@ == written(
                    old(self)@,
                    offset as int,
                    le_bytes(value as int, k as nat),
                ));
                assert forall|j: nat| #[trigger]
                    byte_of(rest as int, j) == byte_of(value as int, (k + j) as nat) by {
                    assert(byte_of(r0, j + 1) == byte_of(rest as int, j));
                }
            }
        }
    }

    /// Write a little-endian i32 at `offset`.
    pub fn write_i32(&mut self, offset: usize, value: i32) -> (r: &mut Self)
        requires
            offset + 4 <= PACKET_LEN,
        ensures
            r@ == written(old(self)@, offset as int, le_bytes(value as int, 4)),
            *final(self) == *final(r),
    {
        self.write_number(offset, to_unsigned32(value) as u64, 4);
        proof {
            if value < 0 {
                lemma_bytes_wrap(value as int, 4);
                assert(pow256(4) == 0x1_0000_0000) by {
                    reveal_with_fuel(pow256, 5);
                }
            }
        }
        self
    }

    /// Write a little-endian i64 at `offset`.
    pub fn write_i64(&mut self, offset: usize, value: i64) -> (r: &mut Self)
        requires
            offset + 8 <= PACKET_LEN,
        ensures
            r@ == written(old(self)@, offset as int, le_bytes(value as int, 8)),
            *final(self) == *final(r),
    {
        let pattern: u64 = if value >= 0 {
            value as u64
        } else {
            (value as i128 + 0x1_0000_0000_0000_0000) as u64
        };
        self.write_number(offset, pattern, 8);
        proof {
            if value < 0 {
                lemma_bytes_wrap(value as int, 8);
                assert(pow256(8) == 0x1_0000_0000_0000_0000) by {
                    reveal_with_fuel(pow256, 9);
                }
            }
        }
        self
    }

    /// Write `text` starting at `offset` (no length prefix, no NUL terminator added).
    pub fn write_str(&mut self, offset: usize, text: &str) -> (r: &mut Self)
        requires
            offset + encode_utf8(text@).len() <= PACKET_LEN,
        ensures
            r@ == written(old(self)@, offset as int, encode_utf8(text@)),
            *final(self) == *final(r),
    {
        let part: &[u8] = text.as_bytes();
        let mut k: usize = 0;
        while k < part.len()
            invariant
                k <= part@.len(),
                offset + part@.len() <= PACKET_LEN,
                self@.len() == PACKET_LEN,
                self@ == written(old(self)@, offset as int, part@.take(k as int)),
            decreases part@.len() - k,
        {
            let ghost before = self@;
            self.buf[offset + k] = part[k];
            k = k + 1;
            assert(self@ == before.update(offset + k - 1, part@[k - 1]));
            assert(self@ == written(old(self)@, offset as int, part@.take(k as int)));
        }
        assert(part@.take(k as int) == encode_utf8(text@));
        self
    }

    /// The finished 1024-byte packet.
    pub fn as_bytes(&self) -> (b: &[u8])
        ensures
            b@ == self@,
            b@.len() == PACKET_LEN,
    {
        self.buf.as_slice()
    }
}

impl Default for Packet {
    fn default() -> (p: Self)
        ensures
            p@ == blank_packet(),
    {
        Packet::new()
    }
}

/// `256^n`.
pub open spec fn pow256(n: nat) -> int
    decreases n,
{
    if n == 0 {
        1
    } else {
        0x100 * pow256((n - 1) as nat)
    }
}

/// The `n` low bytes of a number do not change when `256^n` is added.
proof fn lemma_bytes_wrap(v: int, n: nat)
    ensures
        le_bytes(v + pow256(n), n) == le_bytes(v, n),
{
    assert forall|k: nat| k < n implies byte_of(v + pow256(n), k) == byte_of(v, k) by {
        lemma_byte_wrap(v, n, k);
    }
}

proof fn lemma_byte_wrap(v: int, n: nat, k: nat)
    requires
        k < n,
    ensures
        byte_of(v + pow256(n), k) == byte_of(v, k),
    decreases k,
{
    let m = pow256((n - 1) as nat);
    assert(pow256(n) == 0x100 * m);
    assert((v + 0x100 * m) % 0x100 == v % 0x100);
    assert((v + 0x100 * m) / 0x100 == v / 0x100 + m);
    if k > 0 {
        lemma_byte_wrap(v / 0x100, (n - 1) as nat, (k - 1) as nat);
    }
}

/// What a reply holds at `offset`: nothing where it is too short.
pub open spec fn reply_i32(buf: Seq<u8>, offset: int) -> Option<i32> {
    if offset + 4 <= buf.len() {
        Some(i32_at(buf, offset))
    } else {
        None
    }
}

/// Read a little-endian i32 at `offset`, or `None` if the buffer is too short.
pub fn read_i32_le(buf: &[u8], offset: usize) -> (r: Option<i32>)
    ensures
        r == reply_i32(buf@, offset as int),
{
    if buf.len() < 4 || offset > buf.len() - 4 {
        None
    } else {
        Some(to_signed32(read_u32(buf, offset)))
    }
}

/// An i32 written into a packet is read back from there unchanged.
pub proof fn law_i32_round_trip(s: Seq<u8>, offset: int, value: i32)
    requires
        0 <= offset,
        offset + 4 <= s.len(),
    ensures
        reply_i32(written(s, offset, le_bytes(value as int, 4)), offset) == Some(value),
{
    let w = written(s, offset, le_bytes(value as int, 4));
    assert(w.subrange(offset, offset + 4) == le_bytes(value as int, 4));
    lemma_i32_round_trip(w, offset, value);
}

/// Writing into a packet changes its length nowhere and its bytes only where it writes.
pub proof fn law_writes_stay_in_place(s: Seq<u8>, offset: int, part: Seq<u8>)
    requires
        0 <= offset,
        offset + part.len() <= s.len(),
    ensures
        written(s, offset, part).len() == s.len(),
        written(s, offset, part).subrange(offset, offset + part.len()) == part,
        forall|i: int|
            0 <= i < s.len() && !(offset <= i < offset + part.len()) ==> written(s, offset, part)[i]
                == s[i],
{
    assert(written(s, offset, part).subrange(offset, offset + part.len()) == part);
}

/// A command packet holds its region and its sub-command, and nothing but zeros behind them.
pub proof fn law_command_header(region: i32, sub_command: i32)
    ensures
        command_packet(region, sub_command).len() == PACKET_LEN,
        reply_i32(command_packet(region, sub_command), 0) == Some(region),
        reply_i32(command_packet(region, sub_command), 4) == Some(sub_command),
        forall|i: int| 8 <= i < PACKET_LEN ==> command_packet(region, sub_command)[i] == 0,
{
    let p = command_packet(region, sub_command);
    assert(p.subrange(0, 4) == le_bytes(region as int, 4));
    assert(p.subrange(4, 8) == le_bytes(sub_command as int, 4));
    lemma_i32_round_trip(p, 0, region);
    lemma_i32_round_trip(p, 4, sub_command);
}

/// The four bytes that a 32-bit number is written as are its bytes, low byte first.
pub proof fn law_32_bits_are_written(s: Seq<u8>, offset: int, value: i32)
    requires
        0 <= offset,
        offset + 4 <= s.len(),
    ensures
        holds32(
            written(s, offset, le_bytes(value as int, 4)),
            offset,
            pattern(value as int, 0x1_0000_0000),
        ),
{
    law_i32_round_trip(s, offset, value);
    let w = written(s, offset, le_bytes(value as int, 4));
    let u = u32_at(w, offset);
    law_32_bits_are_read_back(w, offset, u);
    assert(u == pattern(value as int, 0x1_0000_0000));
}

/// The eight bytes that a 64-bit number is written as are its bytes, low byte first.
pub proof fn law_64_bits_are_written(s: Seq<u8>, offset: int, value: i64)
    requires
        0 <= offset,
        offset + 8 <= s.len(),
    ensures
        holds64(
            written(s, offset, le_bytes(value as int, 8)),
            offset,
            pattern(value as int, 0x1_0000_0000_0000_0000),
        ),
{
    let v = value as int;
    let u = pattern(v, 0x1_0000_0000_0000_0000);
    let w = written(s, offset, le_bytes(v, 8));
    reveal_with_fuel(pow256, 9);
    reveal_with_fuel(byte_of, 9);
    if v < 0 {
        lemma_bytes_wrap(v, 8);
    }
    assert(le_bytes(u, 8) == le_bytes(v, 8));
    lemma_div_denominator(u, 0x100, 0x100);
    lemma_div_denominator(u, 0x1_0000, 0x100);
    lemma_div_denominator(u, 0x100_0000, 0x100);
    lemma_div_denominator(u, 0x1_0000_0000, 0x100);
    lemma_div_denominator(u, 0x100_0000_0000, 0x100);
    lemma_div_denominator(u, 0x1_0000_0000_0000, 0x100);
    assert forall|k: int| 0 <= k < 8 implies #[trigger] w[offset + k] == byte_of(u, k as nat) by {
        assert(le_bytes(u, 8)[k] == le_bytes(v, 8)[k]);
    }
    assert(w[offset] == byte_of(u, 0) && w[offset + 1] == byte_of(u, 1) && w[offset + 2] == byte_of(
        u,
        2,
    ) && w[offset + 3] == byte_of(u, 3) && w[offset + 4] == byte_of(u, 4) && w[offset + 5]
        == byte_of(u, 5) && w[offset + 6] == byte_of(u, 6) && w[offset + 7] == byte_of(u, 7)) by {
        assert(w[offset + 0] == byte_of(u, 0));
    }
}

/// A command packet is the bytes of its region, of its sub-command and of its argument, each low byte
/// first, and zeros up to 1024 bytes.
pub proof fn law_packets_hold_their_numbers(region: i32, sub_command: i32, small: i32, large: i64)
    ensures
        ({
            let p = command_packet_i32(region, sub_command, small);
            &&& p.len() == 1024
            &&& holds32(p, 0, pattern(region as int, 0x1_0000_0000))
            &&& holds32(p, 4, pattern(sub_command as int, 0x1_0000_0000))
            &&& holds32(p, 8, pattern(small as int, 0x1_0000_0000))
            &&& forall|i: int| 12 <= i < 1024 ==> p[i] == 0
        }),
        ({
            let p = command_packet_i64(region, sub_command, large);
            &&& p.len() == 1024
            &&& holds32(p, 0, pattern(region as int, 0x1_0000_0000))
            &&& holds32(p, 4, pattern(sub_command as int, 0x1_0000_0000))
            &&& holds64(p, 8, pattern(large as int, 0x1_0000_0000_0000_0000))
            &&& forall|i: int| 16 <= i < 1024 ==> p[i] == 0
        }),
        ({
            let p = command_packet(region, sub_command);
            &&& p.len() == 1024
            &&& holds32(p, 0, pattern(region as int, 0x1_0000_0000))
            &&& holds32(p, 4, pattern(sub_command as int, 0x1_0000_0000))
            &&& forall|i: int| 8 <= i < 1024 ==> p[i] == 0
        }),
{
    let p = command_packet(region, sub_command);
    law_32_bits_are_written(blank_packet(), 0, region);
    law_32_bits_are_written(written(blank_packet(), 0, le_bytes(region as int, 4)), 4, sub_command);
    law_32_bits_are_written(p, 8, small);
    law_64_bits_are_written(p, 8, large);
    assert(p[0] == written(blank_packet(), 0, le_bytes(region as int, 4))[0]);
}

/// A packet with an ASCII text holds it byte for byte behind the sub-command, and zeros behind that.
pub proof fn law_packets_hold_their_text(region: i32, sub_command: i32, text: Seq<char>)
    requires
        8 + text.len() <= 1024,
        forall|i: int| 0 <= i < text.len() ==> '\0' <= #[trigger] text[i] <= '\x7f',
    ensures
        ({
            let p = command_packet_text(region, sub_command, text);
            &&& p.len() == 1024
            &&& holds32(p, 0, pattern(region as int, 0x1_0000_0000))
            &&& holds32(p, 4, pattern(sub_command as int, 0x1_0000_0000))
            &&& forall|i: int|
                0 <= i < text.len() ==> p[8 + i] as int == #[trigger] text[i] as int
            &&& forall|i: int| 8 + text.len() <= i < 1024 ==> p[i] == 0
        }),
{
    law_packets_hold_their_numbers(region, sub_command, 0, 0);
    assert forall|i: int| 0 <= i < text.len() implies 0 <= #[trigger] text[i] as nat && (
    text[i] as nat) < 128 by {
        assert('\0' <= text[i] <= '\x7f');
    }
    assert(is_ascii_chars(text));
    is_ascii_chars_encode_utf8(text);
    let p = command_packet_text(region, sub_command, text);
    assert forall|i: int| 0 <= i < text.len() implies p[8 + i] as int == #[trigger] text[i] as int by {
        assert(text[i] as u8 == encode_utf8(text)[i]);
    }
}

} // verus!
