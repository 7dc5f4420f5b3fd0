//! Carve the kernel `printk`/`dmesg` log out of a RAM dump.
//!
//! The kernel log is a ring buffer in RAM, so once memory has been dumped, the log can be
//! recovered offline. The structured `printk_log` record format of Linux 3.5 to 5.9 is parsed in
//! full. Each record is:
//!
//! ```text
//! offset 0  u64 ts_nsec     timestamp (ns)
//! offset 8  u16 len         total record length (header + text + dict + padding)
//! offset 10 u16 text_len    length of the message text
//! offset 12 u16 dict_len    length of the key/value dict (ignored here)
//! offset 14 u8  facility
//! offset 15 u8  flags:5 | level:3
//! offset 16 ...  text       (text_len bytes), then dict, then padding to `len`
//! ```
//!
//! A record with `len == 0` marks the ring wrap or the end.
//!
//! Linux 5.10 and later keep the text in data blocks of a lockless ring buffer, `[u64 id][text]`
//! padded to 8 bytes, and hold lengths and timestamps elsewhere. Of those, the text is recovered.

use vstd::arithmetic::power::pow;
use vstd::prelude::*;
use vstd::string::StringExecFns;

use crate::bytes::{
    holds16, holds64, law_16_bits_are_read_back, law_64_bits_are_read_back, read_u16, read_u64,
    u16_at, u64_at,
};
use crate::text::{
    dec, dec_text, digit_number, is_digits, law_ascii_text, law_decimal_stands_for_its_number,
    law_leading_zeros_count_nothing, lemma_numeral_len, number_of, pad_left, padded_left, repeat,
    text_from_utf8, trim_end_char, utf8_text, views, without_trailing,
};

verus! {

/// Fixed size of a `printk_log` record header.
pub const HEADER: usize = 16;

/// Fewer records than this in a row are taken for noise.
pub const MIN_RUN: usize = 5;

/// Fewer data blocks than this in a row are taken for noise.
pub const MIN_BLOCKS: usize = 3;

/// The longest text that a data block holds.
pub const MAX_BLOCK_TEXT: usize = 1024;

/// One decoded kernel-log line.
#[derive(Debug, Clone, PartialEq, Eq)]
pub struct LogRecord {
    /// Monotonic timestamp in nanoseconds.
    pub ts_nsec: u64,
    /// Syslog level (0 to 7), best-effort.
    pub level: u8,
    /// The message text (trailing newline trimmed).
    pub text: String,
}

/// What a record says.
#[verifier::ext_equal]
pub struct LogModel {
    pub ts_nsec: u64,
    pub level: u8,
    pub text: Seq<char>,
}

impl View for LogRecord {
    type V = LogModel;

    open spec fn view(&self) -> LogModel {
        LogModel { ts_nsec: self.ts_nsec, level: self.level, text: self.text@ }
    }
}

/// A record as `dmesg` shows it: seconds and microseconds in brackets, then the text.
pub open spec fn dmesg_line(r: LogModel) -> Seq<char> {
    let secs = r.ts_nsec as int / 1_000_000_000;
    let micros = (r.ts_nsec as int % 1_000_000_000) / 1000;
    "["@ + pad_left(dec(secs), 5, ' ') + "."@ + pad_left(dec(micros), 6, '0') + "] "@ + r.text
}

impl LogRecord {
    /// Render like `dmesg`: `[    1.234567] message`.
    pub fn format_line(&self) -> (s: String)
        ensures
            s@ == dmesg_line(self@),
    {
        let secs: u64 = self.ts_nsec / 1_000_000_000;
        let micros: u64 = (self.ts_nsec % 1_000_000_000) / 1000;
        let secs_text = dec_text(secs);
        let micros_text = dec_text(micros);
        let mut s = String::from_str("[");
        s.append(padded_left(secs_text.as_str(), 5, ' ').as_str());
        s.append(".");
        s.append(padded_left(micros_text.as_str(), 6, '0').as_str());
        s.append("] ");
        s.append(self.text.as_str());
        s
    }
}

/// The length that the record at `pos` claims.
pub open spec fn record_len(s: Seq<u8>, pos: int) -> int {
    u16_at(s, pos + 8) as int
}

/// The text length that the record at `pos` claims.
pub open spec fn record_text_len(s: Seq<u8>, pos: int) -> int {
    u16_at(s, pos + 10) as int
}

/// Whether a whole, self-consistent record stands at `pos`.
pub open spec fn is_record(s: Seq<u8>, pos: int) -> bool {
    &&& pos + 16 <= s.len()
    &&& 16 <= record_len(s, pos)
    &&& pos + record_len(s, pos) <= s.len()
    &&& 16 + record_text_len(s, pos) <= record_len(s, pos)
}

/// The text bytes of the record at `pos`.
pub open spec fn record_text(s: Seq<u8>, pos: int) -> Seq<u8> {
    s.subrange(pos + 16, pos + 16 + record_text_len(s, pos))
}

/// The record at `pos`.
pub open spec fn record_at(s: Seq<u8>, pos: int) -> LogModel {
    LogModel {
        ts_nsec: u64_at(s, pos),
        level: s[pos + 15] & 0x07,
        text: trim_end_char(utf8_text(record_text(s, pos)), '\n'),
    }
}

/// The records that follow each other from `pos` on, up to the first place that holds none.
pub open spec fn records_from(s: Seq<u8>, pos: int) -> Seq<LogModel>
    decreases s.len() - pos,
{
    if is_record(s, pos) {
        seq![record_at(s, pos)] + records_from(s, pos + record_len(s, pos))
    } else {
        Seq::empty()
    }
}

/// The contents of a list of records.
pub open spec fn log_models(v: Seq<LogRecord>) -> Seq<LogModel> {
    Seq::new(v.len(), |i: int| v[i]@)
}

/// Where the record at `pos` ends, if a record stands there.
fn record_end(buf: &[u8], pos: usize) -> (r: Option<usize>)
    requires
        pos <= buf.len(),
    ensures
        match r {
            Some(end) => is_record(buf@, pos as int) && end == pos + record_len(buf@, pos as int),
            None => !is_record(buf@, pos as int),
        },
{
    if buf.len() - pos < HEADER {
        return None;
    }
    let len: usize = read_u16(buf, pos + 8) as usize;
    let text_len: usize = read_u16(buf, pos + 10) as usize;
    if len < HEADER || buf.len() - pos < len || HEADER + text_len > len {
        None
    } else {
        Some(pos + len)
    }
}

/// Parse consecutive records starting at `start`, stopping at the ring wrap (`len == 0`), an
/// invalid record, or the end of the buffer.
fn parse_from(buf: &[u8], start: usize) -> (r: Vec<LogRecord>)
    requires
        start <= buf.len(),
    ensures
        log_models(r@) == records_from(buf@, start as int),
{
    let mut out: Vec<LogRecord> = Vec::new();
    let mut pos: usize = start;
    assert(log_models(out@) + records_from(buf@, pos as int) == records_from(buf@, start as int));
    loop
        invariant
            start <= pos <= buf.len(),
            log_models(out@) + records_from(buf@, pos as int) == records_from(buf@, start as int),
        decreases buf.len() - pos,
    {
        let end: usize = match record_end(buf, pos) {
            Some(end) => end,
            None => {
                assert(log_models(out@) == records_from(buf@, start as int));
                return out;
            },
        };
        let text_len: usize = read_u16(buf, pos + 10) as usize;
        let ts_nsec: u64 = read_u64(buf, pos);
        let bytes: &[u8] = &buf[pos + HEADER..pos + HEADER + text_len];
        let raw = text_from_utf8(bytes);
        let text = without_trailing(raw.as_str(), '\n');
        let level: u8 = buf[pos + 15] & 0x07;
        let record = LogRecord { ts_nsec, level, text };
        assert(record@ == record_at(buf@, pos as int));
        let ghost before = log_models(out@);
        out.push(record);
        proof {
            let rest = records_from(buf@, end as int);
            assert(log_models(out@) == before.push(record@));
            assert(before.push(record@) + rest == before + (seq![record@] + rest));
        }
        pos = end;
    }
}

/// How many records follow each other from `start` on.
fn count_from(buf: &[u8], start: usize) -> (n: usize)
    requires
        start <= buf.len(),
    ensures
        n == records_from(buf@, start as int).len(),
{
    let mut n: usize = 0;
    let mut pos: usize = start;
    loop
        invariant
            start <= pos <= buf.len(),
            n <= pos - start,
            n + records_from(buf@, pos as int).len() == records_from(buf@, start as int).len(),
        decreases buf.len() - pos,
    {
        match record_end(buf, pos) {
            Some(end) => {
                n = n + 1;
                pos = end;
            },
            None => return n,
        }
    }
}

/// Parse `printk_log` records starting at offset 0 of `buf`.
pub fn parse_printk_records(buf: &[u8]) -> (r: Vec<LogRecord>)
    ensures
        log_models(r@) == records_from(buf@, 0),
{
    parse_from(buf, 0)
}

/// A byte of ordinary text: printable ASCII or a newline.
pub open spec fn is_printable(b: u8) -> bool {
    b == 0x0A || 0x20 <= b <= 0x7E
}

/// How many bytes of `t` are printable.
pub open spec fn printable_count(t: Seq<u8>) -> nat
    decreases t.len(),
{
    if t.len() == 0 {
        0
    } else {
        printable_count(t.drop_last()) + if is_printable(t.last()) {
            1nat
        } else {
            0
        }
    }
}

/// Whether what stands at `pos` looks like a record: sane lengths, and a text of which at least
/// nine tenths are printable.
pub open spec fn is_plausible(s: Seq<u8>, pos: int) -> bool {
    &&& is_record(s, pos)
    &&& record_text_len(s, pos) > 0
    &&& printable_count(record_text(s, pos)) * 10 >= record_text_len(s, pos) * 9
}

/// Whether a byte is printable.
fn printable(b: u8) -> (r: bool)
    ensures
        r == is_printable(b),
{
    b == 0x0A || (0x20 <= b && b <= 0x7E)
}

/// Cheap check that a plausible record stands at `pos`, which keeps the full parse from running
/// at every junk offset.
fn plausible_header(buf: &[u8], pos: usize) -> (r: bool)
    requires
        pos <= buf.len(),
    ensures
        r == is_plausible(buf@, pos as int),
{
    if buf.len() - pos < HEADER {
        return false;
    }
    let len: usize = read_u16(buf, pos + 8) as usize;
    let text_len: usize = read_u16(buf, pos + 10) as usize;
    if len < HEADER || text_len == 0 || HEADER + text_len > len || len > buf.len() - pos {
        return false;
    }
    let text: &[u8] = &buf[pos + HEADER..pos + HEADER + text_len];
    let mut count: usize = 0;
    let mut i: usize = 0;
    while i < text.len()
        invariant
            i <= text@.len(),
            count <= i,
            count == printable_count(text@.take(i as int)),
        decreases text@.len() - i,
    {
        proof {
            assert(text@.take(i + 1).drop_last() == text@.take(i as int));
        }
        if printable(text[i]) {
            count = count + 1;
        }
        i = i + 1;
    }
    assert(text@.take(i as int) == text@);
    count * 10 >= text_len * 9
}

/// The longer of two lists; the first where they are as long.
pub open spec fn longer<A>(a: Seq<A>, b: Seq<A>) -> Seq<A> {
    if b.len() > a.len() {
        b
    } else {
        a
    }
}

/// The longest run of records that starts at a plausible offset from `pos` on, or `best` where none
/// is longer. Of runs as long as each other, the first counts.
pub open spec fn longest_run(s: Seq<u8>, pos: int, best: Seq<LogModel>) -> Seq<LogModel>
    decreases s.len() - pos,
{
    if pos < 0 || pos + 16 > s.len() {
        best
    } else {
        longest_run(
            s,
            pos + 1,
            if is_plausible(s, pos) {
                longer(best, records_from(s, pos))
            } else {
                best
            },
        )
    }
}

/// The kernel log in a dump: the longest run of records, if it is long enough to be one.
pub open spec fn carved(s: Seq<u8>) -> Seq<LogModel> {
    let best = longest_run(s, 0, Seq::empty());
    if best.len() >= MIN_RUN {
        best
    } else {
        Seq::empty()
    }
}

/// Scan a RAM dump for the kernel log buffer and carve out the records. Every offset that looks
/// like a record header is tried, and the longest run of valid records is kept, so the log is
/// found wherever it sits in the dump. Empty if nothing convincing turns up.
pub fn carve_dmesg(dump: &[u8]) -> (r: Vec<LogRecord>)
    ensures
        log_models(r@) == carved(dump@),
{
    let ghost mut best: Seq<LogModel> = Seq::empty();
    let mut count: usize = 0;
    let mut start: usize = 0;
    // The rest of a run that was counted is no longer than the best one.
    let mut rest: usize = dump.len();
    let mut pos: usize = 0;
    while dump.len() - pos >= HEADER
        invariant
            pos <= dump.len(),
            start <= dump.len(),
            rest <= dump.len(),
            count == best.len(),
            count > 0 ==> best == records_from(dump@, start as int),
            records_from(dump@, rest as int).len() <= count,
            longest_run(dump@, pos as int, best) == longest_run(dump@, 0, Seq::empty()),
        decreases dump.len() - pos,
    {
        if pos == rest {
            if let Some(end) = record_end(dump, pos) {
                rest = end;
            }
        } else if plausible_header(dump, pos) {
            let n: usize = count_from(dump, pos);
            if n > count {
                proof {
                    best = records_from(dump@, pos as int);
                }
                count = n;
                start = pos;
            }
            if let Some(end) = record_end(dump, pos) {
                rest = end;
            }
        }
        pos = pos + 1;
    }
    if count >= MIN_RUN {
        parse_from(dump, start)
    } else {
        let none: Vec<LogRecord> = Vec::new();
        assert(log_models(none@) == carved(dump@));
        none
    }
}

/// How many printable bytes stand in a row from `at` on, counting no more than `cap`.
pub open spec fn text_run(s: Seq<u8>, at: int, cap: nat) -> nat
    decreases cap,
{
    if cap == 0 || at >= s.len() || !is_printable(s[at]) {
        0
    } else {
        1 + text_run(s, at + 1, (cap - 1) as nat)
    }
}

/// How much text follows the id of the data block at `p`.
pub open spec fn block_run(s: Seq<u8>, p: int) -> nat {
    text_run(s, p + 8, MAX_BLOCK_TEXT as nat)
}

/// Whether a data block stands at `p`: an id with text behind it.
pub open spec fn is_block(s: Seq<u8>, p: int) -> bool {
    p + 8 <= s.len() && block_run(s, p) > 0
}

/// Whether the data block at `q` can be the one written after the block at `p`: its id is one
/// higher, and between the two stands the first block's text, filled up with NULs to a multiple
/// of 8 bytes.
pub open spec fn follows(s: Seq<u8>, p: int, q: int) -> bool {
    &&& q + 8 <= s.len()
    &&& u64_at(s, q) == u64_at(s, p) + 1
    &&& q <= p + 8 + block_run(s, p) + 7
    &&& forall|j: int| p + 8 + block_run(s, p) <= j < q ==> s[j] == 0
}

/// The first block that can follow the one at `p`, looking at every eighth byte from `q` on.
pub open spec fn next_block(s: Seq<u8>, p: int, q: int) -> Option<int>
    decreases s.len() - q,
{
    if q + 8 > s.len() || q > p + 8 + block_run(s, p) + 7 {
        None
    } else if follows(s, p, q) {
        Some(q)
    } else {
        next_block(s, p, q + 8)
    }
}

/// The text bytes of the block at `p` that ends at `q` at the latest.
pub open spec fn block_text(s: Seq<u8>, p: int, q: int) -> Seq<u8> {
    let end = p + 8 + block_run(s, p);
    s.subrange(
        p + 8,
        if q < end {
            q
        } else {
            end
        },
    )
}

/// The line that text bytes make.
pub open spec fn line_of(bytes: Seq<u8>) -> Seq<char> {
    trim_end_char(utf8_text(bytes), '\n')
}

/// The lines of the blocks that follow each other from `p` on.
pub open spec fn chain(s: Seq<u8>, p: int) -> Seq<Seq<char>>
    decreases s.len() - p,
{
    if !is_block(s, p) {
        Seq::empty()
    } else {
        match next_block(s, p, p + 16) {
            Some(q) => {
                proof {
                    lemma_next_block(s, p, p + 16);
                }
                seq![line_of(block_text(s, p, q))] + chain(s, q)
            },
            None => seq![line_of(block_text(s, p, s.len() as int))],
        }
    }
}

/// A block found from `q` on stands there or behind, within the buffer.
pub proof fn lemma_next_block(s: Seq<u8>, p: int, q: int)
    ensures
        next_block(s, p, q) matches Some(n) ==> q <= n && n + 8 <= s.len(),
    decreases s.len() - q,
{
    if q + 8 > s.len() || q > p + 8 + block_run(s, p) + 7 {
    } else if follows(s, p, q) {
    } else {
        lemma_next_block(s, p, q + 8);
    }
}

/// The longest run of blocks that starts from offset `pos` on, or `best` where none is longer. Of
/// runs as long as each other, the first counts.
pub open spec fn longest_chain(s: Seq<u8>, pos: int, best: Seq<Seq<char>>) -> Seq<Seq<char>>
    decreases s.len() - pos,
{
    if pos < 0 || pos + 8 > s.len() {
        best
    } else {
        longest_chain(s, pos + 1, longer(best, chain(s, pos)))
    }
}

/// The lines of a lockless ring buffer in a dump: the longest run of data blocks with ascending
/// ids, if it is long enough to be one.
pub open spec fn carved_lines(s: Seq<u8>) -> Seq<Seq<char>> {
    let best = longest_chain(s, 0, Seq::empty());
    if best.len() >= MIN_BLOCKS {
        best
    } else {
        Seq::empty()
    }
}

/// Count the printable bytes in a row from `at` on.
fn count_text(buf: &[u8], at: usize, cap: usize) -> (n: usize)
    requires
        at <= buf.len(),
    ensures
        n == text_run(buf@, at as int, cap as nat),
        n <= cap,
        at + n <= buf.len(),
{
    let mut n: usize = 0;
    while n < cap && n < buf.len() - at && printable(buf[at + n])
        invariant
            n <= cap,
            at + n <= buf.len(),
            text_run(buf@, at as int, cap as nat) == n + text_run(
                buf@,
                at + n,
                (cap - n) as nat,
            ),
        decreases cap - n,
    {
        n = n + 1;
    }
    n
}

/// Whether all bytes `from..to` are NUL.
fn all_nul(buf: &[u8], from: usize, to: usize) -> (r: bool)
    requires
        to <= buf.len(),
    ensures
        r == (forall|j: int| from <= j < to ==> buf@[j] == 0),
{
    let mut i: usize = from;
    while i < to
        invariant
            from <= i,
            to <= buf.len(),
            forall|j: int| from <= j < i ==> buf@[j] == 0,
        decreases to - i,
    {
        if buf[i] != 0 {
            return false;
        }
        i = i + 1;
    }
    true
}

/// Find the block that follows the one at `p`, whose text is `run` bytes long.
fn find_next(buf: &[u8], p: usize, run: usize) -> (r: Option<usize>)
    requires
        p + 8 <= buf.len(),
        run == block_run(buf@, p as int),
        run <= MAX_BLOCK_TEXT,
        p + 8 + run <= buf.len(),
    ensures
        r matches Some(q) ==> next_block(buf@, p as int, p + 16) == Some(q as int),
        r is None ==> next_block(buf@, p as int, p + 16) is None,
{
    let id: u64 = read_u64(buf, p);
    if buf.len() - p < 16 {
        return None;
    }
    let mut q: usize = p + 16;
    while buf.len() - q >= 8 && q - p <= 8 + run + 7
        invariant
            p + 16 <= q <= buf.len(),
            run == block_run(buf@, p as int),
            run <= MAX_BLOCK_TEXT,
            p + 8 + run <= buf.len(),
            id == u64_at(buf@, p as int),
            next_block(buf@, p as int, p + 16) == next_block(buf@, p as int, q as int),
        decreases buf.len() - q,
    {
        if is_next(buf, p, q, run, id) {
            return Some(q);
        }
        q = q + 8;
    }
    None
}

/// Whether the block at `q` can be the one written after the block at `p`.
fn is_next(buf: &[u8], p: usize, q: usize, run: usize, id: u64) -> (r: bool)
    requires
        p + 8 + run <= buf.len(),
        q + 8 <= buf.len(),
        run == block_run(buf@, p as int),
        q <= p + 8 + run + 7,
        id == u64_at(buf@, p as int),
    ensures
        r == follows(buf@, p as int, q as int),
{
    id < u64::MAX && read_u64(buf, q) == id + 1 && all_nul(buf, p + 8 + run, q)
}

/// The line that text bytes make.
fn read_line(bytes: &[u8]) -> (s: String)
    ensures
        s@ == line_of(bytes@),
{
    let raw = text_from_utf8(bytes);
    without_trailing(raw.as_str(), '\n')
}

/// Whether a block stands at `p`, and where the one that follows it stands, if there is one.
fn look_at_block(buf: &[u8], p: usize) -> (r: (bool, Option<usize>))
    requires
        p <= buf.len(),
    ensures
        r.0 == is_block(buf@, p as int),
        match r.1 {
            Some(q) => {
                &&& r.0
                &&& next_block(buf@, p as int, p + 16) == Some(q as int)
                &&& p < q <= buf.len()
            },
            None => r.0 ==> next_block(buf@, p as int, p + 16) is None,
        },
{
    if buf.len() - p < 8 {
        return (false, None);
    }
    let run: usize = count_text(buf, p + 8, MAX_BLOCK_TEXT);
    if run == 0 {
        return (false, None);
    }
    proof {
        lemma_next_block(buf@, p as int, p + 16);
    }
    (true, find_next(buf, p, run))
}

/// How many blocks follow each other from `start` on.
fn count_chain(buf: &[u8], start: usize) -> (n: usize)
    requires
        start <= buf.len(),
    ensures
        n == chain(buf@, start as int).len(),
{
    let mut n: usize = 0;
    let mut p: usize = start;
    loop
        invariant
            start <= p <= buf.len(),
            n <= p - start,
            n + chain(buf@, p as int).len() == chain(buf@, start as int).len(),
        decreases buf.len() - p,
    {
        let (found, next) = look_at_block(buf, p);
        if !found {
            return n;
        }
        match next {
            Some(q) => {
                n = n + 1;
                p = q;
            },
            None => {
                assert(p < buf.len());
                return n + 1;
            },
        }
    }
}

/// Read the lines of the blocks that follow each other from `start` on.
fn read_chain(buf: &[u8], start: usize) -> (r: Vec<String>)
    requires
        start <= buf.len(),
    ensures
        views(r@) == chain(buf@, start as int),
{
    let mut out: Vec<String> = Vec::new();
    let mut p: usize = start;
    assert(views(out@) + chain(buf@, p as int) == chain(buf@, start as int));
    loop
        invariant
            start <= p <= buf.len(),
            views(out@) + chain(buf@, p as int) == chain(buf@, start as int),
        decreases buf.len() - p,
    {
        if buf.len() - p < 8 {
            assert(views(out@) == chain(buf@, start as int));
            return out;
        }
        let run: usize = count_text(buf, p + 8, MAX_BLOCK_TEXT);
        if run == 0 {
            assert(views(out@) == chain(buf@, start as int));
            return out;
        }
        let end: usize = p + 8 + run;
        let ghost before = views(out@);
        match find_next(buf, p, run) {
            Some(q) => {
                proof {
                    lemma_next_block(buf@, p as int, p + 16);
                }
                let to: usize = if q < end {
                    q
                } else {
                    end
                };
                let bytes: &[u8] = &buf[p + 8..to];
                let line = read_line(bytes);
                let ghost text = line@;
                assert(text == line_of(block_text(buf@, p as int, q as int)));
                out.push(line);
                proof {
                    let rest = chain(buf@, q as int);
                    assert(views(out@) == before.push(text));
                    assert(before.push(text) + rest == before + (seq![text] + rest));
                }
                p = q;
            },
            None => {
                let bytes: &[u8] = &buf[p + 8..end];
                let line = read_line(bytes);
                let ghost text = line@;
                assert(text == line_of(block_text(buf@, p as int, buf@.len() as int)));
                out.push(line);
                assert(views(out@) == before + seq![text]);
                return out;
            },
        }
    }
}

/// Scan a RAM dump for the data blocks of a 5.10+ `printk_ringbuffer` and recover their text.
/// Every offset is tried, and the longest run of blocks with ascending ids is kept. Empty if
/// nothing convincing turns up.
pub fn carve_ringbuffer(dump: &[u8]) -> (r: Vec<String>)
    ensures
        views(r@) == carved_lines(dump@),
{
    let ghost mut best: Seq<Seq<char>> = Seq::empty();
    let mut count: usize = 0;
    let mut start: usize = 0;
    // The rest of a run that was counted is no longer than the best one.
    let mut rest: usize = dump.len();
    let mut pos: usize = 0;
    while dump.len() - pos >= 8
        invariant
            pos <= dump.len(),
            start <= dump.len(),
            rest <= dump.len(),
            count == best.len(),
            count > 0 ==> best == chain(dump@, start as int),
            chain(dump@, rest as int).len() <= count,
            longest_chain(dump@, pos as int, best) == longest_chain(dump@, 0, Seq::empty()),
        decreases dump.len() - pos,
    {
        let (found, next) = look_at_block(dump, pos);
        if found {
            if pos != rest {
                let n: usize = count_chain(dump, pos);
                if n > count {
                    proof {
                        best = chain(dump@, pos as int);
                    }
                    count = n;
                    start = pos;
                }
            }
            if let Some(q) = next {
                rest = q;
            }
        }
        pos = pos + 1;
    }
    if count >= MIN_BLOCKS {
        read_chain(dump, start)
    } else {
        let none: Vec<String> = Vec::new();
        assert(views(none@) == carved_lines(dump@));
        none
    }
}

/// A carved log is a run of valid records that stands somewhere in the dump, of no fewer than
/// five records; or there is none.
pub proof fn law_carved_is_a_run(s: Seq<u8>)
    ensures
        carved(s).len() == 0 || carved(s).len() >= 5,
        carved(s).len() > 0 ==> exists|p: int|
            0 <= p && is_plausible(s, p) && #[trigger] records_from(s, p) == carved(s),
{
    lemma_longest_run(s, 0, Seq::empty());
}

proof fn lemma_longest_run(s: Seq<u8>, pos: int, best: Seq<LogModel>)
    requires
        0 <= pos <= s.len(),
    ensures
        longest_run(s, pos, best).len() >= best.len(),
        longest_run(s, pos, best) == best || exists|p: int|
            0 <= p && is_plausible(s, p) && #[trigger] records_from(s, p) == longest_run(
                s,
                pos,
                best,
            ),
    decreases s.len() - pos,
{
    if pos + 16 <= s.len() {
        let better = if is_plausible(s, pos) {
            longer(best, records_from(s, pos))
        } else {
            best
        };
        lemma_longest_run(s, pos + 1, better);
    }
}

/// The carved log is the longest run: a run that starts at any plausible offset is no longer than
/// it, or too short to be a log.
pub proof fn law_carved_is_longest(s: Seq<u8>, pos: int)
    requires
        0 <= pos,
        is_plausible(s, pos),
    ensures
        records_from(s, pos).len() < 5 || records_from(s, pos).len() <= carved(s).len(),
{
    lemma_longest_covers(s, 0, Seq::empty(), pos);
}

proof fn lemma_longest_covers(s: Seq<u8>, from: int, best: Seq<LogModel>, pos: int)
    requires
        0 <= from <= pos,
        is_plausible(s, pos),
    ensures
        longest_run(s, from, best).len() >= records_from(s, pos).len(),
    decreases pos - from,
{
    let better = if is_plausible(s, from) {
        longer(best, records_from(s, from))
    } else {
        best
    };
    if from == pos {
        lemma_longest_run(s, from + 1, better);
    } else {
        lemma_longest_covers(s, from + 1, better, pos);
    }
}

/// The lines carved from a ring buffer are those of a run of blocks that stands somewhere in the
/// dump, of no fewer than three blocks; or there are none.
pub proof fn law_carved_lines_are_a_chain(s: Seq<u8>)
    ensures
        carved_lines(s).len() == 0 || carved_lines(s).len() >= 3,
        carved_lines(s).len() > 0 ==> exists|p: int|
            0 <= p && #[trigger] chain(s, p) == carved_lines(s),
{
    lemma_longest_chain(s, 0, Seq::empty());
}

proof fn lemma_longest_chain(s: Seq<u8>, pos: int, best: Seq<Seq<char>>)
    requires
        0 <= pos,
    ensures
        longest_chain(s, pos, best).len() >= best.len(),
        longest_chain(s, pos, best) == best || exists|p: int|
            0 <= p && #[trigger] chain(s, p) == longest_chain(s, pos, best),
    decreases s.len() - pos,
{
    if pos + 8 <= s.len() {
        lemma_longest_chain(s, pos + 1, longer(best, chain(s, pos)));
    }
}

/// The carved lines are those of the longest run: a run of blocks that starts at any offset is no
/// longer than theirs, or too short to be a log.
pub proof fn law_carved_lines_are_longest(s: Seq<u8>, pos: int)
    requires
        0 <= pos,
    ensures
        chain(s, pos).len() < 3 || chain(s, pos).len() <= carved_lines(s).len(),
{
    if is_block(s, pos) {
        lemma_longest_chain_covers(s, 0, Seq::empty(), pos);
    }
}

proof fn lemma_longest_chain_covers(s: Seq<u8>, from: int, best: Seq<Seq<char>>, pos: int)
    requires
        0 <= from <= pos,
        is_block(s, pos),
    ensures
        longest_chain(s, from, best).len() >= chain(s, pos).len(),
    decreases pos - from,
{
    let better = longer(best, chain(s, from));
    if from == pos {
        lemma_longest_chain(s, from + 1, better);
    } else {
        lemma_longest_chain_covers(s, from + 1, better, pos);
    }
}

/// A record as a kernel writes it: what it says, with the newlines behind its text, and its dict.
pub struct WrittenRecord {
    pub ts_nsec: u64,
    pub level: u8,
    /// The message, which does not end in a newline.
    pub message: Seq<char>,
    /// How many newlines stand behind the message.
    pub newlines: nat,
    pub dict: Seq<u8>,
    /// How many bytes the whole record takes.
    pub len: nat,
}

impl WrittenRecord {
    /// The bytes of the message and its newlines.
    pub open spec fn text_len(&self) -> int {
        (self.message.len() + self.newlines) as int
    }

    /// The message is ASCII text, ends in no newline, and everything has room.
    pub open spec fn ok(&self) -> bool {
        &&& self.level < 8
        &&& forall|i: int| 0 <= i < self.message.len() ==> (#[trigger] self.message[i] as int) < 0x80
        &&& self.message.len() > 0 ==> self.message.last() != '\n'
        &&& 16 + self.text_len() + self.dict.len() <= self.len < 0x1_0000
    }

    /// What the record says.
    pub open spec fn says(&self) -> LogModel {
        LogModel { ts_nsec: self.ts_nsec, level: self.level, text: self.message }
    }
}

/// A record stands at `pos`: a time of 8 bytes, the lengths of the record, of its text and of its
/// dict, of 2 bytes each, two bytes of which the lowest three bits of the second are the level, the
/// text, the dict, and anything up to the record's length.
pub open spec fn record_stands(s: Seq<u8>, pos: int, r: WrittenRecord) -> bool {
    &&& 0 <= pos && pos + r.len <= s.len()
    &&& holds64(s, pos, r.ts_nsec as int)
    &&& holds16(s, pos + 8, r.len as int)
    &&& holds16(s, pos + 10, r.text_len())
    &&& holds16(s, pos + 12, r.dict.len() as int)
    &&& s[pos + 15] % 8 == r.level
    &&& forall|i: int|
        0 <= i < r.message.len() ==> s[pos + 16 + i] as int == #[trigger] r.message[i] as int
    &&& forall|i: int|
        r.message.len() <= i < r.text_len() ==> #[trigger] s[pos + 16 + i] == 0x0A
    &&& forall|i: int|
        0 <= i < r.dict.len() ==> s[pos + 16 + r.text_len() + i] == #[trigger] r.dict[i]
}

/// Records stand one behind the other from `pos` on, and behind the last the data ends, or a length
/// of zero marks the end.
pub open spec fn log_stands(s: Seq<u8>, pos: int, records: Seq<WrittenRecord>) -> bool
    decreases records.len(),
{
    if records.len() == 0 {
        pos + 16 > s.len() || (s[pos + 8] == 0 && s[pos + 9] == 0)
    } else {
        &&& records[0].ok()
        &&& record_stands(s, pos, records[0])
        &&& log_stands(s, pos + records[0].len, records.drop_first())
    }
}

/// What records say.
pub open spec fn messages(records: Seq<WrittenRecord>) -> Seq<LogModel> {
    Seq::new(records.len(), |i: int| records[i].says())
}

/// Parsing a log gives back what was written, record by record: the time, the level and exactly the
/// message, whatever its dict holds and whatever fills up the record.
pub proof fn law_records_are_read_back(s: Seq<u8>, pos: int, records: Seq<WrittenRecord>)
    requires
        0 <= pos,
        log_stands(s, pos, records),
    ensures
        records_from(s, pos) == messages(records),
    decreases records.len(),
{
    if records.len() == 0 {
        assert(messages(records).len() == 0);
    } else {
        let r = records[0];
        let rest = records.drop_first();
        lemma_record_is_read_back(s, pos, r);
        law_records_are_read_back(s, pos + r.len, rest);
        assert(seq![r.says()] + messages(rest) == messages(records));
    }
}

proof fn lemma_record_is_read_back(s: Seq<u8>, pos: int, r: WrittenRecord)
    requires
        r.ok(),
        record_stands(s, pos, r),
    ensures
        is_record(s, pos),
        record_len(s, pos) == r.len,
        record_text_len(s, pos) == r.text_len(),
        record_at(s, pos) == r.says(),
{
    law_64_bits_are_read_back(s, pos, r.ts_nsec);
    law_16_bits_are_read_back(s, pos + 8, r.len as u16);
    law_16_bits_are_read_back(s, pos + 10, r.text_len() as u16);
    let b = s[pos + 15];
    assert(b & 0x07 == b % 8) by (bit_vector);
    let bytes = record_text(s, pos);
    let text = r.message + repeat('\n', r.newlines as int);
    assert forall|i: int| 0 <= i < bytes.len() implies bytes[i] < 0x80 && bytes[i] as char
        == #[trigger] text[i] by {
        assert(bytes[i] == s[pos + 16 + i]);
        if i < r.message.len() {
            assert(s[pos + 16 + i] as int == r.message[i] as int);
        }
    }
    assert forall|i: int| 0 <= i < bytes.len() implies #[trigger] bytes[i] < 0x80 by {
        assert(bytes[i] as char == text[i]);
    }
    law_ascii_text(bytes);
    assert(utf8_text(bytes) == text);
    lemma_newlines_trimmed(r.message, r.newlines);
}

proof fn lemma_newlines_trimmed(message: Seq<char>, n: nat)
    requires
        message.len() > 0 ==> message.last() != '\n',
    ensures
        trim_end_char(message + repeat('\n', n as int), '\n') == message,
    decreases n,
{
    let text = message + repeat('\n', n as int);
    if n > 0 {
        assert(text.drop_last() == message + repeat('\n', n - 1));
        lemma_newlines_trimmed(message, (n - 1) as nat);
    } else {
        assert(text == message);
    }
}

/// The dict of a record does not count: two buffers in which a record differs in nothing but its
/// dict's length and what stands behind its text hold the same text, level and time there.
pub proof fn law_dict_is_ignored(s: Seq<u8>, t: Seq<u8>, pos: int)
    requires
        0 <= pos,
        is_record(s, pos),
        s.len() == t.len(),
        forall|j: int|
            0 <= j < s.len() && !(pos + 12 <= j < pos + 14) && !(pos + 16 + u16_at(s, pos + 10) <= j)
                ==> #[trigger] s[j] == t[j],
    ensures
        is_record(t, pos),
        record_at(s, pos) == record_at(t, pos),
        records_from(t, pos).len() > 0 && records_from(t, pos)[0] == records_from(s, pos)[0],
{
    assert(record_text(s, pos) == record_text(t, pos));
}

/// A log that stands anywhere in a dump is found: if its first text is printable and it has five or
/// more records, no fewer records than its own are carved.
pub proof fn law_log_in_a_dump_is_found(s: Seq<u8>, pos: int, records: Seq<WrittenRecord>)
    requires
        0 <= pos,
        log_stands(s, pos, records),
        records.len() >= 5,
        records[0].message.len() > 0,
        forall|i: int|
            0 <= i < records[0].message.len() ==> ' ' <= #[trigger] records[0].message[i] <= '~',
    ensures
        carved(s).len() >= records.len(),
{
    let r = records[0];
    law_records_are_read_back(s, pos, records);
    lemma_record_is_read_back(s, pos, r);
    let text = record_text(s, pos);
    assert forall|i: int| 0 <= i < text.len() implies is_printable(#[trigger] text[i]) by {
        assert(text[i] == s[pos + 16 + i]);
        if i < r.message.len() {
            assert(s[pos + 16 + i] as int == r.message[i] as int);
        }
    }
    lemma_all_printable(text);
    law_carved_is_longest(s, pos);
}

proof fn lemma_all_printable(t: Seq<u8>)
    requires
        forall|i: int| 0 <= i < t.len() ==> is_printable(#[trigger] t[i]),
    ensures
        printable_count(t) == t.len(),
    decreases t.len(),
{
    if t.len() > 0 {
        lemma_all_printable(t.drop_last());
        assert(is_printable(t[t.len() - 1]));
    }
}

/// A record is shown as its time and its text: behind the bracket stand the seconds and, in six
/// digits, the microseconds, which add up to the time.
pub proof fn law_lines_show_time_and_text(r: LogModel)
    ensures
        exists|secs: Seq<char>, micros: Seq<char>|
            {
                &&& #[trigger] is_digits(secs, 10, false)
                &&& #[trigger] is_digits(micros, 10, false) && micros.len() == 6
                &&& number_of(secs, 10) * 1_000_000_000 + number_of(micros, 10) * 1000 <= r.ts_nsec
                    < number_of(secs, 10) * 1_000_000_000 + number_of(micros, 10) * 1000 + 1000
                &&& number_of(micros, 10) < 1_000_000
                &&& dmesg_line(r) == "["@ + repeat(' ', 5 - secs.len()) + secs + "."@ + micros
                    + "] "@ + r.text
            },
{
    let s = r.ts_nsec as int / 1_000_000_000;
    let m = (r.ts_nsec as int % 1_000_000_000) / 1000;
    let secs = dec(s);
    let micros = pad_left(dec(m), 6, '0');
    law_decimal_stands_for_its_number(s);
    law_decimal_stands_for_its_number(m);
    law_leading_zeros_count_nothing(dec(m), 6, 10);
    reveal_with_fuel(pow, 7);
    assert(pow(10, 6) == 1_000_000);
    lemma_numeral_len(m as nat, 10, 6, false);
    assert forall|i: int| 0 <= i < micros.len() implies 0 <= digit_number(#[trigger] micros[i]) < 10
        && !('A' <= micros[i] <= 'Z') by {
        let gap = micros.len() - dec(m).len();
        if i >= gap {
            assert(micros[i] == dec(m)[i - gap]);
        }
    }
    assert(is_digits(secs, 10, false) && is_digits(micros, 10, false));
    assert(dmesg_line(r) == "["@ + repeat(' ', 5 - secs.len()) + secs + "."@ + micros + "] "@ + r.text);
}

/// The text of a record is what its text bytes say, whatever they are: the bytes behind the header, as
/// many as bytes 10 and 11 count, without the newlines at their end.
pub proof fn law_text_is_what_its_bytes_say(s: Seq<u8>, pos: int, len: int, text: Seq<u8>)
    requires
        0 <= pos && pos + len <= s.len(),
        holds16(s, pos + 8, len),
        holds16(s, pos + 10, text.len() as int),
        16 + text.len() <= len,
        s.subrange(pos + 16, (pos + 16 + text.len()) as int) == text,
    ensures
        records_from(s, pos).len() > 0,
        records_from(s, pos)[0].text == trim_end_char(utf8_text(text), '\n'),
        is_plausible(s, pos) <==> text.len() > 0 && 10 * text.filter(
            |b: u8| b == 0x0A || 0x20 <= b <= 0x7E,
        ).len() >= 9 * text.len(),
{
    law_16_bits_are_read_back(s, pos + 8, len as u16);
    law_16_bits_are_read_back(s, pos + 10, text.len() as u16);
    assert(record_text(s, pos) == text);
    lemma_printable_count(text);
}

proof fn lemma_printable_count(t: Seq<u8>)
    ensures
        printable_count(t) == t.filter(|b: u8| b == 0x0A || 0x20 <= b <= 0x7E).len(),
    decreases t.len(),
{
    reveal(Seq::filter);
    if t.len() > 0 {
        lemma_printable_count(t.drop_last());
    }
}

/// A data block as a kernel writes it: its id, the message with the newlines behind it, and how many
/// NULs fill it up to a multiple of eight bytes.
pub struct WrittenBlock {
    pub id: u64,
    /// The message, which does not end in a newline.
    pub message: Seq<char>,
    /// How many newlines stand behind the message.
    pub newlines: nat,
    pub padding: nat,
}

impl WrittenBlock {
    /// The bytes of the message and its newlines.
    pub open spec fn text_len(&self) -> int {
        (self.message.len() + self.newlines) as int
    }

    /// The message is printable text, ends in no newline, and the block is filled up.
    pub open spec fn ok(&self) -> bool {
        &&& 0 < self.text_len() <= 1024
        &&& forall|i: int|
            0 <= i < self.message.len() ==> ' ' <= #[trigger] self.message[i] <= '~'
        &&& self.padding < 8 && (self.text_len() + self.padding) % 8 == 0
    }
}

/// A block stands at `p`: its id of 8 bytes, its text, and the NULs.
pub open spec fn block_stands(s: Seq<u8>, p: int, b: WrittenBlock) -> bool {
    &&& 0 <= p && p + 8 + b.text_len() + b.padding <= s.len()
    &&& holds64(s, p, b.id as int)
    &&& forall|i: int|
        0 <= i < b.message.len() ==> s[p + 8 + i] as int == #[trigger] b.message[i] as int
    &&& forall|i: int| b.message.len() <= i < b.text_len() ==> #[trigger] s[p + 8 + i] == 0x0A
    &&& forall|i: int|
        b.text_len() <= i < b.text_len() + b.padding ==> #[trigger] s[p + 8 + i] == 0
}

/// No eight bytes at a multiple of eight behind the id at `p`, before `to`, read as the next id.
pub open spec fn no_next_id(s: Seq<u8>, p: int, id: u64, to: int) -> bool {
    forall|q: int| p + 16 <= q < to && (q - p) % 8 == 0 ==> #[trigger] u64_at(s, q) != id + 1
}

/// Blocks stand one behind the other from `p` on, their ids ascending by one. Behind the last neither
/// its text goes on nor another block follows it.
pub open spec fn blocks_stand(s: Seq<u8>, p: int, blocks: Seq<WrittenBlock>) -> bool
    decreases blocks.len(),
{
    blocks.len() > 0 && {
        let b = blocks[0];
        let next = p + 8 + b.text_len() + b.padding;
        &&& b.ok()
        &&& block_stands(s, p, b)
        &&& if blocks.len() == 1 {
            &&& b.padding > 0 || next == s.len() || !(s[next] == 0x0A || 0x20 <= s[next] <= 0x7E)
            &&& no_next_id(s, p, b.id, p + 8 + b.text_len() + 8)
        } else {
            &&& blocks[1].id == b.id + 1
            &&& no_next_id(s, p, b.id, next)
            &&& blocks_stand(s, next, blocks.drop_first())
        }
    }
}

/// The lines of a ring buffer are given back as they were written: the message of each block, in order.
pub proof fn law_blocks_are_read_back(s: Seq<u8>, p: int, blocks: Seq<WrittenBlock>)
    requires
        blocks_stand(s, p, blocks),
    ensures
        chain(s, p) == Seq::new(blocks.len(), |i: int| blocks[i].message),
    decreases blocks.len(),
{
    let b = blocks[0];
    let next = p + 8 + b.text_len() + b.padding;
    let lines = Seq::new(blocks.len(), |i: int| blocks[i].message);
    if blocks.len() == 1 {
        lemma_last_block(s, p, b);
        assert(lines == seq![b.message]);
    } else {
        let rest = blocks.drop_first();
        assert(rest[0] == blocks[1]);
        lemma_first_block(s, next, rest);
        lemma_block_is_followed(s, p, b, next);
        law_blocks_are_read_back(s, next, rest);
        assert(seq![b.message] + Seq::new(rest.len(), |i: int| rest[i].message) == lines);
    }
}

proof fn lemma_first_block(s: Seq<u8>, p: int, blocks: Seq<WrittenBlock>)
    requires
        blocks_stand(s, p, blocks),
    ensures
        0 <= p && p + 8 <= s.len(),
        u64_at(s, p) == blocks[0].id,
{
    law_64_bits_are_read_back(s, p, blocks[0].id);
}

proof fn lemma_last_block(s: Seq<u8>, p: int, b: WrittenBlock)
    requires
        b.ok(),
        block_stands(s, p, b),
        ({
            let next = p + 8 + b.text_len() + b.padding;
            b.padding > 0 || next == s.len() || !(s[next] == 0x0A || 0x20 <= s[next] <= 0x7E)
        }),
        no_next_id(s, p, b.id, p + 8 + b.text_len() + 8),
    ensures
        chain(s, p) == seq![b.message],
{
    let n = b.text_len();
    law_64_bits_are_read_back(s, p, b.id);
    lemma_block_is_printable(s, p, b);
    lemma_block_line(s, p, b);
    if b.padding > 0 {
        assert(s[p + 8 + n] == 0);
    }
    lemma_run(s, p + 8, n as nat, 1024);
    lemma_no_next(s, p, p + 16, b.id);
    assert(block_text(s, p, s.len() as int) == s.subrange(p + 8, p + 8 + n));
}

proof fn lemma_block_is_followed(s: Seq<u8>, p: int, b: WrittenBlock, next: int)
    requires
        b.ok(),
        block_stands(s, p, b),
        next == p + 8 + b.text_len() + b.padding,
        next + 8 <= s.len(),
        u64_at(s, next) == b.id + 1,
        no_next_id(s, p, b.id, next),
    ensures
        chain(s, p) == seq![b.message] + chain(s, next),
{
    let n = b.text_len();
    law_64_bits_are_read_back(s, p, b.id);
    lemma_block_is_printable(s, p, b);
    lemma_block_line(s, p, b);
    lemma_run_at_least(s, p + 8, n as nat, 1024);
    if b.padding > 0 {
        assert(s[p + 8 + n] == 0);
        lemma_run(s, p + 8, n as nat, 1024);
    }
    assert(follows(s, p, next)) by {
        assert forall|j: int| p + 8 + block_run(s, p) <= j < next implies s[j] == 0 by {
            assert(s[p + 8 + (j - p - 8)] == 0);
        }
    }
    lemma_skip_to(s, p, p + 16, next, b.id);
    assert(block_text(s, p, next) == s.subrange(p + 8, p + 8 + n));
}

proof fn lemma_block_is_printable(s: Seq<u8>, p: int, b: WrittenBlock)
    requires
        b.ok(),
        block_stands(s, p, b),
    ensures
        forall|i: int|
            p + 8 <= i < p + 8 + b.text_len() ==> is_printable(#[trigger] s[i]) && s[i] < 0x80,
{
    assert forall|i: int| p + 8 <= i < p + 8 + b.text_len() implies is_printable(#[trigger] s[i])
        && s[i] < 0x80 by {
        let k = i - p - 8;
        if k < b.message.len() {
            assert(s[p + 8 + k] as int == b.message[k] as int);
        } else {
            assert(s[p + 8 + k] == 0x0A);
        }
    }
}

proof fn lemma_block_line(s: Seq<u8>, p: int, b: WrittenBlock)
    requires
        b.ok(),
        block_stands(s, p, b),
    ensures
        line_of(s.subrange(p + 8, p + 8 + b.text_len())) == b.message,
{
    let bytes = s.subrange(p + 8, p + 8 + b.text_len());
    let text = b.message + repeat('\n', b.newlines as int);
    lemma_block_is_printable(s, p, b);
    assert forall|i: int| 0 <= i < bytes.len() implies bytes[i] < 0x80 && bytes[i] as char
        == #[trigger] text[i] by {
        assert(bytes[i] == s[p + 8 + i]);
        if i < b.message.len() {
            assert(s[p + 8 + i] as int == b.message[i] as int);
        }
    }
    assert forall|i: int| 0 <= i < bytes.len() implies #[trigger] bytes[i] < 0x80 by {
        assert(bytes[i] as char == text[i]);
    }
    law_ascii_text(bytes);
    assert(utf8_text(bytes) == text);
    if b.message.len() > 0 {
        assert(' ' <= b.message[b.message.len() - 1]);
    }
    lemma_newlines_trimmed(b.message, b.newlines);
}

proof fn lemma_run_at_least(s: Seq<u8>, at: int, n: nat, cap: nat)
    requires
        0 <= at,
        at + n <= s.len(),
        n <= cap,
        forall|i: int| at <= i < at + n ==> is_printable(#[trigger] s[i]),
    ensures
        text_run(s, at, cap) >= n,
    decreases n,
{
    if n > 0 {
        assert(is_printable(s[at]));
        lemma_run_at_least(s, at + 1, (n - 1) as nat, (cap - 1) as nat);
    }
}

proof fn lemma_run(s: Seq<u8>, at: int, n: nat, cap: nat)
    requires
        0 <= at,
        at + n <= s.len(),
        n <= cap,
        forall|i: int| at <= i < at + n ==> is_printable(#[trigger] s[i]),
        n == cap || at + n == s.len() || !is_printable(s[at + n]),
    ensures
        text_run(s, at, cap) == n,
    decreases n,
{
    if n > 0 {
        assert(is_printable(s[at]));
        lemma_run(s, at + 1, (n - 1) as nat, (cap - 1) as nat);
    }
}

proof fn lemma_skip_to(s: Seq<u8>, p: int, q: int, to: int, id: u64)
    requires
        p + 16 <= q <= to,
        (q - p) % 8 == 0,
        (to - p) % 8 == 0,
        to <= p + 8 + block_run(s, p) + 7,
        to + 8 <= s.len(),
        u64_at(s, p) == id,
        no_next_id(s, p, id, to),
        follows(s, p, to),
    ensures
        next_block(s, p, q) == Some(to),
    decreases to - q,
{
    if q < to {
        assert(u64_at(s, q) != id + 1);
        lemma_skip_to(s, p, q + 8, to, id);
    }
}

proof fn lemma_no_next(s: Seq<u8>, p: int, q: int, id: u64)
    requires
        p + 16 <= q,
        (q - p) % 8 == 0,
        u64_at(s, p) == id,
        no_next_id(s, p, id, p + 8 + block_run(s, p) + 8),
    ensures
        next_block(s, p, q) is None,
    decreases s.len() - q,
{
    if q + 8 <= s.len() && q <= p + 8 + block_run(s, p) + 7 {
        assert(u64_at(s, q) != id + 1);
        lemma_no_next(s, p, q + 8, id);
    }
}

/// A ring buffer that stands anywhere in a dump is found: where it has three or more blocks, no fewer
/// lines than its own are carved.
pub proof fn law_ring_buffer_in_a_dump_is_found(s: Seq<u8>, p: int, blocks: Seq<WrittenBlock>)
    requires
        blocks_stand(s, p, blocks),
        blocks.len() >= 3,
    ensures
        carved_lines(s).len() >= blocks.len(),
{
    law_blocks_are_read_back(s, p, blocks);
    law_carved_lines_are_longest(s, p);
}

} // verus!
