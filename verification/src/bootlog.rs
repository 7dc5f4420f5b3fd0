//! One-step boot-log extraction: carve the kernel log out of the RAM region that Samsung's
//! `sec_log` keeps it in, so that a caller need not know the address.
//!
//! The kernel copies its log into a fixed RAM buffer even when the live console is silenced. On
//! the SM-J250Y the kernel command line advertises it as `sec_log=0x200000@0x85200000`, i.e.
//! 2 MiB at physical `0x85200000`. Both are board-specific.

use vstd::prelude::*;

use crate::dmesg::{
    carve_dmesg, carve_ringbuffer, carved, carved_lines, dmesg_line, law_log_in_a_dump_is_found,
    log_models, log_stands, LogModel, LogRecord, WrittenRecord,
};
use crate::text::{ends_in, views};

verus! {

/// Physical address of the kernel-log (`sec_log`) RAM buffer on the SM-J250Y.
pub const DEFAULT_SEC_LOG_ADDR: u64 = 0x8520_0000;

/// Size of that buffer (2 MiB on SM-J250Y).
pub const DEFAULT_SEC_LOG_SIZE: u64 = 0x0020_0000;

/// A carved boot log: structured records (with timestamps) when the classic `printk_log` format
/// is found, else best-effort text lines from a Linux 5.10+ `printk_ringbuffer`.
#[derive(Debug, Clone, PartialEq, Eq)]
pub enum BootLog {
    /// Structured `printk_log` records (Linux 3.5 to 5.9): timestamp, level and text.
    Records(Vec<LogRecord>),
    /// Text-only lines recovered from a 5.10+ ringbuffer (no timestamps).
    TextLines(Vec<String>),
}

/// What a boot log says.
pub enum BootLogModel {
    Records(Seq<LogModel>),
    TextLines(Seq<Seq<char>>),
}

impl View for BootLog {
    type V = BootLogModel;

    open spec fn view(&self) -> BootLogModel {
        match self {
            BootLog::Records(r) => BootLogModel::Records(log_models(r@)),
            BootLog::TextLines(t) => BootLogModel::TextLines(views(t@)),
        }
    }
}

/// The lines of a boot log: records as `dmesg` shows them, ringbuffer text as it is.
pub open spec fn log_lines(log: BootLogModel) -> Seq<Seq<char>> {
    match log {
        BootLogModel::Records(r) => Seq::new(r.len(), |i: int| dmesg_line(r[i])),
        BootLogModel::TextLines(t) => t,
    }
}

/// Which format was recovered, in words.
pub open spec fn log_kind(log: BootLogModel) -> Seq<char> {
    match log {
        BootLogModel::Records(_) => "structured printk_log"@,
        BootLogModel::TextLines(_) => "5.10+ ringbuffer — text only, no timestamps"@,
    }
}

/// The kernel log in a dump: structured records where there are any, else ringbuffer text.
pub open spec fn carved_log(dump: Seq<u8>) -> BootLogModel {
    if carved(dump).len() > 0 {
        BootLogModel::Records(carved(dump))
    } else {
        BootLogModel::TextLines(carved_lines(dump))
    }
}

impl BootLog {
    /// True if no log line was recovered.
    pub fn is_empty(&self) -> (r: bool)
        ensures
            r == (log_lines(self@).len() == 0),
    {
        match self {
            BootLog::Records(r) => r.is_empty(),
            BootLog::TextLines(t) => t.is_empty(),
        }
    }

    /// Number of recovered lines.
    pub fn len(&self) -> (n: usize)
        ensures
            n == log_lines(self@).len(),
    {
        match self {
            BootLog::Records(r) => r.len(),
            BootLog::TextLines(t) => t.len(),
        }
    }

    /// A short human description of which format was recovered.
    pub fn kind(&self) -> (s: &'static str)
        ensures
            s@ == log_kind(self@),
    {
        match self {
            BootLog::Records(_) => "structured printk_log",
            BootLog::TextLines(_) => "5.10+ ringbuffer — text only, no timestamps",
        }
    }

    /// Render as `dmesg`-style lines.
    pub fn lines(&self) -> (v: Vec<String>)
        ensures
            views(v@) == log_lines(self@),
    {
        let mut v: Vec<String> = Vec::new();
        match self {
            BootLog::Records(r) => {
                let mut i: usize = 0;
                while i < r.len()
                    invariant
                        i <= r@.len(),
                        v@.len() == i,
                        forall|j: int| 0 <= j < i ==> (#[trigger] v@[j])@ == dmesg_line(r@[j]@),
                    decreases r@.len() - i,
                {
                    v.push(r[i].format_line());
                    i = i + 1;
                }
            },
            BootLog::TextLines(t) => {
                let mut i: usize = 0;
                while i < t.len()
                    invariant
                        i <= t@.len(),
                        v@.len() == i,
                        forall|j: int| 0 <= j < i ==> (#[trigger] v@[j])@ == t@[j]@,
                    decreases t@.len() - i,
                {
                    v.push(t[i].clone());
                    i = i + 1;
                }
            },
        }
        assert(views(v@) == log_lines(self@));
        v
    }
}

/// Carve a kernel log out of already-dumped RAM: prefer the structured `printk_log` records; if
/// none are found, fall back to the 5.10+ ringbuffer text.
pub fn carve(raw: &[u8]) -> (log: BootLog)
    ensures
        log@ == carved_log(raw@),
{
    let recs = carve_dmesg(raw);
    if !recs.is_empty() {
        BootLog::Records(recs)
    } else {
        BootLog::TextLines(carve_ringbuffer(raw))
    }
}

/// A log of structured records is preferred: where one with five or more records stands in a dump,
/// it is records that are recovered, no fewer than it has, and each line ends in its record's text.
pub proof fn law_records_are_preferred(dump: Seq<u8>, pos: int, records: Seq<WrittenRecord>, i: int)
    requires
        0 <= pos,
        log_stands(dump, pos, records),
        records.len() >= 5,
        records[0].message.len() > 0,
        forall|k: int|
            0 <= k < records[0].message.len() ==> ' ' <= #[trigger] records[0].message[k] <= '~',
    ensures
        carved_log(dump) matches BootLogModel::Records(found) && found.len() >= records.len() && (0
            <= i < found.len() ==> ends_in(log_lines(carved_log(dump))[i], found[i].text)),
        log_lines(carved_log(dump)).len() >= records.len(),
{
    law_log_in_a_dump_is_found(dump, pos, records);
    let found = carved(dump);
    if 0 <= i < found.len() {
        let line = dmesg_line(found[i]);
        let text = found[i].text;
        assert(line.subrange(line.len() - text.len(), line.len() as int) == text);
    }
}

/// A dump without structured records gives the ringbuffer's lines as they are.
pub proof fn law_ringbuffer_is_the_fallback(dump: Seq<u8>)
    ensures
        carved(dump).len() == 0 ==> log_lines(carved_log(dump)) == carved_lines(dump),
        carved(dump).len() > 0 ==> log_lines(carved_log(dump)).len() == carved(dump).len(),
{
}

} // verus!
