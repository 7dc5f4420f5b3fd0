//! The flash-sequence arithmetic: how a partition image is cut into sequences of about 30 MB,
//! each into fixed-size parts, by constants chosen from the bootloader version.
//!
//! This is planning only. Nothing here talks to a device.

use vstd::arithmetic::div_mod::{lemma_fundamental_div_mod, lemma_mod_multiples_basic};
use vstd::prelude::*;

verus! {

/// Sizing and timeout constants of a flash, selected from the bootloader version.
#[derive(Debug, Clone, Copy, PartialEq, Eq, Structural)]
pub struct FlashParams {
    /// Bytes per USB part (128 KiB on old bootloaders, 1 MiB on new).
    pub packet_size: i64,
    /// Parts per sequence (240 old, 30 new).
    pub packets_per_sequence: i64,
    /// How long to wait for the device to commit a sequence.
    pub flash_timeout_ms: u64,
}

/// One planned sequence of a partition flash.
#[derive(Debug, Clone, Copy, PartialEq, Eq, Structural)]
pub struct FlashSequence {
    pub index: usize,
    /// True byte count of this sequence's data (declared to the device on end-of-sequence).
    pub real_size: i64,
    /// `real_size` rounded up to a whole number of packets (what is sent on the wire).
    pub aligned_size: i64,
    /// Number of `packet_size` parts sent for this sequence.
    pub parts: i64,
    pub is_last: bool,
}

/// The constants of the bootloader generation that `version` belongs to.
pub open spec fn params_for(version: i16) -> FlashParams {
    if version >= 2 {
        FlashParams { packet_size: 1_048_576, packets_per_sequence: 30, flash_timeout_ms: 120_000 }
    } else {
        FlashParams { packet_size: 131_072, packets_per_sequence: 240, flash_timeout_ms: 30_000 }
    }
}

/// `n` divided by `d`, rounded up.
pub open spec fn ceil_div(n: int, d: int) -> int {
    (n + d - 1) / d
}

impl FlashParams {
    /// Bytes in one full sequence.
    pub open spec fn sequence_bytes(&self) -> int {
        self.packet_size * self.packets_per_sequence
    }

    /// The size of a sequence is a number the machine can hold.
    pub open spec fn fits(&self) -> bool {
        i64::MIN <= self.sequence_bytes() <= i64::MAX
    }

    /// Whether `length` bytes are anything to plan for.
    pub open spec fn plannable(&self, length: int) -> bool {
        length > 0 && self.packet_size > 0 && self.packets_per_sequence > 0
    }

    /// How many sequences an image of `length` bytes takes.
    pub open spec fn sequence_count(&self, length: int) -> int {
        if self.plannable(length) {
            ceil_div(length, self.sequence_bytes())
        } else {
            0
        }
    }

    /// Sequence `i` of an image of `length` bytes: the bytes from `i * sequence_bytes()` on, as
    /// many as are left but no more than one sequence holds, sent in whole packets.
    pub open spec fn sequence_of(&self, length: int, i: int) -> FlashSequence {
        let seq = self.sequence_bytes();
        let left = length - i * seq;
        let data = if left < seq {
            left
        } else {
            seq
        };
        let parts = ceil_div(data, self.packet_size as int);
        FlashSequence {
            index: i as usize,
            real_size: data as i64,
            aligned_size: (parts * self.packet_size) as i64,
            parts: parts as i64,
            is_last: i + 1 == self.sequence_count(length),
        }
    }

    /// The plan for an image of `length` bytes.
    pub open spec fn plan(&self, length: int) -> Seq<FlashSequence> {
        Seq::new(self.sequence_count(length) as nat, |i: int| self.sequence_of(length, i))
    }

    /// The constants for a bootloader `version` (from the `BeginSession` reply). Anything below
    /// 2 is the old generation.
    pub fn for_bootloader_version(version: i16) -> (r: Self)
        ensures
            r == params_for(version),
            r.fits(),
    {
        if version >= 2 {
            FlashParams {
                packet_size: 1_048_576,
                packets_per_sequence: 30,
                flash_timeout_ms: 120_000,
            }
        } else {
            FlashParams {
                packet_size: 131_072,
                packets_per_sequence: 240,
                flash_timeout_ms: 30_000,
            }
        }
    }

    /// Bytes in one full sequence.
    pub fn sequence_size(&self) -> (r: i64)
        requires
            self.fits(),
        ensures
            r == self.sequence_bytes(),
    {
        self.packet_size * self.packets_per_sequence
    }
}

/// Plan how a `length`-byte image is split into sequences and parts. The plan of an image
/// without bytes, or for sizes that are not positive, is empty.
pub fn plan_flash(length: i64, params: &FlashParams) -> (r: Vec<FlashSequence>)
    requires
        params.fits(),
        params.sequence_count(length as int) <= usize::MAX,
    ensures
        r@ == params.plan(length as int),
{
    let seq: i64 = params.sequence_size();
    let packet: i64 = params.packet_size;
    let mut out: Vec<FlashSequence> = Vec::new();
    if length <= 0 || seq <= 0 || packet <= 0 {
        proof {
            lemma_product_sign(params.packet_size as int, params.packets_per_sequence as int);
        }
        assert(out@ == params.plan(length as int));
        return out;
    }
    proof {
        lemma_product_sign(params.packet_size as int, params.packets_per_sequence as int);
    }
    let whole: i64 = length / seq;
    let remainder: i64 = length % seq;
    let ghost count = params.sequence_count(length as int);
    proof {
        lemma_count(length as int, seq as int);
    }
    let total: i64 = if remainder != 0 {
        whole + 1
    } else {
        whole
    };
    let mut i: i64 = 0;
    while i < total
        invariant
            0 <= i <= total,
            total == count,
            count == params.sequence_count(length as int),
            count <= usize::MAX,
            params.plannable(length as int),
            seq == params.sequence_bytes(),
            packet == params.packet_size,
            seq > 0,
            remainder == length % seq,
            total == length / seq + (if remainder != 0 {
                1int
            } else {
                0int
            }),
            out@ == params.plan(length as int).take(i as int),
        decreases total - i,
    {
        let is_last = i + 1 == total;
        let real_size: i64 = if is_last && remainder != 0 {
            remainder
        } else {
            seq
        };
        let rem: i64 = real_size % packet;
        proof {
            lemma_left(length as int, seq as int, i as int);
            lemma_align(
                real_size as int,
                packet as int,
                params.packets_per_sequence as int,
                seq as int,
            );
        }
        let aligned_size: i64 = if rem == 0 {
            real_size
        } else {
            real_size + (packet - rem)
        };
        let s = FlashSequence {
            index: i as usize,
            real_size,
            aligned_size,
            parts: aligned_size / packet,
            is_last,
        };
        assert(s == params.sequence_of(length as int, i as int));
        out.push(s);
        i = i + 1;
        assert(out@ == params.plan(length as int).take(i as int));
    }
    assert(out@ == params.plan(length as int));
    out
}

/// A product of two numbers, the first positive, has the sign of the second.
proof fn lemma_product_sign(a: int, b: int)
    ensures
        a > 0 ==> (a * b > 0 <==> b > 0),
{
    assert(a > 0 && b > 0 ==> a * b > 0) by (nonlinear_arith);
    assert(a > 0 && b <= 0 ==> a * b <= 0) by (nonlinear_arith);
}

/// Rounding a quotient up adds one exactly where there is a remainder.
pub proof fn lemma_count(length: int, seq: int)
    requires
        length > 0,
        seq > 0,
    ensures
        ceil_div(length, seq) == length / seq + (if length % seq != 0 {
            1int
        } else {
            0int
        }),
        0 <= length / seq <= length,
        0 < ceil_div(length, seq) <= length,
        0 <= length % seq < seq,
{
    let q = length / seq;
    let r = length % seq;
    lemma_fundamental_div_mod(length, seq);
    assert(0 <= q && q + (if r != 0 {
        1int
    } else {
        0int
    }) <= length && (q > 0 || r != 0)) by (nonlinear_arith)
        requires
            length == seq * q + r,
            0 <= r < seq,
            seq > 0,
            length > 0,
    ;
    let n = length + seq - 1;
    lemma_fundamental_div_mod(n, seq);
    let p = n / seq;
    let t = n % seq;
    if r == 0 {
        assert(p == q) by (nonlinear_arith)
            requires
                seq * p + t == seq * q + seq - 1,
                0 <= t < seq,
                seq > 0,
        ;
    } else {
        assert(p == q + 1) by (nonlinear_arith)
            requires
                seq * p + t == seq * q + r + seq - 1,
                0 < r < seq,
                0 <= t < seq,
                seq > 0,
        ;
    }
}

/// What is left of an image before sequence `i`: a full sequence before the last, and the
/// remainder (or a full sequence) at the last.
proof fn lemma_left(length: int, seq: int, i: int)
    requires
        length > 0,
        seq > 0,
        0 <= i < ceil_div(length, seq),
    ensures
        i + 1 < ceil_div(length, seq) ==> length - i * seq >= seq,
        i + 1 == ceil_div(length, seq) && length % seq != 0 ==> length - i * seq == length % seq,
        i + 1 == ceil_div(length, seq) && length % seq == 0 ==> length - i * seq == seq,
{
    lemma_count(length, seq);
    lemma_fundamental_div_mod(length, seq);
    let q = length / seq;
    let r = length % seq;
    assert(i + 1 <= q ==> length - i * seq >= seq) by (nonlinear_arith)
        requires
            length == seq * q + r,
            0 <= r,
            seq > 0,
    ;
    assert(i == q ==> length - i * seq == r) by (nonlinear_arith)
        requires
            length == seq * q + r,
    ;
    assert(i + 1 == q && r == 0 ==> length - i * seq == seq) by (nonlinear_arith)
        requires
            length == seq * q + r,
    ;
}

/// Rounding a size up to whole packets, and that the rounded size stays within a sequence.
proof fn lemma_align(data: int, packet: int, per: int, seq: int)
    requires
        0 < data <= seq,
        packet > 0,
        seq == packet * per,
    ensures
        data % packet == 0 ==> ceil_div(data, packet) * packet == data,
        data % packet != 0 ==> ceil_div(data, packet) * packet == data + (packet - data % packet),
        data % packet == 0 ==> data / packet == ceil_div(data, packet),
        data % packet != 0 ==> (data + (packet - data % packet)) / packet == ceil_div(data, packet),
        ceil_div(data, packet) * packet <= seq,
        0 < ceil_div(data, packet) <= data,
        0 <= data % packet < packet,
{
    lemma_count(data, packet);
    lemma_fundamental_div_mod(data, packet);
    let q = data / packet;
    let r = data % packet;
    let c = ceil_div(data, packet);
    assert(r == 0 ==> c * packet == data) by (nonlinear_arith)
        requires
            data == packet * q + r,
            r == 0 ==> c == q,
    ;
    assert(r != 0 ==> c * packet == data + (packet - r)) by (nonlinear_arith)
        requires
            data == packet * q + r,
            r != 0 ==> c == q + 1,
    ;
    assert(c * packet <= seq) by (nonlinear_arith)
        requires
            c * packet < data + packet,
            data <= seq,
            seq == packet * per,
            packet > 0,
    ;
    assert(0 < c) by (nonlinear_arith)
        requires
            c * packet >= data,
            data > 0,
            packet > 0,
    ;
    assert(c <= data) by (nonlinear_arith)
        requires
            c * packet < data + packet,
            data > 0,
            packet > 0,
    ;
    assert((c * packet) / packet == c) by (nonlinear_arith)
        requires
            packet > 0,
    ;
}

/// The bytes of data in the first `n` sequences of a plan.
pub open spec fn real_total(plan: Seq<FlashSequence>) -> int
    decreases plan.len(),
{
    if plan.len() == 0 {
        0
    } else {
        real_total(plan.drop_last()) + plan.last().real_size
    }
}

/// The bytes that a plan puts on the wire.
pub open spec fn wire_total(plan: Seq<FlashSequence>) -> int
    decreases plan.len(),
{
    if plan.len() == 0 {
        0
    } else {
        wire_total(plan.drop_last()) + plan.last().aligned_size
    }
}

/// Every byte of an image is in exactly one sequence of its plan: the sizes add up to the length.
pub proof fn law_plan_covers_image(p: FlashParams, length: i64)
    requires
        p.fits(),
        p.plannable(length as int),
    ensures
        real_total(p.plan(length as int)) == length,
{
    lemma_product_sign(p.packet_size as int, p.packets_per_sequence as int);
    let seq = p.sequence_bytes();
    let plan = p.plan(length as int);
    lemma_count(length as int, seq);
    lemma_covers_prefix(p, length, plan.len());
    assert(plan.take(plan.len() as int) == plan);
    lemma_left(length as int, seq, plan.len() - 1);
    lemma_mul_step(plan.len() as int, seq);
}

proof fn lemma_mul_step(n: int, s: int)
    ensures
        n * s == (n - 1) * s + s,
{
    assert(n * s == (n - 1) * s + s) by (nonlinear_arith);
}

/// The first `n` sequences of a plan hold the first `n * sequence_bytes()` bytes, or them all.
proof fn lemma_covers_prefix(p: FlashParams, length: i64, n: nat)
    requires
        p.fits(),
        p.plannable(length as int),
        n <= p.sequence_count(length as int),
    ensures
        real_total(p.plan(length as int).take(n as int)) == if n * p.sequence_bytes() < length {
            n * p.sequence_bytes()
        } else {
            length as int
        },
    decreases n,
{
    lemma_product_sign(p.packet_size as int, p.packets_per_sequence as int);
    let plan = p.plan(length as int);
    let seq = p.sequence_bytes();
    if n > 0 {
        lemma_covers_prefix(p, length, (n - 1) as nat);
        assert(plan.take(n as int).drop_last() == plan.take(n - 1));
        lemma_left(length as int, seq, n - 1);
        lemma_mul_step(n as int, seq);
        lemma_count(length as int, seq);
    } else {
        assert(plan.take(0).len() == 0);
    }
}

/// Every sequence of a plan is sent in whole packets, wastes less than one packet, has at least
/// one part and no more than a sequence may have; its index is its place, and only the last
/// is marked last.
pub proof fn law_sequence_shape(p: FlashParams, length: i64, i: int)
    requires
        p.fits(),
        0 <= i < p.plan(length as int).len(),
        p.plan(length as int).len() <= usize::MAX,
    ensures
        ({
            let s = p.plan(length as int)[i];
            &&& s.index == i
            &&& 0 < s.real_size <= s.aligned_size < s.real_size + p.packet_size
            &&& s.aligned_size == s.parts * p.packet_size
            &&& 1 <= s.parts <= p.packets_per_sequence
            &&& s.is_last <==> i == p.plan(length as int).len() - 1
            &&& !s.is_last ==> s.real_size == p.sequence_bytes() && s.parts
                == p.packets_per_sequence
        }),
{
    let seq = p.sequence_bytes();
    lemma_product_sign(p.packet_size as int, p.packets_per_sequence as int);
    lemma_count(length as int, seq);
    lemma_left(length as int, seq, i);
    let s = p.sequence_of(length as int, i);
    let left = length - i * seq;
    let data = if left < seq {
        left
    } else {
        seq
    };
    let packet = p.packet_size as int;
    let per = p.packets_per_sequence as int;
    lemma_align(data, packet, per, seq);
    let c = ceil_div(data, packet);
    assert(c <= per) by (nonlinear_arith)
        requires
            c * packet <= packet * per,
            packet > 0,
    ;
    if data == seq {
        lemma_mod_multiples_basic(per, packet);
        assert(c == per) by (nonlinear_arith)
            requires
                c * packet == packet * per,
                packet > 0,
        ;
    }
}

/// Padding costs less than one packet: a plan puts fewer than `packet_size` bytes more on the wire
/// than the image has.
pub proof fn law_plan_waste(p: FlashParams, length: i64)
    requires
        p.fits(),
        p.plannable(length as int),
        p.plan(length as int).len() <= usize::MAX,
    ensures
        length <= wire_total(p.plan(length as int)) < length + p.packet_size,
{
    let plan = p.plan(length as int);
    law_plan_covers_image(p, length);
    lemma_product_sign(p.packet_size as int, p.packets_per_sequence as int);
    lemma_count(length as int, p.sequence_bytes());
    lemma_wire_prefix(p, length, (plan.len() - 1) as nat);
    assert(plan.drop_last() == plan.take(plan.len() - 1));
    law_sequence_shape(p, length, plan.len() - 1);
}

/// Full sequences need no padding.
proof fn lemma_wire_prefix(p: FlashParams, length: i64, n: nat)
    requires
        p.fits(),
        n < p.plan(length as int).len() <= usize::MAX,
    ensures
        wire_total(p.plan(length as int).take(n as int)) == real_total(
            p.plan(length as int).take(n as int),
        ),
    decreases n,
{
    let plan = p.plan(length as int);
    if n > 0 {
        lemma_wire_prefix(p, length, (n - 1) as nat);
        assert(plan.take(n as int).drop_last() == plan.take(n - 1));
        law_sequence_shape(p, length, n - 1);
        let s = plan[n - 1];
        assert(s.aligned_size == p.packets_per_sequence * p.packet_size);
        assert(p.packets_per_sequence * p.packet_size == p.sequence_bytes()) by (nonlinear_arith)
            requires
                p.sequence_bytes() == p.packet_size * p.packets_per_sequence,
        ;
    } else {
        assert(plan.take(0).len() == 0);
    }
}

/// The beginning of a plan puts no more on the wire than the whole.
pub proof fn lemma_wire_grows(p: FlashParams, length: i64, n: int)
    requires
        p.fits(),
        0 <= n <= p.plan(length as int).len() <= usize::MAX,
    ensures
        0 <= wire_total(p.plan(length as int).take(n)) <= wire_total(p.plan(length as int)),
    decreases p.plan(length as int).len() - n,
{
    let plan = p.plan(length as int);
    lemma_wire_nonnegative(p, length, n);
    if n < plan.len() {
        lemma_wire_grows(p, length, n + 1);
        assert(plan.take(n + 1).drop_last() == plan.take(n));
        law_sequence_shape(p, length, n);
    } else {
        assert(plan.take(n) == plan);
    }
}

proof fn lemma_wire_nonnegative(p: FlashParams, length: i64, n: int)
    requires
        p.fits(),
        0 <= n <= p.plan(length as int).len() <= usize::MAX,
    ensures
        0 <= wire_total(p.plan(length as int).take(n)),
    decreases n,
{
    let plan = p.plan(length as int);
    if n > 0 {
        lemma_wire_nonnegative(p, length, n - 1);
        assert(plan.take(n).drop_last() == plan.take(n - 1));
        law_sequence_shape(p, length, n - 1);
    } else {
        assert(plan.take(0).len() == 0);
    }
}

/// The parts of a plan.
pub open spec fn parts_total(plan: Seq<FlashSequence>) -> int
    decreases plan.len(),
{
    if plan.len() == 0 {
        0
    } else {
        parts_total(plan.drop_last()) + plan.last().parts
    }
}

/// A plan sends as many parts as it takes to hold the image, all of them whole.
pub proof fn law_plan_parts(p: FlashParams, length: i64)
    requires
        p.fits(),
        p.plannable(length as int),
        p.plan(length as int).len() <= usize::MAX,
    ensures
        parts_total(p.plan(length as int)) == ceil_div(length as int, p.packet_size as int),
        wire_total(p.plan(length as int)) == ceil_div(length as int, p.packet_size as int)
            * p.packet_size,
{
    let plan = p.plan(length as int);
    law_plan_waste(p, length);
    lemma_parts(p, length, plan.len());
    assert(plan.take(plan.len() as int) == plan);
    let n = parts_total(plan);
    let packet = p.packet_size as int;
    let c = ceil_div(length as int, packet);
    lemma_count(length as int, packet);
    lemma_fundamental_div_mod(length as int, packet);
    let q = length as int / packet;
    let r = length as int % packet;
    assert(n == c) by (nonlinear_arith)
        requires
            length == packet * q + r,
            0 <= r < packet,
            c == q + (if r != 0 {
                1int
            } else {
                0int
            }),
            length <= n * packet < length + packet,
            packet > 0,
    ;
}

proof fn lemma_parts(p: FlashParams, length: i64, n: nat)
    requires
        p.fits(),
        n <= p.plan(length as int).len() <= usize::MAX,
    ensures
        wire_total(p.plan(length as int).take(n as int)) == parts_total(
            p.plan(length as int).take(n as int),
        ) * p.packet_size,
    decreases n,
{
    let plan = p.plan(length as int);
    if n > 0 {
        lemma_parts(p, length, (n - 1) as nat);
        assert(plan.take(n as int).drop_last() == plan.take(n - 1));
        law_sequence_shape(p, length, n - 1);
        let a = parts_total(plan.take(n - 1));
        let b = plan[n - 1].parts as int;
        let packet = p.packet_size as int;
        assert(a * packet + b * packet == (a + b) * packet) by (nonlinear_arith);
    } else {
        assert(plan.take(0).len() == 0);
    }
}

/// Both bootloader generations use sequences of the same size, cut into different packets.
pub proof fn law_generations_agree_on_sequence_size(old_version: i16, new_version: i16)
    requires
        old_version < 2 <= new_version,
    ensures
        params_for(old_version).sequence_bytes() == params_for(new_version).sequence_bytes(),
        params_for(old_version).sequence_bytes() == 31_457_280,
        params_for(old_version).packet_size != params_for(new_version).packet_size,
{
}

/// The plan for either bootloader generation: packets of 1 MiB from version 2 on and of 128 KiB
/// before, and sequences of 31457280 bytes. Sequence `i` holds the bytes from `i * 31457280` on, up
/// to the next sequence or to the end of the image, and is sent in as many packets as hold them. Only
/// the sequence that the image ends in is the last.
pub proof fn law_plan_of_a_generation(version: i16, length: i64, i: int)
    requires
        length > 0,
        0 <= i,
        i * 31_457_280 < length,
        length <= usize::MAX,
    ensures
        ({
            let params = params_for(version);
            let packet: int = if version >= 2 {
                1_048_576
            } else {
                131_072
            };
            let plan = params.plan(length as int);
            &&& params.packet_size == packet
            &&& params.flash_timeout_ms == if version >= 2 {
                120_000int
            } else {
                30_000
            }
            &&& params.packets_per_sequence * packet == 31_457_280
            &&& i < plan.len()
            &&& plan[i].index == i
            &&& plan[i].real_size == if length - i * 31_457_280 < 31_457_280 {
                length - i * 31_457_280
            } else {
                31_457_280
            }
            &&& (plan[i].parts - 1) * packet < plan[i].real_size <= plan[i].parts * packet
            &&& plan[i].aligned_size == plan[i].parts * packet
            &&& plan[i].is_last <==> length <= (i + 1) * 31_457_280
        }),
{
    let params = params_for(version);
    let plan = params.plan(length as int);
    if version >= 2 {
        assert(1_048_576 * 30 == 31_457_280);
    } else {
        assert(131_072 * 240 == 31_457_280);
    }
    lemma_count(length as int, 31_457_280);
    lemma_left(length as int, 31_457_280, i);
    law_sequence_shape(params, length, i);
}

} // verus!
