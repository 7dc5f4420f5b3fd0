//! Flash plans.

use thor::flash::{plan_flash, FlashParams, FlashSequence};

fn old_params() -> FlashParams {
    FlashParams {
        packet_size: 131_072,
        packets_per_sequence: 240,
        flash_timeout_ms: 30_000,
    }
}
fn new_params() -> FlashParams {
    FlashParams {
        packet_size: 1_048_576,
        packets_per_sequence: 30,
        flash_timeout_ms: 120_000,
    }
}

#[test]
fn params_from_bootloader_version() {
    assert_eq!(FlashParams::for_bootloader_version(0), old_params());
    assert_eq!(FlashParams::for_bootloader_version(1), old_params());
    assert_eq!(FlashParams::for_bootloader_version(2), new_params());
    assert_eq!(FlashParams::for_bootloader_version(3), new_params());
}

#[test]
fn both_generations_use_30mb_sequences() {
    // The trap: same ~30 MB sequence, different packetization.
    assert_eq!(old_params().sequence_size(), 31_457_280);
    assert_eq!(new_params().sequence_size(), 31_457_280);
}

#[test]
fn exact_single_sequence_new() {
    let plan = plan_flash(31_457_280, &new_params());
    assert_eq!(plan.len(), 1);
    assert_eq!(
        plan[0],
        FlashSequence {
            index: 0,
            real_size: 31_457_280,
            aligned_size: 31_457_280,
            parts: 30,
            is_last: true,
        }
    );
}

#[test]
fn one_sequence_plus_a_tail_new() {
    // 30 MB + 500 bytes → two sequences; the tail's last part is zero-padded to 1 MiB.
    let plan = plan_flash(31_457_280 + 500, &new_params());
    assert_eq!(plan.len(), 2);
    assert_eq!(plan[0].real_size, 31_457_280);
    assert_eq!(plan[0].parts, 30);
    assert!(!plan[0].is_last);
    assert_eq!(plan[1].real_size, 500);
    assert_eq!(plan[1].aligned_size, 1_048_576); // padded up to one packet
    assert_eq!(plan[1].parts, 1);
    assert!(plan[1].is_last);
}

#[test]
fn tiny_image_is_one_padded_part() {
    let plan = plan_flash(1500, &new_params());
    assert_eq!(plan.len(), 1);
    assert_eq!(plan[0].real_size, 1500);
    assert_eq!(plan[0].aligned_size, 1_048_576);
    assert_eq!(plan[0].parts, 1);
    assert!(plan[0].is_last);
}

#[test]
fn partial_tail_aligns_up_old_generation() {
    // Old params (128 KiB packets): 30 MB + 200000 bytes.
    let plan = plan_flash(31_457_280 + 200_000, &old_params());
    assert_eq!(plan.len(), 2);
    assert_eq!(plan[0].parts, 240);
    assert!(!plan[0].is_last);
    assert_eq!(plan[1].real_size, 200_000);
    assert_eq!(plan[1].aligned_size, 262_144); // 2 × 131072
    assert_eq!(plan[1].parts, 2);
    assert!(plan[1].is_last);
}

#[test]
fn zero_length_is_empty_plan() {
    assert!(plan_flash(0, &new_params()).is_empty());
}

#[test]
fn plans_cover_the_image_exactly() {
    for params in [old_params(), new_params()] {
        for length in [1, 131_071, 131_072, 131_073, 31_457_279, 31_457_281, 70 << 20, 5_000_000_000] {
            let plan = plan_flash(length, &params);
            let sent: i64 = plan.iter().map(|s| s.real_size).sum();
            let wire: i64 = plan.iter().map(|s| s.aligned_size).sum();
            assert_eq!(sent, length);
            assert!(wire >= length && wire - length < params.packet_size);
            for (i, s) in plan.iter().enumerate() {
                assert_eq!(s.index, i);
                assert_eq!(s.parts * params.packet_size, s.aligned_size);
                assert!(s.parts <= params.packets_per_sequence);
                assert_eq!(s.is_last, i + 1 == plan.len());
            }
        }
    }
}

#[test]
fn a_70_mib_image_takes_three_sequences() {
    let plan = plan_flash(70 << 20, &new_params());
    let parts: Vec<i64> = plan.iter().map(|s| s.parts).collect();
    assert_eq!(parts, [30, 30, 10]);
}

#[test]
fn nothing_is_planned_for_senseless_numbers() {
    assert!(plan_flash(-5, &new_params()).is_empty());
    let none = FlashParams { packet_size: 0, ..new_params() };
    assert!(plan_flash(100, &none).is_empty());
    let negative = FlashParams { packet_size: -1, packets_per_sequence: -1, flash_timeout_ms: 0 };
    assert!(plan_flash(100, &negative).is_empty());
}

#[test]
fn versions_below_two_are_the_old_generation() {
    assert_eq!(FlashParams::for_bootloader_version(-1), old_params());
    assert_eq!(FlashParams::for_bootloader_version(i16::MAX), new_params());
}
