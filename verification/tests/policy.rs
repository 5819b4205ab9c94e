use rbckp::backup::gear::{make_gear_table, roll_byte};
use rbckp::config::{ChunkSettings, Settings};

fn policy(min: usize, avg: usize, max: usize) -> ChunkSettings {
    ChunkSettings { min, avg, max }
}

fn bits_by_float(avg: usize) -> u32 {
    (avg as f64).log2().round().clamp(1.0, 31.0) as u32
}

#[test]
fn gear_table_has_the_generator_values() {
    let table = make_gear_table();
    assert_eq!(table.len(), 256);
    assert_eq!(table[0], 0x7543_5234);
    assert_eq!(table[1], 0xcd30_935a);
    assert_eq!(table[65], 0x0aa9_fb03);
    assert_eq!(table[255], 0x99c2_42ba);
}

#[test]
fn gear_table_follows_the_recurrence() {
    let table = make_gear_table();
    let mut x: u32 = 0x1234_5678;
    for entry in table.iter() {
        x = x.wrapping_mul(1664525).wrapping_add(1013904223);
        assert_eq!(*entry, x ^ (x >> 16));
    }
}

#[test]
fn gear_table_is_the_same_on_every_call() {
    assert_eq!(make_gear_table(), make_gear_table());
}

#[test]
fn roll_byte_shifts_and_adds() {
    let table = make_gear_table();
    assert_eq!(roll_byte(&table, 0, b'a'), 148011928);
    let mut h = 0u32;
    for b in b"abc" {
        h = roll_byte(&table, h, *b);
    }
    assert_eq!(h, 1404515842);
}

#[test]
fn roll_byte_wraps_around() {
    let table = make_gear_table();
    let h = roll_byte(&table, 0xffff_ffff, 1);
    assert_eq!(h, 0xffff_fffeu32.wrapping_add(0xcd30_935a));
    assert_eq!(roll_byte(&table, 0x8000_0000, 0), 0x7543_5234);
}

#[test]
fn boundary_bits_round_to_the_nearest_power() {
    let cases: [(usize, u32); 20] = [
        (1, 1),
        (2, 1),
        (3, 2),
        (5, 2),
        (6, 3),
        (11, 3),
        (12, 4),
        (22, 4),
        (23, 5),
        (45, 5),
        (46, 6),
        (64, 6),
        (90, 6),
        (91, 7),
        (1024, 10),
        (1448, 10),
        (1449, 11),
        (2048, 11),
        (1518500249, 30),
        (1518500250, 31),
    ];
    for (avg, bits) in cases {
        assert_eq!(policy(1, avg, avg).boundary_bits(), bits, "avg = {}", avg);
    }
}

#[test]
fn boundary_bits_stay_within_one_and_thirty_one() {
    assert_eq!(policy(0, 0, 0).boundary_bits(), 1);
    assert_eq!(policy(1, 1, 1).boundary_bits(), 1);
    assert_eq!(policy(1, 1 << 31, 1 << 31).boundary_bits(), 31);
    assert_eq!(policy(1, usize::MAX, usize::MAX).boundary_bits(), 31);
}

#[test]
fn boundary_bits_agree_with_the_float_logarithm() {
    for avg in 1..=70000usize {
        assert_eq!(policy(1, avg, avg).boundary_bits(), bits_by_float(avg), "avg = {}", avg);
    }
    for k in 17..usize::BITS {
        let p = 1usize << k;
        for avg in [p - 1, p, p + 1, p + p / 2, p + p / 3, p + p / 5 * 2] {
            assert_eq!(policy(1, avg, avg).boundary_bits(), bits_by_float(avg), "avg = {}", avg);
        }
    }
}

#[test]
fn boundary_mask_has_the_low_bits_set() {
    assert_eq!(policy(10, 64, 256).boundary_mask(), 63);
    assert_eq!(policy(256, 1024, 4096).boundary_mask(), 1023);
    assert_eq!(policy(1, 1, 1).boundary_mask(), 1);
    assert_eq!(policy(1, 3, 3).boundary_mask(), 3);
    assert_eq!(policy(1, usize::MAX, usize::MAX).boundary_mask(), 0x7fff_ffff);
}

#[test]
fn policy_is_valid_when_sizes_are_ordered() {
    assert!(policy(1, 1, 1).is_valid());
    assert!(policy(10, 64, 256).is_valid());
    assert!(policy(256, 1024, 4096).is_valid());
}

#[test]
fn policy_is_invalid_when_min_is_zero() {
    assert!(!policy(0, 64, 256).is_valid());
    assert!(!policy(0, 0, 0).is_valid());
}

#[test]
fn policy_is_invalid_when_sizes_are_out_of_order() {
    assert!(!policy(65, 64, 256).is_valid());
    assert!(!policy(10, 257, 256).is_valid());
    assert!(!policy(300, 64, 256).is_valid());
}

#[test]
fn settings_keep_what_they_are_made_of() {
    let settings = Settings::new(policy(10, 64, 256), true);
    assert_eq!(settings.chunk_settings.min, 10);
    assert_eq!(settings.chunk_settings.avg, 64);
    assert_eq!(settings.chunk_settings.max, 256);
    assert!(settings.debug);
    let quiet = Settings::new(policy(1, 2, 3), false);
    assert!(!quiet.debug);
}

#[test]
fn hash_depends_on_the_last_thirty_two_bytes_only() {
    let table = make_gear_table();
    let window: Vec<u8> = (0..40u8).map(|i| i.wrapping_mul(37).wrapping_add(11)).collect();
    let mut whole = 0u32;
    for b in window.iter() {
        whole = roll_byte(&table, whole, *b);
    }
    let mut tail = 0u32;
    for b in window[8..].iter() {
        tail = roll_byte(&table, tail, *b);
    }
    assert_eq!(whole, tail);
}

#[test]
fn boundary_is_hit_by_multiples_of_the_power_of_two() {
    let mask = policy(10, 64, 256).boundary_mask();
    for h in [0u32, 64, 128, 0xffff_ffc0, 1 << 31] {
        assert_eq!(h & mask, 0);
        assert_eq!(h % 64, 0);
    }
    for h in [1u32, 63, 65, 0xffff_ffff, 32] {
        assert_ne!(h & mask, 0);
        assert_ne!(h % 64, 0);
    }
}
