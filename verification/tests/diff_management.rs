use translator_sv2::codec::U256;
use translator_sv2::diff_management::{
    difficulty_from_target, is_zero, pdiff, reversed, DifficultyCounters, TargetDifficulty,
};
use translator_sv2::error::Error;

/// A 32-byte little-endian target holding `2^bit`.
fn power_of_two_target(bit: usize) -> Vec<u8> {
    let mut t = vec![0u8; 32];
    t[bit / 8] = 1u8 << (bit % 8);
    t
}

/// `value` as 32 big-endian bytes.
fn be(value: u128) -> [u8; 32] {
    let mut b = [0u8; 32];
    b[16..].copy_from_slice(&value.to_be_bytes());
    b
}

/// `2^bit` as 32 big-endian bytes.
fn be_power_of_two(bit: usize) -> [u8; 32] {
    let mut b = [0u8; 32];
    b[31 - bit / 8] = 1u8 << (bit % 8);
    b
}

fn pdiff_le() -> Vec<u8> {
    let mut t = pdiff().to_vec();
    t.reverse();
    t
}

#[test]
fn is_zero_detects_any_nonzero_byte() {
    assert!(is_zero(&[]));
    assert!(is_zero(&[0u8; 32]));
    assert!(is_zero(&[0u8; 37]));
    let mut b = [0u8; 37];
    b[36] = 1;
    assert!(!is_zero(&b));
    b[36] = 0;
    b[0] = 0x80;
    assert!(!is_zero(&b));
}

#[test]
fn reversed_reverses() {
    assert_eq!(reversed(&vec![1u8, 2, 3]), vec![3u8, 2, 1]);
    assert_eq!(reversed(&vec![]), Vec::<u8>::new());
}

#[test]
fn pdiff_is_difficulty_one_target() {
    let p = pdiff();
    assert_eq!(&p[..4], &[0u8; 4]);
    assert!(p[4..].iter().all(|&b| b == 0xff));
}

#[test]
fn zero_target_has_zero_difficulty_whatever_its_length() {
    assert_eq!(difficulty_from_target(vec![]), Ok(TargetDifficulty::Zero));
    assert_eq!(difficulty_from_target(vec![0u8; 3]), Ok(TargetDifficulty::Zero));
    assert_eq!(difficulty_from_target(vec![0u8; 32]), Ok(TargetDifficulty::Zero));
    assert_eq!(difficulty_from_target(vec![0u8; 40]), Ok(TargetDifficulty::Zero));
}

#[test]
fn nonzero_target_of_wrong_length_is_refused() {
    match difficulty_from_target(vec![1u8, 0, 0]) {
        Err(Error::Uint256Conversion(e)) => {
            assert_eq!(e.actual, 3);
            assert_eq!(e.expected, 32);
        }
        other => panic!("unexpected {:?}", other),
    }
    assert!(matches!(
        difficulty_from_target(vec![1u8; 33]),
        Err(Error::Uint256Conversion(_))
    ));
}

#[test]
fn difficulty_one_target_gives_one() {
    assert_eq!(difficulty_from_target(pdiff_le()), Ok(TargetDifficulty::Reciprocal(be(1))));
}

#[test]
fn small_targets_give_whole_difficulties() {
    // (2^224 - 1) / 2^200 = 2^24 - 1
    assert_eq!(
        difficulty_from_target(power_of_two_target(200)),
        Ok(TargetDifficulty::Whole(be((1 << 24) - 1)))
    );
    // (2^224 - 1) / 2^223 = 1
    assert_eq!(
        difficulty_from_target(power_of_two_target(223)),
        Ok(TargetDifficulty::Whole(be(1)))
    );
    // (2^224 - 1) / 2^32 = 2^192 - 1
    let mut q = [0xffu8; 32];
    q[..8].copy_from_slice(&[0u8; 8]);
    assert_eq!(
        difficulty_from_target(power_of_two_target(32)),
        Ok(TargetDifficulty::Whole(q))
    );
    // a target of one: the difficulty is the difficulty-1 target itself
    assert_eq!(
        difficulty_from_target(power_of_two_target(0)),
        Ok(TargetDifficulty::Whole(pdiff()))
    );
}

#[test]
fn quotients_above_64_bits_are_kept_whole() {
    // (2^224 - 1) / (2^160 - 1) = 2^64
    let mut target = vec![0xffu8; 20];
    target.extend_from_slice(&[0u8; 12]);
    assert_eq!(
        difficulty_from_target(target),
        Ok(TargetDifficulty::Whole(be_power_of_two(64)))
    );
}

#[test]
fn large_targets_give_reciprocal_difficulties() {
    // 2^255 / (2^224 - 1) = 2^31
    assert_eq!(
        difficulty_from_target(power_of_two_target(255)),
        Ok(TargetDifficulty::Reciprocal(be(1 << 31)))
    );
    // 2^224 / (2^224 - 1) = 1
    assert_eq!(
        difficulty_from_target(power_of_two_target(224)),
        Ok(TargetDifficulty::Reciprocal(be(1)))
    );
}

fn counters(threshold: u32) -> DifficultyCounters {
    DifficultyCounters {
        miner_num_submits_before_update: threshold,
        submits_since_last_update: 7,
        timestamp_of_last_update: 0,
    }
}

#[test]
fn init_starts_an_empty_window() {
    let mut c = counters(150);
    c.init_difficulty_management(1_000);
    assert_eq!(c.timestamp_of_last_update, 1_000);
    assert_eq!(c.submits_since_last_update, 0);
    assert_eq!(c.miner_num_submits_before_update, 150);
}

#[test]
fn update_is_due_after_the_configured_number_of_shares() {
    let mut c = counters(3);
    c.init_difficulty_management(5);
    assert!(!c.is_update_due());
    c.save_share();
    c.save_share();
    assert_eq!(c.submits_since_last_update, 2);
    assert!(!c.is_update_due());
    c.save_share();
    assert!(c.is_update_due());
    c.save_share();
    assert!(c.is_update_due());
}

#[test]
fn first_hashrate_update_only_starts_the_window() {
    let mut c = counters(150);
    assert_eq!(c.update_miner_hashrate(42, &[1u8; 5]), Ok(None));
    assert_eq!(c.timestamp_of_last_update, 42);
    assert_eq!(c.submits_since_last_update, 0);
}

#[test]
fn hashrate_update_with_bad_target_changes_nothing() {
    let mut c = counters(150);
    c.init_difficulty_management(10);
    c.save_share();
    let before = c;
    assert_eq!(c.update_miner_hashrate(70, &[1u8; 31]), Err(Error::InvalidU256(31)));
    assert_eq!(c, before);
}

#[test]
fn hashrate_update_measures_the_window_and_starts_the_next() {
    let mut c = counters(150);
    c.init_difficulty_management(10);
    for _ in 0..150 {
        c.save_share();
    }
    let target = [9u8; 32];
    let w = c.update_miner_hashrate(70, &target).unwrap().unwrap();
    assert_eq!(w.submits, 150);
    assert_eq!(w.delta_time, 60);
    assert_eq!(w.target, U256 { bytes: target });
    assert_eq!(c.timestamp_of_last_update, 70);
    assert_eq!(c.submits_since_last_update, 0);
    assert!(!c.is_update_due());
}
