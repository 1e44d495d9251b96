use hls2dash::rounding::{duration_millis, round_to, DOUBLE_LIMIT, SINGLE_LIMIT};

fn reference(seconds: f32) -> u64 {
    (seconds * 1000.0) as u64
}

#[test]
fn duration_millis_of_common_durations() {
    let common: Vec<f32> = vec![0.0, 0.001, 0.0005, 1.0, 2.002, 4.0, 5.9, 6.0, 6.006, 9.009, 9.97667, 10.01, 3600.5, 86400.25];
    for seconds in common {
        assert_eq!(duration_millis(seconds.to_bits()), reference(seconds), "{}", seconds);
    }
    assert_eq!(duration_millis(6.0f32.to_bits()), 6000);
    assert_eq!(duration_millis(9.009f32.to_bits()), 9009);
}

#[test]
fn duration_millis_of_special_values() {
    assert_eq!(duration_millis(f32::INFINITY.to_bits()), u64::MAX);
    assert_eq!(duration_millis(f32::NEG_INFINITY.to_bits()), 0);
    assert_eq!(duration_millis(f32::NAN.to_bits()), 0);
    assert_eq!(duration_millis((-f32::NAN).to_bits()), 0);
    assert_eq!(duration_millis((-0.0f32).to_bits()), 0);
    assert_eq!(duration_millis((-5.0f32).to_bits()), 0);
    assert_eq!(duration_millis(f32::MAX.to_bits()), u64::MAX);
    assert_eq!(duration_millis(f32::MIN_POSITIVE.to_bits()), 0);
    assert_eq!(duration_millis(1), 0);
}

#[test]
fn duration_millis_agrees_with_hardware() {
    let mut bits: u32 = 0;
    loop {
        let seconds = f32::from_bits(bits);
        assert_eq!(duration_millis(bits), reference(seconds), "bits {:#x}", bits);
        match bits.checked_add(9973) {
            Some(next) => bits = next,
            None => break,
        }
    }
}

#[test]
fn rounding_agrees_with_hardware() {
    let mut n: u64 = 1;
    for i in 0..20000u64 {
        n = n.wrapping_mul(6364136223846793005).wrapping_add(1442695040888963407);
        let m = n >> (i % 64);
        assert_eq!(round_to(m as u128, DOUBLE_LIMIT), m as f64 as u128);
        assert_eq!(round_to(m as u128, SINGLE_LIMIT), m as f32 as u128);
    }
}

#[test]
fn rounding_breaks_ties_to_even() {
    assert_eq!(round_to(16777217, SINGLE_LIMIT), 16777216);
    assert_eq!(round_to(16777219, SINGLE_LIMIT), 16777220);
    assert_eq!(round_to(9007199254740993, DOUBLE_LIMIT), 9007199254740992);
    assert_eq!(round_to(9007199254740995, DOUBLE_LIMIT), 9007199254740996);
    assert_eq!(round_to(0, SINGLE_LIMIT), 0);
}
