use led_pwm::animation::{advance, head_for, tail_for, update_data, POSITION_WRAP, STEP_SIZE};
use led_pwm::encoder::PwmData;

#[test]
fn head_and_tail_levels() {
    assert_eq!(head_for(0), 255);
    assert_eq!(head_for(50), 128);
    assert_eq!(head_for(99), 3);
    assert_eq!(tail_for(0), 0);
    assert_eq!(tail_for(39), 0);
    assert_eq!(tail_for(40), 0);
    assert_eq!(tail_for(50), 43);
    assert_eq!(tail_for(99), 251);
}

#[test]
fn tick_at_start_of_row() {
    let mut data = PwmData::new();
    let next = update_data(&mut data, 0);
    assert_eq!(next, 3);
    assert_eq!(data.pwm_levels, [255, 0, 0, 0, 0, 0, 0, 0]);
    assert_eq!(data.pwm_steps[7].length, 255);
    assert_eq!(data.pwm_steps[7].data, 1);
}

#[test]
fn tick_halfway_between_leds() {
    let mut data = PwmData::new();
    data.pwm_levels = [9, 9, 9, 9, 9, 9, 9, 9];
    data.reflect();
    let next = update_data(&mut data, 250);
    assert_eq!(next, 253);
    assert_eq!(data.pwm_levels, [9, 0, 128, 43, 9, 9, 9, 9]);
    let total: u32 = data.pwm_steps.iter().map(|s| s.length).sum();
    assert_eq!(total, 255);
}

#[test]
fn tick_wraps_at_end_of_row() {
    let mut data = PwmData::new();
    let next = update_data(&mut data, 799);
    assert_eq!(next, 2);
    assert_eq!(data.pwm_levels, [251, 0, 0, 0, 0, 0, 0, 3]);
}

#[test]
fn phase_returns_near_zero() {
    let mut position = 0;
    let calls = POSITION_WRAP / STEP_SIZE;
    assert_eq!(calls, 266);
    for _ in 0..calls {
        position = advance(position, STEP_SIZE);
    }
    assert_eq!(position, 798);
    assert!(POSITION_WRAP - position < STEP_SIZE);
    assert_eq!(advance(position, STEP_SIZE), 1);
}

#[test]
fn phase_with_exact_divisor_returns_to_zero() {
    let mut position = 0;
    for _ in 0..(POSITION_WRAP / 25) {
        position = advance(position, 25);
    }
    assert_eq!(position, 0);
}

#[test]
fn repeated_ticks_keep_table_whole() {
    let mut data = PwmData::new();
    let mut position = 0;
    for _ in 0..1000 {
        position = update_data(&mut data, position);
        let total: u32 = data.pwm_steps.iter().map(|s| s.length).sum();
        assert_eq!(total, 255);
        assert!(data.pwm_levels.iter().all(|&l| l <= 255));
    }
}
