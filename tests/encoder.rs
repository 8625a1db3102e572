use led_pwm::encoder::{PwmData, PwmStep};

fn encode(levels: [u32; 8]) -> [PwmStep; 9] {
    let mut data = PwmData::new();
    data.pwm_levels = levels;
    data.reflect();
    data.snapshot()
}

fn step(length: u32, data: u32) -> PwmStep {
    PwmStep { length, data }
}

#[test]
fn new_is_all_off() {
    let data = PwmData::new();
    assert_eq!(data.pwm_levels, [0; 8]);
    assert_eq!(data.pwm_steps[8], step(255, 0));
}

#[test]
fn all_zero_levels() {
    let steps = encode([0; 8]);
    let expected = [
        step(0, 0b1111_1111),
        step(0, 0b1111_1110),
        step(0, 0b1111_1100),
        step(0, 0b1111_1000),
        step(0, 0b1111_0000),
        step(0, 0b1110_0000),
        step(0, 0b1100_0000),
        step(0, 0b1000_0000),
        step(255, 0),
    ];
    assert_eq!(steps, expected);
}

#[test]
fn single_max_level() {
    let steps = encode([255, 0, 0, 0, 0, 0, 0, 0]);
    for i in 0..7 {
        assert_eq!(steps[i].length, 0);
    }
    assert_eq!(steps[7], step(255, 0b0000_0001));
    assert_eq!(steps[8], step(0, 0));
}

#[test]
fn distinct_levels_sorted() {
    let steps = encode([200, 10, 50, 0, 255, 30, 100, 5]);
    let expected = [
        step(0, 0b1111_1111),
        step(5, 0b1111_0111),
        step(5, 0b0111_0111),
        step(20, 0b0111_0101),
        step(20, 0b0101_0101),
        step(50, 0b0101_0001),
        step(100, 0b0001_0001),
        step(55, 0b0001_0000),
        step(0, 0),
    ];
    assert_eq!(steps, expected);
}

#[test]
fn equal_levels_break_ties_by_index() {
    let steps = encode([7, 3, 7, 3, 7, 3, 7, 3]);
    let masks: Vec<u32> = steps.iter().map(|s| s.data).collect();
    assert_eq!(
        masks,
        vec![0xff, 0xfd, 0xf5, 0xd5, 0x55, 0x54, 0x50, 0x40, 0]
    );
    let lengths: Vec<u32> = steps.iter().map(|s| s.length).collect();
    assert_eq!(lengths, vec![3, 0, 0, 0, 4, 0, 0, 0, 248]);
}

fn on_time(steps: &[PwmStep; 9], k: u32) -> u32 {
    steps
        .iter()
        .filter(|s| (s.data >> k) & 1 == 1)
        .map(|s| s.length)
        .sum()
}

#[test]
fn lengths_sum_to_period_and_masks_shrink() {
    let cases = [
        [0; 8],
        [255; 8],
        [255, 0, 0, 0, 0, 0, 0, 0],
        [1, 2, 3, 4, 5, 6, 7, 8],
        [128, 64, 32, 16, 8, 4, 2, 1],
        [17, 250, 17, 0, 99, 250, 3, 128],
    ];
    for levels in cases {
        let steps = encode(levels);
        let total: u32 = steps.iter().map(|s| s.length).sum();
        assert_eq!(total, 255);
        for i in 0..9 {
            assert!(steps[i].length <= 255);
            assert_eq!(steps[i].data.count_ones() as usize, 8 - i.min(8));
        }
        assert_eq!(steps[8].data, 0);
        for k in 0..8u32 {
            assert_eq!(on_time(&steps, k), levels[k as usize]);
        }
    }
}

#[test]
fn leds_go_off_in_level_order() {
    let levels = [90, 12, 250, 12, 0, 77, 200, 45];
    let steps = encode(levels);
    let mut off_levels = Vec::new();
    for i in 0..8 {
        let gone = steps[i].data & !steps[i + 1].data;
        assert_eq!(gone.count_ones(), 1);
        off_levels.push(levels[gone.trailing_zeros() as usize]);
    }
    let mut sorted = off_levels.clone();
    sorted.sort();
    assert_eq!(off_levels, sorted);
}
