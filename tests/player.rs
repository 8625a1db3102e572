use led_pwm::animation::update_data;
use led_pwm::encoder::PwmData;
use led_pwm::player::{Player, PlayerAction};

#[test]
fn plays_all_off_table() {
    let shared = PwmData::new();
    let mut player = Player::new();
    let masks = [0xffu32, 0xfe, 0xfc, 0xf8, 0xf0, 0xe0, 0xc0, 0x80];
    for m in masks {
        let a = player.step(&shared);
        assert_eq!(a, PlayerAction { word: m << 24, delay_micros: 0 });
    }
    let a = player.step(&shared);
    assert_eq!(a, PlayerAction { word: 0, delay_micros: 25_500 });
    assert_eq!(player.next, 0);
}

#[test]
fn word_carries_mask_in_top_byte() {
    let mut shared = PwmData::new();
    shared.pwm_levels = [255, 0, 0, 0, 0, 0, 0, 0];
    shared.reflect();
    let mut player = Player::new();
    let actions: Vec<PlayerAction> = (0..9).map(|_| player.step(&shared)).collect();
    assert_eq!(actions[7], PlayerAction { word: 0x0100_0000, delay_micros: 25_500 });
    assert_eq!(actions[8], PlayerAction { word: 0, delay_micros: 0 });
}

#[test]
fn update_mid_cycle_waits_for_next_cycle() {
    let mut shared = PwmData::new();
    let mut player = Player::new();
    let first = player.step(&shared);
    assert_eq!(first.word, 0xff00_0000);
    update_data(&mut shared, 0);
    let mut rest = Vec::new();
    for _ in 1..9 {
        rest.push(player.step(&shared));
    }
    assert_eq!(rest[7], PlayerAction { word: 0, delay_micros: 25_500 });
    assert_eq!(player.snapshot, PwmData::new().pwm_steps);
    let next_cycle: Vec<PlayerAction> = (0..9).map(|_| player.step(&shared)).collect();
    assert_eq!(player.snapshot, shared.pwm_steps);
    assert_eq!(next_cycle[7], PlayerAction { word: 0x0100_0000, delay_micros: 25_500 });
    let total: u64 = next_cycle.iter().map(|a| a.delay_micros).sum();
    assert_eq!(total, 25_500);
}
