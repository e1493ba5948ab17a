use rust_bms::bms_loader::{BpmChange, FixtureLoader, Key, SoundX};
use rust_bms::bms_player::{is_playable, BmsPlayer};

#[test]
fn trial_chart_of_given_times_is_sorted_and_dealt_to_the_lanes_in_turn() {
    let timings = vec![5_000_000, 3_000_000, 4_000_000, 3_000_000, 9, 8, 7, 6, 1];
    let bpms = vec![BpmChange { timing: 0, bpm: 150_000 }];
    let bms = FixtureLoader::chart_of(&timings, bpms.clone());
    let notes: Vec<(u64, Key)> = bms.sounds.iter().map(|s| (s.timing, s.key)).collect();
    assert_eq!(
        notes,
        vec![
            (1, Key::P1_KEY1),
            (6, Key::P1_SCRATCH),
            (7, Key::P1_KEY7),
            (8, Key::P1_KEY6),
            (9, Key::P1_KEY5),
            (3_000_000, Key::P1_KEY2),
            (3_000_000, Key::P1_KEY4),
            (4_000_000, Key::P1_KEY3),
            (5_000_000, Key::P1_KEY1),
        ]
    );
    assert!(bms.sounds.iter().all(|s| s.wav_id == SoundX { id: 1 }));
    assert_eq!(bms.bars.len(), 1000);
    assert_eq!(bms.bars[0], 0);
    assert_eq!(bms.bars[1], 1_000_000);
    assert_eq!(bms.bars[999], 999_000_000);
    assert_eq!(bms.bpms, bpms);
    assert!(bms.bga.is_empty());
}

#[test]
fn trial_chart_draws_its_times_by_chance_within_its_range() {
    let bms = FixtureLoader::new().load_with(vec![BpmChange { timing: 0, bpm: 201_000 }]);
    assert_eq!(bms.sounds.len(), 10000);
    assert!(bms.sounds.iter().all(|s| 1_000_000 <= s.timing && s.timing < 1_000_000_000));
    assert!(bms.sounds.windows(2).all(|w| w[0].timing <= w[1].timing));
    // ten thousand draws from a range of nearly a thousand million are not all alike
    assert!(bms.sounds.first().unwrap().timing < bms.sounds.last().unwrap().timing);
    for key in Key::visible_keys() {
        assert_eq!(bms.sounds.iter().filter(|s| s.key == key).count(), 1250);
    }
    assert!(is_playable(&bms));
    let mut player = BmsPlayer::new(bms);
    assert_eq!(player.scroll_at(1_000_000_000, 0).len(), 0);
}
