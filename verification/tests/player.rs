use rust_bms::bms_loader::{Bms, BmsFileLoader, BpmChange, Image, Key, Sound, SoundX, TIME_MAX};
use rust_bms::bms_parser::parse_script;
use rust_bms::bms_player::{
    build_events, calc_position, combo_digits, iidx_judgerank, is_playable, BmsPlayer, DrawInfo,
    Event, EventType, GameState, Judge, JudgeDisplay, JudgeRank,
};
use rust_bms::controls::{key_command, key_mapping, released_lane, Command};
use rust_bms::bms_player::JudgeCount;
use rust_bms::textures::{beam_texture, judge_texture, note_texture, TextureLabel};
use std::collections::HashMap;

fn note(key: Key, timing: u64, id: u32) -> Sound {
    Sound { key, timing, wav_id: SoundX { id } }
}

fn chart() -> Bms {
    Bms {
        sounds: vec![
            note(Key::BACK_CHORUS, 500_000, 3),
            note(Key::P1_KEY1, 1_000_000, 1),
            note(Key::P1_KEY1, 2_000_000, 2),
            note(Key::P1_FREE_SCRATCH, 2_000_000, 9),
        ],
        bars: vec![0],
        bpms: vec![BpmChange { timing: 0, bpm: 120_000 }],
        bga: vec![Image { timing: 250_000, texture_id: 7 }],
    }
}

#[test]
fn position_before_the_first_change_uses_the_default_tempo() {
    assert_eq!(calc_position(10, &Vec::new()), 1_300_000);
    let bpms = vec![BpmChange { timing: 4, bpm: 7 }];
    assert_eq!(calc_position(3, &bpms), 390_000);
    assert_eq!(calc_position(4, &bpms), 520_000);
    assert_eq!(calc_position(6, &bpms), 520_014);
}

#[test]
fn position_never_decreases_and_has_no_jumps() {
    let bpms = vec![
        BpmChange { timing: 0, bpm: 100 },
        BpmChange { timing: 10, bpm: 200 },
        BpmChange { timing: 10, bpm: 0 },
        BpmChange { timing: 20, bpm: 400 },
    ];
    let mut before = calc_position(0, &bpms);
    assert_eq!(before, 0);
    for t in 1..40u64 {
        let here = calc_position(t, &bpms);
        assert!(here >= before);
        assert!(here - before <= 400);
        before = here;
    }
    // a change at exactly 10 applies from 10 on
    assert_eq!(calc_position(11, &bpms) - calc_position(10, &bpms), 0);
    assert_eq!(calc_position(10, &bpms) - calc_position(9, &bpms), 100);
    assert_eq!(calc_position(21, &bpms) - calc_position(20, &bpms), 400);
}

#[test]
fn position_does_not_overflow_at_the_largest_values() {
    let bpms = vec![BpmChange { timing: 0, bpm: u32::MAX }];
    assert_eq!(calc_position(u64::MAX, &bpms), (u64::MAX as u128) * (u32::MAX as u128));
}

#[test]
fn grades_follow_the_thresholds() {
    let rank = iidx_judgerank();
    assert_eq!(
        rank,
        JudgeRank { pgreat: 20_000, great: 40_000, good: 105_000, bad: 150_000, poor: 200_000 }
    );
    assert_eq!(rank.get_judge(0), Some(Judge::PGREAT));
    assert_eq!(rank.get_judge(19_999), Some(Judge::PGREAT));
    assert_eq!(rank.get_judge(20_000), Some(Judge::GREAT));
    assert_eq!(rank.get_judge(40_000), Some(Judge::GOOD));
    assert_eq!(rank.get_judge(105_000), Some(Judge::BAD));
    assert_eq!(rank.get_judge(150_000), Some(Judge::POOR));
    assert_eq!(rank.get_judge(199_999), Some(Judge::POOR));
    assert_eq!(rank.get_judge(200_000), None);
    assert!(Judge::combo_lasts(Judge::PGREAT));
    assert!(Judge::combo_lasts(Judge::GREAT));
    assert!(Judge::combo_lasts(Judge::GOOD));
    assert!(!Judge::combo_lasts(Judge::BAD));
    assert!(!Judge::combo_lasts(Judge::POOR));
}

#[test]
fn combo_grows_only_between_two_grades_that_keep_it() {
    let mut display = JudgeDisplay::new();
    assert_eq!(display.judge, None);
    display.update_judge(Judge::GREAT, 10);
    assert_eq!(display.combo, 0);
    assert_eq!(display.show_until, 1_000_010);
    display.update_judge(Judge::PGREAT, 20);
    assert_eq!(display.combo, 1);
    display.update_judge(Judge::GOOD, 30);
    assert_eq!(display.combo, 2);
    display.update_judge(Judge::BAD, 40);
    assert_eq!(display.combo, 0);
    display.update_judge(Judge::PGREAT, 50);
    assert_eq!(display.combo, 0);
    display.update_judge(Judge::PGREAT, 60);
    assert_eq!(display.combo, 1);
    display.update_judge(Judge::POOR, 70);
    assert_eq!(display.combo, 0);
    assert_eq!(display.judge, Some(Judge::POOR));
    assert_eq!(display.count.get(Judge::PGREAT), 3);
    assert_eq!(display.count.get(Judge::GREAT), 1);
    assert_eq!(display.count.get(Judge::GOOD), 1);
    assert_eq!(display.count.get(Judge::BAD), 1);
    assert_eq!(display.count.get(Judge::POOR), 1);
}

#[test]
fn combo_digits_run_from_the_first_to_the_last() {
    assert_eq!(combo_digits(0), Vec::<u8>::new());
    assert_eq!(combo_digits(7), vec![7]);
    assert_eq!(combo_digits(1203), vec![1, 2, 0, 3]);
    assert_eq!(combo_digits(u64::MAX).len(), 20);
}

#[test]
fn queue_is_sorted_and_ends_with_the_end_of_the_music() {
    let events = build_events(&chart());
    assert_eq!(
        events,
        vec![
            Event { timing: 0, event_type: EventType::ChangeBpm(120_000) },
            Event { timing: 250_000, event_type: EventType::ChangeBga(Some(7)) },
            Event {
                timing: 500_000,
                event_type: EventType::PlaySound(note(Key::BACK_CHORUS, 500_000, 3)),
            },
            Event { timing: 750_000, event_type: EventType::ChangeBga(None) },
            Event { timing: 1_750_000, event_type: EventType::EndMusic },
        ]
    );
}

#[test]
fn end_of_music_comes_a_second_after_the_latest_event() {
    let mut bms = chart();
    bms.bpms.push(BpmChange { timing: 9_000_000, bpm: 60_000 });
    let events = build_events(&bms);
    let last = events.last().unwrap();
    assert_eq!(last.event_type, EventType::EndMusic);
    let latest = events[..events.len() - 1].iter().map(|e| e.timing).max().unwrap();
    assert_eq!(latest, 9_000_000);
    assert_eq!(last.timing, 10_000_000);
    assert_eq!(events.iter().filter(|e| e.event_type == EventType::EndMusic).count(), 1);

    let empty = Bms { sounds: vec![], bars: vec![], bpms: vec![], bga: vec![] };
    assert_eq!(
        build_events(&empty),
        vec![
            Event { timing: 500_000, event_type: EventType::ChangeBga(None) },
            Event { timing: 1_500_000, event_type: EventType::EndMusic },
        ]
    );
}

#[test]
fn events_of_one_time_stay_in_the_order_in_which_they_were_collected() {
    let bms = Bms {
        sounds: vec![note(Key::BACK_CHORUS, 0, 1), note(Key::BACK_CHORUS, 0, 2)],
        bars: vec![],
        bpms: vec![BpmChange { timing: 0, bpm: 1 }, BpmChange { timing: 0, bpm: 2 }],
        bga: vec![Image { timing: 0, texture_id: 5 }],
    };
    let kinds: Vec<EventType> = build_events(&bms).into_iter().map(|e| e.event_type).collect();
    assert_eq!(
        kinds,
        vec![
            EventType::PlaySound(note(Key::BACK_CHORUS, 0, 1)),
            EventType::PlaySound(note(Key::BACK_CHORUS, 0, 2)),
            EventType::ChangeBga(Some(5)),
            EventType::ChangeBpm(1),
            EventType::ChangeBpm(2),
            EventType::ChangeBga(None),
            EventType::EndMusic,
        ]
    );
}

#[test]
fn events_are_delivered_once_and_in_order() {
    let mut player = BmsPlayer::new(chart());
    assert_eq!(player.state(), GameState::PLAY);
    assert_eq!(player.bpm(), 130_000);
    assert_eq!(player.bga_id(), None);

    assert_eq!(player.process_event_at(0), Vec::<SoundX>::new());
    assert_eq!(player.bpm(), 120_000);
    assert_eq!(player.bga_id(), None);

    assert_eq!(player.process_event_at(500_000), vec![SoundX { id: 3 }]);
    assert_eq!(player.bga_id(), Some(7));

    // nothing is delivered a second time, nor when time runs backwards
    assert_eq!(player.process_event_at(500_000), Vec::<SoundX>::new());
    assert_eq!(player.process_event_at(0), Vec::<SoundX>::new());
    assert_eq!(player.bga_id(), Some(7));

    assert_eq!(player.process_event_at(1_749_999), Vec::<SoundX>::new());
    assert_eq!(player.bga_id(), None);
    assert_eq!(player.state(), GameState::PLAY);

    player.process_event_at(1_750_000);
    assert_eq!(player.state(), GameState::STOP);
    player.process_event_at(5_000_000);
    assert_eq!(player.state(), GameState::STOP);
}

#[test]
fn all_due_events_are_delivered_in_one_call() {
    let mut player = BmsPlayer::new(chart());
    assert_eq!(player.process_event_at(u64::MAX), vec![SoundX { id: 3 }]);
    assert_eq!(player.state(), GameState::STOP);
    assert_eq!(player.bpm(), 120_000);
    assert_eq!(player.bga_id(), None);
}

#[test]
fn cancel_stops_the_engine() {
    let mut player = BmsPlayer::new(chart());
    player.cancel();
    assert_eq!(player.state(), GameState::STOP);
}

#[test]
fn press_close_to_a_note_earns_the_best_grade() {
    let mut player = BmsPlayer::new(chart());
    assert_eq!(player.on_key_down_at(Key::P1_KEY1, 1_010_000), Some(SoundX { id: 1 }));
    assert_eq!(player.judge_display().judge, Some(Judge::PGREAT));
    assert_eq!(player.judge_display().combo, 0);
    assert_eq!(player.judge_display().show_until, 2_010_000);
    assert_eq!(player.judge_index(Key::P1_KEY1), 1);
    assert!(player.is_pushed(Key::P1_KEY1));

    // a held key does nothing more
    assert_eq!(player.on_key_down_at(Key::P1_KEY1, 2_000_000), None);
    assert_eq!(player.judge_index(Key::P1_KEY1), 1);

    player.on_key_up(Key::P1_KEY1);
    assert!(!player.is_pushed(Key::P1_KEY1));
    assert_eq!(player.on_key_down_at(Key::P1_KEY1, 1_985_000), Some(SoundX { id: 2 }));
    assert_eq!(player.judge_display().judge, Some(Judge::PGREAT));
    assert_eq!(player.judge_display().combo, 1);
    assert_eq!(player.judge_display().count.get(Judge::PGREAT), 2);
    assert_eq!(player.judge_index(Key::P1_KEY1), 2);
}

#[test]
fn press_is_graded_by_its_distance_before_or_after_the_note() {
    for (now, grade) in [
        (980_001u64, Some(Judge::PGREAT)),
        (980_000, Some(Judge::GREAT)),
        (1_039_999, Some(Judge::GREAT)),
        (1_040_000, Some(Judge::GOOD)),
        (895_001, Some(Judge::GOOD)),
        (895_000, Some(Judge::BAD)),
        (1_100_000, Some(Judge::GOOD)),
        (850_000, Some(Judge::POOR)),
        (800_001, Some(Judge::POOR)),
        (800_000, None),
    ] {
        let mut player = BmsPlayer::new(chart());
        let sample = player.on_key_down_at(Key::P1_KEY1, now);
        assert_eq!(player.judge_display().judge, grade, "at {}", now);
        assert_eq!(sample, grade.map(|_| SoundX { id: 1 }));
        assert_eq!(player.judge_index(Key::P1_KEY1), if grade.is_some() { 1 } else { 0 });
        assert!(player.is_pushed(Key::P1_KEY1));
    }
}

#[test]
fn missed_note_is_consumed_without_a_grade() {
    let mut player = BmsPlayer::new(chart());
    // the first note is more than a tenth of a second old, the second is far ahead
    assert_eq!(player.on_key_down_at(Key::P1_KEY1, 1_100_001), None);
    assert_eq!(player.judge_index(Key::P1_KEY1), 1);
    assert_eq!(player.judge_display().judge, None);
    assert_eq!(player.judge_display().combo, 0);
    assert_eq!(player.judge_display().count.get(Judge::POOR), 0);

    player.on_key_up(Key::P1_KEY1);
    assert_eq!(player.on_key_down_at(Key::P1_KEY1, 5_000_000), None);
    assert_eq!(player.judge_index(Key::P1_KEY1), 2);
    assert_eq!(player.judge_display().judge, None);
}

#[test]
fn missed_note_is_passed_over_for_the_next_one() {
    let mut bms = chart();
    bms.sounds.push(note(Key::P1_KEY1, 1_150_000, 4));
    let mut player = BmsPlayer::new(bms);
    assert_eq!(player.on_key_down_at(Key::P1_KEY1, 1_160_000), Some(SoundX { id: 4 }));
    assert_eq!(player.judge_index(Key::P1_KEY1), 2);
    assert_eq!(player.judge_display().judge, Some(Judge::PGREAT));
    assert_eq!(player.judge_display().count.get(Judge::PGREAT), 1);
}

#[test]
fn keys_outside_the_lanes_of_notes_do_nothing() {
    let mut player = BmsPlayer::new(chart());
    assert_eq!(player.on_key_down_at(Key::BACK_CHORUS, 500_000), None);
    assert_eq!(player.on_key_down_at(Key::P1_FREE_SCRATCH, 2_000_000), None);
    assert!(!player.is_pushed(Key::BACK_CHORUS));
    assert_eq!(player.judge_display().judge, None);
    player.on_key_up(Key::BACK_CHORUS);
    // a lane without notes takes the press and judges nothing
    assert_eq!(player.on_key_down_at(Key::P1_SCRATCH, 1_000_000), None);
    assert!(player.is_pushed(Key::P1_SCRATCH));
    assert_eq!(player.judge_index(Key::P1_SCRATCH), 0);
}

#[test]
fn key_up_lets_go_of_its_own_lane_only() {
    let mut player = BmsPlayer::new(chart());
    player.on_key_down_at(Key::P1_KEY2, 0);
    player.on_key_down_at(Key::P1_KEY3, 0);
    player.on_key_up(Key::P1_KEY2);
    assert!(!player.is_pushed(Key::P1_KEY2));
    assert!(player.is_pushed(Key::P1_KEY3));
    assert_eq!(player.judge_display().judge, None);
}

#[test]
fn scroll_shows_what_lies_ahead_and_forgets_what_has_passed() {
    let mut player = BmsPlayer::new(chart());
    // at 120 beats per minute a tick is worth 120 000 units of position
    let shown = player.scroll_at(500_000, 72_000_000_000);
    assert_eq!(
        shown,
        vec![
            DrawInfo { lane: 1, ahead: 60_000_000_000 },
            DrawInfo { lane: 1, ahead: 180_000_000_000 },
        ]
    );
    // with a short window the scan ends behind the first note beyond it
    let shown = player.scroll_at(500_000, 1_000);
    assert_eq!(shown, vec![DrawInfo { lane: 1, ahead: 60_000_000_000 }]);
    // the bar line at the start has passed and does not come back
    let shown = player.scroll_at(0, u128::MAX);
    assert_eq!(
        shown,
        vec![
            DrawInfo { lane: 1, ahead: 120_000_000_000 },
            DrawInfo { lane: 1, ahead: 240_000_000_000 },
        ]
    );
    // a note on the judge line is still shown
    let shown = player.scroll_at(1_000_000, 0);
    assert_eq!(
        shown,
        vec![DrawInfo { lane: 1, ahead: 0 }, DrawInfo { lane: 1, ahead: 120_000_000_000 }]
    );
    let shown = player.scroll_at(1_000_001, 0);
    assert_eq!(shown, vec![DrawInfo { lane: 1, ahead: 119_999_880_000 }]);
    assert_eq!(player.scroll_at(3_000_000, 0), Vec::<DrawInfo>::new());
}

#[test]
fn scroll_leaves_out_what_was_judged() {
    let mut player = BmsPlayer::new(chart());
    player.on_key_down_at(Key::P1_KEY1, 990_000);
    let shown = player.scroll_at(0, u128::MAX);
    assert_eq!(
        shown,
        vec![DrawInfo { lane: 1, ahead: 240_000_000_000 }, DrawInfo { lane: 8, ahead: 0 }]
    );
}

#[test]
fn lanes_are_sorted_by_time_whatever_the_order_of_the_chart() {
    let bms = Bms {
        sounds: vec![note(Key::P1_KEY2, 30, 1), note(Key::P1_KEY2, 10, 2), note(Key::P1_KEY2, 20, 3)],
        bars: vec![40, 5],
        bpms: vec![BpmChange { timing: 0, bpm: 1 }],
        bga: vec![],
    };
    let mut player = BmsPlayer::new(bms);
    let shown = player.scroll_at(0, u128::MAX);
    assert_eq!(
        shown,
        vec![
            DrawInfo { lane: 2, ahead: 10 },
            DrawInfo { lane: 2, ahead: 20 },
            DrawInfo { lane: 2, ahead: 30 },
            DrawInfo { lane: 8, ahead: 5 },
            DrawInfo { lane: 8, ahead: 40 },
        ]
    );
    assert_eq!(player.on_key_down_at(Key::P1_KEY2, 10), Some(SoundX { id: 2 }));
}

#[test]
fn clock_starts_at_the_first_reading() {
    let mut player = BmsPlayer::new(chart());
    assert_eq!(player.time_at(5_000_000), 0);
    assert_eq!(player.time_at(5_000_999), 0);
    assert_eq!(player.time_at(5_001_000), 1);
    assert_eq!(player.time_at(7_500_000), 2_500);
    assert_eq!(player.time_at(4_000_000), 0);
    assert_eq!(player.time_at(u64::MAX), (u64::MAX - 5_000_000) / 1000);
}

#[test]
fn live_clock_counts_from_zero_and_never_runs_back() {
    let mut player = BmsPlayer::new(chart());
    assert_eq!(player.get_precise_time(), 0);
    let first = player.get_precise_time();
    let second = player.get_precise_time();
    assert!(first <= second);
    assert!(second < 20_000_000);
}

#[test]
fn live_engine_runs_on_its_own_clock() {
    let mut player = BmsPlayer::new(chart());
    // the first reading of the clock is time zero: only the first tempo is due
    assert_eq!(player.process_event(), Vec::<SoundX>::new());
    assert_eq!(player.bpm(), 120_000);
    assert_eq!(player.state(), GameState::PLAY);
    // the lane of the third key holds no note, so that nothing can be judged
    assert_eq!(player.on_key_down(Key::P1_KEY3), None);
    assert!(player.is_pushed(Key::P1_KEY3));
    let shown = player.scroll(u128::MAX);
    assert!(shown.iter().all(|d| d.lane == 1 || d.lane == 8));
    assert!(shown.len() <= 3);
}

#[test]
fn update_keeps_the_tempo_at_one_beat_per_minute_or_more() {
    let bms = Bms {
        sounds: vec![],
        bars: vec![],
        bpms: vec![BpmChange { timing: 0, bpm: 999 }, BpmChange { timing: 10, bpm: 1000 }],
        bga: vec![],
    };
    let mut player = BmsPlayer::new(bms);
    player.process_event_at(0);
    assert_eq!(player.bpm(), 999);
    player.update();
    assert_eq!(player.bpm(), 1000);
    player.process_event_at(10);
    player.update();
    assert_eq!(player.bpm(), 1000);
}

#[test]
fn playable_charts_have_ascending_tempo_changes_within_the_time_range() {
    assert!(is_playable(&chart()));
    let mut bms = chart();
    bms.bpms.push(BpmChange { timing: 5, bpm: 1 });
    bms.bpms.push(BpmChange { timing: 4, bpm: 1 });
    assert!(!is_playable(&bms));
    let mut bms = chart();
    bms.bars.push(TIME_MAX);
    assert!(is_playable(&bms));
    bms.bga.push(Image { timing: TIME_MAX + 1, texture_id: 0 });
    assert!(!is_playable(&bms));
    let mut bms = chart();
    bms.sounds.push(note(Key::P1_KEY1, u64::MAX, 1));
    assert!(!is_playable(&bms));
    let mut bms = chart();
    bms.bpms.push(BpmChange { timing: TIME_MAX + 1, bpm: 1 });
    assert!(!is_playable(&bms));
}

#[test]
fn resolved_chart_plays_from_text_to_the_end_of_the_music() {
    let text = b"#BPM 120\n#WAV01 kick.wav\n#WAV02 back.wav\n#00101:02\n#00111:00010001\n";
    let script = parse_script(text);
    let bms =
        BmsFileLoader::resolve(&script, &BmsFileLoader::sample_ids(&script), &HashMap::new());
    assert!(is_playable(&bms));
    let mut player = BmsPlayer::new(bms);
    assert_eq!(player.process_event_at(0), vec![SoundX { id: 2 }]);
    assert_eq!(player.on_key_down_at(Key::P1_KEY1, 500_000), Some(SoundX { id: 1 }));
    player.on_key_up(Key::P1_KEY1);
    assert_eq!(player.on_key_down_at(Key::P1_KEY1, 1_530_000), Some(SoundX { id: 1 }));
    assert_eq!(player.judge_display().judge, Some(Judge::GREAT));
    assert_eq!(player.judge_display().combo, 1);
    // the latest event is the clearing of the background at half a second
    player.process_event_at(1_499_999);
    assert_eq!(player.state(), GameState::PLAY);
    player.process_event_at(1_500_000);
    assert_eq!(player.state(), GameState::STOP);
}

#[test]
fn keys_of_the_keyboard_map_to_lanes_and_commands() {
    assert_eq!(key_mapping(0x61), Some(Key::P1_SCRATCH));
    assert_eq!(key_mapping(0x7a), Some(Key::P1_KEY1));
    assert_eq!(key_mapping(0x6a), Some(Key::P1_KEY1));
    assert_eq!(key_mapping(0x73), Some(Key::P1_KEY2));
    assert_eq!(key_mapping(0x78), Some(Key::P1_KEY3));
    assert_eq!(key_mapping(0x6b), Some(Key::P1_KEY3));
    assert_eq!(key_mapping(0x64), Some(Key::P1_KEY4));
    assert_eq!(key_mapping(0x63), Some(Key::P1_KEY5));
    assert_eq!(key_mapping(0x6c), Some(Key::P1_KEY5));
    assert_eq!(key_mapping(0x66), Some(Key::P1_KEY6));
    assert_eq!(key_mapping(0x76), Some(Key::P1_KEY7));
    assert_eq!(key_mapping(0x3b), Some(Key::P1_KEY7));
    assert_eq!(key_mapping(0x62), None);
    assert_eq!(key_command(0x4000_0052), Command::SpeedUp);
    assert_eq!(key_command(0x4000_0051), Command::SpeedDown);
    assert_eq!(key_command(0x1b), Command::Cancel);
    assert_eq!(key_command(0x20), Command::Ignore);
    assert_eq!(key_command(0x64), Command::Press(Key::P1_KEY4));
    assert_eq!(key_command(0x31), Command::Ignore);
    assert_eq!(released_lane(0x4000_0052), None);
    assert_eq!(released_lane(0x4000_0051), None);
    assert_eq!(released_lane(0x61), Some(Key::P1_SCRATCH));
    assert_eq!(released_lane(0x1b), None);
}

#[test]
fn textures_follow_lane_and_grade() {
    assert_eq!(note_texture(Key::P1_KEY1), Some(TextureLabel::NOTE_WHITE));
    assert_eq!(note_texture(Key::P1_KEY7), Some(TextureLabel::NOTE_WHITE));
    assert_eq!(note_texture(Key::P1_KEY4), Some(TextureLabel::NOTE_BLUE));
    assert_eq!(note_texture(Key::P1_SCRATCH), Some(TextureLabel::NOTE_RED));
    assert_eq!(note_texture(Key::BACK_CHORUS), None);
    assert_eq!(beam_texture(Key::P1_KEY3), Some(TextureLabel::WHITE_BEAM));
    assert_eq!(beam_texture(Key::P1_KEY6), Some(TextureLabel::BLUE_BEAM));
    assert_eq!(beam_texture(Key::P1_SCRATCH), Some(TextureLabel::RED_BEAM));
    assert_eq!(beam_texture(Key::P1_FREE_SCRATCH), None);
    assert_eq!(judge_texture(Judge::PGREAT), TextureLabel::JUDGE_PERFECT);
    assert_eq!(judge_texture(Judge::GREAT), TextureLabel::JUDGE_GREAT);
    assert_eq!(judge_texture(Judge::GOOD), TextureLabel::JUDGE_GOOD);
    assert_eq!(judge_texture(Judge::BAD), TextureLabel::JUDGE_BAD);
    assert_eq!(judge_texture(Judge::POOR), TextureLabel::JUDGE_POOR);
}

#[test]
fn new_engine_shows_no_grade() {
    let player = BmsPlayer::new(chart());
    let display = player.judge_display();
    assert_eq!(display.judge, None);
    assert_eq!(display.show_until, 0);
    assert_eq!(display.combo, 0);
    assert_eq!(display.count, JudgeCount { pgreat: 0, great: 0, good: 0, bad: 0, poor: 0 });
    assert_eq!(display.shown_at(0), None);
}

#[test]
fn first_grade_starts_from_a_combo_of_zero() {
    let mut display = JudgeDisplay {
        judge: None,
        show_until: 0,
        count: JudgeCount { pgreat: 3, great: 0, good: 0, bad: 0, poor: 0 },
        combo: 3,
    };
    display.update_judge(Judge::PGREAT, u64::MAX);
    assert_eq!(display.combo, 0);
    assert_eq!(display.count.get(Judge::PGREAT), 4);
    assert_eq!(display.show_until, u64::MAX as u128 + 1_000_000);
    assert_eq!(display.shown_at(u64::MAX), Some(Judge::PGREAT));
    display.update_judge(Judge::GREAT, 7);
    assert_eq!(display.combo, 1);
    assert_eq!(display.shown_at(1_000_007), Some(Judge::GREAT));
    assert_eq!(display.shown_at(1_000_008), None);
}

#[test]
fn press_at_the_latest_time_is_judged_like_any_other() {
    let mut bms = chart();
    bms.sounds.push(note(Key::P1_KEY2, TIME_MAX, 5));
    let mut player = BmsPlayer::new(bms);
    assert_eq!(player.on_key_down_at(Key::P1_KEY2, u64::MAX), None);
    assert_eq!(player.judge_index(Key::P1_KEY2), 1);
    assert_eq!(player.on_key_down_at(Key::P1_KEY1, u64::MAX), None);
    assert_eq!(player.judge_index(Key::P1_KEY1), 2);
    assert_eq!(player.judge_display().judge, None);
}

#[test]
fn commands_stop_the_engine_or_press_a_lane() {
    let mut player = BmsPlayer::new(chart());
    assert_eq!(player.on_command_at(Command::SpeedUp, 1_000_000), None);
    assert_eq!(player.on_command_at(Command::SpeedDown, 1_000_000), None);
    assert_eq!(player.on_command_at(Command::Ignore, 1_000_000), None);
    assert_eq!(player.state(), GameState::PLAY);
    assert_eq!(player.judge_index(Key::P1_KEY1), 0);
    assert_eq!(
        player.on_command_at(key_command(0x7a), 1_000_000),
        Some(SoundX { id: 1 })
    );
    assert_eq!(player.judge_display().judge, Some(Judge::PGREAT));
    assert_eq!(player.state(), GameState::PLAY);
    assert_eq!(player.on_command_at(key_command(0x1b), 1_000_000), None);
    assert_eq!(player.state(), GameState::STOP);
    assert_eq!(player.judge_index(Key::P1_KEY1), 1);
}
