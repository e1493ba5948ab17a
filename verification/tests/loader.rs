use rust_bms::bms_loader::{
    channel_of_key, record_problems, token_problem,
    BmsEvent, BmsEventType, BmsFileLoader, BpmChange, EventSource, Image, Key, Problem, Sound,
    SoundX, TokenProblem, DEFAULT_BPM, TIME_MAX,
};
use rust_bms::bms_parser::{parse_script, ErrorKind};
use std::collections::{HashMap, HashSet};
use rust_bms::decimal::parse_fixed;
use rust_bms::stable_sort::stable_sort;
use rust_bms::timing::span;

fn ids(list: &[u32]) -> HashSet<u32> {
    list.iter().copied().collect()
}

fn none() -> HashMap<u32, Vec<Image>> {
    HashMap::new()
}

fn note(key: Key, timing: u64, id: u32) -> Sound {
    Sound { key, timing, wav_id: SoundX { id } }
}

#[test]
fn evenly_spaced_notes_at_a_constant_tempo() {
    // four notes in one segment at 120 beats per minute: i * (240 / 120) / 4 seconds
    let script = parse_script(b"#BPM 120\n#WAV01 kick.wav\n#00111:01010101\n");
    let declared = BmsFileLoader::sample_ids(&script);
    assert_eq!(declared, ids(&[1]));
    let bms = BmsFileLoader::resolve(&script, &declared, &none());
    assert_eq!(
        bms.sounds,
        vec![
            note(Key::P1_KEY1, 0, 1),
            note(Key::P1_KEY1, 500_000, 1),
            note(Key::P1_KEY1, 1_000_000, 1),
            note(Key::P1_KEY1, 1_500_000, 1),
        ]
    );
    assert_eq!(bms.bars, vec![0]);
    assert_eq!(bms.bpms, vec![BpmChange { timing: 0, bpm: 120_000 }]);
    assert!(bms.bga.is_empty());
}

#[test]
fn times_are_rounded_down_to_a_tick_without_piling_up() {
    // three notes at 130 beats per minute: i * 240 / (130 * 3) seconds
    let script = parse_script(b"#BPM 130\n#WAV0Z a.wav\n#00013:0Z0z0Z\n");
    let bms = BmsFileLoader::resolve(&script, &ids(&[35]), &none());
    let times: Vec<u64> = bms.sounds.iter().map(|s| s.timing).collect();
    assert_eq!(times, vec![0, 615_384, 1_230_769]);
    assert!(bms.sounds.iter().all(|s| s.key == Key::P1_KEY3 && s.wav_id == SoundX { id: 35 }));
}

#[test]
fn tempo_change_inside_a_segment_applies_from_its_place_on() {
    let text = b"#BPM 120\n#WAV01 a.wav\n#00103:0000F000\n#00111:01010101\n#00211:01\n";
    let script = parse_script(text);
    let bms = BmsFileLoader::resolve(&script, &ids(&[1]), &none());
    assert_eq!(
        bms.bpms,
        vec![
            BpmChange { timing: 0, bpm: 120_000 },
            BpmChange { timing: 1_000_000, bpm: 240_000 },
        ]
    );
    let times: Vec<u64> = bms.sounds.iter().map(|s| s.timing).collect();
    assert_eq!(times, vec![0, 500_000, 1_000_000, 1_250_000, 1_500_000]);
    assert_eq!(bms.bars, vec![0, 1_500_000]);
}

#[test]
fn tempo_carries_over_into_the_next_segment() {
    let text = b"#BPM 60\n#WAV01 a.wav\n#00103:78\n#00211:0101\n";
    let script = parse_script(text);
    let bms = BmsFileLoader::resolve(&script, &ids(&[1]), &none());
    // segment 1 at 120 from its start: 2 s; segment 2 at 120: notes at 2 s and 3 s
    assert_eq!(
        bms.bpms,
        vec![BpmChange { timing: 0, bpm: 60_000 }, BpmChange { timing: 0, bpm: 120_000 }]
    );
    assert_eq!(bms.bars, vec![0, 2_000_000]);
    let times: Vec<u64> = bms.sounds.iter().map(|s| s.timing).collect();
    assert_eq!(times, vec![2_000_000, 3_000_000]);
}

#[test]
fn segment_length_comes_from_the_last_record_of_its_channel() {
    let text = b"#BPM 120\n#WAV01 a.wav\n#00102:2\n#00102: 0.5 \n#00111:0101\n#00211:01\n";
    let script = parse_script(text);
    assert_eq!(BmsFileLoader::segment_length(&script, 1), 500_000);
    assert_eq!(BmsFileLoader::segment_length(&script, 2), 1_000_000);
    let bms = BmsFileLoader::resolve(&script, &ids(&[1]), &none());
    let times: Vec<u64> = bms.sounds.iter().map(|s| s.timing).collect();
    assert_eq!(times, vec![0, 500_000, 1_000_000]);
    assert_eq!(bms.bars, vec![0, 1_000_000]);
}

#[test]
fn segment_length_that_is_no_number_counts_as_one() {
    let script = parse_script(b"#00102:abc\n");
    assert_eq!(BmsFileLoader::segment_length(&script, 1), 1_000_000);
}

#[test]
fn missing_or_unreadable_tempo_falls_back_to_130() {
    assert_eq!(BmsFileLoader::initial_bpm(&parse_script(b"#TITLE x\n")), DEFAULT_BPM);
    assert_eq!(BmsFileLoader::initial_bpm(&parse_script(b"#BPM fast\n")), 130_000);
    assert_eq!(BmsFileLoader::initial_bpm(&parse_script(b"#BPM\n")), 130_000);
    assert_eq!(BmsFileLoader::initial_bpm(&parse_script(b"#BPM -5\n")), 130_000);
    assert_eq!(BmsFileLoader::initial_bpm(&parse_script(b"#BPM inf\n")), 130_000);
    assert_eq!(BmsFileLoader::initial_bpm(&parse_script(b"#BPM 5000000\n")), 130_000);
    assert_eq!(BmsFileLoader::initial_bpm(&parse_script(b"#BPM  172.5\n")), 172_500);
    assert_eq!(BmsFileLoader::initial_bpm(&parse_script(b"#BPM 99.99999\n")), 99_999);
}

#[test]
fn tempo_that_is_a_number_is_taken_as_it_was_read() {
    assert_eq!(BmsFileLoader::initial_bpm(&parse_script(b"#BPM 0\n")), 0);
    assert_eq!(BmsFileLoader::initial_bpm(&parse_script(b"#BPM 0.0\n")), 0);
    assert_eq!(BmsFileLoader::initial_bpm(&parse_script(b"#BPM -0\n")), 0);
    assert_eq!(BmsFileLoader::initial_bpm(&parse_script(b"#BPM 120\n")), 120_000);
    assert_eq!(BmsFileLoader::initial_bpm(&parse_script(b"#BPM +120\n")), 120_000);
    assert_eq!(BmsFileLoader::initial_bpm(&parse_script(b"#BPM 1.2e2\n")), 120_000);
    assert_eq!(BmsFileLoader::initial_bpm(&parse_script(b"#BPM 1200E-1\n")), 120_000);
    assert_eq!(BmsFileLoader::initial_bpm(&parse_script(b"#BPM .5\n")), 500);
}

#[test]
fn tempo_of_zero_stands_in_the_chart_and_is_reckoned_as_the_slowest() {
    let script = parse_script(b"#BPM 0\n#WAV01 a.wav\n#00111:0101\n#00211:01\n");
    let bms = BmsFileLoader::resolve(&script, &ids(&[1]), &none());
    assert_eq!(bms.bpms, vec![BpmChange { timing: 0, bpm: 0 }]);
    // at a thousandth of a beat per minute a segment lasts 240 000 seconds
    let times: Vec<u64> = bms.sounds.iter().map(|s| s.timing).collect();
    assert_eq!(times, vec![0, 120_000_000_000, 240_000_000_000]);
    assert_eq!(bms.bars, vec![0, 240_000_000_000]);

    // a tempo change behind a zero tempo holds from its place on
    let script = parse_script(b"#BPM 0\n#WAV01 a.wav\n#00103:0078\n#00111:00000001\n");
    let bms = BmsFileLoader::resolve(&script, &ids(&[1]), &none());
    assert_eq!(
        bms.bpms,
        vec![
            BpmChange { timing: 0, bpm: 0 },
            BpmChange { timing: 120_000_000_000, bpm: 120_000 },
        ]
    );
    assert_eq!(bms.sounds[0].timing, 120_000_500_000);
}

#[test]
fn chart_always_opens_with_the_initial_tempo() {
    let bms = BmsFileLoader::resolve(&parse_script(b""), &ids(&[]), &none());
    assert_eq!(bms.bpms, vec![BpmChange { timing: 0, bpm: 130_000 }]);
    assert!(bms.bars.is_empty());
    assert!(bms.sounds.is_empty());
}

#[test]
fn rests_undeclared_samples_and_bad_tokens_are_dropped() {
    let text = b"#BPM 120\n#WAV01 a.wav\n#00111:0100020!01\n";
    let script = parse_script(text);
    let bms = BmsFileLoader::resolve(&script, &BmsFileLoader::sample_ids(&script), &none());
    // five tokens: 01 kept, 00 a rest, 02 undeclared, 0! no number, 01 kept
    let times: Vec<u64> = bms.sounds.iter().map(|s| s.timing).collect();
    assert_eq!(times, vec![0, 1_600_000]);
}

#[test]
fn tempo_code_of_zero_or_no_number_is_dropped() {
    let script = parse_script(b"#BPM 120\n#00103:00ZZ\n");
    let bms = BmsFileLoader::resolve(&script, &ids(&[]), &none());
    assert_eq!(bms.bpms, vec![BpmChange { timing: 0, bpm: 120_000 }]);
}

#[test]
fn lanes_are_fed_by_their_channels() {
    let text = b"#BPM 120\n#WAV01 a.wav\n#00101:01\n#00116:01\n#00118:01\n#00119:01\n#00117:01\n";
    let script = parse_script(text);
    let bms = BmsFileLoader::resolve(&script, &ids(&[1]), &none());
    let keys: Vec<Key> = bms.sounds.iter().map(|s| s.key).collect();
    assert_eq!(keys, vec![Key::BACK_CHORUS, Key::P1_KEY6, Key::P1_KEY7, Key::P1_SCRATCH]);
    assert_eq!(channel_of_key(Key::P1_KEY1), Some(11));
    assert_eq!(channel_of_key(Key::P1_KEY5), Some(15));
    assert_eq!(channel_of_key(Key::BACK_CHORUS), Some(1));
    assert_eq!(channel_of_key(Key::P1_FREE_SCRATCH), None);
}

#[test]
fn events_at_one_place_keep_the_order_in_which_they_were_found() {
    let text = b"#BPM 120\n#WAV01 a\n#WAV02 b\n#00112:0002\n#00111:0001\n#00111:02\n";
    let script = parse_script(text);
    let bms = BmsFileLoader::resolve(&script, &ids(&[1, 2]), &none());
    assert_eq!(
        bms.sounds,
        vec![
            note(Key::P1_KEY1, 0, 2),
            note(Key::P1_KEY1, 1_000_000, 1),
            note(Key::P1_KEY2, 1_000_000, 2),
        ]
    );
}

#[test]
fn animation_brings_its_frames_at_their_own_times() {
    let text = b"#BPM 120\n#BMP01 movie.mpg\n#00104:000100\n";
    let script = parse_script(text);
    let mut animations = none();
    animations.insert(
        1,
        vec![
            Image { timing: 0, texture_id: 0 },
            Image { timing: 40_000, texture_id: 1 },
            Image { timing: TIME_MAX, texture_id: 2 },
        ],
    );
    let bms = BmsFileLoader::resolve(&script, &ids(&[]), &animations);
    // the trigger stands at one third of a segment of 2 s; the last frame would
    // come after the last tick and is left out
    assert_eq!(
        bms.bga,
        vec![Image { timing: 666_666, texture_id: 0 }, Image { timing: 706_666, texture_id: 1 }]
    );
}

#[test]
fn animation_without_frames_is_dropped() {
    let script = parse_script(b"#BPM 120\n#00104:07\n");
    let bms = BmsFileLoader::resolve(&script, &ids(&[]), &none());
    assert!(bms.bga.is_empty());
}

#[test]
fn resolving_twice_gives_the_same_chart() {
    let text = b"#BPM 155\n#WAV01 a\n#WAV0A b\n#00103:0080\n#00111:010A01\n#00216:0A\n#00301:01";
    let first_script = parse_script(text);
    let second_script = parse_script(text);
    let first = BmsFileLoader::resolve(&first_script, &ids(&[1, 10]), &none());
    let second = BmsFileLoader::resolve(&second_script, &ids(&[1, 10]), &none());
    assert_eq!(first.sounds, second.sounds);
    assert_eq!(first.bars, second.bars);
    assert_eq!(first.bpms, second.bpms);
    assert_eq!(first.bga, second.bga);
    assert_eq!(first.sounds.len(), 5);
    assert_eq!(first.bars.len(), 3);
}

#[test]
fn segments_without_records_take_no_time() {
    let script = parse_script(b"#BPM 120\n#WAV01 a\n#00511:01\n#00111:01\n");
    assert_eq!(BmsFileLoader::list_segment_ids(&script), vec![1, 5]);
    let bms = BmsFileLoader::resolve(&script, &ids(&[1]), &none());
    assert_eq!(bms.bars, vec![0, 2_000_000]);
}

#[test]
fn resolved_lists_are_in_ascending_order() {
    let text = b"#BPM 120\n#WAV01 a\n#00111:0101\n#00112:000001\n#00103:00003C\n#00211:01\n";
    let bms = BmsFileLoader::resolve(&parse_script(text), &ids(&[1]), &none());
    assert!(bms.sounds.windows(2).all(|w| w[0].timing <= w[1].timing));
    assert!(bms.bars.windows(2).all(|w| w[0] <= w[1]));
    assert!(bms.bpms.windows(2).all(|w| w[0].timing <= w[1].timing));
    assert_eq!(bms.bpms[0].timing, 0);
}

#[test]
fn declared_lists_ids_and_file_names() {
    let text = b"#WAV01 kick.wav\n#WAVZZ snare.wav\n#WAV01 kick2.wav\n#WAV ?\n#WAV!! x\n#BMP0a back.mpg\n";
    let script = parse_script(text);
    let samples = BmsFileLoader::declared(&script, b"WAV");
    let listed: Vec<(u32, Vec<u8>)> = samples.into_iter().map(|d| (d.id, d.file)).collect();
    assert_eq!(listed, vec![(1295, b"snare.wav".to_vec()), (1, b"kick2.wav".to_vec())]);
    let bitmaps = BmsFileLoader::declared(&script, b"BMP");
    assert_eq!(bitmaps.len(), 1);
    assert_eq!(bitmaps[0].id, 10);
    assert_eq!(bitmaps[0].file, b"back.mpg".to_vec());
    assert_eq!(BmsFileLoader::sample_ids(&script), ids(&[1295, 1]));
}

#[test]
fn tokens_are_read_in_their_base() {
    assert_eq!(BmsFileLoader::decode(b"00"), Some(0));
    assert_eq!(BmsFileLoader::decode(b"fF"), Some(255));
    assert_eq!(BmsFileLoader::decode(b"7A"), Some(122));
    assert_eq!(BmsFileLoader::decode(b"0G"), None);
    assert_eq!(BmsFileLoader::decode(b"+1"), None);
    assert_eq!(BmsFileLoader::decode(b"1"), None);
    assert_eq!(BmsFileLoader::decode(b"123"), None);
    assert_eq!(BmsFileLoader::decode_id(b"zz"), Some(1295));
    assert_eq!(BmsFileLoader::decode_id(b"0G"), Some(16));
    assert_eq!(BmsFileLoader::decode_id(b"10"), Some(36));
    assert_eq!(BmsFileLoader::decode_id(b"1 "), None);
}

#[test]
fn data_is_cut_into_tokens_of_two() {
    let tokens = BmsFileLoader::decompose_command(b"01AB0");
    assert_eq!(tokens, vec![&b"01"[..], &b"AB"[..]]);
    assert!(BmsFileLoader::decompose_command(b"0").is_empty());
    assert!(BmsFileLoader::decompose_command(b"").is_empty());
}

#[test]
fn decimal_numbers_are_read_as_fixed_point() {
    assert_eq!(parse_fixed(b"130", 3), Some(130_000));
    assert_eq!(parse_fixed(b"0.75", 6), Some(750_000));
    assert_eq!(parse_fixed(b"0.0625", 6), Some(62_500));
    assert_eq!(parse_fixed(b"1.", 3), Some(1_000));
    assert_eq!(parse_fixed(b".5", 3), Some(500));
    assert_eq!(parse_fixed(b"1.23456", 3), Some(1_234));
    assert_eq!(parse_fixed(b"007", 0), Some(7));
    assert_eq!(parse_fixed(b"4294967.295", 3), Some(4_294_967_295));
    assert_eq!(parse_fixed(b"4294967.296", 3), None);
    assert_eq!(parse_fixed(b"99999999999999999999", 0), None);
    assert_eq!(parse_fixed(b"", 3), None);
    assert_eq!(parse_fixed(b".", 3), None);
    assert_eq!(parse_fixed(b"1.2.3", 3), None);
    assert_eq!(parse_fixed(b"-1", 3), None);
    assert_eq!(parse_fixed(b" 1", 3), None);
}

#[test]
fn numbers_may_have_a_sign_and_an_exponent() {
    assert_eq!(parse_fixed(b"+1.5", 1), Some(15));
    assert_eq!(parse_fixed(b"-0.00", 3), Some(0));
    assert_eq!(parse_fixed(b"-0.001", 3), None);
    assert_eq!(parse_fixed(b"-0.0001", 3), None);
    assert_eq!(parse_fixed(b"1e3", 3), Some(1_000_000));
    assert_eq!(parse_fixed(b"1E2", 0), Some(100));
    assert_eq!(parse_fixed(b"1e+2", 0), Some(100));
    assert_eq!(parse_fixed(b"125e-2", 1), Some(12));
    assert_eq!(parse_fixed(b"1e-5", 3), Some(0));
    assert_eq!(parse_fixed(b"0.0000000001e10", 0), Some(1));
    assert_eq!(parse_fixed(b"4e9", 0), Some(4_000_000_000));
    assert_eq!(parse_fixed(b"5e9", 0), None);
    assert_eq!(parse_fixed(b"0e999999999999999999999999999999999999999", 3), Some(0));
    assert_eq!(parse_fixed(b"1e999999999999999999999999999999999999999", 3), None);
    assert_eq!(parse_fixed(b"1e-999999999999999999999999999999999999999", 3), Some(0));
    assert_eq!(parse_fixed(b"0.00e12", 3), Some(0));
    assert_eq!(parse_fixed(b"1234.5e-4", 6), Some(123_450));
    assert_eq!(parse_fixed(b"1e", 3), None);
    assert_eq!(parse_fixed(b"1e+", 3), None);
    assert_eq!(parse_fixed(b"e5", 3), None);
    assert_eq!(parse_fixed(b"+", 3), None);
    assert_eq!(parse_fixed(b"++1", 3), None);
    assert_eq!(parse_fixed(b"1e2e3", 3), None);
    assert_eq!(parse_fixed(b"1e2.5", 3), None);
    assert_eq!(parse_fixed(b"inf", 3), None);
    assert_eq!(parse_fixed(b"nan", 3), None);
}

#[test]
fn span_is_the_share_of_a_segment_in_ticks() {
    // a whole segment of length one at 120 beats per minute lasts two seconds
    assert_eq!(span(1, 1, 1_000_000, 120_000), 2_000_000);
    assert_eq!(span(1, 3, 1_000_000, 120_000), 666_666);
    assert_eq!(span(0, 7, 1_000_000, 120_000), 0);
    assert_eq!(span(1, 1, 0, 120_000), 0);
    assert_eq!(span(u64::MAX, u64::MAX, u32::MAX, 1), 1_030_792_150_800_000);
}

#[test]
fn events_are_sorted_by_place_and_stay_in_order_at_one_place() {
    let events = vec![
        BmsEvent::new(0, 1, BmsEventType::Bar),
        BmsEvent::new(2, 4, BmsEventType::BpmChange(1000)),
        BmsEvent::new(1, 3, BmsEventType::Key(Key::P1_KEY1, SoundX { id: 1 })),
        BmsEvent::new(1, 2, BmsEventType::Key(Key::P1_KEY2, SoundX { id: 2 })),
        BmsEvent::new(0, 5, BmsEventType::Key(Key::P1_KEY3, SoundX { id: 3 })),
    ];
    let sorted = stable_sort(&events);
    assert_eq!(sorted, vec![events[0], events[4], events[2], events[1], events[3]]);
}

#[test]
fn visible_keys_are_the_seven_keys_and_the_turntable() {
    let keys = Key::visible_keys();
    assert_eq!(
        keys,
        vec![
            Key::P1_KEY1,
            Key::P1_KEY2,
            Key::P1_KEY3,
            Key::P1_KEY4,
            Key::P1_KEY5,
            Key::P1_KEY6,
            Key::P1_KEY7,
            Key::P1_SCRATCH,
        ]
    );
    assert_eq!(Key::P1_SCRATCH.code(), 0);
    assert_eq!(Key::P1_KEY7.code(), 7);
    assert_eq!(Key::P1_FREE_SCRATCH.code(), 254);
    assert_eq!(Key::BACK_CHORUS.code(), 255);
}

#[test]
fn loader_remembers_its_path() {
    let loader = BmsFileLoader::new("example/conflict/_01_conflict.bme");
    assert_eq!(loader.path(), "example/conflict/_01_conflict.bme");
}

#[test]
fn wrong_tokens_are_named_by_kind_and_place() {
    let ids = ids(&[1, 2]);
    let mut animations = none();
    animations.insert(7, Vec::new());
    let lane = EventSource::Note(Key::P1_KEY1);
    assert_eq!(token_problem(lane, b"01", &ids, &animations), None);
    assert_eq!(token_problem(lane, b"00", &ids, &animations), None);
    assert_eq!(token_problem(lane, b"03", &ids, &animations), Some(ErrorKind::ReferenceError));
    assert_eq!(token_problem(lane, b"0?", &ids, &animations), Some(ErrorKind::DataError));
    assert_eq!(token_problem(EventSource::Tempo, b"GG", &ids, &animations), Some(ErrorKind::DataError));
    assert_eq!(token_problem(EventSource::Tempo, b"00", &ids, &animations), None);
    assert_eq!(token_problem(EventSource::Tempo, b"FF", &ids, &animations), None);
    assert_eq!(token_problem(EventSource::Animation, b"07", &ids, &animations), None);
    assert_eq!(token_problem(EventSource::Animation, b"00", &ids, &animations), None);
    assert_eq!(
        token_problem(EventSource::Animation, b"08", &ids, &animations),
        Some(ErrorKind::ReferenceError)
    );
    assert_eq!(
        record_problems(b"0100zz0!02x", lane, &ids, &animations),
        vec![
            TokenProblem { token: 2, kind: ErrorKind::ReferenceError },
            TokenProblem { token: 3, kind: ErrorKind::DataError },
        ]
    );
}

#[test]
fn loader_test() {
    let text = b"#GENRE techno\n#BPM 160\n#WAV01 bd.wav\n#WAVAB hat.wav\n#00111:01AB\n#09106:0000AB00\n";
    let script = parse_script(text);
    let bms = BmsFileLoader::resolve(&script, &BmsFileLoader::sample_ids(&script), &none());
    println!("notes: {}", bms.sounds.len());
}

#[test]
fn problems_of_a_script_are_listed_with_their_places() {
    let text = b"#WAV01 a.wav\n#BMP01 b.png\n#00211:0102\n#00103:GG10\n#00211:01\n#00211:0?\n#00204:0102\n";
    let script = parse_script(text);
    let mut animations = none();
    animations.insert(1, Vec::new());
    let list = BmsFileLoader::problems(&script, &BmsFileLoader::sample_ids(&script), &animations);
    assert_eq!(
        list,
        vec![
            Problem { kind: ErrorKind::DataError, segment: 1, channel: 3, record: 0, token: 0 },
            Problem { kind: ErrorKind::ReferenceError, segment: 2, channel: 11, record: 0, token: 1 },
            Problem { kind: ErrorKind::DataError, segment: 2, channel: 11, record: 2, token: 0 },
            Problem { kind: ErrorKind::ReferenceError, segment: 2, channel: 4, record: 0, token: 1 },
        ]
    );
    assert!(BmsFileLoader::problems(&parse_script(b"#00111:0000"), &ids(&[]), &none()).is_empty());
}
