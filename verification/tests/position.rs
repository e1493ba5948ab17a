use rust_bms::bms_loader::BpmChange;
use rust_bms::bms_player::calc_position;

#[test]
fn test_calc_position() {
    let bpms = vec![
        BpmChange { timing: 0, bpm: 100 },
        BpmChange { timing: 10, bpm: 200 },
        BpmChange { timing: 20, bpm: 400 },
    ];

    assert_eq!(0, calc_position(0, &bpms));
    assert_eq!(500, calc_position(5, &bpms));
    assert_eq!(1000, calc_position(10, &bpms));
    assert_eq!(2000, calc_position(15, &bpms));
    assert_eq!(3000, calc_position(20, &bpms));
    assert_eq!(5000, calc_position(25, &bpms));
    assert_eq!(7000, calc_position(30, &bpms));
}
