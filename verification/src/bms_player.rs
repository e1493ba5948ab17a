use vstd::prelude::*;
use crate::bms_loader::{
    Bms,
    BpmChange,
    DEFAULT_BPM,
    Image,
    Key,
    Sound,
    SoundX,
    BPM_SCALE,
    TIME_MAX,
    Time,
};
use crate::controls::Command;
use crate::segment::{ChartView, chart_ascending};
use crate::stable_sort::{
    SortKey,
    all_sortable,
    lemma_member_of_sorted,
    lemma_stable_sorted,
    ordered,
    stable_sort,
    stable_sorted,
};

verus! {

/// The change points come in ascending order of time.
pub open spec fn tempo_ascending(bpms: Seq<BpmChange>) -> bool {
    forall|i: int, j: int| 0 <= i <= j < bpms.len() ==> bpms[i].timing <= bpms[j].timing
}

/// Start of the `i`-th tempo interval: time zero, then each change point.
pub open spec fn interval_start(bpms: Seq<BpmChange>, i: int) -> int {
    if i <= 0 { 0 } else { bpms[i - 1].timing as int }
}

/// Tempo during the `i`-th tempo interval: the default tempo before the
/// first change point, then the tempo of each change.
pub open spec fn interval_bpm(bpms: Seq<BpmChange>, i: int) -> int {
    if i <= 0 { DEFAULT_BPM as int } else { bpms[i - 1].bpm as int }
}

/// Length of the part of `[from, to)` that lies before `t`.
pub open spec fn elapsed_within(from: int, to: int, t: int) -> int {
    if t <= from || to <= from {
        0
    } else if t < to {
        t - from
    } else {
        to - from
    }
}

/// What the first `n` tempo intervals, those that end at a change point,
/// add to the position at time `t`.
pub open spec fn position_closed(bpms: Seq<BpmChange>, n: int, t: int) -> int
    decreases n,
{
    if n <= 0 {
        0
    } else {
        position_closed(bpms, n - 1, t) + elapsed_within(
            interval_start(bpms, n - 1),
            bpms[n - 1].timing as int,
            t,
        ) * interval_bpm(bpms, n - 1)
    }
}

/// What the last tempo interval, which never ends, adds to the position at `t`.
pub open spec fn position_open(bpms: Seq<BpmChange>, t: int) -> int {
    let n = bpms.len() as int;
    if t <= interval_start(bpms, n) {
        0
    } else {
        (t - interval_start(bpms, n)) * interval_bpm(bpms, n)
    }
}

/// The scroll position at time `t`: the integral of the tempo from time zero
/// to `t`, in tempo units times ticks.
pub open spec fn position(bpms: Seq<BpmChange>, t: int) -> int {
    position_closed(bpms, bpms.len() as int, t) + position_open(bpms, t)
}

/// Every tempo interval adds at most its length times the greatest tempo.
proof fn lemma_term_bound(from: int, to: int, t: int, bpm: int)
    requires
        0 <= from <= to,
        0 <= bpm <= u32::MAX,
        0 <= t,
    ensures
        0 <= elapsed_within(from, to, t) * bpm,
        elapsed_within(from, to, t) * bpm <= (elapsed_within(from, to, t)) * (u32::MAX as int),
        elapsed_within(from, to, t) == elapsed_within(0, to, t) - elapsed_within(0, from, t),
{
    let e = elapsed_within(from, to, t);
    assert(0 <= e * bpm && e * bpm <= e * (u32::MAX as int)) by (nonlinear_arith)
        requires
            0 <= e,
            0 <= bpm <= u32::MAX,
    ;
}

/// The closed intervals together add at most the covered time times the
/// greatest tempo.
pub proof fn lemma_position_closed_bound(bpms: Seq<BpmChange>, n: int, t: int)
    requires
        tempo_ascending(bpms),
        0 <= n <= bpms.len(),
        0 <= t,
    ensures
        0 <= position_closed(bpms, n, t),
        position_closed(bpms, n, t) <= elapsed_within(0, interval_start(bpms, n), t) * (
        u32::MAX as int),
    decreases n,
{
    if n > 0 {
        lemma_position_closed_bound(bpms, n - 1, t);
        let from = interval_start(bpms, n - 1);
        let to = bpms[n - 1].timing as int;
        lemma_term_bound(from, to, t, interval_bpm(bpms, n - 1));
        assert(elapsed_within(0, from, t) * (u32::MAX as int) + elapsed_within(from, to, t) * (
        u32::MAX as int) == elapsed_within(0, to, t) * (u32::MAX as int)) by (nonlinear_arith)
            requires
                elapsed_within(from, to, t) == elapsed_within(0, to, t) - elapsed_within(
                    0,
                    from,
                    t,
                ),
        ;
    }
}

/// The tempo in effect at time `t`, looking at the first `n` change points
/// only: that of the last of them at or before `t`, so a change at exactly
/// `t` already applies; the default tempo where none has come yet.
pub open spec fn tempo_among(bpms: Seq<BpmChange>, n: int, t: int) -> int
    decreases n,
{
    if n <= 0 {
        DEFAULT_BPM as int
    } else if bpms[n - 1].timing <= t {
        bpms[n - 1].bpm as int
    } else {
        tempo_among(bpms, n - 1, t)
    }
}

/// The tempo in effect at time `t`.
pub open spec fn tempo_at(bpms: Seq<BpmChange>, t: int) -> int {
    tempo_among(bpms, bpms.len() as int, t)
}

proof fn lemma_tempo_among_range(bpms: Seq<BpmChange>, n: int, t: int)
    requires
        0 <= n <= bpms.len(),
    ensures
        0 <= tempo_among(bpms, n, t) <= u32::MAX,
    decreases n,
{
    if n > 0 {
        lemma_tempo_among_range(bpms, n - 1, t);
    }
}

proof fn lemma_closed_step(bpms: Seq<BpmChange>, n: int, t: int)
    requires
        tempo_ascending(bpms),
        0 <= n <= bpms.len(),
        0 <= t,
    ensures
        position_closed(bpms, n, t + 1) - position_closed(bpms, n, t) + (if interval_start(bpms, n)
            <= t {
            interval_bpm(bpms, n)
        } else {
            0
        }) == tempo_among(bpms, n, t),
    decreases n,
{
    if n > 0 {
        lemma_closed_step(bpms, n - 1, t);
        let from = interval_start(bpms, n - 1);
        let to = bpms[n - 1].timing as int;
        let bpm = interval_bpm(bpms, n - 1);
        let grows = elapsed_within(from, to, t + 1) - elapsed_within(from, to, t);
        assert(grows == if from <= t < to { 1int } else { 0int });
        assert(elapsed_within(from, to, t + 1) * bpm - elapsed_within(from, to, t) * bpm == grows
            * bpm) by (nonlinear_arith)
            requires
                grows == elapsed_within(from, to, t + 1) - elapsed_within(from, to, t),
        ;
        if n - 1 > 0 {
            assert(bpms[n - 2].timing <= bpms[n - 1].timing);
        }
    }
}

/// One tick later the position has grown by exactly the tempo in effect:
/// the position has no jumps, and a tempo change applies from its own
/// instant on.
pub proof fn lemma_position_step(bpms: Seq<BpmChange>, t: int)
    requires
        tempo_ascending(bpms),
        0 <= t,
    ensures
        position(bpms, t + 1) == position(bpms, t) + tempo_at(bpms, t),
{
    let n = bpms.len() as int;
    lemma_closed_step(bpms, n, t);
    let start = interval_start(bpms, n);
    let bpm = interval_bpm(bpms, n);
    let grown = position_closed(bpms, n, t + 1) - position_closed(bpms, n, t);
    if start <= t {
        assert((t + 1 - start) * bpm == (t - start) * bpm + bpm) by (nonlinear_arith);
        assert(position_open(bpms, t + 1) == (t + 1 - start) * bpm);
        if t == start {
            assert((t - start) * bpm == 0) by (nonlinear_arith)
                requires
                    t == start,
            ;
        }
        assert(position_open(bpms, t) == (t - start) * bpm);
        assert(grown + bpm == tempo_among(bpms, n, t));
    } else {
        assert(position_open(bpms, t + 1) == 0);
        assert(position_open(bpms, t) == 0);
        assert(grown == tempo_among(bpms, n, t));
    }
}

/// The position never decreases with time, and between two instants it
/// grows by no more than the elapsed time at the greatest tempo.
pub proof fn lemma_position_non_decreasing(bpms: Seq<BpmChange>, t1: int, t2: int)
    requires
        tempo_ascending(bpms),
        0 <= t1 <= t2,
    ensures
        position(bpms, t1) <= position(bpms, t2),
        position(bpms, t2) - position(bpms, t1) <= (t2 - t1) * (u32::MAX as int),
    decreases t2 - t1,
{
    if t1 < t2 {
        lemma_position_non_decreasing(bpms, t1, t2 - 1);
        lemma_position_step(bpms, t2 - 1);
        lemma_tempo_among_range(bpms, bpms.len() as int, t2 - 1);
        assert((t2 - t1) * (u32::MAX as int) == (t2 - 1 - t1) * (u32::MAX as int) + (
        u32::MAX as int)) by (nonlinear_arith);
    }
}

/// At time zero the position is zero.
pub proof fn lemma_position_origin(bpms: Seq<BpmChange>)
    requires
        tempo_ascending(bpms),
    ensures
        position(bpms, 0) == 0,
{
    lemma_position_closed_zero(bpms, bpms.len() as int);
}

proof fn lemma_position_closed_zero(bpms: Seq<BpmChange>, n: int)
    requires
        0 <= n <= bpms.len(),
    ensures
        position_closed(bpms, n, 0) == 0,
    decreases n,
{
    if n > 0 {
        lemma_position_closed_zero(bpms, n - 1);
    }
}

/// The scroll position at time `t` for the tempo changes `bpms`.
pub fn calc_position(t: u64, bpms: &Vec<BpmChange>) -> (y: u128)
    requires
        tempo_ascending(bpms@),
    ensures
        y == position(bpms@, t as int),
{
    let mut y: u128 = 0;
    let mut p_bpm: u32 = DEFAULT_BPM;
    let mut p_timing: u64 = 0;
    let mut i: usize = 0;
    while i < bpms.len()
        invariant
            0 <= i <= bpms.len(),
            tempo_ascending(bpms@),
            y == position_closed(bpms@, i as int, t as int),
            p_bpm == interval_bpm(bpms@, i as int),
            p_timing == interval_start(bpms@, i as int),
        decreases bpms.len() - i,
    {
        let change = bpms[i];
        let d: u64 = if t <= p_timing || change.timing <= p_timing {
            0
        } else if t < change.timing {
            t - p_timing
        } else {
            change.timing - p_timing
        };
        proof {
            lemma_position_closed_bound(bpms@, i as int, t as int);
            lemma_position_closed_bound(bpms@, i as int + 1, t as int);
            assert(elapsed_within(0, change.timing as int, t as int) * (u32::MAX as int)
                <= u64::MAX * u32::MAX) by (nonlinear_arith)
                requires
                    0 <= elapsed_within(0, change.timing as int, t as int) <= u64::MAX,
            ;
            assert(0 <= (d as int) * (p_bpm as int) <= u64::MAX * u32::MAX) by (nonlinear_arith)
                requires
                    0 <= d <= u64::MAX,
                    0 <= p_bpm <= u32::MAX,
            ;
        }
        y = y + (d as u128) * (p_bpm as u128);
        p_bpm = change.bpm;
        p_timing = change.timing;
        i = i + 1;
    }
    let rest: u64 = if t <= p_timing {
        0
    } else {
        t - p_timing
    };
    proof {
        lemma_position_closed_bound(bpms@, bpms.len() as int, t as int);
        let e = elapsed_within(0, p_timing as int, t as int);
        assert((e + rest) * (u32::MAX as int) <= u64::MAX * u32::MAX) by (nonlinear_arith)
            requires
                0 <= e + rest <= u64::MAX,
        ;
        assert(0 <= (rest as int) * (p_bpm as int) <= (rest as int) * (u32::MAX as int))
            by (nonlinear_arith)
            requires
                0 <= rest,
                0 <= p_bpm <= u32::MAX,
        ;
        assert((e + rest) * (u32::MAX as int) == e * (u32::MAX as int) + rest * (u32::MAX as int))
            by (nonlinear_arith);
    }
    y + (rest as u128) * (p_bpm as u128)
}

/// The grade of a key press, from the best to the worst.
#[derive(Debug, Copy, Clone, Hash, PartialEq, Eq, Structural)]
pub enum Judge {
    PGREAT,
    GREAT,
    GOOD,
    BAD,
    POOR,
}

impl Judge {
    /// The grade keeps a combo alive.
    pub open spec fn combo_lasts_spec(judge: Judge) -> bool {
        judge == Judge::PGREAT || judge == Judge::GREAT || judge == Judge::GOOD
    }

    /// Whether the grade keeps a combo alive.
    #[verifier::when_used_as_spec(combo_lasts_spec)]
    pub fn combo_lasts(judge: Judge) -> (lasts: bool)
        ensures
            lasts == Judge::combo_lasts_spec(judge),
    {
        match judge {
            Judge::PGREAT | Judge::GREAT | Judge::GOOD => true,
            _ => false,
        }
    }
}

/// For each grade the distance in time below which a key press earns it.
#[derive(Debug, Copy, Clone, PartialEq, Eq, Structural)]
pub struct JudgeRank {
    pub pgreat: Time,
    pub great: Time,
    pub good: Time,
    pub bad: Time,
    pub poor: Time,
}

impl JudgeRank {
    /// The grade of a key press at the distance `d` from its note: the
    /// first grade, from the best on, whose threshold `d` stays below; none
    /// at or beyond the threshold of the worst grade.
    pub open spec fn judge_of(self, d: Time) -> Option<Judge> {
        if d < self.poor {
            Some(
                if d < self.pgreat {
                    Judge::PGREAT
                } else if d < self.great {
                    Judge::GREAT
                } else if d < self.good {
                    Judge::GOOD
                } else if d < self.bad {
                    Judge::BAD
                } else {
                    Judge::POOR
                },
            )
        } else {
            None
        }
    }

    /// The grade of a key press at the distance `d` from its note.
    pub fn get_judge(&self, d: Time) -> (judge: Option<Judge>)
        ensures
            judge == self.judge_of(d),
    {
        if d < self.poor {
            Some(
                if d < self.pgreat {
                    Judge::PGREAT
                } else if d < self.great {
                    Judge::GREAT
                } else if d < self.good {
                    Judge::GOOD
                } else if d < self.bad {
                    Judge::BAD
                } else {
                    Judge::POOR
                },
            )
        } else {
            None
        }
    }
}

/// The thresholds in use: 20, 40, 105, 150 and 200 thousandths of a second.
pub open spec fn iidx_judgerank_spec() -> JudgeRank {
    JudgeRank { pgreat: 20_000, great: 40_000, good: 105_000, bad: 150_000, poor: 200_000 }
}

/// The thresholds in use.
#[verifier::when_used_as_spec(iidx_judgerank_spec)]
pub fn iidx_judgerank() -> (rank: JudgeRank)
    ensures
        rank == iidx_judgerank_spec(),
{
    JudgeRank { pgreat: 20_000, great: 40_000, good: 105_000, bad: 150_000, poor: 200_000 }
}

/// How often each grade was given.
#[derive(Debug, Copy, Clone, PartialEq, Eq, Structural)]
pub struct JudgeCount {
    pub pgreat: u64,
    pub great: u64,
    pub good: u64,
    pub bad: u64,
    pub poor: u64,
}

impl JudgeCount {
    /// How often the grade was given.
    pub open spec fn of(self, judge: Judge) -> u64 {
        match judge {
            Judge::PGREAT => self.pgreat,
            Judge::GREAT => self.great,
            Judge::GOOD => self.good,
            Judge::BAD => self.bad,
            Judge::POOR => self.poor,
        }
    }

    /// How many grades were given in all.
    pub open spec fn total(self) -> int {
        self.pgreat + self.great + self.good + self.bad + self.poor
    }

    /// The counts with one more of the grade.
    pub open spec fn plus_one(self, judge: Judge) -> JudgeCount {
        match judge {
            Judge::PGREAT => JudgeCount { pgreat: (self.pgreat + 1) as u64, ..self },
            Judge::GREAT => JudgeCount { great: (self.great + 1) as u64, ..self },
            Judge::GOOD => JudgeCount { good: (self.good + 1) as u64, ..self },
            Judge::BAD => JudgeCount { bad: (self.bad + 1) as u64, ..self },
            Judge::POOR => JudgeCount { poor: (self.poor + 1) as u64, ..self },
        }
    }

    /// How often the grade was given.
    pub fn get(&self, judge: Judge) -> (n: u64)
        ensures
            n == self.of(judge),
    {
        match judge {
            Judge::PGREAT => self.pgreat,
            Judge::GREAT => self.great,
            Judge::GOOD => self.good,
            Judge::BAD => self.bad,
            Judge::POOR => self.poor,
        }
    }
}

/// How long a grade stays on display.
pub const JUDGE_DISPLAY_TIME: Time = 1_000_000;

/// The last grade, how long it is shown, the count of each grade, and the
/// combo.
pub struct JudgeDisplay {
    pub judge: Option<Judge>,
    /// The time until which the last grade is shown. It is held wider than
    /// a time, so that it is exact whatever the time of the grade.
    pub show_until: u128,
    pub count: JudgeCount,
    pub combo: u64,
}

impl JudgeDisplay {
    /// The combo is no longer than the number of grades given.
    pub open spec fn wf(&self) -> bool {
        self.combo <= self.count.total()
    }

    /// The combo after a grade: it grows by one if the grade before and
    /// the new one both keep a combo alive, and is zero if not, as it is
    /// where there is no grade before.
    pub open spec fn combo_after(&self, judge: Judge) -> int {
        match self.judge {
            Some(prev) => if Judge::combo_lasts_spec(prev) && Judge::combo_lasts_spec(judge) {
                self.combo + 1
            } else {
                0
            },
            None => 0,
        }
    }

    /// The display before any grade.
    pub fn new() -> (display: JudgeDisplay)
        ensures
            display.judge.is_none(),
            display.show_until == 0,
            display.count == (JudgeCount { pgreat: 0, great: 0, good: 0, bad: 0, poor: 0 }),
            display.combo == 0,
            display.wf(),
    {
        JudgeDisplay {
            judge: None,
            show_until: 0,
            count: JudgeCount { pgreat: 0, great: 0, good: 0, bad: 0, poor: 0 },
            combo: 0,
        }
    }

    /// The grade that is on display at `now`: the last grade, until its
    /// time on display is over.
    pub fn shown_at(&self, now: Time) -> (judge: Option<Judge>)
        ensures
            judge == if now <= self.show_until {
                self.judge
            } else {
                None
            },
    {
        if (now as u128) <= self.show_until {
            self.judge
        } else {
            None
        }
    }

    /// Takes in the grade `judge`, given at time `t`.
    pub fn update_judge(&mut self, judge: Judge, t: Time)
        requires
            old(self).wf(),
            old(self).count.total() < u64::MAX,
        ensures
            final(self).wf(),
            final(self).judge == Some(judge),
            final(self).show_until == t + JUDGE_DISPLAY_TIME,
            final(self).count == old(self).count.plus_one(judge),
            final(self).count.total() == old(self).count.total() + 1,
            final(self).combo == old(self).combo_after(judge),
    {
        match self.judge {
            Some(prev) => {
                if Judge::combo_lasts(prev) && Judge::combo_lasts(judge) {
                    self.combo = self.combo + 1;
                } else {
                    self.combo = 0;
                }
            },
            None => {
                self.combo = 0;
            },
        }
        match judge {
            Judge::PGREAT => {
                self.count.pgreat = self.count.pgreat + 1;
            },
            Judge::GREAT => {
                self.count.great = self.count.great + 1;
            },
            Judge::GOOD => {
                self.count.good = self.count.good + 1;
            },
            Judge::BAD => {
                self.count.bad = self.count.bad + 1;
            },
            Judge::POOR => {
                self.count.poor = self.count.poor + 1;
            },
        }
        self.judge = Some(judge);
        self.show_until = (t as u128) + (JUDGE_DISPLAY_TIME as u128);
    }
}

/// The digits of a number from the first to the last; none for zero.
pub open spec fn digits_of(x: nat) -> Seq<u8>
    decreases x,
{
    if x == 0 {
        Seq::empty()
    } else {
        digits_of(x / 10).push((x % 10) as u8)
    }
}

/// The digits of a combo from the first to the last; none for a combo of zero.
pub fn combo_digits(combo: u64) -> (digits: Vec<u8>)
    ensures
        digits@ == digits_of(combo as nat),
{
    let mut rest: u64 = combo;
    let mut digits: Vec<u8> = Vec::new();
    while rest > 0
        invariant
            digits_of(combo as nat) == digits_of(rest as nat) + digits@,
        decreases rest,
    {
        let ghost before = digits@;
        digits.insert(0, (rest % 10) as u8);
        proof {
            assert(digits@ == seq![(rest % 10) as u8] + before);
            assert(digits_of(rest as nat) == digits_of((rest / 10) as nat).push((rest % 10) as u8));
            assert(digits_of((rest / 10) as nat).push((rest % 10) as u8) + before == digits_of(
                (rest / 10) as nat,
            ) + digits@);
        }
        rest = rest / 10;
    }
    assert(digits_of(0) + digits@ == digits@);
    digits
}

/// What happens when an event of the queue comes due.
#[derive(Debug, Copy, Clone, PartialEq, Eq, Structural)]
pub enum EventType {
    /// The tempo changes.
    ChangeBpm(u32),
    /// A background sample is played.
    PlaySound(Sound),
    /// The background shows another texture, or none.
    ChangeBga(Option<i32>),
    /// The music is over.
    EndMusic,
}

/// An event of the queue and the time at which it comes due.
#[derive(Debug, Copy, Clone, PartialEq, Eq, Structural)]
pub struct Event {
    pub timing: Time,
    pub event_type: EventType,
}

impl SortKey for Event {
    open spec fn sortable(self) -> bool {
        true
    }

    /// `self` comes due no later than `other`.
    open spec fn ranks_le(self, other: Self) -> bool {
        self.timing <= other.timing
    }

    fn rank_le(&self, other: &Self) -> (le: bool) {
        self.timing <= other.timing
    }

    proof fn lemma_total(a: Self, b: Self) {
    }

    proof fn lemma_transitive(a: Self, b: Self, c: Self) {
    }
}

/// Time between the last frame of the background animation and the moment
/// at which the background is cleared: half a second.
pub const BGA_CLEAR_DELAY: Time = 500_000;

/// Time between the last scheduled event and the end of the music: a second.
pub const END_DELAY: Time = 1_000_000;

/// A chart that can be played: its tempo changes come in ascending order of
/// time, and nothing in it comes after the last tick of a chart.
pub open spec fn playable(chart: ChartView) -> bool {
    &&& tempo_ascending(chart.bpms)
    &&& forall|i: int| 0 <= i < chart.bpms.len() ==> (#[trigger] chart.bpms[i]).timing <= TIME_MAX
    &&& forall|i: int| 0 <= i < chart.sounds.len() ==> (#[trigger] chart.sounds[i]).timing <= TIME_MAX
    &&& forall|i: int| 0 <= i < chart.bars.len() ==> (#[trigger] chart.bars[i]) <= TIME_MAX
    &&& forall|i: int| 0 <= i < chart.bga.len() ==> (#[trigger] chart.bga[i]).timing <= TIME_MAX
}

/// The events of the background samples among the first `n` sounds.
pub open spec fn sound_events(sounds: Seq<Sound>, n: int) -> Seq<Event>
    decreases n,
{
    if n <= 0 {
        Seq::empty()
    } else if sounds[n - 1].key == Key::BACK_CHORUS {
        sound_events(sounds, n - 1).push(
            Event { timing: sounds[n - 1].timing, event_type: EventType::PlaySound(sounds[n - 1]) },
        )
    } else {
        sound_events(sounds, n - 1)
    }
}

/// The events that show the frames of the background animation.
pub open spec fn image_events(bga: Seq<Image>) -> Seq<Event> {
    Seq::new(
        bga.len(),
        |i: int|
            Event { timing: bga[i].timing, event_type: EventType::ChangeBga(Some(bga[i].texture_id)) },
    )
}

/// The latest time among the first `n` frames; zero where there is none.
pub open spec fn last_frame_time(bga: Seq<Image>, n: int) -> Time
    decreases n,
{
    if n <= 0 {
        0
    } else if last_frame_time(bga, n - 1) < bga[n - 1].timing {
        bga[n - 1].timing
    } else {
        last_frame_time(bga, n - 1)
    }
}

/// The events that change the tempo.
pub open spec fn tempo_events(bpms: Seq<BpmChange>) -> Seq<Event> {
    Seq::new(
        bpms.len(),
        |i: int| Event { timing: bpms[i].timing, event_type: EventType::ChangeBpm(bpms[i].bpm) },
    )
}

/// The event that clears the background, a while after the last frame.
pub open spec fn clear_event(bga: Seq<Image>) -> Event {
    Event {
        timing: (last_frame_time(bga, bga.len() as int) + BGA_CLEAR_DELAY) as u64,
        event_type: EventType::ChangeBga(None),
    }
}

/// All that a chart schedules, in the order in which it is collected: the
/// background samples, the frames of the background animation, the
/// clearing of the background, and the tempo changes.
pub open spec fn scheduled(chart: ChartView) -> Seq<Event> {
    sound_events(chart.sounds, chart.sounds.len() as int) + image_events(chart.bga).push(
        clear_event(chart.bga),
    ) + tempo_events(chart.bpms)
}

/// The event that ends the music, a while after the last of `events`,
/// which come in ascending order of time.
pub open spec fn end_event(events: Seq<Event>) -> Event {
    Event {
        timing: (if events.len() > 0 {
            events.last().timing + END_DELAY
        } else {
            END_DELAY as int
        }) as u64,
        event_type: EventType::EndMusic,
    }
}

/// The queue of a chart: all that it schedules in ascending order of time,
/// events of one time in the order in which they were collected, and then
/// the end of the music.
pub open spec fn event_queue(chart: ChartView) -> Seq<Event> {
    let sorted = stable_sorted(scheduled(chart));
    sorted.push(end_event(sorted))
}

/// No event of the sequence ends the music.
pub open spec fn no_end(events: Seq<Event>) -> bool {
    forall|i: int| 0 <= i < events.len() ==> (#[trigger] events[i]).event_type != EventType::EndMusic
}

/// No event of the sequence comes after `bound`.
pub open spec fn all_by(events: Seq<Event>, bound: int) -> bool {
    forall|i: int| 0 <= i < events.len() ==> (#[trigger] events[i]).timing <= bound
}

proof fn lemma_sound_events(sounds: Seq<Sound>, n: int)
    requires
        0 <= n <= sounds.len(),
        forall|i: int| 0 <= i < sounds.len() ==> (#[trigger] sounds[i]).timing <= TIME_MAX,
    ensures
        no_end(sound_events(sounds, n)),
        all_by(sound_events(sounds, n), TIME_MAX as int),
        sound_events(sounds, n).len() <= n,
    decreases n,
{
    if n > 0 {
        lemma_sound_events(sounds, n - 1);
    }
}

proof fn lemma_last_frame_time(bga: Seq<Image>, n: int)
    requires
        0 <= n <= bga.len(),
        forall|i: int| 0 <= i < bga.len() ==> (#[trigger] bga[i]).timing <= TIME_MAX,
    ensures
        last_frame_time(bga, n) <= TIME_MAX,
        forall|i: int| 0 <= i < n ==> (#[trigger] bga[i]).timing <= last_frame_time(bga, n),
    decreases n,
{
    if n > 0 {
        lemma_last_frame_time(bga, n - 1);
    }
}

/// What a playable chart schedules holds no end of the music and nothing
/// after the last tick of a chart but the clearing of the background.
pub proof fn lemma_scheduled(chart: ChartView)
    requires
        playable(chart),
    ensures
        no_end(scheduled(chart)),
        all_by(scheduled(chart), TIME_MAX + BGA_CLEAR_DELAY),
        scheduled(chart).len() > 0,
{
    lemma_sound_events(chart.sounds, chart.sounds.len() as int);
    lemma_last_frame_time(chart.bga, chart.bga.len() as int);
    let a = sound_events(chart.sounds, chart.sounds.len() as int);
    let b = image_events(chart.bga).push(clear_event(chart.bga));
    let c = tempo_events(chart.bpms);
    let all = scheduled(chart);
    assert(all == a + b + c);
    assert forall|i: int| 0 <= i < all.len() implies (#[trigger] all[i]).event_type
        != EventType::EndMusic && all[i].timing <= TIME_MAX + BGA_CLEAR_DELAY by {
        if i < a.len() {
            assert(all[i] == a[i]);
        } else if i < a.len() + b.len() {
            assert(all[i] == b[i - a.len()]);
            if i - a.len() < chart.bga.len() {
                assert(b[i - a.len()] == image_events(chart.bga)[i - a.len()]);
            }
        } else {
            assert(all[i] == c[i - a.len() - b.len()]);
        }
    }
    assert(b.len() > 0);
}

/// The music ends a fixed while after the latest event that the chart
/// schedules, and nothing else in the queue ends it.
pub proof fn lemma_end_of_music(chart: ChartView)
    requires
        playable(chart),
    ensures
        ({
            let queue = event_queue(chart);
            let all = scheduled(chart);
            &&& queue.len() == all.len() + 1
            &&& queue.last().event_type == EventType::EndMusic
            &&& no_end(queue.drop_last())
            &&& ordered(queue)
            &&& forall|i: int|
                0 <= i < all.len() ==> (#[trigger] all[i]).timing + END_DELAY
                    <= queue.last().timing
            &&& exists|i: int|
                0 <= i < all.len() && (#[trigger] all[i]).timing + END_DELAY
                    == queue.last().timing
        }),
{
    let all = scheduled(chart);
    let sorted = stable_sorted(all);
    let queue = event_queue(chart);
    lemma_scheduled(chart);
    lemma_stable_sorted(all);
    assert(queue.drop_last() == sorted);
    assert forall|i: int| 0 <= i < sorted.len() implies (#[trigger] sorted[i]).event_type
        != EventType::EndMusic && sorted[i].timing <= TIME_MAX + BGA_CLEAR_DELAY by {
        assert(all.contains(sorted[i]));
    }
    let last = sorted.last();
    assert(sorted[sorted.len() - 1] == last);
    assert(all.contains(last));
    let m = choose|m: int| 0 <= m < all.len() && all[m] == last;
    assert(all[m].timing + END_DELAY == queue.last().timing);
    assert forall|i: int| 0 <= i < all.len() implies (#[trigger] all[i]).timing + END_DELAY
        <= queue.last().timing by {
        lemma_member_of_sorted(all, i);
        let k = choose|k: int| 0 <= k < sorted.len() && sorted[k] == all[i];
        assert(sorted[k].ranks_le(sorted[sorted.len() - 1]));
    }
    assert forall|i: int, j: int| 0 <= i <= j < queue.len() implies (#[trigger] queue[i]).ranks_le(
        #[trigger] queue[j],
    ) by {
        if j < sorted.len() {
            assert(sorted[i].ranks_le(sorted[j]));
        } else if i < sorted.len() {
            assert(sorted[i].ranks_le(sorted[sorted.len() - 1]));
        }
    }
}

/// A chart whose lists are in ascending order up to the last tick of a
/// chart can be played.
pub proof fn lemma_ascending_playable(chart: ChartView)
    requires
        chart_ascending(chart, TIME_MAX as int),
    ensures
        playable(chart),
{
}

/// Whether the chart can be played.
pub fn is_playable(bms: &Bms) -> (yes: bool)
    ensures
        yes == playable(bms@),
{
    let mut i: usize = 0;
    while i < bms.bpms.len()
        invariant
            0 <= i <= bms.bpms.len(),
            forall|k: int| 0 <= k < i ==> (#[trigger] bms.bpms@[k]).timing <= TIME_MAX,
            forall|k: int, m: int| 0 <= k <= m < i ==> bms.bpms@[k].timing <= bms.bpms@[m].timing,
        decreases bms.bpms.len() - i,
    {
        if bms.bpms[i].timing > TIME_MAX {
            assert(bms@.bpms[i as int].timing > TIME_MAX);
            return false;
        }
        if i > 0 && bms.bpms[i - 1].timing > bms.bpms[i].timing {
            assert(bms@.bpms[i - 1].timing > bms@.bpms[i as int].timing);
            return false;
        }
        i = i + 1;
    }
    let mut i: usize = 0;
    while i < bms.sounds.len()
        invariant
            0 <= i <= bms.sounds.len(),
            forall|k: int| 0 <= k < i ==> (#[trigger] bms.sounds@[k]).timing <= TIME_MAX,
        decreases bms.sounds.len() - i,
    {
        if bms.sounds[i].timing > TIME_MAX {
            assert(bms@.sounds[i as int].timing > TIME_MAX);
            return false;
        }
        i = i + 1;
    }
    let mut i: usize = 0;
    while i < bms.bars.len()
        invariant
            0 <= i <= bms.bars.len(),
            forall|k: int| 0 <= k < i ==> (#[trigger] bms.bars@[k]) <= TIME_MAX,
        decreases bms.bars.len() - i,
    {
        if bms.bars[i] > TIME_MAX {
            assert(bms@.bars[i as int] > TIME_MAX);
            return false;
        }
        i = i + 1;
    }
    let mut i: usize = 0;
    while i < bms.bga.len()
        invariant
            0 <= i <= bms.bga.len(),
            forall|k: int| 0 <= k < i ==> (#[trigger] bms.bga@[k]).timing <= TIME_MAX,
        decreases bms.bga.len() - i,
    {
        if bms.bga[i].timing > TIME_MAX {
            assert(bms@.bga[i as int].timing > TIME_MAX);
            return false;
        }
        i = i + 1;
    }
    assert(bms@.bpms == bms.bpms@ && bms@.sounds == bms.sounds@ && bms@.bars == bms.bars@
        && bms@.bga == bms.bga@);
    true
}

/// Puts together the queue of a chart.
pub fn build_events(bms: &Bms) -> (events: Vec<Event>)
    requires
        playable(bms@),
    ensures
        events@ == event_queue(bms@),
{
    let mut events: Vec<Event> = Vec::new();
    let mut i: usize = 0;
    while i < bms.sounds.len()
        invariant
            0 <= i <= bms.sounds.len(),
            events@ == sound_events(bms.sounds@, i as int),
        decreases bms.sounds.len() - i,
    {
        let sound = bms.sounds[i];
        if sound.key == Key::BACK_CHORUS {
            events.push(Event { timing: sound.timing, event_type: EventType::PlaySound(sound) });
        }
        i = i + 1;
    }
    let ghost first = events@;
    let mut bga_ends: Time = 0;
    let mut j: usize = 0;
    assert(events@ == first + image_events(bms.bga@).take(0));
    while j < bms.bga.len()
        invariant
            0 <= j <= bms.bga.len(),
            playable(bms@),
            events@ == first + image_events(bms.bga@).take(j as int),
            bga_ends == last_frame_time(bms.bga@, j as int),
        decreases bms.bga.len() - j,
    {
        let image = bms.bga[j];
        events.push(
            Event { timing: image.timing, event_type: EventType::ChangeBga(Some(image.texture_id)) },
        );
        if bga_ends < image.timing {
            bga_ends = image.timing;
        }
        assert(image_events(bms.bga@).take(j + 1) == image_events(bms.bga@).take(j as int).push(
            image_events(bms.bga@)[j as int],
        ));
        j = j + 1;
    }
    proof {
        assert forall|i: int| 0 <= i < bms.bga@.len() implies (#[trigger] bms.bga@[i]).timing
            <= TIME_MAX by {
            assert(bms@.bga[i].timing <= TIME_MAX);
        }
        lemma_last_frame_time(bms.bga@, bms.bga@.len() as int);
        assert(image_events(bms.bga@).take(j as int) == image_events(bms.bga@));
    }
    events.push(
        Event { timing: bga_ends + BGA_CLEAR_DELAY, event_type: EventType::ChangeBga(None) },
    );
    let ghost second = events@;
    let mut k: usize = 0;
    assert(events@ == second + tempo_events(bms.bpms@).take(0));
    while k < bms.bpms.len()
        invariant
            0 <= k <= bms.bpms.len(),
            events@ == second + tempo_events(bms.bpms@).take(k as int),
        decreases bms.bpms.len() - k,
    {
        let change = bms.bpms[k];
        events.push(Event { timing: change.timing, event_type: EventType::ChangeBpm(change.bpm) });
        assert(tempo_events(bms.bpms@).take(k + 1) == tempo_events(bms.bpms@).take(k as int).push(
            tempo_events(bms.bpms@)[k as int],
        ));
        k = k + 1;
    }
    proof {
        assert(tempo_events(bms.bpms@).take(k as int) == tempo_events(bms.bpms@));
        assert(events@ == scheduled(bms@));
        lemma_scheduled(bms@);
        lemma_stable_sorted(events@);
    }
    let mut sorted = stable_sort(&events);
    proof {
        assert(all_by(sorted@, TIME_MAX + BGA_CLEAR_DELAY)) by {
            assert forall|i: int| 0 <= i < sorted@.len() implies (#[trigger] sorted@[i]).timing
                <= TIME_MAX + BGA_CLEAR_DELAY by {
                assert(events@.contains(sorted@[i]));
            }
        }
    }
    let end_timing: Time = END_DELAY + sorted[sorted.len() - 1].timing;
    sorted.push(Event { timing: end_timing, event_type: EventType::EndMusic });
    sorted
}

/// A note or a bar line on its way to the judge line.
#[derive(Debug, Copy, Clone, PartialEq, Eq, Structural)]
pub struct Draw {
    /// The time at which it reaches the judge line.
    pub timing: Time,
    /// The scroll position at that time.
    pub y: u128,
    /// The sample of a note; none for a bar line.
    pub wav_id: Option<SoundX>,
}

impl SortKey for Draw {
    open spec fn sortable(self) -> bool {
        true
    }

    /// `self` reaches the judge line no later than `other`.
    open spec fn ranks_le(self, other: Self) -> bool {
        self.timing <= other.timing
    }

    fn rank_le(&self, other: &Self) -> (le: bool) {
        self.timing <= other.timing
    }

    proof fn lemma_total(a: Self, b: Self) {
    }

    proof fn lemma_transitive(a: Self, b: Self, c: Self) {
    }
}

/// The note of a sound, at the scroll position of its time.
pub open spec fn note_draw(sound: Sound, bpms: Seq<BpmChange>) -> Draw {
    Draw {
        timing: sound.timing,
        y: position(bpms, sound.timing as int) as u128,
        wav_id: Some(sound.wav_id),
    }
}

/// The notes of a lane among the first `n` sounds, in their order.
pub open spec fn lane_draws(sounds: Seq<Sound>, n: int, key: Key, bpms: Seq<BpmChange>) -> Seq<
    Draw,
>
    decreases n,
{
    if n <= 0 {
        Seq::empty()
    } else if sounds[n - 1].key == key {
        lane_draws(sounds, n - 1, key, bpms).push(note_draw(sounds[n - 1], bpms))
    } else {
        lane_draws(sounds, n - 1, key, bpms)
    }
}

/// The bar lines, each at the scroll position of its time.
pub open spec fn bar_draws(bars: Seq<Time>, bpms: Seq<BpmChange>) -> Seq<Draw> {
    Seq::new(
        bars.len(),
        |i: int| Draw { timing: bars[i], y: position(bpms, bars[i] as int) as u128, wav_id: None },
    )
}

/// The notes of a lane of a chart in ascending order of time.
pub open spec fn lane_objects(chart: ChartView, key: Key) -> Seq<Draw> {
    stable_sorted(lane_draws(chart.sounds, chart.sounds.len() as int, key, chart.bpms))
}

/// The bar lines of a chart in ascending order of time.
pub open spec fn bar_objects(chart: ChartView) -> Seq<Draw> {
    stable_sorted(bar_draws(chart.bars, chart.bpms))
}

/// Every note and bar line stands at the scroll position of its time.
pub open spec fn positioned(draws: Seq<Draw>, bpms: Seq<BpmChange>) -> bool {
    forall|i: int|
        0 <= i < draws.len() ==> (#[trigger] draws[i]).y == position(bpms, draws[i].timing as int)
}

/// Collects the notes of a lane in ascending order of time.
pub fn build_lane(bms: &Bms, key: Key) -> (lane: Vec<Draw>)
    requires
        tempo_ascending(bms.bpms@),
    ensures
        lane@ == lane_objects(bms@, key),
        ordered(lane@),
        positioned(lane@, bms.bpms@),
        lane@.len() == lane_draws(bms.sounds@, bms.sounds@.len() as int, key, bms.bpms@).len(),
{
    let mut found: Vec<Draw> = Vec::new();
    let mut i: usize = 0;
    while i < bms.sounds.len()
        invariant
            0 <= i <= bms.sounds.len(),
            tempo_ascending(bms.bpms@),
            found@ == lane_draws(bms.sounds@, i as int, key, bms.bpms@),
            positioned(found@, bms.bpms@),
        decreases bms.sounds.len() - i,
    {
        let sound = bms.sounds[i];
        if sound.key == key {
            let y = calc_position(sound.timing, &bms.bpms);
            found.push(Draw { timing: sound.timing, y, wav_id: Some(sound.wav_id) });
        }
        i = i + 1;
    }
    let lane = stable_sort(&found);
    proof {
        assert forall|i: int| 0 <= i < lane@.len() implies (#[trigger] lane@[i]).y == position(
            bms.bpms@,
            lane@[i].timing as int,
        ) by {
            assert(found@.contains(lane@[i]));
        }
    }
    lane
}

/// Collects the bar lines in ascending order of time.
pub fn build_bars(bms: &Bms) -> (lane: Vec<Draw>)
    requires
        tempo_ascending(bms.bpms@),
    ensures
        lane@ == bar_objects(bms@),
        ordered(lane@),
        positioned(lane@, bms.bpms@),
{
    let mut found: Vec<Draw> = Vec::new();
    let mut i: usize = 0;
    assert(found@ == bar_draws(bms.bars@, bms.bpms@).take(0));
    while i < bms.bars.len()
        invariant
            0 <= i <= bms.bars.len(),
            tempo_ascending(bms.bpms@),
            found@ == bar_draws(bms.bars@, bms.bpms@).take(i as int),
            positioned(found@, bms.bpms@),
        decreases bms.bars.len() - i,
    {
        let bar = bms.bars[i];
        let y = calc_position(bar, &bms.bpms);
        found.push(Draw { timing: bar, y, wav_id: None });
        assert(bar_draws(bms.bars@, bms.bpms@).take(i + 1) == bar_draws(
            bms.bars@,
            bms.bpms@,
        ).take(i as int).push(bar_draws(bms.bars@, bms.bpms@)[i as int]));
        i = i + 1;
    }
    assert(bar_draws(bms.bars@, bms.bpms@).take(i as int) == bar_draws(bms.bars@, bms.bpms@));
    let lane = stable_sort(&found);
    proof {
        assert forall|i: int| 0 <= i < lane@.len() implies (#[trigger] lane@[i]).y == position(
            bms.bpms@,
            lane@[i].timing as int,
        ) by {
            assert(found@.contains(lane@[i]));
        }
    }
    lane
}

/// Whether the engine still plays.
#[derive(Debug, Copy, Clone, PartialEq, Eq, Structural)]
pub enum GameState {
    PLAY,
    STOP,
}

/// Number of lanes that hold notes.
pub const NOTE_LANES: usize = 8;

/// The lane that holds the bar lines.
pub const BAR_LANE: usize = 8;

/// Number of lanes that scroll: those of the notes and that of the bar lines.
pub const SCROLL_LANES: usize = 9;

/// The key of a lane of notes.
pub open spec fn lane_key(lane: int) -> Key {
    if lane == 0 {
        Key::P1_SCRATCH
    } else if lane == 1 {
        Key::P1_KEY1
    } else if lane == 2 {
        Key::P1_KEY2
    } else if lane == 3 {
        Key::P1_KEY3
    } else if lane == 4 {
        Key::P1_KEY4
    } else if lane == 5 {
        Key::P1_KEY5
    } else if lane == 6 {
        Key::P1_KEY6
    } else {
        Key::P1_KEY7
    }
}

/// The notes and bar lines of a lane of a chart in ascending order of time.
pub open spec fn scroll_lane(chart: ChartView, lane: int) -> Seq<Draw> {
    if lane == BAR_LANE {
        bar_objects(chart)
    } else {
        lane_objects(chart, lane_key(lane))
    }
}

/// The state of the engine.
pub struct PlayerView {
    /// The tempo in effect.
    pub bpm: u32,
    /// For each lane, how many of its notes or bar lines have scrolled past.
    pub obj_index: Seq<usize>,
    /// For each lane, how many of its notes have been judged or missed.
    pub judge_index: Seq<usize>,
    /// For each lane its notes or bar lines in ascending order of time.
    pub objects: Seq<Seq<Draw>>,
    /// How many events of the queue have been delivered.
    pub event_index: int,
    pub events: Seq<Event>,
    /// For each lane of notes, whether its key is down.
    pub held: Seq<bool>,
    pub judge_display: JudgeDisplay,
    /// The scroll position at the time of the last scroll.
    pub y_offset: u128,
    pub bpms: Seq<BpmChange>,
    /// What the clock showed when it was first read.
    pub init_time: Option<u64>,
    /// The texture that the background shows.
    pub bga_id: Option<i32>,
    pub judgerank: JudgeRank,
    pub state: GameState,
}

/// The sum of the judge cursors of the lanes of notes.
pub open spec fn judged_total(index: Seq<usize>) -> int {
    index[0] + index[1] + index[2] + index[3] + index[4] + index[5] + index[6] + index[7]
}

/// The number of notes in all lanes.
pub open spec fn notes_total(objects: Seq<Seq<Draw>>) -> nat {
    objects[0].len() + objects[1].len() + objects[2].len() + objects[3].len() + objects[4].len()
        + objects[5].len() + objects[6].len() + objects[7].len()
}

impl PlayerView {
    /// What holds of the engine at all times.
    pub open spec fn wf(self) -> bool {
        &&& self.objects.len() == SCROLL_LANES
        &&& self.obj_index.len() == SCROLL_LANES
        &&& self.judge_index.len() == SCROLL_LANES
        &&& self.held.len() == NOTE_LANES
        &&& forall|lane: int|
            0 <= lane < SCROLL_LANES ==> (#[trigger] self.obj_index[lane])
                <= self.objects[lane].len()
        &&& forall|lane: int|
            0 <= lane < SCROLL_LANES ==> (#[trigger] self.judge_index[lane])
                <= self.objects[lane].len()
        &&& forall|lane: int|
            0 <= lane < SCROLL_LANES ==> ordered(#[trigger] self.objects[lane]) && positioned(
                self.objects[lane],
                self.bpms,
            )
        &&& forall|lane: int|
            0 <= lane < SCROLL_LANES ==> (#[trigger] self.objects[lane]).len() <= usize::MAX
        &&& notes_total(self.objects) <= usize::MAX
        &&& self.judge_display.wf()
        &&& self.judge_display.count.total() <= judged_total(self.judge_index)
        &&& self.judgerank == iidx_judgerank_spec()
        &&& tempo_ascending(self.bpms)
        &&& ordered(self.events)
        &&& self.events.len() > 0
        &&& self.events.last().event_type == EventType::EndMusic
        &&& no_end(self.events.drop_last())
        &&& 0 <= self.event_index <= self.events.len()
        &&& (self.event_index == self.events.len() ==> self.state == GameState::STOP)
    }
}

/// The engine that plays a chart: it scrolls the notes, judges key presses
/// and delivers the events of the queue as they come due.
pub struct BmsPlayer {
    bpm: u32,
    obj_index_by_key: Vec<usize>,
    event_index: usize,
    objects_by_key: Vec<Vec<Draw>>,
    events: Vec<Event>,
    judge_index_by_key: Vec<usize>,
    pushed_key_set: Vec<bool>,
    judge_display: JudgeDisplay,
    y_offset: u128,
    bpms: Vec<BpmChange>,
    init_time: Option<u64>,
    bga_id: Option<i32>,
    judgerank: JudgeRank,
    state: GameState,
}

impl View for BmsPlayer {
    type V = PlayerView;

    closed spec fn view(&self) -> PlayerView {
        PlayerView {
            bpm: self.bpm,
            obj_index: self.obj_index_by_key@,
            judge_index: self.judge_index_by_key@,
            objects: Seq::new(
                self.objects_by_key@.len(),
                |lane: int| self.objects_by_key@[lane]@,
            ),
            event_index: self.event_index as int,
            events: self.events@,
            held: self.pushed_key_set@,
            judge_display: self.judge_display,
            y_offset: self.y_offset,
            bpms: self.bpms@,
            init_time: self.init_time,
            bga_id: self.bga_id,
            judgerank: self.judgerank,
            state: self.state,
        }
    }
}

/// The engine after the next event of the queue was delivered: a tempo
/// change sets the tempo, a change of the background sets its texture,
/// the end of the music stops the engine, and a sample changes nothing but
/// is handed out to be played.
pub open spec fn event_delivered(v: PlayerView, e: Event) -> PlayerView {
    let next = PlayerView { event_index: v.event_index + 1, ..v };
    match e.event_type {
        EventType::ChangeBpm(bpm) => PlayerView { bpm, ..next },
        EventType::PlaySound(_) => next,
        EventType::ChangeBga(id) => PlayerView { bga_id: id, ..next },
        EventType::EndMusic => PlayerView { state: GameState::STOP, ..next },
    }
}

/// The first position at or after `from` whose event is not yet due at
/// `now`: the end of the queue where all are due.
pub open spec fn due_end(events: Seq<Event>, from: int, now: Time) -> int
    decreases events.len() - from,
{
    if 0 <= from < events.len() && events[from].timing <= now {
        due_end(events, from + 1, now)
    } else {
        from
    }
}

/// The engine after the events before position `to` were delivered, one
/// after the other.
pub open spec fn delivered_upto(v: PlayerView, to: int) -> PlayerView
    decreases to - v.event_index,
{
    if to <= v.event_index {
        v
    } else {
        event_delivered(delivered_upto(v, to - 1), v.events[to - 1])
    }
}

/// The samples of the events from position `from` up to `to`, in their order.
pub open spec fn samples_fired(events: Seq<Event>, from: int, to: int) -> Seq<SoundX>
    decreases to - from,
{
    if to <= from {
        Seq::empty()
    } else {
        match events[to - 1].event_type {
            EventType::PlaySound(sound) => samples_fired(events, from, to - 1).push(sound.wav_id),
            _ => samples_fired(events, from, to - 1),
        }
    }
}

/// The first event that is not yet due lies at or after the start, and
/// all events before it are due.
pub proof fn lemma_due_end(events: Seq<Event>, from: int, now: Time)
    requires
        0 <= from <= events.len(),
    ensures
        from <= due_end(events, from, now) <= events.len(),
        forall|i: int| from <= i < due_end(events, from, now) ==> (#[trigger] events[i]).timing <= now,
        due_end(events, from, now) < events.len() ==> events[due_end(events, from, now)].timing
            > now,
    decreases events.len() - from,
{
    if from < events.len() && events[from].timing <= now {
        lemma_due_end(events, from + 1, now);
    }
}

/// How long after its time a note can still be judged: a tenth of a second.
pub const MISS_WINDOW: Time = 100_000;

/// At `now` the note can no longer be judged.
pub open spec fn missed(draw: Draw, now: Time) -> bool {
    now > draw.timing + MISS_WINDOW
}

/// The first position at or after `from` whose note is not missed at
/// `now`: the end of the lane where all are missed.
pub open spec fn missed_end(objects: Seq<Draw>, from: int, now: Time) -> int
    decreases objects.len() - from,
{
    if 0 <= from < objects.len() && missed(objects[from], now) {
        missed_end(objects, from + 1, now)
    } else {
        from
    }
}

/// The time between two instants.
pub open spec fn distance(a: Time, b: Time) -> Time {
    if a <= b {
        (b - a) as u64
    } else {
        (a - b) as u64
    }
}

/// The grade that a press of the key of a lane earns at `now`: that of
/// the first note of the lane that is neither consumed nor missed, if its
/// distance from `now` earns one.
pub open spec fn grade_at(v: PlayerView, lane: int, now: Time) -> Option<Judge> {
    let k = missed_end(v.objects[lane], v.judge_index[lane] as int, now);
    if k < v.objects[lane].len() {
        v.judgerank.judge_of(distance(v.objects[lane][k].timing, now))
    } else {
        None
    }
}

/// The display after the grade `judge`, given at time `t`.
pub open spec fn display_after(d: JudgeDisplay, judge: Judge, t: Time) -> JudgeDisplay {
    JudgeDisplay {
        judge: Some(judge),
        show_until: (t + JUDGE_DISPLAY_TIME) as u128,
        count: d.count.plus_one(judge),
        combo: d.combo_after(judge) as u64,
    }
}

/// The press of `key` at `now` is one that the engine judges: the key
/// belongs to a lane of notes and was not down.
pub open spec fn press_counts(v: PlayerView, key: Key) -> bool {
    key.is_visible() && !v.held[key.code_spec() as int]
}

/// The engine after `key` went down at `now`. A key that is down already,
/// or that belongs to no lane of notes, changes nothing. Else the key is
/// down from now on, the notes of its lane that are missed are consumed
/// without a grade, and the first note that is not missed is judged: if its
/// distance from `now` earns a grade, the display takes the grade in and
/// the note is consumed too.
pub open spec fn key_pressed(v: PlayerView, key: Key, now: Time) -> PlayerView {
    if !press_counts(v, key) {
        v
    } else {
        let lane = key.code_spec() as int;
        let held = v.held.update(lane, true);
        let k = missed_end(v.objects[lane], v.judge_index[lane] as int, now);
        match grade_at(v, lane, now) {
            Some(judge) => PlayerView {
                held,
                judge_index: v.judge_index.update(lane, (k + 1) as usize),
                judge_display: display_after(v.judge_display, judge, now),
                ..v
            },
            None => PlayerView { held, judge_index: v.judge_index.update(lane, k as usize), ..v },
        }
    }
}

/// The sample that a press of `key` at `now` plays: that of the note that
/// earns a grade, if there is one.
pub open spec fn sample_played(v: PlayerView, key: Key, now: Time) -> Option<SoundX> {
    if press_counts(v, key) && grade_at(v, key.code_spec() as int, now).is_some() {
        let lane = key.code_spec() as int;
        v.objects[lane][missed_end(v.objects[lane], v.judge_index[lane] as int, now)].wav_id
    } else {
        None
    }
}

/// The engine after a command at `now`: the wish to stop stops it, the
/// key of a lane is pressed, and any other command leaves it as it is,
/// the speed of the scroll being the caller's own.
pub open spec fn commanded(v: PlayerView, command: Command, now: Time) -> PlayerView {
    match command {
        Command::Cancel => PlayerView { state: GameState::STOP, ..v },
        Command::Press(key) => key_pressed(v, key, now),
        _ => v,
    }
}

/// The sample that a command at `now` plays: that of a graded press.
pub open spec fn command_sample(v: PlayerView, command: Command, now: Time) -> Option<SoundX> {
    match command {
        Command::Press(key) => sample_played(v, key, now),
        _ => None,
    }
}

/// The engine after `key` went up: the key is no longer down, and nothing
/// else has changed.
pub open spec fn key_released(v: PlayerView, key: Key) -> PlayerView {
    if key.is_visible() {
        PlayerView { held: v.held.update(key.code_spec() as int, false), ..v }
    } else {
        v
    }
}

/// The first note that is not missed lies at or after the start, and all
/// notes before it are missed.
pub proof fn lemma_missed_end(objects: Seq<Draw>, from: int, now: Time)
    requires
        0 <= from <= objects.len(),
    ensures
        from <= missed_end(objects, from, now) <= objects.len(),
        forall|i: int| from <= i < missed_end(objects, from, now) ==> missed(#[trigger] objects[i], now),
        missed_end(objects, from, now) < objects.len() ==> !missed(
            objects[missed_end(objects, from, now)],
            now,
        ),
    decreases objects.len() - from,
{
    if from < objects.len() && missed(objects[from], now) {
        lemma_missed_end(objects, from + 1, now);
    }
}

/// A note or a bar line that is to be drawn: its lane, and how far its
/// scroll position lies ahead of the judge line.
#[derive(Debug, Copy, Clone, PartialEq, Eq, Structural)]
pub struct DrawInfo {
    pub lane: usize,
    pub ahead: u128,
}

/// The first position at or after `from` whose note has not scrolled
/// past the judge line, which stands at the scroll position `y_offset`:
/// the end of the lane where all have.
pub open spec fn passed_end(objects: Seq<Draw>, from: int, y_offset: u128) -> int
    decreases objects.len() - from,
{
    if 0 <= from < objects.len() && objects[from].y < y_offset {
        passed_end(objects, from + 1, y_offset)
    } else {
        from
    }
}

/// The position behind the first note at or after `from` that lies more
/// than `window` ahead of the judge line: the end of the lane where none does.
pub open spec fn shown_end(objects: Seq<Draw>, from: int, y_offset: u128, window: u128) -> int
    decreases objects.len() - from,
{
    if 0 <= from < objects.len() {
        if objects[from].y - y_offset > window {
            from + 1
        } else {
            shown_end(objects, from + 1, y_offset, window)
        }
    } else {
        from
    }
}

/// Where the scan of a lane starts: behind all that has scrolled past or
/// was judged or missed.
pub open spec fn scan_start(v: PlayerView, lane: int) -> int {
    if v.obj_index[lane] >= v.judge_index[lane] {
        v.obj_index[lane] as int
    } else {
        v.judge_index[lane] as int
    }
}

/// What is drawn of a lane: its notes from `from` up to `to`.
pub open spec fn lane_shown(objects: Seq<Draw>, lane: int, from: int, to: int, y_offset: u128) -> Seq<
    DrawInfo,
> {
    Seq::new(
        (to - from) as nat,
        |i: int| DrawInfo { lane: lane as usize, ahead: (objects[from + i].y - y_offset) as u128 },
    )
}

/// What is drawn of one lane with the judge line at `y_offset`: all that
/// has not scrolled past, up to and with the first note that lies more than
/// `window` ahead.
pub open spec fn lane_drawings(v: PlayerView, lane: int, y_offset: u128, window: u128) -> Seq<
    DrawInfo,
> {
    let from = passed_end(v.objects[lane], scan_start(v, lane), y_offset);
    lane_shown(
        v.objects[lane],
        lane,
        from,
        shown_end(v.objects[lane], from, y_offset, window),
        y_offset,
    )
}

/// What is drawn of the first `n` lanes.
pub open spec fn drawings(v: PlayerView, n: int, y_offset: u128, window: u128) -> Seq<DrawInfo>
    decreases n,
{
    if n <= 0 {
        Seq::empty()
    } else {
        drawings(v, n - 1, y_offset, window) + lane_drawings(v, n - 1, y_offset, window)
    }
}

/// The scroll cursors when the first `done` lanes have been scrolled with
/// the judge line at `y_offset`.
pub open spec fn scroll_cursors(v: PlayerView, done: int, y_offset: u128) -> Seq<usize> {
    Seq::new(
        v.obj_index.len(),
        |lane: int|
            if lane < done {
                passed_end(v.objects[lane], scan_start(v, lane), y_offset) as usize
            } else {
                v.obj_index[lane]
            },
    )
}

/// The engine after a scroll at `now`: the judge line stands at the scroll
/// position of `now`, and in each lane all that lies below it has scrolled
/// past.
pub open spec fn scrolled(v: PlayerView, now: Time) -> PlayerView {
    let y_offset = position(v.bpms, now as int) as u128;
    PlayerView {
        y_offset,
        obj_index: scroll_cursors(v, v.obj_index.len() as int, y_offset),
        ..v
    }
}

/// What has scrolled past lies before what has not, and nothing behind
/// the cursor lies below the judge line.
pub proof fn lemma_passed_end(objects: Seq<Draw>, from: int, y_offset: u128, bpms: Seq<BpmChange>)
    requires
        0 <= from <= objects.len(),
        ordered(objects),
        positioned(objects, bpms),
        tempo_ascending(bpms),
    ensures
        from <= passed_end(objects, from, y_offset) <= objects.len(),
        forall|i: int|
            from <= i < passed_end(objects, from, y_offset) ==> (#[trigger] objects[i]).y < y_offset,
        forall|i: int|
            passed_end(objects, from, y_offset) <= i < objects.len() ==> (#[trigger] objects[i]).y
                >= y_offset,
    decreases objects.len() - from,
{
    if from < objects.len() && objects[from].y < y_offset {
        lemma_passed_end(objects, from + 1, y_offset, bpms);
    } else if from < objects.len() {
        assert forall|i: int| from <= i < objects.len() implies (#[trigger] objects[i]).y
            >= y_offset by {
            assert(objects[from].ranks_le(objects[i]));
            lemma_position_non_decreasing(
                bpms,
                objects[from].timing as int,
                objects[i].timing as int,
            );
        }
    }
}

proof fn lemma_shown_end(objects: Seq<Draw>, from: int, y_offset: u128, window: u128)
    requires
        0 <= from <= objects.len(),
    ensures
        from <= shown_end(objects, from, y_offset, window) <= objects.len(),
    decreases objects.len() - from,
{
    if from < objects.len() && !(objects[from].y - y_offset > window) {
        lemma_shown_end(objects, from + 1, y_offset, window);
    }
}

/// Units of the clock in one tick: the clock counts thousandths of a tick.
pub const CLOCK_UNITS_PER_TICK: u64 = 1000;

/// The latest time that the clock can give.
pub const CLOCK_TIME_MAX: Time = 18_446_744_073_709_551;

/// The time that has passed when the clock shows `clock`, for an engine
/// whose clock showed `init` when it was first read: none at the first reading.
pub open spec fn elapsed(init: Option<u64>, clock: u64) -> Time {
    match init {
        Some(first) => if clock >= first {
            ((clock - first) / CLOCK_UNITS_PER_TICK as int) as u64
        } else {
            0
        },
        None => 0,
    }
}

/// The engine after its clock was read and showed `clock`: it remembers
/// what the clock showed at the first reading.
pub open spec fn clock_read(v: PlayerView, clock: u64) -> PlayerView {
    PlayerView {
        init_time: Some(
            match v.init_time {
                Some(first) => first,
                None => clock,
            },
        ),
        ..v
    }
}

/// `after` and `samples` are what delivering the due events gives when
/// the clock shows `clock`.
pub open spec fn delivered_at_clock(
    before: PlayerView,
    after: PlayerView,
    samples: Seq<SoundX>,
    clock: u64,
) -> bool {
    let read = clock_read(before, clock);
    let end = due_end(read.events, read.event_index, elapsed(before.init_time, clock));
    after == delivered_upto(read, end) && samples == samples_fired(
        read.events,
        read.event_index,
        end,
    )
}

/// `after` and `sample` are what a press of `key` gives when the clock
/// shows `clock`.
pub open spec fn pressed_at_clock(
    before: PlayerView,
    after: PlayerView,
    key: Key,
    sample: Option<SoundX>,
    clock: u64,
) -> bool {
    let read = clock_read(before, clock);
    let now = elapsed(before.init_time, clock);
    after == key_pressed(read, key, now) && sample == sample_played(read, key, now)
}

/// `after` and `shown` are what a scroll gives when the clock shows `clock`.
pub open spec fn scrolled_at_clock(
    before: PlayerView,
    after: PlayerView,
    shown: Seq<DrawInfo>,
    window: u128,
    clock: u64,
) -> bool {
    let read = clock_read(before, clock);
    let now = elapsed(before.init_time, clock);
    after == scrolled(read, now) && shown == drawings(
        read,
        SCROLL_LANES as int,
        position(read.bpms, now as int) as u128,
        window,
    )
}

/// `after` and `now` are what reading the clock gives when it shows `clock`.
pub open spec fn read_at_clock(before: PlayerView, after: PlayerView, now: Time, clock: u64) -> bool {
    after == clock_read(before, clock) && now == elapsed(before.init_time, clock)
}

/// The clock: `time::precise_time_ns`, a counter of billionths of a second
/// from a moment that is not said. Nothing is claimed of what it returns.
#[verifier::external_body]
fn clock_now() -> (clock: u64) {
    time::precise_time_ns()
}

/// When a key goes down, every note of its lane that is missed by then
/// is consumed, and no missed note touches the display: the display stays
/// as it is, or takes in the one grade of a note that is not missed.
pub proof fn lemma_missed_notes_unjudged(v: PlayerView, key: Key, now: Time)
    requires
        v.wf(),
        press_counts(v, key),
    ensures
        ({
            let lane = key.code_spec() as int;
            let notes = v.objects[lane];
            let after = key_pressed(v, key, now);
            let k = missed_end(notes, v.judge_index[lane] as int, now);
            &&& forall|i: int|
                v.judge_index[lane] <= i < notes.len() && missed(#[trigger] notes[i], now) ==> i
                    < after.judge_index[lane]
            &&& match grade_at(v, lane, now) {
                Some(judge) => {
                    &&& !missed(notes[k], now)
                    &&& after.judge_index[lane] == k + 1
                    &&& after.judge_display == display_after(v.judge_display, judge, now)
                },
                None => after.judge_index[lane] == k && after.judge_display == v.judge_display,
            }
        }),
{
    let lane = key.code_spec() as int;
    let notes = v.objects[lane];
    let from = v.judge_index[lane] as int;
    let k = missed_end(notes, from, now);
    assert(v.judge_index[lane] <= v.objects[lane].len());
    assert(v.objects[lane].len() <= usize::MAX);
    lemma_missed_end(notes, from, now);
    assert(ordered(v.objects[lane]));
    assert forall|i: int| from <= i < notes.len() && missed(#[trigger] notes[i], now) implies i
        < k by {
        if k <= i {
            assert(notes[k].ranks_le(notes[i]));
        }
    }
}

/// A key that goes down closer to the next note of its lane than the
/// threshold of the best grade earns the best grade, and the combo grows by
/// one only if the grade before kept a combo alive too.
pub proof fn lemma_best_grade(v: PlayerView, key: Key, now: Time)
    requires
        v.wf(),
        press_counts(v, key),
        v.judge_index[key.code_spec() as int] < v.objects[key.code_spec() as int].len(),
        distance(
            v.objects[key.code_spec() as int][v.judge_index[key.code_spec() as int] as int].timing,
            now,
        ) < v.judgerank.pgreat,
    ensures
        ({
            let lane = key.code_spec() as int;
            let after = key_pressed(v, key, now);
            &&& after.judge_display.judge == Some(Judge::PGREAT)
            &&& after.judge_index[lane] == v.judge_index[lane] + 1
            &&& after.judge_display.count.pgreat == v.judge_display.count.pgreat + 1
            &&& after.judge_display.combo == match v.judge_display.judge {
                Some(prev) => if Judge::combo_lasts_spec(prev) {
                    v.judge_display.combo + 1
                } else {
                    0
                },
                None => 0,
            }
        }),
{
    let lane = key.code_spec() as int;
    let from = v.judge_index[lane] as int;
    assert(!missed(v.objects[lane][from], now));
    assert(v.objects[lane].len() <= usize::MAX);
    assert(v.judge_display.count.total() <= judged_total(v.judge_index));
    assert(judged_total(v.judge_index) < notes_total(v.objects));
}

/// The notes of the lanes among the first `n` sounds are no more than `n`.
proof fn lemma_lanes_within(sounds: Seq<Sound>, n: int, bpms: Seq<BpmChange>)
    requires
        0 <= n <= sounds.len(),
    ensures
        lane_draws(sounds, n, lane_key(0), bpms).len() + lane_draws(
            sounds,
            n,
            lane_key(1),
            bpms,
        ).len() + lane_draws(sounds, n, lane_key(2), bpms).len() + lane_draws(
            sounds,
            n,
            lane_key(3),
            bpms,
        ).len() + lane_draws(sounds, n, lane_key(4), bpms).len() + lane_draws(
            sounds,
            n,
            lane_key(5),
            bpms,
        ).len() + lane_draws(sounds, n, lane_key(6), bpms).len() + lane_draws(
            sounds,
            n,
            lane_key(7),
            bpms,
        ).len() <= n,
    decreases n,
{
    if n > 0 {
        lemma_lanes_within(sounds, n - 1, bpms);
    }
}

/// The key of a lane of notes.
fn key_of_lane(lane: usize) -> (key: Key)
    requires
        lane < NOTE_LANES,
    ensures
        key == lane_key(lane as int),
        key.code_spec() == lane,
{
    if lane == 0 {
        Key::P1_SCRATCH
    } else if lane == 1 {
        Key::P1_KEY1
    } else if lane == 2 {
        Key::P1_KEY2
    } else if lane == 3 {
        Key::P1_KEY3
    } else if lane == 4 {
        Key::P1_KEY4
    } else if lane == 5 {
        Key::P1_KEY5
    } else if lane == 6 {
        Key::P1_KEY6
    } else {
        Key::P1_KEY7
    }
}

impl BmsPlayer {
    /// What holds of the engine at all times.
    pub open spec fn wf(&self) -> bool {
        self@.wf()
    }

    /// An engine at the start of a chart: nothing has scrolled past or was
    /// judged, no key is down, no event was delivered, and the tempo is the
    /// default tempo until the queue sets another.
    pub fn new(bms: Bms) -> (player: BmsPlayer)
        requires
            playable(bms@),
        ensures
            player.wf(),
            player@.bpm == DEFAULT_BPM,
            player@.obj_index == Seq::new(SCROLL_LANES as nat, |lane: int| 0usize),
            player@.judge_index == Seq::new(SCROLL_LANES as nat, |lane: int| 0usize),
            player@.objects == Seq::new(SCROLL_LANES as nat, |lane: int| scroll_lane(bms@, lane)),
            player@.event_index == 0,
            player@.events == event_queue(bms@),
            player@.held == Seq::new(NOTE_LANES as nat, |lane: int| false),
            player@.judge_display.judge.is_none(),
            player@.judge_display.show_until == 0,
            player@.judge_display.combo == 0,
            player@.judge_display.count == (JudgeCount {
                pgreat: 0,
                great: 0,
                good: 0,
                bad: 0,
                poor: 0,
            }),
            player@.y_offset == 0,
            player@.bpms == bms@.bpms,
            player@.init_time.is_none(),
            player@.bga_id.is_none(),
            player@.judgerank == iidx_judgerank_spec(),
            player@.state == GameState::PLAY,
    {
        let mut objects_by_key: Vec<Vec<Draw>> = Vec::new();
        let mut obj_index_by_key: Vec<usize> = Vec::new();
        let mut pushed_key_set: Vec<bool> = Vec::new();
        let mut lane: usize = 0;
        while lane < NOTE_LANES
            invariant
                0 <= lane <= NOTE_LANES,
                tempo_ascending(bms.bpms@),
                objects_by_key@.len() == lane,
                obj_index_by_key@ == Seq::new(lane as nat, |l: int| 0usize),
                pushed_key_set@ == Seq::new(lane as nat, |l: int| false),
                forall|l: int|
                    0 <= l < lane ==> {
                        &&& (#[trigger] objects_by_key@[l])@ == scroll_lane(bms@, l)
                        &&& ordered(objects_by_key@[l]@)
                        &&& positioned(objects_by_key@[l]@, bms.bpms@)
                        &&& objects_by_key@[l]@.len() == lane_draws(
                            bms.sounds@,
                            bms.sounds@.len() as int,
                            lane_key(l),
                            bms.bpms@,
                        ).len()
                    },
            decreases NOTE_LANES - lane,
        {
            let notes = build_lane(&bms, key_of_lane(lane));
            objects_by_key.push(notes);
            obj_index_by_key.push(0);
            pushed_key_set.push(false);
            lane = lane + 1;
        }
        let ghost notes = objects_by_key@;
        let bars = build_bars(&bms);
        objects_by_key.push(bars);
        assert(forall|l: int| 0 <= l < NOTE_LANES ==> objects_by_key@[l] == notes[l]);
        obj_index_by_key.push(0);
        let judge_index_by_key = obj_index_by_key.clone();
        let events = build_events(&bms);
        let ghost sounds = bms.sounds@;
        assert(sounds.len() == bms.sounds.len());
        proof {
            lemma_end_of_music(bms@);
            lemma_lanes_within(bms.sounds@, bms.sounds@.len() as int, bms.bpms@);
        }
        let player = BmsPlayer {
            bpm: DEFAULT_BPM,
            obj_index_by_key,
            event_index: 0,
            objects_by_key,
            events,
            judge_index_by_key,
            pushed_key_set,
            judge_display: JudgeDisplay::new(),
            y_offset: 0,
            bpms: bms.bpms,
            init_time: None,
            bga_id: None,
            judgerank: iidx_judgerank(),
            state: GameState::PLAY,
        };
        proof {
            assert(player@.objects =~= Seq::new(
                SCROLL_LANES as nat,
                |lane: int| scroll_lane(bms@, lane),
            ));
            assert(player@.events.drop_last() == event_queue(bms@).drop_last());
            let v = player@;
            assert forall|lane: int| 0 <= lane < SCROLL_LANES implies ordered(
                #[trigger] v.objects[lane],
            ) && positioned(v.objects[lane], v.bpms) && v.objects[lane].len() <= usize::MAX by {
                assert(v.objects[lane] == player.objects_by_key@[lane]@);
                assert(player.objects_by_key@[lane]@.len() == player.objects_by_key@[lane].len());
            }
            assert(v.objects[0].len() == player.objects_by_key@[0]@.len());
            assert(v.objects[1].len() == player.objects_by_key@[1]@.len());
            assert(v.objects[2].len() == player.objects_by_key@[2]@.len());
            assert(v.objects[3].len() == player.objects_by_key@[3]@.len());
            assert(v.objects[4].len() == player.objects_by_key@[4]@.len());
            assert(v.objects[5].len() == player.objects_by_key@[5]@.len());
            assert(v.objects[6].len() == player.objects_by_key@[6]@.len());
            assert(v.objects[7].len() == player.objects_by_key@[7]@.len());
            assert(forall|l: int|
                0 <= l < NOTE_LANES ==> (#[trigger] notes[l])@.len() == lane_draws(
                    bms.sounds@,
                    bms.sounds@.len() as int,
                    lane_key(l),
                    bms.bpms@,
                ).len());
            assert(notes[0]@.len() + notes[1]@.len() + notes[2]@.len() + notes[3]@.len()
                + notes[4]@.len() + notes[5]@.len() + notes[6]@.len() + notes[7]@.len()
                <= bms.sounds@.len());
            assert(forall|l: int|
                0 <= l < NOTE_LANES ==> (#[trigger] player.objects_by_key@[l]) == notes[l]);
            assert(notes_total(v.objects) == notes[0]@.len() + notes[1]@.len() + notes[2]@.len()
                + notes[3]@.len() + notes[4]@.len() + notes[5]@.len() + notes[6]@.len()
                + notes[7]@.len());
            assert(sounds.len() <= usize::MAX);
            assert(notes_total(v.objects) <= usize::MAX);
            assert(judged_total(v.judge_index) == 0);
            assert(v.judge_display.wf());
            assert(ordered(v.events));
            assert(v.events.last().event_type == EventType::EndMusic);
            assert(no_end(v.events.drop_last()));
            assert(v.wf());
        }
        player
    }

    /// Delivers the events that are due at `now`, in the order of the
    /// queue and each only once, and returns the samples that are to be
    /// played. The engine stops when the end of the music is delivered, and
    /// only then.
    pub fn process_event_at(&mut self, now: Time) -> (samples: Vec<SoundX>)
        requires
            old(self).wf(),
        ensures
            final(self).wf(),
            final(self)@ == delivered_upto(
                old(self)@,
                due_end(old(self)@.events, old(self)@.event_index, now),
            ),
            samples@ == samples_fired(
                old(self)@.events,
                old(self)@.event_index,
                due_end(old(self)@.events, old(self)@.event_index, now),
            ),
            final(self)@.event_index == due_end(old(self)@.events, old(self)@.event_index, now),
            old(self)@.event_index <= final(self)@.event_index,
            final(self)@.state == GameState::STOP <==> old(self)@.state == GameState::STOP
                || old(self)@.events.last().timing <= now,
    {
        let mut samples: Vec<SoundX> = Vec::new();
        let ghost start = self@;
        proof {
            lemma_due_end(start.events, start.event_index, now);
        }
        while self.event_index < self.events.len() && self.events[self.event_index].timing <= now
            invariant
                start.wf(),
                self@.wf(),
                start.event_index <= self.event_index <= self.events@.len(),
                self@ == delivered_upto(start, self.event_index as int),
                self@.events == start.events,
                due_end(start.events, start.event_index, now) == due_end(
                    start.events,
                    self.event_index as int,
                    now,
                ),
                samples@ == samples_fired(start.events, start.event_index, self.event_index as int),
                self@.state == GameState::STOP <==> start.state == GameState::STOP
                    || self.event_index == self.events@.len(),
            decreases self.events@.len() - self.event_index,
        {
            let event = self.events[self.event_index];
            proof {
                if self.event_index < self.events@.len() - 1 {
                    assert(self.events@.drop_last()[self.event_index as int].event_type
                        != EventType::EndMusic);
                } else {
                    assert(self.events@.last() == event);
                }
            }
            self.event_index = self.event_index + 1;
            match event.event_type {
                EventType::ChangeBpm(bpm) => {
                    self.bpm = bpm;
                },
                EventType::PlaySound(sound) => {
                    samples.push(sound.wav_id);
                },
                EventType::ChangeBga(id) => {
                    self.bga_id = id;
                },
                EventType::EndMusic => {
                    self.state = GameState::STOP;
                },
            }
        }
        proof {
            let end = self.event_index as int;
            if end < start.events.len() {
                assert(start.events[end].timing > now);
                assert(start.events[end].ranks_le(start.events[start.events.len() - 1]));
            } else if start.event_index < start.events.len() {
                assert(start.events[end - 1].timing <= now);
            }
        }
        samples
    }

    /// Takes in that `key` went down at `now`, and returns the sample that
    /// is to be played, if any.
    pub fn on_key_down_at(&mut self, key: Key, now: Time) -> (sample: Option<SoundX>)
        requires
            old(self).wf(),
        ensures
            final(self).wf(),
            final(self)@ == key_pressed(old(self)@, key, now),
            sample == sample_played(old(self)@, key, now),
            forall|lane: int|
                0 <= lane < SCROLL_LANES ==> old(self)@.judge_index[lane] <= (
                #[trigger] final(self)@.judge_index[lane]),
    {
        let code = key.code();
        if code >= 8 {
            return None;
        }
        let lane: usize = code as usize;
        if self.pushed_key_set[lane] {
            return None;
        }
        let ghost start = self@;
        let ghost notes = start.objects[lane as int];
        proof {
            lemma_missed_end(notes, start.judge_index[lane as int] as int, now);
        }
        self.pushed_key_set.set(lane, true);
        let mut index: usize = self.judge_index_by_key[lane];
        let objects = &self.objects_by_key[lane];
        assert(objects@ == notes);
        while index < objects.len() && now > objects[index].timing && now - objects[index].timing
            > MISS_WINDOW
            invariant
                start.judge_index[lane as int] <= index <= objects@.len(),
                objects@ == notes,
                missed_end(notes, start.judge_index[lane as int] as int, now) == missed_end(
                    notes,
                    index as int,
                    now,
                ),
            decreases objects@.len() - index,
        {
            index = index + 1;
        }
        let mut sample: Option<SoundX> = None;
        if index < objects.len() {
            let draw = objects[index];
            let d: Time = if draw.timing <= now {
                now - draw.timing
            } else {
                draw.timing - now
            };
            if let Some(judge) = self.judgerank.get_judge(d) {
                assert(judged_total(start.judge_index) < notes_total(start.objects)) by {
                    assert(start.judge_index[lane as int] < start.objects[lane as int].len());
                }
                self.judge_display.update_judge(judge, now);
                index = index + 1;
                sample = draw.wav_id;
            }
        }
        self.judge_index_by_key.set(lane, index);
        proof {
            let v = self@;
            assert(v.objects == start.objects);
            assert(v.held == start.held.update(lane as int, true));
            assert(v.judge_index == start.judge_index.update(lane as int, index));
            assert forall|l: int| 0 <= l < SCROLL_LANES implies (#[trigger] v.judge_index[l])
                <= v.objects[l].len() by {
                assert(start.judge_index[l] <= start.objects[l].len());
            }
            assert(judged_total(v.judge_index) - judged_total(start.judge_index) == index
                - start.judge_index[lane as int]);
            assert(v == key_pressed(start, key, now));
        }
        sample
    }

    /// Scrolls to `now` and returns what is to be drawn, lane by lane: in
    /// each lane all that has neither scrolled past the judge line nor was
    /// judged or missed, up to and with the first note that lies more than
    /// `window` ahead of the judge line. What has scrolled past is never
    /// looked at again.
    pub fn scroll_at(&mut self, now: Time, window: u128) -> (shown: Vec<DrawInfo>)
        requires
            old(self).wf(),
        ensures
            final(self).wf(),
            final(self)@ == scrolled(old(self)@, now),
            shown@ == drawings(
                old(self)@,
                SCROLL_LANES as int,
                position(old(self)@.bpms, now as int) as u128,
                window,
            ),
            forall|lane: int|
                0 <= lane < SCROLL_LANES ==> old(self)@.obj_index[lane] <= (
                #[trigger] final(self)@.obj_index[lane]),
    {
        let ghost start = self@;
        let y_offset = calc_position(now, &self.bpms);
        self.y_offset = y_offset;
        let mut shown: Vec<DrawInfo> = Vec::new();
        let mut lane: usize = 0;
        proof {
            assert(self@.objects == start.objects);
            assert(self@.obj_index =~= scroll_cursors(start, 0, y_offset));
        }
        while lane < SCROLL_LANES
            invariant
                0 <= lane <= SCROLL_LANES,
                start.wf(),
                y_offset == position(start.bpms, now as int),
                self@ == (PlayerView {
                    y_offset,
                    obj_index: scroll_cursors(start, lane as int, y_offset),
                    ..start
                }),
                self.objects_by_key@.len() == SCROLL_LANES,
                self.obj_index_by_key@.len() == SCROLL_LANES,
                self.judge_index_by_key@.len() == SCROLL_LANES,
                shown@ == drawings(start, lane as int, y_offset, window),
            decreases SCROLL_LANES - lane,
        {
            let ghost notes = start.objects[lane as int];
            let objects = &self.objects_by_key[lane];
            assert(objects@ == notes);
            let seen: usize = self.obj_index_by_key[lane];
            let judged: usize = self.judge_index_by_key[lane];
            assert(seen == start.obj_index[lane as int]);
            assert(judged == start.judge_index[lane as int]);
            let from: usize = if seen >= judged {
                seen
            } else {
                judged
            };
            proof {
                lemma_passed_end(notes, from as int, y_offset, start.bpms);
            }
            let mut next: usize = from;
            while next < objects.len() && objects[next].y < y_offset
                invariant
                    from <= next <= objects@.len(),
                    objects@ == notes,
                    passed_end(notes, from as int, y_offset) == passed_end(
                        notes,
                        next as int,
                        y_offset,
                    ),
                decreases objects@.len() - next,
            {
                next = next + 1;
            }
            let mut i: usize = next;
            let mut beyond: bool = false;
            let ghost before = shown@;
            proof {
                lemma_shown_end(notes, next as int, y_offset, window);
                assert(before + lane_shown(notes, lane as int, next as int, next as int, y_offset)
                    == before);
            }
            while i < objects.len() && !beyond
                invariant
                    next <= i <= objects@.len(),
                    objects@ == notes,
                    next == passed_end(notes, from as int, y_offset),
                    forall|k: int| next <= k < notes.len() ==> (#[trigger] notes[k]).y >= y_offset,
                    shown@ == before + lane_shown(notes, lane as int, next as int, i as int, y_offset),
                    beyond ==> shown_end(notes, next as int, y_offset, window) == i,
                    !beyond ==> shown_end(notes, next as int, y_offset, window) == shown_end(
                        notes,
                        i as int,
                        y_offset,
                        window,
                    ),
                decreases objects@.len() - i + (if beyond { 0int } else { 1int }),
            {
                let draw = objects[i];
                assert(notes[i as int].y >= y_offset);
                let ahead: u128 = draw.y - y_offset;
                let ghost so_far = lane_shown(notes, lane as int, next as int, i as int, y_offset);
                shown.push(DrawInfo { lane, ahead });
                assert(lane_shown(notes, lane as int, next as int, i + 1, y_offset) == so_far.push(
                    DrawInfo { lane, ahead },
                ));
                if ahead > window {
                    beyond = true;
                }
                i = i + 1;
            }
            let ghost previous = self@;
            self.obj_index_by_key.set(lane, next);
            proof {
                assert(self@.objects == previous.objects);
                assert(self@.obj_index =~= scroll_cursors(start, lane + 1, y_offset));
            }
            lane = lane + 1;
        }
        proof {
            let v = self@;
            assert(v.obj_index == scrolled(start, now).obj_index);
            assert forall|l: int| 0 <= l < SCROLL_LANES implies (#[trigger] v.obj_index[l])
                <= v.objects[l].len() && start.obj_index[l] <= v.obj_index[l] by {
                assert(start.obj_index[l] <= start.objects[l].len());
                assert(start.judge_index[l] <= start.objects[l].len());
                assert(ordered(start.objects[l]) && positioned(start.objects[l], start.bpms));
                assert(start.objects[l].len() <= usize::MAX);
                lemma_passed_end(start.objects[l], scan_start(start, l), y_offset, start.bpms);
                assert(v.obj_index[l] == passed_end(
                    start.objects[l],
                    scan_start(start, l),
                    y_offset,
                ) as usize);
            }
        }
        shown
    }

    /// The time that has passed since the clock was first read, given what
    /// the clock shows now.
    pub fn time_at(&mut self, clock: u64) -> (now: Time)
        requires
            old(self).wf(),
        ensures
            final(self).wf(),
            final(self)@ == clock_read(old(self)@, clock),
            now == elapsed(old(self)@.init_time, clock),
            now <= CLOCK_TIME_MAX,
    {
        let ghost start = self@;
        let now: Time = match self.init_time {
            Some(first) => if clock >= first {
                (clock - first) / CLOCK_UNITS_PER_TICK
            } else {
                0
            },
            None => {
                self.init_time = Some(clock);
                0
            },
        };
        proof {
            assert(self@.objects == start.objects);
            assert(self@ == clock_read(start, clock));
        }
        now
    }

    /// The time that has passed since the clock was first read: none at
    /// the first reading.
    pub fn get_precise_time(&mut self) -> (now: Time)
        requires
            old(self).wf(),
        ensures
            final(self).wf(),
            exists|clock: u64| read_at_clock(old(self)@, final(self)@, now, clock),
            now <= CLOCK_TIME_MAX,
    {
        let ghost start = self@;
        let clock = clock_now();
        let now = self.time_at(clock);
        assert(read_at_clock(start, self@, now, clock));
        now
    }

    /// Delivers the events that are due by the clock, and returns the
    /// samples that are to be played.
    pub fn process_event(&mut self) -> (samples: Vec<SoundX>)
        requires
            old(self).wf(),
        ensures
            final(self).wf(),
            exists|clock: u64| delivered_at_clock(old(self)@, final(self)@, samples@, clock),
    {
        let ghost start = self@;
        let clock = clock_now();
        let pt = self.time_at(clock);
        let samples = self.process_event_at(pt);
        assert(delivered_at_clock(start, self@, samples@, clock));
        samples
    }

    /// Takes in that `key` went down at the time that the clock shows, and
    /// returns the sample that is to be played, if any.
    pub fn on_key_down(&mut self, key: Key) -> (sample: Option<SoundX>)
        requires
            old(self).wf(),
        ensures
            final(self).wf(),
            exists|clock: u64| pressed_at_clock(old(self)@, final(self)@, key, sample, clock),
    {
        let ghost start = self@;
        let clock = clock_now();
        let pt = self.time_at(clock);
        let sample = self.on_key_down_at(key, pt);
        assert(pressed_at_clock(start, self@, key, sample, clock));
        sample
    }

    /// Scrolls to the time that the clock shows, and returns what is to be
    /// drawn.
    pub fn scroll(&mut self, window: u128) -> (shown: Vec<DrawInfo>)
        requires
            old(self).wf(),
        ensures
            final(self).wf(),
            exists|clock: u64| scrolled_at_clock(old(self)@, final(self)@, shown@, window, clock),
    {
        let ghost start = self@;
        let clock = clock_now();
        let pt = self.time_at(clock);
        let shown = self.scroll_at(pt, window);
        assert(scrolled_at_clock(start, self@, shown@, window, clock));
        shown
    }

    /// Keeps the tempo from falling below one beat per minute.
    pub fn update(&mut self)
        requires
            old(self).wf(),
        ensures
            final(self).wf(),
            final(self)@ == (PlayerView {
                bpm: if old(self)@.bpm < BPM_SCALE {
                    BPM_SCALE
                } else {
                    old(self)@.bpm
                },
                ..old(self)@
            }),
    {
        let ghost start = self@;
        if self.bpm < BPM_SCALE {
            self.bpm = BPM_SCALE;
        }
        proof {
            assert(self@.objects == start.objects);
        }
    }

    /// The state of play.
    pub fn state(&self) -> (state: GameState)
        ensures
            state == self@.state,
    {
        self.state
    }

    /// The tempo in effect.
    pub fn bpm(&self) -> (bpm: u32)
        ensures
            bpm == self@.bpm,
    {
        self.bpm
    }

    /// The texture that the background shows.
    pub fn bga_id(&self) -> (id: Option<i32>)
        ensures
            id == self@.bga_id,
    {
        self.bga_id
    }

    /// The last grade, the counts and the combo.
    pub fn judge_display(&self) -> (display: &JudgeDisplay)
        ensures
            *display == self@.judge_display,
    {
        &self.judge_display
    }

    /// Whether the key of a lane of notes is down.
    pub fn is_pushed(&self, key: Key) -> (down: bool)
        requires
            self.wf(),
        ensures
            down == (key.is_visible() && self@.held[key.code_spec() as int]),
    {
        let code = key.code();
        if code < 8 {
            self.pushed_key_set[code as usize]
        } else {
            false
        }
    }

    /// How many notes of the lane of `key` have been judged or missed.
    pub fn judge_index(&self, key: Key) -> (index: usize)
        requires
            self.wf(),
            key.is_visible(),
        ensures
            index == self@.judge_index[key.code_spec() as int],
    {
        self.judge_index_by_key[key.code() as usize]
    }

    /// Takes in a command given at `now`, and returns the sample that is
    /// to be played, if any.
    pub fn on_command_at(&mut self, command: Command, now: Time) -> (sample: Option<SoundX>)
        requires
            old(self).wf(),
        ensures
            final(self).wf(),
            final(self)@ == commanded(old(self)@, command, now),
            sample == command_sample(old(self)@, command, now),
    {
        match command {
            Command::Cancel => {
                self.cancel();
                None
            },
            Command::Press(key) => self.on_key_down_at(key, now),
            _ => None,
        }
    }

    /// Takes in that `key` went up.
    pub fn on_key_up(&mut self, key: Key)
        requires
            old(self).wf(),
        ensures
            final(self).wf(),
            final(self)@ == key_released(old(self)@, key),
    {
        let code = key.code();
        if code < 8 {
            let ghost start = self@;
            self.pushed_key_set.set(code as usize, false);
            proof {
                assert(self@.objects == start.objects);
                assert(self@ == key_released(start, key));
            }
        }
    }

    /// Stops the engine at the player's wish.
    pub fn cancel(&mut self)
        requires
            old(self).wf(),
        ensures
            final(self).wf(),
            final(self)@ == (PlayerView { state: GameState::STOP, ..old(self)@ }),
    {
        self.state = GameState::STOP;
    }
}

} // verus!
