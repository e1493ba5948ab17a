use std::collections::HashMap;
use vstd::prelude::*;
use crate::bms_loader::{
    Bms,
    BmsEvent,
    BmsEventType,
    BpmChange,
    Image,
    Key,
    Sound,
    SoundX,
    TIME_MAX,
    Time,
    all_placed,
    well_placed,
};
use crate::stable_sort::{SortKey, ordered};
use crate::timing::{SEGMENT_FACTOR, lemma_span_bound, lemma_span_monotone, span, span_ticks};

verus! {

/// What a resolved chart holds.
pub struct ChartView {
    pub sounds: Seq<Sound>,
    pub bars: Seq<Time>,
    pub bpms: Seq<BpmChange>,
    pub bga: Seq<Image>,
}

impl View for Bms {
    type V = ChartView;

    open spec fn view(&self) -> ChartView {
        ChartView { sounds: self.sounds@, bars: self.bars@, bpms: self.bpms@, bga: self.bga@ }
    }
}

/// The place in a segment from which times are measured: the segment's
/// start or its last tempo change, with the time of that place and the
/// tempo that holds from there on.
pub struct Anchor {
    pub index: int,
    pub count: int,
    pub time: int,
    pub bpm: int,
}

/// The time of the place `index / count` of a segment of the given length,
/// measured from the anchor at the anchor's tempo.
pub open spec fn event_time(anchor: Anchor, length: int, index: int, count: int) -> int {
    anchor.time + span_ticks(
        index * anchor.count - anchor.index * count,
        count * anchor.count,
        length,
        anchor.bpm,
    )
}

/// The frames of an animation that starts at `at`, each at its own time. A
/// frame whose time lies beyond the last tick of a chart is left out.
pub open spec fn frames_shifted(frames: Seq<Image>, at: int) -> Seq<Image>
    decreases frames.len(),
{
    if frames.len() == 0 {
        Seq::empty()
    } else {
        let before = frames_shifted(frames.drop_last(), at);
        let frame = frames.last();
        if at + frame.timing <= TIME_MAX {
            before.push(Image { timing: (at + frame.timing) as u64, texture_id: frame.texture_id })
        } else {
            before
        }
    }
}

/// The anchor and the chart while the events of a segment are taken in.
pub struct WalkState {
    pub anchor: Anchor,
    pub chart: ChartView,
}

/// The frames of the animation with the given id; none where there is
/// no such animation.
pub open spec fn frames_of(animations: Map<u32, Vec<Image>>, id: u32) -> Seq<Image> {
    if animations.dom().contains(id) {
        animations[id]@
    } else {
        Seq::empty()
    }
}

/// The state after one more event. The event gets its time; a bar line, a
/// note and a tempo change are appended to their lists with that time, an
/// animation appends its frames; a tempo change becomes the new anchor.
pub open spec fn event_applied(
    state: WalkState,
    length: int,
    e: BmsEvent,
    animations: Map<u32, Vec<Image>>,
) -> WalkState {
    let t = event_time(state.anchor, length, e.index as int, e.count as int);
    let chart = state.chart;
    match e.event {
        BmsEventType::Bar => WalkState {
            anchor: state.anchor,
            chart: ChartView { bars: chart.bars.push(t as u64), ..chart },
        },
        BmsEventType::Key(key, wav_id) => WalkState {
            anchor: state.anchor,
            chart: ChartView {
                sounds: chart.sounds.push(Sound { key, timing: t as u64, wav_id }),
                ..chart
            },
        },
        BmsEventType::BpmChange(bpm) => WalkState {
            anchor: Anchor { index: e.index as int, count: e.count as int, time: t, bpm: bpm as int },
            chart: ChartView {
                bpms: chart.bpms.push(BpmChange { timing: t as u64, bpm }),
                ..chart
            },
        },
        BmsEventType::Bga(id) => WalkState {
            anchor: state.anchor,
            chart: ChartView {
                bga: chart.bga + frames_shifted(frames_of(animations, id), t),
                ..chart
            },
        },
    }
}

/// The state after the first `n` events.
pub open spec fn walked(
    state: WalkState,
    length: int,
    events: Seq<BmsEvent>,
    n: int,
    animations: Map<u32, Vec<Image>>,
) -> WalkState
    decreases n,
{
    if n <= 0 {
        state
    } else {
        event_applied(
            walked(state, length, events, n - 1, animations),
            length,
            events[n - 1],
            animations,
        )
    }
}

/// The times of the bar lines are in ascending order, and none is after `bound`.
pub open spec fn bars_ascending(bars: Seq<Time>, bound: int) -> bool {
    &&& forall|i: int, j: int| 0 <= i <= j < bars.len() ==> bars[i] <= bars[j]
    &&& forall|i: int| 0 <= i < bars.len() ==> bars[i] <= bound
}

/// The times of the notes are in ascending order, and none is after `bound`.
pub open spec fn sounds_ascending(sounds: Seq<Sound>, bound: int) -> bool {
    &&& forall|i: int, j: int| 0 <= i <= j < sounds.len() ==> sounds[i].timing <= sounds[j].timing
    &&& forall|i: int| 0 <= i < sounds.len() ==> sounds[i].timing <= bound
}

/// The times of the tempo changes are in ascending order, none is after
/// `bound`, and no tempo behind the first is zero.
pub open spec fn bpms_ascending(bpms: Seq<BpmChange>, bound: int) -> bool {
    &&& forall|i: int, j: int| 0 <= i <= j < bpms.len() ==> bpms[i].timing <= bpms[j].timing
    &&& forall|i: int|
        0 <= i < bpms.len() ==> bpms[i].timing <= bound && (i >= 1 ==> bpms[i].bpm > 0)
}

/// No frame comes after the last tick of a chart.
pub open spec fn frames_within(bga: Seq<Image>) -> bool {
    forall|i: int| 0 <= i < bga.len() ==> (#[trigger] bga[i]).timing <= TIME_MAX
}

/// Bar lines, notes and tempo changes are each in ascending order of time,
/// none after `bound`, and no animation frame comes after the last tick of
/// a chart.
pub open spec fn chart_ascending(chart: ChartView, bound: int) -> bool {
    &&& bars_ascending(chart.bars, bound)
    &&& sounds_ascending(chart.sounds, bound)
    &&& bpms_ascending(chart.bpms, bound)
    &&& frames_within(chart.bga)
}

/// A chart that is ascending up to a bound is so up to any later bound.
pub proof fn lemma_chart_ascending_later(chart: ChartView, bound: int, later: int)
    requires
        chart_ascending(chart, bound),
        bound <= later,
    ensures
        chart_ascending(chart, later),
{
}

/// Measured from its start, the time of a place of a segment is no more
/// than the place's share of the ticks that the segment lasts at the slowest
/// tempo, if that holds of the anchor.
pub proof fn lemma_time_within_segment(
    head: int,
    anchor: Anchor,
    length: int,
    index: int,
    count: int,
)
    requires
        0 < anchor.count,
        0 <= anchor.index,
        0 < anchor.bpm,
        0 <= length,
        0 < count,
        0 <= index,
        anchor.index * count <= index * anchor.count,
        (anchor.time - head) * anchor.count <= anchor.index * (SEGMENT_FACTOR * length),
    ensures
        anchor.time <= event_time(anchor, length, index, count),
        (event_time(anchor, length, index, count) - head) * count <= index * (SEGMENT_FACTOR
            * length),
{
    let k = SEGMENT_FACTOR * length;
    let num = index * anchor.count - anchor.index * count;
    let den = count * anchor.count;
    assert(0 < den) by (nonlinear_arith)
        requires
            den == count * anchor.count,
            0 < count,
            0 < anchor.count,
    ;
    let q = span_ticks(num, den, length, anchor.bpm);
    lemma_span_bound(num, den, length, anchor.bpm);
    lemma_span_monotone(0, 1, num, den, length, anchor.bpm);
    let (ai, ac, d) = (anchor.index, anchor.count, anchor.time - head);
    assert(d * ac * count <= ai * k * count) by (nonlinear_arith)
        requires
            d * ac <= ai * k,
            0 < count,
    ;
    assert(q * den == q * count * ac) by (nonlinear_arith)
        requires
            den == count * ac,
    ;
    assert(num * k == index * ac * k - ai * count * k) by (nonlinear_arith)
        requires
            num == index * ac - ai * count,
    ;
    assert(((d + q) * count) * ac == d * ac * count + q * count * ac) by (nonlinear_arith);
    assert(ai * k * count == ai * count * k) by (nonlinear_arith);
    assert((index * k) * ac == index * ac * k) by (nonlinear_arith);
    assert(((d + q) * count) * ac <= (index * k) * ac);
    assert((d + q) * count <= index * k) by (nonlinear_arith)
        requires
            ((d + q) * count) * ac <= (index * k) * ac,
            0 < ac,
    ;
}

/// Measured from one anchor, a later place has no earlier time.
pub proof fn lemma_time_monotone(
    anchor: Anchor,
    length: int,
    i1: int,
    c1: int,
    i2: int,
    c2: int,
)
    requires
        0 < anchor.count,
        0 <= anchor.index,
        0 < anchor.bpm,
        0 <= length,
        0 < c1,
        0 < c2,
        anchor.index * c1 <= i1 * anchor.count,
        i1 * c2 <= i2 * c1,
    ensures
        event_time(anchor, length, i1, c1) <= event_time(anchor, length, i2, c2),
{
    let (ai, ac) = (anchor.index, anchor.count);
    let n1 = i1 * ac - ai * c1;
    let d1 = c1 * ac;
    let n2 = i2 * ac - ai * c2;
    let d2 = c2 * ac;
    assert(0 < d1 && 0 < d2) by (nonlinear_arith)
        requires
            d1 == c1 * ac,
            d2 == c2 * ac,
            0 < c1,
            0 < c2,
            0 < ac,
    ;
    let u = ac * ac;
    assert(n1 * d2 == (i1 * ac) * (c2 * ac) - (ai * c1) * (c2 * ac)) by (nonlinear_arith)
        requires
            n1 == i1 * ac - ai * c1,
            d2 == c2 * ac,
    ;
    assert((i1 * ac) * (c2 * ac) == (i1 * c2) * u) by (nonlinear_arith)
        requires
            u == ac * ac,
    ;
    assert(n2 * d1 == (i2 * ac) * (c1 * ac) - (ai * c2) * (c1 * ac)) by (nonlinear_arith)
        requires
            n2 == i2 * ac - ai * c2,
            d1 == c1 * ac,
    ;
    assert((i2 * ac) * (c1 * ac) == (i2 * c1) * u) by (nonlinear_arith)
        requires
            u == ac * ac,
    ;
    assert((ai * c1) * (c2 * ac) == (ai * c2) * (c1 * ac)) by (nonlinear_arith);
    assert((i1 * c2) * u <= (i2 * c1) * u) by (nonlinear_arith)
        requires
            i1 * c2 <= i2 * c1,
            u == ac * ac,
    ;
    assert(n1 * d2 <= n2 * d1);
    assert(0 <= n1);
    assert(0 <= n2) by (nonlinear_arith)
        requires
            n1 * d2 <= n2 * d1,
            0 <= n1,
            0 < d1,
            0 < d2,
    ;
    lemma_span_monotone(n1, d1, n2, d2, length, anchor.bpm);
}

/// The events of a segment that holds nothing but notes of one lane,
/// evenly spaced: the bar line, and then the `i`-th of the `n` notes at the
/// place `i / n`, each with its sample.
pub open spec fn even_notes(key: Key, ids: Seq<u32>) -> Seq<BmsEvent> {
    Seq::new(
        ids.len() + 1,
        |j: int|
            if j == 0 {
                BmsEvent { index: 0, count: 1, event: BmsEventType::Bar }
            } else {
                BmsEvent {
                    index: (j - 1) as u32,
                    count: ids.len() as u32,
                    event: BmsEventType::Key(key, SoundX { id: ids[j - 1] }),
                }
            },
    )
}

/// The chart after the bar line and the first `m` of the evenly spaced
/// notes of a segment that starts at `head` at the tempo `bpm`.
pub open spec fn even_notes_chart(
    chart: ChartView,
    head: int,
    bpm: int,
    length: int,
    key: Key,
    ids: Seq<u32>,
    m: int,
) -> ChartView {
    ChartView {
        bars: chart.bars.push(head as u64),
        sounds: chart.sounds + Seq::new(
            m as nat,
            |i: int|
                Sound {
                    key,
                    timing: (head + span_ticks(i, ids.len() as int, length, bpm)) as u64,
                    wav_id: SoundX { id: ids[i] },
                },
        ),
        ..chart
    }
}

proof fn lemma_even_notes_walked(
    chart: ChartView,
    head: int,
    bpm: int,
    length: int,
    key: Key,
    ids: Seq<u32>,
    animations: Map<u32, Vec<Image>>,
    m: int,
)
    requires
        0 <= m <= ids.len() <= u32::MAX,
        0 < bpm,
    ensures
        walked(
            WalkState { anchor: Anchor { index: 0, count: 1, time: head, bpm }, chart },
            length,
            even_notes(key, ids),
            m + 1,
            animations,
        ) == (WalkState {
            anchor: Anchor { index: 0, count: 1, time: head, bpm },
            chart: even_notes_chart(chart, head, bpm, length, key, ids, m),
        }),
    decreases m,
{
    let anchor = Anchor { index: 0, count: 1, time: head, bpm };
    let start = WalkState { anchor, chart };
    let events = even_notes(key, ids);
    let n = ids.len() as int;
    if m == 0 {
        assert(walked(start, length, events, 0, animations) == start);
        assert(span_ticks(0, 1, length, bpm) == 0) by (nonlinear_arith)
            requires
                0 < bpm,
        ;
        assert(events[0] == (BmsEvent { index: 0, count: 1, event: BmsEventType::Bar }));
        assert(event_time(anchor, length, 0, 1) == head);
        let after = even_notes_chart(chart, head, bpm, length, key, ids, 0);
        assert(after.sounds == chart.sounds);
        let w = event_applied(start, length, events[0], animations);
        assert(w.anchor == anchor);
        assert(w.chart == after);
        assert(walked(start, length, events, 1, animations) == w);
    } else {
        lemma_even_notes_walked(chart, head, bpm, length, key, ids, animations, m - 1);
        let before = even_notes_chart(chart, head, bpm, length, key, ids, m - 1);
        let after = even_notes_chart(chart, head, bpm, length, key, ids, m);
        let e = events[m];
        assert(e == (BmsEvent {
            index: (m - 1) as u32,
            count: n as u32,
            event: BmsEventType::Key(key, SoundX { id: ids[m - 1] }),
        }));
        assert(event_time(anchor, length, m - 1, n) == head + span_ticks(m - 1, n, length, bpm));
        let note = Sound {
            key,
            timing: (head + span_ticks(m - 1, n, length, bpm)) as u64,
            wav_id: SoundX { id: ids[m - 1] },
        };
        assert(after.sounds == before.sounds.push(note));
        let prior = WalkState { anchor, chart: before };
        let w = event_applied(prior, length, e, animations);
        assert(w.anchor == anchor);
        assert(w.chart.sounds == before.sounds.push(note));
        assert(w.chart == after);
        assert(walked(start, length, events, m + 1, animations) == w);
    }
}

/// In a segment of constant tempo that holds `n` evenly spaced notes of one
/// lane, the `i`-th note comes `i / n` of the segment's duration after the
/// segment's start: with a whole segment of four beats at `B` beats per
/// minute that is `i * (240 / B) / n` seconds, rounded down to a tick.
pub proof fn lemma_even_notes(
    chart: ChartView,
    head: int,
    bpm: int,
    length: int,
    key: Key,
    ids: Seq<u32>,
    animations: Map<u32, Vec<Image>>,
)
    requires
        0 < ids.len() <= u32::MAX,
        0 < bpm,
    ensures
        ({
            let n = ids.len() as int;
            let w = walked(
                WalkState { anchor: Anchor { index: 0, count: 1, time: head, bpm }, chart },
                length,
                even_notes(key, ids),
                n + 1,
                animations,
            );
            &&& w.chart.sounds.len() == chart.sounds.len() + n
            &&& forall|i: int|
                0 <= i < n ==> #[trigger] w.chart.sounds[chart.sounds.len() + i] == (Sound {
                    key,
                    timing: (head + (i * SEGMENT_FACTOR * length) / (n * bpm)) as u64,
                    wav_id: SoundX { id: ids[i] },
                })
            &&& w.chart.bars == chart.bars.push(head as u64)
            &&& w.chart.bpms == chart.bpms
            &&& w.anchor.bpm == bpm
        }),
{
    lemma_even_notes_walked(chart, head, bpm, length, key, ids, animations, ids.len() as int);
}

/// Appends the frames of an animation that starts at `at`.
fn push_frames(frames: &Vec<Image>, at: Time, bga: &mut Vec<Image>)
    requires
        frames_within(old(bga)@),
    ensures
        final(bga)@ == old(bga)@ + frames_shifted(frames@, at as int),
        frames_within(final(bga)@),
{
    let ghost before = bga@;
    let mut i: usize = 0;
    assert(frames@.take(0) == Seq::<Image>::empty());
    assert(bga@ == before + Seq::<Image>::empty());
    while i < frames.len()
        invariant
            0 <= i <= frames.len(),
            bga@ == before + frames_shifted(frames@.take(i as int), at as int),
            frames_within(bga@),
        decreases frames.len() - i,
    {
        let ghost so_far = frames_shifted(frames@.take(i as int), at as int);
        let frame = frames[i];
        assert(frames@.take(i + 1).drop_last() == frames@.take(i as int));
        assert(frames@.take(i + 1).last() == frame);
        if at <= TIME_MAX && frame.timing <= TIME_MAX - at {
            let shifted = Image { timing: at + frame.timing, texture_id: frame.texture_id };
            bga.push(shifted);
            assert(bga@ == before + so_far.push(shifted));
        }
        i = i + 1;
    }
    assert(frames@.take(i as int) == frames@);
}

/// Gives the events of one segment their times and appends them to the
/// chart. The events come in the order of their places; the segment starts
/// at `head` with the tempo `bpm`. Returns the time at which the segment
/// ends and the tempo that holds there.
pub(crate) fn walk_events(
    events: &Vec<BmsEvent>,
    length: u32,
    head: Time,
    bpm: u32,
    animations: &HashMap<u32, Vec<Image>>,
    bms: &mut Bms,
) -> (end: (Time, u32))
    requires
        all_placed(events@),
        ordered(events@),
        bpm > 0,
        head + 2 * (SEGMENT_FACTOR * length) <= u64::MAX,
        chart_ascending(old(bms)@, head as int),
    ensures
        ({
            let start = WalkState {
                anchor: Anchor { index: 0, count: 1, time: head as int, bpm: bpm as int },
                chart: old(bms)@,
            };
            let w = walked(start, length as int, events@, events@.len() as int, animations@);
            &&& final(bms)@ == w.chart
            &&& end.0 == event_time(w.anchor, length as int, 1, 1)
            &&& end.1 == w.anchor.bpm
        }),
        head <= end.0 <= head + SEGMENT_FACTOR * length,
        end.1 > 0,
        chart_ascending(final(bms)@, end.0 as int),
{
    let ghost start = WalkState {
        anchor: Anchor { index: 0, count: 1, time: head as int, bpm: bpm as int },
        chart: bms@,
    };
    let ghost whole = SEGMENT_FACTOR * length;
    let mut a_index: u32 = 0;
    let mut a_count: u32 = 1;
    let mut a_time: Time = head;
    let mut a_bpm: u32 = bpm;
    let ghost mut p_index: int = 0;
    let ghost mut p_count: int = 1;
    let ghost mut low: int = head as int;
    let mut k: usize = 0;
    proof {
        assert(span_ticks(0, 1, length as int, bpm as int) == 0) by (nonlinear_arith)
            requires
                bpm > 0,
        ;
    }
    while k < events.len()
        invariant
            0 <= k <= events.len(),
            all_placed(events@),
            ordered(events@),
            whole == SEGMENT_FACTOR * length,
            head + 2 * whole <= u64::MAX,
            0 <= a_index <= a_count,
            0 < a_count,
            0 < a_bpm,
            head <= a_time <= head + whole,
            (a_time - head) * a_count <= a_index * whole,
            forall|j: int|
                k <= j < events.len() ==> a_index * (#[trigger] events@[j]).count
                    <= events@[j].index * a_count,
            0 <= p_index <= p_count,
            0 < p_count,
            a_index * p_count <= p_index * a_count,
            forall|j: int|
                k <= j < events.len() ==> p_index * (#[trigger] events@[j]).count
                    <= events@[j].index * p_count,
            low == event_time(
                Anchor {
                    index: a_index as int,
                    count: a_count as int,
                    time: a_time as int,
                    bpm: a_bpm as int,
                },
                length as int,
                p_index,
                p_count,
            ),
            chart_ascending(bms@, low),
            walked(start, length as int, events@, k as int, animations@) == (WalkState {
                anchor: Anchor {
                    index: a_index as int,
                    count: a_count as int,
                    time: a_time as int,
                    bpm: a_bpm as int,
                },
                chart: bms@,
            }),
        decreases events.len() - k,
    {
        let e = events[k];
        let ghost anchor = Anchor {
            index: a_index as int,
            count: a_count as int,
            time: a_time as int,
            bpm: a_bpm as int,
        };
        assert(well_placed(e));
        proof {
            assert(e.index * a_count <= e.count * a_count <= u32::MAX * u32::MAX)
                by (nonlinear_arith)
                requires
                    0 <= e.index < e.count <= u32::MAX,
                    0 < a_count <= u32::MAX,
            ;
            assert(0 <= a_index * e.count) by (nonlinear_arith)
                requires
                    0 <= a_index,
                    0 <= e.count,
            ;
            assert(0 < e.count * a_count) by (nonlinear_arith)
                requires
                    0 < e.count,
                    0 < a_count,
            ;
            lemma_time_within_segment(
                head as int,
                anchor,
                length as int,
                e.index as int,
                e.count as int,
            );
            lemma_time_monotone(
                anchor,
                length as int,
                p_index,
                p_count,
                e.index as int,
                e.count as int,
            );
            let t = event_time(anchor, length as int, e.index as int, e.count as int);
            assert(t - head <= whole) by (nonlinear_arith)
                requires
                    (t - head) * e.count <= e.index * whole,
                    0 <= e.index < e.count,
                    0 <= whole,
            ;
        }
        let num: u64 = (e.index as u64) * (a_count as u64) - (a_index as u64) * (e.count as u64);
        let den: u64 = (e.count as u64) * (a_count as u64);
        let timing: Time = a_time + span(num, den, length, a_bpm);
        match e.event {
            BmsEventType::Bar => {
                bms.bars.push(timing);
            },
            BmsEventType::Key(key, wav_id) => {
                bms.sounds.push(Sound { key, timing, wav_id });
            },
            BmsEventType::BpmChange(new_bpm) => {
                bms.bpms.push(BpmChange { timing, bpm: new_bpm });
                a_index = e.index;
                a_count = e.count;
                a_time = timing;
                a_bpm = new_bpm;
                proof {
                    assert(span_ticks(
                        e.index * e.count - e.index * e.count,
                        e.count * e.count,
                        length as int,
                        new_bpm as int,
                    ) == 0) by (nonlinear_arith)
                        requires
                            new_bpm > 0,
                            e.count > 0,
                    ;
                }
            },
            BmsEventType::Bga(id) => {
                match animations.get(&id) {
                    Some(frames) => {
                        push_frames(frames, timing, &mut bms.bga);
                    },
                    None => {
                        assert(bms.bga@ == bms.bga@ + Seq::<Image>::empty());
                    },
                }
            },
        }
        proof {
            p_index = e.index as int;
            p_count = e.count as int;
            low = timing as int;
            assert forall|j: int| k + 1 <= j < events.len() implies e.index * (
            #[trigger] events@[j]).count <= events@[j].index * e.count by {
                assert(events@[k as int].ranks_le(events@[j]));
            }
        }
        k = k + 1;
    }
    let ghost anchor = Anchor {
        index: a_index as int,
        count: a_count as int,
        time: a_time as int,
        bpm: a_bpm as int,
    };
    proof {
        lemma_time_within_segment(head as int, anchor, length as int, 1, 1);
        lemma_time_monotone(anchor, length as int, p_index, p_count, 1, 1);
        lemma_chart_ascending_later(bms@, low, event_time(anchor, length as int, 1, 1));
    }
    let rest: u64 = (a_count - a_index) as u64;
    let end: Time = a_time + span(rest, a_count as u64, length, a_bpm);
    (end, a_bpm)
}

} // verus!
