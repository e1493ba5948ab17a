use rand::RngExt;
use std::collections::{HashMap, HashSet};
use vstd::prelude::*;
use vstd::slice::slice_subrange;
use crate::bms_parser::{BmsScript, ErrorKind, ScriptView, byte_strings, SEGMENT_LIMIT};
use crate::bms_parser::{Header, bytes_eq, copy_bytes, document, trim, trimmed};
use crate::bms_player::{lemma_ascending_playable, playable};
use crate::decimal::{fixed_point, parse_fixed};
use crate::segment::{
    Anchor,
    ChartView,
    WalkState,
    chart_ascending,
    even_notes,
    event_time,
    lemma_even_notes,
    lemma_chart_ascending_later,
    walk_events,
    walked,
};
use crate::stable_sort::{
    SortKey,
    all_sortable,
    lemma_ordered_is_sorted,
    lemma_stable_sorted,
    ordered,
    stable_sort,
    stable_sorted,
};
use crate::timing::{LENGTH_SCALE, SEGMENT_FACTOR};

verus! {

/// A point in time, or a span of time, in ticks.
pub type Time = u64;

/// Ticks in one second.
pub const TICKS_PER_SECOND: u64 = 1_000_000;

/// The last tick at which a chart may hold an event.
pub const TIME_MAX: Time = 0x7fff_ffff_ffff_ffff;

/// Tempo units in one beat per minute: a tempo is held in thousandths.
pub const BPM_SCALE: u32 = 1000;

/// The tempo in effect where the chart gives none: 130 beats per minute.
pub const DEFAULT_BPM: u32 = 130_000;

/// Handle of a piece of music known to the audio backend.
#[derive(Debug, Copy, Clone, Hash, PartialEq, Eq, Structural)]
pub struct MusicX {
    pub id: u32,
}

/// Handle of a sample known to the audio backend.
#[derive(Debug, Copy, Clone, Hash, PartialEq, Eq, Structural)]
pub struct SoundX {
    pub id: u32,
}

/// A tempo that takes effect at `timing` and lasts until the next change.
#[derive(Debug, Copy, Clone, PartialEq, Eq, Structural)]
pub struct BpmChange {
    pub timing: Time,
    pub bpm: u32,
}

/// A lane of the chart: the seven keys and the turntable of the first
/// player, the free-scratch zone, and the lane of background samples.
#[allow(non_camel_case_types)]
#[derive(Debug, Copy, Clone, Hash, PartialEq, Eq, Structural)]
pub enum Key {
    P1_KEY1,
    P1_KEY2,
    P1_KEY3,
    P1_KEY4,
    P1_KEY5,
    P1_KEY6,
    P1_KEY7,
    P1_SCRATCH,
    P1_FREE_SCRATCH,
    BACK_CHORUS,
}

/// Number of lanes that a player sees and plays.
pub const VISIBLE_LANES: usize = 8;

impl Key {
    /// The lane is drawn and played: a key or the turntable.
    pub open spec fn is_visible(self) -> bool {
        self != Key::P1_FREE_SCRATCH && self != Key::BACK_CHORUS
    }

    /// The lane's number: 0 for the turntable, 1 to 7 for the keys, 254 for
    /// the free-scratch zone and 255 for the background lane.
    pub open spec fn code_spec(self) -> u8 {
        match self {
            Key::P1_SCRATCH => 0,
            Key::P1_KEY1 => 1,
            Key::P1_KEY2 => 2,
            Key::P1_KEY3 => 3,
            Key::P1_KEY4 => 4,
            Key::P1_KEY5 => 5,
            Key::P1_KEY6 => 6,
            Key::P1_KEY7 => 7,
            Key::P1_FREE_SCRATCH => 254,
            Key::BACK_CHORUS => 255,
        }
    }

    /// The lane's number, by which its data is found again.
    #[verifier::when_used_as_spec(code_spec)]
    pub fn code(self) -> (c: u8)
        ensures
            c == self.code_spec(),
            self.is_visible() <==> c < VISIBLE_LANES,
    {
        match self {
            Key::P1_SCRATCH => 0,
            Key::P1_KEY1 => 1,
            Key::P1_KEY2 => 2,
            Key::P1_KEY3 => 3,
            Key::P1_KEY4 => 4,
            Key::P1_KEY5 => 5,
            Key::P1_KEY6 => 6,
            Key::P1_KEY7 => 7,
            Key::P1_FREE_SCRATCH => 254,
            Key::BACK_CHORUS => 255,
        }
    }

    /// The visible lanes, each once: the seven keys, then the turntable.
    pub fn visible_keys() -> (keys: Vec<Key>)
        ensures
            keys@ == seq![
                Key::P1_KEY1,
                Key::P1_KEY2,
                Key::P1_KEY3,
                Key::P1_KEY4,
                Key::P1_KEY5,
                Key::P1_KEY6,
                Key::P1_KEY7,
                Key::P1_SCRATCH,
            ],
            forall|k: Key| keys@.contains(k) <==> k.is_visible(),
            keys@.no_duplicates(),
    {
        let keys = vec![
            Key::P1_KEY1,
            Key::P1_KEY2,
            Key::P1_KEY3,
            Key::P1_KEY4,
            Key::P1_KEY5,
            Key::P1_KEY6,
            Key::P1_KEY7,
            Key::P1_SCRATCH,
        ];
        proof {
            assert forall|k: Key| k.is_visible() implies keys@.contains(k) by {
                let i = if k.code_spec() == 0 { 7int } else { k.code_spec() as int - 1 };
                assert(keys@[i] == k);
            }
        }
        keys
    }
}

/// The chart channel that carries a lane's notes; `None` for a lane that
/// no channel feeds.
pub open spec fn channel_of_key_spec(key: Key) -> Option<u8> {
    match key {
        Key::P1_KEY1 => Some(11u8),
        Key::P1_KEY2 => Some(12u8),
        Key::P1_KEY3 => Some(13u8),
        Key::P1_KEY4 => Some(14u8),
        Key::P1_KEY5 => Some(15u8),
        Key::P1_KEY6 => Some(18u8),
        Key::P1_KEY7 => Some(19u8),
        Key::P1_SCRATCH => Some(16u8),
        Key::BACK_CHORUS => Some(1u8),
        Key::P1_FREE_SCRATCH => None,
    }
}

/// The chart channel that carries a lane's notes.
#[verifier::when_used_as_spec(channel_of_key_spec)]
pub fn channel_of_key(key: Key) -> (channel: Option<u8>)
    ensures
        channel == channel_of_key_spec(key),
{
    match key {
        Key::P1_KEY1 => Some(11),
        Key::P1_KEY2 => Some(12),
        Key::P1_KEY3 => Some(13),
        Key::P1_KEY4 => Some(14),
        Key::P1_KEY5 => Some(15),
        Key::P1_KEY6 => Some(18),
        Key::P1_KEY7 => Some(19),
        Key::P1_SCRATCH => Some(16),
        Key::BACK_CHORUS => Some(1),
        Key::P1_FREE_SCRATCH => None,
    }
}

/// A lane together with the channel that feeds it.
pub struct KeyMetadata {
    pub id: u32,
    pub channel: u8,
}

/// A sample to be played: on a key press if its lane is visible, by itself
/// if it lies on the background lane.
#[derive(Debug, Copy, Clone, PartialEq, Eq, Structural)]
pub struct Sound {
    pub key: Key,
    pub timing: Time,
    pub wav_id: SoundX,
}

/// A frame of the background animation: the texture to show from `timing` on.
#[derive(Debug, Copy, Clone, PartialEq, Eq, Structural)]
pub struct Image {
    pub timing: Time,
    pub texture_id: i32,
}

/// A chart with every event at its absolute time.
pub struct Bms {
    pub sounds: Vec<Sound>,
    /// When each bar line passes the judge line.
    pub bars: Vec<Time>,
    pub bpms: Vec<BpmChange>,
    pub bga: Vec<Image>,
}

/// What stands at a place of a segment.
#[derive(Debug, Copy, Clone, PartialEq, Eq, Structural)]
pub enum BmsEventType {
    /// The bar line that opens the segment.
    Bar,
    /// A new tempo.
    BpmChange(u32),
    /// A note of a lane, with its sample.
    Key(Key, SoundX),
    /// The start of a background animation, named by its id.
    Bga(u32),
}

/// An event at the place `index / count` of its segment.
#[derive(Debug, Copy, Clone, PartialEq, Eq, Structural)]
pub struct BmsEvent {
    pub index: u32,
    pub count: u32,
    pub event: BmsEventType,
}

impl BmsEvent {
    /// The event at the place `index / count` of its segment.
    pub fn new(index: u32, count: u32, event: BmsEventType) -> (e: BmsEvent)
        ensures
            e == (BmsEvent { index, count, event }),
    {
        BmsEvent { index, count, event }
    }
}

impl SortKey for BmsEvent {
    /// The place is a fraction: its denominator is not zero.
    open spec fn sortable(self) -> bool {
        self.count > 0
    }

    /// The place of `self` is no later in the segment than that of `other`.
    open spec fn ranks_le(self, other: Self) -> bool {
        self.index * other.count <= other.index * self.count
    }

    fn rank_le(&self, other: &Self) -> (le: bool) {
        assert(self.index * other.count <= u32::MAX * u32::MAX) by (nonlinear_arith)
            requires
                0 <= self.index <= u32::MAX,
                0 <= other.count <= u32::MAX,
        ;
        assert(other.index * self.count <= u32::MAX * u32::MAX) by (nonlinear_arith)
            requires
                0 <= other.index <= u32::MAX,
                0 <= self.count <= u32::MAX,
        ;
        (self.index as u64) * (other.count as u64) <= (other.index as u64) * (self.count as u64)
    }

    proof fn lemma_total(a: Self, b: Self) {
    }

    proof fn lemma_transitive(a: Self, b: Self, c: Self) {
        let (ai, ac) = (a.index as int, a.count as int);
        let (bi, bc) = (b.index as int, b.count as int);
        let (ci, cc) = (c.index as int, c.count as int);
        assert(ai * bc * cc <= bi * ac * cc) by (nonlinear_arith)
            requires
                ai * bc <= bi * ac,
                0 < cc,
        ;
        assert(bi * cc * ac <= ci * bc * ac) by (nonlinear_arith)
            requires
                bi * cc <= ci * bc,
                0 < ac,
        ;
        assert(ai * cc <= ci * ac) by (nonlinear_arith)
            requires
                ai * bc * cc <= bi * ac * cc,
                bi * cc * ac <= ci * bc * ac,
                0 < bc,
        ;
    }
}

/// The channel that gives a segment its length.
pub const LENGTH_CHANNEL: u8 = 2;

/// The channel that carries the tempo changes.
pub const TEMPO_CHANNEL: u8 = 3;

/// The channel that carries the starts of background animations.
pub const ANIMATION_CHANNEL: u8 = 4;

/// What the tokens of a channel stand for.
#[derive(Debug, Copy, Clone, PartialEq, Eq, Structural)]
pub enum EventSource {
    /// Tempo codes, written in base 16.
    Tempo,
    /// Sample ids of the notes of a lane, written in base 36.
    Note(Key),
    /// Animation ids, written in base 36.
    Animation,
}

/// The number that a byte stands for as a digit: 0 to 9 for the decimal
/// digits, 10 to 35 for the letters of either case, and 36 for any other byte.
pub open spec fn radix_digit(b: u8) -> int {
    if 48 <= b <= 57 {
        b - 48
    } else if 97 <= b <= 122 {
        b - 87
    } else if 65 <= b <= 90 {
        b - 55
    } else {
        36
    }
}

/// The number that a token of two digits writes in the given base; `None`
/// where the token is not two digits of that base.
pub open spec fn token_value(code: Seq<u8>, radix: int) -> Option<u32> {
    if code.len() == 2 && radix_digit(code[0]) < radix && radix_digit(code[1]) < radix {
        Some((radix_digit(code[0]) * radix + radix_digit(code[1])) as u32)
    } else {
        None
    }
}

/// The number that a byte stands for as a digit.
fn digit_of(b: u8) -> (d: u32)
    ensures
        d == radix_digit(b),
{
    if 48 <= b && b <= 57 {
        (b - 48) as u32
    } else if 97 <= b && b <= 122 {
        (b - 87) as u32
    } else if 65 <= b && b <= 90 {
        (b - 55) as u32
    } else {
        36
    }
}

/// Reads a token of two digits in a base of at most 36.
fn decode_radix(code: &[u8], radix: u32) -> (value: Option<u32>)
    requires
        radix <= 36,
    ensures
        value == token_value(code@, radix as int),
{
    if code.len() != 2 {
        return None;
    }
    let high = digit_of(code[0]);
    let low = digit_of(code[1]);
    if high < radix && low < radix {
        assert(high * radix + low <= 36 * 36) by (nonlinear_arith)
            requires
                high < radix <= 36,
                low < 36,
        ;
        Some(high * radix + low)
    } else {
        None
    }
}

/// The `k`-th token of a data string: its bytes `2k` and `2k + 1`.
pub open spec fn token_at(data: Seq<u8>, k: int) -> Seq<u8> {
    data.subrange(2 * k, 2 * k + 2)
}

/// What a token gives rise to. A tempo code that is zero or no number
/// gives nothing; so does a sample id that is zero, no number or not among
/// the declared samples, and an animation id that is no number or has no
/// frames among the animations.
pub open spec fn token_event(
    source: EventSource,
    token: Seq<u8>,
    wav_ids: Set<u32>,
    animations: Map<u32, Vec<Image>>,
) -> Option<BmsEventType> {
    match source {
        EventSource::Tempo => match token_value(token, 16) {
            Some(code) => if code > 0 {
                Some(BmsEventType::BpmChange((code * BPM_SCALE) as u32))
            } else {
                None
            },
            None => None,
        },
        EventSource::Note(key) => match token_value(token, 36) {
            Some(id) => if id != 0 && wav_ids.contains(id) {
                Some(BmsEventType::Key(key, SoundX { id }))
            } else {
                None
            },
            None => None,
        },
        EventSource::Animation => match token_value(token, 36) {
            Some(id) => if animations.dom().contains(id) {
                Some(BmsEventType::Bga(id))
            } else {
                None
            },
            None => None,
        },
    }
}

/// The events of the first `k` of the `count` tokens of a data string, the
/// `i`-th token standing at the place `i / count` of the segment.
pub open spec fn tokens_events(
    data: Seq<u8>,
    count: int,
    k: int,
    source: EventSource,
    wav_ids: Set<u32>,
    animations: Map<u32, Vec<Image>>,
) -> Seq<BmsEvent>
    decreases k,
{
    if k <= 0 {
        Seq::empty()
    } else {
        let before = tokens_events(data, count, k - 1, source, wav_ids, animations);
        match token_event(source, token_at(data, k - 1), wav_ids, animations) {
            Some(event) => before.push(
                BmsEvent { index: (k - 1) as u32, count: count as u32, event },
            ),
            None => before,
        }
    }
}

/// The events of a data string. A string of more tokens than a place can
/// count gives none.
pub open spec fn record_events(
    data: Seq<u8>,
    source: EventSource,
    wav_ids: Set<u32>,
    animations: Map<u32, Vec<Image>>,
) -> Seq<BmsEvent> {
    let count = (data.len() / 2) as int;
    if count > u32::MAX {
        Seq::empty()
    } else {
        tokens_events(data, count, count, source, wav_ids, animations)
    }
}

/// The events of the records of a channel, record after record.
pub open spec fn channel_events(
    records: Seq<Seq<u8>>,
    source: EventSource,
    wav_ids: Set<u32>,
    animations: Map<u32, Vec<Image>>,
) -> Seq<BmsEvent>
    decreases records.len(),
{
    if records.len() == 0 {
        Seq::empty()
    } else {
        channel_events(records.drop_last(), source, wav_ids, animations) + record_events(
            records.last(),
            source,
            wav_ids,
            animations,
        )
    }
}

/// What is wrong with a token, if anything. A token that is not two
/// digits of its base is a `DataError`. A sample id that is not zero and
/// not among the declared samples is a `ReferenceError`, and so is an
/// animation id that is not zero and has no frames. Zero stands for a rest
/// and is never wrong.
pub open spec fn token_problem_spec(
    source: EventSource,
    token: Seq<u8>,
    wav_ids: Set<u32>,
    animations: Map<u32, Vec<Image>>,
) -> Option<ErrorKind> {
    match source {
        EventSource::Tempo => match token_value(token, 16) {
            Some(_) => None,
            None => Some(ErrorKind::DataError),
        },
        EventSource::Note(_) => match token_value(token, 36) {
            Some(id) => if id != 0 && !wav_ids.contains(id) {
                Some(ErrorKind::ReferenceError)
            } else {
                None
            },
            None => Some(ErrorKind::DataError),
        },
        EventSource::Animation => match token_value(token, 36) {
            Some(id) => if id != 0 && !animations.dom().contains(id) {
                Some(ErrorKind::ReferenceError)
            } else {
                None
            },
            None => Some(ErrorKind::DataError),
        },
    }
}

/// A token that is wrong gives no event.
pub proof fn lemma_wrong_token_gives_nothing(
    source: EventSource,
    token: Seq<u8>,
    wav_ids: Set<u32>,
    animations: Map<u32, Vec<Image>>,
)
    requires
        token_problem_spec(source, token, wav_ids, animations).is_some(),
    ensures
        token_event(source, token, wav_ids, animations).is_none(),
{
}

/// A token that is wrong, by its number in its data string.
#[derive(Debug, Copy, Clone, PartialEq, Eq, Structural)]
pub struct TokenProblem {
    pub token: usize,
    pub kind: ErrorKind,
}

/// What is wrong with the first `k` tokens of a data string.
pub open spec fn tokens_problems(
    data: Seq<u8>,
    k: int,
    source: EventSource,
    wav_ids: Set<u32>,
    animations: Map<u32, Vec<Image>>,
) -> Seq<TokenProblem>
    decreases k,
{
    if k <= 0 {
        Seq::empty()
    } else {
        let before = tokens_problems(data, k - 1, source, wav_ids, animations);
        match token_problem_spec(source, token_at(data, k - 1), wav_ids, animations) {
            Some(kind) => before.push(TokenProblem { token: (k - 1) as usize, kind }),
            None => before,
        }
    }
}

/// The segment ids come in strictly ascending order.
pub open spec fn strictly_ascending(ids: Seq<u16>) -> bool {
    forall|i: int, j: int| 0 <= i < j < ids.len() ==> ids[i] < ids[j]
}

/// Loads a chart from the file at a path.
pub struct BmsFileLoader {
    path: String,
}

impl BmsFileLoader {
    /// The path of the chart file.
    pub closed spec fn path_view(&self) -> Seq<char> {
        self.path@
    }

    /// A loader for the chart file at `path`.
    pub fn new(path: &str) -> (loader: BmsFileLoader)
        ensures
            loader.path_view() == path@,
    {
        BmsFileLoader { path: path.to_owned() }
    }

    /// The path of the chart file.
    pub fn path(&self) -> (path: &String)
        ensures
            path@ == self.path_view(),
    {
        &self.path
    }

    /// The segments that have a record on some channel, each once, in
    /// ascending order.
    pub fn list_segment_ids(script: &BmsScript) -> (ids: Vec<u16>)
        ensures
            strictly_ascending(ids@),
            ids@.len() <= SEGMENT_LIMIT,
            forall|segment: u16|
                ids@.contains(segment) <==> segment < SEGMENT_LIMIT && script@.has_segment(
                    segment as int,
                ),
    {
        let mut ids: Vec<u16> = Vec::new();
        let mut segment: u16 = 0;
        while segment < SEGMENT_LIMIT
            invariant
                0 <= segment <= SEGMENT_LIMIT,
                strictly_ascending(ids@),
                ids@.len() <= segment,
                forall|i: int| 0 <= i < ids.len() ==> ids@[i] < segment,
                forall|s: u16| ids@.contains(s) <==> s < segment && script@.has_segment(s as int),
            decreases SEGMENT_LIMIT - segment,
        {
            if script.has_segment(segment) {
                let ghost before = ids@;
                ids.push(segment);
                assert forall|s: u16| ids@.contains(s) <==> s < segment + 1 && script@.has_segment(
                    s as int,
                ) by {
                    if ids@.contains(s) {
                        let i = choose|i: int| 0 <= i < ids@.len() && ids@[i] == s;
                        if i < before.len() {
                            assert(before.contains(s));
                        }
                    }
                    if s < segment && script@.has_segment(s as int) {
                        assert(before.contains(s));
                        let i = choose|i: int| 0 <= i < before.len() && before[i] == s;
                        assert(ids@[i] == s);
                    }
                    if s == segment {
                        assert(ids@[before.len() as int] == s);
                    }
                }
            }
            segment = segment + 1;
        }
        ids
    }

    /// Reads a tempo code: a token of two digits in base 16.
    pub fn decode(code: &[u8]) -> (value: Option<u32>)
        ensures
            value == token_value(code@, 16),
    {
        decode_radix(code, 16)
    }

    /// Reads a sample or animation id: a token of two digits in base 36.
    pub fn decode_id(code: &[u8]) -> (value: Option<u32>)
        ensures
            value == token_value(code@, 36),
    {
        decode_radix(code, 36)
    }

    /// The tokens of a data string: its bytes two by two, a last odd byte
    /// left out.
    pub fn decompose_command(commands: &[u8]) -> (tokens: Vec<&[u8]>)
        ensures
            tokens@.len() == commands@.len() / 2,
            forall|k: int| 0 <= k < tokens@.len() ==> (#[trigger] tokens@[k])@ == token_at(commands@, k),
    {
        let notes: usize = commands.len() / 2;
        let mut tokens: Vec<&[u8]> = Vec::new();
        let mut idx: usize = 0;
        while idx < notes
            invariant
                0 <= idx <= notes,
                notes == commands@.len() / 2,
                2 * notes <= commands.len(),
                tokens@.len() == idx,
                forall|k: int| 0 <= k < idx ==> (#[trigger] tokens@[k])@ == token_at(commands@, k),
            decreases notes - idx,
        {
            let from: usize = 2 * idx;
            tokens.push(slice_subrange(commands, from, from + 2));
            idx = idx + 1;
        }
        tokens
    }
}

/// The event stands at a place within its segment, and a tempo that it
/// brings is not zero.
pub open spec fn well_placed(e: BmsEvent) -> bool {
    &&& e.index < e.count
    &&& match e.event {
        BmsEventType::BpmChange(bpm) => bpm > 0,
        _ => true,
    }
}

/// Every event is well placed.
pub open spec fn all_placed(events: Seq<BmsEvent>) -> bool {
    forall|i: int| 0 <= i < events.len() ==> well_placed(#[trigger] events[i])
}

/// The lanes whose notes a chart gives, in the order in which their
/// channels are read.
pub open spec fn note_lanes() -> Seq<Key> {
    seq![
        Key::BACK_CHORUS,
        Key::P1_KEY1,
        Key::P1_KEY2,
        Key::P1_KEY3,
        Key::P1_KEY4,
        Key::P1_KEY5,
        Key::P1_KEY6,
        Key::P1_KEY7,
        Key::P1_SCRATCH,
    ]
}

/// The notes that a segment gives to a lane.
pub open spec fn lane_events(
    view: ScriptView,
    segment: int,
    key: Key,
    wav_ids: Set<u32>,
    animations: Map<u32, Vec<Image>>,
) -> Seq<BmsEvent> {
    match channel_of_key_spec(key) {
        Some(channel) => channel_events(
            view.records(segment, channel as int),
            EventSource::Note(key),
            wav_ids,
            animations,
        ),
        None => Seq::empty(),
    }
}

/// The notes that a segment gives to the first `k` lanes.
pub open spec fn lanes_events(
    view: ScriptView,
    segment: int,
    k: int,
    wav_ids: Set<u32>,
    animations: Map<u32, Vec<Image>>,
) -> Seq<BmsEvent>
    decreases k,
{
    if k <= 0 {
        Seq::empty()
    } else {
        lanes_events(view, segment, k - 1, wav_ids, animations) + lane_events(
            view,
            segment,
            note_lanes()[k - 1],
            wav_ids,
            animations,
        )
    }
}

/// The events of a segment in the order in which they are found: the bar
/// line at the segment's start, the tempo changes, the notes lane by lane,
/// and the starts of animations.
pub open spec fn segment_events(
    view: ScriptView,
    segment: int,
    wav_ids: Set<u32>,
    animations: Map<u32, Vec<Image>>,
) -> Seq<BmsEvent> {
    seq![BmsEvent { index: 0, count: 1, event: BmsEventType::Bar }] + channel_events(
        view.records(segment, TEMPO_CHANNEL as int),
        EventSource::Tempo,
        wav_ids,
        animations,
    ) + lanes_events(view, segment, note_lanes().len() as int, wav_ids, animations)
        + channel_events(
        view.records(segment, ANIMATION_CHANNEL as int),
        EventSource::Animation,
        wav_ids,
        animations,
    )
}

/// What a token gives rise to.
fn read_token(
    source: EventSource,
    token: &[u8],
    wav_ids: &HashSet<u32>,
    animations: &HashMap<u32, Vec<Image>>,
) -> (event: Option<BmsEventType>)
    ensures
        event == token_event(source, token@, wav_ids@, animations@),
{
    match source {
        EventSource::Tempo => match BmsFileLoader::decode(token) {
            Some(code) => if code > 0 {
                assert(code * BPM_SCALE <= 36 * 36 * 1000) by (nonlinear_arith)
                    requires
                        code <= 36 * 36,
                        BPM_SCALE == 1000,
                ;
                Some(BmsEventType::BpmChange(code * BPM_SCALE))
            } else {
                None
            },
            None => None,
        },
        EventSource::Note(key) => match BmsFileLoader::decode_id(token) {
            Some(id) => if id != 0 && wav_ids.contains(&id) {
                Some(BmsEventType::Key(key, SoundX { id }))
            } else {
                None
            },
            None => None,
        },
        EventSource::Animation => match BmsFileLoader::decode_id(token) {
            Some(id) => if animations.contains_key(&id) {
                Some(BmsEventType::Bga(id))
            } else {
                None
            },
            None => None,
        },
    }
}

/// What is wrong with a token, if anything.
pub fn token_problem(
    source: EventSource,
    token: &[u8],
    wav_ids: &HashSet<u32>,
    animations: &HashMap<u32, Vec<Image>>,
) -> (problem: Option<ErrorKind>)
    ensures
        problem == token_problem_spec(source, token@, wav_ids@, animations@),
{
    match source {
        EventSource::Tempo => match BmsFileLoader::decode(token) {
            Some(_) => None,
            None => Some(ErrorKind::DataError),
        },
        EventSource::Note(_) => match BmsFileLoader::decode_id(token) {
            Some(id) => if id != 0 && !wav_ids.contains(&id) {
                Some(ErrorKind::ReferenceError)
            } else {
                None
            },
            None => Some(ErrorKind::DataError),
        },
        EventSource::Animation => match BmsFileLoader::decode_id(token) {
            Some(id) => if id != 0 && !animations.contains_key(&id) {
                Some(ErrorKind::ReferenceError)
            } else {
                None
            },
            None => Some(ErrorKind::DataError),
        },
    }
}

/// What is wrong with the tokens of a data string, in their order.
pub fn record_problems(
    data: &[u8],
    source: EventSource,
    wav_ids: &HashSet<u32>,
    animations: &HashMap<u32, Vec<Image>>,
) -> (problems: Vec<TokenProblem>)
    ensures
        problems@ == tokens_problems(
            data@,
            (data@.len() / 2) as int,
            source,
            wav_ids@,
            animations@,
        ),
{
    let commands = BmsFileLoader::decompose_command(data);
    let mut problems: Vec<TokenProblem> = Vec::new();
    let mut idx: usize = 0;
    while idx < commands.len()
        invariant
            0 <= idx <= commands.len(),
            commands@.len() == data@.len() / 2,
            forall|k: int|
                0 <= k < commands@.len() ==> (#[trigger] commands@[k])@ == token_at(data@, k),
            problems@ == tokens_problems(data@, idx as int, source, wav_ids@, animations@),
        decreases commands.len() - idx,
    {
        match token_problem(source, commands[idx], wav_ids, animations) {
            Some(kind) => {
                problems.push(TokenProblem { token: idx, kind });
            },
            None => {},
        }
        idx = idx + 1;
    }
    problems
}

/// Appends the events of a data string.
fn push_record_events(
    data: &[u8],
    source: EventSource,
    wav_ids: &HashSet<u32>,
    animations: &HashMap<u32, Vec<Image>>,
    events: &mut Vec<BmsEvent>,
)
    requires
        all_placed(old(events)@),
    ensures
        final(events)@ == old(events)@ + record_events(data@, source, wav_ids@, animations@),
        all_placed(final(events)@),
{
    let commands = BmsFileLoader::decompose_command(data);
    let notes: usize = commands.len();
    if notes > 0xffff_ffff {
        assert(events@ == events@ + Seq::<BmsEvent>::empty());
        return ;
    }
    let ghost before = events@;
    let mut idx: usize = 0;
    assert(events@ == before + Seq::<BmsEvent>::empty());
    while idx < notes
        invariant
            0 <= idx <= notes <= u32::MAX,
            notes == commands@.len(),
            notes == data@.len() / 2,
            forall|k: int|
                0 <= k < commands@.len() ==> (#[trigger] commands@[k])@ == token_at(data@, k),
            events@ == before + tokens_events(
                data@,
                notes as int,
                idx as int,
                source,
                wav_ids@,
                animations@,
            ),
            all_placed(events@),
        decreases notes - idx,
    {
        let ghost so_far = tokens_events(
            data@,
            notes as int,
            idx as int,
            source,
            wav_ids@,
            animations@,
        );
        match read_token(source, commands[idx], wav_ids, animations) {
            Some(event) => {
                let placed = BmsEvent::new(idx as u32, notes as u32, event);
                events.push(placed);
                assert(events@ == before + so_far.push(placed));
            },
            None => {},
        }
        idx = idx + 1;
    }
}

/// Appends the events of the records of a channel of a segment.
fn push_channel_events(
    script: &BmsScript,
    segment: u16,
    channel: u8,
    source: EventSource,
    wav_ids: &HashSet<u32>,
    animations: &HashMap<u32, Vec<Image>>,
    events: &mut Vec<BmsEvent>,
)
    requires
        all_placed(old(events)@),
    ensures
        final(events)@ == old(events)@ + channel_events(
            script@.records(segment as int, channel as int),
            source,
            wav_ids@,
            animations@,
        ),
        all_placed(final(events)@),
{
    let records = script.records(segment, channel);
    let ghost all = byte_strings(records@);
    let ghost before = events@;
    let mut r: usize = 0;
    assert(all.take(0) == Seq::<Seq<u8>>::empty());
    assert(events@ == before + Seq::<BmsEvent>::empty());
    while r < records.len()
        invariant
            0 <= r <= records.len(),
            all == byte_strings(records@),
            events@ == before + channel_events(all.take(r as int), source, wav_ids@, animations@),
            all_placed(events@),
        decreases records.len() - r,
    {
        let ghost so_far = channel_events(all.take(r as int), source, wav_ids@, animations@);
        push_record_events(records[r].as_slice(), source, wav_ids, animations, events);
        proof {
            assert(all.take(r + 1).drop_last() == all.take(r as int));
            assert(all.take(r + 1).last() == records@[r as int]@);
            let added = record_events(records@[r as int]@, source, wav_ids@, animations@);
            assert(before + so_far + added == before + (so_far + added));
        }
        r = r + 1;
    }
    assert(all.take(r as int) == all);
}

/// The header key that gives the tempo at the start of the chart: `BPM`.
pub open spec fn bpm_key() -> Seq<u8> {
    seq![66u8, 80u8, 77u8]
}

/// Digits behind the point that a tempo keeps.
pub const BPM_PLACES: u8 = 3;

/// Digits behind the point that a segment length keeps.
pub const LENGTH_PLACES: u8 = 6;

/// The tempo at the start of the chart: the number in the header `BPM`,
/// white space at its ends aside, zero included; the default tempo where the
/// header is missing or is no number that a tempo can hold.
pub open spec fn initial_bpm(view: ScriptView) -> u32 {
    if view.headers.dom().contains(bpm_key()) {
        match fixed_point(trimmed(view.headers[bpm_key()]), BPM_PLACES as int) {
            Some(bpm) => bpm,
            None => DEFAULT_BPM,
        }
    } else {
        DEFAULT_BPM
    }
}

/// The tempo by which times are reckoned. At a tempo of zero no beat would
/// ever pass, so a tempo of zero counts as the slowest tempo that can be held:
/// one thousandth of a beat per minute.
pub open spec fn timing_bpm(bpm: u32) -> u32 {
    if bpm == 0 {
        1
    } else {
        bpm
    }
}

/// The length of a segment, in millionths of four beats: the number in the
/// last record of its length channel, white space at its ends aside; one
/// where the segment has no such record or the record holds no number that
/// a length can hold.
pub open spec fn segment_length(view: ScriptView, segment: int) -> u32 {
    let records = view.records(segment, LENGTH_CHANNEL as int);
    if records.len() > 0 {
        match fixed_point(trimmed(records.last()), LENGTH_PLACES as int) {
            Some(length) => length,
            None => LENGTH_SCALE,
        }
    } else {
        LENGTH_SCALE
    }
}

/// How far a chart has been resolved: the time at which the next segment
/// starts, the tempo that holds there, and the chart so far.
pub struct ResolveState {
    pub head: int,
    pub bpm: int,
    pub chart: ChartView,
}

/// The state after one more segment: its events, put in the order of their
/// places without changing the order of those at one place, are given their
/// times from the segment's start on, and the segment ends where its whole
/// length has passed at the tempo that then holds.
pub open spec fn segment_resolved(
    state: ResolveState,
    view: ScriptView,
    segment: int,
    wav_ids: Set<u32>,
    animations: Map<u32, Vec<Image>>,
) -> ResolveState {
    let length = segment_length(view, segment) as int;
    let events = stable_sorted(segment_events(view, segment, wav_ids, animations));
    let start = WalkState {
        anchor: Anchor { index: 0, count: 1, time: state.head, bpm: state.bpm },
        chart: state.chart,
    };
    let w = walked(start, length, events, events.len() as int, animations);
    ResolveState { head: event_time(w.anchor, length, 1, 1), bpm: w.anchor.bpm, chart: w.chart }
}

/// The chart before its first segment: no time has passed, and the only
/// entry is the tempo at the start, as it was read. Times are reckoned by
/// that tempo, and by the slowest tempo where it is zero.
pub open spec fn resolve_start(view: ScriptView) -> ResolveState {
    ResolveState {
        head: 0,
        bpm: timing_bpm(initial_bpm(view)) as int,
        chart: ChartView {
            sounds: Seq::empty(),
            bars: Seq::empty(),
            bpms: seq![BpmChange { timing: 0, bpm: initial_bpm(view) }],
            bga: Seq::empty(),
        },
    }
}

/// The state after the segments with an id below `bound`, taken in
/// ascending order of id. An id without a record is no segment and takes
/// no time.
pub open spec fn resolved_upto(
    view: ScriptView,
    bound: int,
    wav_ids: Set<u32>,
    animations: Map<u32, Vec<Image>>,
) -> ResolveState
    decreases bound,
{
    if bound <= 0 {
        resolve_start(view)
    } else {
        let before = resolved_upto(view, bound - 1, wav_ids, animations);
        if view.has_segment(bound - 1) {
            segment_resolved(before, view, bound - 1, wav_ids, animations)
        } else {
            before
        }
    }
}

/// The chart that a script resolves to, given the ids of the declared
/// samples and the frames of the declared animations.
pub open spec fn resolved_chart(
    view: ScriptView,
    wav_ids: Set<u32>,
    animations: Map<u32, Vec<Image>>,
) -> ChartView {
    resolved_upto(view, SEGMENT_LIMIT as int, wav_ids, animations).chart
}

/// Ids without a record change nothing.
pub proof fn lemma_resolved_skip(
    view: ScriptView,
    from: int,
    to: int,
    wav_ids: Set<u32>,
    animations: Map<u32, Vec<Image>>,
)
    requires
        0 <= from <= to,
        forall|s: int| from <= s < to ==> !view.has_segment(s),
    ensures
        resolved_upto(view, to, wav_ids, animations) == resolved_upto(
            view,
            from,
            wav_ids,
            animations,
        ),
    decreases to - from,
{
    if from < to {
        lemma_resolved_skip(view, from, to - 1, wav_ids, animations);
    }
}

/// Ticks that a segment lasts at most.
pub const SEGMENT_TICKS_MAX: u64 = 1_030_792_150_800_000;

/// The lanes whose notes a chart gives, in the order in which their
/// channels are read.
fn note_lane_list() -> (lanes: Vec<Key>)
    ensures
        lanes@ == note_lanes(),
{
    vec![
        Key::BACK_CHORUS,
        Key::P1_KEY1,
        Key::P1_KEY2,
        Key::P1_KEY3,
        Key::P1_KEY4,
        Key::P1_KEY5,
        Key::P1_KEY6,
        Key::P1_KEY7,
        Key::P1_SCRATCH,
    ]
}

impl BmsFileLoader {
    /// The tempo at the start of the chart.
    pub fn initial_bpm(script: &BmsScript) -> (bpm: u32)
        ensures
            bpm == initial_bpm(script@),
    {
        let mut key: Vec<u8> = Vec::new();
        key.push(66);
        key.push(80);
        key.push(77);
        assert(key@ == bpm_key());
        match script.get_header(key.as_slice()) {
            Some(value) => match parse_fixed(trim(value.as_slice()), BPM_PLACES) {
                Some(bpm) => bpm,
                None => DEFAULT_BPM,
            },
            None => DEFAULT_BPM,
        }
    }

    /// The length of a segment, in millionths of four beats.
    pub fn segment_length(script: &BmsScript, segment: u16) -> (length: u32)
        ensures
            length == segment_length(script@, segment as int),
    {
        let records = script.records(segment, LENGTH_CHANNEL);
        if records.len() > 0 {
            let last = &records[records.len() - 1];
            assert(byte_strings(records@).last() == last@);
            match parse_fixed(trim(last.as_slice()), LENGTH_PLACES) {
                Some(length) => length,
                None => LENGTH_SCALE,
            }
        } else {
            LENGTH_SCALE
        }
    }

    /// The events of a segment in the order in which they are found.
    pub fn segment_events(
        script: &BmsScript,
        segment: u16,
        wav_ids: &HashSet<u32>,
        animations: &HashMap<u32, Vec<Image>>,
    ) -> (events: Vec<BmsEvent>)
        ensures
            events@ == segment_events(script@, segment as int, wav_ids@, animations@),
            all_placed(events@),
    {
        let mut events: Vec<BmsEvent> = Vec::new();
        events.push(BmsEvent::new(0, 1, BmsEventType::Bar));
        push_channel_events(
            script,
            segment,
            TEMPO_CHANNEL,
            EventSource::Tempo,
            wav_ids,
            animations,
            &mut events,
        );
        let ghost head = events@;
        let lanes = note_lane_list();
        let mut k: usize = 0;
        assert(events@ == head + Seq::<BmsEvent>::empty());
        while k < lanes.len()
            invariant
                0 <= k <= lanes.len(),
                lanes@ == note_lanes(),
                all_placed(events@),
                events@ == head + lanes_events(
                    script@,
                    segment as int,
                    k as int,
                    wav_ids@,
                    animations@,
                ),
            decreases lanes.len() - k,
        {
            let key = lanes[k];
            let ghost so_far = lanes_events(
                script@,
                segment as int,
                k as int,
                wav_ids@,
                animations@,
            );
            match channel_of_key(key) {
                Some(channel) => {
                    push_channel_events(
                        script,
                        segment,
                        channel,
                        EventSource::Note(key),
                        wav_ids,
                        animations,
                        &mut events,
                    );
                },
                None => {
                    assert(events@ == events@ + Seq::<BmsEvent>::empty());
                },
            }
            proof {
                let added = lane_events(script@, segment as int, key, wav_ids@, animations@);
                assert(head + so_far + added == head + (so_far + added));
            }
            k = k + 1;
        }
        push_channel_events(
            script,
            segment,
            ANIMATION_CHANNEL,
            EventSource::Animation,
            wav_ids,
            animations,
            &mut events,
        );
        events
    }

    /// Resolves one segment that starts at `head` with the tempo `bpm`, and
    /// appends its events to the chart. Returns the time at which the segment
    /// ends and the tempo that holds there.
    pub(crate) fn resolve_segment(
        script: &BmsScript,
        segment: u16,
        head: Time,
        bpm: u32,
        wav_ids: &HashSet<u32>,
        animations: &HashMap<u32, Vec<Image>>,
        bms: &mut Bms,
    ) -> (end: (Time, u32))
        requires
            bpm > 0,
            head + 2 * SEGMENT_TICKS_MAX <= u64::MAX,
            chart_ascending(old(bms)@, head as int),
        ensures
            (ResolveState { head: end.0 as int, bpm: end.1 as int, chart: final(bms)@ })
                == segment_resolved(
                ResolveState { head: head as int, bpm: bpm as int, chart: old(bms)@ },
                script@,
                segment as int,
                wav_ids@,
                animations@,
            ),
            head <= end.0 <= head + SEGMENT_TICKS_MAX,
            end.1 > 0,
            chart_ascending(final(bms)@, end.0 as int),
    {
        let length = BmsFileLoader::segment_length(script, segment);
        let found = BmsFileLoader::segment_events(script, segment, wav_ids, animations);
        assert(all_sortable(found@));
        let events = stable_sort(&found);
        proof {
            assert forall|i: int| 0 <= i < events@.len() implies well_placed(
                #[trigger] events@[i],
            ) by {
                assert(found@.contains(events@[i]));
            }
            assert(SEGMENT_FACTOR * length <= SEGMENT_TICKS_MAX) by (nonlinear_arith)
                requires
                    length <= u32::MAX,
                    SEGMENT_FACTOR == 240_000,
                    SEGMENT_TICKS_MAX == 1_030_792_150_800_000,
            ;
        }
        walk_events(&events, length, head, bpm, animations, bms)
    }

    /// Resolves a script into a chart: every bar line, note, tempo change and
    /// animation frame at its time. `wav_ids` are the ids of the declared
    /// samples, `animations` the frames of the declared animations.
    pub fn resolve(script: &BmsScript, wav_ids: &HashSet<u32>, animations: &HashMap<u32, Vec<Image>>) -> (bms:
        Bms)
        ensures
            bms@ == resolved_chart(script@, wav_ids@, animations@),
            bms.bpms@.len() > 0,
            bms.bpms@[0] == (BpmChange { timing: 0, bpm: initial_bpm(script@) }),
            forall|i: int| 1 <= i < bms.bpms@.len() ==> (#[trigger] bms.bpms@[i]).bpm > 0,
            chart_ascending(bms@, TIME_MAX as int),
            playable(bms@),
    {
        let segment_ids = BmsFileLoader::list_segment_ids(script);
        let initial = BmsFileLoader::initial_bpm(script);
        let mut bms = Bms {
            sounds: Vec::new(),
            bars: Vec::new(),
            bpms: Vec::new(),
            bga: Vec::new(),
        };
        bms.bpms.push(BpmChange { timing: 0, bpm: initial });
        assert(bms@.bpms == seq![BpmChange { timing: 0, bpm: initial }]);
        let mut current_bpm: u32 = if initial == 0 {
            1
        } else {
            initial
        };
        let mut segment_head: Time = 0;
        let ghost mut bound: int = 0;
        let mut i: usize = 0;
        while i < segment_ids.len()
            invariant
                0 <= i <= segment_ids.len() <= SEGMENT_LIMIT,
                strictly_ascending(segment_ids@),
                forall|segment: u16|
                    segment_ids@.contains(segment) <==> segment < SEGMENT_LIMIT
                        && script@.has_segment(segment as int),
                0 <= bound <= SEGMENT_LIMIT,
                bound == if i == 0 { 0 } else { segment_ids@[i - 1] + 1 },
                current_bpm > 0,
                segment_head <= i * SEGMENT_TICKS_MAX,
                chart_ascending(bms@, segment_head as int),
                bms.bpms@.len() > 0,
                bms.bpms@[0] == (BpmChange { timing: 0, bpm: initial_bpm(script@) }),
                (ResolveState {
                    head: segment_head as int,
                    bpm: current_bpm as int,
                    chart: bms@,
                }) == resolved_upto(script@, bound, wav_ids@, animations@),
            decreases segment_ids.len() - i,
        {
            let segment = segment_ids[i];
            proof {
                assert(segment_ids@.contains(segment));
                assert forall|s: int| bound <= s < segment implies !script@.has_segment(s) by {
                    if script@.has_segment(s) {
                        assert(segment_ids@.contains(s as u16));
                        let m = choose|m: int|
                            0 <= m < segment_ids@.len() && segment_ids@[m] == s as u16;
                        if m < i {
                            if m < i - 1 {
                                assert(segment_ids@[m] < segment_ids@[i - 1]);
                            }
                        } else if m > i {
                            assert(segment_ids@[i as int] < segment_ids@[m]);
                        }
                    }
                }
                if i > 0 {
                    assert(segment_ids@[i - 1] < segment_ids@[i as int]);
                }
                lemma_resolved_skip(script@, bound, segment as int, wav_ids@, animations@);
                assert(i * SEGMENT_TICKS_MAX <= 999 * SEGMENT_TICKS_MAX) by (nonlinear_arith)
                    requires
                        i <= 999,
                ;
            }
            let ghost before = bms.bpms@;
            let end = BmsFileLoader::resolve_segment(
                script,
                segment,
                segment_head,
                current_bpm,
                wav_ids,
                animations,
                &mut bms,
            );
            proof {
                lemma_bpms_extended(
                    resolved_upto(script@, segment as int, wav_ids@, animations@),
                    script@,
                    segment as int,
                    wav_ids@,
                    animations@,
                );
                assert((i + 1) * SEGMENT_TICKS_MAX == i * SEGMENT_TICKS_MAX + SEGMENT_TICKS_MAX)
                    by (nonlinear_arith);
                bound = segment as int + 1;
            }
            segment_head = end.0;
            current_bpm = end.1;
            i = i + 1;
        }
        proof {
            assert forall|s: int| bound <= s < SEGMENT_LIMIT implies !script@.has_segment(s) by {
                if script@.has_segment(s) {
                    assert(segment_ids@.contains(s as u16));
                    let m = choose|m: int|
                        0 <= m < segment_ids@.len() && segment_ids@[m] == s as u16;
                    if m < i - 1 {
                        assert(segment_ids@[m] < segment_ids@[i - 1]);
                    }
                }
            }
            lemma_resolved_skip(script@, bound, SEGMENT_LIMIT as int, wav_ids@, animations@);
            assert(i * SEGMENT_TICKS_MAX <= 1000 * SEGMENT_TICKS_MAX) by (nonlinear_arith)
                requires
                    i <= 1000,
            ;
            lemma_chart_ascending_later(bms@, segment_head as int, TIME_MAX as int);
            lemma_ascending_playable(bms@);
        }
        bms
    }
}

/// What a header declares: an id and the name of the file that stands for it.
pub struct Declared {
    pub id: u32,
    pub file: Vec<u8>,
}

/// The header keys that declare samples open with `WAV`.
pub open spec fn wav_prefix() -> Seq<u8> {
    seq![87u8, 65u8, 86u8]
}

/// The header keys that declare animations open with `BMP`.
pub open spec fn bmp_prefix() -> Seq<u8> {
    seq![66u8, 77u8, 80u8]
}

/// The id that a header key declares: the two digits in base 36 that
/// follow the prefix; none where the key does not open with the prefix or
/// the two bytes behind it are no such digits.
pub open spec fn declared_id(key: Seq<u8>, prefix: Seq<u8>) -> Option<u32> {
    if key.len() >= prefix.len() + 2 && key.subrange(0, prefix.len() as int) == prefix {
        token_value(key.subrange(prefix.len() as int, prefix.len() as int + 2), 36)
    } else {
        None
    }
}

/// No later command has the key of the command at `i`, so that its value
/// is the one that holds.
pub open spec fn holds_last(list: Seq<Header>, i: int) -> bool {
    forall|j: int| i < j < list.len() ==> (#[trigger] list[j]).key@ != list[i].key@
}

/// What the first `n` commands declare under a prefix, in their order:
/// the id and the value of each command whose key declares an id and whose
/// value holds.
pub open spec fn declared_upto(list: Seq<Header>, n: int, prefix: Seq<u8>) -> Seq<(u32, Seq<u8>)>
    decreases n,
{
    if n <= 0 {
        Seq::empty()
    } else {
        let before = declared_upto(list, n - 1, prefix);
        match declared_id(list[n - 1].key@, prefix) {
            Some(id) => if holds_last(list, n - 1) {
                before.push((id, list[n - 1].value@))
            } else {
                before
            },
            None => before,
        }
    }
}

/// The ids of the first `n` declarations, as a set.
pub open spec fn ids_among(declared: Seq<(u32, Seq<u8>)>, n: int) -> Set<u32>
    decreases n,
{
    if n <= 0 {
        Set::empty()
    } else {
        ids_among(declared, n - 1).insert(declared[n - 1].0)
    }
}

/// The ids and file names that a list of declarations holds.
pub open spec fn declared_view(list: Seq<Declared>) -> Seq<(u32, Seq<u8>)> {
    Seq::new(list.len(), |i: int| (list[i].id, list[i].file@))
}

impl BmsFileLoader {
    /// What the headers of a script declare under a prefix: `WAV` for the
    /// samples, `BMP` for the animations.
    pub fn declared(script: &BmsScript, prefix: &[u8]) -> (list: Vec<Declared>)
        ensures
            declared_view(list@) == declared_upto(
                script.header_list(),
                script.header_list().len() as int,
                prefix@,
            ),
    {
        let headers = script.headers();
        let mut list: Vec<Declared> = Vec::new();
        let mut i: usize = 0;
        assert(declared_view(list@) == Seq::<(u32, Seq<u8>)>::empty());
        while i < headers.len()
            invariant
                0 <= i <= headers.len(),
                headers@ == script.header_list(),
                declared_view(list@) == declared_upto(headers@, i as int, prefix@),
            decreases headers.len() - i,
        {
            let key = headers[i].key.as_slice();
            let ghost before = list@;
            if key.len() >= prefix.len() && key.len() - prefix.len() >= 2 && bytes_eq(
                vstd::slice::slice_subrange(key, 0, prefix.len()),
                prefix,
            ) {
                match BmsFileLoader::decode_id(
                    vstd::slice::slice_subrange(key, prefix.len(), prefix.len() + 2),
                ) {
                    Some(id) => {
                        let mut last: bool = true;
                        let mut j: usize = i + 1;
                        while j < headers.len() && last
                            invariant
                                i < j <= headers.len(),
                                key@ == headers@[i as int].key@,
                                last == forall|m: int|
                                    i < m < j ==> (#[trigger] headers@[m]).key@ != headers@[i as int].key@,
                            decreases headers.len() - j,
                        {
                            if bytes_eq(headers[j].key.as_slice(), key) {
                                last = false;
                            }
                            j = j + 1;
                        }
                        if last {
                            let value = &headers[i].value;
                            let file = copy_bytes(value.as_slice(), 0, value.len());
                            assert(file@ == value@);
                            list.push(Declared { id, file });
                            assert(declared_view(list@) == declared_view(before).push(
                                (id, file@),
                            ));
                        }
                    },
                    None => {},
                }
            }
            i = i + 1;
        }
        list
    }

    /// The ids of the samples that the headers of a script declare.
    pub fn sample_ids(script: &BmsScript) -> (ids: HashSet<u32>)
        ensures
            ids@ == ids_among(
                declared_upto(
                    script.header_list(),
                    script.header_list().len() as int,
                    wav_prefix(),
                ),
                declared_upto(
                    script.header_list(),
                    script.header_list().len() as int,
                    wav_prefix(),
                ).len() as int,
            ),
    {
        let mut prefix: Vec<u8> = Vec::new();
        prefix.push(87);
        prefix.push(65);
        prefix.push(86);
        assert(prefix@ == wav_prefix());
        let list = BmsFileLoader::declared(script, prefix.as_slice());
        let ghost all = declared_upto(
            script.header_list(),
            script.header_list().len() as int,
            wav_prefix(),
        );
        let mut ids: HashSet<u32> = HashSet::new();
        let mut i: usize = 0;
        while i < list.len()
            invariant
                0 <= i <= list.len(),
                declared_view(list@) == all,
                ids@ == ids_among(all, i as int),
            decreases list.len() - i,
        {
            assert(declared_view(list@)[i as int] == (list@[i as int].id, list@[i as int].file@));
            ids.insert(list[i].id);
            i = i + 1;
        }
        assert(all.len() == list@.len());
        ids
    }
}

impl SortKey for Sound {
    open spec fn sortable(self) -> bool {
        true
    }

    /// `self` comes no later than `other`.
    open spec fn ranks_le(self, other: Self) -> bool {
        self.timing <= other.timing
    }

    fn rank_le(&self, other: &Self) -> (le: bool) {
        self.timing <= other.timing
    }

    proof fn lemma_total(a: Self, b: Self) {
    }

    proof fn lemma_transitive(a: Self, b: Self, c: Self) {
    }
}

/// Number of notes in a trial chart.
pub const FIXTURE_NOTES: usize = 10000;

/// Number of bar lines in a trial chart, one at each full second.
pub const FIXTURE_BARS: usize = 1000;

/// The earliest time of a note of a trial chart: one second.
pub const FIXTURE_FROM: Time = 1_000_000;

/// The time before which every note of a trial chart comes: a thousand seconds.
pub const FIXTURE_UNTIL: Time = 1_000_000_000;

/// The lanes of a trial chart in the order in which its notes are dealt
/// to them.
pub open spec fn fixture_lanes() -> Seq<Key> {
    seq![
        Key::P1_KEY1,
        Key::P1_KEY2,
        Key::P1_KEY3,
        Key::P1_KEY4,
        Key::P1_KEY5,
        Key::P1_KEY6,
        Key::P1_KEY7,
        Key::P1_SCRATCH,
    ]
}

/// The notes of a trial chart before they are sorted: the `i`-th at the
/// `i`-th time, on the lanes in turn, all with the sample 1.
pub open spec fn fixture_notes(timings: Seq<Time>) -> Seq<Sound> {
    Seq::new(
        timings.len(),
        |i: int|
            Sound {
                key: fixture_lanes()[i % (fixture_lanes().len() as int)],
                timing: timings[i],
                wav_id: SoundX { id: 1 },
            },
    )
}

/// The trial chart of given note times and tempo changes: the notes in
/// ascending order of time, a bar line at each full second, and no
/// animation.
pub open spec fn fixture_chart(timings: Seq<Time>, bpms: Seq<BpmChange>) -> ChartView {
    ChartView {
        sounds: stable_sorted(fixture_notes(timings)),
        bars: Seq::new(FIXTURE_BARS as nat, |i: int| (i * TICKS_PER_SECOND) as u64),
        bpms,
        bga: Seq::empty(),
    }
}

/// All times lie from the earliest time of a note up to the end of a trial
/// chart.
pub open spec fn fixture_times(timings: Seq<Time>) -> bool {
    forall|i: int| 0 <= i < timings.len() ==> FIXTURE_FROM <= (#[trigger] timings[i]) < FIXTURE_UNTIL
}

/// A time drawn by chance: `rand::RngExt::random_range` on the generator
/// of the thread, `rand::rng`, with the range from `low` up to but without
/// `high`. It returns some value of that range, and stops the program
/// if the range is empty.
#[verifier::external_body]
fn random_time(low: Time, high: Time) -> (t: Time)
    requires
        low < high,
    ensures
        low <= t < high,
{
    rand::rng().random_range(low..high)
}

/// Makes charts for trials: many notes at times drawn by chance.
pub struct FixtureLoader {
    i: i32,
}

impl FixtureLoader {
    /// A maker of trial charts.
    pub fn new() -> (loader: FixtureLoader)
        ensures
            loader.counter() == 0,
    {
        FixtureLoader { i: 0 }
    }

    /// The counter of the maker.
    pub closed spec fn counter(&self) -> i32 {
        self.i
    }

    /// The trial chart of given note times and tempo changes.
    pub fn chart_of(timings: &Vec<Time>, bpms: Vec<BpmChange>) -> (bms: Bms)
        ensures
            bms@ == fixture_chart(timings@, bpms@),
    {
        let keys = Key::visible_keys();
        let mut v: Vec<Sound> = Vec::new();
        let mut i: usize = 0;
        while i < timings.len()
            invariant
                0 <= i <= timings.len(),
                keys@ == fixture_lanes(),
                v@ == fixture_notes(timings@).take(i as int),
            decreases timings.len() - i,
        {
            v.push(Sound { key: keys[i % keys.len()], timing: timings[i], wav_id: SoundX { id: 1 } });
            assert(fixture_notes(timings@).take(i + 1) == fixture_notes(timings@).take(
                i as int,
            ).push(fixture_notes(timings@)[i as int]));
            i = i + 1;
        }
        assert(fixture_notes(timings@).take(i as int) == fixture_notes(timings@));
        let sounds = stable_sort(&v);
        let mut bars: Vec<Time> = Vec::new();
        let mut x: usize = 0;
        while x < FIXTURE_BARS
            invariant
                0 <= x <= FIXTURE_BARS,
                bars@ == Seq::new(x as nat, |i: int| (i * TICKS_PER_SECOND) as u64),
            decreases FIXTURE_BARS - x,
        {
            assert(x * TICKS_PER_SECOND <= 1000 * TICKS_PER_SECOND) by (nonlinear_arith)
                requires
                    x <= 1000,
            ;
            bars.push((x as u64) * TICKS_PER_SECOND);
            assert(bars@ == Seq::new((x + 1) as nat, |i: int| (i * TICKS_PER_SECOND) as u64));
            x = x + 1;
        }
        Bms { sounds, bars, bpms, bga: Vec::new() }
    }

    /// A trial chart with the given tempo changes: ten thousand notes at
    /// times drawn by chance from the first second up to the thousandth.
    pub fn load_with(&self, bpms: Vec<BpmChange>) -> (bms: Bms)
        ensures
            exists|timings: Seq<Time>|
                #![trigger fixture_chart(timings, bpms@)]
                timings.len() == FIXTURE_NOTES && fixture_times(timings) && bms@ == fixture_chart(
                    timings,
                    bpms@,
                ),
    {
        let mut timings: Vec<Time> = Vec::new();
        let mut i: usize = 0;
        while i < FIXTURE_NOTES
            invariant
                0 <= i <= FIXTURE_NOTES,
                timings@.len() == i,
                fixture_times(timings@),
            decreases FIXTURE_NOTES - i,
        {
            timings.push(random_time(FIXTURE_FROM, FIXTURE_UNTIL));
            i = i + 1;
        }
        FixtureLoader::chart_of(&timings, bpms)
    }
}

/// The notes of a trial chart come in ascending order of time, are as
/// many as the times given, and each lies within the times of a trial chart.
pub proof fn lemma_fixture_chart(timings: Seq<Time>, bpms: Seq<BpmChange>)
    requires
        fixture_times(timings),
    ensures
        ordered(fixture_chart(timings, bpms).sounds),
        fixture_chart(timings, bpms).sounds.len() == timings.len(),
        forall|i: int|
            0 <= i < timings.len() ==> FIXTURE_FROM <= (#[trigger] fixture_chart(
                timings,
                bpms,
            ).sounds[i]).timing < FIXTURE_UNTIL,
{
    let notes = fixture_notes(timings);
    let sorted = stable_sorted(notes);
    lemma_stable_sorted(notes);
    assert forall|i: int| 0 <= i < timings.len() implies FIXTURE_FROM <= (#[trigger] sorted[i]).timing
        < FIXTURE_UNTIL by {
        assert(notes.contains(sorted[i]));
        let k = choose|k: int| 0 <= k < notes.len() && notes[k] == sorted[i];
        assert(notes[k].timing == timings[k]);
    }
}

/// A token that is wrong, by the segment, the channel, the record of the
/// channel and the token of the record, each counted from zero.
#[derive(Debug, Copy, Clone, PartialEq, Eq, Structural)]
pub struct Problem {
    pub kind: ErrorKind,
    pub segment: u16,
    pub channel: u8,
    pub record: usize,
    pub token: usize,
}

/// The wrong tokens of a record as problems of the script.
pub open spec fn placed_problems(
    found: Seq<TokenProblem>,
    segment: int,
    channel: int,
    record: int,
) -> Seq<Problem> {
    Seq::new(
        found.len(),
        |i: int|
            Problem {
                kind: found[i].kind,
                segment: segment as u16,
                channel: channel as u8,
                record: record as usize,
                token: found[i].token,
            },
    )
}

/// What is wrong with the first `n` records of a channel.
pub open spec fn channel_problems(
    records: Seq<Seq<u8>>,
    n: int,
    segment: int,
    channel: int,
    source: EventSource,
    wav_ids: Set<u32>,
    animations: Map<u32, Vec<Image>>,
) -> Seq<Problem>
    decreases n,
{
    if n <= 0 {
        Seq::empty()
    } else {
        channel_problems(records, n - 1, segment, channel, source, wav_ids, animations)
            + placed_problems(
            tokens_problems(
                records[n - 1],
                (records[n - 1].len() / 2) as int,
                source,
                wav_ids,
                animations,
            ),
            segment,
            channel,
            n - 1,
        )
    }
}

/// What is wrong with all records of a channel of a segment.
pub open spec fn records_problems(
    view: ScriptView,
    segment: int,
    channel: int,
    source: EventSource,
    wav_ids: Set<u32>,
    animations: Map<u32, Vec<Image>>,
) -> Seq<Problem> {
    channel_problems(
        view.records(segment, channel),
        view.records(segment, channel).len() as int,
        segment,
        channel,
        source,
        wav_ids,
        animations,
    )
}

/// What is wrong with the notes that a segment gives to the first `k` lanes.
pub open spec fn lanes_problems(
    view: ScriptView,
    segment: int,
    k: int,
    wav_ids: Set<u32>,
    animations: Map<u32, Vec<Image>>,
) -> Seq<Problem>
    decreases k,
{
    if k <= 0 {
        Seq::empty()
    } else {
        let before = lanes_problems(view, segment, k - 1, wav_ids, animations);
        match channel_of_key_spec(note_lanes()[k - 1]) {
            Some(channel) => before + records_problems(
                view,
                segment,
                channel as int,
                EventSource::Note(note_lanes()[k - 1]),
                wav_ids,
                animations,
            ),
            None => before,
        }
    }
}

/// What is wrong with a segment, in the order in which its channels are
/// read: the tempo changes, the notes lane by lane, and the animations.
pub open spec fn segment_problems(
    view: ScriptView,
    segment: int,
    wav_ids: Set<u32>,
    animations: Map<u32, Vec<Image>>,
) -> Seq<Problem> {
    records_problems(
        view,
        segment,
        TEMPO_CHANNEL as int,
        EventSource::Tempo,
        wav_ids,
        animations,
    ) + lanes_problems(view, segment, note_lanes().len() as int, wav_ids, animations)
        + records_problems(
        view,
        segment,
        ANIMATION_CHANNEL as int,
        EventSource::Animation,
        wav_ids,
        animations,
    )
}

/// What is wrong with the segments with an id below `bound`.
pub open spec fn script_problems(
    view: ScriptView,
    bound: int,
    wav_ids: Set<u32>,
    animations: Map<u32, Vec<Image>>,
) -> Seq<Problem>
    decreases bound,
{
    if bound <= 0 {
        Seq::empty()
    } else {
        script_problems(view, bound - 1, wav_ids, animations) + segment_problems(
            view,
            bound - 1,
            wav_ids,
            animations,
        )
    }
}

/// Appends what is wrong with the records of a channel of a segment.
fn push_channel_problems(
    script: &BmsScript,
    segment: u16,
    channel: u8,
    source: EventSource,
    wav_ids: &HashSet<u32>,
    animations: &HashMap<u32, Vec<Image>>,
    problems: &mut Vec<Problem>,
)
    ensures
        final(problems)@ == old(problems)@ + records_problems(
            script@,
            segment as int,
            channel as int,
            source,
            wav_ids@,
            animations@,
        ),
{
    let records = script.records(segment, channel);
    let ghost all = byte_strings(records@);
    let ghost before = problems@;
    let mut r: usize = 0;
    assert(problems@ == before + Seq::<Problem>::empty());
    while r < records.len()
        invariant
            0 <= r <= records.len(),
            all == byte_strings(records@),
            all == script@.records(segment as int, channel as int),
            problems@ == before + channel_problems(
                all,
                r as int,
                segment as int,
                channel as int,
                source,
                wav_ids@,
                animations@,
            ),
        decreases records.len() - r,
    {
        let ghost so_far = channel_problems(
            all,
            r as int,
            segment as int,
            channel as int,
            source,
            wav_ids@,
            animations@,
        );
        let found = record_problems(records[r].as_slice(), source, wav_ids, animations);
        let ghost placed = placed_problems(found@, segment as int, channel as int, r as int);
        let ghost start = problems@;
        let mut i: usize = 0;
        assert(problems@ == start + placed.take(0));
        while i < found.len()
            invariant
                0 <= i <= found.len(),
                placed == placed_problems(found@, segment as int, channel as int, r as int),
                problems@ == start + placed.take(i as int),
            decreases found.len() - i,
        {
            let wrong = found[i];
            problems.push(
                Problem { kind: wrong.kind, segment, channel, record: r, token: wrong.token },
            );
            assert(placed.take(i + 1) == placed.take(i as int).push(placed[i as int]));
            i = i + 1;
        }
        proof {
            assert(placed.take(i as int) == placed);
            assert(all[r as int] == records@[r as int]@);
            assert(before + so_far + placed == before + (so_far + placed));
        }
        r = r + 1;
    }
}

/// Appends what is wrong with the notes that a segment gives to the lanes.
fn push_lanes_problems(
    script: &BmsScript,
    segment: u16,
    wav_ids: &HashSet<u32>,
    animations: &HashMap<u32, Vec<Image>>,
    problems: &mut Vec<Problem>,
)
    ensures
        final(problems)@ == old(problems)@ + lanes_problems(
            script@,
            segment as int,
            note_lanes().len() as int,
            wav_ids@,
            animations@,
        ),
{
    let lanes = note_lane_list();
    let ghost head = problems@;
    let mut k: usize = 0;
    assert(problems@ == head + Seq::<Problem>::empty());
    while k < lanes.len()
        invariant
            0 <= k <= lanes.len(),
            lanes@ == note_lanes(),
            problems@ == head + lanes_problems(
                script@,
                segment as int,
                k as int,
                wav_ids@,
                animations@,
            ),
        decreases lanes.len() - k,
    {
        let key = lanes[k];
        let ghost so_far = lanes_problems(script@, segment as int, k as int, wav_ids@, animations@);
        match channel_of_key(key) {
            Some(channel) => {
                push_channel_problems(
                    script,
                    segment,
                    channel,
                    EventSource::Note(key),
                    wav_ids,
                    animations,
                    problems,
                );
                proof {
                    let added = records_problems(
                        script@,
                        segment as int,
                        channel as int,
                        EventSource::Note(key),
                        wav_ids@,
                        animations@,
                    );
                    assert(head + so_far + added == head + (so_far + added));
                }
            },
            None => {},
        }
        k = k + 1;
    }
}

/// Appends what is wrong with a segment.
fn push_segment_problems(
    script: &BmsScript,
    segment: u16,
    wav_ids: &HashSet<u32>,
    animations: &HashMap<u32, Vec<Image>>,
    problems: &mut Vec<Problem>,
)
    ensures
        final(problems)@ == old(problems)@ + segment_problems(
            script@,
            segment as int,
            wav_ids@,
            animations@,
        ),
{
    let ghost before = problems@;
    push_channel_problems(
        script,
        segment,
        TEMPO_CHANNEL,
        EventSource::Tempo,
        wav_ids,
        animations,
        problems,
    );
    push_lanes_problems(script, segment, wav_ids, animations, problems);
    push_channel_problems(
        script,
        segment,
        ANIMATION_CHANNEL,
        EventSource::Animation,
        wav_ids,
        animations,
        problems,
    );
    proof {
        let a = records_problems(
            script@,
            segment as int,
            TEMPO_CHANNEL as int,
            EventSource::Tempo,
            wav_ids@,
            animations@,
        );
        let b = lanes_problems(
            script@,
            segment as int,
            note_lanes().len() as int,
            wav_ids@,
            animations@,
        );
        let c = records_problems(
            script@,
            segment as int,
            ANIMATION_CHANNEL as int,
            EventSource::Animation,
            wav_ids@,
            animations@,
        );
        assert(before + a + b + c == before + (a + b + c));
    }
}

impl BmsFileLoader {
    /// All tokens of a script that are wrong, each with its kind and its
    /// place, segment by segment. None of them gives an event, and none of
    /// them keeps the rest of the chart from being resolved.
    pub fn problems(script: &BmsScript, wav_ids: &HashSet<u32>, animations: &HashMap<u32, Vec<Image>>) -> (list:
        Vec<Problem>)
        ensures
            list@ == script_problems(script@, SEGMENT_LIMIT as int, wav_ids@, animations@),
    {
        let mut list: Vec<Problem> = Vec::new();
        let mut segment: u16 = 0;
        while segment < SEGMENT_LIMIT
            invariant
                0 <= segment <= SEGMENT_LIMIT,
                list@ == script_problems(script@, segment as int, wav_ids@, animations@),
            decreases SEGMENT_LIMIT - segment,
        {
            push_segment_problems(script, segment, wav_ids, animations, &mut list);
            segment = segment + 1;
        }
        list
    }
}

/// Two charts resolved from scripts of one text, with the same samples
/// and animations, are the same: each list has the same length, and holds
/// the same values in the same order.
pub proof fn lemma_resolve_repeatable(
    text: Seq<u8>,
    first_script: BmsScript,
    second_script: BmsScript,
    wav_ids: Set<u32>,
    animations: Map<u32, Vec<Image>>,
    first: Bms,
    second: Bms,
)
    requires
        first_script@ == document(text),
        second_script@ == document(text),
        first@ == resolved_chart(first_script@, wav_ids, animations),
        second@ == resolved_chart(second_script@, wav_ids, animations),
    ensures
        first.sounds@ == second.sounds@,
        first.bars@ == second.bars@,
        first.bpms@ == second.bpms@,
        first.bga@ == second.bga@,
{
}

/// A script that holds nothing but one record, on one channel of one segment.
pub open spec fn one_record_script(
    headers: Map<Seq<u8>, Seq<u8>>,
    segment: int,
    channel: int,
    data: Seq<u8>,
) -> ScriptView {
    ScriptView { headers, channels: Map::empty().insert((segment, channel), seq![data]) }
}

/// The data string writes the ids, one token each, and every id is that
/// of a declared sample.
pub open spec fn writes_samples(data: Seq<u8>, ids: Seq<u32>, wav_ids: Set<u32>) -> bool {
    &&& data.len() == 2 * ids.len()
    &&& forall|i: int|
        0 <= i < ids.len() ==> {
            &&& token_value(#[trigger] token_at(data, i), 36) == Some(ids[i])
            &&& ids[i] != 0
            &&& wav_ids.contains(ids[i])
        }
}

proof fn lemma_tokens_are_notes(
    data: Seq<u8>,
    key: Key,
    ids: Seq<u32>,
    wav_ids: Set<u32>,
    animations: Map<u32, Vec<Image>>,
    k: int,
)
    requires
        writes_samples(data, ids, wav_ids),
        0 <= k <= ids.len() <= u32::MAX,
    ensures
        tokens_events(data, ids.len() as int, k, EventSource::Note(key), wav_ids, animations)
            == Seq::new(
            k as nat,
            |i: int|
                BmsEvent {
                    index: i as u32,
                    count: ids.len() as u32,
                    event: BmsEventType::Key(key, SoundX { id: ids[i] }),
                },
        ),
    decreases k,
{
    if k > 0 {
        lemma_tokens_are_notes(data, key, ids, wav_ids, animations, k - 1);
        assert(token_value(token_at(data, k - 1), 36) == Some(ids[k - 1]));
    }
}

/// A chart of one segment of constant tempo that holds nothing but `n`
/// evenly spaced notes of one lane resolves to these notes, the `i`-th
/// `i / n` of the segment's duration after the start: with the tempo `B` in
/// beats per minute that is `i * (240 / B) / n` seconds, rounded down to a
/// tick. A tempo of zero is reckoned as the slowest tempo.
pub proof fn lemma_even_notes_resolved(
    headers: Map<Seq<u8>, Seq<u8>>,
    segment: int,
    key: Key,
    data: Seq<u8>,
    ids: Seq<u32>,
    wav_ids: Set<u32>,
    animations: Map<u32, Vec<Image>>,
)
    requires
        0 <= segment < SEGMENT_LIMIT,
        channel_of_key_spec(key).is_some(),
        0 < ids.len() <= u32::MAX,
        writes_samples(data, ids, wav_ids),
    ensures
        ({
            let view = one_record_script(
                headers,
                segment,
                channel_of_key_spec(key).unwrap() as int,
                data,
            );
            let n = ids.len() as int;
            let chart = resolved_chart(view, wav_ids, animations);
            &&& chart.sounds.len() == n
            &&& forall|i: int|
                0 <= i < n ==> #[trigger] chart.sounds[i] == (Sound {
                    key,
                    timing: ((i * SEGMENT_FACTOR * LENGTH_SCALE) / (n * timing_bpm(
                        initial_bpm(view),
                    ))) as u64,
                    wav_id: SoundX { id: ids[i] },
                })
            &&& chart.bars == seq![0u64]
            &&& chart.bpms == seq![BpmChange { timing: 0, bpm: initial_bpm(view) }]
        }),
{
    let channel = channel_of_key_spec(key).unwrap() as int;
    let view = one_record_script(headers, segment, channel, data);
    let n = ids.len() as int;
    let start = resolve_start(view);
    assert(view.channels.dom().contains((segment, channel)));
    assert(view.has_segment(segment));
    assert forall|s: int| s != segment implies !view.has_segment(s) by {
        assert forall|c: int| !#[trigger] view.channels.dom().contains((s, c)) by {}
    }
    lemma_resolved_skip(view, 0, segment, wav_ids, animations);
    lemma_resolved_skip(view, segment + 1, SEGMENT_LIMIT as int, wav_ids, animations);
    assert(resolved_upto(view, segment + 1, wav_ids, animations) == segment_resolved(
        start,
        view,
        segment,
        wav_ids,
        animations,
    ));

    assert(view.records(segment, LENGTH_CHANNEL as int) == Seq::<Seq<u8>>::empty());
    assert(view.records(segment, TEMPO_CHANNEL as int) == Seq::<Seq<u8>>::empty());
    assert(view.records(segment, ANIMATION_CHANNEL as int) == Seq::<Seq<u8>>::empty());
    assert(view.records(segment, channel) == seq![data]);
    assert(seq![data].drop_last() == Seq::<Seq<u8>>::empty());
    assert(seq![data].last() == data);

    let notes = Seq::new(
        n as nat,
        |i: int|
            BmsEvent {
                index: i as u32,
                count: n as u32,
                event: BmsEventType::Key(key, SoundX { id: ids[i] }),
            },
    );
    lemma_tokens_are_notes(data, key, ids, wav_ids, animations, n);
    assert(channel_events(seq![data], EventSource::Note(key), wav_ids, animations) == notes) by {
        let source = EventSource::Note(key);
        assert((data.len() / 2) as int == n);
        assert(record_events(data, source, wav_ids, animations) == notes);
        assert(channel_events(Seq::<Seq<u8>>::empty(), source, wav_ids, animations)
            == Seq::<BmsEvent>::empty());
        assert(channel_events(seq![data], source, wav_ids, animations) == channel_events(
            seq![data].drop_last(),
            source,
            wav_ids,
            animations,
        ) + record_events(seq![data].last(), source, wav_ids, animations));
        assert(Seq::<BmsEvent>::empty() + notes == notes);
    }
    assert forall|other: Key| other != key implies #[trigger] lane_events(
        view,
        segment,
        other,
        wav_ids,
        animations,
    ) == Seq::<BmsEvent>::empty() by {
        match channel_of_key_spec(other) {
            Some(c) => {
                assert(view.records(segment, c as int) == Seq::<Seq<u8>>::empty());
            },
            None => {},
        }
    }
    assert(lane_events(view, segment, key, wav_ids, animations) == notes);
    assert(note_lanes().len() == 9);
    assert(lanes_events(view, segment, 9, wav_ids, animations) == notes) by {
        reveal_with_fuel(lanes_events, 10);
        assert(Seq::<BmsEvent>::empty() + notes == notes);
        assert(notes + Seq::<BmsEvent>::empty() == notes);
        assert(Seq::<BmsEvent>::empty() + Seq::<BmsEvent>::empty() == Seq::<BmsEvent>::empty());
    }
    let events = segment_events(view, segment, wav_ids, animations);
    assert(events == even_notes(key, ids)) by {
        assert(events == seq![BmsEvent { index: 0, count: 1, event: BmsEventType::Bar }]
            + Seq::<BmsEvent>::empty() + notes + Seq::<BmsEvent>::empty());
        assert(events =~= even_notes(key, ids));
    }
    assert(ordered(events)) by {
        assert forall|i: int, j: int| 0 <= i <= j < events.len() implies (
        #[trigger] events[i]).ranks_le(#[trigger] events[j]) by {
            if i > 0 {
                assert((i - 1) * n <= (j - 1) * n) by (nonlinear_arith)
                    requires
                        i <= j,
                        0 < n,
                ;
            } else if j > 0 {
                assert(0 * n <= (j - 1) * 1);
            }
        }
    }
    lemma_ordered_is_sorted(events);
    let bpm = timing_bpm(initial_bpm(view)) as int;
    lemma_even_notes(start.chart, 0, bpm, LENGTH_SCALE as int, key, ids, animations);
    let w = walked(
        WalkState { anchor: Anchor { index: 0, count: 1, time: 0, bpm }, chart: start.chart },
        LENGTH_SCALE as int,
        events,
        n + 1,
        animations,
    );
    assert(segment_length(view, segment) == LENGTH_SCALE);
    assert(events.len() == n + 1);
    assert(segment_resolved(start, view, segment, wav_ids, animations).chart == w.chart);
    let chart = resolved_chart(view, wav_ids, animations);
    assert(chart == w.chart);
    assert(start.chart.sounds.len() == 0);
    assert forall|i: int| 0 <= i < n implies #[trigger] chart.sounds[i] == (Sound {
        key,
        timing: ((i * SEGMENT_FACTOR * LENGTH_SCALE) / (n * timing_bpm(initial_bpm(view)))) as u64,
        wav_id: SoundX { id: ids[i] },
    }) by {
        assert(chart.sounds[i] == w.chart.sounds[start.chart.sounds.len() + i]);
    }
    assert(chart.bars == seq![0u64]);
}

/// Taking events in only appends to the list of tempo changes.
pub proof fn lemma_walk_extends(
    state: WalkState,
    length: int,
    events: Seq<BmsEvent>,
    n: int,
    animations: Map<u32, Vec<Image>>,
)
    requires
        0 <= n <= events.len(),
    ensures
        state.chart.bpms.len() <= walked(state, length, events, n, animations).chart.bpms.len(),
        forall|i: int|
            0 <= i < state.chart.bpms.len() ==> walked(
                state,
                length,
                events,
                n,
                animations,
            ).chart.bpms[i] == state.chart.bpms[i],
    decreases n,
{
    if n > 0 {
        lemma_walk_extends(state, length, events, n - 1, animations);
    }
}

/// Resolving a segment only appends to the list of tempo changes.
pub proof fn lemma_bpms_extended(
    state: ResolveState,
    view: ScriptView,
    segment: int,
    wav_ids: Set<u32>,
    animations: Map<u32, Vec<Image>>,
)
    ensures
        state.chart.bpms.len() <= segment_resolved(
            state,
            view,
            segment,
            wav_ids,
            animations,
        ).chart.bpms.len(),
        forall|i: int|
            0 <= i < state.chart.bpms.len() ==> segment_resolved(
                state,
                view,
                segment,
                wav_ids,
                animations,
            ).chart.bpms[i] == state.chart.bpms[i],
{
    let length = segment_length(view, segment) as int;
    let events = stable_sorted(segment_events(view, segment, wav_ids, animations));
    let start = WalkState {
        anchor: Anchor { index: 0, count: 1, time: state.head, bpm: state.bpm },
        chart: state.chart,
    };
    lemma_walk_extends(start, length, events, events.len() as int, animations);
}

} // verus!
