use vstd::prelude::*;
use vstd::slice::slice_subrange;
use vstd::utf8::encode_utf8;

verus! {

/// A header command: a key and the text that follows it.
pub struct Header {
    pub key: Vec<u8>,
    pub value: Vec<u8>,
}

/// A channel record: the segment and the channel it belongs to, and its data.
pub struct ChannelRecord {
    pub segment: u16,
    pub channel: u8,
    pub data: Vec<u8>,
}

/// Number of segment ids that a chart can name: three decimal digits.
pub const SEGMENT_LIMIT: u16 = 1000;

/// Number of channel ids that a chart can name: two decimal digits.
pub const CHANNEL_LIMIT: u8 = 100;

/// What a script says: the value of each header key, and for each pair of a
/// segment and a channel its records in the order in which they were given.
/// A pair without a record is not in the map.
pub struct ScriptView {
    pub headers: Map<Seq<u8>, Seq<u8>>,
    pub channels: Map<(int, int), Seq<Seq<u8>>>,
}

impl ScriptView {
    /// The records of a channel of a segment; none where the pair is unknown.
    pub open spec fn records(self, segment: int, channel: int) -> Seq<Seq<u8>> {
        if self.channels.dom().contains((segment, channel)) {
            self.channels[(segment, channel)]
        } else {
            Seq::empty()
        }
    }

    /// The segment has a record on some channel.
    pub open spec fn has_segment(self, segment: int) -> bool {
        exists|channel: int| #[trigger] self.channels.dom().contains((segment, channel))
    }

    /// Every pair in the map has a record and lies within the ids that a chart
    /// can name.
    pub open spec fn wf(self) -> bool {
        channels_wf(self.channels)
    }
}

/// Every pair in the map has a record and lies within the ids that a chart
/// can name.
pub open spec fn channels_wf(channels: Map<(int, int), Seq<Seq<u8>>>) -> bool {
    forall|segment: int, channel: int| #[trigger]
        channels.dom().contains((segment, channel)) ==> {
            &&& 0 <= segment < SEGMENT_LIMIT
            &&& 0 <= channel < CHANNEL_LIMIT
            &&& channels[(segment, channel)].len() > 0
        }
}

/// The header map after the commands of `list`, a later one replacing an
/// earlier one with the same key.
pub open spec fn headers_map(list: Seq<Header>) -> Map<Seq<u8>, Seq<u8>>
    decreases list.len(),
{
    if list.len() == 0 {
        Map::empty()
    } else {
        headers_map(list.drop_last()).insert(list.last().key@, list.last().value@)
    }
}

/// The channel map with one more record at the end of its channel.
pub open spec fn with_record(
    channels: Map<(int, int), Seq<Seq<u8>>>,
    segment: int,
    channel: int,
    data: Seq<u8>,
) -> Map<(int, int), Seq<Seq<u8>>> {
    let before = if channels.dom().contains((segment, channel)) {
        channels[(segment, channel)]
    } else {
        Seq::empty()
    };
    channels.insert((segment, channel), before.push(data))
}

/// The channel map after the records of `list`.
pub open spec fn channels_map(list: Seq<ChannelRecord>) -> Map<(int, int), Seq<Seq<u8>>>
    decreases list.len(),
{
    if list.len() == 0 {
        Map::empty()
    } else {
        with_record(
            channels_map(list.drop_last()),
            list.last().segment as int,
            list.last().channel as int,
            list.last().data@,
        )
    }
}

/// Every record lies within the ids that a chart can name.
pub open spec fn records_in_range(list: Seq<ChannelRecord>) -> bool {
    forall|i: int|
        0 <= i < list.len() ==> (#[trigger] list[i]).segment < SEGMENT_LIMIT && list[i].channel
            < CHANNEL_LIMIT
}

/// The channel map of a list of records within range is well formed.
pub proof fn lemma_channels_map_wf(list: Seq<ChannelRecord>)
    requires
        records_in_range(list),
    ensures
        channels_wf(channels_map(list)),
    decreases list.len(),
{
    if list.len() > 0 {
        let front = list.drop_last();
        assert forall|i: int| 0 <= i < front.len() implies (#[trigger] front[i]).segment
            < SEGMENT_LIMIT && front[i].channel < CHANNEL_LIMIT by {
            assert(front[i] == list[i]);
        }
        lemma_channels_map_wf(front);
        assert(list.last() == list[list.len() - 1]);
        let before = channels_map(front);
        let after = channels_map(list);
        assert forall|segment: int, channel: int| #[trigger]
            after.dom().contains((segment, channel)) implies {
            &&& 0 <= segment < SEGMENT_LIMIT
            &&& 0 <= channel < CHANNEL_LIMIT
            &&& after[(segment, channel)].len() > 0
        } by {
            if (segment, channel) != (list.last().segment as int, list.last().channel as int) {
                assert(before.dom().contains((segment, channel)));
            }
        }
    }
}

/// A pair of a segment and a channel is in the channel map exactly if some
/// record names it.
pub proof fn lemma_channels_map_dom(list: Seq<ChannelRecord>, segment: int, channel: int)
    ensures
        channels_map(list).dom().contains((segment, channel)) <==> exists|i: int|
            0 <= i < list.len() && (#[trigger] list[i]).segment == segment && list[i].channel
                == channel,
    decreases list.len(),
{
    if list.len() > 0 {
        let front = list.drop_last();
        lemma_channels_map_dom(front, segment, channel);
        assert(forall|i: int| 0 <= i < front.len() ==> front[i] == list[i]);
        if channels_map(front).dom().contains((segment, channel)) {
            let i = choose|i: int|
                0 <= i < front.len() && (#[trigger] front[i]).segment == segment
                    && front[i].channel == channel;
            assert(list[i].segment == segment && list[i].channel == channel);
        }
        if list.last().segment == segment && list.last().channel == channel {
            assert(list[list.len() - 1].segment == segment);
        }
        if exists|i: int|
            0 <= i < list.len() && (#[trigger] list[i]).segment == segment && list[i].channel
                == channel {
            let i = choose|i: int|
                0 <= i < list.len() && (#[trigger] list[i]).segment == segment && list[i].channel
                    == channel;
            if i < front.len() {
                assert(front[i].segment == segment && front[i].channel == channel);
            }
        }
    }
}

/// The two byte strings are equal.
pub fn bytes_eq(a: &[u8], b: &[u8]) -> (same: bool)
    ensures
        same == (a@ == b@),
{
    if a.len() != b.len() {
        return false;
    }
    let mut i: usize = 0;
    while i < a.len()
        invariant
            0 <= i <= a.len(),
            a.len() == b.len(),
            a@.subrange(0, i as int) == b@.subrange(0, i as int),
        decreases a.len() - i,
    {
        if a[i] != b[i] {
            return false;
        }
        assert(a@.subrange(0, i + 1) == a@.subrange(0, i as int).push(a@[i as int]));
        assert(b@.subrange(0, i + 1) == b@.subrange(0, i as int).push(b@[i as int]));
        i = i + 1;
    }
    assert(a@ == a@.subrange(0, a.len() as int));
    assert(b@ == b@.subrange(0, b.len() as int));
    true
}

/// The bytes of `s` from `from` up to `to`, as a string of their own.
pub fn copy_bytes(s: &[u8], from: usize, to: usize) -> (part: Vec<u8>)
    requires
        from <= to <= s.len(),
    ensures
        part@ == s@.subrange(from as int, to as int),
{
    let mut part: Vec<u8> = Vec::new();
    let mut i: usize = from;
    while i < to
        invariant
            from <= i <= to <= s.len(),
            part@ == s@.subrange(from as int, i as int),
        decreases to - i,
    {
        part.push(s[i]);
        assert(s@.subrange(from as int, i + 1) == s@.subrange(from as int, i as int).push(
            s@[i as int],
        ));
        i = i + 1;
    }
    part
}

/// The byte strings that a list of byte vectors holds.
pub open spec fn byte_strings(list: Seq<Vec<u8>>) -> Seq<Seq<u8>> {
    Seq::new(list.len(), |i: int| list[i]@)
}

/// A key that no command has is not in the header map.
pub proof fn lemma_header_absent(list: Seq<Header>, key: Seq<u8>)
    requires
        forall|i: int| 0 <= i < list.len() ==> (#[trigger] list[i]).key@ != key,
    ensures
        !headers_map(list).dom().contains(key),
    decreases list.len(),
{
    if list.len() > 0 {
        let front = list.drop_last();
        assert forall|i: int| 0 <= i < front.len() implies (#[trigger] front[i]).key@ != key by {
            assert(front[i] == list[i]);
        }
        lemma_header_absent(front, key);
        assert(list.last() == list[list.len() - 1]);
    }
}

/// A key has in the header map the value of the last command that has it.
pub proof fn lemma_header_found(list: Seq<Header>, i: int, key: Seq<u8>)
    requires
        0 <= i < list.len(),
        list[i].key@ == key,
        forall|j: int| i < j < list.len() ==> (#[trigger] list[j]).key@ != key,
    ensures
        headers_map(list).dom().contains(key),
        headers_map(list)[key] == list[i].value@,
    decreases list.len(),
{
    if i < list.len() - 1 {
        let front = list.drop_last();
        assert(front[i] == list[i]);
        assert forall|j: int| i < j < front.len() implies (#[trigger] front[j]).key@ != key by {
            assert(front[j] == list[j]);
        }
        lemma_header_found(front, i, key);
        assert(list.last() == list[list.len() - 1]);
    }
}

/// A parsed chart script: its header commands and its channel records.
pub struct BmsScript {
    headers: Vec<Header>,
    channels: Vec<ChannelRecord>,
}

impl View for BmsScript {
    type V = ScriptView;

    open spec fn view(&self) -> ScriptView {
        ScriptView {
            headers: headers_map(self.header_list()),
            channels: channels_map(self.record_list()),
        }
    }
}

impl BmsScript {
    /// The header commands in the order in which they were given.
    pub closed spec fn header_list(&self) -> Seq<Header> {
        self.headers@
    }

    /// The channel records in the order in which they were given.
    pub closed spec fn record_list(&self) -> Seq<ChannelRecord> {
        self.channels@
    }

    /// Every record lies within the ids that a chart can name.
    pub open spec fn wf(&self) -> bool {
        records_in_range(self.record_list())
    }

    /// What a well-formed script says is well formed: every channel that it
    /// knows has a record and lies within the ids that a chart can name.
    pub proof fn lemma_view_wf(&self)
        requires
            self.wf(),
        ensures
            self@.wf(),
    {
        lemma_channels_map_wf(self.record_list());
    }

    /// A script without any command or record.
    pub fn new() -> (script: BmsScript)
        ensures
            script.wf(),
            script.header_list() == Seq::<Header>::empty(),
            script.record_list() == Seq::<ChannelRecord>::empty(),
            script@.headers == Map::<Seq<u8>, Seq<u8>>::empty(),
            script@.channels == Map::<(int, int), Seq<Seq<u8>>>::empty(),
    {
        BmsScript { headers: Vec::new(), channels: Vec::new() }
    }

    /// Gives `key` the value `value`, whatever it had before.
    pub fn set_header(&mut self, key: Vec<u8>, value: Vec<u8>)
        ensures
            final(self).header_list() == old(self).header_list().push(Header { key, value }),
            final(self).record_list() == old(self).record_list(),
            final(self)@.headers == old(self)@.headers.insert(key@, value@),
            final(self)@.channels == old(self)@.channels,
    {
        let ghost before = self.headers@;
        self.headers.push(Header { key, value });
        assert(self.headers@.drop_last() == before);
    }

    /// Appends a record to a channel of a segment.
    pub fn add_record(&mut self, segment: u16, channel: u8, data: Vec<u8>)
        requires
            old(self).wf(),
            segment < SEGMENT_LIMIT,
            channel < CHANNEL_LIMIT,
        ensures
            final(self).wf(),
            final(self).header_list() == old(self).header_list(),
            final(self).record_list() == old(self).record_list().push(
                ChannelRecord { segment, channel, data },
            ),
            final(self)@.headers == old(self)@.headers,
            final(self)@.channels == with_record(
                old(self)@.channels,
                segment as int,
                channel as int,
                data@,
            ),
    {
        let ghost before = self.channels@;
        self.channels.push(ChannelRecord { segment, channel, data });
        assert(self.channels@.drop_last() == before);
    }

    /// The header commands in the order in which they were given.
    pub fn headers(&self) -> (list: &Vec<Header>)
        ensures
            list@ == self.header_list(),
    {
        &self.headers
    }

    /// The channel records in the order in which they were given.
    pub fn channels(&self) -> (list: &Vec<ChannelRecord>)
        ensures
            list@ == self.record_list(),
    {
        &self.channels
    }

    /// The value of a header key, if the script gives it one.
    pub fn get_header(&self, key: &[u8]) -> (value: Option<&Vec<u8>>)
        ensures
            match value {
                Some(v) => self@.headers.dom().contains(key@) && v@ == self@.headers[key@],
                None => !self@.headers.dom().contains(key@),
            },
    {
        let mut i: usize = self.headers.len();
        while i > 0
            invariant
                0 <= i <= self.headers.len(),
                forall|j: int| i <= j < self.headers.len() ==> (#[trigger] self.headers@[j]).key@
                    != key@,
            decreases i,
        {
            i = i - 1;
            if bytes_eq(self.headers[i].key.as_slice(), key) {
                proof {
                    lemma_header_found(self.headers@, i as int, key@);
                }
                return Some(&self.headers[i].value);
            }
        }
        proof {
            lemma_header_absent(self.headers@, key@);
        }
        None
    }

    /// The value of a header key that the script gives a value.
    pub fn header(&self, key: &[u8]) -> (value: &Vec<u8>)
        requires
            self@.headers.dom().contains(key@),
        ensures
            value@ == self@.headers[key@],
    {
        match self.get_header(key) {
            Some(v) => v,
            None => vstd::pervasive::unreached(),
        }
    }

    /// The records of a channel of a segment, in the order in which they
    /// were given; none where the script has no such channel.
    pub fn records(&self, segment: u16, channel: u8) -> (list: Vec<Vec<u8>>)
        ensures
            byte_strings(list@) == self@.records(segment as int, channel as int),
    {
        let mut list: Vec<Vec<u8>> = Vec::new();
        let mut i: usize = 0;
        while i < self.channels.len()
            invariant
                0 <= i <= self.channels.len(),
                byte_strings(list@) == (ScriptView {
                    headers: Map::empty(),
                    channels: channels_map(self.channels@.take(i as int)),
                }).records(segment as int, channel as int),
            decreases self.channels.len() - i,
        {
            let record = &self.channels[i];
            let ghost before = list@;
            assert(self.channels@.take(i + 1).drop_last() == self.channels@.take(i as int));
            if record.segment == segment && record.channel == channel {
                let data = copy_bytes(record.data.as_slice(), 0, record.data.len());
                assert(data@ == record.data@);
                list.push(data);
                assert(byte_strings(list@) == byte_strings(before).push(data@));
            }
            i = i + 1;
        }
        assert(self.channels@.take(i as int) == self.channels@);
        list
    }

    /// Whether some channel of the segment has a record.
    pub fn has_segment(&self, segment: u16) -> (present: bool)
        ensures
            present == self@.has_segment(segment as int),
    {
        let mut i: usize = 0;
        while i < self.channels.len()
            invariant
                0 <= i <= self.channels.len(),
                forall|j: int| 0 <= j < i ==> (#[trigger] self.channels@[j]).segment != segment,
            decreases self.channels.len() - i,
        {
            if self.channels[i].segment == segment {
                proof {
                    let channel = self.channels@[i as int].channel as int;
                    lemma_channels_map_dom(self.channels@, segment as int, channel);
                    assert(self@.channels.dom().contains((segment as int, channel)));
                }
                return true;
            }
            i = i + 1;
        }
        proof {
            assert forall|channel: int| !#[trigger] self@.channels.dom().contains(
                (segment as int, channel),
            ) by {
                lemma_channels_map_dom(self.channels@, segment as int, channel);
            }
        }
        false
    }

    /// The records of a channel that the script has.
    pub fn channel(&self, segment: u16, channel: u8) -> (list: Vec<Vec<u8>>)
        requires
            self@.channels.dom().contains((segment as int, channel as int)),
        ensures
            byte_strings(list@) == self@.channels[(segment as int, channel as int)],
    {
        self.records(segment, channel)
    }
}

/// The byte that opens a command line: `#`.
pub const MARKER: u8 = 35;

/// The byte between the key of a channel record and its data: `:`.
pub const SEPARATOR: u8 = 58;

/// The byte that ends a line.
pub const NEWLINE: u8 = 10;

/// The byte is white space: a blank, or one of tab, line feed, vertical
/// tab, form feed and carriage return.
pub open spec fn is_space(b: u8) -> bool {
    b == 32 || (9 <= b <= 13)
}

/// The byte is a decimal digit.
pub open spec fn is_digit(b: u8) -> bool {
    48 <= b <= 57
}

/// The number that a decimal digit stands for.
pub open spec fn digit_value(b: u8) -> int {
    b - 48
}

/// The first index at or after `i` whose byte is no white space, or the
/// length of `s` where there is none.
pub open spec fn skip_spaces(s: Seq<u8>, i: int) -> int
    decreases s.len() - i,
{
    if 0 <= i < s.len() && is_space(s[i]) {
        skip_spaces(s, i + 1)
    } else {
        i
    }
}

/// The least end `j >= from` such that only white space lies between `j`
/// and `to`.
pub open spec fn drop_spaces(s: Seq<u8>, from: int, to: int) -> int
    decreases to,
{
    if 0 <= from < to <= s.len() && is_space(s[to - 1]) {
        drop_spaces(s, from, to - 1)
    } else {
        to
    }
}

/// The line without the white space at its two ends.
pub open spec fn trimmed(line: Seq<u8>) -> Seq<u8> {
    let from = skip_spaces(line, 0);
    line.subrange(from, drop_spaces(line, from, line.len() as int))
}

/// The first index at or after `i` whose byte is white space, or the
/// length of `s` where there is none.
pub open spec fn find_space(s: Seq<u8>, i: int) -> int
    decreases s.len() - i,
{
    if 0 <= i < s.len() && !is_space(s[i]) {
        find_space(s, i + 1)
    } else {
        i
    }
}

/// The line is a channel record: the marker, five digits, the separator,
/// and then its data.
pub open spec fn is_channel_line(t: Seq<u8>) -> bool {
    &&& t.len() >= 7
    &&& t[0] == MARKER
    &&& is_digit(t[1])
    &&& is_digit(t[2])
    &&& is_digit(t[3])
    &&& is_digit(t[4])
    &&& is_digit(t[5])
    &&& t[6] == SEPARATOR
}

/// The line is a header command: it opens with the marker and is no
/// channel record.
pub open spec fn is_header_line(t: Seq<u8>) -> bool {
    t.len() > 0 && t[0] == MARKER && !is_channel_line(t)
}

/// The segment that a channel record names with its first three digits.
pub open spec fn line_segment(t: Seq<u8>) -> int {
    100 * digit_value(t[1]) + 10 * digit_value(t[2]) + digit_value(t[3])
}

/// The channel that a channel record names with its last two digits.
pub open spec fn line_channel(t: Seq<u8>) -> int {
    10 * digit_value(t[4]) + digit_value(t[5])
}

/// The data of a channel record: all that follows the separator.
pub open spec fn line_data(t: Seq<u8>) -> Seq<u8> {
    t.subrange(7, t.len() as int)
}

/// The key of a header command: what stands between the marker and the
/// first white space.
pub open spec fn header_key(t: Seq<u8>) -> Seq<u8> {
    t.subrange(1, find_space(t, 1))
}

/// The value of a header command: all that follows the first white space;
/// empty where the line has none.
pub open spec fn header_value(t: Seq<u8>) -> Seq<u8> {
    let k = find_space(t, 1);
    if k < t.len() {
        t.subrange(k + 1, t.len() as int)
    } else {
        Seq::empty()
    }
}

/// The script after one more line. A channel record is appended to the
/// records of its channel, a header command sets its key, and any other
/// line, blank or comment, leaves the script as it is.
pub open spec fn line_applied(doc: ScriptView, line: Seq<u8>) -> ScriptView {
    let t = trimmed(line);
    if is_channel_line(t) {
        ScriptView {
            headers: doc.headers,
            channels: with_record(doc.channels, line_segment(t), line_channel(t), line_data(t)),
        }
    } else if is_header_line(t) {
        ScriptView { headers: doc.headers.insert(header_key(t), header_value(t)), channels: doc.channels }
    } else {
        doc
    }
}

/// The script after the rest of a text, of which the bytes before `i` have
/// been read, the line that began at `start` being still open.
pub open spec fn document_scan(text: Seq<u8>, start: int, i: int, doc: ScriptView) -> ScriptView
    decreases text.len() - i,
{
    if i >= text.len() {
        line_applied(doc, text.subrange(start, text.len() as int))
    } else if text[i] == NEWLINE {
        document_scan(text, i + 1, i + 1, line_applied(doc, text.subrange(start, i)))
    } else {
        document_scan(text, start, i + 1, doc)
    }
}

/// What a chart text says: its lines, taken in order from an empty script.
pub open spec fn document(text: Seq<u8>) -> ScriptView {
    document_scan(text, 0, 0, ScriptView { headers: Map::empty(), channels: Map::empty() })
}

proof fn lemma_skip_spaces_range(s: Seq<u8>, i: int)
    requires
        0 <= i <= s.len(),
    ensures
        i <= skip_spaces(s, i) <= s.len(),
    decreases s.len() - i,
{
    if i < s.len() && is_space(s[i]) {
        lemma_skip_spaces_range(s, i + 1);
    }
}

/// The line without the white space at its two ends.
pub fn trim(line: &[u8]) -> (t: &[u8])
    ensures
        t@ == trimmed(line@),
{
    let mut from: usize = 0;
    while from < line.len() && (line[from] == 32 || (9 <= line[from] && line[from] <= 13))
        invariant
            0 <= from <= line.len(),
            skip_spaces(line@, 0) == skip_spaces(line@, from as int),
        decreases line.len() - from,
    {
        from = from + 1;
    }
    let mut to: usize = line.len();
    while to > from && (line[to - 1] == 32 || (9 <= line[to - 1] && line[to - 1] <= 13))
        invariant
            from <= to <= line.len(),
            drop_spaces(line@, from as int, line.len() as int) == drop_spaces(
                line@,
                from as int,
                to as int,
            ),
        decreases to,
    {
        to = to - 1;
    }
    slice_subrange(line, from, to)
}

/// The first index at or after `i` whose byte is white space.
fn find_space_from(s: &[u8], i: usize) -> (k: usize)
    requires
        i <= s.len(),
    ensures
        k == find_space(s@, i as int),
        i <= k <= s.len(),
{
    let mut k: usize = i;
    while k < s.len() && !(s[k] == 32 || (9 <= s[k] && s[k] <= 13))
        invariant
            i <= k <= s.len(),
            find_space(s@, i as int) == find_space(s@, k as int),
        decreases s.len() - k,
    {
        k = k + 1;
    }
    k
}

/// Whether the trimmed line is a channel record.
fn channel_line(t: &[u8]) -> (yes: bool)
    ensures
        yes == is_channel_line(t@),
{
    if t.len() < 7 || t[0] != MARKER || t[6] != SEPARATOR {
        return false;
    }
    let mut i: usize = 1;
    while i < 6
        invariant
            1 <= i <= 6,
            t.len() >= 7,
            forall|j: int| 1 <= j < i ==> is_digit(#[trigger] t@[j]),
        decreases 6 - i,
    {
        if t[i] < 48 || t[i] > 57 {
            return false;
        }
        i = i + 1;
    }
    true
}

/// Takes one line into the script.
fn apply_line(script: &mut BmsScript, line: &[u8])
    requires
        old(script).wf(),
    ensures
        final(script).wf(),
        final(script)@ == line_applied(old(script)@, line@),
{
    let t = trim(line);
    if channel_line(t) {
        let segment: u16 = 100 * ((t[1] - 48) as u16) + 10 * ((t[2] - 48) as u16) + (t[3]
            - 48) as u16;
        let channel: u8 = 10 * (t[4] - 48) + (t[5] - 48);
        let data = copy_bytes(t, 7, t.len());
        script.add_record(segment, channel, data);
    } else if t.len() > 0 && t[0] == MARKER {
        let k = find_space_from(t, 1);
        let key = copy_bytes(t, 1, k);
        let value = if k < t.len() {
            copy_bytes(t, k + 1, t.len())
        } else {
            Vec::new()
        };
        script.set_header(key, value);
    }
}

/// Reads a chart text. No text is refused: a line that is neither a channel
/// record nor a header command is passed over.
pub fn parse_script(text: &[u8]) -> (script: BmsScript)
    ensures
        script.wf(),
        script@ == document(text@),
{
    let mut script = BmsScript::new();
    let mut start: usize = 0;
    let mut i: usize = 0;
    while i < text.len()
        invariant
            0 <= start <= i <= text.len(),
            script.wf(),
            document(text@) == document_scan(text@, start as int, i as int, script@),
        decreases text.len() - i,
    {
        if text[i] == NEWLINE {
            apply_line(&mut script, slice_subrange(text, start, i));
            start = i + 1;
        }
        i = i + 1;
    }
    apply_line(&mut script, slice_subrange(text, start, text.len()));
    script
}

/// What can go wrong with a chart. Only a source that cannot be read stops
/// the loading; all else is passed over where it stands.
#[derive(Debug, Copy, Clone, PartialEq, Eq, Structural)]
pub enum ErrorKind {
    /// The chart or one of its files cannot be read.
    IoError,
    /// A line is neither a channel record nor a header command.
    ParseError,
    /// A number cannot be read.
    DataError,
    /// A note or an animation names a sample or a picture that no header
    /// declares.
    ReferenceError,
}

/// What a line of a chart is.
#[derive(Debug, Copy, Clone, PartialEq, Eq, Structural)]
pub enum LineKind {
    /// Nothing but white space.
    Blank,
    /// A channel record.
    Record,
    /// A header command.
    Header,
    /// Anything else: a comment, passed over as a `ParseError`.
    Comment,
}

/// What a line of a chart is, white space at its ends aside.
pub open spec fn line_kind_spec(line: Seq<u8>) -> LineKind {
    let t = trimmed(line);
    if t.len() == 0 {
        LineKind::Blank
    } else if is_channel_line(t) {
        LineKind::Record
    } else if is_header_line(t) {
        LineKind::Header
    } else {
        LineKind::Comment
    }
}

/// What a line of a chart is.
pub fn line_kind(line: &[u8]) -> (kind: LineKind)
    ensures
        kind == line_kind_spec(line@),
{
    let t = trim(line);
    if t.len() == 0 {
        LineKind::Blank
    } else if channel_line(t) {
        LineKind::Record
    } else if t[0] == MARKER {
        LineKind::Header
    } else {
        LineKind::Comment
    }
}

/// Only a channel record or a header command changes a script.
pub proof fn lemma_other_lines_change_nothing(doc: ScriptView, line: Seq<u8>)
    requires
        line_kind_spec(line) == LineKind::Blank || line_kind_spec(line) == LineKind::Comment,
    ensures
        line_applied(doc, line) == doc,
{
}

/// The numbers of the comment lines in the rest of a text, of which the
/// bytes before `i` have been read, the line with the number `number`,
/// which began at `start`, being still open.
pub open spec fn comments_scan(text: Seq<u8>, start: int, i: int, number: int) -> Seq<usize>
    decreases text.len() - i,
{
    if i >= text.len() {
        if line_kind_spec(text.subrange(start, text.len() as int)) == LineKind::Comment {
            seq![number as usize]
        } else {
            Seq::empty()
        }
    } else if text[i] == NEWLINE {
        if line_kind_spec(text.subrange(start, i)) == LineKind::Comment {
            seq![number as usize] + comments_scan(text, i + 1, i + 1, number + 1)
        } else {
            comments_scan(text, i + 1, i + 1, number + 1)
        }
    } else {
        comments_scan(text, start, i + 1, number)
    }
}

/// The numbers of the lines of a text that are comments, counted from
/// zero, in ascending order: the lines that a parser passes over as
/// `ParseError`.
pub fn comment_lines(text: &[u8]) -> (lines: Vec<usize>)
    ensures
        lines@ == comments_scan(text@, 0, 0, 0),
{
    let mut lines: Vec<usize> = Vec::new();
    let mut start: usize = 0;
    let mut number: usize = 0;
    let mut i: usize = 0;
    assert(lines@ + comments_scan(text@, 0, 0, 0) == comments_scan(text@, 0, 0, 0));
    while i < text.len()
        invariant
            0 <= start <= i <= text.len(),
            number <= i,
            comments_scan(text@, 0, 0, 0) == lines@ + comments_scan(
                text@,
                start as int,
                i as int,
                number as int,
            ),
        decreases text.len() - i,
    {
        if text[i] == NEWLINE {
            let ghost before = lines@;
            let ghost rest = comments_scan(text@, i + 1, i + 1, number + 1);
            match line_kind(slice_subrange(text, start, i)) {
                LineKind::Comment => {
                    lines.push(number);
                    assert(before + (seq![number] + rest) == before.push(number) + rest);
                },
                _ => {},
            }
            start = i + 1;
            number = number + 1;
        }
        i = i + 1;
    }
    let ghost before = lines@;
    match line_kind(slice_subrange(text, start, text.len())) {
        LineKind::Comment => {
            lines.push(number);
            assert(before + seq![number] == before.push(number));
        },
        _ => {
            assert(before + Seq::<usize>::empty() == before);
        },
    }
    lines
}

/// Reads a chart from what the reading of its source gave: the text, or
/// nothing where the source could not be read. It fails with `IoError` on
/// a source that could not be read, and on no other.
pub fn parse_source(source: Option<&[u8]>) -> (result: Result<BmsScript, ErrorKind>)
    ensures
        match source {
            Some(text) => match result {
                Ok(script) => script.wf() && script@ == document(text@),
                Err(_) => false,
            },
            None => result == Err::<BmsScript, ErrorKind>(ErrorKind::IoError),
        },
{
    match source {
        Some(text) => Ok(parse_script(text)),
        None => Err(ErrorKind::IoError),
    }
}

/// Something that yields a parsed chart script.
pub trait BmsParser {
    /// Reads the chart and returns what it says.
    fn parse(&self) -> (script: BmsScript)
        ensures
            script.wf(),
    ;
}

/// Reads a chart from a text that it holds.
pub struct BmsStringParser {
    pub script: String,
}

impl BmsParser for BmsStringParser {
    /// Reads the chart text: the script says what the text says, taken as
    /// the bytes that write it.
    fn parse(&self) -> (script: BmsScript)
        ensures
            script@ == document(encode_utf8(self.script@)),
    {
        parse_script(self.script.as_str().as_bytes())
    }
}

} // verus!
