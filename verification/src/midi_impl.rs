//! Storage for one decoded song, and the per-event state machines that a
//! decoder frontend drives while walking a file: note gathering, per-track
//! and per-channel metadata, and the song header.

use vstd::prelude::*;
use crate::encode::FileMessage;
use crate::encode::note_ends_fit;
use crate::encode::write_messages;
use crate::encode::write_messages_spec;
use crate::midi::ChannelInfo;
use crate::midi::NoteAction;
use crate::midi::NoteEvent;
use crate::midi::NoteWithDuration;
use crate::midi::TrackInfo;
use crate::note::MidiNote;

verus! {

/// A channel-voice message as a decoder frontend hands it over: only the
/// variants this module reads are distinguished.
#[derive(Debug, Clone, Copy, PartialEq, Eq, Structural)]
pub enum MidiEventKind {
    NoteOn { channel: u8, note: u8, velocity: u8 },
    NoteOff { channel: u8, note: u8, velocity: u8 },
    ControlChange { channel: u8, control: u8, data: u8 },
    ProgramChange { channel: u8, program: u8 },
    Other,
}

/// A meta event as a decoder frontend hands it over.
#[derive(Debug, Clone, Copy, PartialEq, Eq, Structural)]
pub enum MetaEventKind {
    SequenceOrTrackName,
    InstrumentName,
    CopyrightNotice,
    SetTempo,
    Marker,
    TextEvent,
    EndOfTrack,
    Other,
}

/// A warning raised while gathering track and channel metadata. All of
/// these are observations, never errors.
#[derive(Debug, Clone, Copy, PartialEq, Eq, Structural)]
pub enum InfoWarning {
    /// A track was given a second name; the first one is kept.
    DuplicateTrackName { midi_track: usize },
    /// A track was given a second instrument name; the first one is kept.
    DuplicateInstrumentName { midi_track: usize },
    /// A channel's bank was set again mid-song; the first one is kept.
    BankChanged { midi_track: usize, bank: u8 },
    /// A channel's program was set again mid-song; the first one is kept.
    ProgramChanged { midi_track: usize, program: u8 },
    /// A channel saw notes but no bank select; zero is reported for it.
    MissingBank { midi_track: usize, midi_channel: u8 },
    /// A channel saw notes but no program change; zero is reported for it.
    MissingProgram { midi_track: usize, midi_channel: u8 },
}

/// The decoded contents of one song. A decoder frontend fills one of these
/// (through the handler types of this module) and everything downstream
/// reads from it.
#[derive(Debug)]
pub struct MidiImpl {
    pub track_info: Vec<TrackInfo>,
    pub channel_info: Vec<ChannelInfo>,
    pub note_events: Vec<NoteEvent>,
    pub time_base: Option<u16>,
    pub tempo: Option<u32>,
}

impl MidiImpl {
    pub fn new() -> (r: Self)
        ensures
            r.track_info@ == Seq::<TrackInfo>::empty(),
            r.channel_info@ == Seq::<ChannelInfo>::empty(),
            r.note_events@ == Seq::<NoteEvent>::empty(),
            r.time_base is None,
            r.tempo is None,
    {
        let r = Self {
            track_info: Vec::new(),
            channel_info: Vec::new(),
            note_events: Vec::new(),
            time_base: None,
            tempo: None,
        };
        proof {
            assert(r.track_info@ =~= Seq::<TrackInfo>::empty());
            assert(r.channel_info@ =~= Seq::<ChannelInfo>::empty());
            assert(r.note_events@ =~= Seq::<NoteEvent>::empty());
        }
        r
    }

    pub fn tracks(&self) -> (r: &Vec<TrackInfo>)
        ensures
            r == self.track_info,
    {
        &self.track_info
    }

    pub fn channels(&self) -> (r: &Vec<ChannelInfo>)
        ensures
            r == self.channel_info,
    {
        &self.channel_info
    }

    pub fn notes(&self) -> (r: &Vec<NoteEvent>)
        ensures
            r == self.note_events,
    {
        &self.note_events
    }

    pub fn time_base(&self) -> (r: Option<u16>)
        ensures
            r == self.time_base,
    {
        self.time_base
    }

    pub fn tempo(&self) -> (r: Option<u32>)
        ensures
            r == self.tempo,
    {
        self.tempo
    }

    /// Encodes finished intervals as the message sequence of a one-track
    /// file; the caller hands the messages, with its time base, to the file
    /// writer.
    pub fn write(notes: &Vec<NoteWithDuration>, tempo: u32) -> (r: Vec<FileMessage>)
        requires
            note_ends_fit(notes@),
        ensures
            r@ == write_messages_spec(notes@, tempo),
    {
        write_messages(notes, tempo)
    }
}

/// The note event a channel-voice message contributes at a given time on a
/// given track: a note-on with zero velocity is a release in disguise.
pub open spec fn note_event_of(kind: MidiEventKind, timestamp: u64, track: usize) -> Option<
    NoteEvent,
> {
    match kind {
        MidiEventKind::NoteOn { channel, note, velocity } => Some(
            NoteEvent {
                timestamp,
                track,
                channel,
                note: MidiNote { value: note },
                action: if velocity == 0 {
                    NoteAction::Off
                } else {
                    NoteAction::On
                },
            },
        ),
        MidiEventKind::NoteOff { channel, note, velocity } => Some(
            NoteEvent {
                timestamp,
                track,
                channel,
                note: MidiNote { value: note },
                action: NoteAction::Off,
            },
        ),
        _ => None,
    }
}

/// Gathers the note events of a file, one decoder callback at a time:
/// accumulates delta times into absolute ticks, restarts the clock at each
/// track change, and normalizes zero-velocity presses to releases.
pub struct NotesHandler {
    pub timestamp: u64,
    pub track: usize,
    pub events: Vec<NoteEvent>,
    pub headers_finished: bool,
}

impl NotesHandler {
    pub fn new() -> (r: Self)
        ensures
            r.timestamp == 0,
            r.track == 0,
            r.events@ == Seq::<NoteEvent>::empty(),
            !r.headers_finished,
    {
        let r = Self { timestamp: 0, track: 0, events: Vec::new(), headers_finished: false };
        proof {
            assert(r.events@ =~= Seq::<NoteEvent>::empty());
        }
        r
    }

    /// A meta event only advances the clock here.
    pub fn meta_event(&mut self, delta_time: u32)
        requires
            old(self).timestamp + delta_time <= u64::MAX,
        ensures
            final(self).timestamp == old(self).timestamp + delta_time,
            final(self).track == old(self).track,
            final(self).events@ == old(self).events@,
            final(self).headers_finished == old(self).headers_finished,
    {
        self.timestamp = self.timestamp + delta_time as u64;
    }

    /// So does a system-exclusive event.
    pub fn sys_ex_event(&mut self, delta_time: u32)
        requires
            old(self).timestamp + delta_time <= u64::MAX,
        ensures
            final(self).timestamp == old(self).timestamp + delta_time,
            final(self).track == old(self).track,
            final(self).events@ == old(self).events@,
            final(self).headers_finished == old(self).headers_finished,
    {
        self.timestamp = self.timestamp + delta_time as u64;
    }

    /// A channel-voice event advances the clock and, for a note message,
    /// appends the normalized note event.
    pub fn midi_event(&mut self, delta_time: u32, event: MidiEventKind)
        requires
            old(self).timestamp + delta_time <= u64::MAX,
            event matches MidiEventKind::NoteOn { note, .. } ==> note <= 127,
            event matches MidiEventKind::NoteOff { note, .. } ==> note <= 127,
        ensures
            final(self).timestamp == old(self).timestamp + delta_time,
            final(self).track == old(self).track,
            final(self).headers_finished == old(self).headers_finished,
            final(self).events@ == (match note_event_of(
                event,
                (old(self).timestamp + delta_time) as u64,
                old(self).track,
            ) {
                Some(e) => old(self).events@.push(e),
                None => old(self).events@,
            }),
    {
        self.timestamp = self.timestamp + delta_time as u64;
        match event {
            MidiEventKind::NoteOn { channel, note, velocity } => {
                let action = if velocity == 0 {
                    NoteAction::Off
                } else {
                    NoteAction::On
                };
                self.events.push(
                    NoteEvent {
                        timestamp: self.timestamp,
                        track: self.track,
                        channel,
                        note: MidiNote { value: note },
                        action,
                    },
                );
            },
            MidiEventKind::NoteOff { channel, note, velocity: _ } => {
                self.events.push(
                    NoteEvent {
                        timestamp: self.timestamp,
                        track: self.track,
                        channel,
                        note: MidiNote { value: note },
                        action: NoteAction::Off,
                    },
                );
            },
            _ => {},
        }
    }

    /// The first track-change callback ends the header; each later one
    /// starts the next track and restarts the clock.
    pub fn track_change(&mut self)
        requires
            old(self).track < usize::MAX,
        ensures
            final(self).events@ == old(self).events@,
            old(self).headers_finished ==> final(self).track == old(self).track + 1
                && final(self).timestamp == 0 && final(self).headers_finished,
            !old(self).headers_finished ==> final(self).track == old(self).track
                && final(self).timestamp == old(self).timestamp && final(self).headers_finished,
    {
        if self.headers_finished {
            self.track = self.track + 1;
            self.timestamp = 0;
        } else {
            self.headers_finished = true;
        }
    }
}

/// The tempo bytes of a set-tempo meta event read big-endian, with the
/// same 32-bit truncation the byte-shifting loop of a decoder applies.
pub open spec fn tempo_of(data: Seq<u8>) -> nat
    decreases data.len(),
{
    if data.len() == 0 {
        0
    } else {
        ((tempo_of(data.drop_last()) % 0x100_0000) * 256 + data.last()) as nat
    }
}

/// Records the song-wide header data: the time base (ticks per beat) and
/// the tempo (microseconds per beat).
pub struct SongInfoHandler {
    pub time_base: Option<u16>,
    pub tempo: Option<u32>,
}

impl SongInfoHandler {
    pub fn new() -> (r: Self)
        ensures
            r.time_base is None,
            r.tempo is None,
    {
        Self { time_base: None, tempo: None }
    }

    /// The header's division, kept only when it is metrical (ticks per
    /// beat); a zero here means an unsupported timecode-based file.
    pub fn header(&mut self, time_base: u16)
        ensures
            final(self).time_base == if time_base > 0 {
                Some(time_base)
            } else {
                old(self).time_base
            },
            final(self).tempo == old(self).tempo,
    {
        if time_base > 0 {
            self.time_base = Some(time_base);
        }
    }

    /// A set-tempo meta event replaces the tempo; the result says whether
    /// one was already set, since later tempo changes are not supported and
    /// the caller may want to observe that. Other meta events are not this
    /// handler's business.
    pub fn meta_event(&mut self, event: MetaEventKind, data: &[u8]) -> (replaced: bool)
        ensures
            event is SetTempo ==> final(self).tempo == Some(tempo_of(data@) as u32) && replaced
                == old(self).tempo is Some,
            !(event is SetTempo) ==> final(self).tempo == old(self).tempo && !replaced,
            final(self).time_base == old(self).time_base,
    {
        match event {
            MetaEventKind::SetTempo => {
                let replaced = self.tempo.is_some();
                let mut micros: u32 = 0;
                let mut i: usize = 0;
                while i < data.len()
                    invariant
                        i <= data@.len(),
                        micros == tempo_of(data@.take(i as int)),
                    decreases data@.len() - i,
                {
                    let b = data[i];
                    proof {
                        assert(data@.take(i + 1).drop_last() =~= data@.take(i as int));
                        assert(data@.take(i + 1).last() == data@[i as int]);
                    }
                    micros = (micros % 0x100_0000) * 256 + b as u32;
                    i = i + 1;
                }
                proof {
                    assert(data@.take(data@.len() as int) =~= data@);
                }
                self.tempo = Some(micros);
                replaced
            },
            _ => false,
        }
    }
}

/// The text of an `Option<String>`, for contracts that compare names
/// without constructing strings.
pub open spec fn opt_str_view(o: Option<String>) -> Option<Seq<char>> {
    match o {
        Some(s) => Some(s@),
        None => None,
    }
}

/// Gives the decoded text of a meta event's data a name: the result of
/// lossy UTF-8 decoding depends on the bytes alone.
pub uninterp spec fn lossy_utf8(bytes: Seq<u8>) -> Seq<char>;

/// Relies on `String::from_utf8_lossy`: the decoded text is a function of
/// the bytes alone, and decoding no bytes gives no text.
#[verifier::external_body]
fn utf8_lossy(data: &[u8]) -> (r: String)
    ensures
        r@ == lossy_utf8(data@),
        data@.len() == 0 ==> r@.len() == 0,
{
    String::from_utf8_lossy(data).into_owned()
}

/// Name and instrument gathered for one track, keyed by track index.
#[derive(Debug)]
pub struct TrackName {
    pub midi_track: usize,
    pub name: Option<String>,
    pub instrument: Option<String>,
}

/// Bank and program gathered for one (track, channel) pair.
#[derive(Debug, Clone, Copy, PartialEq, Eq, Structural)]
pub struct ChannelName {
    pub midi_track: usize,
    pub midi_channel: u8,
    pub bank: Option<u8>,
    pub program: Option<u8>,
}

/// Strict order on (track, channel) keys.
pub open spec fn chan_key_lt(t1: usize, c1: u8, t2: usize, c2: u8) -> bool {
    t1 < t2 || (t1 == t2 && c1 < c2)
}

/// Whether the table holds an entry for (track, channel), and its position
/// (unique while the table is sorted).
pub open spec fn has_chan(channels: Seq<ChannelName>, t: usize, c: u8) -> bool {
    exists|i: int|
        0 <= i < channels.len() && (#[trigger] channels[i]).midi_track == t
            && channels[i].midi_channel == c
}

pub open spec fn chan_idx(channels: Seq<ChannelName>, t: usize, c: u8) -> int {
    choose|i: int|
        0 <= i < channels.len() && (#[trigger] channels[i]).midi_track == t
            && channels[i].midi_channel == c
}

/// Whether the last gathered track entry is the current track's.
pub open spec fn has_cur_track(tracks: Seq<TrackName>, track: usize) -> bool {
    tracks.len() > 0 && tracks.last().midi_track == track
}

/// The current track's name before an update, `None` when no entry exists.
pub open spec fn pre_track_name(tracks: Seq<TrackName>, track: usize) -> Option<Seq<char>> {
    if has_cur_track(tracks, track) {
        opt_str_view(tracks.last().name)
    } else {
        None
    }
}

pub open spec fn pre_track_instrument(tracks: Seq<TrackName>, track: usize) -> Option<Seq<char>> {
    if has_cur_track(tracks, track) {
        opt_str_view(tracks.last().instrument)
    } else {
        None
    }
}

/// How many leading track entries an update leaves untouched.
pub open spec fn kept_tracks(tracks: Seq<TrackName>, track: usize) -> int {
    if has_cur_track(tracks, track) {
        tracks.len() - 1
    } else {
        tracks.len() as int
    }
}

/// The reported info of one gathered channel entry: missing bank or
/// program fall back to zero (and draw a warning).
pub open spec fn channel_info_of(c: ChannelName) -> ChannelInfo {
    ChannelInfo {
        midi_track: c.midi_track,
        midi_channel: c.midi_channel,
        bank: match c.bank {
            Some(b) => b,
            None => 0,
        },
        program: match c.program {
            Some(p) => p,
            None => 0,
        },
    }
}

/// The warnings one gathered channel entry draws when reported.
pub open spec fn channel_warnings_of(c: ChannelName) -> Seq<InfoWarning> {
    (if c.bank is None {
        seq![InfoWarning::MissingBank { midi_track: c.midi_track, midi_channel: c.midi_channel }]
    } else {
        Seq::empty()
    }) + (if c.program is None {
        seq![
            InfoWarning::MissingProgram { midi_track: c.midi_track, midi_channel: c.midi_channel },
        ]
    } else {
        Seq::empty()
    })
}

/// The warnings of a whole channel table, in table order.
pub open spec fn all_channel_warnings(s: Seq<ChannelName>) -> Seq<InfoWarning>
    decreases s.len(),
{
    if s.len() == 0 {
        Seq::empty()
    } else {
        all_channel_warnings(s.drop_last()) + channel_warnings_of(s.last())
    }
}

/// Gathers per-track names and per-channel bank/program settings, one
/// decoder callback at a time. Both tables are kept sorted by key and free
/// of duplicates; the current track's entry, when it exists, is the last
/// one, since track indices only grow.
pub struct ChannelInfoHandler {
    pub track: usize,
    pub headers_finished: bool,
    pub tracks: Vec<TrackName>,
    pub channels: Vec<ChannelName>,
    pub warnings: Vec<InfoWarning>,
}

impl ChannelInfoHandler {
    pub open spec fn wf(&self) -> bool {
        &&& forall|i: int, j: int|
            0 <= i < j < self.tracks@.len() ==> (#[trigger] self.tracks@[i]).midi_track < (
            #[trigger] self.tracks@[j]).midi_track
        &&& forall|i: int|
            0 <= i < self.tracks@.len() ==> (#[trigger] self.tracks@[i]).midi_track <= self.track
        &&& forall|i: int, j: int|
            0 <= i < j < self.channels@.len() ==> chan_key_lt(
                (#[trigger] self.channels@[i]).midi_track,
                self.channels@[i].midi_channel,
                (#[trigger] self.channels@[j]).midi_track,
                self.channels@[j].midi_channel,
            )
        &&& forall|i: int|
            0 <= i < self.channels@.len() ==> (#[trigger] self.channels@[i]).midi_track
                <= self.track
    }

    pub fn new() -> (r: Self)
        ensures
            r.wf(),
            r.track == 0,
            !r.headers_finished,
            r.tracks@ == Seq::<TrackName>::empty(),
            r.channels@ == Seq::<ChannelName>::empty(),
            r.warnings@ == Seq::<InfoWarning>::empty(),
    {
        let r = Self {
            track: 0,
            headers_finished: false,
            tracks: Vec::new(),
            channels: Vec::new(),
            warnings: Vec::new(),
        };
        proof {
            assert(r.tracks@ =~= Seq::<TrackName>::empty());
            assert(r.channels@ =~= Seq::<ChannelName>::empty());
            assert(r.warnings@ =~= Seq::<InfoWarning>::empty());
        }
        r
    }

    /// Any meta event creates the current track's entry; a name or an
    /// instrument-name event fills the respective field, the first writer
    /// winning and later ones drawing a warning.
    pub fn meta_event(&mut self, event: MetaEventKind, data: &[u8])
        requires
            old(self).wf(),
        ensures
            final(self).wf(),
            final(self).track == old(self).track,
            final(self).headers_finished == old(self).headers_finished,
            final(self).channels@ == old(self).channels@,
            final(self).tracks@.len() == kept_tracks(old(self).tracks@, old(self).track) + 1,
            forall|i: int|
                0 <= i < kept_tracks(old(self).tracks@, old(self).track) ==> final(self).tracks@[i]
                    == old(self).tracks@[i],
            final(self).tracks@.last().midi_track == old(self).track,
            opt_str_view(final(self).tracks@.last().name) == (if event is SequenceOrTrackName
                && pre_track_name(old(self).tracks@, old(self).track) is None {
                Some(lossy_utf8(data@))
            } else {
                pre_track_name(old(self).tracks@, old(self).track)
            }),
            opt_str_view(final(self).tracks@.last().instrument) == (if event is InstrumentName
                && pre_track_instrument(old(self).tracks@, old(self).track) is None {
                Some(lossy_utf8(data@))
            } else {
                pre_track_instrument(old(self).tracks@, old(self).track)
            }),
            final(self).warnings@ == (if event is SequenceOrTrackName && pre_track_name(
                old(self).tracks@,
                old(self).track,
            ) is Some {
                old(self).warnings@.push(
                    InfoWarning::DuplicateTrackName { midi_track: old(self).track },
                )
            } else if event is InstrumentName && pre_track_instrument(
                old(self).tracks@,
                old(self).track,
            ) is Some {
                old(self).warnings@.push(
                    InfoWarning::DuplicateInstrumentName { midi_track: old(self).track },
                )
            } else {
                old(self).warnings@
            }),
    {
        let n = self.tracks.len();
        let mut entry: TrackName = if n > 0 {
            let last_track = self.tracks[n - 1].midi_track;
            if last_track == self.track {
                self.tracks.pop().unwrap()
            } else {
                TrackName { midi_track: self.track, name: None, instrument: None }
            }
        } else {
            TrackName { midi_track: self.track, name: None, instrument: None }
        };
        match event {
            MetaEventKind::SequenceOrTrackName => {
                if entry.name.is_none() {
                    entry.name = Some(utf8_lossy(data));
                } else {
                    self.warnings.push(
                        InfoWarning::DuplicateTrackName { midi_track: self.track },
                    );
                }
            },
            MetaEventKind::InstrumentName => {
                if entry.instrument.is_none() {
                    entry.instrument = Some(utf8_lossy(data));
                } else {
                    self.warnings.push(
                        InfoWarning::DuplicateInstrumentName { midi_track: self.track },
                    );
                }
            },
            _ => {},
        }
        self.tracks.push(entry);
    }

    /// Where the current track's entry for `channel` sits, or where it
    /// would have to be inserted to keep the table sorted.
    fn channel_slot(&self, channel: u8) -> (r: (usize, bool))
        requires
            self.wf(),
        ensures
            r.1 <==> has_chan(self.channels@, self.track, channel),
            r.1 ==> r.0 < self.channels@.len() && r.0 == chan_idx(
                self.channels@,
                self.track,
                channel,
            ),
            !r.1 ==> r.0 <= self.channels@.len() && (forall|i: int|
                0 <= i < r.0 ==> chan_key_lt(
                    (#[trigger] self.channels@[i]).midi_track,
                    self.channels@[i].midi_channel,
                    self.track,
                    channel,
                )) && (forall|i: int|
                r.0 <= i < self.channels@.len() ==> chan_key_lt(
                    self.track,
                    channel,
                    (#[trigger] self.channels@[i]).midi_track,
                    self.channels@[i].midi_channel,
                )),
    {
        let mut i: usize = 0;
        while i < self.channels.len()
            invariant
                self.wf(),
                i <= self.channels@.len(),
                forall|j: int|
                    0 <= j < i ==> chan_key_lt(
                        (#[trigger] self.channels@[j]).midi_track,
                        self.channels@[j].midi_channel,
                        self.track,
                        channel,
                    ),
            decreases self.channels@.len() - i,
        {
            let c = self.channels[i];
            if c.midi_track == self.track && c.midi_channel == channel {
                proof {
                    assert(has_chan(self.channels@, self.track, channel));
                    let k = chan_idx(self.channels@, self.track, channel);
                    assert(0 <= k < self.channels@.len() && self.channels@[k].midi_track
                        == self.track && self.channels@[k].midi_channel == channel);
                    if k < i {
                        assert(chan_key_lt(
                            self.channels@[k].midi_track,
                            self.channels@[k].midi_channel,
                            self.track,
                            channel,
                        ));
                    }
                    if i < k {
                        assert(chan_key_lt(
                            self.channels@[i as int].midi_track,
                            self.channels@[i as int].midi_channel,
                            self.channels@[k].midi_track,
                            self.channels@[k].midi_channel,
                        ));
                    }
                    assert(k == i);
                }
                return (i, true);
            }
            if !(c.midi_track < self.track || (c.midi_track == self.track && c.midi_channel
                < channel)) {
                proof {
                    assert(forall|j: int|
                        i <= j < self.channels@.len() ==> i < j ==> chan_key_lt(
                            (#[trigger] self.channels@[i as int]).midi_track,
                            self.channels@[i as int].midi_channel,
                            (#[trigger] self.channels@[j]).midi_track,
                            self.channels@[j].midi_channel,
                        ));
                    assert forall|j: int| i <= j < self.channels@.len() implies chan_key_lt(
                        self.track,
                        channel,
                        (#[trigger] self.channels@[j]).midi_track,
                        self.channels@[j].midi_channel,
                    ) by {
                        if i < j {
                            assert(chan_key_lt(
                                self.channels@[i as int].midi_track,
                                self.channels@[i as int].midi_channel,
                                self.channels@[j].midi_track,
                                self.channels@[j].midi_channel,
                            ));
                        }
                    }
                    assert(!has_chan(self.channels@, self.track, channel)) by {
                        if has_chan(self.channels@, self.track, channel) {
                            let k = chan_idx(self.channels@, self.track, channel);
                            assert(0 <= k < self.channels@.len() && self.channels@[k].midi_track
                                == self.track && self.channels@[k].midi_channel == channel);
                        }
                    }
                }
                return (i, false);
            }
            i = i + 1;
        }
        proof {
            assert(!has_chan(self.channels@, self.track, channel)) by {
                if has_chan(self.channels@, self.track, channel) {
                    let k = chan_idx(self.channels@, self.track, channel);
                    assert(0 <= k < self.channels@.len() && self.channels@[k].midi_track
                        == self.track && self.channels@[k].midi_channel == channel);
                }
            }
        }
        (self.channels.len(), false)
    }

    /// A bank select records the channel's bank, a program change its
    /// program (first writer wins, later ones draw a warning), and a press
    /// makes sure the channel has an entry at all.
    pub fn midi_event(&mut self, event: MidiEventKind)
        requires
            old(self).wf(),
        ensures
            final(self).wf(),
            final(self).track == old(self).track,
            final(self).headers_finished == old(self).headers_finished,
            final(self).tracks@ == old(self).tracks@,
            ({
                let t = old(self).track;
                let chs = old(self).channels@;
                let ws = old(self).warnings@;
                match event {
                    MidiEventKind::ControlChange { channel, control, data } => if control == 0 {
                        if has_chan(chs, t, channel) {
                            let i = chan_idx(chs, t, channel);
                            if chs[i].bank is None {
                                final(self).channels@ == chs.update(
                                    i,
                                    ChannelName {
                                        midi_track: chs[i].midi_track,
                                        midi_channel: chs[i].midi_channel,
                                        bank: Some(data),
                                        program: chs[i].program,
                                    },
                                ) && final(self).warnings@ == ws
                            } else {
                                final(self).channels@ == chs && final(self).warnings@ == ws.push(
                                    InfoWarning::BankChanged { midi_track: t, bank: data },
                                )
                            }
                        } else {
                            (exists|i: int|
                                0 <= i <= chs.len() && final(self).channels@ == chs.insert(
                                    i,
                                    ChannelName {
                                        midi_track: t,
                                        midi_channel: channel,
                                        bank: Some(data),
                                        program: None,
                                    },
                                )) && final(self).warnings@ == ws
                        }
                    } else {
                        final(self).channels@ == chs && final(self).warnings@ == ws
                    },
                    MidiEventKind::ProgramChange { channel, program } => if has_chan(
                        chs,
                        t,
                        channel,
                    ) {
                        let i = chan_idx(chs, t, channel);
                        if chs[i].program is None {
                            final(self).channels@ == chs.update(
                                i,
                                ChannelName {
                                    midi_track: chs[i].midi_track,
                                    midi_channel: chs[i].midi_channel,
                                    bank: chs[i].bank,
                                    program: Some(program),
                                },
                            ) && final(self).warnings@ == ws
                        } else {
                            final(self).channels@ == chs && final(self).warnings@ == ws.push(
                                InfoWarning::ProgramChanged { midi_track: t, program },
                            )
                        }
                    } else {
                        (exists|i: int|
                            0 <= i <= chs.len() && final(self).channels@ == chs.insert(
                                i,
                                ChannelName {
                                    midi_track: t,
                                    midi_channel: channel,
                                    bank: None,
                                    program: Some(program),
                                },
                            )) && final(self).warnings@ == ws
                    },
                    MidiEventKind::NoteOn { channel, .. } => if has_chan(chs, t, channel) {
                        final(self).channels@ == chs && final(self).warnings@ == ws
                    } else {
                        (exists|i: int|
                            0 <= i <= chs.len() && final(self).channels@ == chs.insert(
                                i,
                                ChannelName {
                                    midi_track: t,
                                    midi_channel: channel,
                                    bank: None,
                                    program: None,
                                },
                            )) && final(self).warnings@ == ws
                    },
                    _ => final(self).channels@ == chs && final(self).warnings@ == ws,
                }
            }),
    {
        match event {
            MidiEventKind::ControlChange { channel, control, data } => {
                if control == 0 {
                    let (pos, found) = self.channel_slot(channel);
                    if found {
                        let cur = self.channels[pos];
                        if cur.bank.is_none() {
                            self.channels.set(
                                pos,
                                ChannelName {
                                    midi_track: cur.midi_track,
                                    midi_channel: cur.midi_channel,
                                    bank: Some(data),
                                    program: cur.program,
                                },
                            );
                        } else {
                            self.warnings.push(
                                InfoWarning::BankChanged { midi_track: self.track, bank: data },
                            );
                        }
                    } else {
                        self.channels.insert(
                            pos,
                            ChannelName {
                                midi_track: self.track,
                                midi_channel: channel,
                                bank: Some(data),
                                program: None,
                            },
                        );
                        proof {
                            lemma_insert_sorted_keeps_wf(
                                old(self).channels@,
                                self.channels@,
                                pos as int,
                                self.track,
                                channel,
                            );
                        }
                    }
                }
            },
            MidiEventKind::ProgramChange { channel, program } => {
                let (pos, found) = self.channel_slot(channel);
                if found {
                    let cur = self.channels[pos];
                    if cur.program.is_none() {
                        self.channels.set(
                            pos,
                            ChannelName {
                                midi_track: cur.midi_track,
                                midi_channel: cur.midi_channel,
                                bank: cur.bank,
                                program: Some(program),
                            },
                        );
                    } else {
                        self.warnings.push(
                            InfoWarning::ProgramChanged { midi_track: self.track, program },
                        );
                    }
                } else {
                    self.channels.insert(
                        pos,
                        ChannelName {
                            midi_track: self.track,
                            midi_channel: channel,
                            bank: None,
                            program: Some(program),
                        },
                    );
                    proof {
                        lemma_insert_sorted_keeps_wf(
                            old(self).channels@,
                            self.channels@,
                            pos as int,
                            self.track,
                            channel,
                        );
                    }
                }
            },
            MidiEventKind::NoteOn { channel, .. } => {
                let (pos, found) = self.channel_slot(channel);
                if !found {
                    self.channels.insert(
                        pos,
                        ChannelName {
                            midi_track: self.track,
                            midi_channel: channel,
                            bank: None,
                            program: None,
                        },
                    );
                    proof {
                        lemma_insert_sorted_keeps_wf(
                            old(self).channels@,
                            self.channels@,
                            pos as int,
                            self.track,
                            channel,
                        );
                    }
                }
            },
            _ => {},
        }
    }

    /// The first track-change callback ends the header; each later one
    /// starts the next track.
    pub fn track_change(&mut self)
        requires
            old(self).wf(),
            old(self).track < usize::MAX,
        ensures
            final(self).wf(),
            final(self).tracks@ == old(self).tracks@,
            final(self).channels@ == old(self).channels@,
            final(self).warnings@ == old(self).warnings@,
            old(self).headers_finished ==> final(self).track == old(self).track + 1
                && final(self).headers_finished,
            !old(self).headers_finished ==> final(self).track == old(self).track
                && final(self).headers_finished,
    {
        if self.headers_finished {
            self.track = self.track + 1;
        } else {
            self.headers_finished = true;
        }
    }

    /// The gathered per-track names, in track order.
    pub fn track_info(&self) -> (r: Vec<TrackInfo>)
        ensures
            r@.len() == self.tracks@.len(),
            forall|i: int|
                0 <= i < r@.len() ==> (#[trigger] r@[i]).midi_track == self.tracks@[i].midi_track
                    && opt_str_view(r@[i].name) == opt_str_view(self.tracks@[i].name)
                    && opt_str_view(r@[i].instrument) == opt_str_view(self.tracks@[i].instrument),
    {
        let mut r: Vec<TrackInfo> = Vec::new();
        let mut i: usize = 0;
        while i < self.tracks.len()
            invariant
                i <= self.tracks@.len(),
                r@.len() == i,
                forall|j: int|
                    0 <= j < i ==> (#[trigger] r@[j]).midi_track == self.tracks@[j].midi_track
                        && opt_str_view(r@[j].name) == opt_str_view(self.tracks@[j].name)
                        && opt_str_view(r@[j].instrument) == opt_str_view(
                        self.tracks@[j].instrument,
                    ),
            decreases self.tracks@.len() - i,
        {
            let t = &self.tracks[i];
            r.push(
                TrackInfo {
                    midi_track: t.midi_track,
                    name: clone_opt_string(&t.name),
                    instrument: clone_opt_string(&t.instrument),
                },
            );
            i = i + 1;
        }
        r
    }

    /// The gathered per-channel info, in key order, with zero filled in for
    /// a missing bank or program and a warning for each such gap.
    pub fn channel_info(&self) -> (r: (Vec<ChannelInfo>, Vec<InfoWarning>))
        ensures
            r.0@.len() == self.channels@.len(),
            forall|i: int|
                0 <= i < r.0@.len() ==> r.0@[i] == channel_info_of(#[trigger] self.channels@[i]),
            r.1@ == all_channel_warnings(self.channels@),
    {
        let mut out: Vec<ChannelInfo> = Vec::new();
        let mut warns: Vec<InfoWarning> = Vec::new();
        let mut i: usize = 0;
        proof {
            assert(self.channels@.take(0) =~= Seq::<ChannelName>::empty());
            assert(warns@ =~= all_channel_warnings(self.channels@.take(0)));
        }
        while i < self.channels.len()
            invariant
                i <= self.channels@.len(),
                out@.len() == i,
                forall|j: int|
                    0 <= j < i ==> out@[j] == channel_info_of(#[trigger] self.channels@[j]),
                warns@ == all_channel_warnings(self.channels@.take(i as int)),
            decreases self.channels@.len() - i,
        {
            let c = self.channels[i];
            let bank = match c.bank {
                Some(b) => b,
                None => {
                    warns.push(
                        InfoWarning::MissingBank {
                            midi_track: c.midi_track,
                            midi_channel: c.midi_channel,
                        },
                    );
                    0
                },
            };
            let program = match c.program {
                Some(p) => p,
                None => {
                    warns.push(
                        InfoWarning::MissingProgram {
                            midi_track: c.midi_track,
                            midi_channel: c.midi_channel,
                        },
                    );
                    0
                },
            };
            out.push(
                ChannelInfo {
                    midi_track: c.midi_track,
                    midi_channel: c.midi_channel,
                    bank,
                    program,
                },
            );
            proof {
                assert(self.channels@.take(i + 1).drop_last() =~= self.channels@.take(i as int));
                assert(self.channels@.take(i + 1).last() == self.channels@[i as int]);
                assert(warns@ =~= all_channel_warnings(self.channels@.take(i as int))
                    + channel_warnings_of(self.channels@[i as int]));
            }
            i = i + 1;
        }
        proof {
            assert(self.channels@.take(self.channels@.len() as int) =~= self.channels@);
        }
        (out, warns)
    }
}

/// Cloning an optional string keeps its text.
fn clone_opt_string(o: &Option<String>) -> (r: Option<String>)
    ensures
        opt_str_view(r) == opt_str_view(*o),
{
    match o {
        Some(s) => Some(s.clone()),
        None => None,
    }
}

/// Inserting a key at its sorted slot keeps the channel table sorted.
proof fn lemma_insert_sorted_keeps_wf(
    pre: Seq<ChannelName>,
    post: Seq<ChannelName>,
    pos: int,
    t: usize,
    c: u8,
)
    requires
        0 <= pos <= pre.len(),
        post == pre.insert(
            pos,
            post[pos],
        ),
        post[pos].midi_track == t,
        post[pos].midi_channel == c,
        forall|i: int, j: int|
            0 <= i < j < pre.len() ==> chan_key_lt(
                (#[trigger] pre[i]).midi_track,
                pre[i].midi_channel,
                (#[trigger] pre[j]).midi_track,
                pre[j].midi_channel,
            ),
        forall|i: int|
            0 <= i < pos ==> chan_key_lt(
                (#[trigger] pre[i]).midi_track,
                pre[i].midi_channel,
                t,
                c,
            ),
        forall|i: int|
            pos <= i < pre.len() ==> chan_key_lt(
                t,
                c,
                (#[trigger] pre[i]).midi_track,
                pre[i].midi_channel,
            ),
    ensures
        forall|i: int, j: int|
            0 <= i < j < post.len() ==> chan_key_lt(
                (#[trigger] post[i]).midi_track,
                post[i].midi_channel,
                (#[trigger] post[j]).midi_track,
                post[j].midi_channel,
            ),
{
    assert forall|i: int, j: int| 0 <= i < j < post.len() implies chan_key_lt(
        (#[trigger] post[i]).midi_track,
        post[i].midi_channel,
        (#[trigger] post[j]).midi_track,
        post[j].midi_channel,
    ) by {
        if i < pos {
            assert(post[i] == pre[i]);
        }
        if i > pos {
            assert(post[i] == pre[i - 1]);
        }
        if j < pos {
            assert(post[j] == pre[j]);
        }
        if j > pos {
            assert(post[j] == pre[j - 1]);
        }
    }
}

} // verus!
