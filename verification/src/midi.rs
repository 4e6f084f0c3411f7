//! Shared data types for the note stream and the parsed song, and the
//! press/release resolution entry point `note_durations`.

use vstd::prelude::*;
use crate::config::ChannelSelector;
use crate::config::select_offset;
use crate::midi_impl::MidiImpl;
use crate::note::MidiNote;
use crate::resolve::Diagnostic;
use crate::resolve::Resolver;
use crate::resolve::feed_run;
use crate::resolve::feed_step;
use crate::resolve::rs_init;

verus! {

/// One observed MIDI note action.
#[derive(Debug, Clone, Copy, PartialEq, Eq, Structural)]
pub struct NoteEvent {
    /// Absolute tick count; nondecreasing within a well-formed feed.
    pub timestamp: u64,
    /// Originating track index.
    pub track: usize,
    /// Originating channel (0-15).
    pub channel: u8,
    /// Raw pitch, before any offset.
    pub note: MidiNote,
    /// Press or release. A "press with zero velocity" must already have been
    /// normalized to `Off` by the decoder.
    pub action: NoteAction,
}

/// Press (`On`) or release (`Off`).
#[derive(Debug, Clone, Copy, Eq, PartialEq, Structural)]
pub enum NoteAction {
    On,
    Off,
}

/// A finished note interval: start tick, length in ticks, resolved pitch.
#[derive(Debug, Clone, Copy, PartialEq, Eq, Structural)]
pub struct NoteWithDuration {
    pub timestamp: u64,
    pub duration: u64,
    pub note: MidiNote,
}

/// Name and instrument of one track, as read from its meta events.
#[derive(Debug, Clone, PartialEq, Eq)]
pub struct TrackInfo {
    pub midi_track: usize,
    pub name: Option<String>,
    pub instrument: Option<String>,
}

/// Bank and program of one (track, channel) pair.
#[derive(Debug, Clone, PartialEq, Eq, Structural)]
pub struct ChannelInfo {
    pub midi_track: usize,
    pub midi_channel: u8,
    pub bank: u8,
    pub program: u8,
}

/// A parsed song: the event stream plus the per-track and per-channel
/// metadata. Reading a file into this shape is the decoder's business;
/// this type only holds and serves the decoded data.
#[derive(Debug)]
pub struct Midi {
    pub midi_impl: MidiImpl,
}

impl Midi {
    pub fn new() -> (r: Self)
        ensures
            r.midi_impl.track_info@ == Seq::<TrackInfo>::empty(),
            r.midi_impl.channel_info@ == Seq::<ChannelInfo>::empty(),
            r.midi_impl.note_events@ == Seq::<NoteEvent>::empty(),
            r.midi_impl.time_base is None,
            r.midi_impl.tempo is None,
    {
        Self { midi_impl: MidiImpl::new() }
    }

    /// Builds a song from already-decoded parts; the decoder frontend calls
    /// this once its pass over the file is done.
    pub fn from_impl(midi_impl: MidiImpl) -> (r: Self)
        ensures
            r.midi_impl == midi_impl,
    {
        Self { midi_impl }
    }

    pub fn tracks(&self) -> (r: &Vec<TrackInfo>)
        ensures
            r == self.midi_impl.track_info,
    {
        self.midi_impl.tracks()
    }

    pub fn channels(&self) -> (r: &Vec<ChannelInfo>)
        ensures
            r == self.midi_impl.channel_info,
    {
        self.midi_impl.channels()
    }

    pub fn notes(&self) -> (r: &Vec<NoteEvent>)
        ensures
            r == self.midi_impl.note_events,
    {
        self.midi_impl.notes()
    }

    pub fn time_base(&self) -> (r: Option<u16>)
        ensures
            r == self.midi_impl.time_base,
    {
        self.midi_impl.time_base()
    }

    pub fn tempo(&self) -> (r: Option<u32>)
        ensures
            r == self.midi_impl.tempo,
    {
        self.midi_impl.tempo()
    }

    /// Encodes finished intervals as the message sequence of a one-track
    /// file; the caller hands the messages, with its time base, to the file
    /// writer.
    pub fn write(notes: &Vec<NoteWithDuration>, tempo: u32) -> (r: Vec<
        crate::encode::FileMessage,
    >)
        requires
            crate::encode::note_ends_fit(notes@),
        ensures
            r@ == crate::encode::write_messages_spec(notes@, tempo),
    {
        MidiImpl::write(notes, tempo)
    }
}

/// Pairs presses with releases and returns the finished intervals, in
/// emission order (release order), together with every diagnostic of the
/// pass in the order it arose.
///
/// Events whose (track, channel) no selector names are dropped silently;
/// for the rest the selector's offset is applied and the result validated
/// against the roll's playable range. The feed must be presented in
/// nondecreasing timestamp order; that is the caller's contract.
pub fn note_durations(
    events: &Vec<NoteEvent>,
    time_base: u16,
    selectors: &Vec<ChannelSelector>,
) -> (r: (Vec<NoteWithDuration>, Vec<Diagnostic>))
    requires
        forall|i: int, j: int|
            0 <= i <= j < events@.len() ==> events@[i].timestamp <= events@[j].timestamp,
    ensures
        ({
            let fin = feed_run(rs_init((time_base / 3) as u64), selectors@, events@);
            r.0@ == fin.finished && r.1@ == fin.diagnostics
        }),
{
    // If notes overlap by this many ticks or less, the re-press is treated
    // as the same gesture and draws no diagnostic: a third of a beat.
    let fudge_factor_ticks: u64 = (time_base / 3) as u64;
    let mut resolver = Resolver::new(fudge_factor_ticks);
    let ghost init = rs_init(fudge_factor_ticks);
    let mut i: usize = 0;
    while i < events.len()
        invariant
            i <= events@.len(),
            forall|a: int, b: int|
                0 <= a <= b < events@.len() ==> events@[a].timestamp <= events@[b].timestamp,
            resolver.wf(),
            resolver@ == feed_run(init, selectors@, events@.take(i as int)),
            resolver@.fudge == fudge_factor_ticks,
            forall|p: int|
                0 <= p < 128 ==> #[trigger] resolver@.suppressed[p] <= i,
            forall|p: int|
                0 <= p < 128 && resolver@.in_flight[p] is Some ==> i > 0
                    && resolver@.in_flight[p]->Some_0.timestamp <= events@[i - 1].timestamp,
        decreases events@.len() - i,
    {
        let ev = &events[i];
        let ghost pre = resolver@;
        match select_offset(selectors, ev.track, ev.channel) {
            None => {},
            Some(offset) => {
                match crate::note::resolve_pitch(ev.note, offset) {
                    Some(resolved) => {
                        resolver.handle_event(
                            ev.timestamp,
                            ev.track,
                            ev.channel,
                            resolved,
                            ev.action,
                        );
                    },
                    None => {
                        resolver.report_out_of_range(
                            ev.timestamp,
                            ev.track,
                            ev.channel,
                            ev.note,
                            offset,
                        );
                    },
                }
            },
        }
        proof {
            assert(resolver@ == feed_step(pre, selectors@, events@[i as int]));
            assert(events@.take(i + 1).drop_last() =~= events@.take(i as int));
            assert(events@.take(i + 1).last() == events@[i as int]);
        }
        i = i + 1;
    }
    proof {
        assert(events@.take(events@.len() as int) =~= events@);
    }
    resolver.finish()
}


/// Number of presses a (track, channel) source contributes to a feed.
pub open spec fn spec_press_count(events: Seq<NoteEvent>, track: usize, channel: u8) -> nat
    decreases events.len(),
{
    if events.len() == 0 {
        0
    } else {
        spec_press_count(events.drop_last(), track, channel) + if events.last().action is On
            && events.last().track == track && events.last().channel == channel {
            1nat
        } else {
            0nat
        }
    }
}

/// Counts the presses of one (track, channel) source, the per-source
/// statistic reported beside the channel listing. Only presses count, so
/// a note is not counted twice.
pub fn press_count(events: &Vec<NoteEvent>, track: usize, channel: u8) -> (r: u64)
    ensures
        r == spec_press_count(events@, track, channel),
{
    let mut count: u64 = 0;
    let mut i: usize = 0;
    proof {
        assert(events@.take(0) =~= Seq::<NoteEvent>::empty());
    }
    while i < events.len()
        invariant
            i <= events@.len(),
            count <= i,
            count == spec_press_count(events@.take(i as int), track, channel),
        decreases events@.len() - i,
    {
        let ev = &events[i];
        proof {
            assert(events@.take(i + 1).drop_last() =~= events@.take(i as int));
            assert(events@.take(i + 1).last() == events@[i as int]);
        }
        if matches!(ev.action, NoteAction::On) && ev.track == track && ev.channel == channel {
            count = count + 1;
        }
        i = i + 1;
    }
    proof {
        assert(events@.take(events@.len() as int) =~= events@);
    }
    count
}

} // verus!
