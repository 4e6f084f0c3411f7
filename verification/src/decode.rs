//! Decoding a standard MIDI file's bytes into the note event stream, with
//! the byte-level parsing done by the `nom_midi` crate behind trusted
//! wrappers and everything after the parse verified: per-track clocks,
//! zero-velocity normalization, and the flattening into one feed.

use vstd::prelude::*;
use crate::midi::NoteEvent;
use crate::midi_impl::MidiEventKind;
use crate::midi_impl::note_event_of;

verus! {

/// Why a byte string failed to decode.
#[derive(Debug, Clone, Copy, PartialEq, Eq, Structural)]
pub enum MidiParseError {
    /// The file ends before its declared contents do.
    IncompleteFile,
    /// The bytes do not parse as a standard MIDI file.
    Malformed,
    /// A track's accumulated delta times leave the representable tick range.
    TimeOverflow,
}

/// The header's division: ticks per beat, or the unsupported timecode form.
#[derive(Debug, Clone, Copy, PartialEq, Eq, Structural)]
pub enum TimeDivision {
    Metrical(u16),
    Timecode,
}

/// The header's format, with its track count.
#[derive(Debug, Clone, Copy, PartialEq, Eq, Structural)]
pub enum FileFormat {
    SingleTrack,
    MultipleTrack(u16),
    MultipleSong(u16),
}

/// One parsed track event: its delta time and what it carries.
#[derive(Debug, Clone, Copy, PartialEq, Eq, Structural)]
pub struct RawTrackEvent {
    pub delta_time: u32,
    pub kind: MidiEventKind,
}

#[verifier::external_type_specification]
#[verifier::external_body]
pub struct ExSimpleMidiFile<'a>(nom_midi::SimpleMidiFile<'a>);

#[verifier::external_type_specification]
#[verifier::external_body]
pub struct ExTrack<'a>(nom_midi::Track<'a>);

#[verifier::external_type_specification]
#[verifier::external_body]
pub struct ExEvent<'a>(nom_midi::Event<'a>);

/// Relies on `nom_midi::parser::parse_smf`: the bytes either parse as a
/// file or are rejected, with incompleteness told apart as the parser
/// reports it.
#[verifier::external_body]
fn parse_smf_file<'a>(data: &'a [u8]) -> Result<nom_midi::SimpleMidiFile<'a>, MidiParseError> {
    match nom_midi::parser::parse_smf(data) {
        Ok((_rest, file)) => Ok(file),
        Err(e) => Err(
            if e.is_incomplete() {
                MidiParseError::IncompleteFile
            } else {
                MidiParseError::Malformed
            },
        ),
    }
}

/// Relies on the `division` field of `nom_midi::MidiHeader`: it is either
/// metrical (ticks per beat) or timecode-based.
#[verifier::external_body]
fn smf_division(file: &nom_midi::SimpleMidiFile) -> TimeDivision {
    match file.header.division {
        nom_midi::Division::Metrical(n) => TimeDivision::Metrical(n),
        nom_midi::Division::Timecode { .. } => TimeDivision::Timecode,
    }
}

/// Relies on the `format` field of `nom_midi::MidiHeader`.
#[verifier::external_body]
fn smf_format(file: &nom_midi::SimpleMidiFile) -> FileFormat {
    match file.header.format {
        nom_midi::MidiFormat::SingleTrack => FileFormat::SingleTrack,
        nom_midi::MidiFormat::MultipleTrack(n) => FileFormat::MultipleTrack(n),
        nom_midi::MidiFormat::MultipleSong(n) => FileFormat::MultipleSong(n),
    }
}

/// Relies on the `tracks` field of `nom_midi::SimpleMidiFile`: the parsed
/// tracks, in file order.
#[verifier::external_body]
fn smf_tracks<'a>(file: nom_midi::SimpleMidiFile<'a>) -> Vec<nom_midi::Track<'a>> {
    file.tracks
}

/// Relies on the `events` field of `nom_midi::Track`: the track's events,
/// in file order.
#[verifier::external_body]
fn track_events<'a>(track: &nom_midi::Track<'a>) -> Vec<nom_midi::Event<'a>> {
    track.events.clone()
}

/// Relies on `nom_midi::Event` and `nom_midi::MidiEventType`: the delta
/// time and, for a channel-voice message, its fields. A `nom_midi::Note` is
/// one of 128 enumerators, so a note byte is at most 127.
#[verifier::external_body]
fn event_parts(event: &nom_midi::Event) -> (r: RawTrackEvent)
    ensures
        r.kind matches MidiEventKind::NoteOn { note, .. } ==> note <= 127,
        r.kind matches MidiEventKind::NoteOff { note, .. } ==> note <= 127,
{
    let kind = match &event.event {
        nom_midi::EventType::Midi(me) => match me.event {
            nom_midi::MidiEventType::NoteOn(n, v) => MidiEventKind::NoteOn { channel: me.channel, note: u8::from(n), velocity: v },
            nom_midi::MidiEventType::NoteOff(n, v) => MidiEventKind::NoteOff { channel: me.channel, note: u8::from(n), velocity: v },
            nom_midi::MidiEventType::Controller(c, d) => MidiEventKind::ControlChange { channel: me.channel, control: c, data: d },
            nom_midi::MidiEventType::ProgramChange(p) => MidiEventKind::ProgramChange { channel: me.channel, program: p },
            _ => MidiEventKind::Other,
        },
        _ => MidiEventKind::Other,
    };
    RawTrackEvent { delta_time: event.delta_time, kind }
}

/// Whether a track's clock stays representable: every prefix sum of delta
/// times, started at `now`, fits in a tick count.
pub open spec fn track_fits(evs: Seq<RawTrackEvent>, now: int) -> bool
    decreases evs.len(),
{
    if evs.len() == 0 {
        true
    } else {
        now + evs[0].delta_time <= u64::MAX && track_fits(
            evs.skip(1),
            now + evs[0].delta_time,
        )
    }
}

/// The note events one track contributes: each event advances the clock by
/// its delta, and each note message lands at the advanced clock, with
/// zero-velocity presses normalized to releases.
pub open spec fn track_events_spec(evs: Seq<RawTrackEvent>, track: usize, now: int) -> Seq<
    NoteEvent,
>
    decreases evs.len(),
{
    if evs.len() == 0 {
        Seq::empty()
    } else {
        (match note_event_of(evs[0].kind, (now + evs[0].delta_time) as u64, track) {
            Some(e) => seq![e],
            None => Seq::empty(),
        }) + track_events_spec(evs.skip(1), track, now + evs[0].delta_time)
    }
}

/// Every pitch a track contributes is 7-bit when every note message in it
/// carries a 7-bit note byte.
pub open spec fn track_kinds_wf(evs: Seq<RawTrackEvent>) -> bool {
    forall|i: int|
        0 <= i < evs.len() ==> ((#[trigger] evs[i]).kind matches MidiEventKind::NoteOn {
            note,
            ..
        } ==> note <= 127) && (evs[i].kind matches MidiEventKind::NoteOff { note, .. } ==> note
            <= 127)
}

proof fn lemma_track_events_wf(evs: Seq<RawTrackEvent>, track: usize, now: int)
    requires
        track_kinds_wf(evs),
    ensures
        forall|i: int|
            0 <= i < track_events_spec(evs, track, now).len() ==> (#[trigger] track_events_spec(
                evs,
                track,
                now,
            )[i]).note.value < 128,
    decreases evs.len(),
{
    if evs.len() > 0 {
        assert(track_kinds_wf(evs.skip(1))) by {
            assert(forall|i: int|
                0 <= i < evs.skip(1).len() ==> evs.skip(1)[i] == evs[i + 1]);
        }
        lemma_track_events_wf(evs.skip(1), track, now + evs[0].delta_time);
    }
}

/// Converts one track's parsed events to note events, exactly as
/// [`track_events_spec`] lays them out; a clock leaving the tick range is
/// reported instead of wrapping.
pub fn track_note_events(evs: &Vec<RawTrackEvent>, track: usize) -> (r: Result<
    Vec<NoteEvent>,
    MidiParseError,
>)
    ensures
        r is Ok <==> track_fits(evs@, 0),
        r matches Ok(v) ==> v@ == track_events_spec(evs@, track, 0),
        !track_fits(evs@, 0) ==> r == Err::<Vec<NoteEvent>, MidiParseError>(
            MidiParseError::TimeOverflow,
        ),
{
    let mut out: Vec<NoteEvent> = Vec::new();
    let mut timestamp: u64 = 0;
    let mut i: usize = 0;
    proof {
        assert(evs@.skip(0) =~= evs@);
        assert(out@ + track_events_spec(evs@.skip(0), track, timestamp as int) =~=
            track_events_spec(evs@, track, 0));
    }
    while i < evs.len()
        invariant
            i <= evs@.len(),
            track_fits(evs@, 0) <==> track_fits(evs@.skip(i as int), timestamp as int),
            track_fits(evs@.skip(i as int), timestamp as int) ==> out@ + track_events_spec(
                evs@.skip(i as int),
                track,
                timestamp as int,
            ) == track_events_spec(evs@, track, 0),
        decreases evs@.len() - i,
    {
        let ev = evs[i];
        proof {
            assert(evs@.skip(i as int)[0] == evs@[i as int]);
            assert(evs@.skip(i as int).skip(1) =~= evs@.skip(i + 1));
        }
        match timestamp.checked_add(ev.delta_time as u64) {
            None => {
                return Err(MidiParseError::TimeOverflow);
            },
            Some(t) => {
                timestamp = t;
            },
        }
        let ghost old_out = out@;
        match ev.kind {
            MidiEventKind::NoteOn { channel, note, velocity } => {
                out.push(
                    NoteEvent {
                        timestamp,
                        track,
                        channel,
                        note: crate::note::MidiNote { value: note },
                        action: if velocity == 0 {
                            crate::midi::NoteAction::Off
                        } else {
                            crate::midi::NoteAction::On
                        },
                    },
                );
            },
            MidiEventKind::NoteOff { channel, note, velocity: _ } => {
                out.push(
                    NoteEvent {
                        timestamp,
                        track,
                        channel,
                        note: crate::note::MidiNote { value: note },
                        action: crate::midi::NoteAction::Off,
                    },
                );
            },
            _ => {},
        }
        proof {
            let ghost e0 = evs@[i as int];
            assert(match note_event_of(e0.kind, timestamp, track) {
                Some(e) => out@ == old_out + seq![e],
                None => out@ == old_out,
            });
            assert(out@ + track_events_spec(evs@.skip(i + 1), track, timestamp as int) =~= old_out
                + ((match note_event_of(e0.kind, timestamp, track) {
                Some(e) => seq![e],
                None => Seq::<NoteEvent>::empty(),
            }) + track_events_spec(evs@.skip(i + 1), track, timestamp as int)));
        }
        i = i + 1;
    }
    proof {
        assert(evs@.skip(evs@.len() as int) =~= Seq::<RawTrackEvent>::empty());
        assert(out@ =~= out@ + track_events_spec(
            evs@.skip(evs@.len() as int),
            track,
            timestamp as int,
        ));
    }
    Ok(out)
}

/// Decodes a file's bytes into its note event stream: all of one track's
/// events before any of the next track's, each track with its own clock.
/// Whatever the parser produced, every pitch handed out is a 7-bit one.
pub fn notes(data: &[u8]) -> (r: Result<Vec<NoteEvent>, MidiParseError>)
    ensures
        r matches Ok(v) ==> forall|i: int| 0 <= i < v@.len() ==> (#[trigger] v@[i]).note.value
            < 128,
{
    let file = match parse_smf_file(data) {
        Ok(file) => file,
        Err(e) => {
            return Err(e);
        },
    };
    let tracks = smf_tracks(file);
    let mut out: Vec<NoteEvent> = Vec::new();
    let mut i: usize = 0;
    while i < tracks.len()
        invariant
            i <= tracks@.len(),
            forall|k: int| 0 <= k < out@.len() ==> (#[trigger] out@[k]).note.value < 128,
        decreases tracks@.len() - i,
    {
        let events = track_events(&tracks[i]);
        let mut raw: Vec<RawTrackEvent> = Vec::new();
        let mut j: usize = 0;
        while j < events.len()
            invariant
                j <= events@.len(),
                raw@.len() == j,
                track_kinds_wf(raw@),
            decreases events@.len() - j,
        {
            raw.push(event_parts(&events[j]));
            j = j + 1;
        }
        let mut track_notes = match track_note_events(&raw, i) {
            Ok(v) => v,
            Err(e) => {
                return Err(e);
            },
        };
        proof {
            lemma_track_events_wf(raw@, i, 0);
            assert(forall|k: int|
                0 <= k < track_notes@.len() ==> (#[trigger] track_notes@[k]).note.value < 128);
        }
        out.append(&mut track_notes);
        i = i + 1;
    }
    Ok(out)
}

/// The header data the caller needs before resolving: the division and the
/// format, read straight off the parsed file.
pub fn header_info(data: &[u8]) -> Result<(FileFormat, TimeDivision), MidiParseError> {
    let file = match parse_smf_file(data) {
        Ok(file) => file,
        Err(e) => {
            return Err(e);
        },
    };
    let format = smf_format(&file);
    let division = smf_division(&file);
    Ok((format, division))
}

} // verus!
