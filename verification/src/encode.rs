//! Re-encoding resolved intervals as a MIDI file's message sequence: one
//! track holding the tempo, a bank and program select, and the note on/off
//! pairs in chronological order with delta-encoded times. Writing the
//! resulting messages to disk is the file writer's business.

use vstd::prelude::*;
use crate::midi::NoteAction;
use crate::midi::NoteEvent;
use crate::midi::NoteWithDuration;
use crate::note::MidiNote;

verus! {

/// The fixed velocity written for every note.
pub const WRITE_VELOCITY: u8 = 90;

/// One message of the encoded file, delta time first.
#[derive(Debug, Clone, Copy, PartialEq, Eq, Structural)]
pub enum FileMessage {
    /// Set-tempo meta event; the three bytes are the tempo, big-endian.
    MetaSetTempo { delta_time: u32, hi: u8, mid: u8, lo: u8 },
    MetaEndOfTrack { delta_time: u32 },
    TrackChange,
    NoteOn { delta_time: u32, channel: u8, note: u8, velocity: u8 },
    NoteOff { delta_time: u32, channel: u8, note: u8, velocity: u8 },
    ControlChange { delta_time: u32, channel: u8, control: u8, data: u8 },
    ProgramChange { delta_time: u32, channel: u8, program: u8 },
}

/// The press and release events an interval contributes, on track 0,
/// channel 0.
pub open spec fn events_of_note(w: NoteWithDuration) -> Seq<NoteEvent> {
    seq![
        NoteEvent {
            timestamp: w.timestamp,
            track: 0,
            channel: 0,
            note: w.note,
            action: NoteAction::On,
        },
        NoteEvent {
            timestamp: (w.timestamp + w.duration) as u64,
            track: 0,
            channel: 0,
            note: w.note,
            action: NoteAction::Off,
        },
    ]
}

/// All intervals spread into press and release events, in interval order.
pub open spec fn spread_events(notes: Seq<NoteWithDuration>) -> Seq<NoteEvent>
    decreases notes.len(),
{
    if notes.len() == 0 {
        Seq::empty()
    } else {
        spread_events(notes.drop_last()) + events_of_note(notes.last())
    }
}

/// Stable insertion of one event into an already built sequence: it lands
/// after every event with an equal or earlier timestamp.
pub open spec fn insert_stable(s: Seq<NoteEvent>, e: NoteEvent) -> Seq<NoteEvent>
    decreases s.len(),
{
    if s.len() == 0 {
        seq![e]
    } else if s.last().timestamp > e.timestamp {
        insert_stable(s.drop_last(), e).push(s.last())
    } else {
        s.push(e)
    }
}

/// Stable sort by timestamp: events with equal timestamps keep their
/// relative order.
pub open spec fn sort_by_timestamp(s: Seq<NoteEvent>) -> Seq<NoteEvent>
    decreases s.len(),
{
    if s.len() == 0 {
        Seq::empty()
    } else {
        insert_stable(sort_by_timestamp(s.drop_last()), s.last())
    }
}

/// The delta time written for a step from `last` to `ts`: the distance,
/// truncated to 32 bits exactly as the file format's writer narrows it.
pub open spec fn delta_of(ts: u64, last: u64) -> u32 {
    if ts - last < 0 {
        (((ts - last + 0x1_0000_0000_0000_0000) % 0x1_0000_0000) as u32)
    } else {
        (((ts - last) % 0x1_0000_0000) as u32)
    }
}

/// The message one note event becomes.
pub open spec fn message_of(e: NoteEvent, last: u64) -> FileMessage {
    match e.action {
        NoteAction::On => FileMessage::NoteOn {
            delta_time: delta_of(e.timestamp, last),
            channel: e.channel,
            note: e.note.value,
            velocity: WRITE_VELOCITY,
        },
        NoteAction::Off => FileMessage::NoteOff {
            delta_time: delta_of(e.timestamp, last),
            channel: e.channel,
            note: e.note.value,
            velocity: WRITE_VELOCITY,
        },
    }
}

/// Delta encoding of a time-sorted event sequence, starting from tick
/// `last`.
pub open spec fn note_messages(events: Seq<NoteEvent>, last: u64) -> Seq<FileMessage>
    decreases events.len(),
{
    if events.len() == 0 {
        Seq::empty()
    } else {
        seq![message_of(events[0], last)] + note_messages(events.skip(1), events[0].timestamp)
    }
}

/// The fixed opening of every written file: the tempo, the end of the
/// header track, and a piano voice (bank 0, program 1) on channel 0.
pub open spec fn prelude_messages(tempo: u32) -> Seq<FileMessage> {
    seq![
        FileMessage::MetaSetTempo {
            delta_time: 0,
            hi: ((tempo / 0x1_0000) % 256) as u8,
            mid: ((tempo / 256) % 256) as u8,
            lo: (tempo % 256) as u8,
        },
        FileMessage::MetaEndOfTrack { delta_time: 0 },
        FileMessage::TrackChange,
        FileMessage::ControlChange { delta_time: 0, channel: 0, control: 0, data: 0 },
        FileMessage::ProgramChange { delta_time: 0, channel: 0, program: 1 },
    ]
}

/// The whole message sequence a set of intervals encodes to.
pub open spec fn write_messages_spec(notes: Seq<NoteWithDuration>, tempo: u32) -> Seq<
    FileMessage,
> {
    prelude_messages(tempo) + note_messages(sort_by_timestamp(spread_events(notes)), 0)
        + seq![FileMessage::MetaEndOfTrack { delta_time: 0 }]
}

/// No interval may end past the last representable tick.
pub open spec fn note_ends_fit(notes: Seq<NoteWithDuration>) -> bool {
    forall|i: int|
        0 <= i < notes.len() ==> (#[trigger] notes[i]).timestamp + notes[i].duration <= u64::MAX
}

/// Spreads every interval into its press and release events.
fn spread(notes: &Vec<NoteWithDuration>) -> (r: Vec<NoteEvent>)
    requires
        note_ends_fit(notes@),
    ensures
        r@ == spread_events(notes@),
{
    let mut r: Vec<NoteEvent> = Vec::new();
    let mut i: usize = 0;
    proof {
        assert(notes@.take(0) =~= Seq::<NoteWithDuration>::empty());
        assert(r@ =~= spread_events(notes@.take(0)));
    }
    while i < notes.len()
        invariant
            i <= notes@.len(),
            note_ends_fit(notes@),
            r@ == spread_events(notes@.take(i as int)),
        decreases notes@.len() - i,
    {
        let w = notes[i];
        r.push(
            NoteEvent {
                timestamp: w.timestamp,
                track: 0,
                channel: 0,
                note: w.note,
                action: NoteAction::On,
            },
        );
        r.push(
            NoteEvent {
                timestamp: w.timestamp + w.duration,
                track: 0,
                channel: 0,
                note: w.note,
                action: NoteAction::Off,
            },
        );
        proof {
            assert(notes@.take(i + 1).drop_last() =~= notes@.take(i as int));
            assert(notes@.take(i + 1).last() == notes@[i as int]);
            assert(r@ =~= spread_events(notes@.take(i as int)) + events_of_note(
                notes@[i as int],
            ));
        }
        i = i + 1;
    }
    proof {
        assert(notes@.take(notes@.len() as int) =~= notes@);
    }
    r
}

/// A suffix of strictly later events pins where a stable insertion lands.
proof fn lemma_insert_stable_at(s: Seq<NoteEvent>, e: NoteEvent, k: int)
    requires
        0 <= k <= s.len(),
        forall|j: int| k <= j < s.len() ==> (#[trigger] s[j]).timestamp > e.timestamp,
        k > 0 ==> s[k - 1].timestamp <= e.timestamp,
    ensures
        insert_stable(s, e) == s.insert(k, e),
    decreases s.len(),
{
    if k == s.len() {
        if s.len() == 0 {
            assert(insert_stable(s, e) =~= s.insert(k, e));
        } else {
            assert(s.last().timestamp <= e.timestamp);
            assert(insert_stable(s, e) == s.push(e));
            assert(s.push(e) =~= s.insert(k, e));
        }
    } else {
        assert(s[s.len() - 1].timestamp > e.timestamp);
        lemma_insert_stable_at(s.drop_last(), e, k);
        assert(insert_stable(s, e) == insert_stable(s.drop_last(), e).push(s.last()));
        assert(s.drop_last().insert(k, e).push(s.last()) =~= s.insert(k, e));
    }
}

/// Stable insertion sort by timestamp.
fn sort_events(events: &Vec<NoteEvent>) -> (r: Vec<NoteEvent>)
    ensures
        r@ == sort_by_timestamp(events@),
{
    let mut r: Vec<NoteEvent> = Vec::new();
    let mut i: usize = 0;
    proof {
        assert(events@.take(0) =~= Seq::<NoteEvent>::empty());
        assert(r@ =~= sort_by_timestamp(events@.take(0)));
    }
    while i < events.len()
        invariant
            i <= events@.len(),
            r@ == sort_by_timestamp(events@.take(i as int)),
        decreases events@.len() - i,
    {
        let e = events[i];
        let ghost pre = r@;
        let mut k: usize = r.len();
        while k > 0 && r[k - 1].timestamp > e.timestamp
            invariant
                k <= r@.len(),
                r@ == pre,
                forall|j: int| k <= j < r@.len() ==> (#[trigger] r@[j]).timestamp > e.timestamp,
            decreases k,
        {
            k = k - 1;
        }
        r.insert(k, e);
        proof {
            lemma_insert_stable_at(pre, e, k as int);
            assert(events@.take(i + 1).drop_last() =~= events@.take(i as int));
            assert(events@.take(i + 1).last() == events@[i as int]);
        }
        i = i + 1;
    }
    proof {
        assert(events@.take(events@.len() as int) =~= events@);
    }
    r
}

/// Encodes the intervals as the complete message sequence of a one-track
/// file, sorted by time and delta-encoded.
pub fn write_messages(notes: &Vec<NoteWithDuration>, tempo: u32) -> (r: Vec<FileMessage>)
    requires
        note_ends_fit(notes@),
    ensures
        r@ == write_messages_spec(notes@, tempo),
{
    let mut r: Vec<FileMessage> = Vec::new();
    r.push(
        FileMessage::MetaSetTempo {
            delta_time: 0,
            hi: ((tempo / 0x1_0000) % 256) as u8,
            mid: ((tempo / 256) % 256) as u8,
            lo: (tempo % 256) as u8,
        },
    );
    r.push(FileMessage::MetaEndOfTrack { delta_time: 0 });
    r.push(FileMessage::TrackChange);
    r.push(FileMessage::ControlChange { delta_time: 0, channel: 0, control: 0, data: 0 });
    r.push(FileMessage::ProgramChange { delta_time: 0, channel: 0, program: 1 });
    proof {
        assert(r@ =~= prelude_messages(tempo));
    }
    let spreaded = spread(notes);
    let sorted = sort_events(&spreaded);
    let ghost all = sorted@;
    let mut last_timestamp: u64 = 0;
    let mut i: usize = 0;
    proof {
        assert(all.skip(0) =~= all);
        assert(r@ =~= prelude_messages(tempo) + note_messages(all, 0).take(0));
    }
    while i < sorted.len()
        invariant
            i <= all.len(),
            sorted@ == all,
            note_messages(all, 0) == r@.skip(prelude_messages(tempo).len() as int)
                + note_messages(all.skip(i as int), last_timestamp),
            r@.len() == prelude_messages(tempo).len() + i,
            r@.take(prelude_messages(tempo).len() as int) == prelude_messages(tempo),
        decreases all.len() - i,
    {
        let e = sorted[i];
        let delta: u32 = (e.timestamp.wrapping_sub(last_timestamp) % 0x1_0000_0000u64) as u32;
        let ghost pre = r@;
        match e.action {
            NoteAction::On => {
                r.push(
                    FileMessage::NoteOn {
                        delta_time: delta,
                        channel: e.channel,
                        note: e.note.value,
                        velocity: WRITE_VELOCITY,
                    },
                );
            },
            NoteAction::Off => {
                r.push(
                    FileMessage::NoteOff {
                        delta_time: delta,
                        channel: e.channel,
                        note: e.note.value,
                        velocity: WRITE_VELOCITY,
                    },
                );
            },
        }
        proof {
            assert(all.skip(i as int)[0] == all[i as int]);
            assert(all.skip(i as int).skip(1) =~= all.skip(i + 1));
            assert(delta == delta_of(e.timestamp, last_timestamp));
            assert(r@ == pre.push(message_of(all[i as int], last_timestamp)));
            assert(r@.skip(prelude_messages(tempo).len() as int) =~= pre.skip(
                prelude_messages(tempo).len() as int,
            ).push(message_of(all[i as int], last_timestamp)));
            assert(pre.skip(prelude_messages(tempo).len() as int).push(
                message_of(all[i as int], last_timestamp),
            ) + note_messages(all.skip(i + 1), all[i as int].timestamp) =~= pre.skip(
                prelude_messages(tempo).len() as int,
            ) + (seq![message_of(all[i as int], last_timestamp)] + note_messages(
                all.skip(i + 1),
                all[i as int].timestamp,
            )));
            assert(r@.take(prelude_messages(tempo).len() as int) =~= pre.take(
                prelude_messages(tempo).len() as int,
            ));
        }
        last_timestamp = e.timestamp;
        i = i + 1;
    }
    r.push(FileMessage::MetaEndOfTrack { delta_time: 0 });
    proof {
        assert(all.skip(all.len() as int) =~= Seq::<NoteEvent>::empty());
        assert(note_messages(all, 0) =~= r@.drop_last().skip(prelude_messages(tempo).len() as int));
        assert(r@ =~= prelude_messages(tempo) + note_messages(all, 0) + seq![
            FileMessage::MetaEndOfTrack { delta_time: 0 },
        ]);
    }
    r
}

} // verus!
