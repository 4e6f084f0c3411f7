//! The pitch model: a raw MIDI pitch, the playable range of the physical
//! roll, and the mapping from a pitch to its hole channel on the roll.

use vstd::prelude::*;

verus! {

/// Lowest pitch that has a hole of its own on the roll.
pub const LOWEST_PLAYABLE_PITCH: u8 = 24;

/// Highest pitch that has a hole of its own on the roll: the playable region
/// covers 80 consecutive semitones.
pub const HIGHEST_PLAYABLE_PITCH: u8 = 103;

/// Roll channel of the hole for `LOWEST_PLAYABLE_PITCH`. The channels below
/// it (and the ones above the playable region) are reserved for control
/// functions such as pedals; this library never produces them.
pub const NOTE_CHANNEL_BASE: u8 = 9;

/// A semitone pitch as encoded by MIDI. A well-formed value fits in 7 bits.
#[derive(Clone, Copy, Debug, PartialEq, Eq, Structural)]
pub struct MidiNote {
    pub value: u8,
}

impl MidiNote {
    /// A pitch byte read from a MIDI file is a 7-bit quantity.
    pub open spec fn wf(self) -> bool {
        self.value <= 127
    }

    /// Whether the pitch falls in the closed playable interval of the roll.
    pub open spec fn spec_playable(self) -> bool {
        LOWEST_PLAYABLE_PITCH <= self.value <= HIGHEST_PLAYABLE_PITCH
    }

    /// `Some` exactly when the byte is a valid 7-bit MIDI pitch.
    pub fn try_from(value: u8) -> (r: Option<MidiNote>)
        ensures
            r == if value <= 127 {
                Some(MidiNote { value })
            } else {
                None::<MidiNote>
            },
    {
        if value <= 127 {
            Some(MidiNote { value })
        } else {
            None
        }
    }

    pub fn as_u8(self) -> (r: u8)
        ensures
            r == self.value,
    {
        self.value
    }

    /// The pitch transposed by `offset` semitones, when that stays a valid
    /// MIDI pitch.
    pub open spec fn spec_checked_offset(self, offset: i8) -> Option<MidiNote> {
        if 0 <= self.value + offset <= 127 {
            Some(MidiNote { value: (self.value + offset) as u8 })
        } else {
            None
        }
    }

    pub fn checked_offset(self, offset: i8) -> (r: Option<MidiNote>)
        ensures
            r == self.spec_checked_offset(offset),
    {
        let v: i16 = self.value as i16 + offset as i16;
        if 0 <= v && v <= 127 {
            Some(MidiNote { value: v as u8 })
        } else {
            None
        }
    }

    /// The roll channel of this pitch's hole, when the pitch is playable:
    /// a fixed linear offset from the lowest playable pitch.
    pub open spec fn spec_pianoroll_channel(self) -> Option<u8> {
        if self.spec_playable() {
            Some((self.value - LOWEST_PLAYABLE_PITCH + NOTE_CHANNEL_BASE) as u8)
        } else {
            None
        }
    }

    pub fn pianoroll_channel(self) -> (r: Option<u8>)
        ensures
            r == self.spec_pianoroll_channel(),
    {
        if LOWEST_PLAYABLE_PITCH <= self.value && self.value <= HIGHEST_PLAYABLE_PITCH {
            Some(self.value - LOWEST_PLAYABLE_PITCH + NOTE_CHANNEL_BASE)
        } else {
            None
        }
    }
}

/// The pitch range validator: applies the offset and accepts the result
/// exactly when it lies in the closed playable interval of the roll. A
/// rejected event is dropped with a diagnostic, never a fatal error; the
/// caller assembles the diagnostic from its event context.
pub open spec fn spec_resolve_pitch(note: MidiNote, offset: i8) -> Option<MidiNote> {
    if LOWEST_PLAYABLE_PITCH <= note.value + offset <= HIGHEST_PLAYABLE_PITCH {
        Some(MidiNote { value: (note.value + offset) as u8 })
    } else {
        None
    }
}

pub fn resolve_pitch(note: MidiNote, offset: i8) -> (r: Option<MidiNote>)
    ensures
        r == spec_resolve_pitch(note, offset),
{
    let v: i16 = note.value as i16 + offset as i16;
    if LOWEST_PLAYABLE_PITCH as i16 <= v && v <= HIGHEST_PLAYABLE_PITCH as i16 {
        Some(MidiNote { value: v as u8 })
    } else {
        None
    }
}

} // verus!
