use pianoroll::config::{parse_track_selector, select_offset, ChannelSelector, SelectorError};
use pianoroll::note::{
    resolve_pitch, MidiNote, HIGHEST_PLAYABLE_PITCH, LOWEST_PLAYABLE_PITCH, NOTE_CHANNEL_BASE,
};

#[test]
fn plain_track_and_channel() {
    assert_eq!(
        parse_track_selector("3,1"),
        Ok(ChannelSelector { midi_track: 3, midi_channel: 1, offset: 0 })
    );
}

#[test]
fn positive_and_negative_offsets() {
    assert_eq!(
        parse_track_selector("3,1+5"),
        Ok(ChannelSelector { midi_track: 3, midi_channel: 1, offset: 5 })
    );
    assert_eq!(
        parse_track_selector("0,15-12"),
        Ok(ChannelSelector { midi_track: 0, midi_channel: 15, offset: -12 })
    );
}

#[test]
fn offset_range_ends() {
    assert_eq!(parse_track_selector("1,2-128").unwrap().offset, -128);
    assert_eq!(parse_track_selector("1,2+127").unwrap().offset, 127);
    assert_eq!(parse_track_selector("1,2-129"), Err(SelectorError::BadOffset));
    assert_eq!(parse_track_selector("1,2+128"), Err(SelectorError::BadOffset));
}

#[test]
fn leading_plus_on_the_track_is_a_number() {
    assert_eq!(
        parse_track_selector("+3,1"),
        Ok(ChannelSelector { midi_track: 3, midi_channel: 1, offset: 0 })
    );
}

#[test]
fn bad_track_beats_missing_comma() {
    assert_eq!(parse_track_selector("abc"), Err(SelectorError::BadTrack));
    assert_eq!(parse_track_selector("12"), Err(SelectorError::MissingComma));
    assert_eq!(parse_track_selector(""), Err(SelectorError::BadTrack));
}

#[test]
fn bad_channel_values() {
    assert_eq!(parse_track_selector("3,x"), Err(SelectorError::BadChannel));
    assert_eq!(parse_track_selector("3,256"), Err(SelectorError::BadChannel));
    assert_eq!(parse_track_selector("3,"), Err(SelectorError::BadChannel));
    assert_eq!(parse_track_selector("3,+5"), Err(SelectorError::BadChannel));
}

#[test]
fn bad_offset_values() {
    assert_eq!(parse_track_selector("3,1+"), Err(SelectorError::BadOffset));
    assert_eq!(parse_track_selector("3,1+x"), Err(SelectorError::BadOffset));
}

#[test]
fn first_matching_selector_wins() {
    let selectors = vec![
        ChannelSelector { midi_track: 0, midi_channel: 0, offset: 3 },
        ChannelSelector { midi_track: 0, midi_channel: 0, offset: 7 },
        ChannelSelector { midi_track: 1, midi_channel: 2, offset: -1 },
    ];
    assert_eq!(select_offset(&selectors, 0, 0), Some(3));
    assert_eq!(select_offset(&selectors, 1, 2), Some(-1));
    assert_eq!(select_offset(&selectors, 2, 0), None);
}

#[test]
fn playable_range_boundaries() {
    let lowest = MidiNote { value: LOWEST_PLAYABLE_PITCH };
    let highest = MidiNote { value: HIGHEST_PLAYABLE_PITCH };
    assert_eq!(lowest.pianoroll_channel(), Some(NOTE_CHANNEL_BASE));
    assert_eq!(
        highest.pianoroll_channel(),
        Some(HIGHEST_PLAYABLE_PITCH - LOWEST_PLAYABLE_PITCH + NOTE_CHANNEL_BASE)
    );
    let below = MidiNote { value: LOWEST_PLAYABLE_PITCH - 1 };
    let above = MidiNote { value: HIGHEST_PLAYABLE_PITCH + 1 };
    assert_eq!(below.pianoroll_channel(), None);
    assert_eq!(above.pianoroll_channel(), None);
}

#[test]
fn checked_offset_stays_in_the_midi_domain() {
    let n = MidiNote { value: 60 };
    assert_eq!(n.checked_offset(12), Some(MidiNote { value: 72 }));
    assert_eq!(n.checked_offset(-60), Some(MidiNote { value: 0 }));
    assert_eq!(n.checked_offset(68), None);
    assert_eq!(MidiNote { value: 0 }.checked_offset(-1), None);
    assert_eq!(MidiNote::try_from(127), Some(MidiNote { value: 127 }));
    assert_eq!(MidiNote::try_from(128), None);
    assert_eq!(MidiNote { value: 64 }.as_u8(), 64);
}

#[test]
fn validator_accepts_exactly_the_playable_interval() {
    let lowest = MidiNote { value: LOWEST_PLAYABLE_PITCH };
    let highest = MidiNote { value: HIGHEST_PLAYABLE_PITCH };
    assert_eq!(resolve_pitch(lowest, 0), Some(lowest));
    assert_eq!(resolve_pitch(MidiNote { value: LOWEST_PLAYABLE_PITCH - 1 }, 0), None);
    assert_eq!(resolve_pitch(highest, 0), Some(highest));
    assert_eq!(resolve_pitch(MidiNote { value: HIGHEST_PLAYABLE_PITCH + 1 }, 0), None);
    // The offset is applied before the check, in a wide enough type.
    assert_eq!(resolve_pitch(MidiNote { value: 0 }, 24), Some(lowest));
    assert_eq!(resolve_pitch(MidiNote { value: 127 }, -24), Some(highest));
    assert_eq!(resolve_pitch(lowest, -1), None);
    assert_eq!(resolve_pitch(highest, 1), None);
}
