use pianoroll::config::ChannelSelector;
use pianoroll::decode::{header_info, notes, FileFormat, MidiParseError, TimeDivision};
use pianoroll::midi::{note_durations, NoteAction};

/// A minimal single-track file: one note on channel 0, pitch 60, pressed at
/// tick 0 and released 96 ticks later.
fn tiny_file() -> Vec<u8> {
    let mut data = vec![
        0x4D, 0x54, 0x68, 0x64, // MThd
        0x00, 0x00, 0x00, 0x06, // header length
        0x00, 0x00, // format 0
        0x00, 0x01, // one track
        0x00, 0x60, // 96 ticks per beat
        0x4D, 0x54, 0x72, 0x6B, // MTrk
        0x00, 0x00, 0x00, 0x0C, // track length
    ];
    data.extend_from_slice(&[
        0x00, 0x90, 0x3C, 0x40, // delta 0, note on, pitch 60, velocity 64
        0x60, 0x80, 0x3C, 0x40, // delta 96, note off, pitch 60
        0x00, 0xFF, 0x2F, 0x00, // delta 0, end of track
    ]);
    data
}

#[test]
fn decodes_a_single_note_file() {
    let events = notes(&tiny_file()).unwrap();
    assert_eq!(events.len(), 2);
    assert_eq!(events[0].timestamp, 0);
    assert_eq!(events[0].track, 0);
    assert_eq!(events[0].channel, 0);
    assert_eq!(events[0].note.value, 60);
    assert_eq!(events[0].action, NoteAction::On);
    assert_eq!(events[1].timestamp, 96);
    assert_eq!(events[1].action, NoteAction::Off);
}

#[test]
fn reads_the_header() {
    let (format, division) = header_info(&tiny_file()).unwrap();
    assert_eq!(format, FileFormat::SingleTrack);
    assert_eq!(division, TimeDivision::Metrical(96));
}

#[test]
fn zero_velocity_press_decodes_as_release() {
    let mut data = tiny_file();
    // Turn the note-off into a zero-velocity note-on: same meaning.
    let n = data.len();
    data[n - 7] = 0x90;
    data[n - 5] = 0x00;
    let events = notes(&data).unwrap();
    assert_eq!(events.len(), 2);
    assert_eq!(events[1].action, NoteAction::Off);
}

#[test]
fn garbage_bytes_are_malformed() {
    assert_eq!(notes(b"not a midi file"), Err(MidiParseError::Malformed));
}

#[test]
fn truncated_file_is_rejected() {
    let mut data = tiny_file();
    data.truncate(data.len() - 6);
    assert_eq!(notes(&data), Err(MidiParseError::IncompleteFile));
}

#[test]
fn decoded_stream_resolves_end_to_end() {
    let events = notes(&tiny_file()).unwrap();
    let selectors = vec![ChannelSelector { midi_track: 0, midi_channel: 0, offset: 0 }];
    let (durations, diags) = note_durations(&events, 96, &selectors);
    assert_eq!(durations.len(), 1);
    assert_eq!(durations[0].timestamp, 0);
    assert_eq!(durations[0].duration, 96);
    assert_eq!(durations[0].note.value, 60);
    assert!(diags.is_empty());
}
