use pianoroll::encode::{FileMessage, write_messages, WRITE_VELOCITY};
use pianoroll::midi::{Midi, NoteWithDuration};
use pianoroll::note::MidiNote;

fn nwd(timestamp: u64, duration: u64, pitch: u8) -> NoteWithDuration {
    NoteWithDuration { timestamp, duration, note: MidiNote { value: pitch } }
}

fn prelude(tempo_bytes: (u8, u8, u8)) -> Vec<FileMessage> {
    vec![
        FileMessage::MetaSetTempo {
            delta_time: 0,
            hi: tempo_bytes.0,
            mid: tempo_bytes.1,
            lo: tempo_bytes.2,
        },
        FileMessage::MetaEndOfTrack { delta_time: 0 },
        FileMessage::TrackChange,
        FileMessage::ControlChange { delta_time: 0, channel: 0, control: 0, data: 0 },
        FileMessage::ProgramChange { delta_time: 0, channel: 0, program: 1 },
    ]
}

#[test]
fn single_note_message_sequence() {
    let notes = vec![nwd(0, 100, 60)];
    let msgs = write_messages(&notes, 500_000);
    let mut expected = prelude((0x07, 0xA1, 0x20));
    expected.push(FileMessage::NoteOn {
        delta_time: 0,
        channel: 0,
        note: 60,
        velocity: WRITE_VELOCITY,
    });
    expected.push(FileMessage::NoteOff {
        delta_time: 100,
        channel: 0,
        note: 60,
        velocity: WRITE_VELOCITY,
    });
    expected.push(FileMessage::MetaEndOfTrack { delta_time: 0 });
    assert_eq!(msgs, expected);
}

#[test]
fn overlapping_notes_are_delta_encoded_in_time_order() {
    let notes = vec![nwd(0, 100, 60), nwd(50, 10, 62)];
    let msgs = write_messages(&notes, 500_000);
    let tail: Vec<FileMessage> = msgs[5..].to_vec();
    assert_eq!(
        tail,
        vec![
            FileMessage::NoteOn { delta_time: 0, channel: 0, note: 60, velocity: 90 },
            FileMessage::NoteOn { delta_time: 50, channel: 0, note: 62, velocity: 90 },
            FileMessage::NoteOff { delta_time: 10, channel: 0, note: 62, velocity: 90 },
            FileMessage::NoteOff { delta_time: 40, channel: 0, note: 60, velocity: 90 },
            FileMessage::MetaEndOfTrack { delta_time: 0 },
        ]
    );
}

#[test]
fn equal_timestamps_keep_their_order() {
    // The first note's release and the second note's press share a tick:
    // the sort is stable, so the release stays first.
    let notes = vec![nwd(0, 10, 60), nwd(10, 10, 62)];
    let msgs = Midi::write(&notes, 500_000);
    let tail: Vec<FileMessage> = msgs[5..].to_vec();
    assert_eq!(
        tail,
        vec![
            FileMessage::NoteOn { delta_time: 0, channel: 0, note: 60, velocity: 90 },
            FileMessage::NoteOff { delta_time: 10, channel: 0, note: 60, velocity: 90 },
            FileMessage::NoteOn { delta_time: 0, channel: 0, note: 62, velocity: 90 },
            FileMessage::NoteOff { delta_time: 10, channel: 0, note: 62, velocity: 90 },
            FileMessage::MetaEndOfTrack { delta_time: 0 },
        ]
    );
}

#[test]
fn empty_input_still_writes_the_frame() {
    let msgs = write_messages(&vec![], 1_000_000);
    assert_eq!(msgs.len(), 6);
    assert_eq!(
        msgs[0],
        FileMessage::MetaSetTempo { delta_time: 0, hi: 0x0F, mid: 0x42, lo: 0x40 }
    );
    assert_eq!(msgs[5], FileMessage::MetaEndOfTrack { delta_time: 0 });
}
