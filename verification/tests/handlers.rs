use pianoroll::midi::{Midi, NoteAction};
use pianoroll::midi_impl::{
    ChannelInfoHandler, InfoWarning, MetaEventKind, MidiEventKind, MidiImpl, NotesHandler,
    SongInfoHandler,
};

#[test]
fn notes_handler_accumulates_deltas_per_track() {
    let mut h = NotesHandler::new();
    h.track_change(); // header done; still track 0
    h.midi_event(10, MidiEventKind::NoteOn { channel: 2, note: 60, velocity: 80 });
    h.meta_event(5);
    h.midi_event(5, MidiEventKind::NoteOff { channel: 2, note: 60, velocity: 0 });
    h.track_change(); // next track, clock restarts
    h.midi_event(7, MidiEventKind::NoteOn { channel: 0, note: 62, velocity: 0 });

    assert_eq!(h.events.len(), 3);
    assert_eq!(h.events[0].timestamp, 10);
    assert_eq!(h.events[0].track, 0);
    assert_eq!(h.events[0].channel, 2);
    assert_eq!(h.events[0].note.value, 60);
    assert_eq!(h.events[0].action, NoteAction::On);
    assert_eq!(h.events[1].timestamp, 20);
    assert_eq!(h.events[1].action, NoteAction::Off);
    // A press with zero velocity is a release in disguise.
    assert_eq!(h.events[2].timestamp, 7);
    assert_eq!(h.events[2].track, 1);
    assert_eq!(h.events[2].action, NoteAction::Off);
}

#[test]
fn notes_handler_ignores_non_note_messages() {
    let mut h = NotesHandler::new();
    h.midi_event(3, MidiEventKind::ControlChange { channel: 0, control: 0, data: 5 });
    h.midi_event(4, MidiEventKind::ProgramChange { channel: 0, program: 9 });
    h.midi_event(5, MidiEventKind::Other);
    assert!(h.events.is_empty());
    assert_eq!(h.timestamp, 12);
}

#[test]
fn song_info_handler_reads_tempo_and_time_base() {
    let mut h = SongInfoHandler::new();
    h.header(96);
    assert_eq!(h.time_base, Some(96));
    let replaced = h.meta_event(MetaEventKind::SetTempo, &[0x07, 0xA1, 0x20]);
    assert!(!replaced);
    assert_eq!(h.tempo, Some(500_000));
    let replaced = h.meta_event(MetaEventKind::SetTempo, &[0x03, 0x0D, 0x40]);
    assert!(replaced);
    assert_eq!(h.tempo, Some(200_000));
}

#[test]
fn song_info_handler_rejects_timecode_division() {
    let mut h = SongInfoHandler::new();
    h.header(0);
    assert_eq!(h.time_base, None);
    let replaced = h.meta_event(MetaEventKind::Marker, &[1, 2, 3]);
    assert!(!replaced);
    assert_eq!(h.tempo, None);
}

#[test]
fn channel_info_handler_keeps_first_name_and_warns_on_second() {
    let mut h = ChannelInfoHandler::new();
    h.meta_event(MetaEventKind::SequenceOrTrackName, b"Melody");
    h.meta_event(MetaEventKind::InstrumentName, b"Piano");
    h.meta_event(MetaEventKind::SequenceOrTrackName, b"Renamed");
    let tracks = h.track_info();
    assert_eq!(tracks.len(), 1);
    assert_eq!(tracks[0].midi_track, 0);
    assert_eq!(tracks[0].name.as_deref(), Some("Melody"));
    assert_eq!(tracks[0].instrument.as_deref(), Some("Piano"));
    assert_eq!(h.warnings, vec![InfoWarning::DuplicateTrackName { midi_track: 0 }]);
}

#[test]
fn channel_info_handler_decodes_names_lossily() {
    let mut h = ChannelInfoHandler::new();
    h.meta_event(MetaEventKind::SequenceOrTrackName, &[0x41, 0xFF, 0x42]);
    let tracks = h.track_info();
    assert_eq!(tracks[0].name.as_deref(), Some("A\u{FFFD}B"));
}

#[test]
fn channel_info_handler_records_banks_and_programs() {
    let mut h = ChannelInfoHandler::new();
    h.track_change(); // header done
    h.midi_event(MidiEventKind::ControlChange { channel: 1, control: 0, data: 0 });
    h.midi_event(MidiEventKind::ProgramChange { channel: 1, program: 5 });
    h.midi_event(MidiEventKind::NoteOn { channel: 9, note: 35, velocity: 100 });
    h.track_change(); // track 1
    h.midi_event(MidiEventKind::ProgramChange { channel: 0, program: 41 });
    // Second program on the same channel is kept out, with a warning.
    h.midi_event(MidiEventKind::ProgramChange { channel: 0, program: 42 });
    // A non-bank controller does nothing here.
    h.midi_event(MidiEventKind::ControlChange { channel: 0, control: 7, data: 100 });

    let (channels, warnings) = h.channel_info();
    assert_eq!(channels.len(), 3);
    assert_eq!(
        (channels[0].midi_track, channels[0].midi_channel, channels[0].bank, channels[0].program),
        (0, 1, 0, 5)
    );
    assert_eq!(
        (channels[1].midi_track, channels[1].midi_channel, channels[1].bank, channels[1].program),
        (0, 9, 0, 0)
    );
    assert_eq!(
        (channels[2].midi_track, channels[2].midi_channel, channels[2].bank, channels[2].program),
        (1, 0, 0, 41)
    );
    assert_eq!(
        h.warnings,
        vec![InfoWarning::ProgramChanged { midi_track: 1, program: 42 }]
    );
    // The press-only channel is missing both; the others are missing banks.
    assert_eq!(
        warnings,
        vec![
            InfoWarning::MissingBank { midi_track: 0, midi_channel: 9 },
            InfoWarning::MissingProgram { midi_track: 0, midi_channel: 9 },
            InfoWarning::MissingBank { midi_track: 1, midi_channel: 0 },
        ]
    );
}

#[test]
fn channel_table_stays_sorted_by_key() {
    let mut h = ChannelInfoHandler::new();
    h.track_change();
    h.midi_event(MidiEventKind::NoteOn { channel: 9, note: 35, velocity: 1 });
    h.midi_event(MidiEventKind::NoteOn { channel: 2, note: 60, velocity: 1 });
    h.midi_event(MidiEventKind::NoteOn { channel: 5, note: 62, velocity: 1 });
    let (channels, _warnings) = h.channel_info();
    let keys: Vec<(usize, u8)> =
        channels.iter().map(|c| (c.midi_track, c.midi_channel)).collect();
    assert_eq!(keys, vec![(0, 2), (0, 5), (0, 9)]);
}

#[test]
fn song_assembles_from_handler_output() {
    let mut notes_handler = NotesHandler::new();
    notes_handler.midi_event(4, MidiEventKind::NoteOn { channel: 0, note: 60, velocity: 64 });
    let mut info = ChannelInfoHandler::new();
    info.midi_event(MidiEventKind::NoteOn { channel: 0, note: 60, velocity: 64 });
    let (channel_info, _warnings) = info.channel_info();
    let midi = Midi::from_impl(MidiImpl {
        track_info: info.track_info(),
        channel_info,
        note_events: notes_handler.events,
        time_base: Some(96),
        tempo: Some(500_000),
    });
    assert_eq!(midi.notes().len(), 1);
    assert_eq!(midi.channels().len(), 1);
    assert_eq!(midi.tracks().len(), 0);
    assert_eq!(midi.time_base(), Some(96));
    assert_eq!(midi.tempo(), Some(500_000));
    let empty = Midi::new();
    assert_eq!(empty.notes().len(), 0);
    assert_eq!(empty.time_base(), None);
}

#[test]
fn duplicate_instrument_and_bank_changes_warn() {
    let mut h = ChannelInfoHandler::new();
    h.meta_event(MetaEventKind::InstrumentName, b"Flute");
    h.meta_event(MetaEventKind::InstrumentName, b"Oboe");
    assert_eq!(h.warnings, vec![InfoWarning::DuplicateInstrumentName { midi_track: 0 }]);
    h.midi_event(MidiEventKind::ControlChange { channel: 0, control: 0, data: 1 });
    h.midi_event(MidiEventKind::ControlChange { channel: 0, control: 0, data: 2 });
    assert_eq!(
        h.warnings,
        vec![
            InfoWarning::DuplicateInstrumentName { midi_track: 0 },
            InfoWarning::BankChanged { midi_track: 0, bank: 2 },
        ]
    );
    let tracks = h.track_info();
    assert_eq!(tracks[0].instrument.as_deref(), Some("Flute"));
    assert_eq!(tracks[0].name, None);
    let (channels, warnings) = h.channel_info();
    assert_eq!(channels[0].bank, 1);
    assert_eq!(warnings, vec![InfoWarning::MissingProgram { midi_track: 0, midi_channel: 0 }]);
}
