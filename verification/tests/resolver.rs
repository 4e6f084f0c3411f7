use pianoroll::config::ChannelSelector;
use pianoroll::midi::{note_durations, press_count, NoteAction, NoteEvent, NoteWithDuration};
use pianoroll::note::MidiNote;
use pianoroll::resolve::{Diagnostic, Resolver};

fn ev(timestamp: u64, track: usize, channel: u8, pitch: u8, action: NoteAction) -> NoteEvent {
    NoteEvent { timestamp, track, channel, note: MidiNote { value: pitch }, action }
}

fn sel(track: usize, channel: u8, offset: i8) -> ChannelSelector {
    ChannelSelector { midi_track: track, midi_channel: channel, offset }
}

fn nwd(timestamp: u64, duration: u64, pitch: u8) -> NoteWithDuration {
    NoteWithDuration { timestamp, duration, note: MidiNote { value: pitch } }
}

#[test]
fn simple_press_release_pair() {
    let events = vec![ev(0, 0, 0, 60, NoteAction::On), ev(100, 0, 0, 60, NoteAction::Off)];
    let selectors = vec![sel(0, 0, 0)];
    let (notes, diags) = note_durations(&events, 96, &selectors);
    assert_eq!(notes, vec![nwd(0, 100, 60)]);
    assert!(diags.is_empty());
}

#[test]
fn repress_within_tolerance_is_absorbed_silently() {
    // fudge factor = 60 / 3 = 20 ticks; the re-press gap is 10.
    let events = vec![
        ev(0, 0, 0, 60, NoteAction::On),
        ev(10, 0, 0, 60, NoteAction::On),
        ev(50, 0, 0, 60, NoteAction::Off),
        ev(60, 0, 0, 60, NoteAction::Off),
    ];
    let selectors = vec![sel(0, 0, 0)];
    let (notes, diags) = note_durations(&events, 60, &selectors);
    assert_eq!(notes, vec![nwd(0, 50, 60)]);
    assert!(diags.is_empty());
}

#[test]
fn repress_beyond_tolerance_only_adds_a_diagnostic() {
    // fudge factor = 15 / 3 = 5 ticks; the re-press gap is 10.
    let events = vec![
        ev(0, 0, 0, 60, NoteAction::On),
        ev(10, 0, 0, 60, NoteAction::On),
        ev(50, 0, 0, 60, NoteAction::Off),
        ev(60, 0, 0, 60, NoteAction::Off),
    ];
    let selectors = vec![sel(0, 0, 0)];
    let (notes, diags) = note_durations(&events, 15, &selectors);
    // Tolerance affects diagnostics only, never interval correctness.
    assert_eq!(notes, vec![nwd(0, 50, 60)]);
    assert_eq!(
        diags,
        vec![Diagnostic::AnomalousRePress {
            timestamp: 10,
            track: 0,
            channel: 0,
            note: MidiNote { value: 60 },
            prev_timestamp: 0,
            prev_track: 0,
            prev_channel: 0,
        }]
    );
}

#[test]
fn orphan_release_is_diagnosed_and_dropped() {
    let events = vec![ev(5, 0, 0, 60, NoteAction::Off)];
    let selectors = vec![sel(0, 0, 0)];
    let (notes, diags) = note_durations(&events, 96, &selectors);
    assert!(notes.is_empty());
    assert_eq!(
        diags,
        vec![Diagnostic::OrphanRelease {
            timestamp: 5,
            track: 0,
            channel: 0,
            note: MidiNote { value: 60 },
        }]
    );
}

#[test]
fn independent_passes_agree() {
    // The same single press/release pair through two fresh resolvers.
    let mut first = Resolver::new(20);
    let mut second = Resolver::new(20);
    for r in [&mut first, &mut second] {
        r.handle_event(0, 1, 2, MidiNote { value: 72 }, NoteAction::On);
        r.handle_event(30, 1, 2, MidiNote { value: 72 }, NoteAction::Off);
    }
    let (notes1, diags1) = first.finish();
    let (notes2, diags2) = second.finish();
    assert_eq!(notes1, notes2);
    assert_eq!(diags1, diags2);
    assert_eq!(notes1, vec![nwd(0, 30, 72)]);
    assert!(diags1.is_empty());
}

#[test]
fn overlapping_pitches_emit_in_release_order() {
    // The lower pitch is pressed first but released last: emission order is
    // release order, and every start is some press event's timestamp.
    let events = vec![
        ev(0, 0, 0, 60, NoteAction::On),
        ev(10, 0, 0, 64, NoteAction::On),
        ev(20, 0, 0, 64, NoteAction::Off),
        ev(40, 0, 0, 60, NoteAction::Off),
    ];
    let selectors = vec![sel(0, 0, 0)];
    let (notes, diags) = note_durations(&events, 96, &selectors);
    assert_eq!(notes, vec![nwd(10, 10, 64), nwd(0, 40, 60)]);
    assert!(diags.is_empty());
}

#[test]
fn dangling_press_at_end_is_dropped_silently() {
    let events = vec![ev(0, 0, 0, 60, NoteAction::On)];
    let selectors = vec![sel(0, 0, 0)];
    let (notes, diags) = note_durations(&events, 96, &selectors);
    assert!(notes.is_empty());
    assert!(diags.is_empty());
}

#[test]
fn unselected_events_are_dropped_without_orphans() {
    // The press and release on track 1 are both dropped by selection, so
    // neither opens a hole nor orphans a release.
    let events = vec![
        ev(0, 1, 0, 60, NoteAction::On),
        ev(10, 0, 0, 62, NoteAction::On),
        ev(20, 1, 0, 60, NoteAction::Off),
        ev(30, 0, 0, 62, NoteAction::Off),
    ];
    let selectors = vec![sel(0, 0, 0)];
    let (notes, diags) = note_durations(&events, 96, &selectors);
    assert_eq!(notes, vec![nwd(10, 20, 62)]);
    assert!(diags.is_empty());
}

#[test]
fn offset_is_applied_to_the_resolution_key() {
    // Two sources with offsets put onto the same hole: the second press is
    // a re-press of the same resolved pitch.
    let events = vec![
        ev(0, 0, 0, 60, NoteAction::On),
        ev(5, 1, 3, 48, NoteAction::On),
        ev(50, 0, 0, 60, NoteAction::Off),
        ev(55, 1, 3, 48, NoteAction::Off),
    ];
    let selectors = vec![sel(0, 0, 0), sel(1, 3, 12)];
    let (notes, diags) = note_durations(&events, 60, &selectors);
    // One interval, starting at the first press; the extra release is
    // absorbed by the suppression credit from the extra press.
    assert_eq!(notes, vec![nwd(0, 50, 60)]);
    assert!(diags.is_empty());
}

#[test]
fn out_of_range_pitch_is_diagnosed_and_dropped() {
    let events = vec![
        ev(0, 0, 0, 100, NoteAction::On),
        ev(10, 0, 0, 100, NoteAction::Off),
    ];
    let selectors = vec![sel(0, 0, 10)];
    let (notes, diags) = note_durations(&events, 96, &selectors);
    assert!(notes.is_empty());
    assert_eq!(
        diags,
        vec![
            Diagnostic::OutOfRange {
                timestamp: 0,
                track: 0,
                channel: 0,
                note: MidiNote { value: 100 },
                offset: 10,
            },
            Diagnostic::OutOfRange {
                timestamp: 10,
                track: 0,
                channel: 0,
                note: MidiNote { value: 100 },
                offset: 10,
            },
        ]
    );
}

#[test]
fn suppression_books_balance_over_a_full_pass() {
    // Two presses while open, two absorbed releases, no orphans: the extra
    // presses match the absorbed releases exactly.
    let events = vec![
        ev(0, 0, 0, 60, NoteAction::On),
        ev(1, 0, 0, 60, NoteAction::On),
        ev(2, 0, 0, 60, NoteAction::On),
        ev(10, 0, 0, 60, NoteAction::Off),
        ev(11, 0, 0, 60, NoteAction::Off),
        ev(12, 0, 0, 60, NoteAction::Off),
    ];
    let selectors = vec![sel(0, 0, 0)];
    let (notes, diags) = note_durations(&events, 96, &selectors);
    assert_eq!(notes, vec![nwd(0, 10, 60)]);
    assert!(diags.is_empty());
}

#[test]
fn suppression_credit_outlives_the_interval() {
    // The extra press's credit is spent on a release arriving after the
    // hole was closed again, not reported as an orphan.
    let events = vec![
        ev(0, 0, 0, 60, NoteAction::On),
        ev(1, 0, 0, 60, NoteAction::On),
        ev(10, 0, 0, 60, NoteAction::Off),
        ev(20, 0, 0, 60, NoteAction::On),
        ev(30, 0, 0, 60, NoteAction::Off),
        ev(40, 0, 0, 60, NoteAction::Off),
    ];
    let selectors = vec![sel(0, 0, 0)];
    let (notes, diags) = note_durations(&events, 96, &selectors);
    assert_eq!(notes, vec![nwd(0, 10, 60), nwd(20, 10, 60)]);
    assert!(diags.is_empty());
}

#[test]
fn press_count_tallies_only_presses_of_the_source() {
    let events = vec![
        ev(0, 0, 0, 60, NoteAction::On),
        ev(1, 0, 1, 61, NoteAction::On),
        ev(2, 0, 0, 62, NoteAction::On),
        ev(3, 0, 0, 60, NoteAction::Off),
        ev(4, 1, 0, 60, NoteAction::On),
    ];
    assert_eq!(press_count(&events, 0, 0), 2);
    assert_eq!(press_count(&events, 0, 1), 1);
    assert_eq!(press_count(&events, 1, 0), 1);
    assert_eq!(press_count(&events, 2, 0), 0);
}

#[test]
fn repress_gap_equal_to_tolerance_is_still_silent() {
    // fudge factor = 60 / 3 = 20 ticks; only a gap strictly beyond it is
    // anomalous.
    let at_tolerance = vec![
        ev(0, 0, 0, 60, NoteAction::On),
        ev(20, 0, 0, 60, NoteAction::On),
        ev(50, 0, 0, 60, NoteAction::Off),
        ev(60, 0, 0, 60, NoteAction::Off),
    ];
    let selectors = vec![sel(0, 0, 0)];
    let (notes, diags) = note_durations(&at_tolerance, 60, &selectors);
    assert_eq!(notes, vec![nwd(0, 50, 60)]);
    assert!(diags.is_empty());

    let past_tolerance = vec![
        ev(0, 0, 0, 60, NoteAction::On),
        ev(21, 0, 0, 60, NoteAction::On),
        ev(50, 0, 0, 60, NoteAction::Off),
        ev(60, 0, 0, 60, NoteAction::Off),
    ];
    let (notes, diags) = note_durations(&past_tolerance, 60, &selectors);
    assert_eq!(notes, vec![nwd(0, 50, 60)]);
    assert_eq!(diags.len(), 1);
    assert!(matches!(diags[0], Diagnostic::AnomalousRePress { timestamp: 21, .. }));
}
