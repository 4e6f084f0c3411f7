//! The press/release resolution engine.
//!
//! Per resolved pitch the resolver keeps at most one open press and a
//! suppression counter. A press on a closed hole opens it; a press on an
//! open hole is absorbed into the counter (with a diagnostic when the gap
//! exceeds the fudge tolerance); a release on an open hole closes it and
//! emits the finished interval; a release on a closed hole drains the
//! counter when it can, else it is an orphan.
//!
//! The whole transition table is stated once, as the spec function
//! [`rs_step`]; every exec method is proved to follow it exactly.

use vstd::prelude::*;
use crate::config::ChannelSelector;
use crate::config::spec_select_offset;
use crate::midi::NoteAction;
use crate::midi::NoteEvent;
use crate::midi::NoteWithDuration;
use crate::note::HIGHEST_PLAYABLE_PITCH;
use crate::note::LOWEST_PLAYABLE_PITCH;
use crate::note::MidiNote;

verus! {

/// The record held while a hole is open: who pressed it, and when.
#[derive(Debug, Clone, Copy, PartialEq, Eq, Structural)]
pub struct InFlightPress {
    pub track: usize,
    pub channel: u8,
    pub timestamp: u64,
}

/// A recoverable anomaly observed during a pass. None of these aborts the
/// pass; the engine only asks that they can be observed.
#[derive(Debug, Clone, PartialEq, Eq, Structural)]
pub enum Diagnostic {
    /// Applying the selector's offset left the playable range; the event was
    /// dropped. Carries the raw pitch, before the offset.
    OutOfRange { timestamp: u64, track: usize, channel: u8, note: MidiNote, offset: i8 },
    /// A press on a hole already open for longer than the fudge tolerance.
    AnomalousRePress {
        timestamp: u64,
        track: usize,
        channel: u8,
        note: MidiNote,
        prev_timestamp: u64,
        prev_track: usize,
        prev_channel: u8,
    },
    /// A release with no open hole and no suppression credit; dropped.
    OrphanRelease { timestamp: u64, track: usize, channel: u8, note: MidiNote },
}

/// The mathematical state of one resolution pass: the two per-pitch tables
/// (indexed by resolved pitch, 0 through 127), the intervals emitted so far,
/// and the diagnostics raised so far.
#[verifier::ext_equal]
pub ghost struct ResolverState {
    pub fudge: u64,
    pub in_flight: Seq<Option<InFlightPress>>,
    pub suppressed: Seq<nat>,
    pub finished: Seq<NoteWithDuration>,
    pub diagnostics: Seq<Diagnostic>,
}

impl ResolverState {
    pub open spec fn wf(self) -> bool {
        self.in_flight.len() == 128 && self.suppressed.len() == 128
    }
}

/// A fresh pass: every hole closed, every counter zero, nothing emitted.
pub open spec fn rs_init(fudge: u64) -> ResolverState {
    ResolverState {
        fudge,
        in_flight: Seq::new(128, |i: int| None),
        suppressed: Seq::new(128, |i: int| 0),
        finished: Seq::empty(),
        diagnostics: Seq::empty(),
    }
}

/// The transition table, keyed by (action, hole currently open?). `note` is
/// the resolved pitch; the caller has already applied the offset and checked
/// the playable range.
pub open spec fn rs_step(
    s: ResolverState,
    timestamp: u64,
    track: usize,
    channel: u8,
    note: MidiNote,
    action: NoteAction,
) -> ResolverState {
    let p = note.value as int;
    match action {
        NoteAction::On => match s.in_flight[p] {
            Some(prev) => ResolverState {
                fudge: s.fudge,
                in_flight: s.in_flight,
                suppressed: s.suppressed.update(p, s.suppressed[p] + 1),
                finished: s.finished,
                diagnostics: if timestamp - prev.timestamp > s.fudge {
                    s.diagnostics.push(
                        Diagnostic::AnomalousRePress {
                            timestamp,
                            track,
                            channel,
                            note,
                            prev_timestamp: prev.timestamp,
                            prev_track: prev.track,
                            prev_channel: prev.channel,
                        },
                    )
                } else {
                    s.diagnostics
                },
            },
            None => ResolverState {
                fudge: s.fudge,
                in_flight: s.in_flight.update(p, Some(InFlightPress { track, channel, timestamp })),
                suppressed: s.suppressed,
                finished: s.finished,
                diagnostics: s.diagnostics,
            },
        },
        NoteAction::Off => match s.in_flight[p] {
            Some(prev) => ResolverState {
                fudge: s.fudge,
                in_flight: s.in_flight.update(p, None),
                suppressed: s.suppressed,
                finished: s.finished.push(
                    NoteWithDuration {
                        timestamp: prev.timestamp,
                        duration: (timestamp - prev.timestamp) as u64,
                        note,
                    },
                ),
                diagnostics: s.diagnostics,
            },
            None => if s.suppressed[p] > 0 {
                ResolverState {
                    fudge: s.fudge,
                    in_flight: s.in_flight,
                    suppressed: s.suppressed.update(p, (s.suppressed[p] - 1) as nat),
                    finished: s.finished,
                    diagnostics: s.diagnostics,
                }
            } else {
                ResolverState {
                    fudge: s.fudge,
                    in_flight: s.in_flight,
                    suppressed: s.suppressed,
                    finished: s.finished,
                    diagnostics: s.diagnostics.push(
                        Diagnostic::OrphanRelease { timestamp, track, channel, note },
                    ),
                }
            },
        },
    }
}

/// The resolver run over a whole sequence of already-resolved events.
pub open spec fn rs_run(s: ResolverState, events: Seq<NoteEvent>) -> ResolverState
    decreases events.len(),
{
    if events.len() == 0 {
        s
    } else {
        let e = events.last();
        rs_step(rs_run(s, events.drop_last()), e.timestamp, e.track, e.channel, e.note, e.action)
    }
}

/// One raw event put through the whole admission pipeline: selection,
/// offset, range validation, then the transition table.
pub open spec fn feed_step(
    s: ResolverState,
    selectors: Seq<ChannelSelector>,
    ev: NoteEvent,
) -> ResolverState {
    match spec_select_offset(selectors, ev.track, ev.channel) {
        None => s,
        Some(offset) => if LOWEST_PLAYABLE_PITCH <= ev.note.value + offset
            <= HIGHEST_PLAYABLE_PITCH {
            rs_step(
                s,
                ev.timestamp,
                ev.track,
                ev.channel,
                MidiNote { value: (ev.note.value + offset) as u8 },
                ev.action,
            )
        } else {
            ResolverState {
                fudge: s.fudge,
                in_flight: s.in_flight,
                suppressed: s.suppressed,
                finished: s.finished,
                diagnostics: s.diagnostics.push(
                    Diagnostic::OutOfRange {
                        timestamp: ev.timestamp,
                        track: ev.track,
                        channel: ev.channel,
                        note: ev.note,
                        offset,
                    },
                ),
            }
        },
    }
}

/// A whole pass over a raw feed.
pub open spec fn feed_run(
    s: ResolverState,
    selectors: Seq<ChannelSelector>,
    events: Seq<NoteEvent>,
) -> ResolverState
    decreases events.len(),
{
    if events.len() == 0 {
        s
    } else {
        feed_step(feed_run(s, selectors, events.drop_last()), selectors, events.last())
    }
}

/// The executable resolver. Its whole behaviour is `rs_step` applied once
/// per admitted event; see the `ensures` of [`Resolver::handle_event`].
pub struct Resolver {
    fudge_factor_ticks: u64,
    in_flight: Vec<Option<InFlightPress>>,
    suppressed: Vec<u64>,
    finished: Vec<NoteWithDuration>,
    diagnostics: Vec<Diagnostic>,
}

impl View for Resolver {
    type V = ResolverState;

    closed spec fn view(&self) -> ResolverState {
        ResolverState {
            fudge: self.fudge_factor_ticks,
            in_flight: self.in_flight@,
            suppressed: self.suppressed@.map_values(|c: u64| c as nat),
            finished: self.finished@,
            diagnostics: self.diagnostics@,
        }
    }
}

impl Resolver {
    pub open spec fn wf(&self) -> bool {
        self@.wf()
    }

    /// `fudge_factor_ticks` is the widest press-to-press gap on one hole
    /// still read as a single gesture.
    pub fn new(fudge_factor_ticks: u64) -> (r: Resolver)
        ensures
            r.wf(),
            r@ == rs_init(fudge_factor_ticks),
    {
        let mut in_flight: Vec<Option<InFlightPress>> = Vec::new();
        let mut suppressed: Vec<u64> = Vec::new();
        let mut i: usize = 0;
        while i < 128
            invariant
                i <= 128,
                in_flight@.len() == i,
                suppressed@.len() == i,
                forall|j: int| 0 <= j < i ==> in_flight@[j] is None,
                forall|j: int| 0 <= j < i ==> suppressed@[j] == 0,
            decreases 128 - i,
        {
            in_flight.push(None);
            suppressed.push(0);
            i = i + 1;
        }
        let r = Resolver {
            fudge_factor_ticks,
            in_flight,
            suppressed,
            finished: Vec::new(),
            diagnostics: Vec::new(),
        };
        proof {
            assert(r@.in_flight =~= rs_init(fudge_factor_ticks).in_flight);
            assert(r@.suppressed =~= rs_init(fudge_factor_ticks).suppressed);
            assert(r@ =~= rs_init(fudge_factor_ticks));
        }
        r
    }

    /// One admitted event, put through the transition table. The feed must
    /// not move backwards in time past an open press, and the pitch must be
    /// a resolved (7-bit) one.
    pub fn handle_event(
        &mut self,
        timestamp: u64,
        track: usize,
        channel: u8,
        note: MidiNote,
        action: NoteAction,
    )
        requires
            old(self).wf(),
            note.value < 128,
            forall|p: int|
                0 <= p < 128 && old(self)@.in_flight[p] is Some
                    ==> old(self)@.in_flight[p]->Some_0.timestamp <= timestamp,
            old(self)@.suppressed[note.value as int] < u64::MAX,
        ensures
            final(self).wf(),
            final(self)@ == rs_step(old(self)@, timestamp, track, channel, note, action),
    {
        let p = note.value as usize;
        let ghost post = rs_step(old(self)@, timestamp, track, channel, note, action);
        match action {
            NoteAction::On => {
                match self.in_flight[p] {
                    Some(prev) => {
                        assert(old(self)@.in_flight[p as int] is Some);
                        if timestamp - prev.timestamp > self.fudge_factor_ticks {
                            self.diagnostics.push(
                                Diagnostic::AnomalousRePress {
                                    timestamp,
                                    track,
                                    channel,
                                    note,
                                    prev_timestamp: prev.timestamp,
                                    prev_track: prev.track,
                                    prev_channel: prev.channel,
                                },
                            );
                        }
                        let c = self.suppressed[p];
                        self.suppressed.set(p, c + 1);
                        proof {
                            assert(self@.suppressed =~= post.suppressed);
                            assert(self@ =~= post);
                        }
                    },
                    None => {
                        self.in_flight.set(p, Some(InFlightPress { track, channel, timestamp }));
                        proof {
                            assert(self@.suppressed =~= post.suppressed);
                            assert(self@ =~= post);
                        }
                    },
                }
            },
            NoteAction::Off => {
                match self.in_flight[p] {
                    Some(prev) => {
                        assert(old(self)@.in_flight[p as int] is Some);
                        self.in_flight.set(p, None);
                        self.finished.push(
                            NoteWithDuration {
                                timestamp: prev.timestamp,
                                duration: timestamp - prev.timestamp,
                                note,
                            },
                        );
                        proof {
                            assert(self@.suppressed =~= post.suppressed);
                            assert(self@ =~= post);
                        }
                    },
                    None => {
                        let c = self.suppressed[p];
                        if c > 0 {
                            self.suppressed.set(p, c - 1);
                        } else {
                            self.diagnostics.push(
                                Diagnostic::OrphanRelease { timestamp, track, channel, note },
                            );
                        }
                        proof {
                            assert(self@.suppressed =~= post.suppressed);
                            assert(self@ =~= post);
                        }
                    },
                }
            },
        }
    }

    /// Records the validator's out-of-range finding; the event itself is
    /// dropped, so only the diagnostics stream moves.
    pub fn report_out_of_range(
        &mut self,
        timestamp: u64,
        track: usize,
        channel: u8,
        note: MidiNote,
        offset: i8,
    )
        requires
            old(self).wf(),
        ensures
            final(self).wf(),
            final(self)@ == (ResolverState {
                diagnostics: old(self)@.diagnostics.push(
                    Diagnostic::OutOfRange { timestamp, track, channel, note, offset },
                ),
                ..old(self)@
            }),
    {
        self.diagnostics.push(Diagnostic::OutOfRange { timestamp, track, channel, note, offset });
    }

    /// Ends the pass: every pitch still open is dropped silently, with no
    /// interval and no diagnostic, and what was emitted is handed out.
    pub fn finish(self) -> (r: (Vec<NoteWithDuration>, Vec<Diagnostic>))
        ensures
            r.0@ == self@.finished,
            r.1@ == self@.diagnostics,
    {
        (self.finished, self.diagnostics)
    }
}

} // verus!
