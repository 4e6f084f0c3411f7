//! Pass-wide laws of the resolver, stated over the model of
//! [`crate::resolve`] and proved once and for all: what the per-pitch
//! bookkeeping conserves, what an alternating feed produces, and where
//! every emitted interval's endpoints come from.

use vstd::prelude::*;
use crate::config::ChannelSelector;
use crate::config::spec_select_offset;
use crate::midi::NoteAction;
use crate::midi::NoteEvent;
use crate::midi::NoteWithDuration;
use crate::note::spec_resolve_pitch;
use crate::resolve::Diagnostic;
use crate::resolve::InFlightPress;
use crate::resolve::ResolverState;
use crate::resolve::feed_run;
use crate::resolve::rs_init;
use crate::resolve::rs_run;
use crate::resolve::rs_step;

verus! {

/// Number of press events for pitch `p` in the feed.
pub open spec fn count_on(events: Seq<NoteEvent>, p: int) -> nat
    decreases events.len(),
{
    if events.len() == 0 {
        0
    } else {
        count_on(events.drop_last(), p) + if events.last().action is On
            && events.last().note.value == p {
            1nat
        } else {
            0nat
        }
    }
}

/// Number of release events for pitch `p` in the feed.
pub open spec fn count_off(events: Seq<NoteEvent>, p: int) -> nat
    decreases events.len(),
{
    if events.len() == 0 {
        0
    } else {
        count_off(events.drop_last(), p) + if events.last().action is Off
            && events.last().note.value == p {
            1nat
        } else {
            0nat
        }
    }
}

/// Number of presses on `p` that found its hole already open, running the
/// feed from `s`.
pub open spec fn count_redundant_press(s: ResolverState, events: Seq<NoteEvent>, p: int) -> nat
    decreases events.len(),
{
    if events.len() == 0 {
        0
    } else {
        count_redundant_press(s, events.drop_last(), p) + if events.last().action is On
            && events.last().note.value == p && rs_run(s, events.drop_last()).in_flight[p]
            is Some {
            1nat
        } else {
            0nat
        }
    }
}

/// Number of releases on `p` absorbed by suppression credit, running the
/// feed from `s`.
pub open spec fn count_absorbed(s: ResolverState, events: Seq<NoteEvent>, p: int) -> nat
    decreases events.len(),
{
    if events.len() == 0 {
        0
    } else {
        count_absorbed(s, events.drop_last(), p) + if events.last().action is Off
            && events.last().note.value == p && rs_run(s, events.drop_last()).in_flight[p] is None
            && rs_run(s, events.drop_last()).suppressed[p] > 0 {
            1nat
        } else {
            0nat
        }
    }
}

/// Number of `OrphanRelease` diagnostics for pitch `p` in a stream.
pub open spec fn count_orphan_diags(diags: Seq<Diagnostic>, p: int) -> nat
    decreases diags.len(),
{
    if diags.len() == 0 {
        0
    } else {
        count_orphan_diags(diags.drop_last(), p) + if diags.last() matches
            Diagnostic::OrphanRelease { note, .. } && note.value == p {
            1nat
        } else {
            0nat
        }
    }
}

/// Number of `AnomalousRePress` diagnostics for pitch `p` in a stream.
pub open spec fn count_repress_diags(diags: Seq<Diagnostic>, p: int) -> nat
    decreases diags.len(),
{
    if diags.len() == 0 {
        0
    } else {
        count_repress_diags(diags.drop_last(), p) + if diags.last() matches
            Diagnostic::AnomalousRePress { note, .. } && note.value == p {
            1nat
        } else {
            0nat
        }
    }
}

/// Number of emitted intervals for pitch `p`.
pub open spec fn count_intervals(finished: Seq<NoteWithDuration>, p: int) -> nat
    decreases finished.len(),
{
    if finished.len() == 0 {
        0
    } else {
        count_intervals(finished.drop_last(), p) + if finished.last().note.value == p {
            1nat
        } else {
            0nat
        }
    }
}

/// 1 when the hole of pitch `p` is open in `s`.
pub open spec fn open01(s: ResolverState, p: int) -> nat {
    if s.in_flight[p] is Some {
        1
    } else {
        0
    }
}

/// Every pitch in the feed is a resolved, 7-bit one.
pub open spec fn events_wf(events: Seq<NoteEvent>) -> bool {
    forall|i: int| 0 <= i < events.len() ==> (#[trigger] events[i]).note.value < 128
}

proof fn lemma_count_orphan_diags_push(diags: Seq<Diagnostic>, d: Diagnostic, p: int)
    ensures
        count_orphan_diags(diags.push(d), p) == count_orphan_diags(diags, p) + if d matches
            Diagnostic::OrphanRelease { note, .. } && note.value == p {
            1nat
        } else {
            0nat
        },
{
    assert(diags.push(d).drop_last() =~= diags);
    assert(diags.push(d).last() == d);
}

proof fn lemma_count_repress_diags_push(diags: Seq<Diagnostic>, d: Diagnostic, p: int)
    ensures
        count_repress_diags(diags.push(d), p) == count_repress_diags(diags, p) + if d matches
            Diagnostic::AnomalousRePress { note, .. } && note.value == p {
            1nat
        } else {
            0nat
        },
{
    assert(diags.push(d).drop_last() =~= diags);
    assert(diags.push(d).last() == d);
}

proof fn lemma_count_intervals_push(finished: Seq<NoteWithDuration>, w: NoteWithDuration, p: int)
    ensures
        count_intervals(finished.push(w), p) == count_intervals(finished, p) + if w.note.value
            == p {
            1nat
        } else {
            0nat
        },
{
    assert(finished.push(w).drop_last() =~= finished);
    assert(finished.push(w).last() == w);
}

/// The books of one pitch balance over any run: presses split into opens
/// and redundant presses; releases split into closes, absorbed ones and
/// orphans; the suppression counter moves by exactly the redundant presses
/// minus the absorbed releases; and opens and closes differ by whether the
/// hole's state changed.
pub proof fn lemma_resolver_accounting(s: ResolverState, events: Seq<NoteEvent>, p: int)
    requires
        s.wf(),
        0 <= p < 128,
        events_wf(events),
    ensures
        rs_run(s, events).wf(),
        rs_run(s, events).fudge == s.fudge,
        rs_run(s, events).suppressed[p] + count_absorbed(s, events, p) == s.suppressed[p]
            + count_redundant_press(s, events, p),
        count_off(events, p) + count_intervals(s.finished, p) + count_orphan_diags(
            s.diagnostics,
            p,
        ) == count_intervals(rs_run(s, events).finished, p) + count_orphan_diags(
            rs_run(s, events).diagnostics,
            p,
        ) + count_absorbed(s, events, p),
        count_on(events, p) + open01(s, p) + count_intervals(s.finished, p)
            == count_redundant_press(s, events, p) + count_intervals(rs_run(s, events).finished, p)
            + open01(rs_run(s, events), p),
    decreases events.len(),
{
    if events.len() > 0 {
        let rest = events.drop_last();
        let e = events.last();
        assert(events_wf(rest)) by {
            assert(forall|i: int| 0 <= i < rest.len() ==> rest[i] == events[i]);
        }
        lemma_resolver_accounting(s, rest, p);
        let pre = rs_run(s, rest);
        let q = e.note.value as int;
        assert(e.note.value < 128);
        match e.action {
            NoteAction::On => {
                match pre.in_flight[q] {
                    Some(prev) => {
                        if e.timestamp - prev.timestamp > pre.fudge {
                            lemma_count_repress_diags_push(
                                pre.diagnostics,
                                Diagnostic::AnomalousRePress {
                                    timestamp: e.timestamp,
                                    track: e.track,
                                    channel: e.channel,
                                    note: e.note,
                                    prev_timestamp: prev.timestamp,
                                    prev_track: prev.track,
                                    prev_channel: prev.channel,
                                },
                                p,
                            );
                            lemma_count_orphan_diags_push(
                                pre.diagnostics,
                                Diagnostic::AnomalousRePress {
                                    timestamp: e.timestamp,
                                    track: e.track,
                                    channel: e.channel,
                                    note: e.note,
                                    prev_timestamp: prev.timestamp,
                                    prev_track: prev.track,
                                    prev_channel: prev.channel,
                                },
                                p,
                            );
                        }
                    },
                    None => {},
                }
            },
            NoteAction::Off => {
                match pre.in_flight[q] {
                    Some(prev) => {
                        lemma_count_intervals_push(
                            pre.finished,
                            NoteWithDuration {
                                timestamp: prev.timestamp,
                                duration: (e.timestamp - prev.timestamp) as u64,
                                note: e.note,
                            },
                            p,
                        );
                    },
                    None => {
                        if pre.suppressed[q] > 0 {
                        } else {
                            lemma_count_orphan_diags_push(
                                pre.diagnostics,
                                Diagnostic::OrphanRelease {
                                    timestamp: e.timestamp,
                                    track: e.track,
                                    channel: e.channel,
                                    note: e.note,
                                },
                                p,
                            );
                        }
                    },
                }
            },
        }
    }
}

/// The suppression balance over a full, balanced pass: when presses and
/// releases for a pitch pair off and its hole ends closed, the presses that
/// found the hole already open are exactly the releases absorbed via
/// suppression plus the orphan releases diagnosed for that pitch.
///
/// An unbalanced feed breaks the equation (a feed of two presses and no
/// release has one redundant press, nothing absorbed and no orphan), so the
/// balance is required.
pub proof fn lemma_suppression_balance(f: u64, events: Seq<NoteEvent>, p: int)
    requires
        0 <= p < 128,
        events_wf(events),
        count_on(events, p) == count_off(events, p),
        rs_run(rs_init(f), events).in_flight[p] is None,
    ensures
        count_redundant_press(rs_init(f), events, p) == count_absorbed(rs_init(f), events, p)
            + count_orphan_diags(rs_run(rs_init(f), events).diagnostics, p),
{
    lemma_resolver_accounting(rs_init(f), events, p);
}

/// Two independent passes over one feed cannot disagree: resolution is a
/// pure function of the starting state and the events, and every fresh
/// instance starts from the same state.
pub proof fn lemma_independent_passes(
    s1: ResolverState,
    s2: ResolverState,
    f: u64,
    events: Seq<NoteEvent>,
)
    requires
        s1 == rs_init(f),
        s2 == rs_init(f),
    ensures
        rs_run(s1, events).finished == rs_run(s2, events).finished,
        rs_run(s1, events).diagnostics == rs_run(s2, events).diagnostics,
{
}

/// Peeling the first event off a run.
proof fn lemma_run_front(s: ResolverState, events: Seq<NoteEvent>, p: int)
    requires
        events.len() > 0,
    ensures
        ({
            let e = events[0];
            let s1 = rs_step(s, e.timestamp, e.track, e.channel, e.note, e.action);
            rs_run(s, events) == rs_run(s1, events.skip(1)) && count_redundant_press(s, events, p)
                == count_redundant_press(s1, events.skip(1), p) + (if e.action is On
                && e.note.value == p && s.in_flight[p] is Some {
                1nat
            } else {
                0nat
            }) && count_absorbed(s, events, p) == count_absorbed(s1, events.skip(1), p) + (
            if e.action is Off && e.note.value == p && s.in_flight[p] is None && s.suppressed[p]
                > 0 {
                1nat
            } else {
                0nat
            })
        }),
    decreases events.len(),
{
    let e = events[0];
    let s1 = rs_step(s, e.timestamp, e.track, e.channel, e.note, e.action);
    let dl = events.drop_last();
    let tail = events.skip(1);
    if events.len() == 1 {
        assert(dl =~= Seq::<NoteEvent>::empty());
        assert(tail =~= Seq::<NoteEvent>::empty());
        assert(events.last() == e);
        assert(rs_run(s, dl) == s);
        assert(rs_run(s1, tail) == s1);
        assert(count_redundant_press(s, dl, p) == 0);
        assert(count_absorbed(s, dl, p) == 0);
        assert(count_redundant_press(s1, tail, p) == 0);
        assert(count_absorbed(s1, tail, p) == 0);
    } else {
        lemma_run_front(s, dl, p);
        assert(dl[0] == e);
        assert(tail.drop_last() =~= dl.skip(1));
        assert(tail.last() == events.last());
        let last = events.last();
        assert(rs_run(s, events) == rs_step(
            rs_run(s, dl),
            last.timestamp,
            last.track,
            last.channel,
            last.note,
            last.action,
        ));
        assert(rs_run(s1, tail) == rs_step(
            rs_run(s1, tail.drop_last()),
            last.timestamp,
            last.track,
            last.channel,
            last.note,
            last.action,
        ));
        assert(rs_run(s1, tail.drop_last()) == rs_run(s, dl));
        assert(count_redundant_press(s, events, p) == count_redundant_press(s, dl, p) + (
        if last.action is On && last.note.value == p && rs_run(s, dl).in_flight[p] is Some {
            1nat
        } else {
            0nat
        }));
        assert(count_redundant_press(s1, tail, p) == count_redundant_press(s1, tail.drop_last(), p)
            + (if last.action is On && last.note.value == p && rs_run(s1, tail.drop_last()).in_flight[p]
            is Some {
            1nat
        } else {
            0nat
        }));
        assert(count_absorbed(s, events, p) == count_absorbed(s, dl, p) + (if last.action is Off
            && last.note.value == p && rs_run(s, dl).in_flight[p] is None && rs_run(
            s,
            dl,
        ).suppressed[p] > 0 {
            1nat
        } else {
            0nat
        }));
        assert(count_absorbed(s1, tail, p) == count_absorbed(s1, tail.drop_last(), p) + (
        if last.action is Off && last.note.value == p && rs_run(s1, tail.drop_last()).in_flight[p]
            is None && rs_run(s1, tail.drop_last()).suppressed[p] > 0 {
            1nat
        } else {
            0nat
        }));
    }
}

/// Peeling the first event off the per-pitch press and release counts.
proof fn lemma_count_on_off_front(events: Seq<NoteEvent>, p: int)
    requires
        events.len() > 0,
    ensures
        count_on(events, p) == count_on(events.skip(1), p) + (if events[0].action is On
            && events[0].note.value == p {
            1nat
        } else {
            0nat
        }),
        count_off(events, p) == count_off(events.skip(1), p) + (if events[0].action is Off
            && events[0].note.value == p {
            1nat
        } else {
            0nat
        }),
    decreases events.len(),
{
    if events.len() == 1 {
        assert(events.drop_last() =~= Seq::<NoteEvent>::empty());
        assert(events.skip(1) =~= Seq::<NoteEvent>::empty());
    } else {
        lemma_count_on_off_front(events.drop_last(), p);
        assert(events.drop_last()[0] == events[0]);
        assert(events.skip(1).drop_last() =~= events.drop_last().skip(1));
        assert(events.skip(1).last() == events.last());
    }
}

/// Presses and releases for pitch `p` alternate strictly, starting from a
/// hole that is open iff `open`.
pub open spec fn alternating_from(events: Seq<NoteEvent>, p: int, open: bool) -> bool
    decreases events.len(),
{
    if events.len() == 0 {
        true
    } else if events[0].note.value == p {
        match events[0].action {
            NoteAction::On => !open && alternating_from(events.skip(1), p, true),
            NoteAction::Off => open && alternating_from(events.skip(1), p, false),
        }
    } else {
        alternating_from(events.skip(1), p, open)
    }
}

/// Whether the hole of pitch `p` ends open after an alternating feed that
/// started with it open iff `open`.
pub open spec fn alternating_end(events: Seq<NoteEvent>, p: int, open: bool) -> bool
    decreases events.len(),
{
    if events.len() == 0 {
        open
    } else if events[0].note.value == p {
        alternating_end(events.skip(1), p, events[0].action is On)
    } else {
        alternating_end(events.skip(1), p, open)
    }
}

/// A well-formed (strictly alternating, non-overlapping) feed for a pitch
/// draws no diagnostic for it, never touches its suppression counter, and
/// emits exactly one interval per press/release pair.
pub proof fn lemma_alternating_feed(s: ResolverState, events: Seq<NoteEvent>, p: int)
    requires
        s.wf(),
        0 <= p < 128,
        events_wf(events),
        alternating_from(events, p, s.in_flight[p] is Some),
        s.suppressed[p] == 0,
    ensures
        rs_run(s, events).suppressed[p] == 0,
        count_redundant_press(s, events, p) == 0,
        count_absorbed(s, events, p) == 0,
        count_orphan_diags(rs_run(s, events).diagnostics, p) == count_orphan_diags(
            s.diagnostics,
            p,
        ),
        count_repress_diags(rs_run(s, events).diagnostics, p) == count_repress_diags(
            s.diagnostics,
            p,
        ),
        count_intervals(rs_run(s, events).finished, p) == count_intervals(s.finished, p)
            + count_off(events, p),
        rs_run(s, events).in_flight[p] is Some == alternating_end(
            events,
            p,
            s.in_flight[p] is Some,
        ),
    decreases events.len(),
{
    if events.len() == 0 {
    } else {
        let e = events[0];
        let s1 = rs_step(s, e.timestamp, e.track, e.channel, e.note, e.action);
        let q = e.note.value as int;
        lemma_run_front(s, events, p);
        lemma_count_on_off_front(events, p);
        assert(events_wf(events.skip(1))) by {
            assert(forall|i: int|
                0 <= i < events.skip(1).len() ==> events.skip(1)[i] == events[i + 1]);
        }
        assert(e.note.value < 128);
        match e.action {
            NoteAction::On => {
                match s.in_flight[q] {
                    Some(prev) => {
                        if e.timestamp - prev.timestamp > s.fudge {
                            lemma_count_repress_diags_push(
                                s.diagnostics,
                                Diagnostic::AnomalousRePress {
                                    timestamp: e.timestamp,
                                    track: e.track,
                                    channel: e.channel,
                                    note: e.note,
                                    prev_timestamp: prev.timestamp,
                                    prev_track: prev.track,
                                    prev_channel: prev.channel,
                                },
                                p,
                            );
                            lemma_count_orphan_diags_push(
                                s.diagnostics,
                                Diagnostic::AnomalousRePress {
                                    timestamp: e.timestamp,
                                    track: e.track,
                                    channel: e.channel,
                                    note: e.note,
                                    prev_timestamp: prev.timestamp,
                                    prev_track: prev.track,
                                    prev_channel: prev.channel,
                                },
                                p,
                            );
                        }
                    },
                    None => {},
                }
            },
            NoteAction::Off => {
                match s.in_flight[q] {
                    Some(prev) => {
                        lemma_count_intervals_push(
                            s.finished,
                            NoteWithDuration {
                                timestamp: prev.timestamp,
                                duration: (e.timestamp - prev.timestamp) as u64,
                                note: e.note,
                            },
                            p,
                        );
                    },
                    None => {
                        if s.suppressed[q] > 0 {
                        } else {
                            lemma_count_orphan_diags_push(
                                s.diagnostics,
                                Diagnostic::OrphanRelease {
                                    timestamp: e.timestamp,
                                    track: e.track,
                                    channel: e.channel,
                                    note: e.note,
                                },
                                p,
                            );
                            lemma_count_repress_diags_push(
                                s.diagnostics,
                                Diagnostic::OrphanRelease {
                                    timestamp: e.timestamp,
                                    track: e.track,
                                    channel: e.channel,
                                    note: e.note,
                                },
                                p,
                            );
                        }
                    },
                }
            },
        }
        lemma_alternating_feed(s1, events.skip(1), p);
    }
}

/// The feed never moves backwards in time.
pub open spec fn timestamps_nondecreasing(events: Seq<NoteEvent>) -> bool {
    forall|i: int, j: int|
        0 <= i <= j < events.len() ==> events[i].timestamp <= events[j].timestamp
}

/// Some press event of the feed supplied this interval's start.
pub open spec fn press_justified(events: Seq<NoteEvent>, w: NoteWithDuration) -> bool {
    exists|i: int|
        0 <= i < events.len() && (#[trigger] events[i]).action is On && events[i].note == w.note
            && events[i].timestamp == w.timestamp
}

/// Some release event of the feed supplied this interval's end, so the
/// duration is the exact, non-wrapped distance between the two.
pub open spec fn release_justified(events: Seq<NoteEvent>, w: NoteWithDuration) -> bool {
    exists|j: int|
        0 <= j < events.len() && (#[trigger] events[j]).action is Off && events[j].note == w.note
            && events[j].timestamp == w.timestamp + w.duration
}

/// Emission order may differ from chronological order, but every emitted
/// interval starts at some press event's timestamp and ends at the matching
/// release's timestamp; durations never wrap. The open holes always carry a
/// timestamp some press supplied.
pub proof fn lemma_emitted_intervals(f: u64, events: Seq<NoteEvent>)
    requires
        events_wf(events),
        timestamps_nondecreasing(events),
    ensures
        ({
            let fin = rs_run(rs_init(f), events);
            &&& forall|k: int|
                0 <= k < fin.finished.len() ==> press_justified(events, #[trigger] fin.finished[k])
                    && release_justified(events, fin.finished[k])
            &&& forall|p: int|
                0 <= p < 128 && (#[trigger] fin.in_flight[p]) is Some ==> exists|i: int|
                    0 <= i < events.len() && (#[trigger] events[i]).action is On
                        && events[i].note.value == p && events[i].timestamp
                        == fin.in_flight[p]->Some_0.timestamp
        }),
    decreases events.len(),
{
    let fin = rs_run(rs_init(f), events);
    if events.len() == 0 {
    } else {
        let dl = events.drop_last();
        let e = events.last();
        let q = e.note.value as int;
        assert(events_wf(dl) && timestamps_nondecreasing(dl)) by {
            assert(forall|i: int| 0 <= i < dl.len() ==> dl[i] == events[i]);
        }
        lemma_emitted_intervals(f, dl);
        let pre = rs_run(rs_init(f), dl);
        lemma_resolver_accounting(rs_init(f), dl, 0);
        assert(pre.wf());
        assert(forall|i: int| 0 <= i < dl.len() ==> dl[i] == events[i]);
        assert(e == events[events.len() - 1]);
        assert(e.note.value < 128);

        assert forall|k: int| 0 <= k < pre.finished.len() implies press_justified(
            events,
            #[trigger] pre.finished[k],
        ) && release_justified(events, pre.finished[k]) by {
            let w = pre.finished[k];
            let i = choose|i: int|
                0 <= i < dl.len() && (#[trigger] dl[i]).action is On && dl[i].note == w.note
                    && dl[i].timestamp == w.timestamp;
            assert(0 <= i < events.len() && events[i].action is On && events[i].note == w.note
                && events[i].timestamp == w.timestamp);
            let j = choose|j: int|
                0 <= j < dl.len() && (#[trigger] dl[j]).action is Off && dl[j].note == w.note
                    && dl[j].timestamp == w.timestamp + w.duration;
            assert(0 <= j < events.len() && events[j].action is Off && events[j].note == w.note
                && events[j].timestamp == w.timestamp + w.duration);
        }
        assert forall|p: int| 0 <= p < 128 && (#[trigger] pre.in_flight[p]) is Some implies exists|
            i: int,
        |
            0 <= i < events.len() && (#[trigger] events[i]).action is On && events[i].note.value
                == p && events[i].timestamp == pre.in_flight[p]->Some_0.timestamp by {
            let i = choose|i: int|
                0 <= i < dl.len() && (#[trigger] dl[i]).action is On && dl[i].note.value == p
                    && dl[i].timestamp == pre.in_flight[p]->Some_0.timestamp;
            assert(0 <= i < events.len() && events[i].action is On && events[i].note.value == p
                && events[i].timestamp == pre.in_flight[p]->Some_0.timestamp);
        }

        match e.action {
            NoteAction::On => {
                match pre.in_flight[q] {
                    Some(_) => {
                        assert(fin.finished == pre.finished);
                        assert(fin.in_flight == pre.in_flight);
                    },
                    None => {
                        assert(fin.finished == pre.finished);
                        assert forall|p: int|
                            0 <= p < 128 && (#[trigger] fin.in_flight[p]) is Some implies exists|
                            i: int,
                        |
                            0 <= i < events.len() && (#[trigger] events[i]).action is On
                                && events[i].note.value == p && events[i].timestamp
                                == fin.in_flight[p]->Some_0.timestamp by {
                            if p == q {
                                assert(events[events.len() - 1].action is On
                                    && events[events.len() - 1].note.value == p
                                    && events[events.len() - 1].timestamp
                                    == fin.in_flight[p]->Some_0.timestamp);
                            } else {
                                assert(pre.in_flight[p] == fin.in_flight[p]);
                            }
                        }
                    },
                }
            },
            NoteAction::Off => {
                match pre.in_flight[q] {
                    Some(prev) => {
                        let w = NoteWithDuration {
                            timestamp: prev.timestamp,
                            duration: (e.timestamp - prev.timestamp) as u64,
                            note: e.note,
                        };
                        assert(fin.finished == pre.finished.push(w));
                        let i0 = choose|i: int|
                            0 <= i < events.len() && (#[trigger] events[i]).action is On
                                && events[i].note.value == q && events[i].timestamp
                                == pre.in_flight[q]->Some_0.timestamp;
                        assert(events[i0].timestamp <= e.timestamp);
                        assert(prev.timestamp <= e.timestamp);
                        assert(w.timestamp + w.duration == e.timestamp);
                        assert(events[i0].note == w.note);
                        assert(press_justified(events, w));
                        assert(events[events.len() - 1].action is Off && events[events.len()
                            - 1].note == w.note && events[events.len() - 1].timestamp
                            == w.timestamp + w.duration);
                        assert(release_justified(events, w));
                        assert forall|k: int| 0 <= k < fin.finished.len() implies press_justified(
                            events,
                            #[trigger] fin.finished[k],
                        ) && release_justified(events, fin.finished[k]) by {
                            if k < pre.finished.len() {
                                assert(fin.finished[k] == pre.finished[k]);
                            } else {
                                assert(fin.finished[k] == w);
                            }
                        }
                    },
                    None => {
                        assert(fin.finished == pre.finished);
                        assert(fin.in_flight == pre.in_flight);
                    },
                }
            },
        }
    }
}

/// What the admission pipeline makes of one raw event: nothing when no
/// selector names its source or the offset pitch is unplayable, else the
/// event with its pitch resolved.
pub open spec fn admit_event(selectors: Seq<ChannelSelector>, ev: NoteEvent) -> Option<NoteEvent> {
    match spec_select_offset(selectors, ev.track, ev.channel) {
        None => None,
        Some(offset) => match spec_resolve_pitch(ev.note, offset) {
            Some(resolved) => Some(
                NoteEvent {
                    timestamp: ev.timestamp,
                    track: ev.track,
                    channel: ev.channel,
                    note: resolved,
                    action: ev.action,
                },
            ),
            None => None,
        },
    }
}

/// The admitted feed: the raw feed with unselected and out-of-range events
/// dropped and every pitch resolved.
pub open spec fn admitted_events(selectors: Seq<ChannelSelector>, events: Seq<NoteEvent>) -> Seq<
    NoteEvent,
>
    decreases events.len(),
{
    if events.len() == 0 {
        Seq::empty()
    } else {
        admitted_events(selectors, events.drop_last()) + match admit_event(
            selectors,
            events.last(),
        ) {
            Some(e) => seq![e],
            None => Seq::empty(),
        }
    }
}

/// A pass over the raw feed is the resolver run over the admitted feed:
/// same holes, same counters, same intervals, and the same anomaly counts,
/// with only the out-of-range diagnostics added in between.
pub proof fn lemma_feed_resolves_admitted(
    s: ResolverState,
    selectors: Seq<ChannelSelector>,
    events: Seq<NoteEvent>,
    p: int,
)
    ensures
        ({
            let f = feed_run(s, selectors, events);
            let r = rs_run(s, admitted_events(selectors, events));
            f.fudge == r.fudge && f.in_flight == r.in_flight && f.suppressed == r.suppressed
                && f.finished == r.finished && count_orphan_diags(f.diagnostics, p)
                == count_orphan_diags(r.diagnostics, p) && count_repress_diags(f.diagnostics, p)
                == count_repress_diags(r.diagnostics, p)
        }),
    decreases events.len(),
{
    if events.len() > 0 {
        let dl = events.drop_last();
        let e = events.last();
        lemma_feed_resolves_admitted(s, selectors, dl, p);
        let f0 = feed_run(s, selectors, dl);
        let r0 = rs_run(s, admitted_events(selectors, dl));
        match spec_select_offset(selectors, e.track, e.channel) {
            None => {
                assert(admitted_events(selectors, events) =~= admitted_events(selectors, dl));
            },
            Some(offset) => {
                match spec_resolve_pitch(e.note, offset) {
                    None => {
                        assert(admitted_events(selectors, events) =~= admitted_events(
                            selectors,
                            dl,
                        ));
                        lemma_count_orphan_diags_push(
                            f0.diagnostics,
                            Diagnostic::OutOfRange {
                                timestamp: e.timestamp,
                                track: e.track,
                                channel: e.channel,
                                note: e.note,
                                offset,
                            },
                            p,
                        );
                        lemma_count_repress_diags_push(
                            f0.diagnostics,
                            Diagnostic::OutOfRange {
                                timestamp: e.timestamp,
                                track: e.track,
                                channel: e.channel,
                                note: e.note,
                                offset,
                            },
                            p,
                        );
                    },
                    Some(resolved) => {
                        let adm = NoteEvent {
                            timestamp: e.timestamp,
                            track: e.track,
                            channel: e.channel,
                            note: resolved,
                            action: e.action,
                        };
                        assert(admitted_events(selectors, events) =~= admitted_events(
                            selectors,
                            dl,
                        ).push(adm));
                        assert(admitted_events(selectors, dl).push(adm).drop_last()
                            =~= admitted_events(selectors, dl));
                        let q = resolved.value as int;
                        match f0.in_flight[q] {
                            Some(prev) => {
                                if e.action is On {
                                    if e.timestamp - prev.timestamp > f0.fudge {
                                        let d = Diagnostic::AnomalousRePress {
                                            timestamp: e.timestamp,
                                            track: e.track,
                                            channel: e.channel,
                                            note: resolved,
                                            prev_timestamp: prev.timestamp,
                                            prev_track: prev.track,
                                            prev_channel: prev.channel,
                                        };
                                        lemma_count_orphan_diags_push(f0.diagnostics, d, p);
                                        lemma_count_repress_diags_push(f0.diagnostics, d, p);
                                        lemma_count_orphan_diags_push(r0.diagnostics, d, p);
                                        lemma_count_repress_diags_push(r0.diagnostics, d, p);
                                    }
                                }
                            },
                            None => {
                                if e.action is Off && f0.suppressed[q] == 0 {
                                    let d = Diagnostic::OrphanRelease {
                                        timestamp: e.timestamp,
                                        track: e.track,
                                        channel: e.channel,
                                        note: resolved,
                                    };
                                    lemma_count_orphan_diags_push(f0.diagnostics, d, p);
                                    lemma_count_repress_diags_push(f0.diagnostics, d, p);
                                    lemma_count_orphan_diags_push(r0.diagnostics, d, p);
                                    lemma_count_repress_diags_push(r0.diagnostics, d, p);
                                }
                            },
                        }
                    },
                }
            },
        }
    }
}

/// Every pitch the admission pipeline lets through is playable, so in
/// particular a resolved, 7-bit one.
proof fn lemma_admitted_events_wf(selectors: Seq<ChannelSelector>, events: Seq<NoteEvent>)
    ensures
        events_wf(admitted_events(selectors, events)),
        timestamps_nondecreasing(events) ==> timestamps_nondecreasing(
            admitted_events(selectors, events),
        ),
        timestamps_nondecreasing(events) && events.len() > 0 ==> forall|k: int|
            0 <= k < admitted_events(selectors, events).len() ==> (#[trigger] admitted_events(
                selectors,
                events,
            )[k]).timestamp <= events.last().timestamp,
    decreases events.len(),
{
    if events.len() > 0 {
        let dl = events.drop_last();
        let e = events.last();
        assert(timestamps_nondecreasing(events) ==> timestamps_nondecreasing(dl)) by {
            assert(forall|i: int| 0 <= i < dl.len() ==> dl[i] == events[i]);
        }
        lemma_admitted_events_wf(selectors, dl);
        if timestamps_nondecreasing(events) && dl.len() > 0 {
            assert(dl.last().timestamp <= e.timestamp);
        }
    }
}

/// The pipeline-level reading of interval soundness: whatever the selectors
/// drop or resolve, every interval a whole pass emits starts at an admitted
/// press's timestamp and ends at the matching admitted release's.
pub proof fn lemma_pass_intervals_justified(
    fudge: u64,
    selectors: Seq<ChannelSelector>,
    events: Seq<NoteEvent>,
)
    requires
        timestamps_nondecreasing(events),
    ensures
        ({
            let fin = feed_run(rs_init(fudge), selectors, events);
            let adm = admitted_events(selectors, events);
            forall|k: int|
                0 <= k < fin.finished.len() ==> press_justified(adm, #[trigger] fin.finished[k])
                    && release_justified(adm, fin.finished[k])
        }),
{
    lemma_feed_resolves_admitted(rs_init(fudge), selectors, events, 0);
    lemma_admitted_events_wf(selectors, events);
    lemma_emitted_intervals(fudge, admitted_events(selectors, events));
}

/// The intervals an alternating feed denotes: each press pairs with the
/// release right after it, and the duration is their distance.
pub open spec fn paired_intervals(events: Seq<NoteEvent>) -> Seq<NoteWithDuration>
    decreases events.len(),
{
    if events.len() < 2 {
        Seq::empty()
    } else {
        seq![
            NoteWithDuration {
                timestamp: events[0].timestamp,
                duration: (events[1].timestamp - events[0].timestamp) as u64,
                note: events[0].note,
            },
        ] + paired_intervals(events.skip(2))
    }
}

/// On one pitch, a strictly alternating feed produces exactly its
/// press/release pairs, in order, with `duration = release - press` for
/// each; a trailing press left open at the end contributes nothing.
pub proof fn lemma_alternating_pitch_intervals(
    s: ResolverState,
    events: Seq<NoteEvent>,
    p: int,
)
    requires
        s.wf(),
        0 <= p < 128,
        forall|i: int| 0 <= i < events.len() ==> (#[trigger] events[i]).note.value == p,
        alternating_from(events, p, false),
        s.in_flight[p] is None,
        s.suppressed[p] == 0,
    ensures
        rs_run(s, events).finished == s.finished + paired_intervals(events),
    decreases events.len(),
{
    if events.len() == 0 {
        assert(rs_run(s, events).finished =~= s.finished + paired_intervals(events));
    } else if events.len() == 1 {
        let e0 = events[0];
        assert(e0.action is On);
        lemma_run_front(s, events, p);
        let s1 = rs_step(s, e0.timestamp, e0.track, e0.channel, e0.note, e0.action);
        assert(events.skip(1).len() == 0);
        assert(rs_run(s1, events.skip(1)) == s1);
        assert(s1.finished =~= s.finished + paired_intervals(events));
    } else {
        let e0 = events[0];
        let e1 = events[1];
        assert(e0.action is On);
        lemma_run_front(s, events, p);
        let s1 = rs_step(s, e0.timestamp, e0.track, e0.channel, e0.note, e0.action);
        assert(s1.in_flight[p] == Some(
            InFlightPress { track: e0.track, channel: e0.channel, timestamp: e0.timestamp },
        ));
        assert(events.skip(1)[0] == e1);
        assert(e1.note.value == p);
        assert(alternating_from(events.skip(1), p, true));
        assert(e1.action is Off);
        lemma_run_front(s1, events.skip(1), p);
        let s2 = rs_step(s1, e1.timestamp, e1.track, e1.channel, e1.note, e1.action);
        assert(events.skip(1).skip(1) =~= events.skip(2));
        let w = NoteWithDuration {
            timestamp: e0.timestamp,
            duration: (e1.timestamp - e0.timestamp) as u64,
            note: e1.note,
        };
        assert(s2.finished == s.finished.push(w));
        assert(s2.in_flight[p] is None);
        assert(s2.suppressed[p] == 0);
        assert(s2.wf());
        assert(alternating_from(events.skip(2), p, false));
        assert(forall|i: int|
            0 <= i < events.skip(2).len() ==> (#[trigger] events.skip(2)[i]).note.value == p) by {
            assert(forall|i: int|
                0 <= i < events.skip(2).len() ==> events.skip(2)[i] == events[i + 2]);
        }
        lemma_alternating_pitch_intervals(s2, events.skip(2), p);
        assert(e0.note == e1.note);
        assert(rs_run(s, events).finished == s.finished.push(w) + paired_intervals(
            events.skip(2),
        ));
        assert(s.finished.push(w) + paired_intervals(events.skip(2)) =~= s.finished + (seq![w]
            + paired_intervals(events.skip(2))));
    }
}

} // verus!
