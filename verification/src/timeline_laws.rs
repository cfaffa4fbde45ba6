//! Laws of the merged note timeline and of the note clock.
use crate::midi::{
    classify, clock_advances, clock_keeps, file_note_times, MidiFileView, clock_run, clock_step, delta_total, DEFAULT_MICROS_PER_BEAT, lemma_clock_lengths, lemma_merged_events_sorted, lemma_track_events_sorted, merge_from,
    merged_events, tick_overflow, tick_sorted, track_events, EventKind, RawEvent, TimedEvent,
};
use vstd::prelude::*;

verus! {

/// Picks the events at tick `k`.
pub open spec fn at_tick(k: u32) -> spec_fn(TimedEvent) -> bool {
    |e: TimedEvent| e.tick == k
}

/// All tracks' events one after the other, in track order.
pub open spec fn concatenated_events(tracks: Seq<Seq<RawEvent>>) -> Seq<TimedEvent>
    decreases tracks.len(),
{
    if tracks.len() == 0 {
        seq![]
    } else {
        concatenated_events(tracks.drop_last()) + track_events(tracks.last())
    }
}

proof fn lemma_filter_empty_seq(k: u32)
    ensures
        Seq::<TimedEvent>::empty().filter(at_tick(k)) == Seq::<TimedEvent>::empty(),
{
    reveal(Seq::filter);
}

proof fn lemma_merge_from_filter(a: Seq<TimedEvent>, b: Seq<TimedEvent>, i: int, j: int, k: u32)
    requires
        tick_sorted(a),
        tick_sorted(b),
        0 <= i <= a.len(),
        0 <= j <= b.len(),
    ensures
        merge_from(a, b, i, j).filter(at_tick(k)) == a.subrange(i, a.len() as int).filter(
            at_tick(k),
        ) + b.subrange(j, b.len() as int).filter(at_tick(k)),
    decreases (a.len() - i) + (b.len() - j),
{
    let p = at_tick(k);
    let sa = a.subrange(i, a.len() as int);
    let sb = b.subrange(j, b.len() as int);
    if i >= a.len() {
        assert(sa =~= Seq::<TimedEvent>::empty());
        lemma_filter_empty_seq(k);
        assert(merge_from(a, b, i, j) == sb);
        assert(Seq::<TimedEvent>::empty() + sb.filter(p) =~= sb.filter(p));
    } else if j >= b.len() {
        assert(sb =~= Seq::<TimedEvent>::empty());
        lemma_filter_empty_seq(k);
        assert(merge_from(a, b, i, j) == sa);
        assert(sa.filter(p) + Seq::<TimedEvent>::empty() =~= sa.filter(p));
    } else if a[i].tick <= b[j].tick {
        lemma_merge_from_filter(a, b, i + 1, j, k);
        let rest = merge_from(a, b, i + 1, j);
        let ta = a.subrange(i + 1, a.len() as int);
        assert(sa =~= seq![a[i]] + ta);
        rest.lemma_filter_prepend(a[i], p);
        ta.lemma_filter_prepend(a[i], p);
        let pre = if p(a[i]) {
            seq![a[i]]
        } else {
            Seq::<TimedEvent>::empty()
        };
        assert(pre + (ta.filter(p) + sb.filter(p)) =~= (pre + ta.filter(p)) + sb.filter(p));
    } else {
        lemma_merge_from_filter(a, b, i, j + 1, k);
        let rest = merge_from(a, b, i, j + 1);
        let tb = b.subrange(j + 1, b.len() as int);
        assert(sb =~= seq![b[j]] + tb);
        rest.lemma_filter_prepend(b[j], p);
        tb.lemma_filter_prepend(b[j], p);
        if b[j].tick == k {
            assert(sa.all(|x: TimedEvent| !p(x))) by {
                assert forall|m: int| 0 <= m < sa.len() implies !p(#[trigger] sa[m]) by {
                    assert(sa[m] == a[i + m]);
                    assert(a[i].tick <= a[i + m].tick);
                }
            }
            sa.lemma_all_neg_filter_empty(p);
            assert(sa.filter(p) =~= Seq::<TimedEvent>::empty());
            assert(seq![b[j]] + (sa.filter(p) + tb.filter(p)) =~= sa.filter(p) + (seq![b[j]]
                + tb.filter(p)));
        } else {
            assert(Seq::<TimedEvent>::empty() + (sa.filter(p) + tb.filter(p)) =~= sa.filter(p) + (
            Seq::<TimedEvent>::empty() + tb.filter(p)));
        }
    }
}

/// Law: the merged timeline is the stable sort by tick of all tracks'
/// events taken one after the other. It is sorted by tick, and at each tick
/// it lists the events of that tick in track order, each track's events in
/// their own order.
pub proof fn lemma_timeline_is_stable_sort(tracks: Seq<Seq<RawEvent>>, k: u32)
    requires
        !tick_overflow(tracks),
    ensures
        tick_sorted(merged_events(tracks)),
        merged_events(tracks).filter(at_tick(k)) == concatenated_events(tracks).filter(at_tick(k)),
    decreases tracks.len(),
{
    assert forall|t: int| 0 <= t < tracks.len() implies delta_total(#[trigger] tracks[t])
        <= u32::MAX by {}
    lemma_merged_events_sorted(tracks);
    if tracks.len() == 0 {
    } else {
        let init = tracks.drop_last();
        assert(!tick_overflow(init)) by {
            if tick_overflow(init) {
                let t: int = choose|t: int| 0 <= t < init.len() && delta_total(#[trigger] init[t]) > u32::MAX;
                assert(init[t] == tracks[t]);
            }
        }
        lemma_timeline_is_stable_sort(init, k);
        lemma_merged_events_sorted(init);
        lemma_track_events_sorted(tracks.last());
        let a = merged_events(init);
        let b = track_events(tracks.last());
        lemma_merge_from_filter(a, b, 0, 0, k);
        assert(a.subrange(0, a.len() as int) =~= a);
        assert(b.subrange(0, b.len() as int) =~= b);
        Seq::filter_distributes_over_add(concatenated_events(init), b, at_tick(k));
    }
}

/// The values never decrease along the sequence.
pub open spec fn nondecreasing(s: Seq<int>) -> bool {
    forall|i: int, j: int| 0 <= i <= j < s.len() ==> s[i] <= s[j]
}

/// The values strictly increase along the sequence: no value occurs twice.
pub open spec fn strictly_increasing(s: Seq<int>) -> bool {
    forall|i: int, j: int| 0 <= i < j < s.len() ==> s[i] < s[j]
}

/// Some note of the timeline sits at tick `t`.
pub open spec fn has_note_at(events: Seq<TimedEvent>, t: int) -> bool {
    exists|m: int| 0 <= m < events.len() && #[trigger] events[m].kind == EventKind::Note && events[m].tick == t
}

/// Law: whatever the order of the timeline, the clock keeps one time per
/// kept note, the times never decrease, the kept ticks strictly increase (a
/// tick is never kept twice), and every kept tick is the tick of a note.
pub proof fn lemma_clock_shape(events: Seq<TimedEvent>)
    ensures
        clock_run(events).times.len() == clock_run(events).ticks.len(),
        nondecreasing(clock_run(events).times),
        strictly_increasing(clock_run(events).ticks),
        forall|i: int|
            0 <= i < clock_run(events).ticks.len() ==> has_note_at(
                events,
                #[trigger] clock_run(events).ticks[i],
            ),
        clock_run(events).tempo >= 0,
        forall|i: int|
            0 <= i < clock_run(events).times.len() ==> #[trigger] clock_run(events).times[i]
                <= clock_run(events).now,
    decreases events.len(),
{
    if events.len() > 0 {
        let init = events.drop_last();
        let e = events.last();
        lemma_clock_shape(init);
        let c = clock_run(init);
        let d = clock_run(events);
        assert(d == clock_step(c, e));
        if clock_advances(c, e) {
            assert((e.tick - c.last) * c.tempo >= 0) by (nonlinear_arith)
                requires
                    e.tick > c.last,
                    c.tempo >= 0,
            ;
        }
        assert forall|i: int| 0 <= i < d.ticks.len() implies has_note_at(
            events,
            #[trigger] d.ticks[i],
        ) by {
            if i < c.ticks.len() {
                assert(d.ticks[i] == c.ticks[i]);
                assert(has_note_at(init, c.ticks[i]));
                let m: int = choose|m: int|
                    0 <= m < init.len() && #[trigger] init[m].kind == EventKind::Note
                        && init[m].tick == c.ticks[i];
                assert(events[m] == init[m]);
            } else {
                assert(events[events.len() - 1] == e);
            }
        }
    }
}

/// Law: with no tempo change anywhere, every kept note sounds at its tick
/// times the default tempo (120 beats per minute).
pub proof fn lemma_clock_default_tempo(events: Seq<TimedEvent>)
    requires
        tick_sorted(events),
        forall|m: int| 0 <= m < events.len() ==> #[trigger] events[m].kind == EventKind::Note,
    ensures
        clock_run(events).tempo == DEFAULT_MICROS_PER_BEAT,
        clock_run(events).now == clock_run(events).last * DEFAULT_MICROS_PER_BEAT,
        clock_run(events).times.len() == clock_run(events).ticks.len(),
        events.len() > 0 ==> clock_run(events).last <= events.last().tick,
        forall|i: int|
            0 <= i < clock_run(events).times.len() ==> #[trigger] clock_run(events).times[i]
                == clock_run(events).ticks[i] * DEFAULT_MICROS_PER_BEAT,
    decreases events.len(),
{
    if events.len() > 0 {
        let init = events.drop_last();
        assert forall|m: int| 0 <= m < init.len() implies #[trigger] init[m].kind
            == EventKind::Note by {
            assert(init[m] == events[m]);
        }
        assert(tick_sorted(init)) by {
            assert forall|i: int, j: int| 0 <= i <= j < init.len() implies init[i].tick
                <= init[j].tick by {
                assert(init[i] == events[i] && init[j] == events[j]);
            }
        }
        lemma_clock_default_tempo(init);
        assert(events[events.len() - 1] == events.last());
        if init.len() > 0 {
            assert(init.last() == events[events.len() - 2]);
        }
    }
}

/// Law: on a tick-sorted timeline the clock keeps exactly one time for each
/// distinct tick at which a note starts: a tick is kept if and only if some
/// note sits at it (and, by `lemma_clock_shape`, kept ticks strictly
/// increase).
pub proof fn lemma_clock_one_per_note_tick(events: Seq<TimedEvent>)
    requires
        tick_sorted(events),
    ensures
        forall|t: int| clock_run(events).ticks.contains(t) <==> has_note_at(events, t),
        events.len() > 0 && clock_run(events).ticks.len() > 0 ==> clock_run(events).ticks.last()
            <= events.last().tick,
    decreases events.len(),
{
    lemma_clock_shape(events);
    if events.len() > 0 {
        let init = events.drop_last();
        let e = events.last();
        assert(tick_sorted(init)) by {
            assert forall|i: int, j: int| 0 <= i <= j < init.len() implies init[i].tick
                <= init[j].tick by {
                assert(init[i] == events[i] && init[j] == events[j]);
            }
        }
        lemma_clock_one_per_note_tick(init);
        lemma_clock_shape(init);
        let c = clock_run(init);
        let d = clock_run(events);
        let last_index: int = events.len() - 1;
        assert(events[last_index] == e);
        if c.ticks.len() > 0 {
            assert(init.last() == events[last_index - 1]);
            assert(init.last().tick <= e.tick);
        }
        assert(forall|t: int| c.ticks.contains(t) ==> d.ticks.contains(t)) by {
            assert forall|t: int| c.ticks.contains(t) implies d.ticks.contains(t) by {
                let i: int = choose|i: int| 0 <= i < c.ticks.len() && c.ticks[i] == t;
                assert(d.ticks[i] == c.ticks[i]);
            }
        }
        assert forall|t: int| d.ticks.contains(t) <==> has_note_at(events, t) by {
            if d.ticks.contains(t) {
                let i: int = choose|i: int| 0 <= i < d.ticks.len() && d.ticks[i] == t;
                assert(has_note_at(events, d.ticks[i]));
            }
            if has_note_at(events, t) {
                let m: int = choose|m: int|
                    0 <= m < events.len() && #[trigger] events[m].kind == EventKind::Note
                        && events[m].tick == t;
                if m < last_index {
                    assert(init[m] == events[m]);
                    assert(has_note_at(init, t));
                    assert(c.ticks.contains(t));
                } else if clock_keeps(c, e) {
                    assert(d.ticks[d.ticks.len() - 1] == t);
                } else {
                    assert(c.ticks.last() == t);
                    assert(c.ticks[c.ticks.len() - 1] == t);
                }
            }
        }
        if d.ticks.len() > 0 && !clock_keeps(c, e) {
            assert(d.ticks == c.ticks);
        }
    }
}

/// The tick of the last event, or 0 before any.
pub open spec fn last_tick(events: Seq<TimedEvent>) -> int {
    if events.len() == 0 {
        0
    } else {
        events.last().tick as int
    }
}

/// The tempo in force after the events: that of the last tempo change among
/// them, or the default when there is none.
pub open spec fn tempo_in_force(events: Seq<TimedEvent>) -> int
    decreases events.len(),
{
    if events.len() == 0 {
        DEFAULT_MICROS_PER_BEAT as int
    } else {
        match events.last().kind {
            EventKind::TempoChange(t) => t as int,
            EventKind::Note => tempo_in_force(events.drop_last()),
        }
    }
}

/// The time from tick 0 to the last event of a tick-sorted timeline: the
/// sum, over the gaps between consecutive event ticks, of each gap times the
/// tempo in force across it.
pub open spec fn elapsed(events: Seq<TimedEvent>) -> int
    decreases events.len(),
{
    if events.len() == 0 {
        0
    } else {
        let init = events.drop_last();
        elapsed(init) + (events.last().tick - last_tick(init)) * tempo_in_force(init)
    }
}

/// The `i`th time the clock keeps is the time elapsed up to some note at the
/// `i`th kept tick.
pub open spec fn kept_time_is_elapsed(events: Seq<TimedEvent>, i: int) -> bool {
    exists|m: int|
        0 <= m < events.len() && #[trigger] events[m].kind == EventKind::Note && events[m].tick
            == clock_run(events).ticks[i] && clock_run(events).times[i] == elapsed(
            events.take(m + 1),
        )
}

/// Law: on a tick-sorted timeline the clock runs on the tempo in force: it
/// ends at the time `elapsed` to the last event, and each time it keeps is
/// the time elapsed up to a note at the kept tick, every tick gap counted at
/// the tempo of the last tempo change before it (the default before any).
pub proof fn lemma_clock_is_tempo_sum(events: Seq<TimedEvent>)
    requires
        tick_sorted(events),
    ensures
        clock_run(events).now == elapsed(events),
        clock_run(events).tempo == tempo_in_force(events),
        clock_run(events).last == last_tick(events),
        forall|i: int|
            0 <= i < clock_run(events).times.len() ==> #[trigger] kept_time_is_elapsed(events, i),
    decreases events.len(),
{
    lemma_clock_lengths(events);
    if events.len() > 0 {
        let init = events.drop_last();
        let e = events.last();
        let last_index: int = events.len() - 1;
        assert(tick_sorted(init)) by {
            assert forall|i: int, j: int| 0 <= i <= j < init.len() implies init[i].tick
                <= init[j].tick by {
                assert(init[i] == events[i] && init[j] == events[j]);
            }
        }
        lemma_clock_is_tempo_sum(init);
        lemma_clock_lengths(init);
        let c = clock_run(init);
        let d = clock_run(events);
        assert(events[last_index] == e);
        if init.len() > 0 {
            assert(init.last() == events[last_index - 1]);
        }
        assert(c.last <= e.tick);
        assert(d.now == c.now + (e.tick - c.last) * c.tempo) by {
            if e.tick == c.last {
                assert((e.tick - c.last) * c.tempo == 0) by (nonlinear_arith)
                    requires
                        e.tick == c.last,
                ;
            }
        }
        assert forall|i: int| 0 <= i < d.times.len() implies #[trigger] kept_time_is_elapsed(
            events,
            i,
        ) by {
            if i < c.times.len() {
                assert(d.times[i] == c.times[i] && d.ticks[i] == c.ticks[i]);
                assert(kept_time_is_elapsed(init, i));
                let m: int = choose|m: int|
                    0 <= m < init.len() && #[trigger] init[m].kind == EventKind::Note
                        && init[m].tick == c.ticks[i] && c.times[i] == elapsed(init.take(m + 1));
                assert(events[m] == init[m]);
                assert(events[m].kind == EventKind::Note);
                assert(events.take(m + 1) =~= init.take(m + 1));
            } else {
                assert(events.take(last_index + 1) =~= events);
                assert(events[last_index].kind == EventKind::Note);
            }
        }
    }
}

/// The ticks of the notes a file's clock keeps.
pub open spec fn file_note_ticks(f: MidiFileView) -> Seq<int> {
    clock_run(merged_events(f.tracks)).ticks
}

/// Law: the note times of a file come out in nondecreasing order, one for
/// each kept note tick; the kept ticks strictly increase (no tick twice), and
/// each is the tick of a note of the file's merged timeline.
pub proof fn lemma_file_note_times_ordered(f: MidiFileView)
    requires
        file_note_times(f) is Ok,
    ensures
        ({
            let times = file_note_times(f)->Ok_0.1;
            &&& nondecreasing(times)
            &&& times.len() == file_note_ticks(f).len()
            &&& strictly_increasing(file_note_ticks(f))
            &&& forall|i: int|
                0 <= i < file_note_ticks(f).len() ==> has_note_at(
                    merged_events(f.tracks),
                    #[trigger] file_note_ticks(f)[i],
                )
        }),
{
    lemma_clock_shape(merged_events(f.tracks));
}

/// Law: a file yields exactly one time for each distinct tick at which a
/// note starts on its merged timeline.
pub proof fn lemma_file_one_time_per_note_tick(f: MidiFileView)
    requires
        file_note_times(f) is Ok,
    ensures
        forall|t: int| file_note_ticks(f).contains(t) <==> has_note_at(merged_events(f.tracks), t),
        strictly_increasing(file_note_ticks(f)),
        file_note_times(f)->Ok_0.1.len() == file_note_ticks(f).len(),
{
    lemma_clock_shape(merged_events(f.tracks));
    lemma_merged_events_sorted(f.tracks);
    lemma_clock_one_per_note_tick(merged_events(f.tracks));
}

proof fn lemma_merged_same_events(t1: Seq<Seq<RawEvent>>, t2: Seq<Seq<RawEvent>>)
    requires
        t1.len() == t2.len(),
        forall|t: int| 0 <= t < t1.len() ==> track_events(#[trigger] t1[t]) == track_events(t2[t]),
    ensures
        merged_events(t1) == merged_events(t2),
    decreases t1.len(),
{
    if t1.len() > 0 {
        assert forall|t: int| 0 <= t < t1.drop_last().len() implies track_events(
            #[trigger] t1.drop_last()[t],
        ) == track_events(t2.drop_last()[t]) by {
            assert(t1.drop_last()[t] == t1[t] && t2.drop_last()[t] == t2[t]);
        }
        lemma_merged_same_events(t1.drop_last(), t2.drop_last());
        assert(track_events(t1.last()) == track_events(t2.last())) by {
            assert(t1.last() == t1[t1.len() - 1] && t2.last() == t2[t2.len() - 1]);
        }
    }
}

/// Law: the note times of a file depend only on the notes and tempo changes
/// of each track at their absolute ticks. Events of any other kind (note offs,
/// note ons of velocity zero, controllers, text) change nothing, as long as
/// they leave the other events at their ticks and no track overflows.
pub proof fn lemma_only_notes_and_tempos_matter(f1: MidiFileView, f2: MidiFileView)
    requires
        f1.ticks_per_beat == f2.ticks_per_beat,
        f1.tracks.len() == f2.tracks.len(),
        forall|t: int|
            0 <= t < f1.tracks.len() ==> track_events(#[trigger] f1.tracks[t]) == track_events(
                f2.tracks[t],
            ),
        !tick_overflow(f1.tracks),
        !tick_overflow(f2.tracks),
    ensures
        file_note_times(f1) == file_note_times(f2),
{
    lemma_merged_same_events(f1.tracks, f2.tracks);
}

/// An event that is neither a sounding note nor a tempo change adds nothing
/// to its track's timeline.
pub proof fn lemma_ignored_event_adds_nothing(track: Seq<RawEvent>, e: RawEvent)
    requires
        classify(e.kind) is None,
    ensures
        track_events(track.push(e)) == track_events(track),
{
    assert(track.push(e).drop_last() =~= track);
}

} // verus!
