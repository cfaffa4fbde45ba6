use crate::event_bytes::{file_raw_events, read_file, EventBytes, SmfEvents, SmfEventsView};
use midly::{SmfBytemap, Timing};
use vstd::prelude::*;

verus! {

/// The part of a track event that note timing depends on.
#[derive(Debug, Clone, Copy, PartialEq, Eq, Structural)]
pub enum RawKind {
    /// A channel "note on" message with its velocity.
    NoteOn { velocity: u8 },
    /// A "set tempo" meta message, in microseconds per beat.
    Tempo { micros_per_beat: u32 },
    /// Every other event: it still advances time by its delta.
    Other,
}

/// One track event: the ticks since the previous event of its track, and its kind.
#[derive(Debug, Clone, Copy, PartialEq, Eq, Structural)]
pub struct RawEvent {
    pub delta: u32,
    pub kind: RawKind,
}

/// A Standard MIDI File as far as note timing goes.
///
/// `ticks_per_beat` is `None` for a file with timecode (SMPTE) timing.
pub struct MidiFile {
    pub ticks_per_beat: Option<u16>,
    pub tracks: Vec<Vec<RawEvent>>,
}

/// The mathematical content of a [`MidiFile`].
pub struct MidiFileView {
    pub ticks_per_beat: Option<u16>,
    pub tracks: Seq<Seq<RawEvent>>,
}

impl View for MidiFile {
    type V = MidiFileView;

    open spec fn view(&self) -> MidiFileView {
        MidiFileView {
            ticks_per_beat: self.ticks_per_beat,
            tracks: self.tracks@.map_values(|t: Vec<RawEvent>| t@),
        }
    }
}

/// What an event on the merged timeline is.
#[derive(Debug, Clone, Copy, PartialEq, Eq, Structural)]
pub enum EventKind {
    /// A sounding note (a "note on" with a nonzero velocity).
    Note,
    /// A tempo change to the given microseconds per beat.
    TempoChange(u32),
}

/// An event at an absolute tick.
#[derive(Debug, Clone, Copy, PartialEq, Eq, Structural)]
pub struct TimedEvent {
    pub tick: u32,
    pub kind: EventKind,
}

/// Which raw events take part in timing, and as what.
pub open spec fn classify(kind: RawKind) -> Option<EventKind> {
    match kind {
        RawKind::NoteOn { velocity } => if velocity > 0 {
            Some(EventKind::Note)
        } else {
            None
        },
        RawKind::Tempo { micros_per_beat } => Some(EventKind::TempoChange(micros_per_beat)),
        RawKind::Other => None,
    }
}

/// The absolute tick of the last event of a track: the sum of its deltas.
pub open spec fn delta_total(track: Seq<RawEvent>) -> int
    decreases track.len(),
{
    if track.len() == 0 {
        0
    } else {
        delta_total(track.drop_last()) + track.last().delta
    }
}

/// The notes and tempo changes of a track, at their absolute ticks.
pub open spec fn track_events(track: Seq<RawEvent>) -> Seq<TimedEvent>
    decreases track.len(),
{
    if track.len() == 0 {
        seq![]
    } else {
        let before = track_events(track.drop_last());
        match classify(track.last().kind) {
            Some(kind) => before.push(TimedEvent { tick: delta_total(track) as u32, kind }),
            None => before,
        }
    }
}

/// Ticks never decrease along the sequence.
pub open spec fn tick_sorted(s: Seq<TimedEvent>) -> bool {
    forall|i: int, j: int| 0 <= i <= j < s.len() ==> s[i].tick <= s[j].tick
}

/// Delta sums only grow along a track.
pub proof fn lemma_delta_total_prefix(track: Seq<RawEvent>, k: int)
    requires
        0 <= k <= track.len(),
    ensures
        0 <= delta_total(track.take(k)) <= delta_total(track),
    decreases track.len(),
{
    if track.len() > 0 {
        if k == track.len() {
            assert(track.take(k) =~= track);
            lemma_delta_total_prefix(track.drop_last(), 0);
        } else {
            assert(track.drop_last().take(k) =~= track.take(k));
            lemma_delta_total_prefix(track.drop_last(), k);
        }
    } else {
        assert(track.take(k) =~= track);
    }
}

/// The events of a track that does not overflow its tick counter are sorted,
/// and none lies past the end of the track.
pub proof fn lemma_track_events_sorted(track: Seq<RawEvent>)
    requires
        delta_total(track) <= u32::MAX,
    ensures
        tick_sorted(track_events(track)),
        forall|i: int|
            0 <= i < track_events(track).len() ==> #[trigger] track_events(track)[i].tick
                <= delta_total(track),
    decreases track.len(),
{
    if track.len() > 0 {
        lemma_delta_total_prefix(track, track.len() - 1);
        assert(track.take(track.len() - 1) =~= track.drop_last());
        lemma_track_events_sorted(track.drop_last());
    }
}

/// How many events of the track take part in timing: its note-ons with a
/// nonzero velocity and its tempo changes.
pub open spec fn timing_event_count(track: Seq<RawEvent>) -> int
    decreases track.len(),
{
    if track.len() == 0 {
        0
    } else {
        timing_event_count(track.drop_last()) + match track.last().kind {
            RawKind::NoteOn { velocity } => if velocity > 0 {
                1int
            } else {
                0int
            },
            RawKind::Tempo { .. } => 1int,
            RawKind::Other => 0int,
        }
    }
}

proof fn lemma_timing_event_count_prefix(track: Seq<RawEvent>, k: int)
    requires
        0 <= k <= track.len(),
    ensures
        0 <= timing_event_count(track.take(k)) <= timing_event_count(track),
    decreases track.len(),
{
    if track.len() > 0 {
        if k == track.len() {
            assert(track.take(k) =~= track);
            lemma_timing_event_count_prefix(track.drop_last(), 0);
        } else {
            assert(track.drop_last().take(k) =~= track.take(k));
            lemma_timing_event_count_prefix(track.drop_last(), k);
        }
    } else {
        assert(track.take(k) =~= track);
    }
}

/// The `m`th raw event of the track sits where it should among `events`:
/// a note-on with a nonzero velocity as a note, a tempo change with its
/// tempo, at position `timing_event_count(track.take(m))` and at the sum of
/// the deltas up to and including it; other events need no place.
pub open spec fn placed_in(track: Seq<RawEvent>, events: Seq<TimedEvent>, m: int) -> bool {
    let at = timing_event_count(track.take(m));
    let tick = delta_total(track.take(m + 1)) as u32;
    match track[m].kind {
        RawKind::NoteOn { velocity } => velocity > 0 ==> 0 <= at < events.len() && events[at]
            == TimedEvent { tick, kind: EventKind::Note },
        RawKind::Tempo { micros_per_beat } => 0 <= at < events.len() && events[at]
            == TimedEvent { tick, kind: EventKind::TempoChange(micros_per_beat) },
        RawKind::Other => true,
    }
}

proof fn lemma_placed_in_extend(track: Seq<RawEvent>, m: int)
    requires
        0 <= m < track.len() - 1,
        placed_in(track.drop_last(), track_events(track.drop_last()), m),
        track_events(track.drop_last()).len() == timing_event_count(track.drop_last()),
    ensures
        placed_in(track, track_events(track), m),
{
    let init = track.drop_last();
    assert(track[m] == init[m]);
    assert(track.take(m) =~= init.take(m));
    assert(track.take(m + 1) =~= init.take(m + 1));
    assert(init.take(m + 1).drop_last() =~= init.take(m));
    assert(init.take(m + 1).last() == init[m]);
    lemma_timing_event_count_prefix(init, m + 1);
}

/// Law: the timed events of a track are exactly its note-ons with a nonzero
/// velocity (as notes) and its tempo changes (with their tempo), each at the
/// sum of the deltas up to and including it, in track order: every raw
/// event that takes part in timing has its place (`placed_in`), and there
/// are no more timed events than such raw events.
pub proof fn lemma_track_events_exact(track: Seq<RawEvent>)
    ensures
        track_events(track).len() == timing_event_count(track),
        forall|m: int| 0 <= m < track.len() ==> #[trigger] placed_in(track, track_events(track), m),
    decreases track.len(),
{
    if track.len() > 0 {
        let init = track.drop_last();
        let last: int = track.len() - 1;
        lemma_track_events_exact(init);
        assert(track[last] == track.last());
        assert forall|m: int| 0 <= m < track.len() implies #[trigger] placed_in(
            track,
            track_events(track),
            m,
        ) by {
            if m < last {
                lemma_placed_in_extend(track, m);
            } else {
                assert(track.take(m) =~= init);
                assert(track.take(m + 1) =~= track);
            }
        }
    }
}

/// Computes the notes and tempo changes of one track at absolute ticks,
/// or `None` when the tick counter of the track would pass `u32::MAX`.
pub fn absolute_events(track: &Vec<RawEvent>) -> (events: Option<Vec<TimedEvent>>)
    ensures
        events is None <==> delta_total(track@) > u32::MAX,
        events matches Some(v) ==> v@ == track_events(track@),
        events matches Some(v) ==> v@.len() == timing_event_count(track@) && forall|m: int|
            0 <= m < track@.len() ==> #[trigger] placed_in(track@, v@, m),
{
    proof {
        lemma_track_events_exact(track@);
    }
    let mut out: Vec<TimedEvent> = Vec::new();
    let mut now: u32 = 0;
    let mut k: usize = 0;
    while k < track.len()
        invariant
            k <= track.len(),
            now == delta_total(track@.take(k as int)),
            out@ == track_events(track@.take(k as int)),
        decreases track.len() - k,
    {
        let e = track[k];
        proof {
            assert(track@.take(k + 1).drop_last() =~= track@.take(k as int));
        }
        match now.checked_add(e.delta) {
            None => {
                proof {
                    lemma_delta_total_prefix(track@, k + 1);
                }
                return None;
            },
            Some(n) => {
                now = n;
            },
        }
        match e.kind {
            RawKind::NoteOn { velocity } => {
                if velocity > 0 {
                    out.push(TimedEvent { tick: now, kind: EventKind::Note });
                }
            },
            RawKind::Tempo { micros_per_beat } => {
                out.push(TimedEvent { tick: now, kind: EventKind::TempoChange(micros_per_beat) });
            },
            RawKind::Other => {},
        }
        k = k + 1;
    }
    proof {
        assert(track@.take(k as int) =~= track@);
    }
    Some(out)
}

/// Stable merge of `a[i..]` and `b[j..]` by tick: on equal ticks the event of `a` comes first.
pub open spec fn merge_from(a: Seq<TimedEvent>, b: Seq<TimedEvent>, i: int, j: int) -> Seq<
    TimedEvent,
>
    decreases (a.len() - i) + (b.len() - j),
{
    if i < 0 || j < 0 || i >= a.len() {
        b.subrange(j, b.len() as int)
    } else if j >= b.len() {
        a.subrange(i, a.len() as int)
    } else if a[i].tick <= b[j].tick {
        seq![a[i]] + merge_from(a, b, i + 1, j)
    } else {
        seq![b[j]] + merge_from(a, b, i, j + 1)
    }
}

/// Stable merge of two event sequences by tick.
pub open spec fn merge(a: Seq<TimedEvent>, b: Seq<TimedEvent>) -> Seq<TimedEvent> {
    merge_from(a, b, 0, 0)
}

/// The events of all tracks on one timeline: the tracks merged in order.
pub open spec fn merged_events(tracks: Seq<Seq<RawEvent>>) -> Seq<TimedEvent>
    decreases tracks.len(),
{
    if tracks.len() == 0 {
        seq![]
    } else {
        merge(merged_events(tracks.drop_last()), track_events(tracks.last()))
    }
}

/// A merge of sorted sequences is sorted, holds every remaining event, and
/// stays above any bound that both inputs stay above.
pub proof fn lemma_merge_from_sorted(a: Seq<TimedEvent>, b: Seq<TimedEvent>, i: int, j: int, lb: int)
    requires
        tick_sorted(a),
        tick_sorted(b),
        0 <= i <= a.len(),
        0 <= j <= b.len(),
        forall|k: int| i <= k < a.len() ==> lb <= #[trigger] a[k].tick,
        forall|k: int| j <= k < b.len() ==> lb <= #[trigger] b[k].tick,
    ensures
        tick_sorted(merge_from(a, b, i, j)),
        merge_from(a, b, i, j).len() == (a.len() - i) + (b.len() - j),
        forall|k: int|
            0 <= k < merge_from(a, b, i, j).len() ==> lb <= #[trigger] merge_from(a, b, i, j)[k].tick,
    decreases (a.len() - i) + (b.len() - j),
{
    if i >= a.len() {
    } else if j >= b.len() {
    } else if a[i].tick <= b[j].tick {
        lemma_merge_from_sorted(a, b, i + 1, j, a[i].tick as int);
        let r = merge_from(a, b, i + 1, j);
        assert(merge_from(a, b, i, j) =~= seq![a[i]] + r);
    } else {
        lemma_merge_from_sorted(a, b, i, j + 1, b[j].tick as int);
        let r = merge_from(a, b, i, j + 1);
        assert(merge_from(a, b, i, j) =~= seq![b[j]] + r);
    }
}

/// Merges two tick-sorted event sequences, keeping `a`'s events first on equal ticks.
pub fn merge_sorted(a: &Vec<TimedEvent>, b: &Vec<TimedEvent>) -> (out: Vec<TimedEvent>)
    ensures
        out@ == merge(a@, b@),
{
    let mut out: Vec<TimedEvent> = Vec::new();
    let mut i: usize = 0;
    let mut j: usize = 0;
    while i < a.len() && j < b.len()
        invariant
            i <= a.len(),
            j <= b.len(),
            out@ + merge_from(a@, b@, i as int, j as int) == merge(a@, b@),
        decreases (a.len() - i) + (b.len() - j),
    {
        let ghost before = out@;
        if a[i].tick <= b[j].tick {
            out.push(a[i]);
            proof {
                assert(out@ + merge_from(a@, b@, i + 1, j as int) =~= before + merge_from(
                    a@,
                    b@,
                    i as int,
                    j as int,
                ));
            }
            i = i + 1;
        } else {
            out.push(b[j]);
            proof {
                assert(out@ + merge_from(a@, b@, i as int, j + 1) =~= before + merge_from(
                    a@,
                    b@,
                    i as int,
                    j as int,
                ));
            }
            j = j + 1;
        }
    }
    if j == b.len() {
        proof {
            assert(merge_from(a@, b@, i as int, j as int) =~= a@.subrange(i as int, a.len() as int));
        }
        while i < a.len()
            invariant
                i <= a.len(),
                j == b.len(),
                out@ + a@.subrange(i as int, a.len() as int) == merge(a@, b@),
            decreases a.len() - i,
        {
            let ghost before = out@;
            out.push(a[i]);
            proof {
                assert(out@ + a@.subrange(i + 1, a.len() as int) =~= before + a@.subrange(
                    i as int,
                    a.len() as int,
                ));
            }
            i = i + 1;
        }
        proof {
            assert(out@ =~= out@ + a@.subrange(i as int, a.len() as int));
        }
        return out;
    }
    while j < b.len()
        invariant
            j <= b.len(),
            i == a.len(),
            out@ + b@.subrange(j as int, b.len() as int) == merge(a@, b@),
        decreases b.len() - j,
    {
        let ghost before = out@;
        out.push(b[j]);
        proof {
            assert(out@ + b@.subrange(j + 1, b.len() as int) =~= before + b@.subrange(
                j as int,
                b.len() as int,
            ));
        }
        j = j + 1;
    }
    proof {
        assert(out@ =~= out@ + b@.subrange(j as int, b.len() as int));
    }
    out
}

/// The tempo a file plays at until its first tempo change: 120 beats per minute.
pub const DEFAULT_MICROS_PER_BEAT: u32 = 500000;

/// The note clock while it walks the merged timeline.
///
/// Times are in units of a microsecond divided by the ticks per beat: a note
/// `t` units after the start sounds `t / (1_000_000 * ticks_per_beat)` seconds in.
pub struct Clock {
    /// The times of the notes kept so far.
    pub times: Seq<int>,
    /// The ticks of the notes kept so far.
    pub ticks: Seq<int>,
    /// The current tempo in microseconds per beat.
    pub tempo: int,
    /// The time of the last tick the clock advanced to.
    pub now: int,
    /// The last tick the clock advanced to.
    pub last: int,
}

/// The clock before the first event: nothing kept, default tempo, at tick 0.
pub open spec fn clock_start() -> Clock {
    Clock { times: seq![], ticks: seq![], tempo: DEFAULT_MICROS_PER_BEAT as int, now: 0, last: 0 }
}

/// Whether the clock moves forward to the tick of `e`: when `e` lies past
/// the last tick it reached.
pub open spec fn clock_advances(c: Clock, e: TimedEvent) -> bool {
    e.tick > c.last
}

/// Whether the note `e` is kept: when no note at its tick (or later) is kept
/// yet. On a tick-sorted timeline this drops exactly the duplicates: the
/// notes at a tick where a note is already kept.
pub open spec fn clock_keeps(c: Clock, e: TimedEvent) -> bool {
    e.kind == EventKind::Note && (c.ticks.len() == 0 || e.tick > c.ticks.last())
}

/// One event on the timeline: the clock moves to its tick at the current
/// tempo, keeps it if it is a new note, and takes its tempo if it is a
/// tempo change.
pub open spec fn clock_step(c: Clock, e: TimedEvent) -> Clock {
    let advance = clock_advances(c, e);
    let now = if advance {
        c.now + (e.tick - c.last) * c.tempo
    } else {
        c.now
    };
    let keep = clock_keeps(c, e);
    Clock {
        times: if keep {
            c.times.push(now)
        } else {
            c.times
        },
        ticks: if keep {
            c.ticks.push(e.tick as int)
        } else {
            c.ticks
        },
        tempo: match e.kind {
            EventKind::TempoChange(t) => t as int,
            EventKind::Note => c.tempo,
        },
        now,
        last: if advance {
            e.tick as int
        } else {
            c.last
        },
    }
}

/// The clock after walking the whole timeline.
pub open spec fn clock_run(events: Seq<TimedEvent>) -> Clock
    decreases events.len(),
{
    if events.len() == 0 {
        clock_start()
    } else {
        clock_step(clock_run(events.drop_last()), events.last())
    }
}

/// The clock keeps one tick per kept time.
pub proof fn lemma_clock_lengths(events: Seq<TimedEvent>)
    ensures
        clock_run(events).times.len() == clock_run(events).ticks.len(),
    decreases events.len(),
{
    if events.len() > 0 {
        lemma_clock_lengths(events.drop_last());
    }
}

/// A vector of machine times holds exactly the given times.
pub open spec fn times_match(v: Seq<u64>, s: Seq<int>) -> bool {
    &&& v.len() == s.len()
    &&& forall|i: int| 0 <= i < v.len() ==> v[i] as int == #[trigger] s[i]
}

/// Walks a tick-sorted timeline and returns the times of the notes it keeps.
pub fn note_clock(events: &Vec<TimedEvent>) -> (times: Vec<u64>)
    requires
        tick_sorted(events@),
    ensures
        times_match(times@, clock_run(events@).times),
{
    let mut times: Vec<u64> = Vec::new();
    let mut tempo: u32 = DEFAULT_MICROS_PER_BEAT;
    let mut now: u64 = 0;
    let mut last: u32 = 0;
    let mut last_kept: u32 = 0;
    let mut k: usize = 0;
    while k < events.len()
        invariant
            k <= events.len(),
            tick_sorted(events@),
            times_match(times@, clock_run(events@.take(k as int)).times),
            times@.len() == clock_run(events@.take(k as int)).ticks.len(),
            times@.len() > 0 ==> clock_run(events@.take(k as int)).ticks.last() == last_kept,
            clock_run(events@.take(k as int)).tempo == tempo,
            clock_run(events@.take(k as int)).now == now,
            clock_run(events@.take(k as int)).last == last,
            now <= last * 0xffff_ffffu64,
            forall|m: int| k <= m < events.len() ==> last <= #[trigger] events@[m].tick,
        decreases events.len() - k,
    {
        let e = events[k];
        let ghost c = clock_run(events@.take(k as int));
        proof {
            assert(events@.take(k + 1).drop_last() =~= events@.take(k as int));
        }
        proof {
            lemma_clock_lengths(events@.take(k as int));
        }
        if e.tick > last {
            let span: u32 = e.tick - last;
            assert(span as int * tempo as int <= span as int * 0xffff_ffff) by (nonlinear_arith)
                requires
                    tempo <= 0xffff_ffffu32,
            ;
            assert(last * 0xffff_ffffu64 + span * 0xffff_ffffu64 == e.tick * 0xffff_ffffu64) by (
            nonlinear_arith)
                requires
                    span == e.tick - last,
            ;
            assert(e.tick * 0xffff_ffffu64 <= 0xffff_ffffu64 * 0xffff_ffffu64) by (nonlinear_arith)
                requires
                    e.tick <= 0xffff_ffffu32,
            ;
            now = now + span as u64 * tempo as u64;
            last = e.tick;
        }
        if e.kind == EventKind::Note && (times.len() == 0 || e.tick > last_kept) {
            times.push(now);
            last_kept = e.tick;
        }
        match e.kind {
            EventKind::TempoChange(t) => {
                tempo = t;
            },
            EventKind::Note => {},
        }
        proof {
            assert(times_match(times@, clock_run(events@.take(k + 1)).times));
        }
        k = k + 1;
    }
    proof {
        assert(events@.take(k as int) =~= events@);
    }
    times
}

/// The merged timeline of tracks that do not overflow their tick counters is sorted.
pub proof fn lemma_merged_events_sorted(tracks: Seq<Seq<RawEvent>>)
    requires
        forall|t: int| 0 <= t < tracks.len() ==> delta_total(#[trigger] tracks[t]) <= u32::MAX,
    ensures
        tick_sorted(merged_events(tracks)),
    decreases tracks.len(),
{
    if tracks.len() > 0 {
        lemma_merged_events_sorted(tracks.drop_last());
        lemma_track_events_sorted(tracks.last());
        lemma_merge_from_sorted(
            merged_events(tracks.drop_last()),
            track_events(tracks.last()),
            0,
            0,
            0,
        );
    }
}

/// Why a file yields no note times.
#[derive(Debug, Clone, Copy, PartialEq, Eq, Structural)]
pub enum MidiError {
    /// The bytes are not a Standard MIDI File.
    Malformed,
    /// A track's tick counter passes `u32::MAX`.
    TickOverflow,
    /// The file uses timecode timing; only ticks per beat are supported.
    Timecode,
}

/// The note times of a file, in units of a microsecond divided by `ticks_per_beat`.
#[derive(Debug, Clone, PartialEq, Eq)]
pub struct NoteTimes {
    pub ticks_per_beat: u16,
    pub times: Vec<u64>,
}

/// Some track's tick counter passes `u32::MAX`.
pub open spec fn tick_overflow(tracks: Seq<Seq<RawEvent>>) -> bool {
    exists|t: int| 0 <= t < tracks.len() && delta_total(#[trigger] tracks[t]) > u32::MAX
}

/// The note times of a file: its tracks merged into one timeline sorted by
/// tick, walked by the note clock. A note sharing its tick with an earlier
/// kept note is left out.
pub open spec fn file_note_times(f: MidiFileView) -> Result<(u16, Seq<int>), MidiError> {
    if tick_overflow(f.tracks) {
        Err(MidiError::TickOverflow)
    } else {
        match f.ticks_per_beat {
            None => Err(MidiError::Timecode),
            Some(tpb) => Ok((tpb, clock_run(merged_events(f.tracks)).times)),
        }
    }
}

/// A computed result is the mathematical one.
pub open spec fn outcome_matches(
    r: Result<NoteTimes, MidiError>,
    s: Result<(u16, Seq<int>), MidiError>,
) -> bool {
    match r {
        Ok(n) => s matches Ok((tpb, times)) && n.ticks_per_beat == tpb && times_match(
            n.times@,
            times,
        ),
        Err(e) => s == Err::<(u16, Seq<int>), MidiError>(e),
    }
}

/// The note times of a parsed file.
pub fn note_times(file: &MidiFile) -> (r: Result<NoteTimes, MidiError>)
    ensures
        outcome_matches(r, file_note_times(file@)),
{
    let ghost tracks = file@.tracks;
    let mut merged: Vec<TimedEvent> = Vec::new();
    let mut i: usize = 0;
    while i < file.tracks.len()
        invariant
            i <= file.tracks.len(),
            tracks == file@.tracks,
            tracks.len() == file.tracks.len(),
            forall|t: int| 0 <= t < i ==> delta_total(#[trigger] tracks[t]) <= u32::MAX,
            merged@ == merged_events(tracks.take(i as int)),
        decreases file.tracks.len() - i,
    {
        match absolute_events(&file.tracks[i]) {
            None => {
                assert(delta_total(tracks[i as int]) > u32::MAX);
                return Err(MidiError::TickOverflow);
            },
            Some(events) => {
                proof {
                    assert(tracks.take(i + 1).drop_last() =~= tracks.take(i as int));
                    assert(tracks.take(i + 1).last() == tracks[i as int]);
                }
                merged = merge_sorted(&merged, &events);
            },
        }
        i = i + 1;
    }
    proof {
        assert(tracks.take(i as int) =~= tracks);
        lemma_merged_events_sorted(tracks);
    }
    let tpb: u16 = match file.ticks_per_beat {
        None => {
            return Err(MidiError::Timecode);
        },
        Some(t) => t,
    };
    let times = note_clock(&merged);
    Ok(NoteTimes { ticks_per_beat: tpb, times })
}

/// What `midly` reads out of a byte string, event by event as the bytes
/// stand in the file: `None` when it refuses the bytes.
pub uninterp spec fn smf_events(bytes: Seq<u8>) -> Option<SmfEventsView>;

/// A Standard MIDI File read for note timing: its events as `midly` splits
/// them (`smf_events`), each read for what it is (`file_raw_events`).
pub open spec fn smf_parse_result(bytes: Seq<u8>) -> Option<MidiFileView> {
    match smf_events(bytes) {
        Some(f) => Some(file_raw_events(f)),
        None => None,
    }
}

/// Calls `midly::SmfBytemap::parse` and keeps the ticks per beat of a
/// metrical header (`None` for timecode) and, for every event of every
/// track, its delta time and the bytes `midly` read it from.
///
/// Trusted: the result is `smf_events` of the bytes; nothing more is stated
/// of what `midly` accepts or how it splits a file. `midly` reads the header
/// of every "MThd" chunk it meets, the first and any later one, and negates
/// the frames-per-second byte of a timecode division as an `i8`, which
/// overflows (a panic under overflow checks) when that byte is 0x80; bytes
/// that could hold such a header are left out.
#[verifier::external_body]
fn read_smf(bytes: &[u8]) -> (file: Option<SmfEvents>)
    requires
        !has_minus_128_fps_header(bytes@),
    ensures
        match file {
            Some(f) => smf_events(bytes@) == Some(f@),
            None => smf_events(bytes@) is None,
        },
{
    let smf = SmfBytemap::parse(bytes).ok()?;
    let ticks_per_beat = match smf.header.timing {
        Timing::Metrical(t) => Some(t.as_int()),
        Timing::Timecode(..) => None,
    };
    let tracks = smf.tracks.iter().map(|track| track.iter().map(|(raw, e)| EventBytes {
        delta: e.delta.as_int(),
        bytes: raw.to_vec(),
    }).collect()).collect();
    Some(SmfEvents { ticks_per_beat, tracks })
}

/// The times at which notes start in a Standard MIDI File, with duplicates
/// removed. Bytes in which some header chunk could ask for -128 frames per
/// second are malformed.
pub fn parse_midi(bytes: &[u8]) -> (r: Result<NoteTimes, MidiError>)
    ensures
        has_minus_128_fps_header(bytes@) ==> r == Err::<NoteTimes, MidiError>(
            MidiError::Malformed,
        ),
        !has_minus_128_fps_header(bytes@) ==> match smf_parse_result(bytes@) {
            None => r == Err::<NoteTimes, MidiError>(MidiError::Malformed),
            Some(f) => outcome_matches(r, file_note_times(f)),
        },
{
    if is_minus_128_fps(bytes) {
        return Err(MidiError::Malformed);
    }
    match read_smf(bytes) {
        None => Err(MidiError::Malformed),
        Some(events) => note_times(&read_file(&events)),
    }
}

/// The four bytes at `p` are `a b c d`.
pub open spec fn tag_at(s: Seq<u8>, p: int, a: u8, b: u8, c: u8, d: u8) -> bool {
    0 <= p && p + 4 <= s.len() && s[p] == a && s[p + 1] == b && s[p + 2] == c && s[p + 3] == d
}

/// A header chunk could start at `p` whose division word asks for timecode
/// at -128 frames per second: the tag "MThd" stands at `p`, and the high
/// byte of the division, twelve bytes on, is 0x80.
pub open spec fn minus_128_fps_header_at(s: Seq<u8>, p: int) -> bool {
    tag_at(s, p, 0x4D, 0x54, 0x68, 0x64) && p + 12 < s.len() && s[p + 12] == 0x80
}

/// Somewhere in the bytes a header chunk could ask for -128 frames per
/// second. Every header chunk that is read, in a plain file or one wrapped
/// in RIFF, the first or a later one, starts with the tag "MThd" somewhere
/// in the bytes, so every file whose header asks for that rate is among
/// these; the test looks at nothing else, so it also takes in bytes where
/// the tag only happens to stand inside another chunk.
pub open spec fn has_minus_128_fps_header(s: Seq<u8>) -> bool {
    exists|p: int| #[trigger] minus_128_fps_header_at(s, p)
}

/// Whether some header chunk in the bytes could ask for -128 frames per
/// second.
pub fn is_minus_128_fps(bytes: &[u8]) -> (r: bool)
    ensures
        r == has_minus_128_fps_header(bytes@),
{
    let n: usize = bytes.len();
    let mut p: usize = 0;
    while p < n
        invariant
            n == bytes@.len(),
            p <= n,
            forall|q: int| 0 <= q < p ==> !#[trigger] minus_128_fps_header_at(bytes@, q),
        decreases n - p,
    {
        if n - p > 12 && bytes[p] == 0x4D && bytes[p + 1] == 0x54 && bytes[p + 2] == 0x68
            && bytes[p + 3] == 0x64 && bytes[p + 12] == 0x80 {
            assert(minus_128_fps_header_at(bytes@, p as int));
            return true;
        }
        p = p + 1;
    }
    proof {
        assert forall|q: int| !minus_128_fps_header_at(bytes@, q) by {
            if 0 <= q < p {
            }
        }
    }
    false
}

} // verus!
