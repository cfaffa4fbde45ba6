//! Track events of a Standard MIDI File as bytes, and what they say for note
//! timing: which are note-ons (with their velocity) and which set the tempo.
use crate::midi::{MidiFile, MidiFileView, RawEvent, RawKind};
use vstd::prelude::*;

verus! {

/// One event of a track as it stands in the file: the delta time before it,
/// and the bytes after the delta (the status byte, left out under running
/// status, then the data).
pub struct EventBytes {
    pub delta: u32,
    pub bytes: Vec<u8>,
}

/// The mathematical content of an [`EventBytes`].
pub struct EventBytesView {
    pub delta: u32,
    pub bytes: Seq<u8>,
}

impl View for EventBytes {
    type V = EventBytesView;

    open spec fn view(&self) -> EventBytesView {
        EventBytesView { delta: self.delta, bytes: self.bytes@ }
    }
}

/// A Standard MIDI File as its header's ticks per beat (`None` for timecode
/// timing) and its tracks, each a list of events as bytes.
pub struct SmfEvents {
    pub ticks_per_beat: Option<u16>,
    pub tracks: Vec<Vec<EventBytes>>,
}

/// The mathematical content of an [`SmfEvents`].
pub struct SmfEventsView {
    pub ticks_per_beat: Option<u16>,
    pub tracks: Seq<Seq<EventBytesView>>,
}

impl View for SmfEvents {
    type V = SmfEventsView;

    open spec fn view(&self) -> SmfEventsView {
        SmfEventsView {
            ticks_per_beat: self.ticks_per_beat,
            tracks: self.tracks@.map_values(
                |t: Vec<EventBytes>| t@.map_values(|e: EventBytes| e@),
            ),
        }
    }
}

/// The status byte has its top bit set; data bytes have it clear.
pub open spec fn is_status(b: u8) -> bool {
    b >= 0x80
}

/// The status an event is read under: its first byte when that is a status
/// byte, else the running status left by the events before it.
pub open spec fn event_status(running: Option<u8>, ev: Seq<u8>) -> Option<u8> {
    if ev.len() > 0 && is_status(ev[0]) {
        Some(ev[0])
    } else {
        running
    }
}

/// Where the data of an event starts: after its status byte, or at once
/// under running status.
pub open spec fn data_start(ev: Seq<u8>) -> int {
    if ev.len() > 0 && is_status(ev[0]) {
        1
    } else {
        0
    }
}

/// The running status after an event: a channel message (status 0x80 to
/// 0xEF) sets it; system exclusive, escape and meta events clear it.
pub open spec fn running_after(running: Option<u8>, ev: Seq<u8>) -> Option<u8> {
    match event_status(running, ev) {
        Some(s) => if 0x80 <= s <= 0xEF {
            Some(s)
        } else {
            None
        },
        None => None,
    }
}

/// The number of bytes, from `p + i` on, of a variable-length number that
/// starts at `p`: up to and including the first byte with its top bit clear,
/// at most four bytes in all, and no more than the event holds.
pub open spec fn varlen_size_from(ev: Seq<u8>, p: int, i: int) -> int
    decreases 4 - i,
{
    if i >= 4 {
        4
    } else if p + i >= ev.len() {
        i
    } else if !is_status(ev[p + i]) {
        i + 1
    } else {
        varlen_size_from(ev, p, i + 1)
    }
}

/// The number of bytes of the variable-length number at `p`.
pub open spec fn varlen_size(ev: Seq<u8>, p: int) -> int {
    varlen_size_from(ev, p, 0)
}

/// Where the data of a meta event starts: after 0xFF, the type byte and the
/// variable-length data length.
pub open spec fn meta_data_start(ev: Seq<u8>) -> int {
    2 + varlen_size(ev, 2)
}

/// A meta event of type 0x51 ("set tempo") with at least three data bytes.
pub open spec fn is_tempo_event(ev: Seq<u8>) -> bool {
    &&& ev.len() >= 2
    &&& ev[0] == 0xFF
    &&& ev[1] == 0x51
    &&& ev.len() - meta_data_start(ev) >= 3
}

/// The tempo a set-tempo event carries: its first three data bytes, most
/// significant first, in microseconds per beat.
pub open spec fn tempo_of(ev: Seq<u8>) -> int {
    let t = meta_data_start(ev);
    ev[t] * 65536 + ev[t + 1] * 256 + ev[t + 2]
}

/// What an event is for note timing, read under the running status
/// `running`: a channel message with status 0x90 to 0x9F is a note-on, its
/// velocity the second data byte; a set-tempo meta event is a tempo change;
/// anything else is another event.
pub open spec fn event_kind(running: Option<u8>, ev: Seq<u8>) -> RawKind {
    let d = data_start(ev);
    match event_status(running, ev) {
        Some(s) => if 0x90 <= s <= 0x9F && d + 1 < ev.len() {
            RawKind::NoteOn { velocity: ev[d + 1] }
        } else if s == 0xFF && is_tempo_event(ev) {
            RawKind::Tempo { micros_per_beat: tempo_of(ev) as u32 }
        } else {
            RawKind::Other
        },
        None => RawKind::Other,
    }
}

/// The running status before event `k` of a track: none at the start of the
/// track, then as each event leaves it.
pub open spec fn running_before(evs: Seq<EventBytesView>, k: int) -> Option<u8>
    decreases k,
{
    if k <= 0 {
        None
    } else {
        running_after(running_before(evs, k - 1), evs[k - 1].bytes)
    }
}

/// The events of a track, each with its delta and what it is for timing.
pub open spec fn track_raw_events(evs: Seq<EventBytesView>) -> Seq<RawEvent> {
    Seq::new(
        evs.len(),
        |k: int| RawEvent { delta: evs[k].delta, kind: event_kind(running_before(evs, k), evs[k].bytes) },
    )
}

/// A file's tracks, each read for note timing.
pub open spec fn file_raw_events(f: SmfEventsView) -> MidiFileView {
    MidiFileView {
        ticks_per_beat: f.ticks_per_beat,
        tracks: f.tracks.map_values(|t: Seq<EventBytesView>| track_raw_events(t)),
    }
}

/// Law: an event is read as a note-on only when the status it is read under
/// is a note-on status (0x90 to 0x9F), with the byte after the key as its
/// velocity; under a note-off status (0x80 to 0x8F), or any other status
/// than 0x90 to 0x9F and 0xFF, it is never a note-on nor a tempo change.
pub proof fn lemma_note_on_only_from_note_on_status(running: Option<u8>, ev: Seq<u8>)
    ensures
        event_kind(running, ev) matches RawKind::NoteOn { velocity } ==> {
            &&& event_status(running, ev) matches Some(s) && 0x90 <= s <= 0x9F
            &&& data_start(ev) + 1 < ev.len()
            &&& velocity == ev[data_start(ev) + 1]
        },
        event_kind(running, ev) is Tempo ==> ev[0] == 0xFF && ev[1] == 0x51,
        event_status(running, ev) matches Some(s) && !(0x90 <= s <= 0x9F) && s != 0xFF
            ==> event_kind(running, ev) == RawKind::Other,
{
}

proof fn lemma_varlen_size_from(ev: Seq<u8>, p: int, i: int)
    requires
        0 <= i <= 4,
        0 <= p,
        p + i <= ev.len(),
    ensures
        i <= varlen_size_from(ev, p, i) <= 4,
        p + varlen_size_from(ev, p, i) <= ev.len(),
    decreases 4 - i,
{
    if i < 4 && p + i < ev.len() && is_status(ev[p + i]) {
        lemma_varlen_size_from(ev, p, i + 1);
    }
}

/// The number of bytes of the variable-length number at `p`.
fn varlen_size_exec(ev: &Vec<u8>, p: usize) -> (n: usize)
    requires
        p <= ev@.len(),
    ensures
        n as int == varlen_size(ev@, p as int),
        p + n <= ev@.len(),
        n <= 4,
{
    proof {
        lemma_varlen_size_from(ev@, p as int, 0);
    }
    let mut i: usize = 0;
    while i < 4
        invariant
            i <= 4,
            p + i <= ev@.len(),
            varlen_size_from(ev@, p as int, i as int) == varlen_size(ev@, p as int),
        decreases 4 - i,
    {
        if ev.len() - p <= i {
            return i;
        }
        if ev[p + i] < 0x80 {
            return i + 1;
        }
        i = i + 1;
    }
    4
}

/// Reads one event under the running status `running`: what it is for note
/// timing, and the running status it leaves.
pub fn read_event(running: Option<u8>, ev: &Vec<u8>) -> (r: (RawKind, Option<u8>))
    ensures
        r.0 == event_kind(running, ev@),
        r.1 == running_after(running, ev@),
{
    let explicit = ev.len() > 0 && ev[0] >= 0x80;
    let status: Option<u8> = if explicit {
        Some(ev[0])
    } else {
        running
    };
    let d: usize = if explicit {
        1
    } else {
        0
    };
    match status {
        None => (RawKind::Other, None),
        Some(s) => {
            let next: Option<u8> = if 0x80 <= s && s <= 0xEF {
                Some(s)
            } else {
                None
            };
            if 0x90 <= s && s <= 0x9F && d + 1 < ev.len() {
                (RawKind::NoteOn { velocity: ev[d + 1] }, next)
            } else if s == 0xFF && ev.len() >= 2 && ev[0] == 0xFF && ev[1] == 0x51 {
                let t: usize = 2 + varlen_size_exec(ev, 2);
                if ev.len() - t >= 3 {
                    let tempo: u32 = ev[t] as u32 * 65536 + ev[t + 1] as u32 * 256 + ev[t
                        + 2] as u32;
                    (RawKind::Tempo { micros_per_beat: tempo }, next)
                } else {
                    (RawKind::Other, next)
                }
            } else {
                (RawKind::Other, next)
            }
        },
    }
}

/// Reads the events of one track, carrying the running status from each
/// event to the next.
pub fn read_track(evs: &Vec<EventBytes>) -> (track: Vec<RawEvent>)
    ensures
        track@ == track_raw_events(evs@.map_values(|e: EventBytes| e@)),
{
    let ghost spec_evs = evs@.map_values(|e: EventBytes| e@);
    let mut out: Vec<RawEvent> = Vec::new();
    let mut running: Option<u8> = None;
    let mut k: usize = 0;
    while k < evs.len()
        invariant
            k <= evs@.len(),
            spec_evs == evs@.map_values(|e: EventBytes| e@),
            running == running_before(spec_evs, k as int),
            out@ == track_raw_events(spec_evs).take(k as int),
        decreases evs@.len() - k,
    {
        let (kind, next) = read_event(running, &evs[k].bytes);
        proof {
            assert(spec_evs[k as int] == evs@[k as int]@);
        }
        out.push(RawEvent { delta: evs[k].delta, kind });
        running = next;
        k = k + 1;
        proof {
            assert(out@ =~= track_raw_events(spec_evs).take(k as int));
        }
    }
    proof {
        assert(track_raw_events(spec_evs).take(k as int) =~= track_raw_events(spec_evs));
    }
    out
}

/// Reads every track of a file for note timing.
pub fn read_file(f: &SmfEvents) -> (file: MidiFile)
    ensures
        file@ == file_raw_events(f@),
{
    let mut tracks: Vec<Vec<RawEvent>> = Vec::new();
    let mut i: usize = 0;
    while i < f.tracks.len()
        invariant
            i <= f.tracks@.len(),
            tracks@.len() == i,
            forall|j: int|
                0 <= j < i ==> #[trigger] tracks@[j]@ == track_raw_events(
                    f.tracks@[j]@.map_values(|e: EventBytes| e@),
                ),
        decreases f.tracks@.len() - i,
    {
        let t = read_track(&f.tracks[i]);
        tracks.push(t);
        i = i + 1;
    }
    let file = MidiFile { ticks_per_beat: f.ticks_per_beat, tracks };
    proof {
        assert(file@.tracks =~= file_raw_events(f@).tracks);
    }
    file
}

} // verus!
