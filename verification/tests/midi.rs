use midi_bounce::midi::{
    absolute_events, is_minus_128_fps, merge_sorted, note_clock, note_times, parse_midi, EventKind, MidiError,
    MidiFile, NoteTimes, RawEvent, RawKind, TimedEvent, DEFAULT_MICROS_PER_BEAT,
};

/// A Standard MIDI File with the given division word and track bodies.
fn smf(format: u8, division: [u8; 2], tracks: &[Vec<u8>]) -> Vec<u8> {
    let mut out = Vec::new();
    out.extend_from_slice(b"MThd");
    out.extend_from_slice(&[0, 0, 0, 6, 0, format, 0, tracks.len() as u8]);
    out.extend_from_slice(&division);
    for body in tracks {
        out.extend_from_slice(b"MTrk");
        out.extend_from_slice(&(body.len() as u32).to_be_bytes());
        out.extend_from_slice(body);
    }
    out
}

const END_OF_TRACK: [u8; 4] = [0x00, 0xFF, 0x2F, 0x00];

fn note_on(delta: u8, velocity: u8) -> Vec<u8> {
    vec![delta, 0x90, 60, velocity]
}

fn track(events: &[Vec<u8>]) -> Vec<u8> {
    let mut body: Vec<u8> = events.concat();
    body.extend_from_slice(&END_OF_TRACK);
    body
}

fn ok(times: &[u64], ticks_per_beat: u16) -> Result<NoteTimes, MidiError> {
    Ok(NoteTimes { ticks_per_beat, times: times.to_vec() })
}

fn note(delta: u32) -> RawEvent {
    RawEvent { delta, kind: RawKind::NoteOn { velocity: 100 } }
}

fn tempo(delta: u32, micros_per_beat: u32) -> RawEvent {
    RawEvent { delta, kind: RawKind::Tempo { micros_per_beat } }
}

#[test]
fn parse_midi_two_notes_at_default_tempo() {
    let bytes = smf(0, [0, 96], &[track(&[note_on(0, 64), note_on(96, 64)])]);
    assert_eq!(parse_midi(&bytes), ok(&[0, 48_000_000], 96));
}

#[test]
fn parse_midi_reads_tempo_changes_across_tracks() {
    // Track 0 halves the beat length at tick 96; track 1 has notes at 0, 96 and 192.
    let tempo_track = track(&[vec![96, 0xFF, 0x51, 0x03, 0x03, 0xD0, 0x90]]);
    let notes = track(&[note_on(0, 64), note_on(96, 64), note_on(96, 64)]);
    let bytes = smf(1, [0, 96], &[tempo_track, notes]);
    // The note at tick 96 follows the tempo change merged before it; the new
    // tempo applies from tick 96 on.
    assert_eq!(parse_midi(&bytes), ok(&[0, 48_000_000, 48_000_000 + 96 * 250_000], 96));
}

#[test]
fn parse_midi_removes_duplicate_ticks() {
    let bytes = smf(0, [1, 0xE0], &[track(&[note_on(0, 64), note_on(0, 70), note_on(10, 80)])]);
    assert_eq!(parse_midi(&bytes), ok(&[0, 10 * 500_000], 480));
}

#[test]
fn parse_midi_ignores_zero_velocity_notes() {
    let bytes = smf(0, [0, 96], &[track(&[note_on(0, 64), note_on(48, 0), note_on(48, 64)])]);
    assert_eq!(parse_midi(&bytes), ok(&[0, 96 * 500_000], 96));
}

#[test]
fn parse_midi_rejects_timecode_files() {
    let bytes = smf(0, [0xE7, 0x28], &[track(&[note_on(0, 64)])]);
    assert_eq!(parse_midi(&bytes), Err(MidiError::Timecode));
}

#[test]
fn parse_midi_rejects_non_midi_bytes() {
    assert_eq!(parse_midi(b"not a midi file at all"), Err(MidiError::Malformed));
    assert_eq!(parse_midi(&[]), Err(MidiError::Malformed));
}

#[test]
fn parse_midi_reports_tick_overflow() {
    // Seventeen deltas of 2^28 - 1 ticks pass u32::MAX.
    let mut events = Vec::new();
    for _ in 0..17 {
        events.push(vec![0xFF, 0xFF, 0xFF, 0x7F, 0x90, 60, 64]);
    }
    let bytes = smf(0, [0, 96], &[track(&events)]);
    assert_eq!(parse_midi(&bytes), Err(MidiError::TickOverflow));
}

#[test]
fn parse_midi_empty_track_has_no_times() {
    let bytes = smf(0, [0, 96], &[track(&[])]);
    assert_eq!(parse_midi(&bytes), ok(&[], 96));
}

#[test]
fn note_times_overflow_comes_before_timecode() {
    let file = MidiFile { ticks_per_beat: None, tracks: vec![vec![note(u32::MAX), note(1)]] };
    assert_eq!(note_times(&file), Err(MidiError::TickOverflow));
    let file = MidiFile { ticks_per_beat: None, tracks: vec![vec![note(u32::MAX)]] };
    assert_eq!(note_times(&file), Err(MidiError::Timecode));
}

#[test]
fn note_times_largest_ticks_and_tempo_fit() {
    let file = MidiFile {
        ticks_per_beat: Some(1),
        tracks: vec![vec![tempo(0, u32::MAX), note(0), note(u32::MAX)]],
    };
    let expected = (u32::MAX as u64) * (u32::MAX as u64);
    assert_eq!(note_times(&file), ok(&[0, expected], 1));
}

#[test]
fn note_times_default_tempo_law() {
    // With no tempo change every kept note sounds at tick * 500000.
    let file = MidiFile {
        ticks_per_beat: Some(24),
        tracks: vec![vec![note(3), note(4), note(0), note(5)], vec![note(1), note(11)]],
    };
    let ticks = [1u64, 3, 7, 12];
    let expected: Vec<u64> = ticks.iter().map(|t| t * DEFAULT_MICROS_PER_BEAT as u64).collect();
    assert_eq!(note_times(&file), ok(&expected, 24));
}

#[test]
fn note_times_first_note_kept_after_leading_tempo_change() {
    // While no note is kept yet, a note at the tick of a tempo change still counts.
    let file = MidiFile { ticks_per_beat: Some(10), tracks: vec![vec![tempo(5, 100), note(0), note(2)]] };
    assert_eq!(note_times(&file), ok(&[2_500_000, 2_500_000 + 200], 10));
}

#[test]
fn note_times_zero_tempo_repeats_a_time() {
    let file = MidiFile { ticks_per_beat: Some(10), tracks: vec![vec![tempo(0, 0), note(0), note(5)]] };
    assert_eq!(note_times(&file), ok(&[0, 0], 10));
}

#[test]
fn note_times_no_tracks() {
    let file = MidiFile { ticks_per_beat: Some(96), tracks: vec![] };
    assert_eq!(note_times(&file), ok(&[], 96));
}

#[test]
fn absolute_events_accumulates_and_filters() {
    let track = vec![
        note(5),
        RawEvent { delta: 3, kind: RawKind::Other },
        RawEvent { delta: 2, kind: RawKind::NoteOn { velocity: 0 } },
        tempo(1, 42),
        note(0),
    ];
    assert_eq!(
        absolute_events(&track),
        Some(vec![
            TimedEvent { tick: 5, kind: EventKind::Note },
            TimedEvent { tick: 11, kind: EventKind::TempoChange(42) },
            TimedEvent { tick: 11, kind: EventKind::Note },
        ])
    );
    assert_eq!(absolute_events(&vec![note(u32::MAX), note(1)]), None);
    assert_eq!(absolute_events(&vec![]), Some(vec![]));
}

#[test]
fn merge_sorted_is_stable() {
    let a = vec![
        TimedEvent { tick: 1, kind: EventKind::TempoChange(1) },
        TimedEvent { tick: 4, kind: EventKind::TempoChange(2) },
    ];
    let b = vec![
        TimedEvent { tick: 0, kind: EventKind::Note },
        TimedEvent { tick: 4, kind: EventKind::Note },
        TimedEvent { tick: 9, kind: EventKind::Note },
    ];
    assert_eq!(
        merge_sorted(&a, &b),
        vec![b[0], a[0], a[1], b[1], b[2]]
    );
    assert_eq!(merge_sorted(&vec![], &b), b);
    assert_eq!(merge_sorted(&a, &vec![]), a);
}

#[test]
fn note_clock_keeps_one_time_per_tick() {
    let events = vec![
        TimedEvent { tick: 0, kind: EventKind::Note },
        TimedEvent { tick: 0, kind: EventKind::Note },
        TimedEvent { tick: 2, kind: EventKind::TempoChange(10) },
        TimedEvent { tick: 4, kind: EventKind::Note },
        TimedEvent { tick: 4, kind: EventKind::Note },
    ];
    assert_eq!(note_clock(&events), vec![0, 2 * 500_000 + 2 * 10]);
}

#[test]
fn parse_midi_keeps_a_note_at_the_tick_of_a_tempo_change() {
    // 480 ticks per beat: a note at 0; at 480 a tempo of one second per beat, then a
    // note; a note at 960. The notes sound at 0 s, 0.5 s and 1.5 s.
    let bytes = smf(0, [0x01, 0xE0], &[track(&[
        note_on(0, 64),
        vec![0x83, 0x60, 0xFF, 0x51, 0x03, 0x0F, 0x42, 0x40],
        note_on(0, 64),
        vec![0x83, 0x60, 0x90, 0x40, 0x40],
    ])]);
    let r = parse_midi(&bytes).unwrap();
    assert_eq!(r.times, vec![0, 240_000_000, 720_000_000]);
    let seconds: Vec<f64> = r.times.iter().map(|&t| t as f64 / (1e6 * r.ticks_per_beat as f64)).collect();
    assert_eq!(seconds, vec![0.0, 0.5, 1.5]);
}

#[test]
fn parse_midi_ignores_other_events() {
    // Note offs, zero-velocity note ons and controllers change nothing.
    let plain = smf(0, [0, 96], &[track(&[note_on(0, 64), note_on(96, 64)])]);
    let busy = smf(0, [0, 96], &[track(&[
        note_on(0, 64),
        vec![10, 0x80, 60, 0],
        vec![20, 0xB0, 7, 100],
        note_on(30, 0),
        note_on(36, 64),
        vec![5, 0x80, 60, 0],
    ])]);
    assert_eq!(parse_midi(&busy), parse_midi(&plain));
}

fn minus_128_fps_header() -> Vec<u8> {
    vec![0x4D, 0x54, 0x68, 0x64, 0, 0, 0, 6, 0, 0, 0, 1, 0x80, 0x00]
}

fn riff(smf: &[u8]) -> Vec<u8> {
    let mut data = Vec::new();
    data.extend_from_slice(b"RMID");
    data.extend_from_slice(b"data");
    data.extend_from_slice(&(smf.len() as u32).to_le_bytes());
    data.extend_from_slice(smf);
    if smf.len() % 2 == 1 {
        data.push(0);
    }
    let mut out = Vec::new();
    out.extend_from_slice(b"RIFF");
    out.extend_from_slice(&(data.len() as u32).to_le_bytes());
    out.extend_from_slice(&data);
    out
}

#[test]
fn parse_midi_minus_128_fps_is_malformed() {
    assert!(is_minus_128_fps(&minus_128_fps_header()));
    assert_eq!(parse_midi(&minus_128_fps_header()), Err(MidiError::Malformed));
    let wrapped = riff(&minus_128_fps_header());
    assert!(is_minus_128_fps(&wrapped));
    assert_eq!(parse_midi(&wrapped), Err(MidiError::Malformed));
}

#[test]
fn is_minus_128_fps_only_for_that_division() {
    let ok_file = smf(0, [0, 96], &[track(&[note_on(0, 64)])]);
    assert!(!is_minus_128_fps(&ok_file));
    assert!(!is_minus_128_fps(&smf(0, [0xE7, 0x28], &[])));
    assert!(!is_minus_128_fps(b"garbage"));
    assert!(!is_minus_128_fps(&[]));
    // The tag with nothing twelve bytes on.
    assert!(!is_minus_128_fps(&[0x4D, 0x54, 0x68, 0x64, 0, 0, 0, 6, 0, 0, 0, 1]));
    // 0x80 twelve bytes after something other than the tag.
    assert!(!is_minus_128_fps(&[0x4D, 0x54, 0x72, 0x6B, 0, 0, 0, 6, 0, 0, 0, 1, 0x80, 0x00]));
}

#[test]
fn parse_midi_later_minus_128_fps_header_is_malformed() {
    let mut file = smf(0, [0, 96], &[track(&[note_on(0, 64)])]);
    assert_eq!(parse_midi(&file), ok(&[0], 96));
    file.extend_from_slice(&minus_128_fps_header());
    assert!(is_minus_128_fps(&file));
    assert_eq!(parse_midi(&file), Err(MidiError::Malformed));
    assert_eq!(parse_midi(&riff(&file)), Err(MidiError::Malformed));
}

#[test]
fn parse_midi_reads_riff_wrapped_files() {
    let inner = smf(0, [0, 96], &[track(&[note_on(0, 64), note_on(96, 64)])]);
    assert_eq!(parse_midi(&riff(&inner)), ok(&[0, 48_000_000], 96));
}

#[test]
fn note_clock_sums_each_gap_at_the_tempo_in_force() {
    // Gaps 0..3 at the default 500000, 3..5 at 100, 5..9 at 7.
    let events = vec![
        TimedEvent { tick: 3, kind: EventKind::TempoChange(100) },
        TimedEvent { tick: 5, kind: EventKind::TempoChange(7) },
        TimedEvent { tick: 5, kind: EventKind::Note },
        TimedEvent { tick: 9, kind: EventKind::Note },
    ];
    assert_eq!(note_clock(&events), vec![3 * 500_000 + 2 * 100, 3 * 500_000 + 2 * 100 + 4 * 7]);
}
