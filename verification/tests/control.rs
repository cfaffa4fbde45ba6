use midi_bounce::control::{
    ends_with, frame_action, paths_from_args, pick_surface_format, single_char, times_source,
    FrameAction, KeyAction, State, SurfaceStatus, TimesSource,
};

#[test]
fn keypress_actions() {
    let state = State::new(800, 600);
    assert_eq!(state.keypress('r'), KeyAction::Reset);
    assert_eq!(state.keypress('g'), KeyAction::Regenerate);
    assert_eq!(state.keypress('R'), KeyAction::Nothing);
    assert_eq!(state.keypress('x'), KeyAction::Nothing);
}

#[test]
fn new_state_is_not_configured() {
    let state = State::new(800, 600);
    assert_eq!(state, State { width: 800, height: 600, is_surface_configured: false });
}

#[test]
fn resize_ignores_zero_sides() {
    let mut state = State::new(800, 600);
    assert!(!state.resize(0, 600));
    assert!(!state.resize(800, 0));
    assert_eq!(state, State::new(800, 600));
    assert!(state.resize(1024, 768));
    assert_eq!(state, State { width: 1024, height: 768, is_surface_configured: true });
}

#[test]
fn frame_actions() {
    let draw = FrameAction { reconfigure: false, draw: true };
    let skip = FrameAction { reconfigure: false, draw: false };
    assert_eq!(frame_action(SurfaceStatus::Success), draw);
    assert_eq!(frame_action(SurfaceStatus::Suboptimal), FrameAction { reconfigure: true, draw: true });
    assert_eq!(frame_action(SurfaceStatus::Timeout), skip);
    assert_eq!(frame_action(SurfaceStatus::Occluded), skip);
    assert_eq!(frame_action(SurfaceStatus::Validation), skip);
    assert_eq!(frame_action(SurfaceStatus::Lost), skip);
    assert_eq!(frame_action(SurfaceStatus::Outdated), FrameAction { reconfigure: true, draw: false });
}

#[test]
fn surface_format_prefers_first_non_srgb() {
    assert_eq!(pick_surface_format(&vec![true, true, false, false]), 2);
    assert_eq!(pick_surface_format(&vec![false, true]), 0);
    assert_eq!(pick_surface_format(&vec![true, true]), 0);
    assert_eq!(pick_surface_format(&vec![true]), 0);
}

#[test]
fn single_char_only_for_one_character() {
    assert_eq!(single_char("r"), Some('r'));
    assert_eq!(single_char("é"), Some('é'));
    assert_eq!(single_char(""), None);
    assert_eq!(single_char("ab"), None);
}

#[test]
fn ends_with_matches_suffixes() {
    assert!(ends_with("song.mid", ".mid"));
    assert!(ends_with(".mid", ".mid"));
    assert!(!ends_with("mid", ".mid"));
    assert!(!ends_with("song.midi", ".mid"));
    assert!(ends_with("anything", ""));
    assert!(ends_with("ü.bin", ".bin"));
}

#[test]
fn times_source_by_extension() {
    assert_eq!(times_source("a/b/song.mid"), Some(TimesSource::Midi));
    assert_eq!(times_source("song.midi"), Some(TimesSource::Midi));
    assert_eq!(times_source("times.bin"), Some(TimesSource::Floats));
    assert_eq!(times_source("song.ogg"), None);
    assert_eq!(times_source("song.MID"), None);
    assert_eq!(times_source(""), None);
}

#[test]
fn paths_need_exactly_two_arguments() {
    let args = |v: &[&str]| v.iter().map(|s| s.to_string()).collect::<Vec<String>>();
    assert_eq!(
        paths_from_args(&args(&["game", "a.mid", "a.ogg"])),
        Some(("a.mid".to_string(), "a.ogg".to_string()))
    );
    assert_eq!(paths_from_args(&args(&["game"])), None);
    assert_eq!(paths_from_args(&args(&["game", "a.mid"])), None);
    assert_eq!(paths_from_args(&args(&["game", "a", "b", "c"])), None);
}
