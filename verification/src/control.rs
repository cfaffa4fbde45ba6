//! The decisions of the window loop: key presses, surface sizes, surface
//! frames, the choice of surface format, and where the note times come from.
use vstd::prelude::*;

verus! {

/// What a key press asks the game to do.
#[derive(Debug, Clone, Copy, PartialEq, Eq, Structural)]
pub enum KeyAction {
    /// Put the square back at the start and stop the music (`r`).
    Reset,
    /// Build a new level from the same notes and stop the music (`g`).
    Regenerate,
    /// Any other key does nothing.
    Nothing,
}

/// The drawing surface as the window loop sees it.
#[derive(Debug, Clone, Copy, PartialEq, Eq, Structural)]
pub struct State {
    /// Width of the surface in pixels.
    pub width: u32,
    /// Height of the surface in pixels.
    pub height: u32,
    /// Whether the surface has been configured at a nonzero size.
    pub is_surface_configured: bool,
}

impl State {
    /// A surface of the window's size, not yet configured.
    pub fn new(width: u32, height: u32) -> (state: State)
        ensures
            state == (State { width, height, is_surface_configured: false }),
    {
        State { width, height, is_surface_configured: false }
    }

    /// Takes a new window size. A size with a zero side is ignored; any other
    /// becomes the surface size, and the surface must be configured again,
    /// which the result asks for.
    pub fn resize(&mut self, width: u32, height: u32) -> (reconfigure: bool)
        ensures
            reconfigure == (width > 0 && height > 0),
            reconfigure ==> *final(self) == (State { width, height, is_surface_configured: true }),
            !reconfigure ==> *final(self) == *old(self),
    {
        if width > 0 && height > 0 {
            self.width = width;
            self.height = height;
            self.is_surface_configured = true;
            true
        } else {
            false
        }
    }

    /// What a typed character asks the game to do.
    pub fn keypress(&self, key: char) -> (action: KeyAction)
        ensures
            action == (if key == 'r' {
                KeyAction::Reset
            } else if key == 'g' {
                KeyAction::Regenerate
            } else {
                KeyAction::Nothing
            }),
    {
        if key == 'r' {
            KeyAction::Reset
        } else if key == 'g' {
            KeyAction::Regenerate
        } else {
            KeyAction::Nothing
        }
    }
}

/// What asking the surface for its next texture gave.
#[derive(Debug, Clone, Copy, PartialEq, Eq, Structural)]
pub enum SurfaceStatus {
    Success,
    Suboptimal,
    Timeout,
    Occluded,
    Validation,
    Lost,
    Outdated,
}

/// What to do with a frame.
#[derive(Debug, Clone, Copy, PartialEq, Eq, Structural)]
pub struct FrameAction {
    /// Configure the surface again first.
    pub reconfigure: bool,
    /// Draw into the texture and present it.
    pub draw: bool,
}

/// A good texture is drawn; a suboptimal one is drawn after configuring the
/// surface again; an outdated surface is configured again and the frame
/// skipped; on any other status the frame is skipped.
pub fn frame_action(status: SurfaceStatus) -> (action: FrameAction)
    ensures
        action.draw == (status == SurfaceStatus::Success || status == SurfaceStatus::Suboptimal),
        action.reconfigure == (status == SurfaceStatus::Suboptimal || status
            == SurfaceStatus::Outdated),
{
    match status {
        SurfaceStatus::Success => FrameAction { reconfigure: false, draw: true },
        SurfaceStatus::Suboptimal => FrameAction { reconfigure: true, draw: true },
        SurfaceStatus::Timeout | SurfaceStatus::Occluded | SurfaceStatus::Validation
        | SurfaceStatus::Lost => FrameAction { reconfigure: false, draw: false },
        SurfaceStatus::Outdated => FrameAction { reconfigure: true, draw: false },
    }
}

/// Picks the surface format: the first that is not sRGB (sRGB makes the
/// picture too bright), else the first one.
pub fn pick_surface_format(is_srgb: &Vec<bool>) -> (index: usize)
    requires
        is_srgb.len() > 0,
    ensures
        index < is_srgb.len(),
        (exists|i: int| 0 <= i < is_srgb.len() && !is_srgb[i]) ==> {
            &&& !is_srgb[index as int]
            &&& forall|i: int| 0 <= i < index ==> is_srgb[i]
        },
        (forall|i: int| 0 <= i < is_srgb.len() ==> is_srgb[i]) ==> index == 0,
{
    let mut i: usize = 0;
    while i < is_srgb.len()
        invariant
            i <= is_srgb.len(),
            forall|k: int| 0 <= k < i ==> is_srgb[k],
        decreases is_srgb.len() - i,
    {
        if !is_srgb[i] {
            return i;
        }
        i = i + 1;
    }
    0
}

/// The character of a one-character string.
pub fn single_char(s: &str) -> (c: Option<char>)
    ensures
        c == (if s@.len() == 1 {
            Some(s@[0])
        } else {
            None::<char>
        }),
{
    if s.unicode_len() == 1 {
        Some(s.get_char(0))
    } else {
        None
    }
}

/// `s` ends with `suffix`.
pub open spec fn has_suffix(s: Seq<char>, suffix: Seq<char>) -> bool {
    suffix.len() <= s.len() && s.subrange(s.len() - suffix.len(), s.len() as int) == suffix
}

/// Whether `s` ends with `suffix`.
pub fn ends_with(s: &str, suffix: &str) -> (b: bool)
    ensures
        b == has_suffix(s@, suffix@),
{
    let n: usize = s.unicode_len();
    let m: usize = suffix.unicode_len();
    if m > n {
        return false;
    }
    let start: usize = n - m;
    let mut k: usize = 0;
    while k < m
        invariant
            n == s@.len(),
            m == suffix@.len(),
            start == n - m,
            k <= m,
            forall|i: int| 0 <= i < k ==> s@[start + i] == suffix@[i],
        decreases m - k,
    {
        if s.get_char(start + k) != suffix.get_char(k) {
            assert(s@.subrange(start as int, n as int)[k as int] != suffix@[k as int]);
            return false;
        }
        k = k + 1;
    }
    assert(s@.subrange(start as int, n as int) =~= suffix@);
    true
}

/// Where the note times of a level come from.
#[derive(Debug, Clone, Copy, PartialEq, Eq, Structural)]
pub enum TimesSource {
    /// A Standard MIDI File (`.mid` or `.midi`).
    Midi,
    /// Raw 32-bit floats, the times in seconds, in order (`.bin`).
    Floats,
}

/// Tells by the file name's ending where the note times come from; `None`
/// for an unsupported file type.
pub fn times_source(path: &str) -> (source: Option<TimesSource>)
    ensures
        source == (if has_suffix(path@, ".mid"@) || has_suffix(path@, ".midi"@) {
            Some(TimesSource::Midi)
        } else if has_suffix(path@, ".bin"@) {
            Some(TimesSource::Floats)
        } else {
            None::<TimesSource>
        }),
{
    if ends_with(path, ".mid") || ends_with(path, ".midi") {
        Some(TimesSource::Midi)
    } else if ends_with(path, ".bin") {
        Some(TimesSource::Floats)
    } else {
        None
    }
}

/// The MIDI and audio paths from the command line: exactly two arguments
/// after the program name.
pub fn paths_from_args(args: &Vec<String>) -> (paths: Option<(String, String)>)
    ensures
        paths is Some <==> args.len() == 3,
        paths matches Some((midi, audio)) ==> midi@ == args[1]@ && audio@ == args[2]@,
{
    if args.len() == 3 {
        Some((args[1].clone(), args[2].clone()))
    } else {
        None
    }
}

} // verus!
