//! Screen capture: capture modes, the compositor in use, recording sizes,
//! keybindings of the mode selector, and the pixel work on captured frames.
use vstd::prelude::*;

use crate::strings::{push_str, trim};
use crate::text::{chars_of, parse_u32_text, parsed_u32, str_eq};

verus! {

/// What a capture takes: an image or a recording, of an area, a window or a
/// screen; or the end of a recording in progress.
#[derive(Debug, Clone, Copy, PartialEq, Eq, Structural)]
pub enum CaptureMode {
    ImageArea,
    ImageWindow,
    ImageScreen,
    VideoArea,
    VideoWindow,
    VideoScreen,
    /// Offered by the mode selector only while a recording is in progress.
    StopRecording,
}

/// The name a capture mode is given on the command line.
pub open spec fn mode_name(m: CaptureMode) -> Seq<char> {
    match m {
        CaptureMode::ImageArea => "image-area"@,
        CaptureMode::ImageWindow => "image-window"@,
        CaptureMode::ImageScreen => "image-screen"@,
        CaptureMode::VideoArea => "video-area"@,
        CaptureMode::VideoWindow => "video-window"@,
        CaptureMode::VideoScreen => "video-screen"@,
        CaptureMode::StopRecording => "stop-recording"@,
    }
}

/// The mode a command-line name selects; stopping a recording has none.
pub open spec fn parsed_mode(s: Seq<char>) -> Option<CaptureMode> {
    if s == "image-area"@ {
        Some(CaptureMode::ImageArea)
    } else if s == "image-window"@ {
        Some(CaptureMode::ImageWindow)
    } else if s == "image-screen"@ {
        Some(CaptureMode::ImageScreen)
    } else if s == "video-area"@ {
        Some(CaptureMode::VideoArea)
    } else if s == "video-window"@ {
        Some(CaptureMode::VideoWindow)
    } else if s == "video-screen"@ {
        Some(CaptureMode::VideoScreen)
    } else {
        None
    }
}

/// A mode name that names no capture mode.
#[derive(Debug, Clone, PartialEq, Eq)]
pub struct InvalidMode {
    /// The name that was given.
    pub given: String,
}

/// The text that lists the valid mode names after an invalid one.
pub open spec fn invalid_mode_text(given: Seq<char>) -> Seq<char> {
    "Invalid mode: '"@ + given
        + "'. Valid modes: image-area, image-window, image-screen, video-area, video-window, video-screen"@
}

impl InvalidMode {
    /// The message that names the invalid mode and lists the valid ones.
    pub fn message(&self) -> (m: String)
        ensures
            m@ == invalid_mode_text(self.given@),
    {
        let mut m = String::new();
        push_str(&mut m, "Invalid mode: '");
        push_str(&mut m, self.given.as_str());
        push_str(
            &mut m,
            "'. Valid modes: image-area, image-window, image-screen, video-area, video-window, video-screen",
        );
        m
    }
}

impl CaptureMode {
    /// Reads a command-line mode name.
    pub fn from_str(s: &str) -> (r: Result<CaptureMode, InvalidMode>)
        ensures
            parsed_mode(s@) matches Some(m) ==> r == Ok::<CaptureMode, InvalidMode>(m),
            parsed_mode(s@) is None ==> (r matches Err(e) && e.given@ == s@),
    {
        if str_eq(s, "image-area") {
            Ok(CaptureMode::ImageArea)
        } else if str_eq(s, "image-window") {
            Ok(CaptureMode::ImageWindow)
        } else if str_eq(s, "image-screen") {
            Ok(CaptureMode::ImageScreen)
        } else if str_eq(s, "video-area") {
            Ok(CaptureMode::VideoArea)
        } else if str_eq(s, "video-window") {
            Ok(CaptureMode::VideoWindow)
        } else if str_eq(s, "video-screen") {
            Ok(CaptureMode::VideoScreen)
        } else {
            Err(InvalidMode { given: s.to_owned() })
        }
    }

    /// The mode's name.
    pub fn as_str(&self) -> (s: &'static str)
        ensures
            s@ == mode_name(*self),
    {
        match self {
            CaptureMode::ImageArea => "image-area",
            CaptureMode::ImageWindow => "image-window",
            CaptureMode::ImageScreen => "image-screen",
            CaptureMode::VideoArea => "video-area",
            CaptureMode::VideoWindow => "video-window",
            CaptureMode::VideoScreen => "video-screen",
            CaptureMode::StopRecording => "stop-recording",
        }
    }

    /// Whether the mode records video.
    pub fn is_video(&self) -> (b: bool)
        ensures
            b <==> (*self == CaptureMode::VideoArea || *self == CaptureMode::VideoWindow || *self
                == CaptureMode::VideoScreen),
    {
        match self {
            CaptureMode::VideoArea | CaptureMode::VideoWindow | CaptureMode::VideoScreen => true,
            _ => false,
        }
    }
}

/// Every mode that can be asked for reads back from its own name, and no two
/// modes share a name.
pub proof fn law_mode_name_round_trip(m: CaptureMode)
    requires
        m != CaptureMode::StopRecording,
    ensures
        parsed_mode(mode_name(m)) == Some(m),
{
    reveal_strlit("image-area");
    reveal_strlit("image-window");
    reveal_strlit("image-screen");
    reveal_strlit("video-area");
    reveal_strlit("video-window");
    reveal_strlit("video-screen");
    match m {
        CaptureMode::ImageArea => {},
        CaptureMode::ImageWindow => {
            assert("image-window"@[6] != "image-area"@[6]);
        },
        CaptureMode::ImageScreen => {
            assert("image-screen"@[6] != "image-area"@[6]);
            assert("image-screen"@[6] != "image-window"@[6]);
        },
        CaptureMode::VideoArea => {
            assert("video-area"@[0] != "image-area"@[0]);
            assert("video-area"@[0] != "image-window"@[0]);
            assert("video-area"@[0] != "image-screen"@[0]);
        },
        CaptureMode::VideoWindow => {
            assert("video-window"@[0] != "image-area"@[0]);
            assert("video-window"@[0] != "image-window"@[0]);
            assert("video-window"@[0] != "image-screen"@[0]);
            assert("video-window"@[6] != "video-area"@[6]);
        },
        CaptureMode::VideoScreen => {
            assert("video-screen"@[0] != "image-area"@[0]);
            assert("video-screen"@[0] != "image-window"@[0]);
            assert("video-screen"@[0] != "image-screen"@[0]);
            assert("video-screen"@[6] != "video-area"@[6]);
            assert("video-screen"@[6] != "video-window"@[6]);
        },
        CaptureMode::StopRecording => {},
    }
}

/// The Wayland compositor that is running.
#[derive(Debug, Clone, Copy, PartialEq, Eq, Structural)]
pub enum Compositor {
    Hyprland,
    Niri,
    Sway,
    Unknown,
}

impl Compositor {
    /// The compositor's name.
    pub fn name(&self) -> (s: &'static str)
        ensures
            s@ == compositor_name(*self),
    {
        match self {
            Compositor::Hyprland => "Hyprland",
            Compositor::Niri => "Niri",
            Compositor::Sway => "Sway",
            Compositor::Unknown => "Unknown",
        }
    }
}

/// The compositor that the presence of its socket variables points to:
/// Hyprland's instance signature, then Niri's socket, then Sway's.
pub fn compositor_from_env(hyprland: bool, niri: bool, sway: bool) -> (c: Compositor)
    ensures
        c == (if hyprland {
            Compositor::Hyprland
        } else if niri {
            Compositor::Niri
        } else if sway {
            Compositor::Sway
        } else {
            Compositor::Unknown
        }),
{
    if hyprland {
        Compositor::Hyprland
    } else if niri {
        Compositor::Niri
    } else if sway {
        Compositor::Sway
    } else {
        Compositor::Unknown
    }
}

/// The name of a compositor, as `Compositor::name` gives it.
pub open spec fn compositor_name(c: Compositor) -> Seq<char> {
    match c {
        Compositor::Hyprland => "Hyprland"@,
        Compositor::Niri => "Niri"@,
        Compositor::Sway => "Sway"@,
        Compositor::Unknown => "Unknown"@,
    }
}

/// Why a Hyprland query cannot be made under another compositor.
pub open spec fn hyprland_required_text(c: Compositor) -> Seq<char> {
    "Hyprland-specific features require Hyprland (detected: "@ + compositor_name(c)
        + "). Use generic Wayland protocols instead."@
}

/// Whether Hyprland can be asked about windows and monitors: under Hyprland,
/// yes; under another compositor, the reason why not.
pub fn hyprland_query_allowed(c: Compositor) -> (r: Result<(), String>)
    ensures
        c == Compositor::Hyprland ==> r is Ok,
        c != Compositor::Hyprland ==> (r matches Err(m) && m@ == hyprland_required_text(c)),
{
    match c {
        Compositor::Hyprland => Ok(()),
        _ => {
            let mut m = "Hyprland-specific features require Hyprland (detected: ".to_owned();
            push_str(&mut m, c.name());
            push_str(&mut m, "). Use generic Wayland protocols instead.");
            Err(m)
        },
    }
}

/// The socket of the Hyprland instance `signature` under `runtime_dir`.
pub fn hyprland_socket_path(runtime_dir: &str, signature: &str) -> (p: String)
    ensures
        p@ == runtime_dir@ + "/hypr/"@ + signature@ + "/.socket.sock"@,
{
    let mut p = runtime_dir.to_owned();
    push_str(&mut p, "/hypr/");
    push_str(&mut p, signature);
    push_str(&mut p, "/.socket.sock");
    p
}

/// The request that asks Hyprland for `command`'s answer as JSON.
pub fn hyprctl_request(command: &str) -> (r: String)
    ensures
        r@ == "-j/"@ + command@,
{
    let mut r = "-j/".to_owned();
    push_str(&mut r, command);
    r
}

/// The index of the first `c` in `s`, if any.
pub open spec fn first_index_of(s: Seq<char>, c: char) -> Option<int>
    decreases s.len(),
{
    if s.len() == 0 {
        None
    } else if s[0] == c {
        Some(0)
    } else {
        match first_index_of(s.drop_first(), c) {
            Some(i) => Some(i + 1),
            None => None,
        }
    }
}

pub proof fn lemma_first_index_of(s: Seq<char>, c: char, k: int)
    requires
        0 <= k <= s.len(),
        forall|i: int| 0 <= i < k ==> s[i] != c,
    ensures
        k < s.len() && s[k] == c ==> first_index_of(s, c) == Some(k),
        k == s.len() ==> first_index_of(s, c) is None,
    decreases k,
{
    if k > 0 {
        lemma_first_index_of(s.drop_first(), c, k - 1);
    }
}

/// The index of the first `c` in `s`, if any.
pub fn find_char(s: &str, c: char) -> (r: Option<usize>)
    ensures
        r matches Some(i) ==> first_index_of(s@, c) == Some(i as int) && i < s@.len(),
        r is None ==> first_index_of(s@, c) is None,
{
    let cs = chars_of(s);
    let n = cs.len();
    let mut i: usize = 0;
    while i < n && cs[i] != c
        invariant
            i <= n,
            n == cs@.len(),
            cs@ == s@,
            forall|k: int| 0 <= k < i ==> s@[k] != c,
        decreases n - i,
    {
        i = i + 1;
    }
    proof {
        lemma_first_index_of(s@, c, i as int);
    }
    if i == n {
        None
    } else {
        Some(i)
    }
}

/// A `WIDTHxHEIGHT` resolution: the text before the first `x` and the text
/// after it, each read as a `u32` once trimmed.
pub open spec fn parsed_resolution(s: Seq<char>) -> Option<(nat, nat)> {
    match first_index_of(s, 'x') {
        Some(i) => match (
            parsed_u32(crate::strings::trimmed(s.take(i))),
            parsed_u32(crate::strings::trimmed(s.skip(i + 1))),
        ) {
            (Some(w), Some(h)) => Some((w, h)),
            _ => None,
        },
        None => None,
    }
}

/// Reads a `WIDTHxHEIGHT` resolution such as `1920x1080`.
pub fn parse_resolution(resolution: &str) -> (r: Option<(u32, u32)>)
    ensures
        r matches Some((w, h)) ==> parsed_resolution(resolution@) == Some((w as nat, h as nat)),
        r is None ==> parsed_resolution(resolution@) is None,
{
    let cs = chars_of(resolution);
    let n = cs.len();
    let mut i: usize = 0;
    while i < n && cs[i] != 'x'
        invariant
            i <= n,
            n == cs@.len(),
            cs@ == resolution@,
            forall|j: int| 0 <= j < i ==> cs@[j] != 'x',
        decreases n - i,
    {
        i = i + 1;
    }
    proof {
        lemma_first_index_of(resolution@, 'x', i as int);
    }
    if i == n {
        return None;
    }
    let width_text = resolution.substring_char(0, i);
    let height_text = resolution.substring_char(i + 1, n);
    assert(width_text@ == resolution@.take(i as int));
    assert(height_text@ == resolution@.skip(i + 1));
    let width = parse_u32_text(trim(width_text));
    let height = parse_u32_text(trim(height_text));
    match (width, height) {
        (Some(w), Some(h)) => Some((w, h)),
        _ => None,
    }
}

/// The size a recording of `rect` encodes: its width and height, either
/// taken as zero when it is negative.
pub fn recorded_size(rect: crate::region::Rect) -> (r: (u32, u32))
    ensures
        r.0 == (if rect.width > 0 {
            rect.width as u32
        } else {
            0u32
        }),
        r.1 == (if rect.height > 0 {
            rect.height as u32
        } else {
            0u32
        }),
{
    let w: u32 = if rect.width > 0 {
        rect.width as u32
    } else {
        0
    };
    let h: u32 = if rect.height > 0 {
        rect.height as u32
    } else {
        0
    };
    (w, h)
}

/// Where a capture is written: the output given explicitly, else a file
/// named by `timestamp` with `extension` in `save_path`.
pub fn output_file_path(output: Option<&str>, save_path: &str, timestamp: &str, extension: &str) -> (r: String)
    ensures
        match output {
            Some(o) => r@ == o@,
            None => r@ == save_path@ + "/"@ + timestamp@ + "."@ + extension@,
        },
{
    match output {
        Some(o) => o.to_owned(),
        None => {
            let mut path = save_path.to_owned();
            push_str(&mut path, "/");
            push_str(&mut path, timestamp);
            push_str(&mut path, ".");
            push_str(&mut path, extension);
            path
        },
    }
}

/// What becomes of a completed selection.
#[derive(Debug, Clone, PartialEq, Eq)]
pub enum SelectionAction {
    /// An area mode: the selection goes back to the caller as `X,Y WxH`,
    /// with its pixels cut from the frozen screen when `crop` holds.
    Hand { geometry: String, crop: bool },
    /// Its text is read and copied.
    Ocr,
    /// Its pixels are captured and saved to the output.
    Save,
    /// Its `X,Y WxH` is printed.
    Print(String),
}

/// What becomes of a selection of `rect`: in an area mode it goes back to
/// the caller, cut from the frozen screen for a screenshot on a frozen
/// screen; otherwise it is read as text when OCR is on, saved when an
/// output is given, or printed.
pub fn selection_action(
    mode: Option<CaptureMode>,
    freeze: bool,
    ocr: bool,
    has_output: bool,
    rect: crate::region::Rect,
) -> (r: SelectionAction)
    ensures
        (mode == Some(CaptureMode::ImageArea) || mode == Some(CaptureMode::VideoArea)) ==> (
        r matches SelectionAction::Hand { geometry, crop } && geometry@ == crate::region::geometry_text(
            rect,
        ) && crop == (freeze && mode == Some(CaptureMode::ImageArea))),
        !(mode == Some(CaptureMode::ImageArea) || mode == Some(CaptureMode::VideoArea)) ==> (if ocr {
            r == SelectionAction::Ocr
        } else if has_output {
            r == SelectionAction::Save
        } else {
            r matches SelectionAction::Print(g) && g@ == crate::region::geometry_text(rect)
        }),
{
    let area = match mode {
        Some(CaptureMode::ImageArea) => true,
        Some(CaptureMode::VideoArea) => true,
        _ => false,
    };
    if area {
        let crop = freeze && match mode {
            Some(CaptureMode::ImageArea) => true,
            _ => false,
        };
        SelectionAction::Hand { geometry: rect.to_geometry_string(), crop }
    } else if ocr {
        SelectionAction::Ocr
    } else if has_output {
        SelectionAction::Save
    } else {
        SelectionAction::Print(rect.to_geometry_string())
    }
}

/// How the bitrate of a recording is settled.
#[derive(Debug, Clone, PartialEq, Eq)]
pub enum BitrateChoice {
    /// The configured bitrate, as it was written.
    Configured(String),
    /// The recorder's own default, as nothing tells the encoded size.
    RecorderDefault,
    /// A bitrate sized to an encoded area of `width` by `height` pixels.
    Sized { width: u32, height: u32 },
}

/// Settles the bitrate of a recording: the configured one when there is one;
/// else one sized to what is encoded, which is the encoder resolution when
/// that reads as `WIDTHxHEIGHT`, else the recorded `size`; else the
/// recorder's default.
pub fn bitrate_choice(configured: &str, encode_resolution: &str, size: Option<(u32, u32)>) -> (r: BitrateChoice)
    ensures
        configured@.len() > 0 ==> (r matches BitrateChoice::Configured(b) && b@ == configured@),
        configured@.len() == 0 ==> match parsed_resolution(encode_resolution@) {
            Some((w, h)) => r == BitrateChoice::Sized { width: w as u32, height: h as u32 },
            None => match size {
                Some((w, h)) => r == BitrateChoice::Sized { width: w, height: h },
                None => r == BitrateChoice::RecorderDefault,
            },
        },
{
    if configured.unicode_len() > 0 {
        return BitrateChoice::Configured(configured.to_owned());
    }
    match parse_resolution(encode_resolution) {
        Some((width, height)) => BitrateChoice::Sized { width, height },
        None => match size {
            Some((width, height)) => BitrateChoice::Sized { width, height },
            None => BitrateChoice::RecorderDefault,
        },
    }
}

/// Which bindings a pressed key matches.
#[derive(Debug, Clone, Copy, PartialEq, Eq, Structural)]
pub struct KeyMatches {
    /// Escape or `q`, which always cancel.
    pub cancel: bool,
    pub ocr: bool,
    pub stop_recording: bool,
    pub screenshot_area: bool,
    pub screenshot_screen: bool,
    pub screenshot_window: bool,
    pub record_area: bool,
    pub record_screen: bool,
    pub record_window: bool,
}

/// What the mode selector does with a key.
#[derive(Debug, Clone, Copy, PartialEq, Eq, Structural)]
pub enum KeyAction {
    /// Close the overlay without capturing.
    Cancel,
    /// Nothing.
    Ignore,
    /// Select a region to recognise text in.
    BeginOcr,
    /// End the recording in progress.
    StopRecording,
    /// Select a region, then capture it in this mode.
    SelectRegion(CaptureMode),
    /// Capture at once in this mode.
    CaptureNow(CaptureMode),
}

/// What a key does: cancelling always works; the rest only while the mode
/// selector is shown, in the order text recognition, stopping a recording
/// (only while one runs), then the six capture modes, the area modes going on
/// to select a region.
pub open spec fn key_action_of(m: KeyMatches, mode_select: bool, recording: bool) -> KeyAction {
    if m.cancel {
        KeyAction::Cancel
    } else if !mode_select {
        KeyAction::Ignore
    } else if m.ocr {
        KeyAction::BeginOcr
    } else if recording && m.stop_recording {
        KeyAction::StopRecording
    } else if m.screenshot_area {
        KeyAction::SelectRegion(CaptureMode::ImageArea)
    } else if m.screenshot_screen {
        KeyAction::CaptureNow(CaptureMode::ImageScreen)
    } else if m.screenshot_window {
        KeyAction::CaptureNow(CaptureMode::ImageWindow)
    } else if m.record_area {
        KeyAction::SelectRegion(CaptureMode::VideoArea)
    } else if m.record_screen {
        KeyAction::CaptureNow(CaptureMode::VideoScreen)
    } else if m.record_window {
        KeyAction::CaptureNow(CaptureMode::VideoWindow)
    } else {
        KeyAction::Ignore
    }
}

/// Decides what a key pressed on the overlay does, given the bindings it
/// matches, whether the mode selector is shown, and whether a recording runs.
pub fn key_action(m: KeyMatches, mode_select: bool, recording: bool) -> (a: KeyAction)
    ensures
        a == key_action_of(m, mode_select, recording),
{
    if m.cancel {
        KeyAction::Cancel
    } else if !mode_select {
        KeyAction::Ignore
    } else if m.ocr {
        KeyAction::BeginOcr
    } else if recording && m.stop_recording {
        KeyAction::StopRecording
    } else if m.screenshot_area {
        KeyAction::SelectRegion(CaptureMode::ImageArea)
    } else if m.screenshot_screen {
        KeyAction::CaptureNow(CaptureMode::ImageScreen)
    } else if m.screenshot_window {
        KeyAction::CaptureNow(CaptureMode::ImageWindow)
    } else if m.record_area {
        KeyAction::SelectRegion(CaptureMode::VideoArea)
    } else if m.record_screen {
        KeyAction::CaptureNow(CaptureMode::VideoScreen)
    } else if m.record_window {
        KeyAction::CaptureNow(CaptureMode::VideoWindow)
    } else {
        KeyAction::Ignore
    }
}

/// Whether a key picks the binding `key`: the binding's first character is
/// the key's character.
pub fn key_matches(pressed: char, key: &str) -> (b: bool)
    ensures
        b == (key@.len() > 0 && key@[0] == pressed),
{
    key.unicode_len() > 0 && key.get_char(0) == pressed
}

} // verus!
