//! The settings of the screen-capture tool: their defaults, and the checks
//! made on the mode selector's keybindings.
use vstd::prelude::*;

use crate::strings::push_str;

verus! {

/// The weight of the overlay's text.
#[derive(Debug, Clone, Copy, PartialEq, Eq, Structural)]
pub enum FontWeight {
    Normal,
    Bold,
}

impl Default for FontWeight {
    fn default() -> (w: Self)
        ensures
            w == FontWeight::Bold,
    {
        FontWeight::Bold
    }
}

/// How much the tool logs.
#[derive(Debug, Clone, Copy, PartialEq, Eq, Structural)]
pub enum LogLevel {
    Off,
    Error,
    Warn,
    Info,
    Debug,
    Trace,
}

impl Default for LogLevel {
    fn default() -> (l: Self)
        ensures
            l == LogLevel::Off,
    {
        LogLevel::Off
    }
}

/// The name of what `str`'s `Debug` formatting writes for a text: the text
/// in double quotes, with quotes, backslashes and characters that do not
/// print escaped.
pub uninterp spec fn debug_quoted(s: Seq<char>) -> Seq<char>;

/// `s` as `{:?}` formats it: std's `Debug` for `str`. Its result is named
/// `debug_quoted` and not spelled out here.
#[verifier::external_body]
fn quoted(s: &str) -> (r: String)
    ensures
        r@ == debug_quoted(s@),
{
    format!("{:?}", s)
}

/// The key of each action of the mode selector.
#[derive(Debug, Clone)]
pub struct KeybindsConfig {
    pub screenshot_area: String,
    pub screenshot_screen: String,
    pub screenshot_window: String,
    pub ocr: String,
    pub record_area: String,
    pub record_screen: String,
    pub record_window: String,
    pub stop_recording: String,
}

impl Default for KeybindsConfig {
    fn default() -> (k: Self)
        ensures
            k.screenshot_area@ == "a"@,
            k.screenshot_screen@ == "s"@,
            k.screenshot_window@ == "w"@,
            k.ocr@ == "c"@,
            k.record_area@ == "A"@,
            k.record_screen@ == "S"@,
            k.record_window@ == "W"@,
            k.stop_recording@ == "x"@,
    {
        KeybindsConfig {
            screenshot_area: "a".to_owned(),
            screenshot_screen: "s".to_owned(),
            screenshot_window: "w".to_owned(),
            ocr: "c".to_owned(),
            record_area: "A".to_owned(),
            record_screen: "S".to_owned(),
            record_window: "W".to_owned(),
            stop_recording: "x".to_owned(),
        }
    }
}

/// The bindings as (action, key), in the order the selector shows them.
pub open spec fn keybind_entries(k: KeybindsConfig) -> Seq<(Seq<char>, Seq<char>)> {
    seq![
        ("screenshot_area"@, k.screenshot_area@),
        ("screenshot_screen"@, k.screenshot_screen@),
        ("screenshot_window"@, k.screenshot_window@),
        ("ocr"@, k.ocr@),
        ("record_area"@, k.record_area@),
        ("record_screen"@, k.record_screen@),
        ("record_window"@, k.record_window@),
        ("stop_recording"@, k.stop_recording@),
    ]
}

/// The views of (action, key) pairs.
pub open spec fn entry_views(v: Seq<(&str, &str)>) -> Seq<(Seq<char>, Seq<char>)> {
    v.map_values(|e: (&str, &str)| (e.0@, e.1@))
}

/// The report on a binding that is not a single key.
pub open spec fn not_single_key_text(name: Seq<char>, key: Seq<char>) -> Seq<char> {
    "keybind "@ + name + " is "@ + debug_quoted(key) + ", which is not a single key, so it will never fire"@
}

/// The report on a binding that repeats the key of an earlier one.
pub open spec fn shared_key_text(earlier: Seq<char>, name: Seq<char>, key: Seq<char>) -> Seq<char> {
    "keybinds "@ + earlier + " and "@ + name + " are both "@ + debug_quoted(key) + "; only "@ + earlier
        + " will fire"@
}

/// The reports on bindings that are not one key, among the first `n`.
pub open spec fn single_key_problems(e: Seq<(Seq<char>, Seq<char>)>, n: nat) -> Seq<Seq<char>>
    decreases n,
{
    if n == 0 {
        seq![]
    } else {
        let rest = single_key_problems(e, (n - 1) as nat);
        let (name, key) = e[n - 1];
        if key.len() != 1 {
            rest.push(not_single_key_text(name, key))
        } else {
            rest
        }
    }
}

/// The first entry before `i` with the same key as entry `i`.
pub open spec fn first_same_key(e: Seq<(Seq<char>, Seq<char>)>, i: int, j: int) -> Option<int>
    decreases i - j,
{
    if j >= i || j < 0 {
        None
    } else if e[j].1 == e[i].1 {
        Some(j)
    } else {
        first_same_key(e, i, j + 1)
    }
}

/// The reports on bindings that repeat an earlier key, among the first `n`.
pub open spec fn shared_key_problems(e: Seq<(Seq<char>, Seq<char>)>, n: nat) -> Seq<Seq<char>>
    decreases n,
{
    if n == 0 {
        seq![]
    } else {
        let rest = shared_key_problems(e, (n - 1) as nat);
        let i = n - 1;
        match first_same_key(e, i, 0) {
            Some(j) => rest.push(shared_key_text(e[j].0, e[i].0, e[i].1)),
            None => rest,
        }
    }
}

/// Every report on the bindings: first those that are not one key, then
/// those whose key an earlier binding already has.
pub open spec fn keybind_problems(e: Seq<(Seq<char>, Seq<char>)>) -> Seq<Seq<char>> {
    single_key_problems(e, e.len()) + shared_key_problems(e, e.len())
}

/// The views of a list of texts.
pub open spec fn text_views(v: Seq<String>) -> Seq<Seq<char>> {
    v.map_values(|s: String| s@)
}

impl KeybindsConfig {
    /// Each binding as (action, key).
    pub fn entries(&self) -> (e: [(&'static str, &str); 8])
        ensures
            entry_views(e@) == keybind_entries(*self),
    {
        let e = [
            ("screenshot_area", self.screenshot_area.as_str()),
            ("screenshot_screen", self.screenshot_screen.as_str()),
            ("screenshot_window", self.screenshot_window.as_str()),
            ("ocr", self.ocr.as_str()),
            ("record_area", self.record_area.as_str()),
            ("record_screen", self.record_screen.as_str()),
            ("record_window", self.record_window.as_str()),
            ("stop_recording", self.stop_recording.as_str()),
        ];
        assert(entry_views(e@) =~= keybind_entries(*self));
        e
    }

    /// The bindings that cannot work, as messages for the user: a binding
    /// must be one character, since there is no table of key names, and a
    /// key bound twice only ever fires the first binding.
    pub fn problems(&self) -> (p: Vec<String>)
        ensures
            text_views(p@) == keybind_problems(keybind_entries(*self)),
    {
        let entries = self.entries();
        let ghost e = entry_views(entries@);
        let mut problems: Vec<String> = Vec::new();
        let mut i: usize = 0;
        while i < 8
            invariant
                i <= 8,
                e == entry_views(entries@),
                e.len() == 8,
                text_views(problems@) == single_key_problems(e, i as nat),
            decreases 8 - i,
        {
            let (name, key) = entries[i];
            let count = crate::text::chars_of(key).len();
            if count != 1 {
                let mut m = String::new();
                push_str(&mut m, "keybind ");
                push_str(&mut m, name);
                push_str(&mut m, " is ");
                let q = quoted(key);
                push_str(&mut m, q.as_str());
                push_str(&mut m, ", which is not a single key, so it will never fire");
                problems.push(m);
            }
            i = i + 1;
            assert(text_views(problems@) =~= single_key_problems(e, i as nat));
        }
        let ghost singles = problems@;
        let mut i: usize = 0;
        while i < 8
            invariant
                i <= 8,
                e == entry_views(entries@),
                e.len() == 8,
                singles.len() <= problems@.len(),
                problems@.subrange(0, singles.len() as int) == singles,
                text_views(singles) == single_key_problems(e, 8),
                text_views(problems@.skip(singles.len() as int)) == shared_key_problems(
                    e,
                    i as nat,
                ),
            decreases 8 - i,
        {
            let (name, key) = entries[i];
            let mut j: usize = 0;
            let mut found = false;
            while j < i && !found
                invariant
                    j <= i < 8,
                    e == entry_views(entries@),
                    e.len() == 8,
                    key@ == e[i as int].1,
                    found ==> j >= 1 && first_same_key(e, i as int, 0) == Some((j - 1) as int),
                    !found ==> first_same_key(e, i as int, 0) == first_same_key(
                        e,
                        i as int,
                        j as int,
                    ),
                decreases i - j + (if found { 0int } else { 1int }),
            {
                let (_, other) = entries[j];
                if crate::text::str_eq(other, key) {
                    found = true;
                }
                j = j + 1;
            }
            let ghost before = problems@;
            if found {
                let (earlier, _) = entries[j - 1];
                let mut m = String::new();
                push_str(&mut m, "keybinds ");
                push_str(&mut m, earlier);
                push_str(&mut m, " and ");
                push_str(&mut m, name);
                push_str(&mut m, " are both ");
                let q = quoted(key);
                push_str(&mut m, q.as_str());
                push_str(&mut m, "; only ");
                push_str(&mut m, earlier);
                push_str(&mut m, " will fire");
                problems.push(m);
            }
            proof {
                assert(problems@.subrange(0, singles.len() as int) =~= singles);
                if found {
                    assert(problems@.skip(singles.len() as int) =~= before.skip(
                        singles.len() as int,
                    ).push(problems@.last()));
                } else {
                    assert(problems@.skip(singles.len() as int) =~= before.skip(
                        singles.len() as int,
                    ));
                }
            }
            i = i + 1;
            assert(text_views(problems@.skip(singles.len() as int)) =~= shared_key_problems(
                e,
                i as nat,
            ));
        }
        proof {
            assert(problems@ =~= singles + problems@.skip(singles.len() as int));
            assert(text_views(problems@) =~= text_views(singles) + text_views(
                problems@.skip(singles.len() as int),
            ));
        }
        problems
    }
}

/// The overlay's text.
#[derive(Debug, Clone)]
pub struct FontConfig {
    /// Font family.
    pub family: String,
    /// Font size.
    pub size: u32,
    /// Font weight.
    pub weight: FontWeight,
}

impl Default for FontConfig {
    fn default() -> (c: Self)
        ensures
            c.family@ == "Inter"@,
            c.size == 16,
            c.weight == FontWeight::Bold,
    {
        FontConfig { family: "Inter".to_owned(), size: 16, weight: FontWeight::Bold }
    }
}

/// The selection's border.
#[derive(Debug, Clone)]
pub struct BorderConfig {
    /// Border colour, as hex.
    pub color: String,
    /// Border thickness in pixels.
    pub thickness: u32,
    /// Border rounding in pixels.
    pub rounding: u32,
}

impl Default for BorderConfig {
    fn default() -> (c: Self)
        ensures
            c.color@ == "#FFFFFF"@,
            c.thickness == 2,
            c.rounding == 0,
    {
        BorderConfig { color: "#FFFFFF".to_owned(), thickness: 2, rounding: 0 }
    }
}

/// Where captures are uploaded.
#[derive(Debug, Clone)]
pub struct UploadConfig {
    /// The Zipline server.
    pub zipline: ZiplineConfig,
}

impl Default for UploadConfig {
    fn default() -> (c: Self)
        ensures
            c.zipline.url@.len() == 0,
            c.zipline.token@.len() == 0,
            !c.zipline.use_original_name,
    {
        UploadConfig { zipline: ZiplineConfig::default() }
    }
}

/// A Zipline server; captures are uploaded when both its address and its
/// token are set.
#[derive(Debug, Clone)]
pub struct ZiplineConfig {
    /// The server's address.
    pub url: String,
    /// The path of the file that holds the token.
    pub token: String,
    /// Whether uploads keep their file name.
    pub use_original_name: bool,
}

impl Default for ZiplineConfig {
    fn default() -> (c: Self)
        ensures
            c.url@.len() == 0,
            c.token@.len() == 0,
            !c.use_original_name,
    {
        ZiplineConfig { url: String::new(), token: String::new(), use_original_name: false }
    }
}

/// Where and when captures are taken.
#[derive(Debug, Clone)]
pub struct CaptureConfig {
    /// Where captures are saved.
    pub save_path: String,
    /// A delay before capturing, in milliseconds.
    pub delay: Option<u64>,
    /// Recording settings.
    pub video: VideoConfig,
}

impl Default for CaptureConfig {
    fn default() -> (c: Self)
        ensures
            c.save_path@ == "/tmp"@,
            c.delay is None,
            c.video.max_fps == 60,
            c.video.encode_resolution@.len() == 0,
            c.video.bitrate@.len() == 0,
            c.video.codec@ == "auto"@,
    {
        CaptureConfig { save_path: "/tmp".to_owned(), delay: None, video: VideoConfig::default() }
    }
}

/// Recording settings.
#[derive(Debug, Clone)]
pub struct VideoConfig {
    /// The highest frame rate recorded.
    pub max_fps: u32,
    /// The encoder's resolution, such as `1920x1080`; empty for the native size.
    pub encode_resolution: String,
    /// The encoder's bitrate in the recorder's units, such as `10 MB`; empty
    /// to derive one from the recorded area and frame rate.
    pub bitrate: String,
    /// The codec: `auto`, `avc`, `hevc`, `vp8`, `vp9` or `av1`.
    pub codec: String,
}

impl Default for VideoConfig {
    fn default() -> (c: Self)
        ensures
            c.max_fps == 60,
            c.encode_resolution@.len() == 0,
            c.bitrate@.len() == 0,
            c.codec@ == "auto"@,
    {
        VideoConfig {
            max_fps: 60,
            encode_resolution: String::new(),
            bitrate: String::new(),
            codec: "auto".to_owned(),
        }
    }
}

/// Text recognition settings.
#[derive(Debug, Clone)]
pub struct OcrConfig {
    /// The recognition language, which must be installed.
    pub language: String,
}

impl Default for OcrConfig {
    fn default() -> (c: Self)
        ensures
            c.language@ == "eng"@,
    {
        OcrConfig { language: "eng".to_owned() }
    }
}

/// The external programs the tool runs, each looked up on `PATH` when given
/// as a bare name.
#[derive(Debug, Clone)]
pub struct ToolsConfig {
    /// The annotation editor.
    pub satty: String,
    /// The clipboard tool.
    pub wl_copy: String,
    /// The screen recorder.
    pub wl_screenrec: String,
}

impl Default for ToolsConfig {
    fn default() -> (c: Self)
        ensures
            c.satty@ == "satty"@,
            c.wl_copy@ == "wl-copy"@,
            c.wl_screenrec@ == "wl-screenrec"@,
    {
        ToolsConfig {
            satty: "satty".to_owned(),
            wl_copy: "wl-copy".to_owned(),
            wl_screenrec: "wl-screenrec".to_owned(),
        }
    }
}

/// The value of a hexadecimal digit, either case, if `c` is one.
pub open spec fn hex_digit_value(c: char) -> Option<nat> {
    if '0' <= c && c <= '9' {
        Some((c as nat - '0' as nat) as nat)
    } else if 'a' <= c && c <= 'f' {
        Some((c as nat - 'a' as nat + 10) as nat)
    } else if 'A' <= c && c <= 'F' {
        Some((c as nat - 'A' as nat + 10) as nat)
    } else {
        None
    }
}

/// One or two characters read as `u8::from_str_radix` reads them in base
/// 16: hexadecimal digits, optionally after a `+`.
pub open spec fn hex_byte(s: Seq<char>) -> Option<nat> {
    let digits = if s.len() > 1 && s[0] == '+' {
        s.drop_first()
    } else {
        s
    };
    if digits.len() == 1 {
        hex_digit_value(digits[0])
    } else if digits.len() == 2 {
        match (hex_digit_value(digits[0]), hex_digit_value(digits[1])) {
            (Some(a), Some(b)) => Some(16 * a + b),
            _ => None,
        }
    } else {
        None
    }
}

/// How many `#` the text starts with.
pub open spec fn leading_hashes(s: Seq<char>) -> nat
    decreases s.len(),
{
    if s.len() > 0 && s[0] == '#' {
        1 + leading_hashes(s.drop_first())
    } else {
        0
    }
}

/// A colour written in hexadecimal after any number of `#`: six digits, two
/// to a channel, or three, one to a channel and each repeated.
pub open spec fn parsed_hex_color(s: Seq<char>) -> Option<(nat, nat, nat)> {
    let hex = s.skip(leading_hashes(s) as int);
    if hex.len() == 6 {
        match (hex_byte(hex.subrange(0, 2)), hex_byte(hex.subrange(2, 4)), hex_byte(hex.subrange(4, 6))) {
            (Some(r), Some(g), Some(b)) => Some((r, g, b)),
            _ => None,
        }
    } else if hex.len() == 3 {
        match (hex_byte(hex.subrange(0, 1)), hex_byte(hex.subrange(1, 2)), hex_byte(hex.subrange(2, 3))) {
            (Some(r), Some(g), Some(b)) => Some((17 * r, 17 * g, 17 * b)),
            _ => None,
        }
    } else {
        None
    }
}

fn hex_digit(c: char) -> (r: Option<u8>)
    ensures
        r matches Some(v) ==> hex_digit_value(c) == Some(v as nat),
        r is None ==> hex_digit_value(c) is None,
{
    if '0' <= c && c <= '9' {
        Some(((c as u32) - 48) as u8)
    } else if 'a' <= c && c <= 'f' {
        Some(((c as u32) - 87) as u8)
    } else if 'A' <= c && c <= 'F' {
        Some(((c as u32) - 55) as u8)
    } else {
        None
    }
}

/// Two characters read as one channel.
fn hex_pair(a: char, b: char) -> (r: Option<u8>)
    ensures
        r matches Some(v) ==> hex_byte(seq![a, b]) == Some(v as nat),
        r is None ==> hex_byte(seq![a, b]) is None,
{
    assert(seq![a, b].drop_first() =~= seq![b]);
    if a == '+' {
        hex_digit(b)
    } else {
        match (hex_digit(a), hex_digit(b)) {
            (Some(x), Some(y)) => Some(16 * x + y),
            _ => None,
        }
    }
}

/// One character read as one channel, repeated.
fn hex_single(a: char) -> (r: Option<u8>)
    ensures
        r matches Some(v) ==> hex_byte(seq![a]) matches Some(d) && v == 17 * d,
        r is None ==> hex_byte(seq![a]) is None,
{
    match hex_digit(a) {
        Some(x) => Some(17 * x),
        None => None,
    }
}

/// Reads a colour such as `#FF8800` or `#FFF` into its red, green and blue.
pub fn parse_hex_color(hex: &str) -> (r: Option<(u8, u8, u8)>)
    ensures
        r matches Some((red, green, blue)) ==> parsed_hex_color(hex@) == Some(
            (red as nat, green as nat, blue as nat),
        ),
        r is None ==> parsed_hex_color(hex@) is None,
{
    let cs = crate::text::chars_of(hex);
    let n = cs.len();
    let mut start: usize = 0;
    assert(hex@.skip(0) =~= hex@);
    while start < n && cs[start] == '#'
        invariant
            start <= n,
            n == cs@.len(),
            cs@ == hex@,
            leading_hashes(hex@) == start + leading_hashes(hex@.skip(start as int)),
        decreases n - start,
    {
        assert(hex@.skip(start as int).drop_first() =~= hex@.skip(start + 1));
        start = start + 1;
    }
    assert(leading_hashes(hex@.skip(start as int)) == 0);
    let ghost rest = hex@.skip(start as int);
    let len = n - start;
    if len == 6 {
        assert(rest.subrange(0, 2) =~= seq![cs@[start as int], cs@[start + 1]]);
        assert(rest.subrange(2, 4) =~= seq![cs@[start + 2], cs@[start + 3]]);
        assert(rest.subrange(4, 6) =~= seq![cs@[start + 4], cs@[start + 5]]);
        match (
            hex_pair(cs[start], cs[start + 1]),
            hex_pair(cs[start + 2], cs[start + 3]),
            hex_pair(cs[start + 4], cs[start + 5]),
        ) {
            (Some(red), Some(green), Some(blue)) => Some((red, green, blue)),
            _ => None,
        }
    } else if len == 3 {
        assert(rest.subrange(0, 1) =~= seq![cs@[start as int]]);
        assert(rest.subrange(1, 2) =~= seq![cs@[start + 1]]);
        assert(rest.subrange(2, 3) =~= seq![cs@[start + 2]]);
        match (hex_single(cs[start]), hex_single(cs[start + 1]), hex_single(cs[start + 2])) {
            (Some(red), Some(green), Some(blue)) => Some((red, green, blue)),
            _ => None,
        }
    } else {
        None
    }
}

} // verus!
