use vstd::prelude::*;
use vstd::string::StringExecFns;

use crate::text::{chars_of, decimal, matches_ignoring_case, push_decimal, same_ignoring_case};

verus! {

/// A source of frames: a screen of a fixed geometry that gives frames of
/// `0x00RRGGBB` pixels.
pub trait ScreenCapturer {
    fn geometry(&self) -> (u32, u32);

    fn capture_frame(&mut self) -> Result<Vec<u32>, std::io::Error>;
}

/// A display as the platform lists it.
#[derive(Debug, Clone, PartialEq, Eq, Hash)]
pub struct MonitorData {
    pub name: String,
    pub width: i32,
    pub height: i32,
    pub is_primary: bool,
    pub x: i32,
    pub y: i32,
}

/// What the display list hands on of a display: width and height (as
/// unsigned, reinterpreting the bits), and position.
pub open spec fn monitor_summary(m: MonitorData) -> (u32, u32, i32, i32) {
    (m.width as u32, m.height as u32, m.x, m.y)
}

/// Geometry and position of each display, in order.
#[allow(non_snake_case)]
pub fn getSystemMonitors(monitors: Vec<MonitorData>) -> (r: Vec<(u32, u32, i32, i32)>)
    ensures
        r@ == monitors@.map_values(|m: MonitorData| monitor_summary(m)),
{
    let mut r: Vec<(u32, u32, i32, i32)> = Vec::new();
    let mut i: usize = 0;
    while i < monitors.len()
        invariant
            i <= monitors@.len(),
            r@ == monitors@.take(i as int).map_values(|m: MonitorData| monitor_summary(m)),
        decreases monitors@.len() - i,
    {
        let m = &monitors[i];
        r.push((#[verifier::truncate] (m.width as u32), #[verifier::truncate] (m.height as u32), m.x, m.y));
        i = i + 1;
        assert(r@ =~= monitors@.take(i as int).map_values(|m: MonitorData| monitor_summary(m)));
    }
    assert(monitors@.take(monitors@.len() as int) =~= monitors@);
    r
}

/// The `0x00RRGGBB` word of a pixel.
pub open spec fn rgb_word(r: u8, g: u8, b: u8) -> u32 {
    ((r as u32) << 16u32) | ((g as u32) << 8u32) | (b as u32)
}

/// The pixel of a captured red, green and blue value.
pub fn pack_rgb(r: u8, g: u8, b: u8) -> (p: u32)
    ensures
        p == rgb_word(r, g, b),
{
    ((r as u32) << 16) | ((g as u32) << 8) | (b as u32)
}

/// The pixels of a frame captured as blue, green, red, padding bytes: each
/// whole group of four bytes gives one pixel; bytes past the last whole group
/// are dropped.
pub open spec fn bgra_pixels(bytes: Seq<u8>) -> Seq<u32> {
    Seq::new(bytes.len() / 4, |k: int| rgb_word(bytes[4 * k + 2], bytes[4 * k + 1], bytes[4 * k]))
}

/// Turns a captured blue-green-red-padding frame into pixels.
pub fn bgra_to_pixels(bytes: &[u8]) -> (pixels: Vec<u32>)
    ensures
        pixels@ == bgra_pixels(bytes@),
{
    let len = bytes.len();
    let n = len / 4;
    let mut pixels: Vec<u32> = Vec::with_capacity(n);
    let mut k: usize = 0;
    while k < n
        invariant
            len == bytes@.len(),
            n == len / 4,
            k <= n,
            pixels@ == bgra_pixels(bytes@).take(k as int),
        decreases n - k,
    {
        let b = bytes[4 * k];
        let g = bytes[4 * k + 1];
        let r = bytes[4 * k + 2];
        pixels.push(pack_rgb(r, g, b));
        k = k + 1;
        assert(pixels@ =~= bgra_pixels(bytes@).take(k as int));
    }
    assert(bgra_pixels(bytes@).take(n as int) =~= bgra_pixels(bytes@));
    pixels
}

/// A captured frame whose length is not four bytes per pixel of the display.
#[derive(Clone, Copy, Debug, PartialEq, Eq, Structural)]
pub enum FrameSizeError {
    Mismatch { got: usize, expected: usize },
}

/// Checks a captured frame against the display's geometry and turns it into pixels.
pub fn convert_captured_frame(bytes: &[u8], width: u32, height: u32) -> (r: Result<Vec<u32>, FrameSizeError>)
    requires
        width * height * 4 <= usize::MAX,
    ensures
        bytes@.len() != width * height * 4 ==> r == Err::<Vec<u32>, FrameSizeError>(
            FrameSizeError::Mismatch { got: bytes@.len() as usize, expected: (width * height * 4) as usize },
        ),
        bytes@.len() == width * height * 4 ==> (r matches Ok(p) && p@ == bgra_pixels(bytes@)),
{
    let expected_length = (width as usize) * (height as usize) * 4;
    if bytes.len() != expected_length {
        return Err(FrameSizeError::Mismatch { got: bytes.len(), expected: expected_length });
    }
    Ok(bgra_to_pixels(bytes))
}

/// `s` holds `pat` somewhere.
pub open spec fn has_infix(s: Seq<char>, pat: Seq<char>) -> bool {
    exists|i: int| 0 <= i && i + pat.len() <= s.len() && #[trigger] s.subrange(i, i + pat.len()) == pat
}

/// A pattern occurs in any text that holds it, wherever it stands: at the
/// very start, at the very end, or in between.
pub proof fn law_infix_anywhere(before: Seq<char>, pat: Seq<char>, after: Seq<char>)
    ensures
        has_infix(before + pat + after, pat),
{
    let s = before + pat + after;
    let i = before.len() as int;
    assert(s.subrange(i, i + pat.len()) =~= pat);
}

/// Whether `pat` occurs in `s`.
pub fn contains_chars(s: &[char], pat: &[char]) -> (b: bool)
    ensures
        b == has_infix(s@, pat@),
{
    if pat.len() > s.len() {
        return false;
    }
    let slen = s.len();
    let last = slen - pat.len();
    let mut i: usize = 0;
    while i <= last
        invariant
            slen == s@.len(),
            last == s@.len() - pat@.len(),
            pat@.len() <= s@.len(),
            forall|k: int| 0 <= k < i ==> #[trigger] s@.subrange(k, k + pat@.len()) != pat@,
        decreases last + 1 - i,
    {
        let mut j: usize = 0;
        let mut same = true;
        while j < pat.len()
            invariant
                i <= last,
                slen == s@.len(),
                last == s@.len() - pat@.len(),
                j <= pat@.len(),
                same == (forall|m: int| 0 <= m < j ==> s@[i + m] == pat@[m]),
            decreases pat@.len() - j,
        {
            if s[i + j] != pat[j] {
                same = false;
            }
            j = j + 1;
        }
        if same {
            assert(s@.subrange(i as int, i + pat@.len()) =~= pat@);
            return true;
        }
        proof {
            let m = choose|m: int| 0 <= m < pat@.len() && s@[i + m] != pat@[m];
            assert(s@.subrange(i as int, i + pat@.len())[m] != pat@[m]);
        }
        i = i + 1;
    }
    false
}

/// What kind of failure a capture bridge's message reports.
#[derive(Clone, Copy, Debug, PartialEq, Eq, Structural)]
pub enum CaptureErrorKind {
    TimedOut,
    PermissionDenied,
    Other,
}

/// A message that mentions `timed out` is a time-out; else one that mentions
/// `permission` is a refusal; anything else is some other failure.
pub open spec fn error_kind_of(message: Seq<char>) -> CaptureErrorKind {
    if has_infix(message, "timed out"@) {
        CaptureErrorKind::TimedOut
    } else if has_infix(message, "permission"@) {
        CaptureErrorKind::PermissionDenied
    } else {
        CaptureErrorKind::Other
    }
}

/// A message that holds `timed out` anywhere is a time-out; one that holds
/// `permission` anywhere, and no `timed out`, is a refusal.
pub proof fn law_error_keywords(before: Seq<char>, after: Seq<char>)
    ensures
        error_kind_of(before + "timed out"@ + after) == CaptureErrorKind::TimedOut,
        !has_infix(before + "permission"@ + after, "timed out"@) ==> error_kind_of(
            before + "permission"@ + after,
        ) == CaptureErrorKind::PermissionDenied,
{
    law_infix_anywhere(before, "timed out"@, after);
    law_infix_anywhere(before, "permission"@, after);
}

/// Classifies a capture bridge's error message (see `error_kind_of`).
pub fn classify_capture_error(message: &str) -> (k: CaptureErrorKind)
    ensures
        k == error_kind_of(message@),
{
    let chars = chars_of(message);
    let timed_out = chars_of("timed out");
    let permission = chars_of("permission");
    if contains_chars(chars.as_slice(), timed_out.as_slice()) {
        CaptureErrorKind::TimedOut
    } else if contains_chars(chars.as_slice(), permission.as_slice()) {
        CaptureErrorKind::PermissionDenied
    } else {
        CaptureErrorKind::Other
    }
}

/// What the server does after a capturer could not be created.
#[derive(Clone, Copy, Debug, PartialEq, Eq, Structural)]
pub enum RetryAction {
    /// Stop, handing the error on.
    GiveUp,
    /// Try again after this many milliseconds.
    RetryAfterMs(u64),
}

/// The step of the server's capturer start-up loop after a failure of kind
/// `k`: a refused permission ends it, any other failure is retried after a
/// second.
pub fn after_capturer_error(k: CaptureErrorKind) -> (a: RetryAction)
    ensures
        a == (if k is PermissionDenied {
            RetryAction::GiveUp
        } else {
            RetryAction::RetryAfterMs(1000)
        }),
{
    match k {
        CaptureErrorKind::PermissionDenied => RetryAction::GiveUp,
        _ => RetryAction::RetryAfterMs(1000),
    }
}

/// Whether the display picker lets the server start: it is not running yet,
/// a display is selected, and there is a display at all.
pub fn can_start_server(started: bool, selected: Option<usize>, display_count: usize) -> (b: bool)
    ensures
        b == (!started && selected is Some && display_count > 0),
{
    !started && selected.is_some() && display_count > 0
}

/// The title of the display picker's card for the display at `index`:
/// `Display ` and its number, counting from 1.
pub fn display_title(index: usize) -> (s: String)
    requires
        index < usize::MAX,
    ensures
        s@ == "Display "@ + decimal((index + 1) as nat),
{
    let mut s = String::from_str("Display ");
    push_decimal(&mut s, (index + 1) as u64);
    s
}

/// The capture backends a macOS server can use.
#[derive(Clone, Copy, Debug, PartialEq, Eq, Structural)]
pub enum MacosCaptureBackend {
    Auto,
    Swift,
    Scrap,
}

/// The backend a setting names, if any: `auto`, `scrap` or `swift`, ignoring
/// the case of ASCII letters (white space is not trimmed).
pub open spec fn backend_named(s: Seq<char>) -> Option<MacosCaptureBackend> {
    if same_ignoring_case(s, seq!['a', 'u', 't', 'o']) {
        Some(MacosCaptureBackend::Auto)
    } else if same_ignoring_case(s, seq!['s', 'c', 'r', 'a', 'p']) {
        Some(MacosCaptureBackend::Scrap)
    } else if same_ignoring_case(s, seq!['s', 'w', 'i', 'f', 't']) {
        Some(MacosCaptureBackend::Swift)
    } else {
        None
    }
}

/// The backend that the capture backend setting names, if any (an unknown
/// name means `Auto`, with a warning, to the caller).
pub fn macos_capture_backend(raw: &str) -> (b: Option<MacosCaptureBackend>)
    ensures
        b == backend_named(raw@),
{
    let chars = chars_of(raw);
    let n = chars.len();
    let auto_word = ['a', 'u', 't', 'o'];
    let scrap_word = ['s', 'c', 'r', 'a', 'p'];
    let swift_word = ['s', 'w', 'i', 'f', 't'];
    proof {
        assert(auto_word@ =~= seq!['a', 'u', 't', 'o']);
        assert(scrap_word@ =~= seq!['s', 'c', 'r', 'a', 'p']);
        assert(swift_word@ =~= seq!['s', 'w', 'i', 'f', 't']);
        assert(chars@.subrange(0, n as int) =~= raw@);
    }
    if matches_ignoring_case(chars.as_slice(), 0, n, &auto_word) {
        Some(MacosCaptureBackend::Auto)
    } else if matches_ignoring_case(chars.as_slice(), 0, n, &scrap_word) {
        Some(MacosCaptureBackend::Scrap)
    } else if matches_ignoring_case(chars.as_slice(), 0, n, &swift_word) {
        Some(MacosCaptureBackend::Swift)
    } else {
        None
    }
}

proof fn lemma_row_index(row: int, wb: int, c: int, r2: int, c2: int)
    by (nonlinear_arith)
    requires
        0 <= c < wb,
        0 <= c2 < wb,
        0 <= r2 < row,
    ensures
        r2 * wb + c2 < row * wb + c,
        row * wb + c < (row + 1) * wb,
        (row + 1) * wb == row * wb + wb,
{
}

/// Copies `rows` rows of `width_bytes` bytes from a source laid out `pitch`
/// bytes per row into `target`, packed one after another.
pub fn copy_frame_rows(target: &mut [u8], src: &[u8], pitch: usize, width_bytes: usize, rows: usize)
    requires
        rows > 0 ==> (rows - 1) * pitch + width_bytes <= src@.len(),
        rows * width_bytes <= old(target)@.len(),
    ensures
        final(target)@.len() == old(target)@.len(),
        forall|r: int, c: int|
            0 <= r < rows && 0 <= c < width_bytes ==> #[trigger] final(target)@[r * width_bytes + c]
                == src@[r * pitch + c],
        forall|i: int| rows * width_bytes <= i < final(target)@.len() ==> #[trigger] final(target)@[i] == old(target)@[i],
{
    let slen = src.len();
    let tlen = target.len();
    let mut row: usize = 0;
    while row < rows
        invariant
            slen == src@.len(),
            tlen == target@.len(),
            row <= rows,
            rows > 0 ==> (rows - 1) * pitch + width_bytes <= src@.len(),
            rows * width_bytes <= old(target)@.len(),
            target@.len() == old(target)@.len(),
            forall|r: int, c: int|
                0 <= r < row && 0 <= c < width_bytes ==> #[trigger] target@[r * width_bytes + c]
                    == src@[r * pitch + c],
            forall|i: int| row * width_bytes <= i < target@.len() ==> #[trigger] target@[i] == old(target)@[i],
        decreases rows - row,
    {
        proof {
            assert(row * pitch + width_bytes <= src@.len()) by (nonlinear_arith)
                requires
                    row < rows,
                    (rows - 1) * pitch + width_bytes <= src@.len(),
                    pitch >= 0,
            ;
            assert((row + 1) * width_bytes <= rows * width_bytes) by (nonlinear_arith)
                requires
                    row < rows,
                    width_bytes >= 0,
            ;
            assert(row * width_bytes <= (row + 1) * width_bytes) by (nonlinear_arith)
                requires
                    width_bytes >= 0,
            ;
        }
        let src_start = row * pitch;
        let dst_start = row * width_bytes;
        let mut c: usize = 0;
        while c < width_bytes
            invariant
                slen == src@.len(),
                tlen == target@.len(),
                row < rows,
                c <= width_bytes,
                src_start == row * pitch,
                dst_start == row * width_bytes,
                src_start + width_bytes <= src@.len(),
                (row + 1) * width_bytes <= rows * width_bytes,
                rows * width_bytes <= old(target)@.len(),
                target@.len() == old(target)@.len(),
                forall|r: int, c2: int|
                    0 <= r < row && 0 <= c2 < width_bytes ==> #[trigger] target@[r * width_bytes + c2]
                        == src@[r * pitch + c2],
                forall|c2: int| 0 <= c2 < c ==> #[trigger] target@[dst_start + c2] == src@[src_start + c2],
                forall|i: int| dst_start + c <= i < target@.len() ==> #[trigger] target@[i] == old(target)@[i],
            decreases width_bytes - c,
        {
            proof {
                assert(dst_start + width_bytes == (row + 1) * width_bytes) by (nonlinear_arith)
                    requires
                        dst_start == row * width_bytes,
                ;
            }
            let ghost before = target@;
            target[dst_start + c] = src[src_start + c];
            proof {
                assert forall|r: int, c2: int|
                    0 <= r < row && 0 <= c2 < width_bytes implies #[trigger] target@[r * width_bytes
                    + c2] == src@[r * pitch + c2] by {
                    lemma_row_index(row as int, width_bytes as int, c as int, r, c2);
                    assert(before[r * width_bytes + c2] == src@[r * pitch + c2]);
                }
            }
            c = c + 1;
        }
        proof {
            assert(dst_start + width_bytes == (row + 1) * width_bytes) by (nonlinear_arith)
                requires
                    dst_start == row * width_bytes,
            ;
            assert forall|r: int, c2: int|
                0 <= r < row + 1 && 0 <= c2 < width_bytes implies #[trigger] target@[r * width_bytes + c2]
                    == src@[r * pitch + c2] by {
                if r == row {
                    assert(target@[dst_start + c2] == src@[src_start + c2]);
                }
            }
        }
        row = row + 1;
    }
}

} // verus!
