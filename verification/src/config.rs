use vstd::prelude::*;
use vstd::string::StringExecFns;

use crate::text::{chars_of, decimal, parse_u32, push_decimal, setting_view, trim, trim_bounds, parse_u32_in};

verus! {

/// The address the server binds to and the viewer connects to by default.
pub const DEFAULT_ADDR: &'static str = "127.0.0.1:8082";

/// The frame rate the server is capped at by default.
pub const DEFAULT_FPS_CAP: u32 = 30;

pub const DEFAULT_TRANSPORT: &'static str = "udp";

pub const DEFAULT_COMPRESSION: &'static str = "lz4";

pub const DEFAULT_CAPTURE_BACKEND: &'static str = "auto";

/// The value of a text setting: what the environment sets, else `default`.
pub open spec fn text_setting(raw: Option<Seq<char>>, default: Seq<char>) -> Seq<char> {
    match raw {
        Some(s) => s,
        None => default,
    }
}

fn text_or(raw: Option<&str>, default: &str) -> (s: String)
    ensures
        s@ == text_setting(setting_view(raw), default@),
{
    match raw {
        Some(v) => String::from_str(v),
        None => String::from_str(default),
    }
}

/// The address the server binds to; `raw` is `RW_BIND_ADDR` where it is set.
pub fn bind_addr(raw: Option<&str>) -> (s: String)
    ensures
        s@ == text_setting(setting_view(raw), DEFAULT_ADDR@),
{
    text_or(raw, DEFAULT_ADDR)
}

/// The address the viewer connects to; `raw` is `RW_SERVER_ADDR` where it is set.
pub fn server_addr(raw: Option<&str>) -> (s: String)
    ensures
        s@ == text_setting(setting_view(raw), DEFAULT_ADDR@),
{
    text_or(raw, DEFAULT_ADDR)
}

/// The transport setting; `raw` is `RW_TRANSPORT` where it is set.
pub fn transport(raw: Option<&str>) -> (s: String)
    ensures
        s@ == text_setting(setting_view(raw), DEFAULT_TRANSPORT@),
{
    text_or(raw, DEFAULT_TRANSPORT)
}

/// The compression setting; `raw` is `RW_COMPRESSION` where it is set.
pub fn compression(raw: Option<&str>) -> (s: String)
    ensures
        s@ == text_setting(setting_view(raw), DEFAULT_COMPRESSION@),
{
    text_or(raw, DEFAULT_COMPRESSION)
}

/// The capture backend setting; `raw` is `RW_CAPTURE_BACKEND` where it is set.
pub fn capture_backend(raw: Option<&str>) -> (s: String)
    ensures
        s@ == text_setting(setting_view(raw), DEFAULT_CAPTURE_BACKEND@),
{
    text_or(raw, DEFAULT_CAPTURE_BACKEND)
}

/// The frame-rate cap: `RW_FPS_CAP` (here `raw`) read as a positive `u32`
/// once trimmed, else `DEFAULT_FPS_CAP`.
pub open spec fn fps_cap_of(raw: Option<Seq<char>>) -> u32 {
    match raw {
        Some(s) => match parse_u32(trim(s)) {
            Some(n) => if n > 0 {
                n
            } else {
                DEFAULT_FPS_CAP
            },
            None => DEFAULT_FPS_CAP,
        },
        None => DEFAULT_FPS_CAP,
    }
}

/// The frame-rate cap (see `fps_cap_of`).
pub fn fps_cap(raw: Option<&str>) -> (n: u32)
    ensures
        n == fps_cap_of(setting_view(raw)),
        n > 0,
{
    match raw {
        Some(v) => {
            let chars = chars_of(v);
            let (start, end) = trim_bounds(chars.as_slice());
            match parse_u32_in(chars.as_slice(), start, end) {
                Some(n) => if n > 0 {
                    n
                } else {
                    DEFAULT_FPS_CAP
                },
                None => DEFAULT_FPS_CAP,
            }
        },
        None => DEFAULT_FPS_CAP,
    }
}

/// The time between frames at the capped rate, in whole milliseconds.
pub fn frame_interval_ms(raw: Option<&str>) -> (ms: u64)
    ensures
        ms == 1000int / (fps_cap_of(setting_view(raw)) as int),
{
    let fps = fps_cap(raw);
    (1000 / fps) as u64
}

/// The configuration settings as the environment sets them (`None` where unset).
#[derive(Clone, Debug)]
pub struct Settings {
    pub bind_addr: Option<String>,
    pub server_addr: Option<String>,
    pub transport: Option<String>,
    pub compression: Option<String>,
    pub capture_backend: Option<String>,
    pub fps_cap: Option<String>,
}

pub open spec fn string_setting(raw: Option<String>) -> Option<Seq<char>> {
    match raw {
        Some(s) => Some(s@),
        None => None,
    }
}

fn as_str_setting(raw: &Option<String>) -> (r: Option<&str>)
    ensures
        setting_view(r) == string_setting(*raw),
{
    match raw {
        Some(s) => Some(s.as_str()),
        None => None,
    }
}

/// The lines that report the active configuration.
pub open spec fn config_lines(s: Settings) -> Seq<Seq<char>> {
    let fps = fps_cap_of(string_setting(s.fps_cap));
    seq![
        "RW_BIND_ADDR       = "@ + text_setting(string_setting(s.bind_addr), DEFAULT_ADDR@),
        "RW_SERVER_ADDR     = "@ + text_setting(string_setting(s.server_addr), DEFAULT_ADDR@),
        "RW_TRANSPORT       = "@ + text_setting(string_setting(s.transport), DEFAULT_TRANSPORT@),
        "RW_COMPRESSION     = "@ + text_setting(string_setting(s.compression), DEFAULT_COMPRESSION@),
        "RW_CAPTURE_BACKEND = "@ + text_setting(string_setting(s.capture_backend), DEFAULT_CAPTURE_BACKEND@),
        "RW_FPS_CAP         = "@ + decimal(fps as nat) + " fps ("@ + decimal((1000u32 / fps) as nat) + " ms/frame)"@,
    ]
}

fn labelled(label: &str, value: String) -> (line: String)
    ensures
        line@ == label@ + value@,
{
    let mut line = String::from_str(label);
    line.append(value.as_str());
    line
}

/// Writes the report of the active configuration to `cursor`, one line each.
pub fn print_config_to_cursor(cursor: &mut Vec<String>, settings: &Settings)
    ensures
        final(cursor)@.len() == old(cursor)@.len() + 6,
        forall|i: int| 0 <= i < old(cursor)@.len() ==> #[trigger] final(cursor)@[i] == old(cursor)@[i],
        forall|i: int| 0 <= i < 6 ==> #[trigger] final(cursor)@[old(cursor)@.len() + i]@ == config_lines(*settings)[i],
{
    cursor.push(labelled("RW_BIND_ADDR       = ", bind_addr(as_str_setting(&settings.bind_addr))));
    cursor.push(labelled("RW_SERVER_ADDR     = ", server_addr(as_str_setting(&settings.server_addr))));
    cursor.push(labelled("RW_TRANSPORT       = ", transport(as_str_setting(&settings.transport))));
    cursor.push(labelled("RW_COMPRESSION     = ", compression(as_str_setting(&settings.compression))));
    cursor.push(labelled("RW_CAPTURE_BACKEND = ", capture_backend(as_str_setting(&settings.capture_backend))));
    let fps_raw = as_str_setting(&settings.fps_cap);
    let fps = fps_cap(fps_raw);
    let mut line = String::from_str("RW_FPS_CAP         = ");
    push_decimal(&mut line, fps as u64);
    line.append(" fps (");
    push_decimal(&mut line, frame_interval_ms(fps_raw));
    line.append(" ms/frame)");
    cursor.push(line);
}

} // verus!
