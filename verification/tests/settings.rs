use remote_window::config::{
    bind_addr, capture_backend, compression, fps_cap, frame_interval_ms, print_config_to_cursor,
    server_addr, transport, Settings, DEFAULT_ADDR, DEFAULT_FPS_CAP,
};
use remote_window::text::{chars_of, parse_u32_in, push_decimal, trim_bounds};

fn parse(s: &str) -> Option<u32> {
    let c = chars_of(s);
    parse_u32_in(&c, 0, c.len())
}

#[test]
fn text_settings_default() {
    assert_eq!(bind_addr(None), DEFAULT_ADDR);
    assert_eq!(server_addr(Some("10.1.1.1:1")), "10.1.1.1:1");
    assert_eq!(transport(None), "udp");
    assert_eq!(compression(None), "lz4");
    assert_eq!(capture_backend(None), "auto");
    assert_eq!(capture_backend(Some("swift")), "swift");
}

#[test]
fn fps_cap_parsing() {
    assert_eq!(fps_cap(None), DEFAULT_FPS_CAP);
    assert_eq!(fps_cap(None), 30);
    assert_eq!(fps_cap(Some("45")), 45);
    assert_eq!(fps_cap(Some("  144\n")), 144);
    assert_eq!(fps_cap(Some("+25")), 25);
    assert_eq!(fps_cap(Some("0")), 30);
    assert_eq!(fps_cap(Some("-5")), 30);
    assert_eq!(fps_cap(Some("fast")), 30);
    assert_eq!(fps_cap(Some("4294967296")), 30);
    assert_eq!(fps_cap(Some("4294967295")), 4294967295);
}

#[test]
fn frame_interval() {
    assert_eq!(frame_interval_ms(None), 33);
    assert_eq!(frame_interval_ms(Some("30")), 33);
    assert_eq!(frame_interval_ms(Some("1")), 1000);
    assert_eq!(frame_interval_ms(Some("5000")), 0);
}

#[test]
fn u32_parser_matches_std() {
    for s in ["0", "007", "+", "+0", "-0", "", "12a", "4294967295", "4294967296", "99999999999", "+12", "１２"] {
        assert_eq!(parse(s), s.parse::<u32>().ok(), "{:?}", s);
    }
}

#[test]
fn trimming_matches_std() {
    for s in ["  a b  ", "\u{3000}x\u{2028}", "", "   ", "\tz\n", "\u{85}y\u{a0}"] {
        let c = chars_of(s);
        let (a, b) = trim_bounds(&c);
        let got: String = c[a..b].iter().collect();
        assert_eq!(got, s.trim());
    }
}

#[test]
fn decimal_numerals() {
    for n in [0u64, 7, 10, 99, 1000, 4294967295, u64::MAX] {
        let mut s = String::from("n=");
        push_decimal(&mut s, n);
        assert_eq!(s, format!("n={}", n));
        if n <= u32::MAX as u64 {
            assert_eq!(parse(&s[2..]), Some(n as u32));
        }
    }
}

#[test]
fn config_report() {
    let settings = Settings {
        bind_addr: None,
        server_addr: Some("1.2.3.4:5".to_string()),
        transport: None,
        compression: Some("zstd".to_string()),
        capture_backend: None,
        fps_cap: Some("30".to_string()),
    };
    let mut lines = vec!["header".to_string()];
    print_config_to_cursor(&mut lines, &settings);
    assert_eq!(
        lines,
        vec![
            "header".to_string(),
            "RW_BIND_ADDR       = 127.0.0.1:8082".to_string(),
            "RW_SERVER_ADDR     = 1.2.3.4:5".to_string(),
            "RW_TRANSPORT       = udp".to_string(),
            "RW_COMPRESSION     = zstd".to_string(),
            "RW_CAPTURE_BACKEND = auto".to_string(),
            "RW_FPS_CAP         = 30 fps (33 ms/frame)".to_string(),
        ]
    );
}
