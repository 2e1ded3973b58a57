use remote_window::capture::{
    after_capturer_error, bgra_to_pixels, can_start_server, display_title, classify_capture_error, contains_chars, convert_captured_frame,
    copy_frame_rows, getSystemMonitors, macos_capture_backend, pack_rgb, CaptureErrorKind, RetryAction,
    FrameSizeError, MacosCaptureBackend, MonitorData,
};
use remote_window::compression::{compress_frames, compress_frames_with_chunk, FrameCompression, ZstdCompression};
use remote_window::connection_handler::pixels_as_le_bytes;
use remote_window::windows::get_system_monitors;

#[test]
fn packs_pixels() {
    assert_eq!(pack_rgb(0x12, 0x34, 0x56), 0x123456);
    assert_eq!(bgra_to_pixels(&[3, 2, 1, 0, 6, 5, 4, 255, 9]), vec![0x010203, 0x040506]);
}

#[test]
fn captured_frame_size_is_checked() {
    assert_eq!(
        convert_captured_frame(&[0; 7], 1, 2),
        Err(FrameSizeError::Mismatch { got: 7, expected: 8 })
    );
    assert_eq!(convert_captured_frame(&[3, 2, 1, 0, 0, 0, 9, 0], 2, 1), Ok(vec![0x010203, 0x090000]));
}

#[test]
fn error_messages() {
    assert_eq!(classify_capture_error("capture timed out after 250ms"), CaptureErrorKind::TimedOut);
    assert_eq!(classify_capture_error("no permission to record"), CaptureErrorKind::PermissionDenied);
    assert_eq!(classify_capture_error("permission check timed out"), CaptureErrorKind::TimedOut);
    assert_eq!(classify_capture_error("Timed Out"), CaptureErrorKind::Other);
    assert_eq!(classify_capture_error(""), CaptureErrorKind::Other);
    let s: Vec<char> = "abcabd".chars().collect();
    let p: Vec<char> = "abd".chars().collect();
    assert!(contains_chars(&s, &p));
    assert!(contains_chars(&s, &[]));
    assert!(!contains_chars(&p, &s));
}

#[test]
fn backend_names() {
    assert_eq!(macos_capture_backend("SWIFT"), Some(MacosCaptureBackend::Swift));
    assert_eq!(macos_capture_backend("scrap"), Some(MacosCaptureBackend::Scrap));
    assert_eq!(macos_capture_backend("Auto"), Some(MacosCaptureBackend::Auto));
    assert_eq!(macos_capture_backend(" auto"), None);
}

#[test]
fn monitor_list() {
    let m = vec![
        MonitorData { name: "\\\\.\\DISPLAY1".to_string(), width: 1920, height: 1080, is_primary: true, x: 0, y: 0 },
        MonitorData { name: "B".to_string(), width: -1, height: 720, is_primary: false, x: -1280, y: 10 },
    ];
    let expected = vec![(1920, 1080, 0, 0), (u32::MAX, 720, -1280, 10)];
    assert_eq!(getSystemMonitors(m.clone()), expected);
    assert_eq!(get_system_monitors(m), expected);
}

#[test]
fn pitched_rows_are_packed() {
    let src: Vec<u8> = (0..20).collect();
    let mut target = vec![0xAAu8; 10];
    copy_frame_rows(&mut target, &src, 8, 3, 3);
    assert_eq!(target, vec![0, 1, 2, 8, 9, 10, 16, 17, 18, 0xAA]);
}

#[test]
fn chunked_frame_compression() {
    let pixels: Vec<u32> = (0..1000).map(|i| i * 3).collect();
    let whole = compress_frames(&pixels).unwrap();
    let raw = pixels_as_le_bytes(&pixels);
    let codec = ZstdCompression::with_level(3);
    assert_eq!(codec.decompress(&whole, raw.len()).unwrap(), raw);
    let chunked = compress_frames_with_chunk(&pixels, 400).unwrap();
    let mut expected = Vec::new();
    for part in [&pixels[0..400], &pixels[400..800], &pixels[800..1000]] {
        expected.extend(codec.compress(&pixels_as_le_bytes(part)).unwrap());
    }
    assert_eq!(chunked, expected);
    assert!(compress_frames_with_chunk(&[], 4).unwrap().is_empty());
    assert!(compress_frames_with_chunk(&[], 0).unwrap().is_empty());
}

#[test]
fn capturer_start_up_retries_unless_refused() {
    assert_eq!(after_capturer_error(CaptureErrorKind::PermissionDenied), RetryAction::GiveUp);
    assert_eq!(after_capturer_error(CaptureErrorKind::TimedOut), RetryAction::RetryAfterMs(1000));
    assert_eq!(after_capturer_error(CaptureErrorKind::Other), RetryAction::RetryAfterMs(1000));
}

#[test]
fn display_picker_decisions() {
    assert!(can_start_server(false, Some(0), 2));
    assert!(!can_start_server(true, Some(0), 2));
    assert!(!can_start_server(false, None, 2));
    assert!(!can_start_server(false, Some(0), 0));
    assert_eq!(display_title(0), "Display 1");
    assert_eq!(display_title(11), "Display 12");
}
