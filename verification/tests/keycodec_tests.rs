use hls_engine::keycodec::{
    decode_dir_name, decode_marker_dir_name, duration_marker_string, encode_decode_round_trip,
    extract_duration, generate_dir_name, marker_dir_name, marker_round_trip,
};

#[test]
fn round_trip_plain_path() {
    let r = encode_decode_round_trip("/videos/movie.mp4");
    assert_eq!(r.unwrap(), "/videos/movie.mp4");
}

#[test]
fn round_trip_path_with_spaces() {
    let r = encode_decode_round_trip("C:\\Users\\someone\\My Movie (final).mp4");
    assert_eq!(r.unwrap(), "C:\\Users\\someone\\My Movie (final).mp4");
}

#[test]
fn round_trip_unicode_path() {
    let r = encode_decode_round_trip("/媒体/ビデオ/файл → ①.mkv");
    assert_eq!(r.unwrap(), "/媒体/ビデオ/файл → ①.mkv");
}

#[test]
fn encode_is_url_safe_base64() {
    // a wrapper handing its argument back unchanged would fail both checks
    assert_eq!(generate_dir_name("abc"), "YWJj");
    assert_eq!(decode_dir_name("YWJj").unwrap(), "abc");
}

#[test]
fn decode_rejects_malformed_name() {
    assert!(decode_dir_name("!!! not base64 !!!").is_none());
}

#[test]
fn marker_string_shape() {
    assert_eq!(duration_marker_string(65200), "[duration=65.200]");
    assert_eq!(duration_marker_string(0), "[duration=0.000]");
}

#[test]
fn marker_round_trips_exactly() {
    assert_eq!(marker_round_trip(0), Some(0));
    assert_eq!(marker_round_trip(65200), Some(65200));
    assert_eq!(marker_round_trip(359_999_990), Some(359_999_990));
}

#[test]
fn marker_round_trip_float_tolerance() {
    // durations as seconds survive within representation tolerance
    let d: f64 = 65.2;
    let ms = (d * 1000.0).round() as u64;
    let back = marker_round_trip(ms).unwrap();
    assert!((back as f64 / 1000.0 - d).abs() < 0.0005);
}

#[test]
fn marker_dir_name_is_encoded_marker() {
    let name = marker_dir_name(65200);
    assert_eq!(decode_dir_name(&name).unwrap(), "[duration=65.200]");
    assert_eq!(decode_marker_dir_name(&name), Some(65200));
}

#[test]
fn extract_tolerates_surrounding_text() {
    assert_eq!(extract_duration("[duration=65.200]"), Some(65200));
    assert_eq!(extract_duration("xx[duration=1.5]yy"), Some(1500));
    assert_eq!(extract_duration("[duration=1.5678]"), Some(1567));
    assert_eq!(extract_duration("no marker here"), None);
    assert_eq!(extract_duration("[duration=]"), None);
    assert_eq!(extract_duration("[duration=5]"), None);
}
