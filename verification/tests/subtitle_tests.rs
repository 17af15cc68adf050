use hls_engine::text::u64_to_string;
use hls_engine::subtitle::{
    convert_to_vtt, format_time, interpret_query_response, interpret_upload_response,
    subtitle_paths, SubtitleEntry,
};

#[test]
fn format_time_values() {
    assert_eq!(format_time(0), "00:00:00.000");
    assert_eq!(format_time(1500), "00:00:01.500");
    assert_eq!(format_time(65200), "00:01:05.200");
    assert_eq!(format_time(3_661_001), "01:01:01.001");
    assert_eq!(format_time(360_000_000), "100:00:00.000");
}

#[test]
fn vtt_two_utterances() {
    let entries = vec![
        SubtitleEntry { text: String::from("hi"), start_time: 0, end_time: 1500 },
        SubtitleEntry { text: String::from("there"), start_time: 1500, end_time: 3000 },
    ];
    let vtt = convert_to_vtt(&entries);
    assert_eq!(
        vtt,
        "WEBVTT\n\n00:00:00.000 --> 00:00:01.500\nhi\n\n00:00:01.500 --> 00:00:03.000\nthere\n\n"
    );
}

#[test]
fn vtt_empty_is_header_only() {
    assert_eq!(convert_to_vtt(&vec![]), "WEBVTT\n\n");
}

#[test]
fn provider_codes() {
    assert_eq!(
        interpret_upload_response(0, String::from("ok"), String::from("job1")),
        Ok(String::from("job1"))
    );
    assert_eq!(
        interpret_upload_response(7, String::from("quota exceeded"), String::from("job1")),
        Err(String::from("quota exceeded"))
    );
    let r = interpret_query_response(3, String::from("pending"), vec![]);
    match r {
        Ok(_) => panic!("non-zero code must fail"),
        Err(e) => assert_eq!(e, "pending"),
    }
}

#[test]
fn subtitle_paths_shape() {
    let (audio, vtt) = subtitle_paths("DIR");
    assert_eq!(audio, "hls/DIR/audio.aac");
    assert_eq!(vtt, "hls/DIR/subtitle.vtt");
}

#[test]
fn decimal_rendering() {
    assert_eq!(u64_to_string(0), "0");
    assert_eq!(u64_to_string(90210), "90210");
    assert_eq!(u64_to_string(u64::MAX), "18446744073709551615");
}
