use hls_engine::cache::CacheIndex;
use hls_engine::orchestrator::{
    complete_request, is_playlist_open_line, parse_duration_line, plan_request, scan_lines,
    DiagnosticScan, FFmpegCommand, RequestPlan,
};
use hls_engine::keycodec::generate_dir_name;

#[test]
fn duration_line_parses() {
    assert_eq!(parse_duration_line("  Duration: 00:01:05.20, start: 0.0"), Some(65200));
    assert_eq!(parse_duration_line("Duration: 01:00:00.00"), Some(3_600_000));
    assert_eq!(parse_duration_line("frame= 100 fps=25"), None);
    assert_eq!(parse_duration_line("Duration: N/A"), None);
}

#[test]
fn playlist_marker_matches() {
    assert!(is_playlist_open_line("[hls @ 0x1] Opening 'x/playlist.m3u8.tmp' for writing"));
    assert!(!is_playlist_open_line("Opening 'x/000.ts' for writing"));
    assert!(!is_playlist_open_line("nothing to see"));
}

#[test]
fn diagnostic_scenario() {
    // the announced duration then the playlist marker: success without
    // waiting for process exit
    let lines = vec![
        String::from("Duration: 00:01:05.20"),
        String::from("Opening 'x/playlist.m3u8.tmp' for writing"),
        String::from("Duration: 99:00:00.00"),
    ];
    let (duration_ms, opened) = scan_lines(&lines);
    assert!(opened);
    assert_eq!(duration_ms, 65200);
    assert!((duration_ms as f64 / 1000.0 - 65.20).abs() < 1e-9);
}

#[test]
fn scan_without_marker_keeps_last_duration() {
    let lines = vec![
        String::from("Duration: 00:00:10.00"),
        String::from("Duration: 00:00:30.00"),
    ];
    let (duration_ms, opened) = scan_lines(&lines);
    assert!(!opened);
    assert_eq!(duration_ms, 30000);
}

#[test]
fn step_stops_at_marker() {
    let mut scan = DiagnosticScan::new();
    assert!(!scan.step("Duration: 00:00:30.00"));
    assert_eq!(scan.duration_ms, 30000);
    assert!(scan.step("Opening 'a/playlist.m3u8.tmp' for writing"));
    assert!(scan.playlist_opened);
}

#[test]
fn transcode_args_shape() {
    let cmd = FFmpegCommand::new(String::from("/in.mp4"), String::from("DIR")).unwrap();
    let args = cmd.transcode_args();
    assert_eq!(args.len(), 17);
    assert_eq!(args[4], "-i");
    assert_eq!(args[5], "/in.mp4");
    assert_eq!(args[15], "hls/DIR/%03d.ts");
    assert_eq!(args[16], "hls/DIR/playlist.m3u8");
    let audio = cmd.audio_extract_args();
    assert_eq!(audio.len(), 11);
    assert_eq!(audio[1], "/in.mp4");
    assert_eq!(audio[10], "hls/DIR/audio.aac");
}

#[test]
fn request_transcodes_at_most_once() {
    let mut index = CacheIndex::new();
    let first = plan_request(&index, "/film.mp4");
    let dir = match first {
        RequestPlan::Miss { output_dir_name, artifact_dir_path } => {
            assert_eq!(output_dir_name, generate_dir_name("/film.mp4"));
            assert_eq!(artifact_dir_path, format!("hls/{}", output_dir_name));
            output_dir_name
        },
        RequestPlan::Hit { .. } => panic!("empty cache must miss"),
    };
    let response = complete_request(&mut index, String::from("/film.mp4"), 30000);
    assert!(response.success);
    assert_eq!(response.duration_ms, 30000);
    // the second request hits: same artifact, same duration, no transcode
    match plan_request(&index, "/film.mp4") {
        RequestPlan::Hit { response } => {
            assert_eq!(response.duration_ms, 30000);
            assert!((response.duration_ms as f64 / 1000.0 - 30.0).abs() < 1e-9);
            assert_eq!(
                response.playlist_url,
                format!("http://localhost:3117/hls/{}/playlist.m3u8", dir)
            );
        },
        RequestPlan::Miss { .. } => panic!("cached source must hit"),
    }
}
