use hls_engine::server::{content_type_for, get_file_url, SERVER_ADDRESS};

#[test]
fn file_url_shape() {
    assert_eq!(SERVER_ADDRESS, "localhost:3117");
    assert_eq!(
        get_file_url("hls/x/playlist.m3u8"),
        "http://localhost:3117/hls/x/playlist.m3u8"
    );
}

#[test]
fn content_types_by_extension() {
    assert_eq!(content_type_for("hls/x/playlist.m3u8"), "application/vnd.apple.mpegurl");
    assert_eq!(content_type_for("hls/x/007.ts"), "video/MP2T");
    assert_eq!(content_type_for("hls/x/audio.aac"), "application/octet-stream");
}
