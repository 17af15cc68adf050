use hls_engine::pipeline::{
    generate_hls, parse_opts, InputContext, MediaKind, MediaPacket, OutPacket, OutputContext,
    PipelineError, StreamConfig, Transcoder,
};
use hls_engine::timebase::{rescale_ts, TimeBase};

fn video_stream() -> StreamConfig {
    StreamConfig {
        kind: MediaKind::Video,
        time_base: TimeBase::new(1, 1000),
        frame_rate: TimeBase::new(25, 1),
        width: 1920,
        height: 1080,
        aspect_ratio_num: 16,
        aspect_ratio_den: 9,
        pixel_format: 23,
        codec_tag: 0x31637661,
    }
}

fn audio_stream() -> StreamConfig {
    StreamConfig {
        kind: MediaKind::Audio,
        time_base: TimeBase::new(1, 1000),
        frame_rate: TimeBase::new(1, 1),
        width: 0,
        height: 0,
        aspect_ratio_num: 0,
        aspect_ratio_den: 1,
        pixel_format: 0,
        codec_tag: 0x6134706d,
    }
}

fn pkt(stream_index: usize, pts: i64, data: &[u8]) -> MediaPacket {
    MediaPacket { stream_index, pts: Some(pts), data: data.to_vec() }
}

fn for_stream(written: &[OutPacket], ost: usize) -> Vec<&OutPacket> {
    written.iter().filter(|p| p.ost_index == ost).collect()
}

#[test]
fn rescale_values() {
    assert_eq!(rescale_ts(100, TimeBase::new(1, 1000), TimeBase::new(1, 90000)), 9000);
    // half rounds away from zero
    assert_eq!(rescale_ts(1, TimeBase::new(1, 2), TimeBase::new(1, 1)), 1);
    assert_eq!(rescale_ts(0, TimeBase::new(1, 1), TimeBase::new(1, 1)), 0);
}

#[test]
fn parse_opts_cases() {
    let d = parse_opts("preset=medium").unwrap();
    assert_eq!(d.len(), 1);
    assert_eq!(d[0], (String::from("preset"), String::from("medium")));
    let d2 = parse_opts("a=b,c=d,").unwrap();
    assert_eq!(d2.len(), 2);
    assert!(parse_opts("nokey").is_none());
    assert!(parse_opts("a=b,c").is_none());
    assert!(parse_opts("a=b=c").is_none());
    assert_eq!(parse_opts("").unwrap().len(), 0);
}

#[test]
fn bad_options_are_fatal() {
    let ictx = InputContext {
        streams: vec![audio_stream()],
        packets: vec![],
        metadata: String::new(),
    };
    let r = generate_hls(&ictx, "not options", 1, 1, true, 0);
    assert!(matches!(r, Err(PipelineError::InvalidOptions)));
}

#[test]
fn copy_passthrough_counts_and_bytes() {
    // one video + one audio stream; audio is copied untouched
    let ictx = InputContext {
        streams: vec![video_stream(), audio_stream()],
        packets: vec![
            pkt(0, 0, &[1]),
            pkt(1, 0, &[9, 9]),
            pkt(0, 40, &[2]),
            pkt(1, 21, &[8]),
            pkt(0, 80, &[3]),
            pkt(1, 42, &[7]),
        ],
        metadata: String::from("title=test"),
    };
    let octx = generate_hls(&ictx, "preset=medium", 1, 1, true, 0).unwrap();
    assert!(octx.header_written && octx.trailer_written);
    assert_eq!(octx.metadata, "title=test");
    assert_eq!(octx.stream_time_bases.len(), 2);
    let audio_out = for_stream(&octx.written, 1);
    assert_eq!(audio_out.len(), 3);
    let in_bytes: Vec<Vec<u8>> = vec![vec![9, 9], vec![8], vec![7]];
    for (k, p) in audio_out.iter().enumerate() {
        assert_eq!(p.data, in_bytes[k]);
        assert_eq!(p.position, -1);
    }
}

#[test]
fn transcoded_stream_keeps_payloads() {
    let ictx = InputContext {
        streams: vec![video_stream()],
        packets: vec![pkt(0, 0, &[1]), pkt(0, 40, &[2]), pkt(0, 80, &[3]), pkt(0, 120, &[4])],
        metadata: String::new(),
    };
    let octx = generate_hls(&ictx, "preset=medium", 2, 2, true, 0).unwrap();
    let video_out = for_stream(&octx.written, 0);
    assert_eq!(video_out.len(), 4);
    for (k, p) in video_out.iter().enumerate() {
        assert_eq!(p.data, vec![(k + 1) as u8]);
    }
}

#[test]
fn timestamps_are_monotone_per_stream() {
    let ictx = InputContext {
        streams: vec![video_stream(), audio_stream()],
        packets: vec![
            pkt(0, 0, &[1]),
            pkt(0, 40, &[2]),
            pkt(1, 5, &[5]),
            pkt(0, 80, &[3]),
            pkt(1, 25, &[6]),
            pkt(0, 120, &[4]),
        ],
        metadata: String::new(),
    };
    let octx = generate_hls(&ictx, "preset=medium", 2, 1, true, 0).unwrap();
    for ost in 0..2 {
        let outs = for_stream(&octx.written, ost);
        let mut last: i64 = -1;
        for p in outs {
            let v = p.pts.unwrap();
            assert!(v >= last);
            last = v;
        }
    }
}

#[test]
fn dropped_streams_leave_no_packets() {
    let other = StreamConfig {
        kind: MediaKind::Other,
        time_base: TimeBase::new(1, 1000),
        frame_rate: TimeBase::new(1, 1),
        width: 0,
        height: 0,
        aspect_ratio_num: 0,
        aspect_ratio_den: 1,
        pixel_format: 0,
        codec_tag: 0,
    };
    let ictx = InputContext {
        streams: vec![other, audio_stream()],
        packets: vec![pkt(0, 0, &[1]), pkt(1, 0, &[2])],
        metadata: String::new(),
    };
    let octx = generate_hls(&ictx, "preset=medium", 1, 1, true, 0).unwrap();
    // the audio stream gets the single dense output index
    assert_eq!(octx.stream_time_bases.len(), 1);
    assert_eq!(octx.written.len(), 1);
    assert_eq!(octx.written[0].ost_index, 0);
    assert_eq!(octx.written[0].data, vec![2]);
}

#[test]
fn progress_log_throttle() {
    let mut octx = OutputContext::new(true);
    let mut t = Transcoder::new(&video_stream(), &mut octx, 0, 2, 2, true, 1000);
    // neither enough frames nor enough wall clock
    assert!(t.log_progress(1500, 0).is_none());
    t.frame_count = 150;
    // enough frames but not one second yet
    assert!(t.log_progress(1900, 40).is_none());
    // both thresholds met
    let line = t.log_progress(2100, 40).unwrap();
    assert_eq!(line, (1100, 150, 40));
    // immediately after, throttled again
    assert!(t.log_progress(2200, 41).is_none());
}

#[test]
fn encoder_configured_from_input() {
    let mut octx = OutputContext::new(true);
    let ist = video_stream();
    let t = Transcoder::new(&ist, &mut octx, 0, 2, 2, true, 0);
    let cfg = t.encoder.config;
    assert_eq!(cfg.width, 1920);
    assert_eq!(cfg.height, 1080);
    assert_eq!((cfg.aspect_ratio_num, cfg.aspect_ratio_den), (16, 9));
    assert_eq!(cfg.pixel_format, 23);
    assert_eq!((cfg.frame_rate.num, cfg.frame_rate.den), (25, 1));
    assert!(cfg.global_header);
    // the encoder time base is the inverse frame rate
    assert_eq!((t.encoder.time_base.num, t.encoder.time_base.den), (1, 25));
    let mut octx2 = OutputContext::new(false);
    let t2 = Transcoder::new(&ist, &mut octx2, 0, 2, 2, true, 0);
    assert!(!t2.encoder.config.global_header);
}

#[test]
fn output_codec_tags_are_cleared() {
    let ictx = InputContext {
        streams: vec![video_stream(), audio_stream()],
        packets: vec![],
        metadata: String::new(),
    };
    let octx = generate_hls(&ictx, "preset=medium", 1, 1, true, 0).unwrap();
    // nonzero input tags never reach the output streams
    assert_eq!(octx.stream_codec_tags, vec![0, 0]);
}
