//! In-process frame-level transcode pipeline.
//!
//! The pipeline demultiplexes a container model, classifies every elementary
//! stream, decodes and re-encodes the video streams while passing audio and
//! subtitle streams through unmodified, rescales every timestamp between time
//! bases, and remultiplexes a single interleaved output with header and
//! trailer semantics.
//!
//! Decoding and encoding are driven as two independent queues per stream: a
//! codec may buffer several inputs before yielding an output (B-frame
//! reordering), so each stage is drained until it reports nothing ready, not
//! just once per input. The codec models here are reorder windows of a
//! configurable depth over which exactly that send/receive discipline is
//! verified.

use vstd::prelude::*;
use crate::timebase::{TimeBase, rescale_spec, rescale_opt_spec, rescale_ts, rescale_opt};

verus! {

/// Kind of an elementary stream inside a container.
#[derive(Clone, Copy, PartialEq, Eq, Structural, Debug)]
pub enum MediaKind {
    Video,
    Audio,
    Subtitle,
    Other,
}

/// Parameters of one input elementary stream, as the decoder reports them:
/// picture geometry, aspect ratio, pixel format and the container's codec
/// tag beside the timing.
#[derive(Clone, Copy, PartialEq, Eq, Structural, Debug)]
pub struct StreamConfig {
    pub kind: MediaKind,
    pub time_base: TimeBase,
    pub frame_rate: TimeBase,
    pub width: u32,
    pub height: u32,
    pub aspect_ratio_num: u32,
    pub aspect_ratio_den: u32,
    pub pixel_format: u32,
    pub codec_tag: u32,
}

impl StreamConfig {
    pub open spec fn wf(self) -> bool {
        self.time_base.wf() && self.frame_rate.wf()
    }
}

/// One demultiplexed packet, timestamped in its stream's time base.
pub struct MediaPacket {
    pub stream_index: usize,
    pub pts: Option<i64>,
    pub data: Vec<u8>,
}

impl MediaPacket {
    pub open spec fn wf(self) -> bool {
        self.pts matches Some(v) ==> v >= 0
    }
}

/// One decoded video frame.
pub struct VideoFrame {
    pub pts: Option<i64>,
    pub data: Vec<u8>,
    /// Picture-type hint reported by the decoder; cleared before encoding so
    /// the encoder chooses the type itself.
    pub forced_kind: bool,
}

/// One encoded packet as an encoder hands it out.
pub struct EncodedPacket {
    pub pts: Option<i64>,
    pub data: Vec<u8>,
}

/// One packet written to the output container.
pub struct OutPacket {
    pub ost_index: usize,
    pub pts: Option<i64>,
    pub position: i64,
    pub data: Vec<u8>,
}

pub open spec fn spec_min(a: int, b: int) -> int {
    if a <= b {
        a
    } else {
        b
    }
}

/// Model of a video decoder: packets enter a reorder window of `delay`
/// frames; frames leave in order once the window has filled, and
/// end-of-stream drains the remainder. A decoded frame carries the packet's
/// payload and timestamp in the decoder's time base.
pub struct Decoder {
    pub time_base: TimeBase,
    pub delay: usize,
    pub buf: Vec<VideoFrame>,
    pub eof: bool,
}

/// Frames the decoder will release right now: everything past the reorder
/// window, or everything once end-of-stream was signalled.
pub open spec fn dec_ready(d: Decoder) -> int {
    if d.eof {
        d.buf@.len() as int
    } else {
        d.buf@.len() - spec_min(d.buf@.len() as int, d.delay as int)
    }
}

impl Decoder {
    pub open spec fn wf(self) -> bool {
        &&& self.time_base.wf()
        &&& forall|j: int|
            0 <= j < self.buf@.len() ==> (#[trigger] self.buf@[j].pts matches Some(v) ==> v >= 0)
    }

    pub fn new(time_base: TimeBase, delay: usize) -> (d: Decoder)
        requires
            time_base.wf(),
        ensures
            d.time_base == time_base,
            d.delay == delay,
            d.buf@ =~= Seq::<VideoFrame>::empty(),
            !d.eof,
            d.wf(),
    {
        Decoder { time_base, delay, buf: Vec::new(), eof: false }
    }

    /// Accepts one packet; the decoded frame joins the reorder window.
    pub fn send_packet(&mut self, packet: MediaPacket)
        requires
            !old(self).eof,
        ensures
            final(self).buf@ == old(self).buf@.push(
                (VideoFrame { pts: packet.pts, data: packet.data, forced_kind: true }),
            ),
            final(self).time_base == old(self).time_base,
            final(self).delay == old(self).delay,
            final(self).eof == old(self).eof,
    {
        let frame = VideoFrame { pts: packet.pts, data: packet.data, forced_kind: true };
        self.buf.push(frame);
    }

    /// Signals end-of-stream: every buffered frame becomes ready.
    pub fn send_eof(&mut self)
        ensures
            final(self).eof,
            final(self).buf@ == old(self).buf@,
            final(self).time_base == old(self).time_base,
            final(self).delay == old(self).delay,
    {
        self.eof = true;
    }

    /// Yields the next ready frame, oldest first, or nothing while the
    /// reorder window is still filling.
    pub fn receive_frame(&mut self) -> (r: Option<VideoFrame>)
        ensures
            final(self).time_base == old(self).time_base,
            final(self).delay == old(self).delay,
            final(self).eof == old(self).eof,
            dec_ready(*old(self)) > 0 ==> (r matches Some(f) && f == old(self).buf@[0]
                && final(self).buf@ == old(self).buf@.subrange(1, old(self).buf@.len() as int)),
            dec_ready(*old(self)) == 0 ==> r is None && final(self).buf@ == old(self).buf@,
    {
        if self.buf.len() > self.delay || (self.eof && self.buf.len() > 0) {
            let f = self.buf.remove(0);
            Some(f)
        } else {
            None
        }
    }
}

/// Parameters an encoder is configured with before it opens: the input's
/// dimensions, aspect ratio, pixel format and frame rate, and whether the
/// output format requires global headers.
#[derive(Clone, Copy, PartialEq, Eq, Structural, Debug)]
pub struct EncoderConfig {
    pub width: u32,
    pub height: u32,
    pub aspect_ratio_num: u32,
    pub aspect_ratio_den: u32,
    pub pixel_format: u32,
    pub frame_rate: TimeBase,
    pub global_header: bool,
}

/// The configuration an encoder for input stream `sc` must get: every field
/// copied from the input, the flag from the output format's requirement.
pub open spec fn encoder_config_of(sc: StreamConfig, global_header: bool) -> EncoderConfig {
    EncoderConfig {
        width: sc.width,
        height: sc.height,
        aspect_ratio_num: sc.aspect_ratio_num,
        aspect_ratio_den: sc.aspect_ratio_den,
        pixel_format: sc.pixel_format,
        frame_rate: sc.frame_rate,
        global_header,
    }
}

/// Model of a video encoder: frames enter a reorder window of `delay`
/// entries; encoded packets leave in order once the window has filled, and
/// end-of-stream drains the remainder. An encoded packet carries the frame's
/// payload and timestamp.
pub struct Encoder {
    pub time_base: TimeBase,
    pub config: EncoderConfig,
    pub delay: usize,
    pub buf: Vec<EncodedPacket>,
    pub eof: bool,
}

/// Packets the encoder will release right now.
pub open spec fn enc_ready(e: Encoder) -> int {
    if e.eof {
        e.buf@.len() as int
    } else {
        e.buf@.len() - spec_min(e.buf@.len() as int, e.delay as int)
    }
}

impl Encoder {
    pub open spec fn wf(self) -> bool {
        &&& self.time_base.wf()
        &&& forall|j: int|
            0 <= j < self.buf@.len() ==> (#[trigger] self.buf@[j].pts matches Some(v) ==> v >= 0)
    }

    pub fn new(time_base: TimeBase, config: EncoderConfig, delay: usize) -> (e: Encoder)
        requires
            time_base.wf(),
        ensures
            e.time_base == time_base,
            e.config == config,
            e.delay == delay,
            e.buf@ =~= Seq::<EncodedPacket>::empty(),
            !e.eof,
            e.wf(),
    {
        Encoder { time_base, config, delay, buf: Vec::new(), eof: false }
    }

    /// Accepts one frame; its encoded packet joins the reorder window.
    pub fn send_frame(&mut self, frame: VideoFrame)
        requires
            !old(self).eof,
        ensures
            final(self).buf@ == old(self).buf@.push(
                (EncodedPacket { pts: frame.pts, data: frame.data }),
            ),
            final(self).time_base == old(self).time_base,
            final(self).config == old(self).config,
            final(self).delay == old(self).delay,
            final(self).eof == old(self).eof,
    {
        let p = EncodedPacket { pts: frame.pts, data: frame.data };
        self.buf.push(p);
    }

    /// Signals end-of-stream: every buffered packet becomes ready.
    pub fn send_eof(&mut self)
        ensures
            final(self).eof,
            final(self).buf@ == old(self).buf@,
            final(self).time_base == old(self).time_base,
            final(self).config == old(self).config,
            final(self).delay == old(self).delay,
    {
        self.eof = true;
    }

    /// Yields the next ready encoded packet, oldest first.
    pub fn receive_packet(&mut self) -> (r: Option<EncodedPacket>)
        ensures
            final(self).time_base == old(self).time_base,
            final(self).config == old(self).config,
            final(self).delay == old(self).delay,
            final(self).eof == old(self).eof,
            enc_ready(*old(self)) > 0 ==> (r matches Some(p) && p == old(self).buf@[0]
                && final(self).buf@ == old(self).buf@.subrange(1, old(self).buf@.len() as int)),
            enc_ready(*old(self)) == 0 ==> r is None && final(self).buf@ == old(self).buf@,
    {
        if self.buf.len() > self.delay || (self.eof && self.buf.len() > 0) {
            let p = self.buf.remove(0);
            Some(p)
        } else {
            None
        }
    }
}

/// The output container being muxed. Each output stream carries the time
/// base and the container codec tag it was added with; the pipeline always
/// clears the tag to avoid cross-container incompatibility.
pub struct OutputContext {
    pub stream_time_bases: Vec<TimeBase>,
    pub stream_codec_tags: Vec<u32>,
    pub metadata: String,
    pub needs_global_header: bool,
    pub header_written: bool,
    pub trailer_written: bool,
    pub written: Vec<OutPacket>,
}

impl OutputContext {
    pub open spec fn wf(self) -> bool {
        forall|j: int|
            0 <= j < self.stream_time_bases@.len() ==> (#[trigger] self.stream_time_bases@[j]).wf()
    }

    pub fn new(needs_global_header: bool) -> (o: OutputContext)
        ensures
            o.stream_time_bases@ =~= Seq::<TimeBase>::empty(),
            o.stream_codec_tags@ =~= Seq::<u32>::empty(),
            o.metadata@ =~= Seq::<char>::empty(),
            o.needs_global_header == needs_global_header,
            !o.header_written,
            !o.trailer_written,
            o.written@ =~= Seq::<OutPacket>::empty(),
            o.wf(),
    {
        OutputContext {
            stream_time_bases: Vec::new(),
            stream_codec_tags: Vec::new(),
            metadata: String::new(),
            needs_global_header,
            header_written: false,
            trailer_written: false,
            written: Vec::new(),
        }
    }

    /// Adds one output stream before the header is written; its index is
    /// assigned densely in call order, and it carries the given container
    /// codec tag.
    pub fn add_stream(&mut self, time_base: TimeBase, codec_tag: u32) -> (ost: usize)
        requires
            !old(self).header_written,
            time_base.wf(),
            old(self).stream_time_bases@.len() < usize::MAX,
        ensures
            ost == old(self).stream_time_bases@.len(),
            final(self).stream_time_bases@ == old(self).stream_time_bases@.push(time_base),
            final(self).stream_codec_tags@ == old(self).stream_codec_tags@.push(codec_tag),
            final(self).metadata == old(self).metadata,
            final(self).needs_global_header == old(self).needs_global_header,
            final(self).header_written == old(self).header_written,
            final(self).trailer_written == old(self).trailer_written,
            final(self).written == old(self).written,
    {
        let ost = self.stream_time_bases.len();
        self.stream_time_bases.push(time_base);
        self.stream_codec_tags.push(codec_tag);
        ost
    }

    /// Copies the input container's metadata onto the output.
    pub fn set_metadata(&mut self, metadata: String)
        ensures
            final(self).metadata == metadata,
            final(self).stream_time_bases == old(self).stream_time_bases,
            final(self).stream_codec_tags == old(self).stream_codec_tags,
            final(self).needs_global_header == old(self).needs_global_header,
            final(self).header_written == old(self).header_written,
            final(self).trailer_written == old(self).trailer_written,
            final(self).written == old(self).written,
    {
        self.metadata = metadata;
    }

    /// Writes the container header; streams are fixed from here on.
    pub fn write_header(&mut self)
        requires
            !old(self).header_written,
        ensures
            final(self).header_written,
            final(self).stream_time_bases == old(self).stream_time_bases,
            final(self).stream_codec_tags == old(self).stream_codec_tags,
            final(self).metadata == old(self).metadata,
            final(self).needs_global_header == old(self).needs_global_header,
            final(self).trailer_written == old(self).trailer_written,
            final(self).written == old(self).written,
    {
        self.header_written = true;
    }

    /// The time base the muxer assigned to output stream `ost`; tracked
    /// separately from any encoder's internal time base.
    pub fn stream_time_base(&self, ost: usize) -> (tb: TimeBase)
        requires
            ost < self.stream_time_bases@.len(),
        ensures
            tb == self.stream_time_bases@[ost as int],
    {
        let tb = self.stream_time_bases[ost];
        tb
    }

    /// Appends one packet to the interleaved output.
    pub fn write_interleaved(&mut self, packet: OutPacket)
        requires
            old(self).header_written,
            !old(self).trailer_written,
        ensures
            final(self).written@ == old(self).written@.push(packet),
            final(self).stream_time_bases == old(self).stream_time_bases,
            final(self).stream_codec_tags == old(self).stream_codec_tags,
            final(self).metadata == old(self).metadata,
            final(self).needs_global_header == old(self).needs_global_header,
            final(self).header_written == old(self).header_written,
            final(self).trailer_written == old(self).trailer_written,
    {
        self.written.push(packet);
    }

    /// Writes the trailer, closing the container.
    pub fn write_trailer(&mut self)
        requires
            old(self).header_written,
            !old(self).trailer_written,
        ensures
            final(self).trailer_written,
            final(self).stream_time_bases == old(self).stream_time_bases,
            final(self).stream_codec_tags == old(self).stream_codec_tags,
            final(self).metadata == old(self).metadata,
            final(self).needs_global_header == old(self).needs_global_header,
            final(self).header_written == old(self).header_written,
            final(self).written == old(self).written,
    {
        self.trailer_written = true;
    }
}

/// Number of absent timestamps among the first `k` encoded packets.
pub open spec fn nones_enc(s: Seq<EncodedPacket>, k: int) -> int
    decreases k,
        when 0 <= k <= s.len()
{
    if k <= 0 {
        0
    } else {
        nones_enc(s, k - 1) + if s[k - 1].pts is None {
            1int
        } else {
            0int
        }
    }
}

pub proof fn lemma_nones_bound(s: Seq<EncodedPacket>, k: int)
    requires
        0 <= k <= s.len(),
    ensures
        0 <= nones_enc(s, k) <= k,
    decreases k,
{
    if k > 0 {
        lemma_nones_bound(s, k - 1);
    }
}

/// How the packet `w` written for encoded packet `s` must look when the
/// synthetic timestamp counter stood at `synth`: stream index assigned,
/// source position unknown, payload kept, timestamp rescaled from the
/// decoder's time base to the output stream's, with an absent timestamp
/// replaced by the synthetic one.
pub open spec fn emitted_pkt_ok(
    w: OutPacket,
    s: EncodedPacket,
    synth: int,
    ost: int,
    dt: TimeBase,
    ot: TimeBase,
) -> bool {
    &&& w.ost_index == ost
    &&& w.position == -1
    &&& w.data@ == s.data@
    &&& w.pts == (match s.pts {
        Some(v) => Some(rescale_spec(v as int, dt, ot) as i64),
        None => Some(rescale_spec(synth, dt, ot) as i64),
    })
}

/// The encoded packet the encoder will produce for a frame.
pub open spec fn enc_of(f: VideoFrame) -> EncodedPacket {
    EncodedPacket { pts: f.pts, data: f.data }
}

/// Encoded packets already buffered plus those the decoder's ready frames
/// will produce.
pub open spec fn pending_enc(t: Transcoder) -> Seq<EncodedPacket> {
    t.encoder.buf@ + t.decoder.buf@.take(dec_ready(t.decoder)).map_values(
        |f: VideoFrame| enc_of(f),
    )
}

/// How many of those packets a full drain will emit.
pub open spec fn pending_out_count(t: Transcoder) -> int {
    pending_enc(t).len() - spec_min(pending_enc(t).len() as int, t.encoder.delay as int)
}

pub proof fn lemma_nones_add(s: Seq<EncodedPacket>, a: int, b: int)
    requires
        0 <= a,
        0 <= b,
        a + b <= s.len(),
    ensures
        nones_enc(s, a + b) == nones_enc(s, a) + nones_enc(s.skip(a), b),
    decreases b,
{
    if b > 0 {
        lemma_nones_add(s, a, b - 1);
        assert(s.skip(a)[b - 1] == s[a + b - 1]);
    }
}

pub proof fn lemma_nones_take(s: Seq<EncodedPacket>, m: int, j: int)
    requires
        0 <= j <= m <= s.len(),
    ensures
        nones_enc(s.take(m), j) == nones_enc(s, j),
    decreases j,
{
    if j > 0 {
        lemma_nones_take(s, m, j - 1);
        assert(s.take(m)[j - 1] == s[j - 1]);
    }
}

/// Owns the decode and encode state for one video stream, plus counters and
/// clocks used only for throttled progress reporting.
pub struct Transcoder {
    pub ost_index: usize,
    pub decoder: Decoder,
    pub encoder: Encoder,
    pub logging_enabled: bool,
    pub frame_count: usize,
    pub last_log_frame_count: usize,
    pub starting_time_ms: u64,
    pub last_log_time_ms: u64,
    pub next_synth_pts: i64,
}

/// Fields untouched by the packet-draining paths.
pub open spec fn same_log_state(a: Transcoder, b: Transcoder) -> bool {
    &&& a.ost_index == b.ost_index
    &&& a.logging_enabled == b.logging_enabled
    &&& a.frame_count == b.frame_count
    &&& a.last_log_frame_count == b.last_log_frame_count
    &&& a.starting_time_ms == b.starting_time_ms
    &&& a.last_log_time_ms == b.last_log_time_ms
}

/// A progress line is due only when at least 100 frames have passed since
/// the last line and at least one second of wall clock has elapsed.
pub open spec fn should_log(t: Transcoder, now_ms: u64) -> bool {
    &&& t.logging_enabled
    &&& t.frame_count >= t.last_log_frame_count + 100
    &&& now_ms >= t.last_log_time_ms + 1000
}

impl Transcoder {
    pub open spec fn wf(self) -> bool {
        &&& self.decoder.wf()
        &&& self.encoder.wf()
        &&& self.next_synth_pts >= 0
    }

    /// Sets up decode and encode state for the video stream `ist`, and adds
    /// the matching output stream. The decoder is matched to the input's
    /// parameters; the encoder is configured with the input's dimensions,
    /// aspect ratio, pixel format and frame rate, a time base equal to the
    /// inverse of the frame rate, and the global-header flag the output
    /// format requires.
    pub fn new(
        ist: &StreamConfig,
        octx: &mut OutputContext,
        ost_index: usize,
        decoder_delay: usize,
        encoder_delay: usize,
        enable_logging: bool,
        now_ms: u64,
    ) -> (t: Transcoder)
        requires
            ist.wf(),
            ist.kind == MediaKind::Video,
            !old(octx).header_written,
            old(octx).stream_time_bases@.len() < usize::MAX,
            ost_index == old(octx).stream_time_bases@.len(),
        ensures
            final(octx).stream_time_bases@ == old(octx).stream_time_bases@.push(
                (TimeBase { num: ist.frame_rate.den, den: ist.frame_rate.num }),
            ),
            final(octx).stream_codec_tags@ == old(octx).stream_codec_tags@.push(0u32),
            final(octx).metadata == old(octx).metadata,
            final(octx).needs_global_header == old(octx).needs_global_header,
            final(octx).header_written == old(octx).header_written,
            final(octx).trailer_written == old(octx).trailer_written,
            final(octx).written == old(octx).written,
            t.ost_index == ost_index,
            t.decoder.time_base == ist.time_base,
            t.decoder.delay == decoder_delay,
            t.decoder.buf@ =~= Seq::<VideoFrame>::empty(),
            !t.decoder.eof,
            t.encoder.time_base == (TimeBase { num: ist.frame_rate.den, den: ist.frame_rate.num }),
            t.encoder.config == encoder_config_of(*ist, old(octx).needs_global_header),
            t.encoder.delay == encoder_delay,
            t.encoder.buf@ =~= Seq::<EncodedPacket>::empty(),
            !t.encoder.eof,
            t.logging_enabled == enable_logging,
            t.frame_count == 0,
            t.last_log_frame_count == 0,
            t.starting_time_ms == now_ms,
            t.last_log_time_ms == now_ms,
            t.next_synth_pts == 0,
            t.wf(),
    {
        let enc_tb = ist.frame_rate.invert();
        let config = EncoderConfig {
            width: ist.width,
            height: ist.height,
            aspect_ratio_num: ist.aspect_ratio_num,
            aspect_ratio_den: ist.aspect_ratio_den,
            pixel_format: ist.pixel_format,
            frame_rate: ist.frame_rate,
            global_header: octx.needs_global_header,
        };
        let decoder = Decoder::new(ist.time_base, decoder_delay);
        let encoder = Encoder::new(enc_tb, config, encoder_delay);
        octx.add_stream(enc_tb, 0);
        Transcoder {
            ost_index,
            decoder,
            encoder,
            logging_enabled: enable_logging,
            frame_count: 0,
            last_log_frame_count: 0,
            starting_time_ms: now_ms,
            last_log_time_ms: now_ms,
            next_synth_pts: 0,
        }
    }

    pub fn send_packet_to_decoder(&mut self, packet: MediaPacket)
        requires
            !old(self).decoder.eof,
        ensures
            final(self).decoder.buf@ == old(self).decoder.buf@.push(
                (VideoFrame { pts: packet.pts, data: packet.data, forced_kind: true }),
            ),
            final(self).decoder.time_base == old(self).decoder.time_base,
            final(self).decoder.delay == old(self).decoder.delay,
            final(self).decoder.eof == old(self).decoder.eof,
            final(self).encoder == old(self).encoder,
            final(self).next_synth_pts == old(self).next_synth_pts,
            same_log_state(*final(self), *old(self)),
    {
        self.decoder.send_packet(packet);
    }

    pub fn send_eof_to_decoder(&mut self)
        ensures
            final(self).decoder.eof,
            final(self).decoder.buf@ == old(self).decoder.buf@,
            final(self).decoder.time_base == old(self).decoder.time_base,
            final(self).decoder.delay == old(self).decoder.delay,
            final(self).encoder == old(self).encoder,
            final(self).next_synth_pts == old(self).next_synth_pts,
            same_log_state(*final(self), *old(self)),
    {
        self.decoder.send_eof();
    }

    pub fn send_frame_to_encoder(&mut self, frame: VideoFrame)
        requires
            !old(self).encoder.eof,
        ensures
            final(self).encoder.buf@ == old(self).encoder.buf@.push(
                (EncodedPacket { pts: frame.pts, data: frame.data }),
            ),
            final(self).encoder.time_base == old(self).encoder.time_base,
            final(self).encoder.config == old(self).encoder.config,
            final(self).encoder.delay == old(self).encoder.delay,
            final(self).encoder.eof == old(self).encoder.eof,
            final(self).decoder == old(self).decoder,
            final(self).next_synth_pts == old(self).next_synth_pts,
            same_log_state(*final(self), *old(self)),
    {
        self.encoder.send_frame(frame);
    }

    pub fn send_eof_to_encoder(&mut self)
        ensures
            final(self).encoder.eof,
            final(self).encoder.buf@ == old(self).encoder.buf@,
            final(self).encoder.time_base == old(self).encoder.time_base,
            final(self).encoder.config == old(self).encoder.config,
            final(self).encoder.delay == old(self).encoder.delay,
            final(self).decoder == old(self).decoder,
            final(self).next_synth_pts == old(self).next_synth_pts,
            same_log_state(*final(self), *old(self)),
    {
        self.encoder.send_eof();
    }

    /// Emits a progress line at most when due, returning the elapsed wall
    /// clock, the frame count and the media timestamp to report.
    pub fn log_progress(&mut self, now_ms: u64, timestamp_ms: u64) -> (r: Option<(u64, usize, u64)>)
        requires
            now_ms >= old(self).starting_time_ms,
        ensures
            r.is_some() == should_log(*old(self), now_ms),
            r.is_some() ==> r.unwrap() == (
                ((now_ms - old(self).starting_time_ms) as u64),
                old(self).frame_count,
                timestamp_ms,
            ),
            r.is_some() ==> (final(self).last_log_frame_count == old(self).frame_count
                && final(self).last_log_time_ms == now_ms),
            r.is_none() ==> final(self).last_log_frame_count == old(self).last_log_frame_count
                && final(self).last_log_time_ms == old(self).last_log_time_ms,
            final(self).ost_index == old(self).ost_index,
            final(self).decoder == old(self).decoder,
            final(self).encoder == old(self).encoder,
            final(self).logging_enabled == old(self).logging_enabled,
            final(self).frame_count == old(self).frame_count,
            final(self).starting_time_ms == old(self).starting_time_ms,
            final(self).next_synth_pts == old(self).next_synth_pts,
    {
        if self.logging_enabled && self.frame_count >= self.last_log_frame_count
            && self.frame_count - self.last_log_frame_count >= 100
            && now_ms >= self.last_log_time_ms && now_ms - self.last_log_time_ms >= 1000 {
            let line = (now_ms - self.starting_time_ms, self.frame_count, timestamp_ms);
            self.last_log_frame_count = self.frame_count;
            self.last_log_time_ms = now_ms;
            Some(line)
        } else {
            None
        }
    }

    /// Drains every encoded packet the encoder has ready: assigns the output
    /// stream index, synthesizes a monotonically increasing timestamp where
    /// the encoder left none, rescales from the decoder's time base to the
    /// output stream's, and writes interleaved.
    pub fn receive_and_process_encoded_packets(
        &mut self,
        octx: &mut OutputContext,
        ost_time_base: TimeBase,
    )
        requires
            old(self).wf(),
            ost_time_base.wf(),
            old(octx).header_written,
            !old(octx).trailer_written,
            old(self).next_synth_pts + old(self).encoder.buf@.len() <= i64::MAX,
        ensures
            final(self).wf(),
            same_log_state(*final(self), *old(self)),
            final(self).decoder == old(self).decoder,
            final(self).encoder.time_base == old(self).encoder.time_base,
            final(self).encoder.config == old(self).encoder.config,
            final(self).encoder.delay == old(self).encoder.delay,
            final(self).encoder.eof == old(self).encoder.eof,
            final(self).encoder.buf@ == old(self).encoder.buf@.skip(enc_ready(old(self).encoder)),
            final(self).next_synth_pts == old(self).next_synth_pts + nones_enc(
                old(self).encoder.buf@,
                enc_ready(old(self).encoder),
            ),
            final(octx).stream_time_bases == old(octx).stream_time_bases,
            final(octx).stream_codec_tags == old(octx).stream_codec_tags,
            final(octx).metadata == old(octx).metadata,
            final(octx).needs_global_header == old(octx).needs_global_header,
            final(octx).header_written == old(octx).header_written,
            final(octx).trailer_written == old(octx).trailer_written,
            final(octx).written@.len() == old(octx).written@.len() + enc_ready(old(self).encoder),
            final(octx).written@.subrange(0, old(octx).written@.len() as int) == old(octx).written@,
            forall|j: int|
                0 <= j < enc_ready(old(self).encoder) ==> emitted_pkt_ok(
                    #[trigger] final(octx).written@[old(octx).written@.len() + j],
                    old(self).encoder.buf@[j],
                    old(self).next_synth_pts + nones_enc(old(self).encoder.buf@, j),
                    old(self).ost_index as int,
                    old(self).decoder.time_base,
                    ost_time_base,
                ),
    {
        let ghost old_buf = self.encoder.buf@;
        let ghost base = old(octx).written@.len() as int;
        let ghost old_synth = self.next_synth_pts;
        let ghost k = enc_ready(old(self).encoder);
        proof {
            lemma_nones_bound(old_buf, k);
        }
        let mut done = false;
        while !done
            invariant
                self.wf(),
                ost_time_base.wf(),
                octx.header_written,
                !octx.trailer_written,
                same_log_state(*self, *old(self)),
                self.decoder == old(self).decoder,
                self.encoder.time_base == old(self).encoder.time_base,
                self.encoder.config == old(self).encoder.config,
                self.encoder.delay == old(self).encoder.delay,
                self.encoder.eof == old(self).encoder.eof,
                octx.stream_time_bases == old(octx).stream_time_bases,
                octx.stream_codec_tags == old(octx).stream_codec_tags,
                octx.metadata == old(octx).metadata,
                octx.needs_global_header == old(octx).needs_global_header,
                old_buf == old(self).encoder.buf@,
                base == old(octx).written@.len(),
                old_synth == old(self).next_synth_pts,
                k == enc_ready(old(self).encoder),
                old_synth + old_buf.len() <= i64::MAX,
                self.encoder.buf@.len() <= old_buf.len(),
                self.encoder.buf@ == old_buf.skip(old_buf.len() - self.encoder.buf@.len()),
                !self.encoder.eof ==> self.encoder.buf@.len() >= spec_min(
                    old_buf.len() as int,
                    self.encoder.delay as int,
                ),
                octx.written@.len() == base + (old_buf.len() - self.encoder.buf@.len()),
                octx.written@.subrange(0, base) == old(octx).written@,
                self.next_synth_pts == old_synth + nones_enc(
                    old_buf,
                    old_buf.len() - self.encoder.buf@.len(),
                ),
                forall|j: int|
                    0 <= j < old_buf.len() - self.encoder.buf@.len() ==> emitted_pkt_ok(
                        #[trigger] octx.written@[base + j],
                        old_buf[j],
                        old_synth + nones_enc(old_buf, j),
                        old(self).ost_index as int,
                        old(self).decoder.time_base,
                        ost_time_base,
                    ),
                done ==> enc_ready(self.encoder) == 0,
            decreases self.encoder.buf@.len() + (if done { 0int } else { 1int }),
        {
            let ghost m = old_buf.len() - self.encoder.buf@.len();
            proof {
                lemma_nones_bound(old_buf, m as int);
            }
            match self.encoder.receive_packet() {
                None => {
                    done = true;
                },
                Some(p) => {
                    proof {
                        assert(p == old_buf[m as int]);
                        assert(nones_enc(old_buf, m + 1) == nones_enc(old_buf, m as int) + (
                        if old_buf[m as int].pts is None {
                            1int
                        } else {
                            0int
                        }));
                    }
                    proof {
                        assert(m < old_buf.len());
                        assert(self.next_synth_pts == old_synth + nones_enc(old_buf, m as int));
                        assert(nones_enc(old_buf, m as int) <= m as int);
                    }
                    let eff: i64 = match p.pts {
                        Some(v) => v,
                        None => {
                            let s = self.next_synth_pts;
                            self.next_synth_pts = self.next_synth_pts + 1;
                            s
                        },
                    };
                    let out_pts = rescale_ts(eff, self.decoder.time_base, ost_time_base);
                    let out = OutPacket {
                        ost_index: self.ost_index,
                        pts: Some(out_pts),
                        position: -1i64,
                        data: p.data,
                    };
                    octx.write_interleaved(out);
                    proof {
                        assert(octx.written@.subrange(0, base) =~= old(octx).written@);
                        assert(self.encoder.buf@ == old_buf.skip(
                            old_buf.len() - self.encoder.buf@.len(),
                        ));
                    }
                },
            }
        }
        proof {
            assert(old_buf.len() - self.encoder.buf@.len() == k);
        }
    }

    /// Drains every frame the decoder has ready: counts it, reports throttled
    /// progress, clears the picture-type hint so the encoder chooses it,
    /// feeds the frame to the encoder, then drains every encoded packet the
    /// encoder has ready.
    #[verifier::rlimit(60)]
    pub fn receive_and_process_decoded_frames(
        &mut self,
        octx: &mut OutputContext,
        ost_time_base: TimeBase,
        now_ms: u64,
    )
        requires
            old(self).wf(),
            ost_time_base.wf(),
            old(octx).header_written,
            !old(octx).trailer_written,
            !old(self).encoder.eof,
            old(self).encoder.buf@.len() <= old(self).encoder.delay,
            old(self).next_synth_pts + old(self).encoder.buf@.len() + dec_ready(old(self).decoder)
                <= i64::MAX,
            old(self).frame_count + dec_ready(old(self).decoder) <= usize::MAX,
            now_ms >= old(self).starting_time_ms,
        ensures
            final(self).wf(),
            final(self).ost_index == old(self).ost_index,
            final(self).logging_enabled == old(self).logging_enabled,
            final(self).starting_time_ms == old(self).starting_time_ms,
            final(self).frame_count == old(self).frame_count + dec_ready(old(self).decoder),
            final(self).decoder.buf@ == old(self).decoder.buf@.skip(dec_ready(old(self).decoder)),
            final(self).decoder.time_base == old(self).decoder.time_base,
            final(self).decoder.delay == old(self).decoder.delay,
            final(self).decoder.eof == old(self).decoder.eof,
            final(self).encoder.time_base == old(self).encoder.time_base,
            final(self).encoder.config == old(self).encoder.config,
            final(self).encoder.delay == old(self).encoder.delay,
            !final(self).encoder.eof,
            final(self).encoder.buf@ == pending_enc(*old(self)).skip(
                pending_out_count(*old(self)),
            ),
            final(self).encoder.buf@.len() <= final(self).encoder.delay,
            final(self).next_synth_pts == old(self).next_synth_pts + nones_enc(
                pending_enc(*old(self)),
                pending_out_count(*old(self)),
            ),
            final(octx).stream_time_bases == old(octx).stream_time_bases,
            final(octx).stream_codec_tags == old(octx).stream_codec_tags,
            final(octx).metadata == old(octx).metadata,
            final(octx).needs_global_header == old(octx).needs_global_header,
            final(octx).header_written == old(octx).header_written,
            final(octx).trailer_written == old(octx).trailer_written,
            final(octx).written@.len() == old(octx).written@.len() + pending_out_count(
                *old(self),
            ),
            final(octx).written@.subrange(0, old(octx).written@.len() as int) == old(octx).written@,
            forall|j: int|
                0 <= j < pending_out_count(*old(self)) ==> emitted_pkt_ok(
                    #[trigger] final(octx).written@[old(octx).written@.len() + j],
                    pending_enc(*old(self))[j],
                    old(self).next_synth_pts + nones_enc(pending_enc(*old(self)), j),
                    old(self).ost_index as int,
                    old(self).decoder.time_base,
                    ost_time_base,
                ),
    {
        let ghost old_dec = self.decoder.buf@;
        let ghost k1 = dec_ready(self.decoder);
        let ghost e = pending_enc(*old(self));
        let ghost ol = self.encoder.buf@.len() as int;
        let ghost old_synth = self.next_synth_pts;
        let ghost base = octx.written@.len() as int;
        let ghost fc0 = self.frame_count;
        let ms_base = TimeBase::new(1, 1000);
        let mut done = false;
        while !done
            invariant
                self.wf(),
                ost_time_base.wf(),
                ms_base.wf(),
                octx.header_written,
                !octx.trailer_written,
                self.decoder.time_base == old(self).decoder.time_base,
                self.decoder.delay == old(self).decoder.delay,
                self.decoder.eof == old(self).decoder.eof,
                self.encoder.time_base == old(self).encoder.time_base,
                self.encoder.config == old(self).encoder.config,
                self.encoder.delay == old(self).encoder.delay,
                !self.encoder.eof,
                self.ost_index == old(self).ost_index,
                self.logging_enabled == old(self).logging_enabled,
                self.starting_time_ms == old(self).starting_time_ms,
                now_ms >= self.starting_time_ms,
                octx.stream_time_bases == old(octx).stream_time_bases,
                octx.stream_codec_tags == old(octx).stream_codec_tags,
                octx.metadata == old(octx).metadata,
                octx.needs_global_header == old(octx).needs_global_header,
                old_dec == old(self).decoder.buf@,
                k1 == dec_ready(old(self).decoder),
                e == pending_enc(*old(self)),
                ol == old(self).encoder.buf@.len(),
                old_synth == old(self).next_synth_pts,
                base == old(octx).written@.len(),
                fc0 == old(self).frame_count,
                e.len() == ol + k1,
                old_synth + ol + k1 <= i64::MAX,
                fc0 + k1 <= usize::MAX,
                ol <= self.encoder.delay,
                self.decoder.buf@.len() <= old_dec.len(),
                old_dec.len() - self.decoder.buf@.len() <= k1,
                self.decoder.buf@ == old_dec.skip(old_dec.len() - self.decoder.buf@.len()),
                dec_ready(self.decoder) == k1 - (old_dec.len() - self.decoder.buf@.len()),
                done ==> dec_ready(self.decoder) == 0,
                self.frame_count == fc0 + (old_dec.len() - self.decoder.buf@.len()),
                ({
                    let i = old_dec.len() - self.decoder.buf@.len();
                    let kout = (ol + i) - spec_min(ol + i, self.encoder.delay as int);
                    &&& self.encoder.buf@ == e.take(ol + i).skip(kout)
                    &&& octx.written@.len() == base + kout
                    &&& octx.written@.subrange(0, base) == old(octx).written@
                    &&& self.next_synth_pts == old_synth + nones_enc(e, kout)
                    &&& forall|j: int|
                        0 <= j < kout ==> emitted_pkt_ok(
                            #[trigger] octx.written@[base + j],
                            e[j],
                            old_synth + nones_enc(e, j),
                            old(self).ost_index as int,
                            old(self).decoder.time_base,
                            ost_time_base,
                        )
                }),
            decreases self.decoder.buf@.len() + (if done { 0int } else { 1int }),
        {
            let ghost i0 = old_dec.len() - self.decoder.buf@.len();
            let ghost kout0 = (ol + i0) - spec_min(ol + i0, self.encoder.delay as int);
            match self.decoder.receive_frame() {
                None => {
                    done = true;
                },
                Some(f) => {
                    proof {
                        assert(0 <= i0);
                        assert(k1 - i0 > 0);
                        assert(k1 <= old_dec.len());
                        assert(0 <= i0 < old_dec.len());
                        assert(old_dec.skip(i0)[0] == old_dec[i0]);
                        assert(f == old_dec[i0]);
                        assert(self.decoder.buf@ =~= old_dec.skip(i0 + 1));
                        lemma_nones_bound(e, kout0);
                    }
                    self.frame_count = self.frame_count + 1;
                    let raw_ts: i64 = match f.pts {
                        Some(v) => v,
                        None => 0,
                    };
                    let ts_ms = rescale_ts(raw_ts, self.decoder.time_base, ms_base);
                    let line = self.log_progress(now_ms, ts_ms as u64);
                    let mut f = f;
                    f.forced_kind = false;
                    let ghost enc_pre = self.encoder.buf@;
                    self.send_frame_to_encoder(f);
                    proof {
                        assert(0 <= i0 < k1);
                        assert(old_dec.take(k1)[i0] == old_dec[i0]);
                        assert(e[ol + i0] == enc_of(old_dec.take(k1)[i0]));
                        assert(self.encoder.buf@ =~= e.take(ol + i0 + 1).skip(kout0));
                        assert(self.next_synth_pts + self.encoder.buf@.len() <= i64::MAX) by {
                            lemma_nones_bound(e, kout0);
                        }
                    }
                    let ghost pre = *self;
                    let ghost octx_pre = *octx;
                    self.receive_and_process_encoded_packets(octx, ost_time_base);
                    proof {
                        let i1 = i0 + 1;
                        let kout1 = (ol + i1) - spec_min(ol + i1, self.encoder.delay as int);
                        let ready = enc_ready(pre.encoder);
                        assert(kout1 == kout0 + ready);
                        // the drained packets are e[kout0 .. kout1]
                        assert(pre.encoder.buf@ == e.take(ol + i1).skip(kout0));
                        assert(e.take(ol + i1).skip(kout0) =~= e.skip(kout0).take(ol + i1 - kout0));
                        assert(self.encoder.buf@ == pre.encoder.buf@.skip(ready));
                        assert(self.encoder.buf@ =~= e.take(ol + i1).skip(kout1));
                        lemma_nones_take(e.skip(kout0), ol + i1 - kout0, ready);
                        lemma_nones_add(e, kout0, ready);
                        assert(self.next_synth_pts == old_synth + nones_enc(e, kout1));
                        assert(octx.written@.subrange(0, octx_pre.written@.len() as int)
                            == octx_pre.written@);
                        assert(octx.written@.subrange(0, base) =~= octx_pre.written@.subrange(
                            0,
                            base,
                        ));
                        assert forall|j: int| 0 <= j < kout1 implies emitted_pkt_ok(
                            #[trigger] octx.written@[base + j],
                            e[j],
                            old_synth + nones_enc(e, j),
                            old(self).ost_index as int,
                            old(self).decoder.time_base,
                            ost_time_base,
                        ) by {
                            if j < kout0 {
                                assert(octx.written@[base + j] == octx.written@.subrange(
                                    0,
                                    octx_pre.written@.len() as int,
                                )[base + j]);
                                assert(octx.written@[base + j] == octx_pre.written@[base + j]);
                                assert(emitted_pkt_ok(
                                    octx_pre.written@[base + j],
                                    e[j],
                                    old_synth + nones_enc(e, j),
                                    old(self).ost_index as int,
                                    old(self).decoder.time_base,
                                    ost_time_base,
                                ));
                            } else {
                                let jj = j - kout0;
                                assert(emitted_pkt_ok(
                                    octx.written@[octx_pre.written@.len() + jj],
                                    pre.encoder.buf@[jj],
                                    pre.next_synth_pts + nones_enc(pre.encoder.buf@, jj),
                                    pre.ost_index as int,
                                    pre.decoder.time_base,
                                    ost_time_base,
                                ));
                                assert(pre.encoder.buf@[jj] == e.skip(kout0).take(
                                    ol + i1 - kout0,
                                )[jj]);
                                assert(pre.encoder.buf@[jj] == e[j]);
                                lemma_nones_take(e.skip(kout0), ol + i1 - kout0, jj);
                                lemma_nones_add(e, kout0, jj);
                                assert(octx_pre.written@.len() + jj == base + j);
                            }
                        }
                    }
                },
            }
        }
        proof {
            assert(old_dec.len() - self.decoder.buf@.len() == k1);
            assert(e.take(ol + k1) =~= e);
            assert(pending_out_count(*old(self)) == (ol + k1) - spec_min(
                ol + k1,
                self.encoder.delay as int,
            ));
        }
    }
}

/// Streams of these kinds are kept; anything else is dropped.
pub open spec fn kept_kind(k: MediaKind) -> bool {
    k == MediaKind::Video || k == MediaKind::Audio || k == MediaKind::Subtitle
}

/// Output stream index assigned to input stream `i`: kept streams are
/// numbered densely in input order.
pub open spec fn ost_of(streams: Seq<StreamConfig>, i: int) -> int
    decreases i,
        when 0 <= i
{
    if i <= 0 {
        0
    } else {
        ost_of(streams, i - 1) + if kept_kind(streams[i - 1].kind) {
            1int
        } else {
            0int
        }
    }
}

/// Number of kept streams.
pub open spec fn n_kept(streams: Seq<StreamConfig>) -> int {
    ost_of(streams, streams.len() as int)
}

/// Number of video streams among the first `i`.
pub open spec fn video_count(streams: Seq<StreamConfig>, i: int) -> int
    decreases i,
        when 0 <= i
{
    if i <= 0 {
        0
    } else {
        video_count(streams, i - 1) + if streams[i - 1].kind == MediaKind::Video {
            1int
        } else {
            0int
        }
    }
}

pub proof fn lemma_ost_strict(streams: Seq<StreamConfig>, a: int, b: int)
    requires
        0 <= a < b <= streams.len(),
        kept_kind(streams[a].kind),
    ensures
        ost_of(streams, a) < ost_of(streams, b) <= n_kept(streams),
    decreases streams.len() - a,
{
    lemma_ost_le(streams, a + 1, b);
    lemma_ost_le(streams, b, streams.len() as int);
}

pub proof fn lemma_ost_le(streams: Seq<StreamConfig>, a: int, b: int)
    requires
        0 <= a <= b <= streams.len(),
    ensures
        ost_of(streams, a) <= ost_of(streams, b),
    decreases b - a,
{
    if a < b {
        lemma_ost_le(streams, a, b - 1);
    }
}

pub proof fn lemma_video_le(streams: Seq<StreamConfig>, a: int, b: int)
    requires
        0 <= a <= b <= streams.len(),
    ensures
        video_count(streams, a) <= video_count(streams, b),
    decreases b - a,
{
    if a < b {
        lemma_video_le(streams, a, b - 1);
    }
}

pub proof fn lemma_video_strict(streams: Seq<StreamConfig>, a: int, b: int)
    requires
        0 <= a < b <= streams.len(),
        streams[a].kind == MediaKind::Video,
    ensures
        video_count(streams, a) < video_count(streams, b),
{
    lemma_video_le(streams, a + 1, b);
}

/// Packets of input stream `i`, in container order.
pub open spec fn stream_pkts(ps: Seq<MediaPacket>, i: int) -> Seq<MediaPacket>
    decreases ps.len(),
{
    if ps.len() == 0 {
        Seq::empty()
    } else if ps.last().stream_index == i {
        stream_pkts(ps.drop_last(), i).push(ps.last())
    } else {
        stream_pkts(ps.drop_last(), i)
    }
}

/// Packets written for output stream `ost`, in write order.
pub open spec fn out_pkts(ws: Seq<OutPacket>, ost: int) -> Seq<OutPacket>
    decreases ws.len(),
{
    if ws.len() == 0 {
        Seq::empty()
    } else if ws.last().ost_index == ost {
        out_pkts(ws.drop_last(), ost).push(ws.last())
    } else {
        out_pkts(ws.drop_last(), ost)
    }
}

pub proof fn lemma_stream_pkts_push(ps: Seq<MediaPacket>, p: MediaPacket, i: int)
    ensures
        stream_pkts(ps.push(p), i) == (if p.stream_index == i {
            stream_pkts(ps, i).push(p)
        } else {
            stream_pkts(ps, i)
        }),
{
    assert(ps.push(p).drop_last() =~= ps);
    assert(ps.push(p).last() == p);
}

pub proof fn lemma_out_pkts_push(ws: Seq<OutPacket>, w: OutPacket, ost: int)
    ensures
        out_pkts(ws.push(w), ost) == (if w.ost_index == ost {
            out_pkts(ws, ost).push(w)
        } else {
            out_pkts(ws, ost)
        }),
{
    assert(ws.push(w).drop_last() =~= ws);
    assert(ws.push(w).last() == w);
}

/// Extending the written sequence by a block of packets all for stream `o`
/// appends exactly that block to stream `o`'s packets and leaves every other
/// stream's packets unchanged.
pub proof fn lemma_out_pkts_extend(ws2: Seq<OutPacket>, ws1: Seq<OutPacket>, o: int)
    requires
        ws1.len() <= ws2.len(),
        ws2.subrange(0, ws1.len() as int) == ws1,
        forall|j: int| ws1.len() <= j < ws2.len() ==> (#[trigger] ws2[j]).ost_index == o,
    ensures
        out_pkts(ws2, o) == out_pkts(ws1, o) + ws2.skip(ws1.len() as int),
        forall|q: int| q != o ==> out_pkts(ws2, q) == out_pkts(ws1, q),
    decreases ws2.len() - ws1.len(),
{
    if ws2.len() == ws1.len() {
        assert(ws2 =~= ws1);
        assert(out_pkts(ws2, o) + ws2.skip(ws1.len() as int) =~= out_pkts(ws1, o));
        assert forall|q: int| q != o implies out_pkts(ws2, q) == out_pkts(ws1, q) by {}
    } else {
        let prev = ws2.drop_last();
        assert(prev.subrange(0, ws1.len() as int) =~= ws1);
        lemma_out_pkts_extend(prev, ws1, o);
        assert(ws2[ws2.len() - 1].ost_index == o);
        assert(out_pkts(ws2, o) == out_pkts(prev, o).push(ws2.last()));
        assert(out_pkts(prev, o) + prev.skip(ws1.len() as int) =~= out_pkts(prev, o) + prev.skip(
            ws1.len() as int,
        ));
        assert((out_pkts(ws1, o) + prev.skip(ws1.len() as int)).push(ws2.last()) =~= out_pkts(
            ws1,
            o,
        ) + ws2.skip(ws1.len() as int));
        assert forall|q: int| q != o implies out_pkts(ws2, q) == out_pkts(ws1, q) by {
            assert(out_pkts(ws2, q) == out_pkts(prev, q));
        }
    }
}

/// Number of absent timestamps among the first `k` packets.
pub open spec fn nones_pkts(ps: Seq<MediaPacket>, k: int) -> int
    decreases k,
        when 0 <= k <= ps.len()
{
    if k <= 0 {
        0
    } else {
        nones_pkts(ps, k - 1) + if ps[k - 1].pts is None {
            1int
        } else {
            0int
        }
    }
}

pub proof fn lemma_nones_pkts_bound(ps: Seq<MediaPacket>, k: int)
    requires
        0 <= k <= ps.len(),
    ensures
        0 <= nones_pkts(ps, k) <= k,
    decreases k,
{
    if k > 0 {
        lemma_nones_pkts_bound(ps, k - 1);
    }
}

/// Counting absent timestamps only looks at the prefix.
pub proof fn lemma_nones_pkts_prefix(ps1: Seq<MediaPacket>, ps2: Seq<MediaPacket>, k: int)
    requires
        0 <= k <= ps1.len(),
        k <= ps2.len(),
        forall|j: int| 0 <= j < k ==> (#[trigger] ps1[j]).pts == ps2[j].pts,
    ensures
        nones_pkts(ps1, k) == nones_pkts(ps2, k),
    decreases k,
{
    if k > 0 {
        lemma_nones_pkts_prefix(ps1, ps2, k - 1);
    }
}

/// Encoded packets whose timestamps agree in presence with a window of the
/// input packets carry the same count of absences.
pub proof fn lemma_nones_align(
    pend: Seq<EncodedPacket>,
    ins: Seq<MediaPacket>,
    w: int,
    j: int,
)
    requires
        0 <= j <= pend.len(),
        0 <= w,
        w + pend.len() <= ins.len(),
        forall|jj: int|
            0 <= jj < pend.len() ==> ((#[trigger] pend[jj].pts) is None <==> ins[w + jj].pts
                is None),
    ensures
        nones_enc(pend, j) == nones_pkts(ins, w + j) - nones_pkts(ins, w),
    decreases j,
{
    if j > 0 {
        lemma_nones_align(pend, ins, w, j - 1);
    }
}

/// Timestamp written for the `m`-th packet of a transcoded stream: decoded
/// into the decoder's time base, then rescaled into the output stream's; an
/// absent timestamp is replaced by the synthetic counter's value at that
/// point.
pub open spec fn video_out_pts(
    ins: Seq<MediaPacket>,
    m: int,
    st: TimeBase,
    dt: TimeBase,
    ot: TimeBase,
) -> Option<i64> {
    match ins[m].pts {
        Some(v) => Some(rescale_spec(rescale_spec(v as int, st, dt), dt, ot) as i64),
        None => Some(rescale_spec(nones_pkts(ins, m), dt, ot) as i64),
    }
}

/// A decoded frame carries the packet's payload and its timestamp moved into
/// the decoder's time base.
pub open spec fn frame_matches(f: VideoFrame, p: MediaPacket, st: TimeBase, dt: TimeBase) -> bool {
    f.pts == rescale_opt_spec(p.pts, st, dt) && f.data@ == p.data@
}

/// An encoded packet still pending in the encoder window.
pub open spec fn encpkt_matches(
    ep: EncodedPacket,
    p: MediaPacket,
    st: TimeBase,
    dt: TimeBase,
) -> bool {
    ep.pts == rescale_opt_spec(p.pts, st, dt) && ep.data@ == p.data@
}

/// A written packet of a transcoded stream.
pub open spec fn video_written_ok(
    w: OutPacket,
    ins: Seq<MediaPacket>,
    m: int,
    st: TimeBase,
    dt: TimeBase,
    ot: TimeBase,
    ost: int,
) -> bool {
    &&& w.ost_index == ost
    &&& w.position == -1
    &&& w.data@ == ins[m].data@
    &&& w.pts == video_out_pts(ins, m, st, dt, ot)
}

/// A written packet of a copied stream: payload kept byte for byte, source
/// position marked unknown, timestamp rescaled from the input stream's time
/// base to the output stream's.
pub open spec fn copy_written_ok(
    w: OutPacket,
    p: MediaPacket,
    st: TimeBase,
    ot: TimeBase,
    ost: int,
) -> bool {
    &&& w.ost_index == ost
    &&& w.position == -1
    &&& w.data@ == p.data@
    &&& w.pts == rescale_opt_spec(p.pts, st, ot)
}

/// State of a copied stream after any prefix of the input: one written
/// packet per input packet, in order.
pub open spec fn copy_inv(
    ins: Seq<MediaPacket>,
    ws: Seq<OutPacket>,
    st: TimeBase,
    ot: TimeBase,
    ost: int,
) -> bool {
    &&& out_pkts(ws, ost).len() == ins.len()
    &&& forall|m: int|
        0 <= m < ins.len() ==> copy_written_ok(#[trigger] out_pkts(ws, ost)[m], ins[m], st, ot, ost)
}

/// Mid-run state of one transcoded stream: everything ahead of the two
/// reorder windows has been written, and both windows hold exactly the
/// frames of the packets in between, all determined by the packets seen so
/// far.
pub open spec fn transcode_rel(
    t: Transcoder,
    ins: Seq<MediaPacket>,
    ws: Seq<OutPacket>,
    st: TimeBase,
    ot: TimeBase,
    ost: int,
) -> bool {
    let n = ins.len() as int;
    let dlen = t.decoder.buf@.len() as int;
    let c1 = n - dlen;
    let elen = t.encoder.buf@.len() as int;
    let w = c1 - elen;
    &&& t.ost_index == ost
    &&& t.decoder.time_base == st
    &&& 0 <= w
    &&& c1 <= n
    &&& t.frame_count == c1
    &&& (forall|j: int|
        0 <= j < dlen ==> frame_matches(#[trigger] t.decoder.buf@[j], ins[c1 + j], st, st))
    &&& (forall|j: int|
        0 <= j < elen ==> encpkt_matches(#[trigger] t.encoder.buf@[j], ins[w + j], st, st))
    &&& t.next_synth_pts == nones_pkts(ins, w)
    &&& out_pkts(ws, ost).len() == w
    &&& (forall|m: int|
        0 <= m < w ==> video_written_ok(#[trigger] out_pkts(ws, ost)[m], ins, m, st, st, ot, ost))
}

/// Final state of a transcoded stream after the flush: one written packet
/// per input packet, in order.
pub open spec fn video_post(
    ins: Seq<MediaPacket>,
    ws: Seq<OutPacket>,
    st: TimeBase,
    ot: TimeBase,
    ost: int,
) -> bool {
    &&& out_pkts(ws, ost).len() == ins.len()
    &&& forall|m: int|
        0 <= m < ins.len() ==> video_written_ok(
            #[trigger] out_pkts(ws, ost)[m],
            ins,
            m,
            st,
            st,
            ot,
            ost,
        )
}

pub proof fn lemma_stream_pkts_len(ps: Seq<MediaPacket>, i: int)
    ensures
        stream_pkts(ps, i).len() <= ps.len(),
    decreases ps.len(),
{
    if ps.len() > 0 {
        lemma_stream_pkts_len(ps.drop_last(), i);
    }
}

/// The demultiplexed input container.
pub struct InputContext {
    pub streams: Vec<StreamConfig>,
    pub packets: Vec<MediaPacket>,
    pub metadata: String,
}

impl InputContext {
    pub open spec fn wf(self) -> bool {
        &&& forall|i: int| 0 <= i < self.streams@.len() ==> (#[trigger] self.streams@[i]).wf()
        &&& forall|k: int|
            0 <= k < self.packets@.len() ==> (#[trigger] self.packets@[k]).stream_index
                < self.streams@.len() && self.packets@[k].wf()
        &&& self.packets@.len() < i64::MAX
    }
}

/// What the pipeline does with one input stream.
#[derive(Clone, Copy, PartialEq, Eq, Structural, Debug)]
pub enum StreamRole {
    /// Not a media kind the output carries.
    Dropped,
    /// Passthrough to the output stream.
    Copy { ost: usize },
    /// Decoded and re-encoded by the transcoder at this table index.
    Transcode { t: usize },
}

/// A pipeline failure surfaced to the caller.
#[derive(Clone, Copy, PartialEq, Eq, Structural, Debug)]
pub enum PipelineError {
    /// The encoder option string is not a comma-separated list of
    /// `key=value` pairs.
    InvalidOptions,
}

/// Byte-for-byte copy of a payload.
pub fn copy_bytes(v: &Vec<u8>) -> (r: Vec<u8>)
    ensures
        r@ == v@,
{
    let mut r: Vec<u8> = Vec::new();
    let mut i: usize = 0;
    while i < v.len()
        invariant
            i <= v@.len(),
            r@ == v@.take(i as int),
        decreases v@.len() - i,
    {
        r.push(v[i]);
        i += 1;
        proof {
            assert(v@.take(i as int).drop_last() =~= v@.take(i as int - 1));
            assert(r@ =~= v@.take(i as int));
        }
    }
    proof {
        assert(v@.take(v@.len() as int) =~= v@);
    }
    r
}

/// First position in `[i, b)` holding `c`, or `b`.
pub open spec fn scan_to(s: Seq<char>, i: int, b: int, c: char) -> int
    decreases b - i,
        when 0 <= i <= b <= s.len()
{
    if i < b && s[i] != c {
        scan_to(s, i + 1, b, c)
    } else {
        i
    }
}

/// The `key=value` reading of `s[a..b]`: exactly one `=` splits it.
pub open spec fn kv_of(s: Seq<char>, a: int, b: int) -> Option<(Seq<char>, Seq<char>)> {
    let q = scan_to(s, a, b, '=');
    if q == b {
        None
    } else if scan_to(s, q + 1, b, '=') < b {
        None
    } else {
        Some((s.subrange(a, q), s.subrange(q + 1, b)))
    }
}

pub proof fn lemma_scan_to_bounds(s: Seq<char>, i: int, b: int, c: char)
    requires
        0 <= i <= b <= s.len(),
    ensures
        i <= scan_to(s, i, b, c) <= b,
    decreases b - i,
{
    if i < b && s[i] != c {
        lemma_scan_to_bounds(s, i + 1, b, c);
    }
}

#[via_fn]
proof fn parse_opts_from_dec(s: Seq<char>, i: int) {
    if 0 <= i && i < s.len() {
        lemma_scan_to_bounds(s, i, s.len() as int, ',');
    }
}

/// Parses `s[i..]` as comma-separated `key=value` pairs, the comma a
/// terminator: a trailing comma ends the list.
pub open spec fn parse_opts_from(s: Seq<char>, i: int) -> Option<Seq<(Seq<char>, Seq<char>)>>
    decreases s.len() - i,
        when 0 <= i <= s.len()
        via parse_opts_from_dec
{
    if i >= s.len() {
        Some(Seq::empty())
    } else {
        let p = scan_to(s, i, s.len() as int, ',');
        match kv_of(s, i, p) {
            None => None,
            Some(pair) => {
                if p == s.len() {
                    Some(seq![pair])
                } else {
                    match parse_opts_from(s, p + 1) {
                        None => None,
                        Some(rest) => Some(seq![pair] + rest),
                    }
                }
            },
        }
    }
}

/// The option pairs `s` denotes, or nothing when some piece is not a single
/// `key=value`.
pub open spec fn parse_opts_spec(s: Seq<char>) -> Option<Seq<(Seq<char>, Seq<char>)>> {
    parse_opts_from(s, 0)
}

/// View of collected pairs.
pub open spec fn pairs_view(v: Seq<(String, String)>) -> Seq<(Seq<char>, Seq<char>)> {
    v.map_values(|p: (String, String)| (p.0@, p.1@))
}

fn scan_to_char(s: &str, from: usize, b: usize, c: char) -> (r: usize)
    requires
        from <= b <= s@.len(),
    ensures
        from <= r <= b,
        r == scan_to(s@, from as int, b as int, c),
{
    let mut i = from;
    let mut done = false;
    while !done
        invariant
            from <= i <= b <= s@.len(),
            scan_to(s@, from as int, b as int, c) == scan_to(s@, i as int, b as int, c),
            done ==> scan_to(s@, i as int, b as int, c) == i as int,
        decreases b - i + (if done { 0int } else { 1int }),
    {
        if i < b {
            let x = s.get_char(i);
            if x != c {
                i += 1;
            } else {
                done = true;
            }
        } else {
            done = true;
        }
    }
    i
}

/// Parses an option string such as `preset=medium` into its pairs; fails on
/// any piece that is not exactly one `key=value`.
pub fn parse_opts(s: &str) -> (r: Option<Vec<(String, String)>>)
    ensures
        r.is_some() == parse_opts_spec(s@).is_some(),
        r.is_some() ==> pairs_view(r.unwrap()@) == parse_opts_spec(s@).unwrap(),
{
    let n = s.unicode_len();
    let mut out: Vec<(String, String)> = Vec::new();
    let mut pos: usize = 0;
    let mut failed = false;
    proof {
        assert(pairs_view(out@) =~= Seq::<(Seq<char>, Seq<char>)>::empty());
        match parse_opts_from(s@, 0) {
            Some(rest) => {
                assert(pairs_view(out@) + rest =~= rest);
            },
            None => {},
        }
    }
    while pos < n && !failed
        invariant
            n == s@.len(),
            0 <= pos <= n,
            !failed ==> (match parse_opts_from(s@, pos as int) {
                Some(rest) => parse_opts_from(s@, 0) matches Some(full) && full == pairs_view(
                    out@,
                ) + rest,
                None => parse_opts_from(s@, 0) is None,
            }),
            failed ==> parse_opts_from(s@, 0) is None,
        decreases n - pos + (if failed { 0int } else { 1int }),
    {
        let ghost pos0 = pos as int;
        let p = scan_to_char(s, pos, n, ',');
        let q = scan_to_char(s, pos, p, '=');
        if q == p {
            failed = true;
            proof {
                assert(kv_of(s@, pos0, p as int) is None);
                assert(parse_opts_from(s@, pos0) is None);
            }
        } else {
            let q2 = scan_to_char(s, q + 1, p, '=');
            if q2 < p {
                failed = true;
                proof {
                    assert(kv_of(s@, pos0, p as int) is None);
                    assert(parse_opts_from(s@, pos0) is None);
                }
            } else {
                let key = String::from_str(s.substring_char(pos, q));
                let val = String::from_str(s.substring_char(q + 1, p));
                let ghost pre = pairs_view(out@);
                let ghost pair = (key@, val@);
                proof {
                    assert(kv_of(s@, pos0, p as int) == Some(pair));
                }
                out.push((key, val));
                proof {
                    assert(pairs_view(out@) =~= pre.push(pair));
                }
                if p == n {
                    pos = n;
                    proof {
                        assert(parse_opts_from(s@, pos0) == Some(seq![pair]));
                        assert(pre + seq![pair] =~= pairs_view(out@));
                        assert(parse_opts_from(s@, n as int) == Some(
                            Seq::<(Seq<char>, Seq<char>)>::empty(),
                        ));
                        assert(pairs_view(out@) + Seq::<(Seq<char>, Seq<char>)>::empty()
                            =~= pairs_view(out@));
                    }
                } else {
                    pos = p + 1;
                    proof {
                        match parse_opts_from(s@, p as int + 1) {
                            Some(rest) => {
                                assert(parse_opts_from(s@, pos0) == Some(seq![pair] + rest));
                                assert(pre + (seq![pair] + rest) =~= pairs_view(out@) + rest);
                            },
                            None => {
                                assert(parse_opts_from(s@, pos0) is None);
                            },
                        }
                    }
                }
            }
        }
    }
    if failed {
        None
    } else {
        proof {
            assert(parse_opts_from(s@, pos as int) == Some(Seq::<(Seq<char>, Seq<char>)>::empty()));
            assert(pairs_view(out@) + Seq::<(Seq<char>, Seq<char>)>::empty() =~= pairs_view(out@));
        }
        Some(out)
    }
}

/// The time base the output stream for `sc` is given: the inverse frame
/// rate for video, the input's own time base for a copied stream.
pub open spec fn out_tb_of(sc: StreamConfig) -> TimeBase {
    if sc.kind == MediaKind::Video {
        TimeBase { num: sc.frame_rate.den, den: sc.frame_rate.num }
    } else {
        sc.time_base
    }
}

/// How one input stream's role must relate to its classification.
pub open spec fn role_ok(r: StreamRole, streams: Seq<StreamConfig>, i: int) -> bool {
    match r {
        StreamRole::Dropped => !kept_kind(streams[i].kind),
        StreamRole::Copy { ost } => kept_kind(streams[i].kind) && streams[i].kind
            != MediaKind::Video && ost == ost_of(streams, i),
        StreamRole::Transcode { t } => streams[i].kind == MediaKind::Video && t == video_count(
            streams,
            i,
        ),
    }
}

/// The fixed stream classification produced by the mapping phase.
pub open spec fn streams_mapped(
    streams: Seq<StreamConfig>,
    roles: Seq<StreamRole>,
    vids: Seq<int>,
    nt: int,
    octx: OutputContext,
) -> bool {
    &&& roles.len() == streams.len()
    &&& (forall|i: int| 0 <= i < streams.len() ==> role_ok(#[trigger] roles[i], streams, i))
    &&& nt == video_count(streams, streams.len() as int)
    &&& vids.len() == nt
    &&& (forall|t: int|
        0 <= t < nt ==> 0 <= #[trigger] vids[t] < streams.len() && streams[vids[t]].kind
            == MediaKind::Video && video_count(streams, vids[t]) == t)
    &&& (forall|i: int|
        0 <= i < streams.len() && #[trigger] streams[i].kind == MediaKind::Video ==> vids[
            video_count(streams, i)] == i)
    &&& octx.stream_time_bases@.len() == n_kept(streams)
    &&& octx.stream_codec_tags@.len() == n_kept(streams)
    &&& (forall|j: int| 0 <= j < octx.stream_codec_tags@.len() ==> #[trigger] octx.stream_codec_tags@[j] == 0)
    &&& (forall|i: int|
        0 <= i < streams.len() && kept_kind((#[trigger] streams[i]).kind)
            ==> octx.stream_time_bases@[ost_of(streams, i)] == out_tb_of(streams[i]))
}

/// Every still-running transcoder's state is determined by the packets its
/// stream has seen.
pub open spec fn transcoders_ok(
    transcoders: Seq<Transcoder>,
    vids: Seq<int>,
    streams: Seq<StreamConfig>,
    pre: Seq<MediaPacket>,
    ws: Seq<OutPacket>,
    dd: int,
    ed: int,
    now_ms: u64,
    lo: int,
) -> bool {
    forall|t: int|
        lo <= t < transcoders.len() ==> (transcode_rel(
            #[trigger] transcoders[t],
            stream_pkts(pre, vids[t]),
            ws,
            streams[vids[t]].time_base,
            out_tb_of(streams[vids[t]]),
            ost_of(streams, vids[t]),
        ) && transcoders[t].decoder.delay == dd && transcoders[t].encoder.delay == ed
            && !transcoders[t].decoder.eof && !transcoders[t].encoder.eof
            && transcoders[t].encoder.buf@.len() <= ed && transcoders[t].wf()
            && transcoders[t].starting_time_ms <= now_ms)
}

/// Every copied stream's written packets mirror the packets it has seen.
pub open spec fn copies_ok(
    streams: Seq<StreamConfig>,
    pre: Seq<MediaPacket>,
    ws: Seq<OutPacket>,
) -> bool {
    forall|i: int|
        0 <= i < streams.len() && kept_kind((#[trigger] streams[i]).kind) && streams[i].kind
            != MediaKind::Video ==> copy_inv(
            stream_pkts(pre, i),
            ws,
            streams[i].time_base,
            out_tb_of(streams[i]),
            ost_of(streams, i),
        )
}

/// Already-flushed transcoded streams have all their packets written.
pub open spec fn flushed_ok(
    streams: Seq<StreamConfig>,
    vids: Seq<int>,
    packets: Seq<MediaPacket>,
    ws: Seq<OutPacket>,
    hi: int,
) -> bool {
    forall|t: int|
        0 <= t < hi ==> video_post(
            stream_pkts(packets, #[trigger] vids[t]),
            ws,
            streams[vids[t]].time_base,
            out_tb_of(streams[vids[t]]),
            ost_of(streams, vids[t]),
        )
}

/// Everything the finished pipeline guarantees about the produced output:
/// header and trailer written, metadata copied, one output stream per kept
/// input stream with the right time base and a cleared container codec tag,
/// every written packet belonging to a kept output stream (so a dropped
/// stream contributes nothing), every copied stream passed through byte for
/// byte with rescaled timestamps, and every transcoded stream re-encoded
/// packet for packet with exact timestamp bookkeeping.
pub open spec fn pipeline_post(
    octx: OutputContext,
    streams: Seq<StreamConfig>,
    packets: Seq<MediaPacket>,
    metadata: Seq<char>,
) -> bool {
    &&& octx.header_written
    &&& octx.trailer_written
    &&& octx.metadata@ == metadata
    &&& octx.stream_time_bases@.len() == n_kept(streams)
    &&& octx.stream_codec_tags@.len() == n_kept(streams)
    &&& (forall|j: int| 0 <= j < octx.stream_codec_tags@.len() ==> #[trigger] octx.stream_codec_tags@[j] == 0)
    &&& (forall|s: int|
        0 <= s < streams.len() && kept_kind((#[trigger] streams[s]).kind)
            ==> octx.stream_time_bases@[ost_of(streams, s)] == out_tb_of(streams[s]))
    &&& (forall|k: int|
        0 <= k < octx.written@.len() ==> (#[trigger] octx.written@[k]).ost_index < n_kept(streams))
    &&& copies_ok(streams, packets, octx.written@)
    &&& (forall|s: int|
        0 <= s < streams.len() && (#[trigger] streams[s]).kind == MediaKind::Video ==> video_post(
            stream_pkts(packets, s),
            octx.written@,
            streams[s].time_base,
            out_tb_of(streams[s]),
            ost_of(streams, s),
        ))
}

/// Core of the drain proofs: writing the block of packets a drain emits for
/// encoded packets `src[0..k]` extends the stream's written packets exactly
/// and leaves every other output stream untouched.
proof fn lemma_emit_block(
    src: Seq<EncodedPacket>,
    k: int,
    ins: Seq<MediaPacket>,
    w: int,
    ws1: Seq<OutPacket>,
    ws2: Seq<OutPacket>,
    synth: int,
    st: TimeBase,
    ot: TimeBase,
    ost: int,
)
    requires
        0 <= k <= src.len(),
        0 <= w,
        w + src.len() <= ins.len(),
        st.wf(),
        ot.wf(),
        forall|m: int| 0 <= m < ins.len() ==> (#[trigger] ins[m]).wf(),
        forall|j: int| 0 <= j < src.len() ==> encpkt_matches(#[trigger] src[j], ins[w + j], st, st),
        synth == nones_pkts(ins, w),
        out_pkts(ws1, ost).len() == w,
        forall|m: int|
            0 <= m < w ==> video_written_ok(#[trigger] out_pkts(ws1, ost)[m], ins, m, st, st, ot, ost),
        ws2.len() == ws1.len() + k,
        ws2.subrange(0, ws1.len() as int) == ws1,
        forall|j: int|
            0 <= j < k ==> emitted_pkt_ok(
                #[trigger] ws2[ws1.len() + j],
                src[j],
                synth + nones_enc(src, j),
                ost,
                st,
                ot,
            ),
    ensures
        out_pkts(ws2, ost).len() == w + k,
        forall|m: int|
            0 <= m < w + k ==> video_written_ok(
                #[trigger] out_pkts(ws2, ost)[m],
                ins,
                m,
                st,
                st,
                ot,
                ost,
            ),
        nones_pkts(ins, w + k) == synth + nones_enc(src, k),
        forall|q: int| q != ost ==> out_pkts(ws2, q) == out_pkts(ws1, q),
{
    assert forall|j: int| ws1.len() <= j < ws2.len() implies (#[trigger] ws2[j]).ost_index
        == ost by {
        assert(emitted_pkt_ok(
            ws2[ws1.len() + (j - ws1.len())],
            src[j - ws1.len()],
            synth + nones_enc(src, j - ws1.len()),
            ost,
            st,
            ot,
        ));
    }
    lemma_out_pkts_extend(ws2, ws1, ost);
    assert forall|jj: int| 0 <= jj < src.len() implies ((#[trigger] src[jj].pts) is None <==> ins[w
        + jj].pts is None) by {
        assert(encpkt_matches(src[jj], ins[w + jj], st, st));
    }
    lemma_nones_align(src, ins, w, k);
    assert(out_pkts(ws2, ost).len() == w + k);
    assert forall|m: int| 0 <= m < w + k implies video_written_ok(
        #[trigger] out_pkts(ws2, ost)[m],
        ins,
        m,
        st,
        st,
        ot,
        ost,
    ) by {
        if m < w {
            assert(out_pkts(ws2, ost)[m] == out_pkts(ws1, ost)[m]);
            assert(video_written_ok(out_pkts(ws1, ost)[m], ins, m, st, st, ot, ost));
        } else {
            let j = m - w;
            assert(out_pkts(ws2, ost)[m] == ws2.skip(ws1.len() as int)[j]);
            assert(out_pkts(ws2, ost)[m] == ws2[ws1.len() + j]);
            assert(emitted_pkt_ok(
                ws2[ws1.len() + j],
                src[j],
                synth + nones_enc(src, j),
                ost,
                st,
                ot,
            ));
            assert(encpkt_matches(src[j], ins[w + j], st, st));
            lemma_nones_align(src, ins, w, j);
            assert(synth + nones_enc(src, j) == nones_pkts(ins, m));
            assert(ins[m].wf());
            match ins[m].pts {
                Some(v) => {
                    crate::timebase::lemma_rescale_nonneg(v as int, st, st);
                },
                None => {},
            }
        }
    }
}

/// Draining the decoder's ready frames through the encoder keeps the
/// stream's mid-run state.
proof fn lemma_frames_drain(
    tr1: Transcoder,
    tr2: Transcoder,
    ws1: Seq<OutPacket>,
    ws2: Seq<OutPacket>,
    ins: Seq<MediaPacket>,
    st: TimeBase,
    ot: TimeBase,
    ost: int,
)
    requires
        transcode_rel(tr1, ins, ws1, st, ot, ost),
        st.wf(),
        ot.wf(),
        forall|m: int| 0 <= m < ins.len() ==> (#[trigger] ins[m]).wf(),
        tr2.ost_index == tr1.ost_index,
        tr2.decoder.time_base == tr1.decoder.time_base,
        tr2.frame_count == tr1.frame_count + dec_ready(tr1.decoder),
        tr2.decoder.buf@ == tr1.decoder.buf@.skip(dec_ready(tr1.decoder)),
        tr2.encoder.buf@ == pending_enc(tr1).skip(pending_out_count(tr1)),
        tr2.next_synth_pts == tr1.next_synth_pts + nones_enc(
            pending_enc(tr1),
            pending_out_count(tr1),
        ),
        ws2.len() == ws1.len() + pending_out_count(tr1),
        ws2.subrange(0, ws1.len() as int) == ws1,
        forall|j: int|
            0 <= j < pending_out_count(tr1) ==> emitted_pkt_ok(
                #[trigger] ws2[ws1.len() + j],
                pending_enc(tr1)[j],
                tr1.next_synth_pts + nones_enc(pending_enc(tr1), j),
                tr1.ost_index as int,
                tr1.decoder.time_base,
                ot,
            ),
    ensures
        transcode_rel(tr2, ins, ws2, st, ot, ost),
        forall|q: int| q != ost ==> out_pkts(ws2, q) == out_pkts(ws1, q),
{
    let n = ins.len() as int;
    let dlen = tr1.decoder.buf@.len() as int;
    let c1 = n - dlen;
    let elen = tr1.encoder.buf@.len() as int;
    let w = c1 - elen;
    let rdy = dec_ready(tr1.decoder);
    let pend = pending_enc(tr1);
    let kout = pending_out_count(tr1);
    assert(0 <= rdy <= dlen);
    assert(pend.len() == elen + rdy);
    assert(0 <= kout <= pend.len());
    assert forall|j: int| 0 <= j < pend.len() implies encpkt_matches(
        #[trigger] pend[j],
        ins[w + j],
        st,
        st,
    ) by {
        if j < elen {
            assert(pend[j] == tr1.encoder.buf@[j]);
            assert(encpkt_matches(tr1.encoder.buf@[j], ins[w + j], st, st));
        } else {
            let jj = j - elen;
            assert(pend[j] == tr1.decoder.buf@.take(rdy).map_values(
                |f: VideoFrame| enc_of(f),
            )[jj]);
            assert(pend[j] == enc_of(tr1.decoder.buf@.take(rdy)[jj]));
            assert(tr1.decoder.buf@.take(rdy)[jj] == tr1.decoder.buf@[jj]);
            assert(frame_matches(tr1.decoder.buf@[jj], ins[c1 + jj], st, st));
            assert(w + j == c1 + jj);
        }
    }
    lemma_emit_block(pend, kout, ins, w, ws1, ws2, tr1.next_synth_pts as int, st, ot, ost);
    assert forall|j: int|
        0 <= j < tr2.decoder.buf@.len() implies frame_matches(
        #[trigger] tr2.decoder.buf@[j],
        ins[(n - tr2.decoder.buf@.len()) + j],
        st,
        st,
    ) by {
        assert(tr2.decoder.buf@[j] == tr1.decoder.buf@[rdy + j]);
        assert(frame_matches(tr1.decoder.buf@[rdy + j], ins[c1 + rdy + j], st, st));
    }
    assert forall|j: int|
        0 <= j < tr2.encoder.buf@.len() implies encpkt_matches(
        #[trigger] tr2.encoder.buf@[j],
        ins[(w + kout) + j],
        st,
        st,
    ) by {
        assert(tr2.encoder.buf@[j] == pend[kout + j]);
        assert(encpkt_matches(pend[kout + j], ins[w + kout + j], st, st));
    }
}

/// Draining the encoder's ready packets keeps the stream's mid-run state.
proof fn lemma_packets_drain(
    tr1: Transcoder,
    tr2: Transcoder,
    ws1: Seq<OutPacket>,
    ws2: Seq<OutPacket>,
    ins: Seq<MediaPacket>,
    st: TimeBase,
    ot: TimeBase,
    ost: int,
)
    requires
        transcode_rel(tr1, ins, ws1, st, ot, ost),
        st.wf(),
        ot.wf(),
        forall|m: int| 0 <= m < ins.len() ==> (#[trigger] ins[m]).wf(),
        tr2.ost_index == tr1.ost_index,
        tr2.decoder == tr1.decoder,
        tr2.frame_count == tr1.frame_count,
        tr2.encoder.buf@ == tr1.encoder.buf@.skip(enc_ready(tr1.encoder)),
        tr2.next_synth_pts == tr1.next_synth_pts + nones_enc(
            tr1.encoder.buf@,
            enc_ready(tr1.encoder),
        ),
        ws2.len() == ws1.len() + enc_ready(tr1.encoder),
        ws2.subrange(0, ws1.len() as int) == ws1,
        forall|j: int|
            0 <= j < enc_ready(tr1.encoder) ==> emitted_pkt_ok(
                #[trigger] ws2[ws1.len() + j],
                tr1.encoder.buf@[j],
                tr1.next_synth_pts + nones_enc(tr1.encoder.buf@, j),
                tr1.ost_index as int,
                tr1.decoder.time_base,
                ot,
            ),
    ensures
        transcode_rel(tr2, ins, ws2, st, ot, ost),
        forall|q: int| q != ost ==> out_pkts(ws2, q) == out_pkts(ws1, q),
{
    let n = ins.len() as int;
    let dlen = tr1.decoder.buf@.len() as int;
    let c1 = n - dlen;
    let elen = tr1.encoder.buf@.len() as int;
    let w = c1 - elen;
    let rdy = enc_ready(tr1.encoder);
    assert(0 <= rdy <= elen);
    lemma_emit_block(tr1.encoder.buf@, rdy, ins, w, ws1, ws2, tr1.next_synth_pts as int, st, ot, ost);
    assert forall|j: int|
        0 <= j < tr2.encoder.buf@.len() implies encpkt_matches(
        #[trigger] tr2.encoder.buf@[j],
        ins[(w + rdy) + j],
        st,
        st,
    ) by {
        assert(tr2.encoder.buf@[j] == tr1.encoder.buf@[rdy + j]);
        assert(encpkt_matches(tr1.encoder.buf@[rdy + j], ins[w + rdy + j], st, st));
    }
}

/// Feeding one more packet of the stream into the decoder keeps the
/// mid-run state, now over the extended input.
proof fn lemma_transcode_push(
    tr0: Transcoder,
    tr1: Transcoder,
    ins0: Seq<MediaPacket>,
    p: MediaPacket,
    ws: Seq<OutPacket>,
    st: TimeBase,
    ot: TimeBase,
    ost: int,
)
    requires
        transcode_rel(tr0, ins0, ws, st, ot, ost),
        tr1.decoder.buf@.len() == tr0.decoder.buf@.len() + 1,
        forall|j: int|
            0 <= j < tr0.decoder.buf@.len() ==> #[trigger] tr1.decoder.buf@[j]
                == tr0.decoder.buf@[j],
        frame_matches(tr1.decoder.buf@.last(), p, st, st),
        tr1.decoder.time_base == tr0.decoder.time_base,
        tr1.encoder.buf@ == tr0.encoder.buf@,
        tr1.next_synth_pts == tr0.next_synth_pts,
        tr1.frame_count == tr0.frame_count,
        tr1.ost_index == tr0.ost_index,
    ensures
        transcode_rel(tr1, ins0.push(p), ws, st, ot, ost),
{
    let ins1 = ins0.push(p);
    let n0 = ins0.len() as int;
    let dlen0 = tr0.decoder.buf@.len() as int;
    let c1 = n0 - dlen0;
    let elen = tr0.encoder.buf@.len() as int;
    let w = c1 - elen;
    assert forall|j: int|
        0 <= j < dlen0 + 1 implies frame_matches(
        #[trigger] tr1.decoder.buf@[j],
        ins1[c1 + j],
        st,
        st,
    ) by {
        if j < dlen0 {
            assert(tr1.decoder.buf@[j] == tr0.decoder.buf@[j]);
            assert(frame_matches(tr0.decoder.buf@[j], ins0[c1 + j], st, st));
            assert(ins1[c1 + j] == ins0[c1 + j]);
        } else {
            assert(tr1.decoder.buf@[j] == tr1.decoder.buf@.last());
            assert(ins1[c1 + j] == p);
        }
    }
    assert forall|j: int|
        0 <= j < elen implies encpkt_matches(#[trigger] tr1.encoder.buf@[j], ins1[w + j], st, st) by {
        assert(encpkt_matches(tr0.encoder.buf@[j], ins0[w + j], st, st));
        assert(ins1[w + j] == ins0[w + j]);
    }
    lemma_nones_pkts_prefix(ins1, ins0, w);
    assert forall|m: int|
        0 <= m < w implies video_written_ok(
        #[trigger] out_pkts(ws, ost)[m],
        ins1,
        m,
        st,
        st,
        ot,
        ost,
    ) by {
        assert(video_written_ok(out_pkts(ws, ost)[m], ins0, m, st, st, ot, ost));
        assert(ins1[m] == ins0[m]);
        lemma_nones_pkts_prefix(ins1, ins0, m);
    }
}

pub proof fn lemma_ost_bounds(streams: Seq<StreamConfig>, i: int)
    requires
        0 <= i <= streams.len(),
    ensures
        0 <= ost_of(streams, i) <= i,
        0 <= video_count(streams, i) <= i,
    decreases i,
{
    if i > 0 {
        lemma_ost_bounds(streams, i - 1);
    }
}

/// A freshly constructed transcoder for stream `sc`.
pub open spec fn transcoder_fresh(
    t: Transcoder,
    sc: StreamConfig,
    ost: int,
    dd: int,
    ed: int,
    now_ms: u64,
    global_header: bool,
) -> bool {
    &&& t.ost_index == ost
    &&& t.decoder.time_base == sc.time_base
    &&& t.decoder.delay == dd
    &&& t.decoder.buf@.len() == 0
    &&& !t.decoder.eof
    &&& t.encoder.time_base == (TimeBase { num: sc.frame_rate.den, den: sc.frame_rate.num })
    &&& t.encoder.config == encoder_config_of(sc, global_header)
    &&& t.encoder.delay == ed
    &&& t.encoder.buf@.len() == 0
    &&& !t.encoder.eof
    &&& t.frame_count == 0
    &&& t.next_synth_pts == 0
    &&& t.starting_time_ms == now_ms
}

/// Runs the in-process transcode over a demultiplexed input: classifies
/// every stream and assigns dense output indices, copies the container
/// metadata, writes the header, processes the packets in container order
/// (copying, transcoding or dropping each by its stream's role), flushes
/// decoder and encoder of every transcoded stream, and writes the trailer.
#[verifier::rlimit(100)]
pub fn generate_hls(
    ictx: &InputContext,
    x264_opts: &str,
    decoder_delay: usize,
    encoder_delay: usize,
    needs_global_header: bool,
    now_ms: u64,
) -> (r: Result<OutputContext, PipelineError>)
    requires
        ictx.wf(),
    ensures
        r is Err <==> parse_opts_spec(x264_opts@) is None,
        r matches Ok(octx) ==> pipeline_post(octx, ictx.streams@, ictx.packets@, ictx.metadata@),
{
    let opts = parse_opts(x264_opts);
    if opts.is_none() {
        return Err(PipelineError::InvalidOptions);
    }
    let ghost streams = ictx.streams@;
    let ghost packets = ictx.packets@;
    let ns = ictx.streams.len();
    let np = ictx.packets.len();
    let mut octx = OutputContext::new(needs_global_header);
    let mut roles: Vec<StreamRole> = Vec::new();
    let mut transcoders: Vec<Transcoder> = Vec::new();
    let ghost mut vids: Seq<int> = Seq::empty();
    let mut si: usize = 0;
    while si < ns
        invariant
            ictx.wf(),
            streams == ictx.streams@,
            ns == streams.len(),
            si <= ns,
            roles@.len() == si,
            forall|i: int| 0 <= i < si ==> role_ok(#[trigger] roles@[i], streams, i),
            transcoders@.len() == video_count(streams, si as int),
            vids.len() == transcoders@.len(),
            forall|t: int|
                0 <= t < vids.len() ==> 0 <= #[trigger] vids[t] < si && streams[vids[t]].kind
                    == MediaKind::Video && video_count(streams, vids[t]) == t,
            forall|i: int|
                0 <= i < si && #[trigger] streams[i].kind == MediaKind::Video ==> vids[video_count(
                    streams,
                    i,
                )] == i,
            forall|t: int|
                0 <= t < transcoders@.len() ==> transcoder_fresh(
                    #[trigger] transcoders@[t],
                    streams[vids[t]],
                    ost_of(streams, vids[t]),
                    decoder_delay as int,
                    encoder_delay as int,
                    now_ms,
                    needs_global_header,
                ),
            !octx.header_written,
            !octx.trailer_written,
            octx.written@.len() == 0,
            octx.needs_global_header == needs_global_header,
            octx.stream_time_bases@.len() == ost_of(streams, si as int),
            octx.stream_codec_tags@.len() == ost_of(streams, si as int),
            forall|j: int|
                0 <= j < octx.stream_codec_tags@.len() ==> #[trigger] octx.stream_codec_tags@[j]
                    == 0,
            forall|i: int|
                0 <= i < si && kept_kind((#[trigger] streams[i]).kind)
                    ==> octx.stream_time_bases@[ost_of(streams, i)] == out_tb_of(streams[i]),
            octx.wf(),
        decreases ns - si,
    {
        proof {
            lemma_ost_bounds(streams, si as int);
            assert(streams[si as int].wf());
        }
        let sc = ictx.streams[si];
        match sc.kind {
            MediaKind::Video => {
                let t_idx = transcoders.len();
                let ost = octx.stream_time_bases.len();
                let tr = Transcoder::new(
                    &sc,
                    &mut octx,
                    ost,
                    decoder_delay,
                    encoder_delay,
                    true,
                    now_ms,
                );
                transcoders.push(tr);
                roles.push(StreamRole::Transcode { t: t_idx });
                proof {
                    vids = vids.push(si as int);
                    assert(video_count(streams, si as int + 1) == video_count(streams, si as int)
                        + 1);
                    assert(ost_of(streams, si as int + 1) == ost_of(streams, si as int) + 1);
                    assert(out_tb_of(streams[si as int]) == (TimeBase {
                        num: sc.frame_rate.den,
                        den: sc.frame_rate.num,
                    }));
                    assert(transcoder_fresh(
                        tr,
                        streams[si as int],
                        ost_of(streams, si as int),
                        decoder_delay as int,
                        encoder_delay as int,
                        now_ms,
                        needs_global_header,
                    ));
                    assert forall|i: int|
                        0 <= i < si as int + 1 && #[trigger] streams[i].kind == MediaKind::Video
                        implies vids[video_count(streams, i)] == i by {
                        lemma_ost_bounds(streams, i);
                        if i < si as int {
                            lemma_video_strict(streams, i, si as int);
                            assert(vids[video_count(streams, i)] == i);
                        } else {
                            assert(video_count(streams, si as int) == vids.len() - 1);
                            assert(vids[vids.len() - 1] == si as int);
                        }
                    }
                    assert forall|i: int|
                        0 <= i < si as int + 1 && kept_kind((#[trigger] streams[i]).kind)
                        implies octx.stream_time_bases@[ost_of(streams, i)] == out_tb_of(
                        streams[i],
                    ) by {
                        lemma_ost_bounds(streams, i);
                        if i < si as int {
                            lemma_ost_strict(streams, i, si as int);
                        }
                    }
                }
            },
            MediaKind::Audio => {
                // the container-specific codec tag is cleared on copy to avoid
                // incompatibility when muxing into a different container
                let ost = octx.add_stream(sc.time_base, 0);
                roles.push(StreamRole::Copy { ost });
                proof {
                    assert(ost_of(streams, si as int + 1) == ost_of(streams, si as int) + 1);
                    assert(video_count(streams, si as int + 1) == video_count(streams, si as int));
                    assert forall|i: int|
                        0 <= i < si as int + 1 && kept_kind((#[trigger] streams[i]).kind)
                        implies octx.stream_time_bases@[ost_of(streams, i)] == out_tb_of(
                        streams[i],
                    ) by {
                        lemma_ost_bounds(streams, i);
                        if i < si as int {
                            lemma_ost_strict(streams, i, si as int);
                        }
                    }
                }
            },
            MediaKind::Subtitle => {
                // the container-specific codec tag is cleared on copy to avoid
                // incompatibility when muxing into a different container
                let ost = octx.add_stream(sc.time_base, 0);
                roles.push(StreamRole::Copy { ost });
                proof {
                    assert(ost_of(streams, si as int + 1) == ost_of(streams, si as int) + 1);
                    assert(video_count(streams, si as int + 1) == video_count(streams, si as int));
                    assert forall|i: int|
                        0 <= i < si as int + 1 && kept_kind((#[trigger] streams[i]).kind)
                        implies octx.stream_time_bases@[ost_of(streams, i)] == out_tb_of(
                        streams[i],
                    ) by {
                        lemma_ost_bounds(streams, i);
                        if i < si as int {
                            lemma_ost_strict(streams, i, si as int);
                        }
                    }
                }
            },
            MediaKind::Other => {
                roles.push(StreamRole::Dropped);
                proof {
                    assert(ost_of(streams, si as int + 1) == ost_of(streams, si as int));
                    assert(video_count(streams, si as int + 1) == video_count(streams, si as int));
                }
            },
        }
        si += 1;
    }
    let md = String::from_str(ictx.metadata.as_str());
    octx.set_metadata(md);
    octx.write_header();
    let nt = transcoders.len();
    proof {
        assert(packets.take(0) =~= Seq::<MediaPacket>::empty());
        assert forall|i: int|
            0 <= i < streams.len() && kept_kind((#[trigger] streams[i]).kind) && streams[i].kind
                != MediaKind::Video implies copy_inv(
            stream_pkts(packets.take(0), i),
            octx.written@,
            streams[i].time_base,
            out_tb_of(streams[i]),
            ost_of(streams, i),
        ) by {
            assert(stream_pkts(packets.take(0), i) =~= Seq::<MediaPacket>::empty());
            assert(out_pkts(octx.written@, ost_of(streams, i)) =~= Seq::<OutPacket>::empty());
        }
        assert forall|t: int|
            0 <= t < transcoders@.len() implies transcode_rel(
            #[trigger] transcoders@[t],
            stream_pkts(packets.take(0), vids[t]),
            octx.written@,
            streams[vids[t]].time_base,
            out_tb_of(streams[vids[t]]),
            ost_of(streams, vids[t]),
        ) && transcoders@[t].wf() by {
            assert(stream_pkts(packets.take(0), vids[t]) =~= Seq::<MediaPacket>::empty());
            assert(out_pkts(octx.written@, ost_of(streams, vids[t])) =~= Seq::<
                OutPacket,
            >::empty());
            assert(nones_pkts(stream_pkts(packets.take(0), vids[t]), 0) == 0);
            assert(streams[vids[t]].wf());
            assert(transcoders@[t].decoder.time_base.wf());
            assert(transcoders@[t].encoder.time_base.wf());
        }
    }
    let mut pk: usize = 0;
    while pk < np
        invariant
            ictx.wf(),
            streams == ictx.streams@,
            packets == ictx.packets@,
            ns == streams.len(),
            np == packets.len(),
            pk <= np,
            nt == transcoders@.len(),
            streams_mapped(streams, roles@, vids, nt as int, octx),
            octx.header_written,
            !octx.trailer_written,
            octx.wf(),
            octx.metadata@ == ictx.metadata@,
            forall|k: int|
                0 <= k < octx.written@.len() ==> (#[trigger] octx.written@[k]).ost_index
                    < n_kept(streams),
            copies_ok(streams, packets.take(pk as int), octx.written@),
            transcoders_ok(
                transcoders@,
                vids,
                streams,
                packets.take(pk as int),
                octx.written@,
                decoder_delay as int,
                encoder_delay as int,
                now_ms,
                0,
            ),
        decreases np - pk,
    {
        let ghost pre = packets.take(pk as int);
        let ghost pre1 = packets.take(pk as int + 1);
        proof {
            assert(pre1 =~= pre.push(packets[pk as int]));
            assert(packets[pk as int].wf());
        }
        let pkt = &ictx.packets[pk];
        let sidx = pkt.stream_index;
        let role = roles[sidx];
        proof {
            assert(role_ok(roles@[sidx as int], streams, sidx as int));
        }
        match role {
            StreamRole::Dropped => {
                proof {
                    assert forall|i: int| 0 <= i < streams.len() && i != sidx implies stream_pkts(
                        pre1,
                        i,
                    ) == stream_pkts(pre, i) by {
                        lemma_stream_pkts_push(pre, packets[pk as int], i);
                    }
                    assert(!kept_kind(streams[sidx as int].kind));
                }
            },
            StreamRole::Copy { ost } => {
                let ghost s_int = sidx as int;
                proof {
                    assert(ost == ost_of(streams, s_int));
                    lemma_ost_strict(streams, s_int, streams.len() as int);
                    assert((ost as int) < n_kept(streams));
                    assert(streams[s_int].wf());
                    assert(octx.stream_time_bases@[ost as int] == out_tb_of(streams[s_int]));
                }
                let st = ictx.streams[sidx].time_base;
                let ot = octx.stream_time_base(ost);
                let new_pts = rescale_opt(pkt.pts, st, ot);
                let out = OutPacket {
                    ost_index: ost,
                    pts: new_pts,
                    position: -1i64,
                    data: copy_bytes(&pkt.data),
                };
                let ghost ws0 = octx.written@;
                octx.write_interleaved(out);
                proof {
                    lemma_stream_pkts_push(pre, packets[pk as int], s_int);
                    lemma_out_pkts_push(ws0, out, ost as int);
                    let ins0 = stream_pkts(pre, s_int);
                    let ins1 = stream_pkts(pre1, s_int);
                    assert(ins1 == ins0.push(packets[pk as int]));
                    assert(copy_inv(ins0, ws0, st, ot, ost as int));
                    assert(out_pkts(octx.written@, ost as int) == out_pkts(ws0, ost as int).push(
                        out,
                    ));
                    assert forall|m: int| 0 <= m < ins1.len() implies copy_written_ok(
                        #[trigger] out_pkts(octx.written@, ost as int)[m],
                        ins1[m],
                        st,
                        ot,
                        ost as int,
                    ) by {
                        if m < ins0.len() {
                            assert(out_pkts(octx.written@, ost as int)[m] == out_pkts(
                                ws0,
                                ost as int,
                            )[m]);
                            assert(copy_written_ok(
                                out_pkts(ws0, ost as int)[m],
                                ins0[m],
                                st,
                                ot,
                                ost as int,
                            ));
                        } else {
                            assert(out_pkts(octx.written@, ost as int)[m] == out);
                            assert(ins1[m] == packets[pk as int]);
                        }
                    }
                    assert(copy_inv(ins1, octx.written@, st, ot, ost as int));
                    assert forall|i: int|
                        0 <= i < streams.len() && i != s_int && kept_kind(
                            (#[trigger] streams[i]).kind,
                        ) implies stream_pkts(pre1, i) == stream_pkts(pre, i) && out_pkts(
                        octx.written@,
                        ost_of(streams, i),
                    ) == out_pkts(ws0, ost_of(streams, i)) by {
                        lemma_stream_pkts_push(pre, packets[pk as int], i);
                        lemma_out_pkts_push(ws0, out, ost_of(streams, i));
                        if i < s_int {
                            lemma_ost_strict(streams, i, s_int);
                        } else {
                            lemma_ost_strict(streams, s_int, i);
                        }
                        assert(ost_of(streams, i) != ost as int);
                    }
                    assert forall|i: int| 0 <= i < streams.len() && i != s_int implies stream_pkts(
                        pre1,
                        i,
                    ) == stream_pkts(pre, i) by {
                        lemma_stream_pkts_push(pre, packets[pk as int], i);
                    }
                    assert(copies_ok(streams, pre1, octx.written@));
                    assert(transcoders_ok(
                        transcoders@,
                        vids,
                        streams,
                        pre1,
                        octx.written@,
                        decoder_delay as int,
                        encoder_delay as int,
                        now_ms,
                        0,
                    ));
                    assert forall|k: int|
                        0 <= k < octx.written@.len() implies (
                    #[trigger] octx.written@[k]).ost_index < n_kept(streams) by {
                        if k < ws0.len() {
                            assert(octx.written@[k] == ws0[k]);
                        } else {
                            assert(octx.written@[k] == out);
                        }
                    }
                }
            },
            StreamRole::Transcode { t } => {
                let ghost s_int = sidx as int;
                proof {
                    assert(streams[s_int].kind == MediaKind::Video);
                    assert(t == video_count(streams, s_int));
                    lemma_video_strict(streams, s_int, streams.len() as int);
                    assert((t as int) < nt);
                    assert(vids[t as int] == s_int);
                    lemma_ost_strict(streams, s_int, streams.len() as int);
                    assert(streams[s_int].wf());
                }
                let st = ictx.streams[sidx].time_base;
                let ost = transcoders[t].ost_index;
                proof {
                    assert(transcode_rel(
                        transcoders@[t as int],
                        stream_pkts(pre, s_int),
                        octx.written@,
                        st,
                        out_tb_of(streams[s_int]),
                        ost_of(streams, s_int),
                    ));
                    assert(ost == ost_of(streams, s_int));
                    assert((ost as int) < n_kept(streams));
                }
                let ot = octx.stream_time_base(ost);
                let dec_tb = transcoders[t].decoder.time_base;
                proof {
                    assert(dec_tb == st);
                }
                let new_pts = rescale_opt(pkt.pts, st, dec_tb);
                let pkt2 = MediaPacket {
                    stream_index: sidx,
                    pts: new_pts,
                    data: copy_bytes(&pkt.data),
                };
                let ghost tr0 = transcoders@[t as int];
                let ghost ws0 = octx.written@;
                let ghost ins0 = stream_pkts(pre, s_int);
                let ghost ins1 = stream_pkts(pre1, s_int);
                proof {
                    lemma_stream_pkts_push(pre, packets[pk as int], s_int);
                    assert(ins1 == ins0.push(packets[pk as int]));
                    lemma_stream_pkts_len(pre1, s_int);
                    assert(ins1.len() <= pre1.len());
                    assert(forall|k: int| 0 <= k < pre1.len() ==> (#[trigger] pre1[k]).wf());
                    lemma_stream_pkts_wf(pre1, s_int);
                }
                let tr = &mut transcoders[t];
                tr.send_packet_to_decoder(pkt2);
                let ghost tr1 = *tr;
                proof {
                    lemma_transcode_push(tr0, tr1, ins0, packets[pk as int], ws0, st, ot, ost as int);
                    assert(transcode_rel(tr1, ins1, ws0, st, ot, ost as int));
                    // bounds for the drain call
                    let n1 = ins1.len() as int;
                    let dlen1 = tr1.decoder.buf@.len() as int;
                    let elen1 = tr1.encoder.buf@.len() as int;
                    let w1 = n1 - dlen1 - elen1;
                    lemma_nones_pkts_bound(ins1, w1);
                    assert(dec_ready(tr1.decoder) <= dlen1);
                    assert(tr1.next_synth_pts + elen1 + dec_ready(tr1.decoder) <= n1);
                    assert(n1 <= np < i64::MAX);
                    assert(tr1.frame_count + dec_ready(tr1.decoder) <= n1);
                }
                tr.receive_and_process_decoded_frames(&mut octx, ot, now_ms);
                proof {
                    let tr2 = transcoders@[t as int];
                    assert(tr2 == *tr);
                    lemma_frames_drain(tr1, tr2, ws0, octx.written@, ins1, st, ot, ost as int);
                    assert(transcode_rel(tr2, ins1, octx.written@, st, ot, ost as int));
                    // other streams untouched
                    assert forall|i: int| 0 <= i < streams.len() && i != s_int implies stream_pkts(
                        pre1,
                        i,
                    ) == stream_pkts(pre, i) by {
                        lemma_stream_pkts_push(pre, packets[pk as int], i);
                    }
                    assert forall|i: int|
                        0 <= i < streams.len() && i != s_int && kept_kind(
                            (#[trigger] streams[i]).kind,
                        ) implies out_pkts(octx.written@, ost_of(streams, i)) == out_pkts(
                        ws0,
                        ost_of(streams, i),
                    ) by {
                        if i < s_int {
                            lemma_ost_strict(streams, i, s_int);
                        } else {
                            lemma_ost_strict(streams, s_int, i);
                        }
                        assert(ost_of(streams, i) != ost as int);
                    }
                    assert(copies_ok(streams, pre1, octx.written@));
                    assert forall|tt: int| 0 <= tt < transcoders@.len() && tt != t implies
                        transcode_rel(
                        #[trigger] transcoders@[tt],
                        stream_pkts(pre1, vids[tt]),
                        octx.written@,
                        streams[vids[tt]].time_base,
                        out_tb_of(streams[vids[tt]]),
                        ost_of(streams, vids[tt]),
                    ) by {
                        assert(vids[tt] != s_int);
                        assert(stream_pkts(pre1, vids[tt]) == stream_pkts(pre, vids[tt]));
                        assert(out_pkts(octx.written@, ost_of(streams, vids[tt])) == out_pkts(
                            ws0,
                            ost_of(streams, vids[tt]),
                        ));
                        lemma_out_pkts_len_eq(
                            transcoders@[tt],
                            stream_pkts(pre, vids[tt]),
                            ws0,
                            octx.written@,
                            streams[vids[tt]].time_base,
                            out_tb_of(streams[vids[tt]]),
                            ost_of(streams, vids[tt]),
                        );
                    }
                    assert(transcoders_ok(
                        transcoders@,
                        vids,
                        streams,
                        pre1,
                        octx.written@,
                        decoder_delay as int,
                        encoder_delay as int,
                        now_ms,
                        0,
                    ));
                    assert forall|k: int|
                        0 <= k < octx.written@.len() implies (
                    #[trigger] octx.written@[k]).ost_index < n_kept(streams) by {
                        if k < ws0.len() {
                            assert(octx.written@[k] == octx.written@.subrange(
                                0,
                                ws0.len() as int,
                            )[k]);
                            assert(octx.written@[k] == ws0[k]);
                        } else {
                            let j = k - ws0.len();
                            assert(emitted_pkt_ok(
                                octx.written@[ws0.len() + j],
                                pending_enc(tr1)[j],
                                tr1.next_synth_pts + nones_enc(pending_enc(tr1), j),
                                tr1.ost_index as int,
                                tr1.decoder.time_base,
                                ot,
                            ));
                        }
                    }
                }
            },
        }
        pk += 1;
    }
    proof {
        assert(packets.take(np as int) =~= packets);
    }
    let mut fi: usize = 0;
    while fi < nt
        invariant
            ictx.wf(),
            streams == ictx.streams@,
            packets == ictx.packets@,
            ns == streams.len(),
            np == packets.len(),
            fi <= nt,
            nt == transcoders@.len(),
            streams_mapped(streams, roles@, vids, nt as int, octx),
            octx.header_written,
            !octx.trailer_written,
            octx.wf(),
            octx.metadata@ == ictx.metadata@,
            forall|k: int|
                0 <= k < octx.written@.len() ==> (#[trigger] octx.written@[k]).ost_index
                    < n_kept(streams),
            copies_ok(streams, packets, octx.written@),
            flushed_ok(streams, vids, packets, octx.written@, fi as int),
            transcoders_ok(
                transcoders@,
                vids,
                streams,
                packets,
                octx.written@,
                decoder_delay as int,
                encoder_delay as int,
                now_ms,
                fi as int,
            ),
        decreases nt - fi,
    {
        let ghost s_int = vids[fi as int];
        proof {
            assert(0 <= s_int < streams.len());
            assert(streams[s_int].kind == MediaKind::Video);
            lemma_ost_strict(streams, s_int, streams.len() as int);
            assert(streams[s_int].wf());
            assert(transcode_rel(
                transcoders@[fi as int],
                stream_pkts(packets, s_int),
                octx.written@,
                streams[s_int].time_base,
                out_tb_of(streams[s_int]),
                ost_of(streams, s_int),
            ));
        }
        let ost = transcoders[fi].ost_index;
        let ot = octx.stream_time_base(ost);
        let ghost st = streams[s_int].time_base;
        let ghost ins = stream_pkts(packets, s_int);
        let ghost tr0 = transcoders@[fi as int];
        let ghost ws0 = octx.written@;
        proof {
            lemma_stream_pkts_len(packets, s_int);
            assert(forall|k: int| 0 <= k < packets.len() ==> (#[trigger] packets[k]).wf());
            lemma_stream_pkts_wf(packets, s_int);
        }
        let tr = &mut transcoders[fi];
        tr.send_eof_to_decoder();
        let ghost tr1 = *tr;
        proof {
            assert(transcode_rel(tr1, ins, ws0, st, ot, ost as int));
            let n = ins.len() as int;
            let dlen1 = tr1.decoder.buf@.len() as int;
            let elen1 = tr1.encoder.buf@.len() as int;
            lemma_nones_pkts_bound(ins, n - dlen1 - elen1);
            assert(dec_ready(tr1.decoder) == dlen1);
            assert(tr1.next_synth_pts + elen1 + dec_ready(tr1.decoder) <= n);
            assert(n <= np < i64::MAX);
        }
        tr.receive_and_process_decoded_frames(&mut octx, ot, now_ms);
        let ghost tr2 = *tr;
        let ghost ws2 = octx.written@;
        proof {
            lemma_frames_drain(tr1, tr2, ws0, ws2, ins, st, ot, ost as int);
            assert(transcode_rel(tr2, ins, ws2, st, ot, ost as int));
        }
        tr.send_eof_to_encoder();
        let ghost tr3 = *tr;
        proof {
            assert(transcode_rel(tr3, ins, ws2, st, ot, ost as int));
            let n = ins.len() as int;
            let elen3 = tr3.encoder.buf@.len() as int;
            lemma_nones_pkts_bound(ins, n - tr3.decoder.buf@.len() - elen3);
            assert(tr3.next_synth_pts + elen3 <= n);
        }
        tr.receive_and_process_encoded_packets(&mut octx, ot);
        proof {
            let tr4 = transcoders@[fi as int];
            assert(tr4 == *tr);
            lemma_packets_drain(tr3, tr4, ws2, octx.written@, ins, st, ot, ost as int);
            assert(transcode_rel(tr4, ins, octx.written@, st, ot, ost as int));
            assert(tr4.decoder.buf@.len() == 0);
            assert(tr4.encoder.buf@.len() == 0);
            assert(out_pkts(octx.written@, ost as int).len() == ins.len());
            assert(video_post(ins, octx.written@, st, ot, ost as int));
            // everything else untouched
            assert forall|i: int|
                0 <= i < streams.len() && i != s_int && kept_kind(
                    (#[trigger] streams[i]).kind,
                ) implies out_pkts(octx.written@, ost_of(streams, i)) == out_pkts(
                ws0,
                ost_of(streams, i),
            ) by {
                if i < s_int {
                    lemma_ost_strict(streams, i, s_int);
                } else {
                    lemma_ost_strict(streams, s_int, i);
                }
                assert(ost_of(streams, i) != ost as int);
            }
            assert(copies_ok(streams, packets, octx.written@));
            assert forall|tt: int| 0 <= tt < nt && tt != fi implies vids[tt] != s_int by {}
            assert forall|tt: int| fi as int + 1 <= tt < transcoders@.len() implies transcode_rel(
                #[trigger] transcoders@[tt],
                stream_pkts(packets, vids[tt]),
                octx.written@,
                streams[vids[tt]].time_base,
                out_tb_of(streams[vids[tt]]),
                ost_of(streams, vids[tt]),
            ) by {
                assert(out_pkts(octx.written@, ost_of(streams, vids[tt])) == out_pkts(
                    ws0,
                    ost_of(streams, vids[tt]),
                ));
                lemma_out_pkts_len_eq(
                    transcoders@[tt],
                    stream_pkts(packets, vids[tt]),
                    ws0,
                    octx.written@,
                    streams[vids[tt]].time_base,
                    out_tb_of(streams[vids[tt]]),
                    ost_of(streams, vids[tt]),
                );
            }
            assert forall|tt: int| 0 <= tt < fi as int + 1 implies video_post(
                stream_pkts(packets, #[trigger] vids[tt]),
                octx.written@,
                streams[vids[tt]].time_base,
                out_tb_of(streams[vids[tt]]),
                ost_of(streams, vids[tt]),
            ) by {
                if tt < fi as int {
                    assert(video_post(
                        stream_pkts(packets, vids[tt]),
                        ws0,
                        streams[vids[tt]].time_base,
                        out_tb_of(streams[vids[tt]]),
                        ost_of(streams, vids[tt]),
                    ));
                    assert(out_pkts(octx.written@, ost_of(streams, vids[tt])) == out_pkts(
                        ws0,
                        ost_of(streams, vids[tt]),
                    ));
                }
            }
            assert forall|k: int|
                0 <= k < octx.written@.len() implies (#[trigger] octx.written@[k]).ost_index
                < n_kept(streams) by {
                if k < ws0.len() {
                    assert(ws2.subrange(0, ws0.len() as int)[k] == ws0[k]);
                    assert(octx.written@.subrange(0, ws2.len() as int)[k] == ws2[k]);
                    assert(octx.written@[k] == ws0[k]);
                } else if k < ws2.len() {
                    let j = k - ws0.len();
                    assert(emitted_pkt_ok(
                        ws2[ws0.len() + j],
                        pending_enc(tr1)[j],
                        tr1.next_synth_pts + nones_enc(pending_enc(tr1), j),
                        tr1.ost_index as int,
                        tr1.decoder.time_base,
                        ot,
                    ));
                    assert(octx.written@.subrange(0, ws2.len() as int)[k] == ws2[k]);
                    assert(octx.written@[k] == ws2[k]);
                } else {
                    let j = k - ws2.len();
                    assert(emitted_pkt_ok(
                        octx.written@[ws2.len() + j],
                        tr3.encoder.buf@[j],
                        tr3.next_synth_pts + nones_enc(tr3.encoder.buf@, j),
                        tr3.ost_index as int,
                        tr3.decoder.time_base,
                        ot,
                    ));
                }
            }
        }
        fi += 1;
    }
    octx.write_trailer();
    proof {
        assert forall|s: int|
            0 <= s < streams.len() && (#[trigger] streams[s]).kind == MediaKind::Video implies
            video_post(
            stream_pkts(packets, s),
            octx.written@,
            streams[s].time_base,
            out_tb_of(streams[s]),
            ost_of(streams, s),
        ) by {
            lemma_ost_bounds(streams, s);
            lemma_video_strict(streams, s, streams.len() as int);
            let t = video_count(streams, s);
            assert(vids[t] == s);
            assert(video_post(
                stream_pkts(packets, vids[t]),
                octx.written@,
                streams[vids[t]].time_base,
                out_tb_of(streams[vids[t]]),
                ost_of(streams, vids[t]),
            ));
        }
        assert(pipeline_post(octx, streams, packets, ictx.metadata@));
    }
    Ok(octx)
}

/// Streams whose output is untouched keep their mid-run state.
proof fn lemma_out_pkts_len_eq(
    t: Transcoder,
    ins: Seq<MediaPacket>,
    ws1: Seq<OutPacket>,
    ws2: Seq<OutPacket>,
    st: TimeBase,
    ot: TimeBase,
    ost: int,
)
    requires
        transcode_rel(t, ins, ws1, st, ot, ost),
        out_pkts(ws2, ost) == out_pkts(ws1, ost),
    ensures
        transcode_rel(t, ins, ws2, st, ot, ost),
{
}

/// Packets of one stream inherit well-formedness from the container.
proof fn lemma_stream_pkts_wf(pre: Seq<MediaPacket>, i: int)
    requires
        forall|k: int| 0 <= k < pre.len() ==> (#[trigger] pre[k]).wf(),
    ensures
        forall|m: int|
            0 <= m < stream_pkts(pre, i).len() ==> (#[trigger] stream_pkts(pre, i)[m]).wf(),
    decreases pre.len(),
{
    if pre.len() > 0 {
        let pl = pre.drop_last();
        assert(forall|k: int| 0 <= k < pl.len() ==> #[trigger] pl[k] == pre[k]);
        lemma_stream_pkts_wf(pl, i);
        assert forall|m: int|
            0 <= m < stream_pkts(pre, i).len() implies (#[trigger] stream_pkts(pre, i)[m]).wf() by {
            if pre.last().stream_index == i {
                if m < stream_pkts(pl, i).len() {
                    assert(stream_pkts(pre, i)[m] == stream_pkts(pl, i)[m]);
                } else {
                    assert(stream_pkts(pre, i)[m] == pre.last());
                }
            } else {
                assert(stream_pkts(pre, i)[m] == stream_pkts(pl, i)[m]);
            }
        }
    }
}

/// Input packets whose timestamps are all present and strictly increasing.
pub open spec fn pts_strictly_increasing(ins: Seq<MediaPacket>) -> bool {
    &&& forall|m: int| 0 <= m < ins.len() ==> (#[trigger] ins[m].pts) is Some
    &&& forall|m1: int, m2: int|
        0 <= m1 < m2 < ins.len() ==> (#[trigger] ins[m1].pts).unwrap() < (
        #[trigger] ins[m2].pts).unwrap()
}

/// Written packets whose timestamps are all present and never decrease.
pub open spec fn pts_nondecreasing(outs: Seq<OutPacket>) -> bool {
    &&& forall|m: int| 0 <= m < outs.len() ==> (#[trigger] outs[m].pts) is Some
    &&& forall|m1: int, m2: int|
        0 <= m1 < m2 < outs.len() ==> (#[trigger] outs[m1].pts).unwrap() <= (
        #[trigger] outs[m2].pts).unwrap()
}

/// Stream-copy passthrough: a copied stream's written packet count equals
/// its input packet count, and each written packet carries exactly the input
/// packet's payload bytes; only the timestamp and the stream index differ,
/// the source position being marked unknown.
pub proof fn lemma_copy_passthrough(
    ins: Seq<MediaPacket>,
    ws: Seq<OutPacket>,
    st: TimeBase,
    ot: TimeBase,
    ost: int,
)
    requires
        copy_inv(ins, ws, st, ot, ost),
    ensures
        out_pkts(ws, ost).len() == ins.len(),
        forall|m: int|
            0 <= m < ins.len() ==> (#[trigger] out_pkts(ws, ost)[m]).data@ == ins[m].data@
                && out_pkts(ws, ost)[m].position == -1 && out_pkts(ws, ost)[m].ost_index == ost,
{
    assert forall|m: int|
        0 <= m < ins.len() implies (#[trigger] out_pkts(ws, ost)[m]).data@ == ins[m].data@
        && out_pkts(ws, ost)[m].position == -1 && out_pkts(ws, ost)[m].ost_index == ost by {
        assert(copy_written_ok(out_pkts(ws, ost)[m], ins[m], st, ot, ost));
    }
}

/// Timestamp monotonicity of a copied stream: strictly increasing input
/// timestamps come out non-decreasing on its output stream.
pub proof fn lemma_copy_timestamps_monotone(
    ins: Seq<MediaPacket>,
    ws: Seq<OutPacket>,
    st: TimeBase,
    ot: TimeBase,
    ost: int,
)
    requires
        copy_inv(ins, ws, st, ot, ost),
        st.wf(),
        ot.wf(),
        forall|m: int| 0 <= m < ins.len() ==> (#[trigger] ins[m]).wf(),
        pts_strictly_increasing(ins),
    ensures
        pts_nondecreasing(out_pkts(ws, ost)),
{
    let outs = out_pkts(ws, ost);
    assert forall|m: int| 0 <= m < outs.len() implies (#[trigger] outs[m].pts) is Some by {
        assert(copy_written_ok(outs[m], ins[m], st, ot, ost));
        assert(ins[m].pts is Some);
    }
    assert forall|m1: int, m2: int|
        0 <= m1 < m2 < outs.len() implies (#[trigger] outs[m1].pts).unwrap() <= (
    #[trigger] outs[m2].pts).unwrap() by {
        assert(copy_written_ok(outs[m1], ins[m1], st, ot, ost));
        assert(copy_written_ok(outs[m2], ins[m2], st, ot, ost));
        let v1 = ins[m1].pts.unwrap();
        let v2 = ins[m2].pts.unwrap();
        assert(ins[m1].wf());
        assert(ins[m2].wf());
        assert(0 <= v1 < v2);
        crate::timebase::lemma_rescale_monotone(v1 as int, v2 as int, st, ot);
        crate::timebase::lemma_rescale_nonneg(v1 as int, st, ot);
        crate::timebase::lemma_rescale_nonneg(v2 as int, st, ot);
    }
}

/// Timestamp monotonicity of a transcoded stream: strictly increasing input
/// timestamps come out non-decreasing on its output stream.
pub proof fn lemma_video_timestamps_monotone(
    ins: Seq<MediaPacket>,
    ws: Seq<OutPacket>,
    st: TimeBase,
    ot: TimeBase,
    ost: int,
)
    requires
        video_post(ins, ws, st, ot, ost),
        st.wf(),
        ot.wf(),
        forall|m: int| 0 <= m < ins.len() ==> (#[trigger] ins[m]).wf(),
        pts_strictly_increasing(ins),
    ensures
        pts_nondecreasing(out_pkts(ws, ost)),
{
    let outs = out_pkts(ws, ost);
    assert forall|m: int| 0 <= m < outs.len() implies (#[trigger] outs[m].pts) is Some by {
        assert(video_written_ok(outs[m], ins, m, st, st, ot, ost));
    }
    assert forall|m1: int, m2: int|
        0 <= m1 < m2 < outs.len() implies (#[trigger] outs[m1].pts).unwrap() <= (
    #[trigger] outs[m2].pts).unwrap() by {
        assert(video_written_ok(outs[m1], ins, m1, st, st, ot, ost));
        assert(video_written_ok(outs[m2], ins, m2, st, st, ot, ost));
        let v1 = ins[m1].pts.unwrap();
        let v2 = ins[m2].pts.unwrap();
        assert(ins[m1].wf());
        assert(ins[m2].wf());
        assert(0 <= v1 < v2);
        crate::timebase::lemma_rescale_monotone(v1 as int, v2 as int, st, st);
        crate::timebase::lemma_rescale_nonneg(v1 as int, st, st);
        crate::timebase::lemma_rescale_nonneg(v2 as int, st, st);
        let u1 = rescale_spec(v1 as int, st, st);
        let u2 = rescale_spec(v2 as int, st, st);
        crate::timebase::lemma_rescale_monotone(u1, u2, st, ot);
        crate::timebase::lemma_rescale_nonneg(u1, st, ot);
        crate::timebase::lemma_rescale_nonneg(u2, st, ot);
    }
}

} // verus!
