//! The on-demand transcode orchestrator's decisions: planning a request
//! against the cache, the external encoder's argument lists, and the scan
//! of its diagnostic text stream for the total-duration announcement and
//! the playlist-opened marker. Process spawning and line reading are the
//! caller's outside work; every decision on what was read is made here.

use vstd::prelude::*;
use crate::cache::{Cache, CacheIndex};
use crate::keycodec::{key_of, generate_dir_name};
use crate::server::{get_file_url, file_url_spec};
use crate::text::{is_digit, digit_val, is_digit_char, char_digit};

verus! {

/// The characters `Duration: HH:MM:SS.ff` stand at `i`.
pub open spec fn duration_head_at(s: Seq<char>, i: int) -> bool {
    &&& 0 <= i
    &&& i + 21 <= s.len()
    &&& s[i] == 'D'
    &&& s[i + 1] == 'u'
    &&& s[i + 2] == 'r'
    &&& s[i + 3] == 'a'
    &&& s[i + 4] == 't'
    &&& s[i + 5] == 'i'
    &&& s[i + 6] == 'o'
    &&& s[i + 7] == 'n'
    &&& s[i + 8] == ':'
    &&& s[i + 9] == ' '
    &&& is_digit(s[i + 10])
    &&& is_digit(s[i + 11])
    &&& s[i + 12] == ':'
    &&& is_digit(s[i + 13])
    &&& is_digit(s[i + 14])
    &&& s[i + 15] == ':'
    &&& is_digit(s[i + 16])
    &&& is_digit(s[i + 17])
    &&& s[i + 18] == '.'
    &&& is_digit(s[i + 19])
    &&& is_digit(s[i + 20])
}

/// Milliseconds announced by the match at `i`: hours, minutes and
/// fractional seconds accumulated into one value.
pub open spec fn duration_value_at(s: Seq<char>, i: int) -> int {
    let h = digit_val(s[i + 10]) * 10 + digit_val(s[i + 11]);
    let m = digit_val(s[i + 13]) * 10 + digit_val(s[i + 14]);
    let sec = digit_val(s[i + 16]) * 10 + digit_val(s[i + 17]);
    let cs = digit_val(s[i + 19]) * 10 + digit_val(s[i + 20]);
    (h * 3600 + m * 60 + sec) * 1000 + cs * 10
}

/// Duration announced by the leftmost match at or after `i`, if any.
pub open spec fn duration_scan_from(s: Seq<char>, i: int) -> Option<u64>
    decreases s.len() - i,
        when 0 <= i
{
    if i + 21 > s.len() {
        None
    } else if duration_head_at(s, i) {
        Some(duration_value_at(s, i) as u64)
    } else {
        duration_scan_from(s, i + 1)
    }
}

/// Duration announced by a diagnostic line, if any.
pub open spec fn duration_of_line(s: Seq<char>) -> Option<u64> {
    duration_scan_from(s, 0)
}

/// Scans one diagnostic line for a `Duration: HH:MM:SS.ff` announcement.
pub fn parse_duration_line(line: &str) -> (r: Option<u64>)
    ensures
        r == duration_of_line(line@),
{
    let n = line.unicode_len();
    if n < 21 {
        return None;
    }
    let mut i: usize = 0;
    while i <= n - 21
        invariant
            n == line@.len(),
            n >= 21,
            i <= n - 21 + 1,
            duration_scan_from(line@, 0) == duration_scan_from(line@, i as int),
        decreases n - i,
    {
        let head = line.get_char(i) == 'D' && line.get_char(i + 1) == 'u' && line.get_char(i + 2)
            == 'r' && line.get_char(i + 3) == 'a' && line.get_char(i + 4) == 't' && line.get_char(
            i + 5,
        ) == 'i' && line.get_char(i + 6) == 'o' && line.get_char(i + 7) == 'n' && line.get_char(
            i + 8,
        ) == ':' && line.get_char(i + 9) == ' ' && is_digit_char(line.get_char(i + 10))
            && is_digit_char(line.get_char(i + 11)) && line.get_char(i + 12) == ':'
            && is_digit_char(line.get_char(i + 13)) && is_digit_char(line.get_char(i + 14))
            && line.get_char(i + 15) == ':' && is_digit_char(line.get_char(i + 16))
            && is_digit_char(line.get_char(i + 17)) && line.get_char(i + 18) == '.'
            && is_digit_char(line.get_char(i + 19)) && is_digit_char(line.get_char(i + 20));
        if head {
            let h = char_digit(line.get_char(i + 10)) * 10 + char_digit(line.get_char(i + 11));
            let m = char_digit(line.get_char(i + 13)) * 10 + char_digit(line.get_char(i + 14));
            let sec = char_digit(line.get_char(i + 16)) * 10 + char_digit(line.get_char(i + 17));
            let cs = char_digit(line.get_char(i + 19)) * 10 + char_digit(line.get_char(i + 20));
            let v = (h * 3600 + m * 60 + sec) * 1000 + cs * 10;
            proof {
                assert(duration_head_at(line@, i as int));
            }
            return Some(v);
        }
        proof {
            assert(!duration_head_at(line@, i as int));
        }
        i += 1;
    }
    None
}

/// The characters `Opening '` stand at `i`.
pub open spec fn opening_at(s: Seq<char>, i: int) -> bool {
    &&& 0 <= i
    &&& i + 9 <= s.len()
    &&& s[i] == 'O'
    &&& s[i + 1] == 'p'
    &&& s[i + 2] == 'e'
    &&& s[i + 3] == 'n'
    &&& s[i + 4] == 'i'
    &&& s[i + 5] == 'n'
    &&& s[i + 6] == 'g'
    &&& s[i + 7] == ' '
    &&& s[i + 8] == '\''
}

/// The characters `m3u8.tmp' for writing` stand at `j`.
pub open spec fn closing_at(s: Seq<char>, j: int) -> bool {
    &&& 0 <= j
    &&& j + 21 <= s.len()
    &&& s[j] == 'm'
    &&& s[j + 1] == '3'
    &&& s[j + 2] == 'u'
    &&& s[j + 3] == '8'
    &&& s[j + 4] == '.'
    &&& s[j + 5] == 't'
    &&& s[j + 6] == 'm'
    &&& s[j + 7] == 'p'
    &&& s[j + 8] == '\''
    &&& s[j + 9] == ' '
    &&& s[j + 10] == 'f'
    &&& s[j + 11] == 'o'
    &&& s[j + 12] == 'r'
    &&& s[j + 13] == ' '
    &&& s[j + 14] == 'w'
    &&& s[j + 15] == 'r'
    &&& s[j + 16] == 'i'
    &&& s[j + 17] == 't'
    &&& s[j + 18] == 'i'
    &&& s[j + 19] == 'n'
    &&& s[j + 20] == 'g'
}

/// The line announces the playlist file opened for writing: an opening
/// quote, at least one path character, then the playlist suffix.
pub open spec fn playlist_open_match(s: Seq<char>) -> bool {
    exists|i: int, j: int| opening_at(s, i) && closing_at(s, j) && j >= i + 10
}

fn opening_at_exec(line: &str, i: usize, n: usize) -> (r: bool)
    requires
        n == line@.len(),
        i + 9 <= n,
    ensures
        r == opening_at(line@, i as int),
{
    line.get_char(i) == 'O' && line.get_char(i + 1) == 'p' && line.get_char(i + 2) == 'e'
        && line.get_char(i + 3) == 'n' && line.get_char(i + 4) == 'i' && line.get_char(i + 5)
        == 'n' && line.get_char(i + 6) == 'g' && line.get_char(i + 7) == ' ' && line.get_char(
        i + 8,
    ) == '\''
}

fn closing_at_exec(line: &str, j: usize, n: usize) -> (r: bool)
    requires
        n == line@.len(),
        j + 21 <= n,
    ensures
        r == closing_at(line@, j as int),
{
    line.get_char(j) == 'm' && line.get_char(j + 1) == '3' && line.get_char(j + 2) == 'u'
        && line.get_char(j + 3) == '8' && line.get_char(j + 4) == '.' && line.get_char(j + 5)
        == 't' && line.get_char(j + 6) == 'm' && line.get_char(j + 7) == 'p' && line.get_char(
        j + 8,
    ) == '\'' && line.get_char(j + 9) == ' ' && line.get_char(j + 10) == 'f' && line.get_char(
        j + 11,
    ) == 'o' && line.get_char(j + 12) == 'r' && line.get_char(j + 13) == ' ' && line.get_char(
        j + 14,
    ) == 'w' && line.get_char(j + 15) == 'r' && line.get_char(j + 16) == 'i' && line.get_char(
        j + 17,
    ) == 't' && line.get_char(j + 18) == 'i' && line.get_char(j + 19) == 'n' && line.get_char(
        j + 20,
    ) == 'g'
}

/// Tests one diagnostic line for the playlist-opened marker.
pub fn is_playlist_open_line(line: &str) -> (r: bool)
    ensures
        r == playlist_open_match(line@),
{
    let n = line.unicode_len();
    if n < 31 {
        proof {
            assert forall|i: int, j: int|
                !(opening_at(line@, i) && closing_at(line@, j) && j >= i + 10) by {}
        }
        return false;
    }
    // leftmost opening quote
    let mut i: usize = 0;
    let mut found_open = false;
    while !found_open && i <= n - 9
        invariant
            n == line@.len(),
            n >= 31,
            i <= n - 9 + 1,
            forall|i2: int| 0 <= i2 < i ==> !opening_at(line@, i2),
            found_open ==> opening_at(line@, i as int) && i + 9 <= n,
        decreases n - i + (if found_open { 0int } else { 1int }),
    {
        if opening_at_exec(line, i, n) {
            found_open = true;
        } else {
            i += 1;
        }
    }
    if !found_open {
        proof {
            assert forall|i2: int, j: int|
                !(opening_at(line@, i2) && closing_at(line@, j) && j >= i2 + 10) by {
                if opening_at(line@, i2) {
                    assert(i2 + 9 <= n);
                }
            }
        }
        return false;
    }
    if i > n - 31 {
        proof {
            assert forall|i2: int, j: int|
                !(opening_at(line@, i2) && closing_at(line@, j) && j >= i2 + 10) by {
                if opening_at(line@, i2) && closing_at(line@, j) {
                    assert(i2 >= i);
                    assert(j + 21 <= n);
                }
            }
        }
        return false;
    }
    let mut j: usize = i + 10;
    while j <= n - 21
        invariant
            n == line@.len(),
            n >= 31,
            opening_at(line@, i as int),
            j >= i + 10,
            j <= n - 21 + 1,
            forall|j2: int| i + 10 <= j2 < j ==> !closing_at(line@, j2),
        decreases n - j,
    {
        if closing_at_exec(line, j, n) {
            proof {
                assert(playlist_open_match(line@));
            }
            return true;
        }
        j += 1;
    }
    proof {
        assert forall|i2: int, j2: int|
            !(opening_at(line@, i2) && closing_at(line@, j2) && j2 >= i2 + 10) by {
            if opening_at(line@, i2) && closing_at(line@, j2) && j2 >= i2 + 10 {
                assert(i2 >= i);
                assert(j2 >= i + 10);
                assert(j2 + 21 <= n);
            }
        }
    }
    false
}

/// Running state of the diagnostic-stream scan: the latest duration
/// announcement wins, and the playlist-opened marker ends the scan — from
/// that moment the segmented output is consumable even though muxing
/// continues.
pub struct DiagnosticScan {
    pub duration_ms: u64,
    pub playlist_opened: bool,
}

impl DiagnosticScan {
    pub fn new() -> (r: DiagnosticScan)
        ensures
            r.duration_ms == 0,
            !r.playlist_opened,
    {
        DiagnosticScan { duration_ms: 0, playlist_opened: false }
    }

    /// Consumes one diagnostic line; the result says whether the playlist
    /// marker has now been seen, upon which the caller stops reading and
    /// reports success with the duration gathered so far.
    pub fn step(&mut self, line: &str) -> (done: bool)
        ensures
            final(self).duration_ms == (match duration_of_line(line@) {
                Some(d) => d,
                None => old(self).duration_ms,
            }),
            final(self).playlist_opened == (old(self).playlist_opened || playlist_open_match(
                line@,
            )),
            done == final(self).playlist_opened,
    {
        match parse_duration_line(line) {
            Some(d) => {
                self.duration_ms = d;
            },
            None => {},
        }
        if is_playlist_open_line(line) {
            self.playlist_opened = true;
        }
        self.playlist_opened
    }
}

/// Outcome of scanning a whole diagnostic stream, stopping at the playlist
/// marker; a stream that ends without the marker still yields its last
/// announced duration as best effort.
pub open spec fn scan_spec(lines: Seq<Seq<char>>, i: int, d: u64, opened: bool) -> (u64, bool)
    decreases lines.len() - i,
        when 0 <= i
{
    if opened || i >= lines.len() {
        (d, opened)
    } else {
        let d2 = match duration_of_line(lines[i]) {
            Some(x) => x,
            None => d,
        };
        scan_spec(lines, i + 1, d2, playlist_open_match(lines[i]))
    }
}

/// Scans captured diagnostic lines in order.
pub fn scan_lines(lines: &Vec<String>) -> (r: (u64, bool))
    ensures
        r == scan_spec(lines@.map_values(|l: String| l@), 0, 0, false),
{
    let ghost ls = lines@.map_values(|l: String| l@);
    let mut scan = DiagnosticScan::new();
    let mut i: usize = 0;
    while i < lines.len() && !scan.playlist_opened
        invariant
            i <= lines@.len(),
            ls == lines@.map_values(|l: String| l@),
            scan_spec(ls, 0, 0, false) == scan_spec(
                ls,
                i as int,
                scan.duration_ms,
                scan.playlist_opened,
            ),
            scan.playlist_opened ==> scan_spec(ls, 0, 0, false) == (
                scan.duration_ms,
                scan.playlist_opened,
            ),
        decreases lines@.len() - i,
    {
        let line = &lines[i];
        proof {
            assert(ls[i as int] == line@);
        }
        scan.step(line.as_str());
        i += 1;
    }
    (scan.duration_ms, scan.playlist_opened)
}

/// One transcode job: the source and the artifact directory it fills.
pub struct FFmpegCommand {
    pub input_path: String,
    pub output_dir_name: String,
}

/// `hls/<dir>/%03d.ts`: zero-padded three-digit segment names.
pub open spec fn segment_path_spec(dir: Seq<char>) -> Seq<char> {
    "hls/"@ + dir + "/%03d.ts"@
}

/// `hls/<dir>/playlist.m3u8`: the index playlist.
pub open spec fn playlist_path_spec(dir: Seq<char>) -> Seq<char> {
    "hls/"@ + dir + "/playlist.m3u8"@
}

/// `hls/<dir>/audio.aac`: the audio-only rendition for captioning.
pub open spec fn audio_path_spec(dir: Seq<char>) -> Seq<char> {
    "hls/"@ + dir + "/audio.aac"@
}

impl FFmpegCommand {
    pub fn new(input_path: String, output_dir_name: String) -> (r: Result<FFmpegCommand, ()>)
        ensures
            r matches Ok(c) && c.input_path == input_path && c.output_dir_name
                == output_dir_name,
    {
        Ok(FFmpegCommand { input_path, output_dir_name })
    }

    /// The playlist path of this job's artifact directory.
    pub fn output_playlist_path(&self) -> (r: String)
        ensures
            r@ == playlist_path_spec(self.output_dir_name@),
    {
        let mut s = String::from_str("hls/");
        s.append(self.output_dir_name.as_str());
        s.append("/playlist.m3u8");
        proof {
            assert(s@ =~= playlist_path_spec(self.output_dir_name@));
        }
        s
    }

    /// Arguments of the external encoder process: hardware decode and
    /// encode, audio transcode, fixed-length segments and the index
    /// playlist at the artifact path.
    pub fn transcode_args(&self) -> (r: Vec<String>)
        ensures
            r@.len() == 17,
            r@[0]@ == "-hwaccel"@,
            r@[1]@ == "cuda"@,
            r@[2]@ == "-hwaccel_output_format"@,
            r@[3]@ == "cuda"@,
            r@[4]@ == "-i"@,
            r@[5]@ == self.input_path@,
            r@[6]@ == "-c:v"@,
            r@[7]@ == "h264_nvenc"@,
            r@[8]@ == "-c:a"@,
            r@[9]@ == "aac"@,
            r@[10]@ == "-hls_time"@,
            r@[11]@ == "10"@,
            r@[12]@ == "-hls_list_size"@,
            r@[13]@ == "0"@,
            r@[14]@ == "-hls_segment_filename"@,
            r@[15]@ == segment_path_spec(self.output_dir_name@),
            r@[16]@ == playlist_path_spec(self.output_dir_name@),
    {
        let mut seg = String::from_str("hls/");
        seg.append(self.output_dir_name.as_str());
        seg.append("/%03d.ts");
        let playlist = self.output_playlist_path();
        let mut r: Vec<String> = Vec::new();
        r.push(String::from_str("-hwaccel"));
        r.push(String::from_str("cuda"));
        r.push(String::from_str("-hwaccel_output_format"));
        r.push(String::from_str("cuda"));
        r.push(String::from_str("-i"));
        r.push(String::from_str(self.input_path.as_str()));
        r.push(String::from_str("-c:v"));
        r.push(String::from_str("h264_nvenc"));
        r.push(String::from_str("-c:a"));
        r.push(String::from_str("aac"));
        r.push(String::from_str("-hls_time"));
        r.push(String::from_str("10"));
        r.push(String::from_str("-hls_list_size"));
        r.push(String::from_str("0"));
        r.push(String::from_str("-hls_segment_filename"));
        r.push(seg);
        r.push(playlist);
        proof {
            assert(seg@ =~= segment_path_spec(self.output_dir_name@));
        }
        r
    }

    /// Arguments of the audio-extraction process: the source's audio,
    /// downsampled stereo, into the artifact's audio rendition.
    pub fn audio_extract_args(&self) -> (r: Vec<String>)
        ensures
            r@.len() == 11,
            r@[0]@ == "-i"@,
            r@[1]@ == self.input_path@,
            r@[2]@ == "-map"@,
            r@[3]@ == "0:a"@,
            r@[4]@ == "-c:a"@,
            r@[5]@ == "aac"@,
            r@[6]@ == "-ar"@,
            r@[7]@ == "16000"@,
            r@[8]@ == "-ac"@,
            r@[9]@ == "2"@,
            r@[10]@ == audio_path_spec(self.output_dir_name@),
    {
        let mut audio = String::from_str("hls/");
        audio.append(self.output_dir_name.as_str());
        audio.append("/audio.aac");
        let mut r: Vec<String> = Vec::new();
        r.push(String::from_str("-i"));
        r.push(String::from_str(self.input_path.as_str()));
        r.push(String::from_str("-map"));
        r.push(String::from_str("0:a"));
        r.push(String::from_str("-c:a"));
        r.push(String::from_str("aac"));
        r.push(String::from_str("-ar"));
        r.push(String::from_str("16000"));
        r.push(String::from_str("-ac"));
        r.push(String::from_str("2"));
        r.push(audio);
        proof {
            assert(audio@ =~= audio_path_spec(self.output_dir_name@));
        }
        r
    }
}

/// What a request-handling entry point answers: a success flag, a message,
/// the playlist URL and the duration.
pub struct ApiResponse {
    pub success: bool,
    pub message: String,
    pub playlist_url: String,
    pub duration_ms: u64,
}

/// What a request does next: answer from the cache, or transcode into a
/// fresh artifact directory first.
pub enum RequestPlan {
    Hit { response: ApiResponse },
    Miss { output_dir_name: String, artifact_dir_path: String },
}

/// Decides a request against the cache: a hit short-circuits with the
/// cached playlist URL and duration and spawns nothing; a miss names the
/// artifact directory to create and transcode into.
pub fn plan_request(index: &CacheIndex, input_path: &str) -> (r: RequestPlan)
    ensures
        index.spec_get(input_path@) matches Some(c) ==> (r matches RequestPlan::Hit {
            response } && response.success && response.duration_ms == c.duration_ms
            && response.playlist_url@ == file_url_spec(playlist_path_spec(c.output_dir_name@))
            && response.message@ == "HLS stream generated successfully"@),
        index.spec_get(input_path@) is None ==> (r matches RequestPlan::Miss {
            output_dir_name, artifact_dir_path } && output_dir_name@ == key_of(input_path@)
            && artifact_dir_path@ == "hls/"@ + key_of(input_path@)),
{
    match index.lookup(input_path) {
        Some(cache) => {
            let mut playlist = String::from_str("hls/");
            playlist.append(cache.output_dir_name.as_str());
            playlist.append("/playlist.m3u8");
            proof {
                assert(playlist@ =~= playlist_path_spec(cache.output_dir_name@));
            }
            let url = get_file_url(playlist.as_str());
            RequestPlan::Hit {
                response: ApiResponse {
                    success: true,
                    message: String::from_str("HLS stream generated successfully"),
                    playlist_url: url,
                    duration_ms: cache.duration_ms,
                },
            }
        },
        None => {
            let output_dir_name = generate_dir_name(input_path);
            let mut dir = String::from_str("hls/");
            dir.append(output_dir_name.as_str());
            proof {
                assert(dir@ =~= "hls/"@ + key_of(input_path@));
            }
            RequestPlan::Miss { output_dir_name, artifact_dir_path: dir }
        },
    }
}

/// Records a finished transcode and builds the response. The caller has
/// created the artifact directory, run both processes, scanned the
/// diagnostic stream, and created the duration-marker directory named by
/// `cache::marker_dir_path` — only then is the entry recorded, so a marker
/// creation failure leaves the index unchanged. A stream that ended without
/// the playlist marker still arrives here with its last known duration,
/// possibly zero, as deliberate best-effort success.
pub fn complete_request(index: &mut CacheIndex, input_path: String, duration_ms: u64) -> (r:
    ApiResponse)
    requires
        old(index).wf(),
    ensures
        final(index).wf(),
        final(index).spec_get(input_path@) is Some,
        old(index).spec_get(input_path@) is None ==> (final(index).spec_get(input_path@)
            matches Some(c) && c.duration_ms == duration_ms && c.output_dir_name@ == key_of(
            input_path@,
        ) && c.original_file_path@ == input_path@),
        r.success,
        r.duration_ms == duration_ms,
        r.playlist_url@ == file_url_spec(playlist_path_spec(key_of(input_path@))),
        r.message@ == "HLS stream generated successfully"@,
{
    let output_dir_name = generate_dir_name(input_path.as_str());
    let mut playlist = String::from_str("hls/");
    playlist.append(output_dir_name.as_str());
    playlist.append("/playlist.m3u8");
    proof {
        assert(playlist@ =~= playlist_path_spec(output_dir_name@));
    }
    let url = get_file_url(playlist.as_str());
    let path_copy = String::from_str(input_path.as_str());
    let cache = Cache {
        duration_ms,
        output_dir_name,
        original_file_path: path_copy,
    };
    let ghost c = cache;
    let ghost pre = index.entries_seq();
    crate::cache::cache_map_insert(index, input_path, cache);
    proof {
        if crate::cache::seq_get(pre, c.original_file_path@) is None {
            crate::cache::lemma_cache_idempotent(pre, c);
        }
    }
    ApiResponse {
        success: true,
        message: String::from_str("HLS stream generated successfully"),
        playlist_url: url,
        duration_ms,
    }
}

} // verus!
