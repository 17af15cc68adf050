//! Captions: the clock rendering, the cue-file text, and the decisions
//! around the captioning provider's responses. The provider itself is an
//! opaque HTTP collaborator; only plain values of its answers enter here.

use vstd::prelude::*;
use crate::server::{file_url_spec, get_file_url};
use crate::text::{pad2, pad3, append_pad2, append_pad3};

verus! {

/// One timed utterance, in milliseconds.
pub struct SubtitleEntry {
    pub text: String,
    pub start_time: u64,
    pub end_time: u64,
}

/// `HH:MM:SS.mmm` rendering of a millisecond timestamp; hours grow past
/// two digits when needed.
pub open spec fn clock_text(ms: nat) -> Seq<char> {
    pad2(ms / 3600000) + ":"@ + pad2((ms / 60000) % 60) + ":"@ + pad2((ms / 1000) % 60) + "."@
        + pad3(ms % 1000)
}

/// Renders a millisecond timestamp as a cue clock.
pub fn format_time(millis: u64) -> (s: String)
    ensures
        s@ == clock_text(millis as nat),
{
    let mut s = String::new();
    append_pad2(&mut s, millis / 3600000);
    s.append(":");
    append_pad2(&mut s, (millis / 60000) % 60);
    s.append(":");
    append_pad2(&mut s, (millis / 1000) % 60);
    s.append(".");
    append_pad3(&mut s, millis % 1000);
    proof {
        assert(s@ =~= clock_text(millis as nat));
    }
    s
}

/// One cue block: both clocks, the utterance, a blank separator line.
pub open spec fn vtt_block(e: SubtitleEntry) -> Seq<char> {
    clock_text(e.start_time as nat) + " --> "@ + clock_text(e.end_time as nat) + "\n"@ + e.text@
        + "\n\n"@
}

/// All cue blocks, in order.
pub open spec fn vtt_body(es: Seq<SubtitleEntry>) -> Seq<char>
    decreases es.len(),
{
    if es.len() == 0 {
        Seq::empty()
    } else {
        vtt_body(es.drop_last()) + vtt_block(es.last())
    }
}

/// The whole cue file: header line, blank line, then the blocks.
pub open spec fn vtt_text(es: Seq<SubtitleEntry>) -> Seq<char> {
    "WEBVTT\n\n"@ + vtt_body(es)
}

/// Renders the caption cue file for the utterances, in order.
#[verifier::rlimit(60)]
pub fn convert_to_vtt(entries: &Vec<SubtitleEntry>) -> (s: String)
    ensures
        s@ == vtt_text(entries@),
{
    let mut s = String::from_str("WEBVTT\n\n");
    let mut i: usize = 0;
    proof {
        assert(entries@.take(0) =~= Seq::<SubtitleEntry>::empty());
        assert(s@ =~= "WEBVTT\n\n"@ + vtt_body(entries@.take(0)));
    }
    while i < entries.len()
        invariant
            i <= entries@.len(),
            s@ == "WEBVTT\n\n"@ + vtt_body(entries@.take(i as int)),
        decreases entries@.len() - i,
    {
        let e = &entries[i];
        let st = format_time(e.start_time);
        s.append(st.as_str());
        s.append(" --> ");
        let en = format_time(e.end_time);
        s.append(en.as_str());
        s.append("\n");
        s.append(e.text.as_str());
        s.append("\n\n");
        i += 1;
        proof {
            assert(entries@.take(i as int).drop_last() =~= entries@.take(i as int - 1));
            assert(entries@.take(i as int).last() == entries@[i as int - 1]);
            assert(s@ =~= "WEBVTT\n\n"@ + vtt_body(entries@.take(i as int)));
        }
    }
    proof {
        assert(entries@.take(entries@.len() as int) =~= entries@);
    }
    s
}

/// Reading of the provider's submit answer: a zero application code hands
/// back the job id, anything else is the provider's message verbatim.
pub fn interpret_upload_response(code: u64, message: String, id: String) -> (r: Result<
    String,
    String,
>)
    ensures
        code == 0 ==> (r matches Ok(v) && v == id),
        code != 0 ==> (r matches Err(e) && e == message),
{
    if code == 0 {
        Ok(id)
    } else {
        Err(message)
    }
}

/// Reading of the provider's query answer: a zero application code hands
/// back the utterances in order, anything else the message verbatim.
pub fn interpret_query_response(code: u64, message: String, utterances: Vec<SubtitleEntry>) -> (r:
    Result<Vec<SubtitleEntry>, String>)
    ensures
        code == 0 ==> (r matches Ok(v) && v == utterances),
        code != 0 ==> (r matches Err(e) && e == message),
{
    if code == 0 {
        Ok(utterances)
    } else {
        Err(message)
    }
}

/// Paths of the audio rendition and the caption file inside an artifact
/// directory.
pub fn subtitle_paths(output_dir_name: &str) -> (r: (String, String))
    ensures
        r.0@ == "hls/"@ + output_dir_name@ + "/audio.aac"@,
        r.1@ == "hls/"@ + output_dir_name@ + "/subtitle.vtt"@,
{
    let mut a = String::from_str("hls/");
    a.append(output_dir_name);
    a.append("/audio.aac");
    let mut v = String::from_str("hls/");
    v.append(output_dir_name);
    v.append("/subtitle.vtt");
    proof {
        assert(a@ =~= "hls/"@ + output_dir_name@ + "/audio.aac"@);
        assert(v@ =~= "hls/"@ + output_dir_name@ + "/subtitle.vtt"@);
    }
    (a, v)
}

/// What the caption entry point answers.
pub struct ApiResponse {
    pub success: bool,
    pub message: String,
    pub subtitle_url: String,
}

/// Successful caption answer for a finished subtitle file.
pub fn subtitle_response(subtitle_path: &str) -> (r: ApiResponse)
    ensures
        r.success,
        r.message@ == "Subtitle generated successfully."@,
        r.subtitle_url@ == file_url_spec(subtitle_path@),
{
    ApiResponse {
        success: true,
        message: String::from_str("Subtitle generated successfully."),
        subtitle_url: get_file_url(subtitle_path),
    }
}

} // verus!
