//! The local artifact endpoint's pure parts: URL construction and
//! content-type selection. The endpoint itself serves files by request path
//! with no authentication; a missing file is the caller's 404.

use vstd::prelude::*;

verus! {

/// Loopback address the artifact endpoint binds.
pub const SERVER_ADDRESS: &'static str = "localhost:3117";

/// URL at which the endpoint serves `path`.
pub open spec fn file_url_spec(path: Seq<char>) -> Seq<char> {
    "http://"@ + "localhost:3117"@ + "/"@ + path
}

/// Builds the URL for an artifact path.
pub fn get_file_url(path: &str) -> (r: String)
    ensures
        r@ == file_url_spec(path@),
{
    let mut s = String::from_str("http://");
    s.append(SERVER_ADDRESS);
    s.append("/");
    s.append(path);
    proof {
        assert(s@ =~= file_url_spec(path@));
    }
    s
}

/// `s` ends with `suffix`.
pub open spec fn ends_with_spec(s: Seq<char>, suffix: Seq<char>) -> bool {
    s.len() >= suffix.len() && s.subrange(s.len() - suffix.len(), s.len() as int) == suffix
}

/// Suffix test over characters.
pub fn ends_with(s: &str, suffix: &str) -> (r: bool)
    ensures
        r == ends_with_spec(s@, suffix@),
{
    let n = s.unicode_len();
    let m = suffix.unicode_len();
    if m > n {
        return false;
    }
    let mut k: usize = 0;
    while k < m
        invariant
            k <= m <= n,
            n == s@.len(),
            m == suffix@.len(),
            forall|k2: int| 0 <= k2 < k ==> s@[n - m + k2] == suffix@[k2],
        decreases m - k,
    {
        if s.get_char(n - m + k) != suffix.get_char(k) {
            proof {
                assert(s@.subrange(n as int - m, n as int)[k as int] == s@[n - m + k]);
            }
            return false;
        }
        k += 1;
    }
    proof {
        assert(s@.subrange(n as int - m, n as int) =~= suffix@);
    }
    true
}

/// Content type the endpoint serves a file as, selected by extension:
/// the index playlist, a transport-stream segment, or plain bytes.
pub fn content_type_for(path: &str) -> (r: &'static str)
    ensures
        ends_with_spec(path@, ".m3u8"@) ==> r@ == "application/vnd.apple.mpegurl"@,
        !ends_with_spec(path@, ".m3u8"@) && ends_with_spec(path@, ".ts"@) ==> r@
            == "video/MP2T"@,
        !ends_with_spec(path@, ".m3u8"@) && !ends_with_spec(path@, ".ts"@) ==> r@
            == "application/octet-stream"@,
{
    if ends_with(path, ".m3u8") {
        "application/vnd.apple.mpegurl"
    } else if ends_with(path, ".ts") {
        "video/MP2T"
    } else {
        "application/octet-stream"
    }
}

} // verus!
