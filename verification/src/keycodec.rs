//! Reversible encoding of a source path into a filesystem-safe artifact
//! directory name, and of a duration into a marker directory name.
//!
//! The directory layout is the only persisted form of the cache: an artifact
//! directory's own name encodes the source path, and a sentinel child
//! directory named for `[duration=<seconds>.<millis>]` carries the duration.
//! Both encodings round-trip exactly.

use vstd::prelude::*;
use crate::text::{
    digit_char, dec_str, pad3, is_digit, digit_val, dec_val, lemma_dec_str_digits,
    append_pad3, is_digit_char, char_digit,
};

verus! {

/// The URL-safe base64 rendering of a string's UTF-8 bytes, as characters.
pub uninterp spec fn key_of(s: Seq<char>) -> Seq<char>;

/// A character of the URL-safe base64 alphabet, or its `=` padding: safe in
/// a file name and in a URL, and in particular never a path separator.
pub open spec fn url_safe_char(c: char) -> bool {
    ||| 'A' <= c && c <= 'Z'
    ||| 'a' <= c && c <= 'z'
    ||| '0' <= c && c <= '9'
    ||| c == '-'
    ||| c == '_'
    ||| c == '='
}

/// Directory name for a source path.
/// Relies on `base64::engine::general_purpose::URL_SAFE.encode` (base64 0.21):
/// the result is the padded URL-safe base64 of the input's UTF-8 bytes, a
/// function of the input alone; the encoding loses nothing, so no other
/// string shares this result; every emitted character comes from the
/// URL-safe alphabet `A-Z a-z 0-9 - _` or is the `=` padding.
#[verifier::external_body]
pub fn generate_dir_name(input_path: &str) -> (r: String)
    ensures
        r@ == key_of(input_path@),
        forall|p: Seq<char>| r@ == key_of(p) ==> p == input_path@,
        forall|k: int| 0 <= k < r@.len() ==> url_safe_char(#[trigger] r@[k]),
{
    base64::Engine::encode(&base64::engine::general_purpose::URL_SAFE, input_path.as_bytes())
}

/// Reverses `generate_dir_name`.
/// Relies on `base64::engine::general_purpose::URL_SAFE.decode` (base64 0.21)
/// and `String::from_utf8`. The engine requires canonical padding and rejects
/// non-canonical trailing bits, so decoding succeeds exactly on canonical
/// encodings and gives back the encoded bytes; decoding the encoding of any
/// string therefore yields that string, and every accepted name is the
/// encoding of the returned string.
#[verifier::external_body]
pub fn decode_dir_name(dir_name: &str) -> (r: Option<String>)
    ensures
        forall|p: Seq<char>| dir_name@ == key_of(p) ==> r.is_some() && r.unwrap()@ == p,
        r.is_some() ==> dir_name@ == key_of(r.unwrap()@),
{
    match base64::Engine::decode(&base64::engine::general_purpose::URL_SAFE, dir_name.as_bytes()) {
        Ok(bytes) => String::from_utf8(bytes).ok(),
        Err(_) => None,
    }
}

/// Decimal rendering of a millisecond duration as `<seconds>.<millis>`,
/// with exactly three digits after the point.
pub open spec fn duration_decimal(ms: nat) -> Seq<char> {
    dec_str(ms / 1000) + seq!['.'] + pad3(ms % 1000)
}

/// The text that the duration marker directory name encodes.
pub open spec fn marker_text(ms: nat) -> Seq<char> {
    "[duration="@ + duration_decimal(ms) + "]"@
}

/// Builds the literal marker text for a duration.
pub fn duration_marker_string(duration_ms: u64) -> (s: String)
    ensures
        s@ == marker_text(duration_ms as nat),
{
    let mut s = String::new();
    s.append("[duration=");
    crate::text::append_u64(&mut s, duration_ms / 1000);
    s.append(".");
    append_pad3(&mut s, duration_ms % 1000);
    s.append("]");
    proof {
        reveal_strlit(".");
        assert("."@ =~= seq!['.']);
        assert(s@ =~= marker_text(duration_ms as nat));
    }
    s
}

/// Directory name that persists a duration inside an artifact directory.
pub fn marker_dir_name(duration_ms: u64) -> (s: String)
    ensures
        s@ == key_of(marker_text(duration_ms as nat)),
        forall|p: Seq<char>| s@ == key_of(p) ==> p == marker_text(duration_ms as nat),
{
    let t = duration_marker_string(duration_ms);
    generate_dir_name(t.as_str())
}

/// The characters `[duration=` stand at position `i` of `s`.
pub open spec fn marker_head_at(s: Seq<char>, i: int) -> bool {
    &&& 0 <= i
    &&& i + 10 <= s.len()
    &&& s[i] == '['
    &&& s[i + 1] == 'd'
    &&& s[i + 2] == 'u'
    &&& s[i + 3] == 'r'
    &&& s[i + 4] == 'a'
    &&& s[i + 5] == 't'
    &&& s[i + 6] == 'i'
    &&& s[i + 7] == 'o'
    &&& s[i + 8] == 'n'
    &&& s[i + 9] == '='
}

/// First position at or after `i` that does not hold a digit.
pub open spec fn digit_run_end(s: Seq<char>, i: int) -> int
    decreases s.len() - i,
        when 0 <= i <= s.len()
{
    if i < s.len() && is_digit(s[i]) {
        digit_run_end(s, i + 1)
    } else {
        i
    }
}

/// A full `[duration=<digits>.<digits>]` pattern starts at `i`, with at least
/// one digit on each side of the point.
pub open spec fn marker_match_at(s: Seq<char>, i: int) -> bool {
    marker_head_at(s, i) && {
        let b = digit_run_end(s, i + 10);
        b > i + 10 && b < s.len() && s[b] == '.' && {
            let c = digit_run_end(s, b + 1);
            c > b + 1 && c < s.len() && s[c] == ']'
        }
    }
}

/// Milliseconds carried by a fractional digit string: the leading three
/// digits, scaled up when fewer are present.
pub open spec fn frac_ms(fs: Seq<char>) -> int {
    if fs.len() >= 3 {
        dec_val(fs.take(3))
    } else if fs.len() == 2 {
        dec_val(fs) * 10
    } else {
        dec_val(fs) * 100
    }
}

/// Milliseconds encoded by the pattern match at `i`, when they fit.
pub open spec fn marker_value_at(s: Seq<char>, i: int) -> Option<u64> {
    let b = digit_run_end(s, i + 10);
    let c = digit_run_end(s, b + 1);
    let v = dec_val(s.subrange(i + 10, b)) * 1000 + frac_ms(s.subrange(b + 1, c));
    if v <= u64::MAX {
        Some(v as u64)
    } else {
        None
    }
}

/// Duration taken from the leftmost pattern match at or after `i`.
pub open spec fn extract_from(s: Seq<char>, i: int) -> Option<u64>
    decreases s.len() - i,
        when 0 <= i
{
    if i + 10 > s.len() {
        None
    } else if marker_match_at(s, i) {
        marker_value_at(s, i)
    } else {
        extract_from(s, i + 1)
    }
}

/// Duration taken from the leftmost `[duration=<digits>.<digits>]` in `s`,
/// tolerant of any text before or after the pattern.
pub open spec fn extract_duration_spec(s: Seq<char>) -> Option<u64> {
    extract_from(s, 0)
}

/// Every valid path round-trips through the directory-name codec unchanged;
/// this holds for paths with spaces, Unicode and platform separators alike.
pub fn encode_decode_round_trip(path: &str) -> (r: Option<String>)
    ensures
        r matches Some(q) && q@ == path@,
{
    let name = generate_dir_name(path);
    decode_dir_name(name.as_str())
}

proof fn lemma_dec_val_nonneg(t: Seq<char>)
    requires
        forall|k: int| 0 <= k < t.len() ==> is_digit(#[trigger] t[k]),
    ensures
        dec_val(t) >= 0,
    decreases t.len(),
{
    if t.len() > 0 {
        let tdl = t.drop_last();
        lemma_dec_val_nonneg(tdl);
        assert(dec_val(tdl) * 10 >= 0) by (nonlinear_arith)
            requires
                dec_val(tdl) >= 0,
        ;
        assert(is_digit(t.last()));
    }
}

proof fn lemma_dec_val_take_le(t: Seq<char>, j: int)
    requires
        0 <= j <= t.len(),
        forall|k: int| 0 <= k < t.len() ==> is_digit(#[trigger] t[k]),
    ensures
        0 <= dec_val(t.take(j)),
        dec_val(t.take(j)) <= dec_val(t),
    decreases t.len(),
{
    if j == t.len() {
        assert(t.take(j) =~= t);
        lemma_dec_val_nonneg(t);
    } else {
        let tdl = t.drop_last();
        assert(t.take(j) =~= tdl.take(j));
        lemma_dec_val_take_le(tdl, j);
        lemma_dec_val_nonneg(tdl);
        assert(dec_val(tdl) * 10 >= dec_val(tdl)) by (nonlinear_arith)
            requires
                dec_val(tdl) >= 0,
        ;
        assert(is_digit(t.last()));
    }
}

proof fn lemma_run_digits(s: Seq<char>, i: int)
    requires
        0 <= i <= s.len(),
    ensures
        i <= digit_run_end(s, i) <= s.len(),
        forall|k: int| i <= k < digit_run_end(s, i) ==> is_digit(#[trigger] s[k]),
    decreases s.len() - i,
{
    if i < s.len() && is_digit(s[i]) {
        lemma_run_digits(s, i + 1);
    }
}

proof fn lemma_digit_run(s: Seq<char>, i: int, j: int)
    requires
        0 <= i <= j <= s.len(),
        forall|k: int| i <= k < j ==> is_digit(#[trigger] s[k]),
        j == s.len() || !is_digit(s[j]),
    ensures
        digit_run_end(s, i) == j,
    decreases j - i,
{
    if i < j {
        lemma_digit_run(s, i + 1, j);
    }
}

fn head_matches_at(s: &str, i: usize, n: usize) -> (r: bool)
    requires
        n == s@.len(),
        i + 10 <= n,
    ensures
        r == marker_head_at(s@, i as int),
{
    let r = s.get_char(i) == '[' && s.get_char(i + 1) == 'd' && s.get_char(i + 2) == 'u'
        && s.get_char(i + 3) == 'r' && s.get_char(i + 4) == 'a' && s.get_char(i + 5) == 't'
        && s.get_char(i + 6) == 'i' && s.get_char(i + 7) == 'o' && s.get_char(i + 8) == 'n'
        && s.get_char(i + 9) == '=';
    r
}

fn scan_digits(s: &str, from: usize, n: usize) -> (end: usize)
    requires
        n == s@.len(),
        from <= n,
    ensures
        from <= end <= n,
        end == digit_run_end(s@, from as int),
{
    let mut i = from;
    let mut done = false;
    while !done
        invariant
            n == s@.len(),
            from <= i <= n,
            digit_run_end(s@, from as int) == digit_run_end(s@, i as int),
            done ==> digit_run_end(s@, i as int) == i as int,
        decreases n - i + (if done { 0int } else { 1int }),
    {
        if i < n {
            let c = s.get_char(i);
            if is_digit_char(c) {
                i += 1;
            } else {
                done = true;
            }
        } else {
            done = true;
        }
    }
    i
}

fn digits_value(s: &str, a: usize, b: usize) -> (r: Option<u64>)
    requires
        a <= b <= s@.len(),
        forall|k: int| a <= k < b ==> is_digit(#[trigger] s@[k]),
    ensures
        r.is_some() ==> r.unwrap() == dec_val(s@.subrange(a as int, b as int)),
        r.is_none() ==> dec_val(s@.subrange(a as int, b as int)) > u64::MAX,
{
    let ghost t = s@.subrange(a as int, b as int);
    proof {
        assert(forall|j: int| 0 <= j < t.len() ==> is_digit(#[trigger] t[j]));
    }
    let mut acc: u64 = 0;
    let mut k = a;
    while k < b
        invariant
            a <= k <= b <= s@.len(),
            t == s@.subrange(a as int, b as int),
            t.len() == b - a,
            forall|j: int| 0 <= j < t.len() ==> is_digit(#[trigger] t[j]),
            forall|j: int| a <= j < b ==> is_digit(#[trigger] s@[j]),
            acc == dec_val(t.take(k - a)),
        decreases b - k,
    {
        let c = s.get_char(k);
        proof {
            assert(t[k - a] == s@[k as int]);
        }
        let d = char_digit(c);
        let ghost next = t.take(k - a + 1);
        proof {
            assert(next.drop_last() =~= t.take(k - a));
            assert(next.last() == t[k - a]);
        }
        match acc.checked_mul(10) {
            None => {
                proof {
                    lemma_dec_val_take_le(t, k - a + 1);
                    assert(dec_val(next) == acc * 10 + digit_val(t[k - a]));
                }
                return None;
            },
            Some(m10) => {
                match m10.checked_add(d) {
                    None => {
                        proof {
                            lemma_dec_val_take_le(t, k - a + 1);
                            assert(dec_val(next) == acc * 10 + digit_val(t[k - a]));
                        }
                        return None;
                    },
                    Some(v) => {
                        acc = v;
                    },
                }
            },
        }
        k += 1;
    }
    proof {
        assert(t.take(b - a) =~= t);
    }
    Some(acc)
}

/// Scans `text` for the leftmost `[duration=<digits>.<digits>]` pattern and
/// returns the milliseconds it encodes; `None` when no pattern occurs or its
/// value does not fit.
pub fn extract_duration(text: &str) -> (r: Option<u64>)
    ensures
        r == extract_duration_spec(text@),
{
    let n = text.unicode_len();
    if n < 10 {
        return None;
    }
    let mut i: usize = 0;
    while i <= n - 10
        invariant
            n == text@.len(),
            n >= 10,
            i <= n - 10 + 1,
            extract_from(text@, 0) == extract_from(text@, i as int),
        decreases n - i,
    {
        if head_matches_at(text, i, n) {
            let b = scan_digits(text, i + 10, n);
            let mut matched = false;
            if b > i + 10 && b < n {
                if text.get_char(b) == '.' {
                    let c = scan_digits(text, b + 1, n);
                    if c > b + 1 && c < n {
                        if text.get_char(c) == ']' {
                            matched = true;
                            proof {
                                assert(marker_match_at(text@, i as int));
                                lemma_run_digits(text@, i as int + 10);
                                lemma_run_digits(text@, b as int + 1);
                            }
                            let secs = digits_value(text, i + 10, b);
                            let flen = c - b - 1;
                            let d1 = char_digit(text.get_char(b + 1));
                            let f: u64 = if flen >= 3 {
                                let d2 = char_digit(text.get_char(b + 2));
                                let d3 = char_digit(text.get_char(b + 3));
                                d1 * 100 + d2 * 10 + d3
                            } else if flen == 2 {
                                let d2 = char_digit(text.get_char(b + 2));
                                (d1 * 10 + d2) * 10
                            } else {
                                d1 * 100
                            };
                            proof {
                                let fs = text@.subrange(b as int + 1, c as int);
                                assert(fs[0] == text@[b as int + 1]);
                                assert(dec_val(Seq::<char>::empty()) == 0);
                                if flen >= 3 {
                                    let f3 = fs.take(3);
                                    assert(f3.drop_last() =~= fs.take(2));
                                    assert(fs.take(2).drop_last() =~= fs.take(1));
                                    assert(fs.take(1).drop_last() =~= fs.take(0));
                                    assert(fs.take(0) =~= Seq::<char>::empty());
                                    assert(f3.last() == fs[2]);
                                    assert(fs.take(2).last() == fs[1]);
                                    assert(fs.take(1).last() == fs[0]);
                                    assert(fs[1] == text@[b as int + 2]);
                                    assert(fs[2] == text@[b as int + 3]);
                                    assert(dec_val(fs.take(1)) == dec_val(fs.take(1).drop_last())
                                        * 10 + digit_val(fs.take(1).last()));
                                    assert(dec_val(fs.take(2)) == dec_val(fs.take(2).drop_last())
                                        * 10 + digit_val(fs.take(2).last()));
                                    assert(dec_val(f3) == dec_val(f3.drop_last()) * 10 + digit_val(
                                        f3.last(),
                                    ));
                                } else if flen == 2 {
                                    assert(fs.drop_last() =~= fs.take(1));
                                    assert(fs.take(1).drop_last() =~= fs.take(0));
                                    assert(fs.take(0) =~= Seq::<char>::empty());
                                    assert(fs.take(1).last() == fs[0]);
                                    assert(fs[1] == text@[b as int + 2]);
                                    assert(dec_val(fs.take(1)) == dec_val(fs.take(1).drop_last())
                                        * 10 + digit_val(fs.take(1).last()));
                                    assert(dec_val(fs) == dec_val(fs.drop_last()) * 10 + digit_val(
                                        fs.last(),
                                    ));
                                } else {
                                    assert(fs.len() == 1);
                                    assert(fs.drop_last() =~= Seq::<char>::empty());
                                    assert(dec_val(fs) == dec_val(fs.drop_last()) * 10 + digit_val(
                                        fs.last(),
                                    ));
                                }
                                assert(f == frac_ms(fs));
                                assert(0 <= frac_ms(fs));
                            }
                            match secs {
                                None => {
                                    proof {
                                        let sd = text@.subrange(i as int + 10, b as int);
                                        assert(dec_val(sd) * 1000 >= dec_val(sd))
                                            by (nonlinear_arith)
                                            requires
                                                dec_val(sd) > u64::MAX,
                                        ;
                                    }
                                    return None;
                                },
                                Some(sv) => {
                                    proof {
                                        lemma_dec_val_nonneg(
                                            text@.subrange(i as int + 10, b as int),
                                        );
                                    }
                                    match sv.checked_mul(1000) {
                                        None => {
                                            return None;
                                        },
                                        Some(sm) => {
                                            match sm.checked_add(f) {
                                                None => {
                                                    return None;
                                                },
                                                Some(v) => {
                                                    return Some(v);
                                                },
                                            }
                                        },
                                    }
                                },
                            }
                        }
                    }
                }
            }
            if !matched {
                proof {
                    assert(!marker_match_at(text@, i as int));
                }
            }
        }
        i += 1;
    }
    None
}

/// The marker text built for a duration decodes back to exactly that
/// duration.
pub proof fn lemma_marker_round_trip(ms: u64)
    ensures
        extract_duration_spec(marker_text(ms as nat)) == Some(ms),
{
    let q = ms as nat / 1000;
    let r = ms as nat % 1000;
    let ds = dec_str(q);
    let l = ds.len() as int;
    let s = marker_text(ms as nat);
    reveal_strlit("[duration=");
    reveal_strlit("]");
    lemma_dec_str_digits(q);
    assert("[duration="@ =~= seq!['[', 'd', 'u', 'r', 'a', 't', 'i', 'o', 'n', '=']);
    assert("]"@ =~= seq![']']);
    assert(s.len() == l + 15);
    assert(forall|k: int| 0 <= k < 10 ==> s[k] == "[duration="@[k]);
    assert(forall|k: int| 0 <= k < l ==> s[10 + k] == ds[k]);
    assert(s[10 + l] == '.');
    assert(s[11 + l] == digit_char(r as int / 100));
    assert(s[12 + l] == digit_char((r as int / 10) % 10));
    assert(s[13 + l] == digit_char(r as int % 10));
    assert(s[14 + l] == ']');
    assert(marker_head_at(s, 0));
    assert(forall|k: int| 10 <= k < 10 + l ==> is_digit(#[trigger] s[k]));
    assert(!is_digit('.'));
    assert(!is_digit(']'));
    lemma_digit_run(s, 10, 10 + l);
    let b = 10 + l;
    assert(is_digit(digit_char(r as int / 100)));
    assert(is_digit(digit_char((r as int / 10) % 10)));
    assert(is_digit(digit_char(r as int % 10)));
    lemma_digit_run(s, b + 1, b + 4);
    let c = b + 4;
    assert(marker_match_at(s, 0));
    assert(s.subrange(10, b) =~= ds);
    let fs = s.subrange(b + 1, c);
    assert(fs =~= pad3(r));
    assert(fs.take(3) =~= fs);
    assert(fs.drop_last() =~= seq![
        digit_char(r as int / 100),
        digit_char((r as int / 10) % 10),
    ]);
    assert(fs.drop_last().drop_last() =~= seq![digit_char(r as int / 100)]);
    assert(fs.drop_last().drop_last().drop_last() =~= Seq::<char>::empty());
    assert(dec_val(Seq::<char>::empty()) == 0);
    assert(dec_val(fs.drop_last().drop_last()) == dec_val(fs.drop_last().drop_last().drop_last())
        * 10 + digit_val(fs.drop_last().drop_last().last()));
    assert(dec_val(fs.drop_last()) == dec_val(fs.drop_last().drop_last()) * 10 + digit_val(
        fs.drop_last().last(),
    ));
    assert(dec_val(fs) == dec_val(fs.drop_last()) * 10 + digit_val(fs.last()));
    assert(digit_val(digit_char(r as int / 100)) == r as int / 100);
    assert(digit_val(digit_char((r as int / 10) % 10)) == (r as int / 10) % 10);
    assert(digit_val(digit_char(r as int % 10)) == r as int % 10);
    assert(frac_ms(fs) == (r as int / 100) * 100 + ((r as int / 10) % 10) * 10 + r as int % 10);
    assert((r as int / 100) * 100 + ((r as int / 10) % 10) * 10 + r as int % 10 == r as int)
        by (nonlinear_arith)
        requires
            r == ms as nat % 1000,
    ;
    assert(dec_val(s.subrange(10, b)) == q);
    assert(q * 1000 + r == ms) by (nonlinear_arith)
        requires
            q == ms as nat / 1000 && r == ms as nat % 1000,
    ;
    assert(marker_value_at(s, 0) == Some(ms));
}

/// Decodes an artifact child directory name and extracts the duration it
/// carries; any name produced by `marker_dir_name` decodes to its duration.
pub fn decode_marker_dir_name(name: &str) -> (r: Option<u64>)
    ensures
        forall|d: u64| name@ == key_of(marker_text(d as nat)) ==> r == Some(d),
{
    match decode_dir_name(name) {
        None => None,
        Some(text) => {
            let r = extract_duration(text.as_str());
            proof {
                assert forall|d: u64| name@ == key_of(marker_text(d as nat)) implies r == Some(
                    d,
                ) by {
                    lemma_marker_round_trip(d);
                }
            }
            r
        },
    }
}

/// A duration survives the round trip into and out of its marker directory
/// name exactly.
pub fn marker_round_trip(duration_ms: u64) -> (r: Option<u64>)
    ensures
        r == Some(duration_ms),
{
    let name = marker_dir_name(duration_ms);
    decode_marker_dir_name(name.as_str())
}

} // verus!
