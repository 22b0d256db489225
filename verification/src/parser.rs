//! Field-level parsing of yt-dlp progress lines and ffmpeg status lines.
use vstd::prelude::*;

use crate::text;

verus! {

/// A placeholder that yt-dlp prints for a missing value (`NA`, `N/A`, `none`, `null`,
/// `Unknown ...`), judged on the trimmed text, ignoring ASCII case.
pub open spec fn clean_invalid(s: Seq<char>) -> bool {
    let t = text::trim(s);
    ||| t.len() == 0
    ||| text::eq_ic(t, "na"@)
    ||| text::eq_ic(t, "n/a"@)
    ||| text::eq_ic(t, "none"@)
    ||| text::eq_ic(t, "null"@)
    ||| text::contains_ic(t, "unknown"@)
    ||| text::contains_ic(t, "n/a"@)
}

/// Whether a yt-dlp field holds no real value.
pub fn is_clean_invalid(s: &str) -> (b: bool)
    ensures
        b == clean_invalid(s@),
{
    let v = text::chars_of(s);
    let (a, e) = text::trim_bounds(&v);
    if a == e {
        return true;
    }
    let t = text::chars_of(s.substring_char(a, e));
    if text::eq_ignore_case(&t, &text::chars_of("na")) || text::eq_ignore_case(&t, &text::chars_of("n/a"))
        || text::eq_ignore_case(&t, &text::chars_of("none")) || text::eq_ignore_case(&t, &text::chars_of("null")) {
        return true;
    }
    text::contains_ignore_case(&t, &text::chars_of("unknown")) || text::contains_ignore_case(&t, &text::chars_of("n/a"))
}

/// The cleaned value of an optional yt-dlp field.
pub open spec fn cleaned(s: Option<Seq<char>>) -> Seq<char> {
    match s {
        None => Seq::empty(),
        Some(v) => if clean_invalid(text::trim(v)) {
            Seq::empty()
        } else {
            text::trim(v)
        },
    }
}

/// A yt-dlp field, trimmed, or empty where it holds a placeholder.
pub fn clean_field(s: Option<&str>) -> (r: String)
    ensures
        r@ == cleaned(
            match s {
                None => None,
                Some(v) => Some(v@),
            },
        ),
{
    match s {
        None => String::new(),
        Some(v) => {
            let t = text::trim_string(v);
            if is_clean_invalid(t.as_str()) {
                String::new()
            } else {
                t
            }
        },
    }
}

/// The speed that an ffmpeg status line reports after `speed=`, or empty.
pub open spec fn ffmpeg_speed(line: Seq<char>) -> Seq<char> {
    match text::find(line, "speed="@) {
        None => Seq::empty(),
        Some(i) => {
            let w = text::word_prefix(text::trim_start(line.subrange(i + "speed="@.len(), line.len() as int)));
            if w.len() > 0 && w != "N/A"@ && w != "Unknown"@ {
                w
            } else {
                Seq::empty()
            }
        },
    }
}

/// `speed=2.13x` → `2.13x`; `N/A`, `Unknown` or no field → empty.
pub fn parse_ffmpeg_speed(line: &str) -> (r: String)
    ensures
        r@ == ffmpeg_speed(line@),
{
    let v = text::chars_of(line);
    let pat = text::chars_of("speed=");
    match text::find_in(&v, &pat) {
        None => String::new(),
        Some(i) => {
            proof {
                text::lemma_find_from_bounds(v@, pat@, 0);
                assert(text::matches_at(v@, pat@, i as int));
            }
            let (a, b) = text::first_word_bounds(&v, i + pat.len());
            if a < b && !text::range_eq(&v, a, b, &text::chars_of("N/A")) && !text::range_eq(
                &v,
                a,
                b,
                &text::chars_of("Unknown"),
            ) {
                text::substring(line, a, b)
            } else {
                String::new()
            }
        },
    }
}

/// The `H`, `M` and `S` texts of an ffmpeg `time=H:M:S` field; `None` where there is no
/// such field, where it is negative (`-...`) or `N/A`, or where it has not three parts.
pub open spec fn ffmpeg_time_parts(line: Seq<char>) -> Option<(Seq<char>, Seq<char>, Seq<char>)> {
    match text::find(line, "time="@) {
        None => None,
        Some(i) => match text::first_word(line.subrange(i + "time="@.len(), line.len() as int)) {
            None => None,
            Some(w) => if text::starts_with(w, "-"@) || w == "N/A"@ {
                None
            } else if text::split_char(w, ':').len() != 3 {
                None
            } else {
                Some((text::split_char(w, ':')[0], text::split_char(w, ':')[1], text::split_char(w, ':')[2]))
            },
        },
    }
}

/// Splits the `time=` field of an ffmpeg status line into its hour, minute and second
/// texts (the caller turns them into a number of seconds).
pub fn ffmpeg_time_fields(line: &str) -> (r: Option<(String, String, String)>)
    ensures
        r matches Some((h, m, s)) ==> ffmpeg_time_parts(line@) == Some((h@, m@, s@)),
        r is None ==> ffmpeg_time_parts(line@) is None,
{
    let v = text::chars_of(line);
    let pat = text::chars_of("time=");
    match text::find_in(&v, &pat) {
        None => None,
        Some(i) => {
            proof {
                text::lemma_find_from_bounds(v@, pat@, 0);
                assert(text::matches_at(v@, pat@, i as int));
            }
            let (a, b) = text::first_word_bounds(&v, i + pat.len());
            if a == v.len() {
                return None;
            }
            proof {
                text::lemma_trim_start_shape(v@.subrange(i + pat@.len(), v@.len() as int));
                text::lemma_word_prefix_nonempty(v@.subrange(a as int, v@.len() as int));
            }
            proof {
                reveal_strlit("-");
            }
            if text::range_eq(&v, a, a + 1, &text::chars_of("-")) || text::range_eq(&v, a, b, &text::chars_of("N/A")) {
                assert(text::starts_with(v@.subrange(a as int, b as int), "-"@) <==> v@.subrange(
                    a as int,
                    a + 1,
                ) == "-"@) by {
                    assert(v@.subrange(a as int, b as int).subrange(0, 1) == v@.subrange(
                        a as int,
                        a + 1,
                    ));
                }
                return None;
            }
            assert(!text::starts_with(v@.subrange(a as int, b as int), "-"@)) by {
                if text::starts_with(v@.subrange(a as int, b as int), "-"@) {
                    assert(v@.subrange(a as int, b as int).subrange(0, "-"@.len() as int)
                        == v@.subrange(a as int, a + "-"@.len()));
                }
            }
            let word = text::substring(line, a, b);
            let mut parts = text::split_on(word.as_str(), ':');
            if parts.len() != 3 {
                return None;
            }
            let ghost all = parts@;
            let s = parts.pop().unwrap();
            let m = parts.pop().unwrap();
            let h = parts.pop().unwrap();
            assert(text::views(all)[0] == h@ && text::views(all)[1] == m@ && text::views(all)[2] == s@);
            Some((h, m, s))
        },
    }
}

} // verus!

verus! {

/// The text after `PROGRESS_JSON:` at the start of a line.
pub open spec fn progress_body(line: Seq<char>) -> Option<Seq<char>> {
    if text::starts_with(line, "PROGRESS_JSON:"@) {
        Some(line.subrange("PROGRESS_JSON:"@.len() as int, line.len() as int))
    } else {
        None
    }
}

/// The JSON object of a `--progress-template` line (`PROGRESS_JSON:{...}`), if the line
/// is one.
pub fn progress_json_body(line: &str) -> (r: Option<String>)
    ensures
        r matches Some(b) ==> progress_body(line@) == Some(b@),
        r is None ==> progress_body(line@) is None,
{
    let v = text::chars_of(line);
    let pat = text::chars_of("PROGRESS_JSON:");
    if text::eq_at(&v, 0, &pat) {
        Some(text::substring(line, pat.len(), v.len()))
    } else {
        None
    }
}

/// A progress counter given as a JSON string: trimmed; empty or `NA` (any case) gives
/// nothing, otherwise the value that `u64::from_str` gives, if any.
pub open spec fn flex_count_text(s: Seq<char>) -> Option<u64> {
    let t = text::trim(s);
    if t.len() == 0 || text::eq_ic(t, "na"@) {
        None
    } else {
        text::parse_u64(t)
    }
}

pub fn flex_u64_from_text(s: &str) -> (r: Option<u64>)
    ensures
        r == flex_count_text(s@),
{
    let t = text::chars_of(s);
    let (a, b) = text::trim_bounds(&t);
    let tv = text::chars_of(s.substring_char(a, b));
    if a == b || text::eq_ignore_case(&tv, &text::chars_of("na")) {
        None
    } else {
        text::parse_u64_exec(&tv)
    }
}

/// A progress counter given as a JSON integer: negative values give nothing.
pub fn flex_u64_from_i64(v: i64) -> (r: Option<u64>)
    ensures
        r == (if v >= 0 {
            Some(v as u64)
        } else {
            None
        }),
{
    if v >= 0 {
        Some(v as u64)
    } else {
        None
    }
}

/// `s.trim_end_matches(c)`.
pub open spec fn trim_end_char(s: Seq<char>, c: char) -> Seq<char>
    decreases s.len(),
{
    if s.len() > 0 && s.last() == c {
        trim_end_char(s.drop_last(), c)
    } else {
        s
    }
}

/// The number text of the `percent` field: `0%` where it is missing, trimmed, with the
/// trailing `%` signs removed.
pub open spec fn percent_number_text(p: Option<Seq<char>>) -> Seq<char> {
    let raw = match p {
        Some(v) => v,
        None => "0%"@,
    };
    trim_end_char(text::trim(raw), '%')
}

/// The fields of one progress line as yt-dlp's template prints them.
pub struct RawProgress {
    pub percent: Option<String>,
    pub speed: Option<String>,
    pub eta: Option<String>,
    pub downloaded: Option<String>,
    pub total: Option<String>,
    pub fragment_index: Option<u64>,
    pub fragment_count: Option<u64>,
    pub status: Option<String>,
}

/// One progress update, with each text field cleaned. The percentage is kept as the text
/// of the number.
pub struct ProgressFields {
    pub percent_text: String,
    pub speed: String,
    pub eta: String,
    pub downloaded: String,
    pub total: String,
    pub fragment_index: Option<u64>,
    pub fragment_count: Option<u64>,
    pub status: String,
}

fn as_str_opt(o: &Option<String>) -> (r: Option<&str>)
    ensures
        match r {
            Some(s) => text::opt_view(*o) == Some(s@),
            None => text::opt_view(*o) is None,
        },
{
    match o {
        Some(s) => Some(s.as_str()),
        None => None,
    }
}

/// Cleans the fields of a progress line; the status defaults to `downloading`.
pub fn progress_fields(raw: &RawProgress) -> (r: ProgressFields)
    ensures
        r.percent_text@ == percent_number_text(text::opt_view(raw.percent)),
        r.speed@ == cleaned(text::opt_view(raw.speed)),
        r.eta@ == cleaned(text::opt_view(raw.eta)),
        r.downloaded@ == cleaned(text::opt_view(raw.downloaded)),
        r.total@ == cleaned(text::opt_view(raw.total)),
        r.fragment_index == raw.fragment_index,
        r.fragment_count == raw.fragment_count,
        r.status@ == (match text::opt_view(raw.status) {
            Some(s) => s,
            None => "downloading"@,
        }),
{
    let p = match as_str_opt(&raw.percent) {
        Some(s) => s,
        None => "0%",
    };
    let v = text::chars_of(p);
    let (a, mut b) = text::trim_bounds(&v);
    proof {
        assert(v@.subrange(a as int, b as int) == text::trim(v@));
    }
    while b > a && v[b - 1] == '%'
        invariant
            a <= b <= v@.len(),
            trim_end_char(text::trim(v@), '%') == trim_end_char(v@.subrange(a as int, b as int), '%'),
        decreases b - a,
    {
        assert(v@.subrange(a as int, b as int).drop_last() == v@.subrange(a as int, b - 1));
        b = b - 1;
    }
    let percent_text = text::substring(p, a, b);
    let speed = clean_field(as_str_opt(&raw.speed));
    let eta = clean_field(as_str_opt(&raw.eta));
    let downloaded = clean_field(as_str_opt(&raw.downloaded));
    let total = clean_field(as_str_opt(&raw.total));
    let status = match as_str_opt(&raw.status) {
        Some(s) => s.to_owned(),
        None => "downloading".to_owned(),
    };
    ProgressFields {
        percent_text,
        speed,
        eta,
        downloaded,
        total,
        fragment_index: raw.fragment_index,
        fragment_count: raw.fragment_count,
        status,
    }
}

} // verus!

verus! {

/// A cleaned field is either empty or a real value: already trimmed and no placeholder.
/// So cleaning a field twice gives what cleaning it once gives.
pub proof fn law_clean_field_idempotent(s: Option<Seq<char>>)
    ensures
        cleaned(s).len() == 0 || (text::trim(cleaned(s)) == cleaned(s) && !clean_invalid(
            cleaned(s),
        )),
        cleaned(Some(cleaned(s))) == cleaned(s),
{
    let c = cleaned(s);
    if c.len() == 0 {
        assert(text::trim_start(c) == c);
        assert(text::trim_end(c) == c);
        assert(clean_invalid(text::trim(c)));
    } else {
        let v = s.unwrap();
        text::lemma_trim_idempotent(v);
        assert(text::trim(c) == c);
        text::lemma_trim_idempotent(c);
    }
}

} // verus!
