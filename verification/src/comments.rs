//! YouTube comment export: credentials, video ids, sidecar paths and the exported list.
use vstd::prelude::*;

use crate::paths;
use crate::text;

verus! {

// ---------------------------------------------------------------------------
// JSON values
// ---------------------------------------------------------------------------

/// A parsed JSON document. An object holds its members in the order in which its map
/// walks them; member names are distinct.
pub enum JsonValue {
    Null,
    Bool(bool),
    /// The number as written.
    Number(String),
    Str(String),
    Array(Vec<JsonValue>),
    Object(Vec<(String, JsonValue)>),
}

/// `value.get(name).and_then(Value::as_str)` on the members of an object.
pub open spec fn member_str(members: Seq<(String, JsonValue)>, name: Seq<char>) -> Option<
    Seq<char>,
>
    decreases members.len(),
{
    if members.len() == 0 {
        None
    } else if members[0].0@ == name {
        match members[0].1 {
            JsonValue::Str(s) => Some(s@),
            _ => None,
        }
    } else {
        member_str(members.drop_first(), name)
    }
}

/// `value.get(name).and_then(Value::as_str)`.
pub open spec fn get_str(v: JsonValue, name: Seq<char>) -> Option<Seq<char>> {
    match v {
        JsonValue::Object(members) => member_str(members@, name),
        _ => None,
    }
}

/// The member names that may hold a YouTube API key, in the order they are tried.
pub open spec fn api_key_fields() -> Seq<Seq<char>> {
    seq![
        "youtube_api_key"@,
        "youtubeApiKey"@,
        "api_key"@,
        "apiKey"@,
        "developer_key"@,
        "developerKey"@,
        "key"@,
    ]
}

/// The first of the key fields, from the `i`-th on, that holds a string that is not blank
/// once trimmed; that string, trimmed.
pub open spec fn direct_key_from(members: Seq<(String, JsonValue)>, i: int) -> Option<Seq<char>>
    decreases api_key_fields().len() - i,
{
    if i < 0 || i >= api_key_fields().len() {
        None
    } else {
        match member_str(members, api_key_fields()[i]) {
            Some(k) if text::trim(k).len() > 0 => Some(text::trim(k)),
            _ => direct_key_from(members, i + 1),
        }
    }
}

/// The API key in a credentials document: in an object, one of its own key fields first,
/// then the first key found in its member values, in order; in an array, the first key
/// found in its elements; nowhere else.
pub open spec fn find_key(v: JsonValue) -> Option<Seq<char>>
    decreases v, 0int,
{
    match v {
        JsonValue::Object(members) => match direct_key_from(members@, 0) {
            Some(k) => Some(k),
            None => find_key_in_members(members@, 0),
        },
        JsonValue::Array(values) => find_key_in_values(values@, 0),
        _ => None,
    }
}

pub open spec fn find_key_in_members(members: Seq<(String, JsonValue)>, i: int) -> Option<
    Seq<char>,
>
    decreases members, members.len() - i,
{
    if i < 0 || i >= members.len() {
        None
    } else {
        match find_key(members[i].1) {
            Some(k) => Some(k),
            None => find_key_in_members(members, i + 1),
        }
    }
}

pub open spec fn find_key_in_values(values: Seq<JsonValue>, i: int) -> Option<Seq<char>>
    decreases values, values.len() - i,
{
    if i < 0 || i >= values.len() {
        None
    } else {
        match find_key(values[i]) {
            Some(k) => Some(k),
            None => find_key_in_values(values, i + 1),
        }
    }
}

} // verus!

verus! {

/// `value.get(name).and_then(Value::as_str)` on an object's members.
pub fn member_str_exec(members: &Vec<(String, JsonValue)>, name: &str) -> (r: Option<String>)
    ensures
        text::opt_view(r) == member_str(members@, name@),
{
    let n = members.len();
    let mut i: usize = 0;
    assert(members@.subrange(0, n as int) == members@);
    while i < n
        invariant
            i <= n,
            n == members@.len(),
            member_str(members@, name@) == member_str(members@.subrange(i as int, n as int), name@),
        decreases n - i,
    {
        assert(members@.subrange(i as int, n as int).drop_first() == members@.subrange(
            i + 1,
            n as int,
        ));
        assert(members@.subrange(i as int, n as int)[0] == members@[i as int]);
        if text::str_eq(members[i].0.as_str(), name) {
            return match &members[i].1 {
                JsonValue::Str(s) => Some(s.clone()),
                _ => None,
            };
        }
        i = i + 1;
    }
    None
}

/// `value.get(name).and_then(Value::as_str)`.
pub fn get_str_exec(v: &JsonValue, name: &str) -> (r: Option<String>)
    ensures
        text::opt_view(r) == get_str(*v, name@),
{
    match v {
        JsonValue::Object(members) => member_str_exec(members, name),
        _ => None,
    }
}

fn api_key_field(i: usize) -> (r: &'static str)
    requires
        i < 7,
    ensures
        r@ == api_key_fields()[i as int],
{
    match i {
        0 => "youtube_api_key",
        1 => "youtubeApiKey",
        2 => "api_key",
        3 => "apiKey",
        4 => "developer_key",
        5 => "developerKey",
        _ => "key",
    }
}

fn direct_key(members: &Vec<(String, JsonValue)>) -> (r: Option<String>)
    ensures
        text::opt_view(r) == direct_key_from(members@, 0),
{
    let mut i: usize = 0;
    while i < 7
        invariant
            i <= 7,
            api_key_fields().len() == 7,
            direct_key_from(members@, 0) == direct_key_from(members@, i as int),
        decreases 7 - i,
    {
        if let Some(k) = member_str_exec(members, api_key_field(i)) {
            let t = text::trim_string(k.as_str());
            if !t.as_str().is_empty() {
                return Some(t);
            }
        }
        i = i + 1;
    }
    None
}

/// Looks for a YouTube API key anywhere in a credentials document (see `find_key`).
pub fn find_api_key(v: &JsonValue) -> (r: Option<String>)
    ensures
        text::opt_view(r) == find_key(*v),
    decreases v,
{
    match v {
        JsonValue::Object(members) => {
            if let Some(k) = direct_key(members) {
                return Some(k);
            }
            let n = members.len();
            let mut i: usize = 0;
            while i < n
                invariant
                    i <= n,
                    n == members@.len(),
                    *v == JsonValue::Object(*members),
                    direct_key_from(members@, 0) is None,
                    find_key_in_members(members@, 0) == find_key_in_members(members@, i as int),
                decreases n - i,
            {
                assert(decreases_to!(*v => members@[i as int].1));
                if let Some(k) = find_api_key(&members[i].1) {
                    return Some(k);
                }
                i = i + 1;
            }
            None
        },
        JsonValue::Array(values) => {
            let n = values.len();
            let mut i: usize = 0;
            while i < n
                invariant
                    i <= n,
                    n == values@.len(),
                    *v == JsonValue::Array(*values),
                    find_key_in_values(values@, 0) == find_key_in_values(values@, i as int),
                decreases n - i,
            {
                assert(decreases_to!(*v => values@[i as int]));
                if let Some(k) = find_api_key(&values[i]) {
                    return Some(k);
                }
                i = i + 1;
            }
            None
        },
        _ => None,
    }
}

} // verus!

verus! {

// ---------------------------------------------------------------------------
// Credentials
// ---------------------------------------------------------------------------

/// A credentials path that is blank once trimmed is refused before anything is read.
pub fn check_credentials_path(path: &str) -> (r: Result<(), String>)
    ensures
        r is Err <==> text::trim(path@).len() == 0,
        r matches Err(e) ==> e@ == "err_youtube_api_credentials_missing"@,
{
    let t = text::trim_string(path);
    if t.as_str().is_empty() {
        Err("err_youtube_api_credentials_missing".to_owned())
    } else {
        Ok(())
    }
}

/// The API key of a credentials document, or the reason there is none: a service-account
/// document without a key is unsupported; any other document lacks the key.
pub open spec fn api_key_result(v: JsonValue) -> Result<Seq<char>, Seq<char>> {
    match find_key(v) {
        Some(k) => Ok(k),
        None => if get_str(v, "type"@) == Some("service_account"@) {
            Err("err_youtube_service_account_unsupported"@)
        } else {
            Err("err_youtube_api_key_missing"@)
        },
    }
}

/// The API key that a parsed credentials file carries.
pub fn api_key_from_credentials(v: &JsonValue) -> (r: Result<String, String>)
    ensures
        text::result_view(r) == api_key_result(*v),
{
    match find_api_key(v) {
        Some(k) => Ok(k),
        None => {
            let t = get_str_exec(v, "type");
            let is_service = match &t {
                Some(s) => text::str_eq(s.as_str(), "service_account"),
                None => false,
            };
            if is_service {
                Err("err_youtube_service_account_unsupported".to_owned())
            } else {
                Err("err_youtube_api_key_missing".to_owned())
            }
        },
    }
}

/// What the front end is told about a credentials file.
pub struct YoutubeApiCredentialsInfo {
    pub credential_type: String,
    pub project_id: Option<String>,
}

/// The document's `type` (`api_key_json` where it has none; a service account is used
/// through its API key) and its `project_id`.
pub fn credentials_info(v: &JsonValue) -> (r: YoutubeApiCredentialsInfo)
    ensures
        r.credential_type@ == (match get_str(*v, "type"@) {
            Some(t) => if t == "service_account"@ {
                "service_account+api_key"@
            } else {
                t
            },
            None => "api_key_json"@,
        }),
        text::opt_view(r.project_id) == get_str(*v, "project_id"@),
{
    let raw = get_str_exec(v, "type");
    let credential_type = match raw {
        Some(t) => if text::str_eq(t.as_str(), "service_account") {
            "service_account+api_key".to_owned()
        } else {
            t
        },
        None => "api_key_json".to_owned(),
    };
    let project_id = get_str_exec(v, "project_id");
    YoutubeApiCredentialsInfo { credential_type, project_id }
}

// ---------------------------------------------------------------------------
// Video ids
// ---------------------------------------------------------------------------

/// The part of `s` before the first `c` (all of it where there is none).
pub open spec fn before_char(s: Seq<char>, c: char) -> Seq<char> {
    match text::pos_of(s, c) {
        Some(i) => s.subrange(0, i),
        None => s,
    }
}

/// The id that one `name=value` pair of a query gives: the value of a `v` pair, cut at
/// `#` and trimmed, where that is not empty.
pub open spec fn v_pair_id(pair: Seq<char>) -> Option<Seq<char>> {
    if text::starts_with(pair, "v="@) {
        let id = text::trim(before_char(pair.subrange(2, pair.len() as int), '#'));
        if id.len() > 0 {
            Some(id)
        } else {
            None
        }
    } else {
        None
    }
}

/// The first pair, from the `i`-th on, that gives an id.
pub open spec fn query_id(pairs: Seq<Seq<char>>, i: int) -> Option<Seq<char>>
    decreases pairs.len() - i,
{
    if i < 0 || i >= pairs.len() {
        None
    } else {
        match v_pair_id(pairs[i]) {
            Some(id) => Some(id),
            None => query_id(pairs, i + 1),
        }
    }
}

/// A character that ends an id after a path marker.
pub open spec fn ends_id(c: char) -> bool {
    c == '?' || c == '&' || c == '#' || c == '/'
}

/// The index of the first character that ends an id, from `i` on.
pub open spec fn id_end_from(s: Seq<char>, i: int) -> int
    decreases s.len() - i,
{
    if i < 0 || i >= s.len() {
        s.len() as int
    } else if ends_id(s[i]) {
        i
    } else {
        id_end_from(s, i + 1)
    }
}

/// The id after the first occurrence of a path marker (`youtu.be/`, `/shorts/`, ...).
pub open spec fn marker_id(t: Seq<char>, marker: Seq<char>) -> Option<Seq<char>> {
    match text::find(t, marker) {
        None => None,
        Some(i) => {
            let rest = t.subrange(i + marker.len(), t.len() as int);
            let id = text::trim(rest.subrange(0, id_end_from(rest, 0)));
            if id.len() > 0 {
                Some(id)
            } else {
                None
            }
        },
    }
}

/// The video id of a YouTube URL: a `v=` query parameter first, then the path forms
/// `youtu.be/ID`, `/shorts/ID`, `/embed/ID` and `/live/ID`, in that order.
pub open spec fn video_id(url: Seq<char>) -> Result<Seq<char>, Seq<char>> {
    let t = text::trim(url);
    let q = match text::pos_of(t, '?') {
        Some(i) => query_id(text::split_char(t.subrange(i + 1, t.len() as int), '&'), 0),
        None => None,
    };
    if t.len() == 0 {
        Err("err_youtube_video_id_missing"@)
    } else if q is Some {
        Ok(q.unwrap())
    } else if marker_id(t, "youtu.be/"@) is Some {
        Ok(marker_id(t, "youtu.be/"@).unwrap())
    } else if marker_id(t, "/shorts/"@) is Some {
        Ok(marker_id(t, "/shorts/"@).unwrap())
    } else if marker_id(t, "/embed/"@) is Some {
        Ok(marker_id(t, "/embed/"@).unwrap())
    } else if marker_id(t, "/live/"@) is Some {
        Ok(marker_id(t, "/live/"@).unwrap())
    } else {
        Err("err_youtube_video_id_missing"@)
    }
}

fn v_pair_id_exec(pair: &str) -> (r: Option<String>)
    ensures
        text::opt_view(r) == v_pair_id(pair@),
{
    let v = text::chars_of(pair);
    proof {
        reveal_strlit("v=");
    }
    if !text::eq_at(&v, 0, &text::chars_of("v=")) {
        return None;
    }
    let rest = text::substring(pair, 2, v.len());
    let rv = text::chars_of(rest.as_str());
    let cut = match text::pos_from_exec(&rv, '#', 0) {
        Some(i) => {
            proof {
                text::lemma_pos_of(rv@, '#');
            }
            i
        },
        None => rv.len(),
    };
    assert(rv@.subrange(0, rv@.len() as int) == rv@);
    assert(rest@.subrange(0, cut as int) == before_char(rest@, '#'));
    let id = text::trim_string(text::substring(rest.as_str(), 0, cut).as_str());
    if id.as_str().is_empty() {
        None
    } else {
        Some(id)
    }
}

fn marker_id_exec(t: &str, marker: &str) -> (r: Option<String>)
    ensures
        text::opt_view(r) == marker_id(t@, marker@),
{
    let v = text::chars_of(t);
    let m = text::chars_of(marker);
    match text::find_in(&v, &m) {
        None => None,
        Some(i) => {
            proof {
                text::lemma_find_from_bounds(v@, m@, 0);
                assert(text::matches_at(v@, m@, i as int));
            }
            let rest = text::substring(t, i + m.len(), v.len());
            let rv = text::chars_of(rest.as_str());
            let mut j: usize = 0;
            while j < rv.len() && !(rv[j] == '?' || rv[j] == '&' || rv[j] == '#' || rv[j] == '/')
                invariant
                    j <= rv@.len(),
                    id_end_from(rv@, 0) == id_end_from(rv@, j as int),
                decreases rv@.len() - j,
            {
                j = j + 1;
            }
            let id = text::trim_string(text::substring(rest.as_str(), 0, j).as_str());
            if id.as_str().is_empty() {
                None
            } else {
                Some(id)
            }
        },
    }
}

fn query_id_exec(pairs: &Vec<String>) -> (r: Option<String>)
    ensures
        text::opt_view(r) == query_id(text::views(pairs@), 0),
{
    let ghost pv = text::views(pairs@);
    let mut k: usize = 0;
    while k < pairs.len()
        invariant
            k <= pairs@.len(),
            pv == text::views(pairs@),
            pv.len() == pairs@.len(),
            query_id(pv, 0) == query_id(pv, k as int),
        decreases pairs@.len() - k,
    {
        assert(pv[k as int] == pairs@[k as int]@);
        let r = v_pair_id_exec(pairs[k].as_str());
        if r.is_some() {
            return r;
        }
        k = k + 1;
    }
    None
}

/// Extracts the video id from a YouTube URL (see `video_id`).
pub fn youtube_video_id(url: &str) -> (r: Result<String, String>)
    ensures
        text::result_view(r) == video_id(url@),
{
    let t = text::trim_string(url);
    let tv = text::chars_of(t.as_str());
    if tv.len() == 0 {
        return Err("err_youtube_video_id_missing".to_owned());
    }
    let q = match text::pos_from_exec(&tv, '?', 0) {
        Some(i) => {
            proof {
                text::lemma_pos_of(tv@, '?');
            }
            let query = text::substring(t.as_str(), i + 1, tv.len());
            let pairs = text::split_on(query.as_str(), '&');
            query_id_exec(&pairs)
        },
        None => None,
    };
    if let Some(id) = q {
        return Ok(id);
    }
    if let Some(id) = marker_id_exec(t.as_str(), "youtu.be/") {
        return Ok(id);
    }
    if let Some(id) = marker_id_exec(t.as_str(), "/shorts/") {
        return Ok(id);
    }
    if let Some(id) = marker_id_exec(t.as_str(), "/embed/") {
        return Ok(id);
    }
    if let Some(id) = marker_id_exec(t.as_str(), "/live/") {
        return Ok(id);
    }
    Err("err_youtube_video_id_missing".to_owned())
}

} // verus!

verus! {

// ---------------------------------------------------------------------------
// Sidecar file, API errors, exported comments
// ---------------------------------------------------------------------------

/// `<dir>/<stem>.comments.json` next to the downloaded file: its directory (the download
/// directory where it has none) and its stem (the video id where it has none).
pub open spec fn sidecar_path(output_file: Seq<char>, download_dir: Seq<char>, video_id: Seq<
    char,
>) -> Seq<char> {
    let dir = match paths::path_parent(output_file) {
        Some(p) if p.len() > 0 => p,
        _ => download_dir,
    };
    let stem = match paths::path_file_stem(output_file) {
        Some(s) if s.len() > 0 => s,
        _ => video_id,
    };
    paths::path_join(dir, stem + ".comments.json"@)
}

pub fn comments_sidecar_path(output_file: &str, download_dir: &str, video_id: &str) -> (r:
    String)
    ensures
        r@ == sidecar_path(output_file@, download_dir@, video_id@),
{
    let dir = match paths::parent_of(output_file) {
        Some(p) => if p.as_str().is_empty() {
            download_dir.to_owned()
        } else {
            p
        },
        None => download_dir.to_owned(),
    };
    let stem = match paths::file_stem_of(output_file) {
        Some(s) => if s.as_str().is_empty() {
            video_id.to_owned()
        } else {
            s
        },
        None => video_id.to_owned(),
    };
    let mut name: Vec<char> = Vec::new();
    text::push_str(&mut name, stem.as_str());
    text::push_str(&mut name, ".comments.json");
    let name = text::string_from_chars(&name);
    paths::join_path(dir.as_str(), name.as_str())
}

/// `error.message` of a JSON error document, where it is a string.
pub open spec fn error_message_of(v: JsonValue) -> Option<Seq<char>> {
    match v {
        JsonValue::Object(members) => match error_member(members@) {
            Some(e) => get_str(e, "message"@),
            None => None,
        },
        _ => None,
    }
}

/// `value.get("error")`.
pub open spec fn error_member(members: Seq<(String, JsonValue)>) -> Option<JsonValue>
    decreases members.len(),
{
    if members.len() == 0 {
        None
    } else if members[0].0@ == "error"@ {
        Some(members[0].1)
    } else {
        error_member(members.drop_first())
    }
}

fn error_message_exec(v: &JsonValue) -> (r: Option<String>)
    ensures
        text::opt_view(r) == error_message_of(*v),
{
    match v {
        JsonValue::Object(members) => {
            let n = members.len();
            let mut i: usize = 0;
            assert(members@.subrange(0, n as int) == members@);
            while i < n
                invariant
                    i <= n,
                    n == members@.len(),
                    *v == JsonValue::Object(*members),
                    error_member(members@) == error_member(members@.subrange(i as int, n as int)),
                decreases n - i,
            {
                assert(members@.subrange(i as int, n as int).drop_first() == members@.subrange(
                    i + 1,
                    n as int,
                ));
                assert(members@.subrange(i as int, n as int)[0] == members@[i as int]);
                if text::str_eq(members[i].0.as_str(), "error") {
                    return get_str_exec(&members[i].1, "message");
                }
                i = i + 1;
            }
            None
        },
        _ => None,
    }
}

/// `err_youtube_comments_api:<status>:<error.message>`, or the raw body where the body is
/// not a JSON error document with a message.
pub open spec fn api_error_text(status: u16, body: Seq<char>, parsed: Option<JsonValue>) -> Seq<
    char,
> {
    let detail = match parsed {
        Some(v) => match error_message_of(v) {
            Some(m) => m,
            None => body,
        },
        None => body,
    };
    "err_youtube_comments_api:"@ + text::dec(status as nat) + seq![':'] + detail
}

/// The error reported for a failed comments request; `parsed` is the body parsed as JSON,
/// where it parses.
pub fn api_error_message(status: u16, body: &str, parsed: Option<&JsonValue>) -> (r: String)
    ensures
        r@ == api_error_text(
            status,
            body@,
            match parsed {
                Some(v) => Some(*v),
                None => None,
            },
        ),
{
    let detail = match parsed {
        Some(v) => match error_message_exec(v) {
            Some(m) => m,
            None => body.to_owned(),
        },
        None => body.to_owned(),
    };
    let mut out: Vec<char> = Vec::new();
    text::push_str(&mut out, "err_youtube_comments_api:");
    text::push_decimal(&mut out, status as u64);
    out.push(':');
    text::push_str(&mut out, detail.as_str());
    text::string_from_chars(&out)
}

/// At most this many comments are exported.
pub const TOP_COMMENT_COUNT: usize = 10;

/// The query of the comment-threads request: the snippets of the ten most relevant threads
/// of the video, authenticated by the API key.
pub fn comment_request_query(video_id: &str, api_key: &str) -> (r: Vec<(String, String)>)
    ensures
        text::pair_views(r@) == seq![
            ("part"@, "snippet"@),
            ("videoId"@, video_id@),
            ("maxResults"@, "10"@),
            ("order"@, "relevance"@),
            ("key"@, api_key@),
        ],
{
    let mut r: Vec<(String, String)> = Vec::new();
    r.push(("part".to_owned(), "snippet".to_owned()));
    r.push(("videoId".to_owned(), video_id.to_owned()));
    r.push(("maxResults".to_owned(), "10".to_owned()));
    r.push(("order".to_owned(), "relevance".to_owned()));
    r.push(("key".to_owned(), api_key.to_owned()));
    assert(text::pair_views(r@) =~= seq![
        ("part"@, "snippet"@),
        ("videoId"@, video_id@),
        ("maxResults"@, "10"@),
        ("order"@, "relevance"@),
        ("key"@, api_key@),
    ]);
    r
}

/// One comment thread of the API response.
pub struct CommentThread {
    pub id: String,
    pub author_display_name: String,
    pub author_channel_id: Option<String>,
    pub text_original: String,
    pub like_count: u64,
    pub published_at: String,
    pub updated_at: String,
    pub total_reply_count: u64,
}

/// One exported comment; `rank` counts from 1.
pub struct ExportedComment {
    pub rank: usize,
    pub id: String,
    pub author: String,
    pub author_channel_id: String,
    pub text: String,
    pub like_count: u64,
    pub published_at: String,
    pub updated_at: String,
    pub reply_count: u64,
}

/// `e` is the export of thread `t` at rank `rank`.
pub open spec fn exported_from(e: ExportedComment, t: CommentThread, rank: int) -> bool {
    &&& e.rank == rank
    &&& e.id@ == t.id@
    &&& e.author@ == t.author_display_name@
    &&& e.author_channel_id@ == (match t.author_channel_id {
        Some(c) => c@,
        None => Seq::empty(),
    })
    &&& e.text@ == t.text_original@
    &&& e.like_count == t.like_count
    &&& e.published_at@ == t.published_at@
    &&& e.updated_at@ == t.updated_at@
    &&& e.reply_count == t.total_reply_count
}

/// The first ten threads, in order, as exported comments ranked 1, 2, ...
pub fn top_comments(threads: &Vec<CommentThread>) -> (r: Vec<ExportedComment>)
    ensures
        r@.len() == if threads@.len() < TOP_COMMENT_COUNT {
            threads@.len()
        } else {
            TOP_COMMENT_COUNT as nat
        },
        forall|i: int| 0 <= i < r@.len() ==> exported_from(#[trigger] r@[i], threads@[i], i + 1),
{
    let mut out: Vec<ExportedComment> = Vec::new();
    let mut i: usize = 0;
    while i < threads.len() && i < TOP_COMMENT_COUNT
        invariant
            i <= threads@.len(),
            i <= TOP_COMMENT_COUNT,
            out@.len() == i,
            forall|j: int| 0 <= j < i ==> exported_from(#[trigger] out@[j], threads@[j], j + 1),
        decreases threads@.len() - i,
    {
        let t = &threads[i];
        let channel = match &t.author_channel_id {
            Some(c) => c.clone(),
            None => String::new(),
        };
        out.push(
            ExportedComment {
                rank: i + 1,
                id: t.id.clone(),
                author: t.author_display_name.clone(),
                author_channel_id: channel,
                text: t.text_original.clone(),
                like_count: t.like_count,
                published_at: t.published_at.clone(),
                updated_at: t.updated_at.clone(),
                reply_count: t.total_reply_count,
            },
        );
        i = i + 1;
    }
    out
}

} // verus!

verus! {

/// Every video id that a URL yields is a real id: not empty, and without white space at
/// either end.
pub proof fn law_video_id_is_trimmed(url: Seq<char>)
    ensures
        video_id(url) matches Ok(id) ==> id.len() > 0 && text::trim(id) == id,
{
    let t = text::trim(url);
    match text::pos_of(t, '?') {
        Some(i) => {
            text::lemma_pos_of(t, '?');
            lemma_query_id_trimmed(text::split_char(t.subrange(i + 1, t.len() as int), '&'), 0);
        },
        None => {},
    }
    lemma_marker_id_trimmed(t, "youtu.be/"@);
    lemma_marker_id_trimmed(t, "/shorts/"@);
    lemma_marker_id_trimmed(t, "/embed/"@);
    lemma_marker_id_trimmed(t, "/live/"@);
}

proof fn lemma_query_id_trimmed(pairs: Seq<Seq<char>>, i: int)
    ensures
        query_id(pairs, i) matches Some(id) ==> id.len() > 0 && text::trim(id) == id,
    decreases pairs.len() - i,
{
    if 0 <= i < pairs.len() {
        let pair = pairs[i];
        if text::starts_with(pair, "v="@) {
            text::lemma_trim_idempotent(before_char(pair.subrange(2, pair.len() as int), '#'));
        }
        lemma_query_id_trimmed(pairs, i + 1);
    }
}

proof fn lemma_marker_id_trimmed(t: Seq<char>, marker: Seq<char>)
    ensures
        marker_id(t, marker) matches Some(id) ==> id.len() > 0 && text::trim(id) == id,
{
    match text::find(t, marker) {
        Some(i) => {
            let rest = t.subrange(i + marker.len(), t.len() as int);
            text::lemma_trim_idempotent(rest.subrange(0, id_end_from(rest, 0)));
        },
        None => {},
    }
}

} // verus!

verus! {

/// Member `name` holds no usable key: it is missing, not a string, or blank.
pub open spec fn no_key_in(members: Seq<(String, JsonValue)>, name: Seq<char>) -> bool {
    match member_str(members, name) {
        Some(k) => text::trim(k).len() == 0,
        None => true,
    }
}

/// The key fields of a credentials object, in the order they are tried: `youtube_api_key`,
/// `youtubeApiKey`, `api_key`, `apiKey`, `developer_key`, `developerKey`, `key`. The first
/// that holds a non-blank string gives the key, trimmed; where none does, the key is looked
/// for in the member values.
pub proof fn law_api_key_fields_in_order(members: Vec<(String, JsonValue)>, s: Seq<char>)
    ensures
        member_str(members@, "youtube_api_key"@) == Some(s) && text::trim(s).len() > 0 ==> find_key(
            JsonValue::Object(members),
        ) == Some(text::trim(s)),
        no_key_in(members@, "youtube_api_key"@) && member_str(members@, "youtubeApiKey"@) == Some(s) && text::trim(s).len() > 0 ==> find_key(
            JsonValue::Object(members),
        ) == Some(text::trim(s)),
        no_key_in(members@, "youtube_api_key"@) && no_key_in(members@, "youtubeApiKey"@) && member_str(members@, "api_key"@) == Some(s) && text::trim(s).len() > 0 ==> find_key(
            JsonValue::Object(members),
        ) == Some(text::trim(s)),
        no_key_in(members@, "youtube_api_key"@) && no_key_in(members@, "youtubeApiKey"@) && no_key_in(members@, "api_key"@) && member_str(members@, "apiKey"@) == Some(s) && text::trim(s).len() > 0 ==> find_key(
            JsonValue::Object(members),
        ) == Some(text::trim(s)),
        no_key_in(members@, "youtube_api_key"@) && no_key_in(members@, "youtubeApiKey"@) && no_key_in(members@, "api_key"@) && no_key_in(members@, "apiKey"@) && member_str(members@, "developer_key"@) == Some(s) && text::trim(s).len() > 0 ==> find_key(
            JsonValue::Object(members),
        ) == Some(text::trim(s)),
        no_key_in(members@, "youtube_api_key"@) && no_key_in(members@, "youtubeApiKey"@) && no_key_in(members@, "api_key"@) && no_key_in(members@, "apiKey"@) && no_key_in(members@, "developer_key"@) && member_str(members@, "developerKey"@) == Some(s) && text::trim(s).len() > 0 ==> find_key(
            JsonValue::Object(members),
        ) == Some(text::trim(s)),
        no_key_in(members@, "youtube_api_key"@) && no_key_in(members@, "youtubeApiKey"@) && no_key_in(members@, "api_key"@) && no_key_in(members@, "apiKey"@) && no_key_in(members@, "developer_key"@) && no_key_in(members@, "developerKey"@) && member_str(members@, "key"@) == Some(s) && text::trim(s).len() > 0 ==> find_key(
            JsonValue::Object(members),
        ) == Some(text::trim(s)),
        no_key_in(members@, "youtube_api_key"@) && no_key_in(members@, "youtubeApiKey"@) && no_key_in(members@, "api_key"@) && no_key_in(members@, "apiKey"@) && no_key_in(members@, "developer_key"@) && no_key_in(members@, "developerKey"@) && no_key_in(members@, "key"@) ==> find_key(
            JsonValue::Object(members),
        ) == find_key_in_members(members@, 0),
{
    reveal_with_fuel(direct_key_from, 8);
}

} // verus!
