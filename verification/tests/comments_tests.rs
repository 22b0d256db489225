use media_dl::comments::{
    api_error_message, api_key_from_credentials, check_credentials_path, comment_request_query,
    comments_sidecar_path,
    credentials_info, find_api_key, top_comments, youtube_video_id, CommentThread, JsonValue,
};

fn s(v: &str) -> String {
    v.to_string()
}

fn obj(members: Vec<(&str, JsonValue)>) -> JsonValue {
    JsonValue::Object(members.into_iter().map(|(k, v)| (k.to_string(), v)).collect())
}

fn jstr(v: &str) -> JsonValue {
    JsonValue::Str(v.to_string())
}

#[test]
fn extracts_common_youtube_video_urls() {
    assert_eq!(
        youtube_video_id("https://www.youtube.com/watch?v=dQw4w9WgXcQ&list=abc").unwrap(),
        "dQw4w9WgXcQ"
    );
    assert_eq!(
        youtube_video_id("https://youtu.be/dQw4w9WgXcQ?t=3").unwrap(),
        "dQw4w9WgXcQ"
    );
    assert_eq!(
        youtube_video_id("https://www.youtube.com/shorts/dQw4w9WgXcQ").unwrap(),
        "dQw4w9WgXcQ"
    );
}

#[test]
fn youtube_video_id_other_forms_and_errors() {
    assert_eq!(youtube_video_id("  https://www.youtube.com/embed/abc123/x ").unwrap(), "abc123");
    assert_eq!(youtube_video_id("https://www.youtube.com/live/xyz?feature=share").unwrap(), "xyz");
    assert_eq!(youtube_video_id("https://m.youtube.com/watch?feature=a&v=id9#t=1").unwrap(), "id9");
    assert_eq!(youtube_video_id("https://www.youtube.com/watch?v=&x=1").unwrap_err(), "err_youtube_video_id_missing");
    assert_eq!(youtube_video_id("   ").unwrap_err(), "err_youtube_video_id_missing");
    assert_eq!(youtube_video_id("https://example.com/").unwrap_err(), "err_youtube_video_id_missing");
}

#[test]
fn video_ids_are_trimmed_and_not_empty() {
    assert_eq!(youtube_video_id("https://www.youtube.com/watch?v=  abc  #t").unwrap(), "abc");
    assert_eq!(youtube_video_id("https://youtu.be/ \tid \t?x").unwrap(), "id");
    assert_eq!(youtube_video_id("https://youtu.be/ ?x").unwrap_err(), "err_youtube_video_id_missing");
}

#[test]
fn extracts_api_key_recursively() {
    let value = obj(vec![
        ("extra", obj(vec![("youtube_api_key", jstr("AIza-demo"))])),
        ("project_id", jstr("demo")),
        ("type", jstr("service_account")),
    ]);
    assert_eq!(find_api_key(&value).as_deref(), Some("AIza-demo"));
}

#[test]
fn api_key_search_order() {
    let value = obj(vec![
        ("a", obj(vec![("key", jstr("nested"))])),
        ("apiKey", jstr("  ")),
        ("key", jstr(" direct ")),
    ]);
    assert_eq!(find_api_key(&value).as_deref(), Some("direct"));
    let arr = JsonValue::Array(vec![JsonValue::Null, obj(vec![("developerKey", jstr("k2"))])]);
    assert_eq!(find_api_key(&arr).as_deref(), Some("k2"));
    assert_eq!(find_api_key(&jstr("key")), None);
}

#[test]
fn credentials_errors_and_info() {
    let service = obj(vec![("project_id", jstr("demo")), ("type", jstr("service_account"))]);
    assert_eq!(api_key_from_credentials(&service).unwrap_err(), "err_youtube_service_account_unsupported");
    let other = obj(vec![("type", jstr("other"))]);
    assert_eq!(api_key_from_credentials(&other).unwrap_err(), "err_youtube_api_key_missing");
    let with_key = obj(vec![("api_key", jstr("K")), ("type", jstr("service_account"))]);
    assert_eq!(api_key_from_credentials(&with_key).unwrap(), "K");

    let info = credentials_info(&service);
    assert_eq!(info.credential_type, "service_account+api_key");
    assert_eq!(info.project_id.as_deref(), Some("demo"));
    let info = credentials_info(&obj(vec![]));
    assert_eq!(info.credential_type, "api_key_json");
    assert_eq!(info.project_id, None);

    assert_eq!(check_credentials_path("  ").unwrap_err(), "err_youtube_api_credentials_missing");
    assert!(check_credentials_path("/x.json").is_ok());
}

#[test]
fn sidecar_is_next_to_completed_video() {
    let path = comments_sidecar_path("/tmp/video/final.mp4", "/fallback", "abc");
    assert_eq!(std::path::PathBuf::from(path), std::path::PathBuf::from("/tmp/video/final.comments.json"));
}

#[test]
fn sidecar_falls_back_to_download_dir_and_video_id() {
    let path = comments_sidecar_path("final.mp4", "/fallback", "abc");
    assert_eq!(path, "/fallback/final.comments.json");
    let path = comments_sidecar_path("", "/fallback", "abc");
    assert_eq!(path, "/fallback/abc.comments.json");
}

#[test]
fn api_error_message_uses_error_message() {
    let parsed = obj(vec![("error", obj(vec![("code", JsonValue::Number(s("403"))), ("message", jstr("quota"))]))]);
    assert_eq!(api_error_message(403, "{...}", Some(&parsed)), "err_youtube_comments_api:403:quota");
    assert_eq!(api_error_message(500, "oops", None), "err_youtube_comments_api:500:oops");
    let no_msg = obj(vec![("error", jstr("x"))]);
    assert_eq!(api_error_message(404, "body", Some(&no_msg)), "err_youtube_comments_api:404:body");
}

fn thread(i: u64) -> CommentThread {
    CommentThread {
        id: format!("id{i}"),
        author_display_name: format!("a{i}"),
        author_channel_id: if i % 2 == 0 { Some(format!("c{i}")) } else { None },
        text_original: format!("t{i}"),
        like_count: i,
        published_at: s("p"),
        updated_at: s("u"),
        total_reply_count: i * 2,
    }
}

#[test]
fn top_comments_ranks_first_ten() {
    let threads: Vec<CommentThread> = (0..12).map(thread).collect();
    let out = top_comments(&threads);
    assert_eq!(out.len(), 10);
    assert_eq!(out[0].rank, 1);
    assert_eq!(out[0].id, "id0");
    assert_eq!(out[0].author_channel_id, "c0");
    assert_eq!(out[1].author_channel_id, "");
    assert_eq!(out[9].rank, 10);
    assert_eq!(out[9].reply_count, 18);
    let few: Vec<CommentThread> = (0..3).map(thread).collect();
    assert_eq!(top_comments(&few).len(), 3);
}

#[test]
fn comment_request_asks_for_ten_relevant_threads() {
    let q = comment_request_query("vid", "KEY");
    let pairs: Vec<(&str, &str)> = q.iter().map(|(a, b)| (a.as_str(), b.as_str())).collect();
    assert_eq!(
        pairs,
        vec![("part", "snippet"), ("videoId", "vid"), ("maxResults", "10"), ("order", "relevance"), ("key", "KEY")]
    );
}
