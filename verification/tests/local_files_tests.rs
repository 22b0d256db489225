use media_dl::local_files::{
    assemble_library, chapter_split_args, check_deletion, check_root_set, is_video,
    python_candidates, sort_videos, terminal_candidates, thumbnail_candidates, LocalFolder, LocalVideo,
};

fn video(name: &str) -> LocalVideo {
    LocalVideo { name: name.to_string(), path: format!("/r/{name}"), size: 1, modified: None, thumbnail: None }
}

#[test]
fn is_video_by_extension_any_case() {
    assert!(is_video("/a/b.MP4"));
    assert!(is_video("c.webm"));
    assert!(!is_video("c.txt"));
    assert!(!is_video("noext"));
    assert!(!is_video(".mp4"));
}

#[test]
fn thumbnail_candidates_in_order() {
    let c = thumbnail_candidates("/v/clip.mp4").unwrap();
    assert_eq!(c, vec!["/v/clip.jpg", "/v/clip.jpeg", "/v/clip.png", "/v/clip.webp"]);
    assert!(thumbnail_candidates("/").is_none());
}

#[test]
fn sort_videos_is_case_insensitive_and_stable() {
    let mut a = video("b");
    a.size = 1;
    let mut b = video("B");
    b.size = 2;
    let sorted = sort_videos(vec![a, video("a"), b, video("C")]);
    let names: Vec<&str> = sorted.iter().map(|v| v.name.as_str()).collect();
    assert_eq!(names, vec!["a", "b", "B", "C"]);
    assert_eq!(sorted[1].size, 1);
    assert_eq!(sorted[2].size, 2);
}

#[test]
fn sorting_is_deterministic() {
    let once = sort_videos(vec![video("b"), video("A"), video("a"), video("c")]);
    let names: Vec<String> = once.iter().map(|v| v.name.clone()).collect();
    let twice = sort_videos(once);
    let again: Vec<String> = twice.iter().map(|v| v.name.clone()).collect();
    assert_eq!(names, again);
    assert_eq!(names, vec!["A", "a", "b", "c"]);
}

#[test]
fn library_gets_unsorted_folder() {
    let folders = vec![
        LocalFolder { name: "zeta".to_string(), path: "/r/zeta".to_string(), videos: vec![] },
        LocalFolder { name: "Alpha".to_string(), path: "/r/Alpha".to_string(), videos: vec![] },
    ];
    let lib = assemble_library("/r".to_string(), folders, vec![video("y"), video("X")]);
    let names: Vec<&str> = lib.folders.iter().map(|f| f.name.as_str()).collect();
    assert_eq!(names, vec!["Alpha", "Unsorted", "zeta"]);
    assert_eq!(lib.folders[1].path, "/r");
    let vids: Vec<&str> = lib.folders[1].videos.iter().map(|v| v.name.as_str()).collect();
    assert_eq!(vids, vec!["X", "y"]);
    let lib = assemble_library("/r".to_string(), vec![], vec![]);
    assert!(lib.folders.is_empty());
    assert_eq!(lib.root_path, "/r");
}

#[test]
fn deletion_stays_inside_root() {
    assert!(check_deletion("/r", "/r/a.mp4", true).is_ok());
    assert_eq!(check_deletion("/r", "/r", true).unwrap_err(), "err_local_files_outside_root");
    assert_eq!(check_deletion("/r", "/rx/a.mp4", true).unwrap_err(), "err_local_files_outside_root");
    assert_eq!(check_deletion("/r", "/r/a.mp4", false).unwrap_err(), "err_local_files_outside_root");
    assert_eq!(check_root_set(" ").unwrap_err(), "err_local_files_root_not_set");
    assert!(check_root_set("/r").is_ok());
}

#[test]
fn chapter_split_arguments() {
    let args = chapter_split_args("py", "s.py", "in.mp4", "ff", "fp");
    assert_eq!(args, vec!["py", "s.py", "in.mp4", "--ffmpeg", "ff", "--ffprobe", "fp"]);
}

#[test]
fn launchers_are_tried_in_order() {
    assert_eq!(python_candidates(), vec!["py", "python"]);
    let t: Vec<(String, String)> = terminal_candidates();
    let names: Vec<(&str, &str)> = t.iter().map(|(a, b)| (a.as_str(), b.as_str())).collect();
    assert_eq!(names, vec![("x-terminal-emulator", "-e"), ("gnome-terminal", "--"), ("konsole", "-e")]);
}
