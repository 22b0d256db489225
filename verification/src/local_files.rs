//! The local video library: which files are videos, their thumbnails, how the library is
//! grouped and ordered, and which deletions stay inside the library.
use vstd::prelude::*;

use crate::paths;
use crate::sorting;
use crate::sorting::Named;
use crate::text;

verus! {

pub struct LocalLibrary {
    pub root_path: String,
    pub folders: Vec<LocalFolder>,
}

pub struct LocalFolder {
    pub name: String,
    pub path: String,
    pub videos: Vec<LocalVideo>,
}

pub struct LocalVideo {
    pub name: String,
    pub path: String,
    pub size: u64,
    pub modified: Option<u64>,
    pub thumbnail: Option<String>,
}

impl Named for LocalVideo {
    open spec fn name_view(&self) -> Seq<char> {
        self.name@
    }

    fn name_str(&self) -> (r: &str) {
        self.name.as_str()
    }
}

impl Named for LocalFolder {
    open spec fn name_view(&self) -> Seq<char> {
        self.name@
    }

    fn name_str(&self) -> (r: &str) {
        self.name.as_str()
    }
}

/// The extensions of the files that the library lists, in lower case.
pub open spec fn video_extensions() -> Seq<Seq<char>> {
    seq!["mp4"@, "mkv"@, "webm"@, "mov"@, "m4v"@, "avi"@]
}

/// The extensions of thumbnail images, in the order they are looked for.
pub open spec fn image_extensions() -> Seq<Seq<char>> {
    seq!["jpg"@, "jpeg"@, "png"@, "webp"@]
}

/// A file is a video where its extension, lower-cased, is a video extension.
pub open spec fn is_video_path(p: Seq<char>) -> bool {
    match paths::path_extension(p) {
        Some(e) => video_extensions().contains(sorting::lower_seq(e)),
        None => false,
    }
}

pub fn is_video(path: &str) -> (b: bool)
    ensures
        b == is_video_path(path@),
{
    match paths::extension_of(path) {
        None => false,
        Some(e) => {
            let l = text::lower_chars(e.as_str());
            let r = text::chars_eq_str(&l, "mp4") || text::chars_eq_str(&l, "mkv")
                || text::chars_eq_str(&l, "webm") || text::chars_eq_str(&l, "mov")
                || text::chars_eq_str(&l, "m4v") || text::chars_eq_str(&l, "avi");
            proof {
                let exts = video_extensions();
                if exts.contains(l@) {
                    let k = choose|k: int| 0 <= k < exts.len() && exts[k] == l@;
                    assert(k == 0 || k == 1 || k == 2 || k == 3 || k == 4 || k == 5);
                }
                if r {
                    if l@ == "mp4"@ {
                        assert(exts[0] == l@);
                    } else if l@ == "mkv"@ {
                        assert(exts[1] == l@);
                    } else if l@ == "webm"@ {
                        assert(exts[2] == l@);
                    } else if l@ == "mov"@ {
                        assert(exts[3] == l@);
                    } else if l@ == "m4v"@ {
                        assert(exts[4] == l@);
                    } else {
                        assert(exts[5] == l@);
                    }
                }
            }
            r
        },
    }
}

/// The image files that may be the thumbnail of a video, in the order they are tried:
/// `<dir>/<stem>.<ext>` for each image extension; nothing where the path has no stem or
/// no parent.
pub open spec fn thumbnail_paths(p: Seq<char>) -> Option<Seq<Seq<char>>> {
    match (paths::path_file_stem(p), paths::path_parent(p)) {
        (Some(stem), Some(dir)) => Some(
            image_extensions().map_values(
                |e: Seq<char>| paths::path_join(dir, stem + seq!['.'] + e),
            ),
        ),
        _ => None,
    }
}

fn image_extension(i: usize) -> (r: &'static str)
    requires
        i < 4,
    ensures
        r@ == image_extensions()[i as int],
{
    match i {
        0 => "jpg",
        1 => "jpeg",
        2 => "png",
        _ => "webp",
    }
}

/// The candidate thumbnails of a video file; the first one that exists is its thumbnail.
pub fn thumbnail_candidates(path: &str) -> (r: Option<Vec<String>>)
    ensures
        match r {
            Some(v) => thumbnail_paths(path@) == Some(text::views(v@)),
            None => thumbnail_paths(path@) is None,
        },
{
    let stem = match paths::file_stem_of(path) {
        Some(s) => s,
        None => return None,
    };
    let dir = match paths::parent_of(path) {
        Some(d) => d,
        None => return None,
    };
    let ghost want = image_extensions().map_values(
        |e: Seq<char>| paths::path_join(dir@, stem@ + seq!['.'] + e),
    );
    let mut out: Vec<String> = Vec::new();
    let mut i: usize = 0;
    while i < 4
        invariant
            i <= 4,
            image_extensions().len() == 4,
            want.len() == 4,
            want == image_extensions().map_values(
                |e: Seq<char>| paths::path_join(dir@, stem@ + seq!['.'] + e),
            ),
            text::views(out@) == want.take(i as int),
        decreases 4 - i,
    {
        let mut name: Vec<char> = Vec::new();
        text::push_str(&mut name, stem.as_str());
        name.push('.');
        let ext = image_extension(i);
        text::push_str(&mut name, ext);
        assert(name@ == stem@ + seq!['.'] + image_extensions()[i as int]);
        let name = text::string_from_chars(&name);
        let ghost before = out@;
        out.push(paths::join_path(dir.as_str(), name.as_str()));
        assert(text::views(out@) == text::views(before).push(out@[i as int]@));
        assert(out@[i as int]@ == want[i as int]);
        assert(want.take(i + 1) == want.take(i as int).push(want[i as int]));
        i = i + 1;
    }
    assert(want.take(4) == want);
    Some(out)
}

/// The videos of one directory, in name order.
pub fn sort_videos(videos: Vec<LocalVideo>) -> (r: Vec<LocalVideo>)
    ensures
        sorting::is_stable_sort(videos@, r@),
{
    sorting::sort_by_name(videos)
}

/// The library: the sub-folders found under the root, plus an `Unsorted` folder (at the
/// root's path) for the videos directly in the root where there are any; the folders in
/// name order.
pub open spec fn library_of(
    root_path: Seq<char>,
    folders: Seq<LocalFolder>,
    unsorted: Seq<LocalVideo>,
    lib: LocalLibrary,
) -> bool {
    &&& lib.root_path@ == root_path
    &&& if unsorted.len() == 0 {
        sorting::is_stable_sort(folders, lib.folders@)
    } else {
        exists|u: LocalFolder|
            {
                &&& u.name@ == "Unsorted"@
                &&& u.path@ == root_path
                &&& sorting::is_stable_sort(unsorted, u.videos@)
                &&& sorting::is_stable_sort(folders.push(u), lib.folders@)
            }
    }
}

/// Puts the scanned folders and the root's own videos together into a library.
pub fn assemble_library(root_path: String, folders: Vec<LocalFolder>, unsorted: Vec<LocalVideo>) -> (r:
    LocalLibrary)
    ensures
        library_of(root_path@, folders@, unsorted@, r),
{
    let ghost f0 = folders@;
    let ghost u0 = unsorted@;
    let mut folders = folders;
    if unsorted.len() > 0 {
        let videos = sorting::sort_by_name(unsorted);
        let u = LocalFolder { name: "Unsorted".to_owned(), path: root_path.clone(), videos };
        let ghost gu = u;
        folders.push(u);
        let sorted = sorting::sort_by_name(folders);
        let r = LocalLibrary { root_path, folders: sorted };
        assert(f0.push(gu) == folders@);
        return r;
    }
    let sorted = sorting::sort_by_name(folders);
    LocalLibrary { root_path, folders: sorted }
}

/// Refuses a library root that is blank once trimmed.
pub fn check_root_set(root_path: &str) -> (r: Result<(), String>)
    ensures
        r is Err <==> text::trim(root_path@).len() == 0,
        r matches Err(e) ==> e@ == "err_local_files_root_not_set"@,
{
    if text::trim_string(root_path).as_str().is_empty() {
        Err("err_local_files_root_not_set".to_owned())
    } else {
        Ok(())
    }
}

/// A deletion is allowed only for a path strictly inside the (canonical) root that is of
/// the expected kind (a file for a file deletion, a directory for a folder deletion).
pub open spec fn deletion_allowed(root: Seq<char>, target: Seq<char>, right_kind: bool) -> bool {
    paths::path_starts_with(target, root) && !paths::path_eq(target, root) && right_kind
}

pub fn check_deletion(root: &str, target: &str, right_kind: bool) -> (r: Result<(), String>)
    ensures
        r is Ok <==> deletion_allowed(root@, target@, right_kind),
        r matches Err(e) ==> e@ == "err_local_files_outside_root"@,
{
    if !paths::path_has_prefix(target, root) || paths::same_path(target, root) || !right_kind {
        Err("err_local_files_outside_root".to_owned())
    } else {
        Ok(())
    }
}

/// The Python launchers tried for the chapter-splitting script, in order.
pub fn python_candidates() -> (r: Vec<String>)
    ensures
        text::views(r@) == seq!["py"@, "python"@],
{
    let mut r: Vec<String> = Vec::new();
    r.push("py".to_owned());
    r.push("python".to_owned());
    assert(text::views(r@) =~= seq!["py"@, "python"@]);
    r
}

/// The terminal emulators tried on Unix desktops, in order, each with the argument that
/// makes it run the command that follows.
pub fn terminal_candidates() -> (r: Vec<(String, String)>)
    ensures
        text::pair_views(r@) == seq![
            ("x-terminal-emulator"@, "-e"@),
            ("gnome-terminal"@, "--"@),
            ("konsole"@, "-e"@),
        ],
{
    let mut r: Vec<(String, String)> = Vec::new();
    r.push(("x-terminal-emulator".to_owned(), "-e".to_owned()));
    r.push(("gnome-terminal".to_owned(), "--".to_owned()));
    r.push(("konsole".to_owned(), "-e".to_owned()));
    assert(text::pair_views(r@) =~= seq![
        ("x-terminal-emulator"@, "-e"@),
        ("gnome-terminal"@, "--"@),
        ("konsole"@, "-e"@),
    ]);
    r
}

/// The arguments that run the chapter-splitting script in a terminal:
/// `python script input --ffmpeg ffmpeg --ffprobe ffprobe`.
pub fn chapter_split_args(python: &str, script: &str, input: &str, ffmpeg: &str, ffprobe: &str) -> (r:
    Vec<String>)
    ensures
        text::views(r@) == seq![
            python@,
            script@,
            input@,
            "--ffmpeg"@,
            ffmpeg@,
            "--ffprobe"@,
            ffprobe@,
        ],
{
    let mut r: Vec<String> = Vec::new();
    r.push(python.to_owned());
    r.push(script.to_owned());
    r.push(input.to_owned());
    r.push("--ffmpeg".to_owned());
    r.push(ffmpeg.to_owned());
    r.push("--ffprobe".to_owned());
    r.push(ffprobe.to_owned());
    assert(text::views(r@) =~= seq![
        python@,
        script@,
        input@,
        "--ffmpeg"@,
        ffmpeg@,
        "--ffprobe"@,
        ffprobe@,
    ]);
    r
}

} // verus!

verus! {

/// A file is listed as a video exactly where it has an extension that lower-cases to one
/// of `mp4`, `mkv`, `webm`, `mov`, `m4v` or `avi`.
pub proof fn law_video_files_by_extension(p: Seq<char>)
    ensures
        is_video_path(p) <==> (paths::path_extension(p) matches Some(e) && (sorting::lower_seq(e) == "mp4"@ || sorting::lower_seq(e) == "mkv"@ || sorting::lower_seq(e) == "webm"@ || sorting::lower_seq(e) == "mov"@ || sorting::lower_seq(e) == "m4v"@ || sorting::lower_seq(e) == "avi"@)),
{
    match paths::path_extension(p) {
        Some(e) => {
            let exts = video_extensions();
            if exts.contains(sorting::lower_seq(e)) {
                let i = choose|i: int| 0 <= i < exts.len() && exts[i] == sorting::lower_seq(e);
                assert(0 <= i < 6);
            } else {
            if sorting::lower_seq(e) == "mp4"@ {
                assert(exts[0] == sorting::lower_seq(e));
            }
            if sorting::lower_seq(e) == "mkv"@ {
                assert(exts[1] == sorting::lower_seq(e));
            }
            if sorting::lower_seq(e) == "webm"@ {
                assert(exts[2] == sorting::lower_seq(e));
            }
            if sorting::lower_seq(e) == "mov"@ {
                assert(exts[3] == sorting::lower_seq(e));
            }
            if sorting::lower_seq(e) == "m4v"@ {
                assert(exts[4] == sorting::lower_seq(e));
            }
            if sorting::lower_seq(e) == "avi"@ {
                assert(exts[5] == sorting::lower_seq(e));
            }
            }
        },
        None => {},
    }
}

} // verus!

verus! {

/// The thumbnails looked for beside a video `dir/stem.ext` are, in this order,
/// `dir/stem.jpg`, `dir/stem.jpeg`, `dir/stem.png` and `dir/stem.webp`.
pub proof fn law_thumbnail_candidates_in_order(p: Seq<char>)
    ensures
        thumbnail_paths(p) == match (paths::path_file_stem(p), paths::path_parent(p)) {
            (Some(stem), Some(dir)) => Some(
                seq![
                    paths::path_join(dir, stem + seq!['.'] + "jpg"@),
                    paths::path_join(dir, stem + seq!['.'] + "jpeg"@),
                    paths::path_join(dir, stem + seq!['.'] + "png"@),
                    paths::path_join(dir, stem + seq!['.'] + "webp"@),
                ],
            ),
            _ => None,
        },
{
    match (paths::path_file_stem(p), paths::path_parent(p)) {
        (Some(stem), Some(dir)) => {
            let got = image_extensions().map_values(
                |e: Seq<char>| paths::path_join(dir, stem + seq!['.'] + e),
            );
            assert(got =~= seq![
                paths::path_join(dir, stem + seq!['.'] + "jpg"@),
                paths::path_join(dir, stem + seq!['.'] + "jpeg"@),
                paths::path_join(dir, stem + seq!['.'] + "png"@),
                paths::path_join(dir, stem + seq!['.'] + "webp"@),
            ]);
        },
        _ => {},
    }
}

} // verus!
