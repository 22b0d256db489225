//! Cloudflare R2 (S3 API): request signing (AWS Signature Version 4), object keys and
//! URLs, upload planning, cancellation bookkeeping and listing.
use vstd::prelude::*;
use vstd::utf8::encode_utf8;

use hmac::Mac;

use crate::parser;
use crate::paths;
use crate::sorting;
use crate::sorting::Named;
use crate::text;

verus! {

// ---------------------------------------------------------------------------
// Hex, SHA-256, HMAC
// ---------------------------------------------------------------------------

pub open spec fn hex_digit(d: nat) -> char {
    if d < 10 {
        (('0' as u32) + d) as char
    } else {
        (('a' as u32) + d - 10) as char
    }
}

/// Lower-case hex of bytes, two digits per byte (`format!("{byte:02x}")`, concatenated).
pub open spec fn hex(bytes: Seq<u8>) -> Seq<char>
    decreases bytes.len(),
{
    if bytes.len() == 0 {
        Seq::empty()
    } else {
        hex(bytes.drop_last()) + seq![
            hex_digit((bytes.last() / 16) as nat),
            hex_digit((bytes.last() % 16) as nat),
        ]
    }
}

fn hex_digit_exec(d: u8) -> (c: char)
    requires
        d < 16,
    ensures
        c == hex_digit(d as nat),
{
    if d < 10 {
        (d + 48) as char
    } else {
        (d + 87) as char
    }
}

pub fn hex_digest(bytes: &[u8]) -> (r: String)
    ensures
        r@ == hex(bytes@),
{
    let mut out: Vec<char> = Vec::new();
    let mut i: usize = 0;
    while i < bytes.len()
        invariant
            i <= bytes@.len(),
            out@ == hex(bytes@.take(i as int)),
        decreases bytes@.len() - i,
    {
        let b = bytes[i];
        out.push(hex_digit_exec(b / 16));
        out.push(hex_digit_exec(b % 16));
        assert(bytes@.take(i + 1).drop_last() == bytes@.take(i as int));
        i = i + 1;
    }
    assert(bytes@.take(bytes@.len() as int) == bytes@);
    text::string_from_chars(&out)
}

/// SHA-256 of a byte string (`sha2::Sha256::digest`).
pub uninterp spec fn sha256(data: Seq<u8>) -> Seq<u8>;

/// HMAC-SHA256 of a message under a key (`hmac::Hmac<sha2::Sha256>`).
pub uninterp spec fn hmac_sha256(key: Seq<u8>, message: Seq<u8>) -> Seq<u8>;

/// Calls `Sha256::digest`. Claims that the digest is `sha256` of the input and has 32
/// bytes, as SHA-256 output always has.
#[verifier::external_body]
fn sha256_digest(data: &[u8]) -> (r: Vec<u8>)
    ensures
        r@ == sha256(data@),
        r@.len() == 32,
{
    <sha2::Sha256 as sha2::Digest>::digest(data).to_vec()
}

/// Lower-case hex of the SHA-256 of the UTF-8 bytes of `value`.
pub fn sha256_hex(value: &str) -> (r: String)
    ensures
        r@ == hex(sha256(encode_utf8(value@))),
{
    let d = sha256_digest(value.as_bytes());
    hex_digest(d.as_slice())
}

/// Computes HMAC-SHA256 with `hmac::Hmac<Sha256>` (`new_from_slice`, `update`,
/// `finalize`). Claims that the tag is `hmac_sha256` of the key and of the message's UTF-8
/// bytes and has 32 bytes. `new_from_slice` accepts keys of every length (its source
/// returns `Ok` unconditionally), so the `expect` never fires.
#[verifier::external_body]
pub fn hmac(key: &[u8], value: &str) -> (r: Vec<u8>)
    ensures
        r@ == hmac_sha256(key@, encode_utf8(value@)),
        r@.len() == 32,
{
    let mut mac = <hmac::Hmac<sha2::Sha256> as Mac>::new_from_slice(key).expect(
        "HMAC accepts arbitrary key lengths",
    );
    mac.update(value.as_bytes());
    mac.finalize().into_bytes().to_vec()
}

/// The SigV4 signing key for region `auto` and service `s3`.
pub open spec fn signing_key_of(date: Seq<char>, secret_access_key: Seq<char>) -> Seq<u8> {
    let k_date = hmac_sha256(encode_utf8("AWS4"@ + secret_access_key), encode_utf8(date));
    let k_region = hmac_sha256(k_date, encode_utf8("auto"@));
    let k_service = hmac_sha256(k_region, encode_utf8("s3"@));
    hmac_sha256(k_service, encode_utf8("aws4_request"@))
}

pub fn signing_key(date: &str, secret_access_key: &str) -> (r: Vec<u8>)
    ensures
        r@ == signing_key_of(date@, secret_access_key@),
{
    let mut k: Vec<char> = Vec::new();
    text::push_str(&mut k, "AWS4");
    text::push_str(&mut k, secret_access_key);
    let k = text::string_from_chars(&k);
    let date_key = hmac(k.as_str().as_bytes(), date);
    let region_key = hmac(date_key.as_slice(), "auto");
    let service_key = hmac(region_key.as_slice(), "s3");
    hmac(service_key.as_slice(), "aws4_request")
}

// ---------------------------------------------------------------------------
// URI encoding
// ---------------------------------------------------------------------------

/// The bytes that SigV4 URI encoding escapes: every byte but the unreserved characters
/// `A-Z a-z 0-9 - _ . ~` (controls, the listed ASCII punctuation, and all non-ASCII bytes).
pub open spec fn escaped_byte(b: u8) -> bool {
    !(('A' as u8) <= b <= ('Z' as u8) || ('a' as u8) <= b <= ('z' as u8) || ('0' as u8) <= b <= (
    '9' as u8) || b == ('-' as u8) || b == ('_' as u8) || b == ('.' as u8) || b == ('~' as u8))
}

pub open spec fn hex_upper(d: nat) -> char {
    if d < 10 {
        (('0' as u32) + d) as char
    } else {
        (('A' as u32) + d - 10) as char
    }
}

/// `utf8_percent_encode(s, PATH_SEGMENT)` over the UTF-8 bytes: an escaped byte becomes
/// `%HH` (upper-case hex), any other byte stays as its ASCII character.
pub open spec fn pct(bytes: Seq<u8>) -> Seq<char>
    decreases bytes.len(),
{
    if bytes.len() == 0 {
        Seq::empty()
    } else {
        let b = bytes.last();
        pct(bytes.drop_last()) + if escaped_byte(b) {
            seq!['%', hex_upper((b / 16) as nat), hex_upper((b % 16) as nat)]
        } else {
            seq![b as char]
        }
    }
}

fn hex_upper_exec(d: u8) -> (c: char)
    requires
        d < 16,
    ensures
        c == hex_upper(d as nat),
{
    if d < 10 {
        (d + 48) as char
    } else {
        (d + 55) as char
    }
}

/// Percent-encodes a string the way S3 request paths and query values are encoded.
pub fn uri_encode(s: &str) -> (r: String)
    ensures
        r@ == pct(encode_utf8(s@)),
{
    let bytes = s.as_bytes();
    let mut out: Vec<char> = Vec::new();
    let mut i: usize = 0;
    while i < bytes.len()
        invariant
            i <= bytes@.len(),
            out@ == pct(bytes@.take(i as int)),
        decreases bytes@.len() - i,
    {
        let b = bytes[i];
        let keep = (65 <= b && b <= 90) || (97 <= b && b <= 122) || (48 <= b && b <= 57) || b == 45
            || b == 95 || b == 46 || b == 126;
        if keep {
            out.push(b as char);
        } else {
            out.push('%');
            out.push(hex_upper_exec(b / 16));
            out.push(hex_upper_exec(b % 16));
        }
        assert(bytes@.take(i + 1).drop_last() == bytes@.take(i as int));
        i = i + 1;
    }
    assert(bytes@.take(bytes@.len() as int) == bytes@);
    text::string_from_chars(&out)
}

/// `s.trim_start_matches(c)`.
pub open spec fn trim_start_char(s: Seq<char>, c: char) -> Seq<char>
    decreases s.len(),
{
    if s.len() > 0 && s[0] == c {
        trim_start_char(s.drop_first(), c)
    } else {
        s
    }
}

/// `s.trim_matches('/')`.
pub open spec fn strip_slashes(s: Seq<char>) -> Seq<char> {
    parser::trim_end_char(trim_start_char(s, '/'), '/')
}

/// `(a, b)` bounds of `trim_matches(c)`.
pub fn trim_char_bounds(v: &Vec<char>, c: char) -> (r: (usize, usize))
    ensures
        r.0 <= r.1 <= v@.len(),
        v@.subrange(r.0 as int, r.1 as int) == parser::trim_end_char(trim_start_char(v@, c), c),
{
    let n = v.len();
    let mut i: usize = 0;
    assert(v@.subrange(0, n as int) == v@);
    while i < n && v[i] == c
        invariant
            i <= n,
            n == v@.len(),
            trim_start_char(v@, c) == trim_start_char(v@.subrange(i as int, n as int), c),
        decreases n - i,
    {
        assert(v@.subrange(i as int, n as int).drop_first() == v@.subrange(i + 1, n as int));
        i = i + 1;
    }
    let mut j: usize = n;
    while j > i && v[j - 1] == c
        invariant
            i <= j <= n,
            n == v@.len(),
            trim_start_char(v@, c) == v@.subrange(i as int, n as int),
            parser::trim_end_char(v@.subrange(i as int, n as int), c) == parser::trim_end_char(
                v@.subrange(i as int, j as int),
                c,
            ),
        decreases j - i,
    {
        assert(v@.subrange(i as int, j as int).drop_last() == v@.subrange(i as int, j - 1));
        j = j - 1;
    }
    (i, j)
}

/// A key segment that is kept: not empty, not `.` and not `..`.
pub open spec fn kept_segment(p: Seq<char>) -> bool {
    p.len() > 0 && p != "."@ && p != ".."@
}

/// The kept segments, each percent-encoded.
pub open spec fn encoded_segments(parts: Seq<Seq<char>>) -> Seq<Seq<char>>
    decreases parts.len(),
{
    if parts.len() == 0 {
        Seq::empty()
    } else {
        let rest = encoded_segments(parts.drop_last());
        if kept_segment(parts.last()) {
            rest.push(pct(encode_utf8(parts.last())))
        } else {
            rest
        }
    }
}

/// `parts.join(sep)`.
pub open spec fn join_with(parts: Seq<Seq<char>>, sep: Seq<char>) -> Seq<char>
    decreases parts.len(),
{
    if parts.len() == 0 {
        Seq::empty()
    } else if parts.len() == 1 {
        parts[0]
    } else {
        join_with(parts.drop_last(), sep) + sep + parts.last()
    }
}

/// An object key as it stands in a request path: outer `/` removed, empty, `.` and `..`
/// segments dropped, each segment percent-encoded, joined by `/`.
pub open spec fn encoded_key_of(key: Seq<char>) -> Seq<char> {
    join_with(encoded_segments(text::split_char(strip_slashes(key), '/')), "/"@)
}

pub fn encoded_key(key: &str) -> (r: String)
    ensures
        r@ == encoded_key_of(key@),
{
    let v = text::chars_of(key);
    let (a, b) = trim_char_bounds(&v, '/');
    let stripped = text::substring(key, a, b);
    let parts = text::split_on(stripped.as_str(), '/');
    let ghost pv = text::views(parts@);
    let mut segs: Vec<String> = Vec::new();
    let mut out: Vec<char> = Vec::new();
    let mut i: usize = 0;
    proof {
        reveal_strlit("/");
    }
    while i < parts.len()
        invariant
            i <= parts@.len(),
            pv == text::views(parts@),
            pv.len() == parts@.len(),
            text::views(segs@) == encoded_segments(pv.take(i as int)),
            out@ == join_with(text::views(segs@), "/"@),
        decreases parts@.len() - i,
    {
        let p = parts[i].as_str();
        assert(pv[i as int] == p@);
        assert(pv.take(i + 1).drop_last() == pv.take(i as int));
        assert(pv.take(i + 1).last() == p@);
        let keep = !p.is_empty() && !text::str_eq(p, ".") && !text::str_eq(p, "..");
        if keep {
            let e = uri_encode(p);
            let ghost before = segs@;
            let ghost out0 = out@;
            proof {
                reveal_strlit("/");
            }
            if segs.len() > 0 {
                out.push('/');
            }
            text::push_str(&mut out, e.as_str());
            segs.push(e);
            proof {
                let sv = text::views(segs@);
                assert(sv == text::views(before).push(e@));
                assert(sv.drop_last() == text::views(before));
                if before.len() > 0 {
                    assert(out@ == out0.push('/') + e@);
                    assert(out0.push('/') == out0 + "/"@);
                    assert(out@ == join_with(sv.drop_last(), "/"@) + "/"@ + sv.last());
                } else {
                    assert(out@ == e@);
                }
            }
        }
        i = i + 1;
    }
    assert(pv.take(pv.len() as int) == pv);
    text::string_from_chars(&out)
}

// ---------------------------------------------------------------------------
// Content types, truncation, video keys
// ---------------------------------------------------------------------------

/// The media type sent with an upload, by the file's extension (any case).
pub open spec fn content_type_for(ext: Option<Seq<char>>) -> Seq<char> {
    match ext {
        None => "application/octet-stream"@,
        Some(e) => {
            let l = sorting::lower_seq(e);
            if l == "3gp"@ {
                "video/3gpp"@
            } else if l == "avi"@ {
                "video/x-msvideo"@
            } else if l == "flv"@ {
                "video/x-flv"@
            } else if l == "m4v"@ {
                "video/x-m4v"@
            } else if l == "mkv"@ {
                "video/x-matroska"@
            } else if l == "mov"@ {
                "video/quicktime"@
            } else if l == "mp4"@ {
                "video/mp4"@
            } else if l == "mpeg"@ || l == "mpg"@ {
                "video/mpeg"@
            } else if l == "ts"@ {
                "video/mp2t"@
            } else if l == "webm"@ {
                "video/webm"@
            } else if l == "mp3"@ {
                "audio/mpeg"@
            } else if l == "m4a"@ {
                "audio/mp4"@
            } else if l == "opus"@ {
                "audio/opus"@
            } else if l == "flac"@ {
                "audio/flac"@
            } else if l == "wav"@ {
                "audio/wav"@
            } else if l == "webp"@ {
                "image/webp"@
            } else if l == "jpg"@ || l == "jpeg"@ {
                "image/jpeg"@
            } else if l == "png"@ {
                "image/png"@
            } else if l == "gif"@ {
                "image/gif"@
            } else if l == "vtt"@ {
                "text/vtt"@
            } else if l == "srt"@ {
                "application/x-subrip"@
            } else {
                "application/octet-stream"@
            }
        },
    }
}

pub fn content_type(path: &str) -> (r: &'static str)
    ensures
        r@ == content_type_for(paths::path_extension(path@)),
{
    let e = match paths::extension_of(path) {
        None => return "application/octet-stream",
        Some(e) => e,
    };
    let l = text::lower_chars(e.as_str());
    if text::chars_eq_str(&l, "3gp") {
        "video/3gpp"
    } else if text::chars_eq_str(&l, "avi") {
        "video/x-msvideo"
    } else if text::chars_eq_str(&l, "flv") {
        "video/x-flv"
    } else if text::chars_eq_str(&l, "m4v") {
        "video/x-m4v"
    } else if text::chars_eq_str(&l, "mkv") {
        "video/x-matroska"
    } else if text::chars_eq_str(&l, "mov") {
        "video/quicktime"
    } else if text::chars_eq_str(&l, "mp4") {
        "video/mp4"
    } else if text::chars_eq_str(&l, "mpeg") || text::chars_eq_str(&l, "mpg") {
        "video/mpeg"
    } else if text::chars_eq_str(&l, "ts") {
        "video/mp2t"
    } else if text::chars_eq_str(&l, "webm") {
        "video/webm"
    } else if text::chars_eq_str(&l, "mp3") {
        "audio/mpeg"
    } else if text::chars_eq_str(&l, "m4a") {
        "audio/mp4"
    } else if text::chars_eq_str(&l, "opus") {
        "audio/opus"
    } else if text::chars_eq_str(&l, "flac") {
        "audio/flac"
    } else if text::chars_eq_str(&l, "wav") {
        "audio/wav"
    } else if text::chars_eq_str(&l, "webp") {
        "image/webp"
    } else if text::chars_eq_str(&l, "jpg") || text::chars_eq_str(&l, "jpeg") {
        "image/jpeg"
    } else if text::chars_eq_str(&l, "png") {
        "image/png"
    } else if text::chars_eq_str(&l, "gif") {
        "image/gif"
    } else if text::chars_eq_str(&l, "vtt") {
        "text/vtt"
    } else if text::chars_eq_str(&l, "srt") {
        "application/x-subrip"
    } else {
        "application/octet-stream"
    }
}

/// At most `max_chars` characters of `message`; a cut message ends with `…`.
pub open spec fn truncated(message: Seq<char>, max_chars: nat) -> Seq<char> {
    if message.len() <= max_chars {
        message
    } else {
        message.take(max_chars as int) + seq!['\u{2026}']
    }
}

pub fn truncate(message: &str, max_chars: usize) -> (r: String)
    ensures
        r@ == truncated(message@, max_chars as nat),
{
    let v = text::chars_of(message);
    if v.len() <= max_chars {
        message.to_owned()
    } else {
        let mut out: Vec<char> = Vec::new();
        text::push_str(&mut out, message.substring_char(0, max_chars));
        out.push('\u{2026}');
        text::string_from_chars(&out)
    }
}

/// The extensions under which a stored object counts as a video, in lower case.
pub open spec fn r2_video_extensions() -> Seq<Seq<char>> {
    seq![
        "3gp"@,
        "avi"@,
        "flv"@,
        "m4v"@,
        "mkv"@,
        "mov"@,
        "mp4"@,
        "mpeg"@,
        "mpg"@,
        "ts"@,
        "webm"@,
    ]
}

/// A key is a video where the text after its last `.`, lower-cased, is a video extension.
pub open spec fn is_r2_video_key(key: Seq<char>) -> bool {
    match text::rpos_of(key, '.') {
        Some(i) => r2_video_extensions().contains(
            sorting::lower_seq(key.subrange(i + 1, key.len() as int)),
        ),
        None => false,
    }
}

fn r2_video_extension(i: usize) -> (r: &'static str)
    requires
        i < 11,
    ensures
        r@ == r2_video_extensions()[i as int],
{
    match i {
        0 => "3gp",
        1 => "avi",
        2 => "flv",
        3 => "m4v",
        4 => "mkv",
        5 => "mov",
        6 => "mp4",
        7 => "mpeg",
        8 => "mpg",
        9 => "ts",
        _ => "webm",
    }
}

pub fn is_r2_video(key: &str) -> (b: bool)
    ensures
        b == is_r2_video_key(key@),
{
    let v = text::chars_of(key);
    match text::rpos_exec(&v, '.') {
        None => false,
        Some(i) => {
            proof {
                text::lemma_rpos_of(v@, '.');
            }
            let ext = text::substring(key, i + 1, v.len());
            let l = text::lower_chars(ext.as_str());
            let mut k: usize = 0;
            while k < 11
                invariant
                    k <= 11,
                    r2_video_extensions().len() == 11,
                    text::rpos_of(key@, '.') == Some(i as int),
                    l@ == sorting::lower_seq(key@.subrange(i + 1, key@.len() as int)),
                    forall|j: int| 0 <= j < k ==> r2_video_extensions()[j] != l@,
                decreases 11 - k,
            {
                if text::chars_eq_str(&l, r2_video_extension(k)) {
                    assert(r2_video_extensions()[k as int] == l@);
                    assert(r2_video_extensions().contains(l@));
                    return true;
                }
                k = k + 1;
            }
            false
        },
    }
}

} // verus!

verus! {

// ---------------------------------------------------------------------------
// Cancellation bookkeeping
// ---------------------------------------------------------------------------

/// The uploads that have been asked to stop. The ids are kept in a `Vec` and seen as a
/// set (`cancelled_ids`): vstd models `HashSet` only for keys with a hashing model, which
/// `String` lacks.
pub struct R2UploadState {
    cancelled: Vec<String>,
}

impl R2UploadState {
    /// The ids of the cancelled uploads.
    pub closed spec fn cancelled_ids(&self) -> Set<Seq<char>> {
        Set::new(|s: Seq<char>| exists|i: int| 0 <= i < self.cancelled@.len() && #[trigger] self.cancelled@[i]@ == s)
    }

    pub fn new() -> (r: Self)
        ensures
            r.cancelled_ids() == Set::<Seq<char>>::empty(),
    {
        let r = R2UploadState { cancelled: Vec::new() };
        assert(r.cancelled_ids() =~= Set::<Seq<char>>::empty());
        r
    }

    pub fn is_cancelled(&self, upload_id: &str) -> (r: bool)
        ensures
            r == self.cancelled_ids().contains(upload_id@),
    {
        let mut i: usize = 0;
        while i < self.cancelled.len()
            invariant
                i <= self.cancelled@.len(),
                forall|j: int| 0 <= j < i ==> #[trigger] self.cancelled@[j]@ != upload_id@,
            decreases self.cancelled@.len() - i,
        {
            if text::str_eq(self.cancelled[i].as_str(), upload_id) {
                assert(self.cancelled_ids().contains(upload_id@));
                return true;
            }
            i = i + 1;
        }
        false
    }

    pub fn cancel(&mut self, upload_id: String)
        ensures
            final(self).cancelled_ids() == old(self).cancelled_ids().insert(upload_id@),
    {
        if self.is_cancelled(upload_id.as_str()) {
            assert(self.cancelled_ids().insert(upload_id@) =~= self.cancelled_ids());
            return;
        }
        let ghost before = self.cancelled@;
        let ghost id = upload_id@;
        self.cancelled.push(upload_id);
        assert forall|s: Seq<char>| #[trigger] self.cancelled_ids().contains(s) <==> old(
            self,
        ).cancelled_ids().insert(id).contains(s) by {
            if self.cancelled_ids().contains(s) {
                let i = choose|i: int| 0 <= i < self.cancelled@.len() && #[trigger] self.cancelled@[i]@ == s;
                if i < before.len() {
                    assert(before[i]@ == s);
                }
            }
            if old(self).cancelled_ids().contains(s) {
                let i = choose|i: int| 0 <= i < before.len() && #[trigger] before[i]@ == s;
                assert(self.cancelled@[i]@ == s);
            }
            if s == id {
                assert(self.cancelled@[before.len() as int]@ == s);
            }
        }
        assert(self.cancelled_ids() =~= old(self).cancelled_ids().insert(id));
    }

    pub fn clear(&mut self, upload_id: &str)
        ensures
            final(self).cancelled_ids() == old(self).cancelled_ids().remove(upload_id@),
    {
        let ghost before = self.cancelled@;
        let mut kept: Vec<String> = Vec::new();
        let mut i: usize = 0;
        while i < self.cancelled.len()
            invariant
                i <= self.cancelled@.len(),
                self.cancelled@ == before,
                forall|j: int| 0 <= j < kept@.len() ==> #[trigger] kept@[j]@ != upload_id@,
                forall|j: int|
                    0 <= j < kept@.len() ==> exists|k: int| 0 <= k < i && #[trigger] before[k]@ == (
                    #[trigger] kept@[j])@,
                forall|k: int|
                    0 <= k < i && #[trigger] before[k]@ != upload_id@ ==> exists|j: int|
                        0 <= j < kept@.len() && #[trigger] kept@[j]@ == before[k]@,
            decreases self.cancelled@.len() - i,
        {
            if !text::str_eq(self.cancelled[i].as_str(), upload_id) {
                let ghost k0 = kept@;
                kept.push(self.cancelled[i].clone());
                assert(kept@[k0.len() as int]@ == before[i as int]@);
                assert forall|j: int| 0 <= j < kept@.len() implies exists|k: int|
                    0 <= k < i + 1 && #[trigger] before[k]@ == (#[trigger] kept@[j])@ by {
                    if j < k0.len() {
                        assert(kept@[j] == k0[j]);
                    } else {
                        assert(before[i as int]@ == kept@[j]@);
                    }
                }
                assert forall|k: int| 0 <= k < i + 1 && #[trigger] before[k]@ != upload_id@ implies exists|
                    j: int,
                | 0 <= j < kept@.len() && #[trigger] kept@[j]@ == before[k]@ by {
                    if k < i {
                        let j = choose|j: int| 0 <= j < k0.len() && #[trigger] k0[j]@ == before[k]@;
                        assert(kept@[j] == k0[j]);
                    } else {
                        assert(kept@[k0.len() as int]@ == before[k]@);
                    }
                }
            }
            i = i + 1;
        }
        self.cancelled = kept;
        assert forall|s: Seq<char>| #[trigger] self.cancelled_ids().contains(s) <==> old(
            self,
        ).cancelled_ids().remove(upload_id@).contains(s) by {
            if self.cancelled_ids().contains(s) {
                let j = choose|j: int| 0 <= j < self.cancelled@.len() && #[trigger] self.cancelled@[j]@ == s;
                let k = choose|k: int| 0 <= k < before.len() && #[trigger] before[k]@ == self.cancelled@[j]@;
            }
            if old(self).cancelled_ids().remove(upload_id@).contains(s) {
                let k = choose|k: int| 0 <= k < before.len() && #[trigger] before[k]@ == s;
            }
        }
        assert(self.cancelled_ids() =~= old(self).cancelled_ids().remove(upload_id@));
    }
}

impl Default for R2UploadState {
    fn default() -> (r: Self)
        ensures
            r.cancelled_ids() == Set::<Seq<char>>::empty(),
    {
        R2UploadState::new()
    }
}

/// An upload id as the commands take it: trimmed; a blank id is refused.
pub fn upload_id_of(raw: &str) -> (r: Result<String, String>)
    ensures
        match r {
            Ok(id) => id@ == text::trim(raw@) && id@.len() > 0,
            Err(e) => text::trim(raw@).len() == 0 && e@ == "err_r2_upload_id_missing"@,
        },
{
    let t = text::trim_string(raw);
    if t.as_str().is_empty() {
        Err("err_r2_upload_id_missing".to_owned())
    } else {
        Ok(t)
    }
}

/// Asks an upload to stop: the trimmed id is marked cancelled; a blank id is refused and
/// nothing changes.
pub fn cancel_r2_upload(state: &mut R2UploadState, upload_id: String) -> (r: Result<(), String>)
    ensures
        r is Ok <==> text::trim(upload_id@).len() > 0,
        r is Ok ==> final(state).cancelled_ids() == old(state).cancelled_ids().insert(
            text::trim(upload_id@),
        ),
        r matches Err(e) ==> e@ == "err_r2_upload_id_missing"@ && final(state).cancelled_ids()
            == old(state).cancelled_ids(),
{
    match upload_id_of(upload_id.as_str()) {
        Ok(id) => {
            state.cancel(id);
            Ok(())
        },
        Err(e) => Err(e),
    }
}

} // verus!

verus! {

// ---------------------------------------------------------------------------
// Configuration
// ---------------------------------------------------------------------------

/// `reqwest::Url::parse(s)`, seen through its scheme and host: `Ok((scheme, host))`, or
/// the parse error's message.
pub uninterp spec fn url_parts(s: Seq<char>) -> Result<(Seq<char>, Option<Seq<char>>), Seq<char>>;

/// Calls `reqwest::Url::parse` (the `url` crate) and reads `scheme()` and `host_str()` of
/// the result, or the error's `to_string()`. Claims only that this is `url_parts` of the
/// argument.
#[verifier::external_body]
fn parse_endpoint_url(s: &str) -> (r: Result<(String, Option<String>), String>)
    ensures
        match r {
            Ok((scheme, host)) => url_parts(s@) == Ok::<(Seq<char>, Option<Seq<char>>), Seq<char>>(
                (scheme@, text::opt_view(host)),
            ),
            Err(e) => url_parts(s@) == Err::<(Seq<char>, Option<Seq<char>>), Seq<char>>(e@),
        },
{
    match reqwest::Url::parse(s) {
        Ok(u) => Ok((u.scheme().to_string(), u.host_str().map(|h| h.to_string()))),
        Err(e) => Err(e.to_string()),
    }
}

/// The settings of one bucket.
pub struct R2Config {
    pub access_key_id: String,
    pub secret_access_key: String,
    pub endpoint: String,
    pub bucket: String,
    pub public_base_url: String,
    pub endpoint_host: String,
}

pub open spec fn has_char_where(s: Seq<char>, p: spec_fn(char) -> bool) -> bool {
    exists|i: int| 0 <= i < s.len() && p(#[trigger] s[i])
}

/// A bucket name that cannot stand in a request path: it holds `/`, white space, `?` or
/// `#`, or is longer than 63 bytes.
pub open spec fn bad_bucket(b: Seq<char>) -> bool {
    has_char_where(b, |c: char| c == '/' || text::is_ws(c) || c == '?' || c == '#')
        || encode_utf8(b).len() > 63
}

/// What `r2_config` gives: every setting trimmed (the endpoint and the public base URL
/// without trailing `/`, the bucket without outer `/`), then checked in this order.
pub open spec fn config_result(
    account_id: Seq<char>,
    access_key_id: Seq<char>,
    secret_access_key: Seq<char>,
    endpoint: Seq<char>,
    bucket: Seq<char>,
    public_base_url: Seq<char>,
) -> Result<(Seq<char>, Seq<char>, Seq<char>, Seq<char>, Seq<char>, Seq<char>), Seq<char>> {
    let a = text::trim(account_id);
    let k = text::trim(access_key_id);
    let sk = text::trim(secret_access_key);
    let ep = parser::trim_end_char(text::trim(endpoint), '/');
    let b = strip_slashes(text::trim(bucket));
    let pb = parser::trim_end_char(text::trim(public_base_url), '/');
    if a.len() == 0 || k.len() == 0 || sk.len() == 0 || ep.len() == 0 || b.len() == 0 {
        Err("err_r2_config_missing"@)
    } else if bad_bucket(b) {
        Err("err_r2_invalid_bucket"@)
    } else {
        match url_parts(ep) {
            Err(e) => Err("err_r2_endpoint:"@ + e),
            Ok((scheme, host)) => if scheme != "https"@ && scheme != "http"@ {
                Err("err_r2_endpoint_scheme"@)
            } else {
                match host {
                    None => Err("err_r2_endpoint"@),
                    Some(h) => if text::trim(h).len() == 0 {
                        Err("err_r2_endpoint"@)
                    } else {
                        Ok((k, sk, ep, b, pb, h))
                    },
                }
            },
        }
    }
}

pub open spec fn config_view(c: R2Config) -> (
    Seq<char>,
    Seq<char>,
    Seq<char>,
    Seq<char>,
    Seq<char>,
    Seq<char>,
) {
    (c.access_key_id@, c.secret_access_key@, c.endpoint@, c.bucket@, c.public_base_url@, c.endpoint_host@)
}

fn trim_end_slashes(s: &str) -> (r: String)
    ensures
        r@ == parser::trim_end_char(text::trim(s@), '/'),
{
    let t = text::trim_string(s);
    let v = text::chars_of(t.as_str());
    let mut j = v.len();
    assert(v@.subrange(0, j as int) == v@);
    while j > 0 && v[j - 1] == '/'
        invariant
            j <= v@.len(),
            parser::trim_end_char(v@, '/') == parser::trim_end_char(v@.subrange(0, j as int), '/'),
        decreases j,
    {
        assert(v@.subrange(0, j as int).drop_last() == v@.subrange(0, j - 1));
        j = j - 1;
    }
    text::substring(t.as_str(), 0, j)
}

fn bucket_is_bad(b: &str) -> (r: bool)
    ensures
        r == bad_bucket(b@),
{
    let v = text::chars_of(b);
    let mut i: usize = 0;
    while i < v.len()
        invariant
            i <= v@.len(),
            v@ == b@,
            forall|j: int|
                0 <= j < i ==> !(#[trigger] v@[j] == '/' || text::is_ws(v@[j]) || v@[j] == '?'
                    || v@[j] == '#'),
        decreases v@.len() - i,
    {
        let c = v[i];
        if c == '/' || text::is_whitespace_char(c) || c == '?' || c == '#' {
            assert(has_char_where(b@, |c: char| c == '/' || text::is_ws(c) || c == '?' || c == '#'))
                by {
                assert((|c: char| c == '/' || text::is_ws(c) || c == '?' || c == '#')(b@[i as int]));
            }
            return true;
        }
        i = i + 1;
    }
    assert(!has_char_where(b@, |c: char| c == '/' || text::is_ws(c) || c == '?' || c == '#')) by {
        if has_char_where(b@, |c: char| c == '/' || text::is_ws(c) || c == '?' || c == '#') {
            let j = choose|j: int|
                0 <= j < b@.len() && (|c: char| c == '/' || text::is_ws(c) || c == '?' || c == '#')(
                    #[trigger] b@[j],
                );
            assert(v@[j] == b@[j]);
        }
    }
    b.as_bytes().len() > 63
}

/// Checks and normalises the settings of a bucket.
pub fn r2_config(
    account_id: &str,
    access_key_id: &str,
    secret_access_key: &str,
    endpoint: &str,
    bucket: &str,
    public_base_url: &str,
) -> (r: Result<R2Config, String>)
    ensures
        match r {
            Ok(c) => config_result(
                account_id@,
                access_key_id@,
                secret_access_key@,
                endpoint@,
                bucket@,
                public_base_url@,
            ) == Ok::<(Seq<char>, Seq<char>, Seq<char>, Seq<char>, Seq<char>, Seq<char>), Seq<char>>(
                config_view(c),
            ),
            Err(e) => config_result(
                account_id@,
                access_key_id@,
                secret_access_key@,
                endpoint@,
                bucket@,
                public_base_url@,
            ) == Err::<(Seq<char>, Seq<char>, Seq<char>, Seq<char>, Seq<char>, Seq<char>), Seq<char>>(e@),
        },
{
    let a = text::trim_string(account_id);
    let k = text::trim_string(access_key_id);
    let sk = text::trim_string(secret_access_key);
    let ep = trim_end_slashes(endpoint);
    let bt = text::trim_string(bucket);
    let bv = text::chars_of(bt.as_str());
    let (x, y) = trim_char_bounds(&bv, '/');
    let b = text::substring(bt.as_str(), x, y);
    let pb = trim_end_slashes(public_base_url);
    if a.as_str().is_empty() || k.as_str().is_empty() || sk.as_str().is_empty()
        || ep.as_str().is_empty() || b.as_str().is_empty() {
        return Err("err_r2_config_missing".to_owned());
    }
    if bucket_is_bad(b.as_str()) {
        return Err("err_r2_invalid_bucket".to_owned());
    }
    match parse_endpoint_url(ep.as_str()) {
        Err(e) => {
            let mut out: Vec<char> = Vec::new();
            text::push_str(&mut out, "err_r2_endpoint:");
            text::push_str(&mut out, e.as_str());
            Err(text::string_from_chars(&out))
        },
        Ok((scheme, host)) => {
            if !text::str_eq(scheme.as_str(), "https") && !text::str_eq(scheme.as_str(), "http") {
                return Err("err_r2_endpoint_scheme".to_owned());
            }
            match host {
                None => Err("err_r2_endpoint".to_owned()),
                Some(h) => {
                    if text::trim_string(h.as_str()).as_str().is_empty() {
                        Err("err_r2_endpoint".to_owned())
                    } else {
                        Ok(
                            R2Config {
                                access_key_id: k,
                                secret_access_key: sk,
                                endpoint: ep,
                                bucket: b,
                                public_base_url: pb,
                                endpoint_host: h,
                            },
                        )
                    }
                },
            }
        },
    }
}

// ---------------------------------------------------------------------------
// Time stamps
// ---------------------------------------------------------------------------

/// The SigV4 time stamp pattern.
pub open spec fn compact_utc_pattern() -> Seq<char> {
    "%Y%m%dT%H%M%SZ"@
}

/// `DateTime::<Utc>::from_timestamp(secs, 0)` formatted with `pattern`, or nothing where
/// the second count is out of chrono's range.
pub uninterp spec fn utc_format(secs: i64, pattern: Seq<char>) -> Option<Seq<char>>;

/// Calls `chrono::DateTime::<Utc>::from_timestamp(secs, 0)` and formats the result with
/// `format(pattern).to_string()`. Claims only that the outcome is `utc_format` of the
/// arguments. The pattern is limited to the one the library uses, which is valid, so
/// `to_string` does not panic.
#[verifier::external_body]
fn format_utc(secs: i64, pattern: &str) -> (r: Option<String>)
    requires
        pattern@ == compact_utc_pattern(),
    ensures
        text::opt_view(r) == utc_format(secs, pattern@),
{
    chrono::DateTime::<chrono::Utc>::from_timestamp(secs, 0).map(|d| d.format(pattern).to_string())
}

/// The time stamp and date of a request sent at `now_secs` (seconds since the epoch):
/// `YYYYMMDDTHHMMSSZ` and its first eight bytes.
pub open spec fn timestamp_result(now_secs: i64) -> Result<(Seq<char>, Seq<char>), Seq<char>> {
    match utc_format(now_secs, compact_utc_pattern()) {
        None => Err("err_r2_time"@),
        Some(ts) => if encode_utf8(ts).len() >= 8 && vstd::utf8::is_char_boundary(
            encode_utf8(ts),
            8,
        ) {
            Ok((ts, vstd::utf8::decode_utf8(encode_utf8(ts).subrange(0, 8))))
        } else {
            Err("err_r2_time"@)
        },
    }
}

pub open spec fn stamp_view(r: Result<(String, String), String>) -> Result<(Seq<char>, Seq<char>), Seq<char>> {
    match r {
        Ok((ts, date)) => Ok((ts@, date@)),
        Err(e) => Err(e@),
    }
}

/// The time stamp and date of a request sent at `now_secs` seconds since the epoch.
pub fn timestamp_at(now_secs: i64) -> (r: Result<(String, String), String>)
    ensures
        stamp_view(r) == timestamp_result(now_secs),
{
    let ts = match format_utc(now_secs, "%Y%m%dT%H%M%SZ") {
        None => return Err("err_r2_time".to_owned()),
        Some(ts) => ts,
    };
    let s = ts.as_str();
    if s.as_bytes().len() >= 8 && s.is_char_boundary(8) {
        let (head, _) = s.split_at(8);
        let date = head.to_owned();
        proof {
            vstd::utf8::encode_utf8_decode_utf8(head@);
            assert(encode_utf8(head@) == encode_utf8(ts@).subrange(0, 8));
            assert(date@ == vstd::utf8::decode_utf8(encode_utf8(ts@).subrange(0, 8)));
        }
        Ok((ts, date))
    } else {
        Err("err_r2_time".to_owned())
    }
}

/// Reads the system clock with `UNIX_EPOCH.elapsed()`: the whole seconds since the epoch,
/// or the message of the error that `elapsed` returns where the clock stands before the
/// epoch. The reading is the current time, so nothing is claimed of it.
#[verifier::external_body]
fn unix_clock_secs() -> (r: Result<u64, String>) {
    std::time::UNIX_EPOCH.elapsed().map(|d| d.as_secs()).map_err(|e| e.to_string())
}

pub open spec fn clock_view(clock: Result<u64, String>) -> Result<u64, Seq<char>> {
    match clock {
        Ok(s) => Ok(s),
        Err(e) => Err(e@),
    }
}

/// The time stamp and date of a request, from one reading of the clock: a clock error
/// becomes `err_r2_time:<message>`; a reading of `s` seconds is stamped as the second
/// `s as i64` (see `timestamp_result`).
pub open spec fn clock_timestamp(clock: Result<u64, Seq<char>>) -> Result<(Seq<char>, Seq<char>), Seq<char>> {
    match clock {
        Err(m) => Err("err_r2_time:"@ + m),
        Ok(s) => timestamp_result(s as i64),
    }
}

/// The time stamp and date of a request, from a reading of the clock.
pub fn timestamp_from_clock(clock: Result<u64, String>) -> (r: Result<(String, String), String>)
    ensures
        stamp_view(r) == clock_timestamp(clock_view(clock)),
{
    match clock {
        Err(m) => {
            let mut out: Vec<char> = text::chars_of("err_r2_time:");
            text::push_str(&mut out, m.as_str());
            Err(text::string_from_chars(&out))
        },
        Ok(s) => {
            #[verifier::truncate]
            let secs = s as i64;
            timestamp_at(secs)
        },
    }
}

/// The time stamp and date of a request sent now. The clock decides the outcome; what is
/// stated is that it is the outcome of some reading of the clock.
pub fn request_timestamp() -> (r: Result<(String, String), String>)
    ensures
        exists|clock: Result<u64, Seq<char>>| stamp_view(r) == clock_timestamp(clock),
{
    let clock = unix_clock_secs();
    let r = timestamp_from_clock(clock);
    assert(stamp_view(r) == clock_timestamp(clock_view(clock)));
    r
}

/// `chrono::DateTime::parse_from_rfc3339(s)` as seconds since the epoch.
pub uninterp spec fn rfc3339_seconds(s: Seq<char>) -> Option<i64>;

/// Calls `chrono::DateTime::parse_from_rfc3339` and reads `timestamp()` of the result.
/// Claims only that the outcome is `rfc3339_seconds` of the argument.
#[verifier::external_body]
fn parse_rfc3339_seconds(s: &str) -> (r: Option<i64>)
    ensures
        r == rfc3339_seconds(s@),
{
    chrono::DateTime::parse_from_rfc3339(s).ok().map(|d| d.timestamp())
}

/// The modification time of a listed object, in seconds, where it parses.
pub fn r2_modified_timestamp(value: Option<&str>) -> (r: Option<i64>)
    ensures
        r == (match value {
            Some(v) => rfc3339_seconds(v@),
            None => None,
        }),
{
    match value {
        Some(v) => parse_rfc3339_seconds(v),
        None => None,
    }
}

} // verus!

verus! {

// ---------------------------------------------------------------------------
// Request signing (AWS Signature Version 4)
// ---------------------------------------------------------------------------

pub open spec fn signed_headers() -> Seq<char> {
    "host;x-amz-content-sha256;x-amz-date"@
}

/// The credential scope of a request made on `date`.
pub open spec fn scope_of(date: Seq<char>) -> Seq<char> {
    date + "/auto/s3/aws4_request"@
}

/// The canonical request over the three signed headers.
pub open spec fn canonical_request_of(
    method: Seq<char>,
    uri: Seq<char>,
    query: Seq<char>,
    host: Seq<char>,
    payload_hash: Seq<char>,
    timestamp: Seq<char>,
) -> Seq<char> {
    method + "\n"@ + uri + "\n"@ + query + "\n"@ + "host:"@ + host + "\n"@ + "x-amz-content-sha256:"@
        + payload_hash + "\n"@ + "x-amz-date:"@ + timestamp + "\n"@ + "\n"@ + signed_headers()
        + "\n"@ + payload_hash
}

/// The string that is signed for a canonical request.
pub open spec fn string_to_sign_of(timestamp: Seq<char>, date: Seq<char>, canonical: Seq<char>) -> Seq<
    char,
> {
    "AWS4-HMAC-SHA256\n"@ + timestamp + "\n"@ + scope_of(date) + "\n"@ + hex(
        sha256(encode_utf8(canonical)),
    )
}

/// The signature of a string to sign.
pub open spec fn signature_of(date: Seq<char>, secret_access_key: Seq<char>, sts: Seq<char>) -> Seq<
    char,
> {
    hex(hmac_sha256(signing_key_of(date, secret_access_key), encode_utf8(sts)))
}

/// The `Authorization` header of a request.
pub open spec fn authorization_of(
    method: Seq<char>,
    uri: Seq<char>,
    query: Seq<char>,
    host: Seq<char>,
    access_key_id: Seq<char>,
    secret_access_key: Seq<char>,
    payload_hash: Seq<char>,
    timestamp: Seq<char>,
    date: Seq<char>,
) -> Seq<char> {
    let sts = string_to_sign_of(
        timestamp,
        date,
        canonical_request_of(method, uri, query, host, payload_hash, timestamp),
    );
    "AWS4-HMAC-SHA256 Credential="@ + access_key_id + "/"@ + scope_of(date) + ", SignedHeaders="@
        + signed_headers() + ", Signature="@ + signature_of(date, secret_access_key, sts)
}

pub fn request_authorization(
    method: &str,
    canonical_uri: &str,
    canonical_query: &str,
    endpoint_host: &str,
    access_key_id: &str,
    secret_access_key: &str,
    payload_hash: &str,
    timestamp: &str,
    date: &str,
) -> (r: String)
    ensures
        r@ == authorization_of(
            method@,
            canonical_uri@,
            canonical_query@,
            endpoint_host@,
            access_key_id@,
            secret_access_key@,
            payload_hash@,
            timestamp@,
            date@,
        ),
{
    let mut c: Vec<char> = text::chars_of(method);
    text::push_str(&mut c, "\n");
    text::push_str(&mut c, canonical_uri);
    text::push_str(&mut c, "\n");
    text::push_str(&mut c, canonical_query);
    text::push_str(&mut c, "\n");
    text::push_str(&mut c, "host:");
    text::push_str(&mut c, endpoint_host);
    text::push_str(&mut c, "\n");
    text::push_str(&mut c, "x-amz-content-sha256:");
    text::push_str(&mut c, payload_hash);
    text::push_str(&mut c, "\n");
    text::push_str(&mut c, "x-amz-date:");
    text::push_str(&mut c, timestamp);
    text::push_str(&mut c, "\n");
    text::push_str(&mut c, "\n");
    text::push_str(&mut c, "host;x-amz-content-sha256;x-amz-date");
    text::push_str(&mut c, "\n");
    text::push_str(&mut c, payload_hash);
    let canonical = text::string_from_chars(&c);
    let digest = sha256_hex(canonical.as_str());
    let mut scope: Vec<char> = text::chars_of(date);
    text::push_str(&mut scope, "/auto/s3/aws4_request");
    let scope = text::string_from_chars(&scope);
    let mut s: Vec<char> = text::chars_of("AWS4-HMAC-SHA256\n");
    text::push_str(&mut s, timestamp);
    text::push_str(&mut s, "\n");
    text::push_str(&mut s, scope.as_str());
    text::push_str(&mut s, "\n");
    text::push_str(&mut s, digest.as_str());
    let sts = text::string_from_chars(&s);
    let key = signing_key(date, secret_access_key);
    let signature = hex_digest(hmac(key.as_slice(), sts.as_str()).as_slice());
    let mut a: Vec<char> = text::chars_of("AWS4-HMAC-SHA256 Credential=");
    text::push_str(&mut a, access_key_id);
    text::push_str(&mut a, "/");
    text::push_str(&mut a, scope.as_str());
    text::push_str(&mut a, ", SignedHeaders=");
    text::push_str(&mut a, "host;x-amz-content-sha256;x-amz-date");
    text::push_str(&mut a, ", Signature=");
    text::push_str(&mut a, signature.as_str());
    text::string_from_chars(&a)
}

} // verus!

verus! {

// ---------------------------------------------------------------------------
// Object URLs
// ---------------------------------------------------------------------------

/// A presigned `GET` URL for an object, valid for an hour from `timestamp`.
pub open spec fn presigned_url_of(c: R2Config, key: Seq<char>, timestamp: Seq<char>, date: Seq<char>) -> Seq<
    char,
> {
    let uri = "/"@ + c.bucket@ + "/"@ + encoded_key_of(key);
    let credential = c.access_key_id@ + "/"@ + scope_of(date);
    let query = "X-Amz-Algorithm=AWS4-HMAC-SHA256&X-Amz-Credential="@ + pct(encode_utf8(credential))
        + "&X-Amz-Date="@ + timestamp + "&X-Amz-Expires=3600&X-Amz-SignedHeaders=host"@;
    let canonical = "GET\n"@ + uri + "\n"@ + query + "\n"@ + "host:"@ + c.endpoint_host@ + "\n"@
        + "\nhost\nUNSIGNED-PAYLOAD"@;
    let sts = string_to_sign_of(timestamp, date, canonical);
    c.endpoint@ + uri + "?"@ + query + "&X-Amz-Signature="@ + signature_of(
        date,
        c.secret_access_key@,
        sts,
    )
}

/// A presigned URL for an object, for a request stamped `timestamp` on `date`.
pub fn presigned_url_at(config: &R2Config, key: &str, timestamp: &str, date: &str) -> (r: String)
    ensures
        r@ == presigned_url_of(*config, key@, timestamp@, date@),
{
    let ek = encoded_key(key);
    let mut u: Vec<char> = text::chars_of("/");
    text::push_str(&mut u, config.bucket.as_str());
    text::push_str(&mut u, "/");
    text::push_str(&mut u, ek.as_str());
    let uri = text::string_from_chars(&u);
    let mut sc: Vec<char> = text::chars_of(date);
    text::push_str(&mut sc, "/auto/s3/aws4_request");
    let scope = text::string_from_chars(&sc);
    let mut cr: Vec<char> = text::chars_of(config.access_key_id.as_str());
    text::push_str(&mut cr, "/");
    text::push_str(&mut cr, scope.as_str());
    let credential = text::string_from_chars(&cr);
    let mut q: Vec<char> = text::chars_of("X-Amz-Algorithm=AWS4-HMAC-SHA256&X-Amz-Credential=");
    text::push_str(&mut q, uri_encode(credential.as_str()).as_str());
    text::push_str(&mut q, "&X-Amz-Date=");
    text::push_str(&mut q, timestamp);
    text::push_str(&mut q, "&X-Amz-Expires=3600&X-Amz-SignedHeaders=host");
    let query = text::string_from_chars(&q);
    let mut c: Vec<char> = text::chars_of("GET\n");
    text::push_str(&mut c, uri.as_str());
    text::push_str(&mut c, "\n");
    text::push_str(&mut c, query.as_str());
    text::push_str(&mut c, "\n");
    text::push_str(&mut c, "host:");
    text::push_str(&mut c, config.endpoint_host.as_str());
    text::push_str(&mut c, "\n");
    text::push_str(&mut c, "\nhost\nUNSIGNED-PAYLOAD");
    let canonical = text::string_from_chars(&c);
    let digest = sha256_hex(canonical.as_str());
    let mut s: Vec<char> = text::chars_of("AWS4-HMAC-SHA256\n");
    text::push_str(&mut s, timestamp);
    text::push_str(&mut s, "\n");
    text::push_str(&mut s, scope.as_str());
    text::push_str(&mut s, "\n");
    text::push_str(&mut s, digest.as_str());
    let sts = text::string_from_chars(&s);
    let k = signing_key(date, config.secret_access_key.as_str());
    let signature = hex_digest(hmac(k.as_slice(), sts.as_str()).as_slice());
    let mut out: Vec<char> = text::chars_of(config.endpoint.as_str());
    text::push_str(&mut out, uri.as_str());
    text::push_str(&mut out, "?");
    text::push_str(&mut out, query.as_str());
    text::push_str(&mut out, "&X-Amz-Signature=");
    text::push_str(&mut out, signature.as_str());
    text::string_from_chars(&out)
}

/// The URL under which a stored object is played: below the public base URL where one is
/// set, otherwise a presigned URL.
pub open spec fn object_url_of(c: R2Config, key: Seq<char>, timestamp: Seq<char>, date: Seq<char>) -> Seq<
    char,
> {
    if c.public_base_url@.len() > 0 {
        c.public_base_url@ + "/"@ + encoded_key_of(key)
    } else {
        presigned_url_of(c, key, timestamp, date)
    }
}

/// The URL of a stored object, for a request stamped `timestamp` on `date` where it is
/// presigned.
pub fn object_url_at(config: &R2Config, key: &str, timestamp: &str, date: &str) -> (r: String)
    ensures
        r@ == object_url_of(*config, key@, timestamp@, date@),
{
    if !config.public_base_url.as_str().is_empty() {
        let mut out: Vec<char> = text::chars_of(config.public_base_url.as_str());
        text::push_str(&mut out, "/");
        text::push_str(&mut out, encoded_key(key).as_str());
        text::string_from_chars(&out)
    } else {
        presigned_url_at(config, key, timestamp, date)
    }
}

/// A presigned URL stamped from one reading of the clock, or the clock's error.
pub open spec fn presigned_result(c: R2Config, key: Seq<char>, clock: Result<u64, Seq<char>>) -> Result<
    Seq<char>,
    Seq<char>,
> {
    match clock_timestamp(clock) {
        Ok((ts, date)) => Ok(presigned_url_of(c, key, ts, date)),
        Err(e) => Err(e),
    }
}

/// A presigned `GET` URL for an object, stamped now.
pub fn presigned_r2_url(config: &R2Config, key: &str) -> (r: Result<String, String>)
    ensures
        exists|clock: Result<u64, Seq<char>>| text::result_view(r) == presigned_result(*config, key@, clock),
{
    let stamp = request_timestamp();
    let ghost clock = choose|clock: Result<u64, Seq<char>>| stamp_view(stamp) == clock_timestamp(clock);
    match stamp {
        Ok((timestamp, date)) => {
            let u = presigned_url_at(config, key, timestamp.as_str(), date.as_str());
            assert(text::result_view(Ok(u)) == presigned_result(*config, key@, clock));
            Ok(u)
        },
        Err(e) => {
            assert(text::result_view(Err(e)) == presigned_result(*config, key@, clock));
            Err(e)
        },
    }
}

/// The URL of a stored object: below the public base URL where one is set (the clock is
/// not read), otherwise presigned from one reading of the clock.
pub open spec fn object_url_result(c: R2Config, key: Seq<char>, clock: Result<u64, Seq<char>>) -> Result<
    Seq<char>,
    Seq<char>,
> {
    if c.public_base_url@.len() > 0 {
        Ok(c.public_base_url@ + "/"@ + encoded_key_of(key))
    } else {
        presigned_result(c, key, clock)
    }
}

/// The URL under which a stored object is played; where it is presigned, it is stamped
/// now.
pub fn r2_object_url(config: &R2Config, key: &str) -> (r: Result<String, String>)
    ensures
        exists|clock: Result<u64, Seq<char>>| text::result_view(r) == object_url_result(*config, key@, clock),
        config.public_base_url@.len() > 0 ==> (r matches Ok(u) && u@ == config.public_base_url@
            + "/"@ + encoded_key_of(key@)),
{
    if !config.public_base_url.as_str().is_empty() {
        let mut out: Vec<char> = text::chars_of(config.public_base_url.as_str());
        text::push_str(&mut out, "/");
        text::push_str(&mut out, encoded_key(key).as_str());
        let u = text::string_from_chars(&out);
        assert(text::result_view(Ok(u)) == object_url_result(*config, key@, Ok(0u64)));
        Ok(u)
    } else {
        let r = presigned_r2_url(config, key);
        proof {
            let clock = choose|clock: Result<u64, Seq<char>>|
                text::result_view(r) == presigned_result(*config, key@, clock);
            assert(text::result_view(r) == object_url_result(*config, key@, clock));
        }
        r
    }
}

// ---------------------------------------------------------------------------
// Requests
// ---------------------------------------------------------------------------

/// What a signed request needs beyond its method and body: where it goes and its
/// `Authorization` header.
pub struct SignedRequest {
    pub url: String,
    pub authorization: String,
}

/// The URL of a request: endpoint, path, and `?query` where there is a query.
pub open spec fn request_url_of(endpoint: Seq<char>, uri: Seq<char>, query: Seq<char>) -> Seq<char> {
    if query.len() > 0 {
        endpoint + uri + "?"@ + query
    } else {
        endpoint + uri
    }
}

pub fn signed_request(
    config: &R2Config,
    method: &str,
    uri: &str,
    query: &str,
    payload_hash: &str,
    timestamp: &str,
    date: &str,
) -> (r: SignedRequest)
    ensures
        r.url@ == request_url_of(config.endpoint@, uri@, query@),
        r.authorization@ == authorization_of(
            method@,
            uri@,
            query@,
            config.endpoint_host@,
            config.access_key_id@,
            config.secret_access_key@,
            payload_hash@,
            timestamp@,
            date@,
        ),
{
    let mut u: Vec<char> = text::chars_of(config.endpoint.as_str());
    text::push_str(&mut u, uri);
    if !query.is_empty() {
        text::push_str(&mut u, "?");
        text::push_str(&mut u, query);
    }
    let authorization = request_authorization(
        method,
        uri,
        query,
        config.endpoint_host.as_str(),
        config.access_key_id.as_str(),
        config.secret_access_key.as_str(),
        payload_hash,
        timestamp,
        date,
    );
    SignedRequest { url: text::string_from_chars(&u), authorization }
}

/// `/<bucket>/<encoded key>`.
pub fn object_uri(bucket: &str, encoded_object_key: &str) -> (r: String)
    ensures
        r@ == "/"@ + bucket@ + "/"@ + encoded_object_key@,
{
    let mut u: Vec<char> = text::chars_of("/");
    text::push_str(&mut u, bucket);
    text::push_str(&mut u, "/");
    text::push_str(&mut u, encoded_object_key);
    text::string_from_chars(&u)
}

/// `/<bucket>`.
pub fn bucket_uri(bucket: &str) -> (r: String)
    ensures
        r@ == "/"@ + bucket@,
{
    let mut u: Vec<char> = text::chars_of("/");
    text::push_str(&mut u, bucket);
    text::string_from_chars(&u)
}

/// `uploadId=<id>` with the id percent-encoded.
pub fn upload_id_query(multipart_id: &str) -> (r: String)
    ensures
        r@ == "uploadId="@ + pct(encode_utf8(multipart_id@)),
{
    let mut q: Vec<char> = text::chars_of("uploadId=");
    text::push_str(&mut q, uri_encode(multipart_id).as_str());
    text::string_from_chars(&q)
}

/// `partNumber=<n>&uploadId=<id>`.
pub fn part_query(part_number: u64, multipart_id: &str) -> (r: String)
    ensures
        r@ == "partNumber="@ + text::dec(part_number as nat) + "&uploadId="@ + pct(
            encode_utf8(multipart_id@),
        ),
{
    let mut q: Vec<char> = text::chars_of("partNumber=");
    text::push_decimal(&mut q, part_number);
    text::push_str(&mut q, "&uploadId=");
    text::push_str(&mut q, uri_encode(multipart_id).as_str());
    text::string_from_chars(&q)
}

/// The query of one page of a bucket listing (S3 `ListObjectsV2`, 1000 keys per page).
pub open spec fn list_query_of(token: Option<Seq<char>>) -> Seq<char> {
    match token {
        Some(t) => "continuation-token="@ + pct(encode_utf8(t)) + "&list-type=2&max-keys=1000"@,
        None => "list-type=2&max-keys=1000"@,
    }
}

pub fn list_query(token: Option<&str>) -> (r: String)
    ensures
        r@ == list_query_of(
            match token {
                Some(t) => Some(t@),
                None => None,
            },
        ),
{
    match token {
        Some(t) => {
            let mut q: Vec<char> = text::chars_of("continuation-token=");
            text::push_str(&mut q, uri_encode(t).as_str());
            text::push_str(&mut q, "&list-type=2&max-keys=1000");
            text::string_from_chars(&q)
        },
        None => "list-type=2&max-keys=1000".to_owned(),
    }
}

/// What to do after one listing page: stop after the last page, continue with the next
/// token, or fail where a truncated page carries no token.
pub fn next_list_page(is_truncated: bool, next_token: Option<String>) -> (r: Result<
    Option<String>,
    String,
>)
    ensures
        !is_truncated ==> r matches Ok(None),
        is_truncated && next_token is Some ==> (r matches Ok(Some(t)) && Some(t@)
            == text::opt_view(next_token)),
        is_truncated && next_token is None ==> (r matches Err(e) && e@
            == "err_r2_list_pagination"@),
{
    if !is_truncated {
        Ok(None)
    } else {
        match next_token {
            Some(t) => Ok(Some(t)),
            None => Err("err_r2_list_pagination".to_owned()),
        }
    }
}

} // verus!

verus! {

// ---------------------------------------------------------------------------
// Uploads
// ---------------------------------------------------------------------------

/// Files from this size on are uploaded in parts.
pub const MULTIPART_THRESHOLD: u64 = 104857600;

/// The size of every part but the last.
pub const MULTIPART_PART_SIZE: u64 = 67108864;

/// At most this many parts are in flight at once.
pub const MULTIPART_CONCURRENCY: usize = 4;

/// A file of `len` bytes is uploaded in parts.
pub fn use_multipart(len: u64) -> (r: bool)
    ensures
        r == (len >= MULTIPART_THRESHOLD),
{
    len >= MULTIPART_THRESHOLD
}

/// The number of parts of a multipart upload of `total` bytes.
pub open spec fn part_count_of(total: nat) -> nat {
    ((total + MULTIPART_PART_SIZE - 1) / (MULTIPART_PART_SIZE as int)) as nat
}

/// One part of a multipart upload: its number (from 1), offset and length.
pub struct UploadPart {
    pub number: u64,
    pub offset: u64,
    pub length: u64,
}

/// The parts of a multipart upload of `total` bytes: part `i` (from 1) starts at
/// `(i - 1) * MULTIPART_PART_SIZE` and is `MULTIPART_PART_SIZE` long, the last one
/// shorter where the total is not a multiple.
pub fn multipart_parts(total: u64) -> (parts: Vec<UploadPart>)
    ensures
        parts@.len() == part_count_of(total as nat),
        forall|i: int| 0 <= i < parts@.len() ==> is_part(total as nat, i, #[trigger] parts@[i]),
{
    let count: u64 = total / MULTIPART_PART_SIZE + if total % MULTIPART_PART_SIZE != 0 {
        1
    } else {
        0
    };
    assert(count == part_count_of(total as nat)) by (nonlinear_arith)
        requires
            count == total / MULTIPART_PART_SIZE + if total % MULTIPART_PART_SIZE != 0 {
                1int
            } else {
                0int
            },
            MULTIPART_PART_SIZE == 67108864,
    ;
    let mut parts: Vec<UploadPart> = Vec::new();
    let mut i: u64 = 0;
    while i < count
        invariant
            i <= count,
            count == part_count_of(total as nat),
            count * MULTIPART_PART_SIZE < total + MULTIPART_PART_SIZE,
            parts@.len() == i,
            forall|j: int|
                #![trigger parts@[j]]
                0 <= j < i ==> {
                    &&& parts@[j].number == j + 1
                    &&& parts@[j].offset == j * MULTIPART_PART_SIZE
                    &&& parts@[j].length == part_length(total as nat, j)
                },
        decreases count - i,
    {
        assert(i * MULTIPART_PART_SIZE < total) by (nonlinear_arith)
            requires
                i < count,
                count * MULTIPART_PART_SIZE < total + MULTIPART_PART_SIZE,
                MULTIPART_PART_SIZE == 67108864,
        ;
        let offset = i * MULTIPART_PART_SIZE;
        let rest = total - offset;
        let length = if rest < MULTIPART_PART_SIZE {
            rest
        } else {
            MULTIPART_PART_SIZE
        };
        parts.push(UploadPart { number: i + 1, offset, length });
        i = i + 1;
    }
    parts
}

/// `p` is part `i` (from 0) of a multipart upload of `total` bytes.
pub open spec fn is_part(total: nat, i: int, p: UploadPart) -> bool {
    &&& p.number == i + 1
    &&& p.offset == i * MULTIPART_PART_SIZE
    &&& p.length == part_length(total, i)
}

/// The number of batches in which `n` parts are sent, `MULTIPART_CONCURRENCY` at a time.
pub open spec fn batch_count(n: nat) -> nat {
    ((n + MULTIPART_CONCURRENCY - 1) / (MULTIPART_CONCURRENCY as int)) as nat
}

/// The parts of a multipart upload of `total` bytes in the batches in which they are sent:
/// batch `b` holds the `MULTIPART_CONCURRENCY` parts from part `b * MULTIPART_CONCURRENCY`
/// on (counting from 0), the last batch fewer where the count is not a multiple.
pub fn multipart_batches(total: u64) -> (batches: Vec<Vec<UploadPart>>)
    ensures
        batches@.len() == batch_count(part_count_of(total as nat)),
        forall|b: int|
            #![trigger batches@[b]]
            0 <= b < batches@.len() ==> {
                &&& batches@[b]@.len() == if part_count_of(total as nat) - b
                    * MULTIPART_CONCURRENCY < MULTIPART_CONCURRENCY {
                    part_count_of(total as nat) - b * MULTIPART_CONCURRENCY
                } else {
                    MULTIPART_CONCURRENCY as int
                }
                &&& forall|j: int|
                    0 <= j < batches@[b]@.len() ==> is_part(
                        total as nat,
                        b * MULTIPART_CONCURRENCY + j,
                        #[trigger] batches@[b]@[j],
                    )
            },
{
    let parts = multipart_parts(total);
    let n = parts.len();
    let mut batches: Vec<Vec<UploadPart>> = Vec::new();
    let mut start: usize = 0;
    while start < n
        invariant
            n == parts@.len(),
            n == part_count_of(total as nat),
            forall|i: int| 0 <= i < n ==> is_part(total as nat, i, #[trigger] parts@[i]),
            start == (if 4 * batches@.len() <= n {
                4 * batches@.len() as int
            } else {
                n as int
            }),
            4 * batches@.len() < n + 4,
            start < n ==> 4 * batches@.len() == start,
            forall|b: int|
                #![trigger batches@[b]]
                0 <= b < batches@.len() ==> {
                    &&& batches@[b]@.len() == if n - b * 4 < 4 {
                        n - b * 4
                    } else {
                        4
                    }
                    &&& forall|j: int|
                        0 <= j < batches@[b]@.len() ==> is_part(
                            total as nat,
                            b * 4 + j,
                            #[trigger] batches@[b]@[j],
                        )
                },
        decreases n - start,
    {
        let end = if n - start < MULTIPART_CONCURRENCY {
            n
        } else {
            start + MULTIPART_CONCURRENCY
        };
        let mut batch: Vec<UploadPart> = Vec::new();
        let mut i = start;
        while i < end
            invariant
                start <= i <= end <= n,
                n == parts@.len(),
                forall|k: int| 0 <= k < n ==> is_part(total as nat, k, #[trigger] parts@[k]),
                batch@.len() == i - start,
                forall|j: int|
                    0 <= j < batch@.len() ==> is_part(total as nat, start + j, #[trigger] batch@[j]),
            decreases end - i,
        {
            let p = &parts[i];
            batch.push(UploadPart { number: p.number, offset: p.offset, length: p.length });
            assert(is_part(total as nat, (start + (i - start)) as int, batch@[i - start]));
            i = i + 1;
        }
        let ghost bi = batches@.len() as int;
        batches.push(batch);
        assert(batches@[bi]@.len() == if n - bi * 4 < 4 {
            n - bi * 4
        } else {
            4
        });
        start = end;
    }
    assert(batches@.len() == batch_count(n as nat)) by (nonlinear_arith)
        requires
            4 * batches@.len() < n + 4,
            4 * batches@.len() >= n,
            MULTIPART_CONCURRENCY == 4,
    ;
    batches
}

/// The number of parts in batch `b` of `n` parts.
pub open spec fn batch_len(n: nat, b: int) -> int {
    if n - b * 4 < 4 {
        n - b * 4
    } else {
        4
    }
}

/// The parts uploaded before batch `b` of `n` parts.
pub open spec fn parts_before(n: nat, b: int) -> int {
    if 4 * b <= n {
        4 * b
    } else {
        n as int
    }
}

/// The ETag that a successful part upload answered (empty for a failure).
pub open spec fn ok_text(r: Result<String, String>) -> Seq<char> {
    match r {
        Ok(t) => t@,
        Err(_) => Seq::empty(),
    }
}

/// The error of the first failed part upload, in batch order.
pub open spec fn first_error(rs: Seq<Result<String, String>>) -> Option<Seq<char>>
    decreases rs.len(),
{
    if rs.len() == 0 {
        None
    } else {
        match rs[0] {
            Err(e) => Some(e@),
            Ok(_) => first_error(rs.drop_first()),
        }
    }
}

/// The part numbers and ETags of a batch whose first part has number `first`.
pub open spec fn batch_etags(first: int, rs: Seq<Result<String, String>>) -> Seq<(u64, Seq<char>)> {
    Seq::new(rs.len(), |j: int| ((first + j) as u64, ok_text(rs[j])))
}

pub open spec fn etag_views(done: Seq<(u64, String)>) -> Seq<(u64, Seq<char>)> {
    done.map_values(|d: (u64, String)| (d.0, d.1@))
}

/// What a multipart upload does next.
pub enum MultipartAction {
    /// Upload these parts, all at once.
    SendBatch(Vec<UploadPart>),
    /// Every part is uploaded: complete the upload with these part numbers and ETags.
    Complete(Vec<(u64, String)>),
    /// Abort the upload and report this error.
    Abort(String),
    /// The upload is complete.
    Finish,
}

/// The progress of one multipart upload: the batches of its parts, how many of them have
/// been uploaded, and the ETags received so far.
pub struct MultipartRun {
    total: u64,
    batches: Vec<Vec<UploadPart>>,
    next: usize,
    done: Vec<(u64, String)>,
}

impl MultipartRun {
    /// The size of the file.
    pub closed spec fn spec_total(&self) -> u64 {
        self.total
    }

    /// How many batches have been uploaded.
    pub closed spec fn spec_next(&self) -> nat {
        self.next as nat
    }

    /// The part numbers and ETags received so far, in part order.
    pub closed spec fn spec_done(&self) -> Seq<(u64, Seq<char>)> {
        etag_views(self.done@)
    }

    /// The batches are those of `multipart_batches`, the uploaded ones come first, and the
    /// ETags received are those of the parts of the uploaded batches.
    pub closed spec fn wf(&self) -> bool {
        let n = part_count_of(self.total as nat);
        &&& self.batches@.len() == batch_count(n)
        &&& forall|b: int|
            #![trigger self.batches@[b]]
            0 <= b < self.batches@.len() ==> {
                &&& self.batches@[b]@.len() == batch_len(n, b)
                &&& forall|j: int|
                    0 <= j < self.batches@[b]@.len() ==> is_part(
                        self.total as nat,
                        b * 4 + j,
                        #[trigger] self.batches@[b]@[j],
                    )
            }
        &&& self.next <= self.batches@.len()
        &&& self.done@.len() == parts_before(n, self.next as int)
        &&& forall|i: int| 0 <= i < self.done@.len() ==> #[trigger] self.done@[i].0 == i + 1
    }

    /// A multipart upload of `total` bytes of which nothing is uploaded yet.
    pub fn new(total: u64) -> (r: Self)
        ensures
            r.wf(),
            r.spec_total() == total,
            r.spec_next() == 0,
            r.spec_done() == Seq::<(u64, Seq<char>)>::empty(),
    {
        let batches = multipart_batches(total);
        let r = MultipartRun { total, batches, next: 0, done: Vec::new() };
        assert(r.spec_done() =~= Seq::<(u64, Seq<char>)>::empty());
        r
    }

    /// What to do next: before each batch, abort where the upload has been cancelled,
    /// otherwise upload the batch; once every batch is uploaded, complete the upload.
    pub fn next_action(&self, cancelled: bool) -> (r: MultipartAction)
        requires
            self.wf(),
        ensures
            self.spec_next() < batch_count(part_count_of(self.spec_total() as nat)) && cancelled
                ==> (r matches MultipartAction::Abort(e) && e@ == "err_r2_upload_cancelled"@),
            self.spec_next() < batch_count(part_count_of(self.spec_total() as nat)) && !cancelled
                ==> (r matches MultipartAction::SendBatch(b) && b@.len() == batch_len(
                part_count_of(self.spec_total() as nat),
                self.spec_next() as int,
            ) && forall|j: int|
                0 <= j < b@.len() ==> is_part(
                    self.spec_total() as nat,
                    self.spec_next() * 4 + j,
                    #[trigger] b@[j],
                )),
            self.spec_next() == batch_count(part_count_of(self.spec_total() as nat)) ==> (r matches MultipartAction::Complete(c) && etag_views(c@) == self.spec_done()),
    {
        if self.next < self.batches.len() {
            if cancelled {
                return MultipartAction::Abort("err_r2_upload_cancelled".to_owned());
            }
            let src = &self.batches[self.next];
            let mut b: Vec<UploadPart> = Vec::new();
            let mut j: usize = 0;
            while j < src.len()
                invariant
                    j <= src@.len(),
                    b@.len() == j,
                    forall|k: int| 0 <= k < j ==> #[trigger] b@[k] == src@[k],
                decreases src@.len() - j,
            {
                let p = &src[j];
                b.push(UploadPart { number: p.number, offset: p.offset, length: p.length });
                j = j + 1;
            }
            assert(self.batches@[self.next as int] == *src);
            return MultipartAction::SendBatch(b);
        }
        let mut c: Vec<(u64, String)> = Vec::new();
        let mut i: usize = 0;
        while i < self.done.len()
            invariant
                i <= self.done@.len(),
                etag_views(c@) == etag_views(self.done@).take(i as int),
            decreases self.done@.len() - i,
        {
            let ghost before = c@;
            c.push((self.done[i].0, self.done[i].1.clone()));
            assert(etag_views(c@) =~= etag_views(before).push((self.done@[i as int].0, self.done@[i as int].1@)));
            assert(etag_views(self.done@).take(i + 1) =~= etag_views(self.done@).take(i as int).push(
                etag_views(self.done@)[i as int],
            ));
            i = i + 1;
        }
        assert(etag_views(self.done@).take(self.done@.len() as int) =~= etag_views(self.done@));
        MultipartAction::Complete(c)
    }

    /// Takes in the outcome of each part of the batch just sent, in batch order. Where a
    /// part failed, the first failure is returned (the upload is then aborted) and nothing
    /// changes; otherwise the parts' numbers and ETags are recorded and the next batch is
    /// due.
    pub fn record_batch(&mut self, results: Vec<Result<String, String>>) -> (r: Result<(), String>)
        requires
            old(self).wf(),
            old(self).spec_next() < batch_count(part_count_of(old(self).spec_total() as nat)),
            results@.len() == batch_len(
                part_count_of(old(self).spec_total() as nat),
                old(self).spec_next() as int,
            ),
        ensures
            first_error(results@) matches Some(e) ==> (r matches Err(x) && x@ == e && *final(self)
                == *old(self)),
            first_error(results@) is None ==> {
                &&& r is Ok
                &&& final(self).wf()
                &&& final(self).spec_total() == old(self).spec_total()
                &&& final(self).spec_next() == old(self).spec_next() + 1
                &&& final(self).spec_done() == old(self).spec_done() + batch_etags(
                    (old(self).spec_next() * 4 + 1) as int,
                    results@,
                )
            },
    {
        let ghost rs = results@;
        let n = results.len();
        let mut i: usize = 0;
        assert(rs.subrange(0, n as int) == rs);
        while i < n
            invariant
                i <= n,
                n == rs.len(),
                rs == results@,
                first_error(rs) == first_error(rs.subrange(i as int, n as int)),
                forall|k: int| 0 <= k < i ==> (#[trigger] rs[k]) is Ok,
            decreases n - i,
        {
            assert(rs.subrange(i as int, n as int)[0] == rs[i as int]);
            assert(rs.subrange(i as int, n as int).drop_first() == rs.subrange(i + 1, n as int));
            match &results[i] {
                Err(e) => {
                    return Err(e.clone());
                },
                Ok(_) => {},
            }
            i = i + 1;
        }
        assert(first_error(rs.subrange(n as int, n as int)) is None);
        let ghost old_done = self.done@;
        let ghost b = self.next as int;
        let ghost cnt = part_count_of(self.total as nat);
        proof {
            assert(4 * b < cnt) by (nonlinear_arith)
                requires
                    b < batch_count(cnt),
                    batch_count(cnt) == (cnt + 3) / 4,
            ;
        }
        let batch_size = self.batches[self.next].len();
        let batch_total = self.batches.len();
        assert(self.next < batch_total);
        let after = self.next + 1;
        let mut k: usize = 0;
        while k < batch_size
            invariant
                k <= batch_size,
                batch_size == n,
                n == rs.len(),
                after == self.next + 1,
                self.batches@ == old(self).batches@,
                self.total == old(self).total,
                self.next == old(self).next,
                b == self.next,
                self.next < self.batches@.len(),
                self.batches@[b]@.len() == n,
                forall|q: int|
                    0 <= q < n ==> is_part(self.total as nat, b * 4 + q, #[trigger] self.batches@[b]@[q]),
                rs == results@,
                forall|q: int| 0 <= q < n ==> (#[trigger] rs[q]) is Ok,
                self.done@.len() == old_done.len() + k,
                self.done@.subrange(0, old_done.len() as int) == old_done,
                forall|q: int|
                    0 <= q < k ==> #[trigger] self.done@[old_done.len() + q] == (
                        (b * 4 + q + 1) as u64,
                        self.done@[old_done.len() + q].1,
                    ) && self.done@[old_done.len() + q].1@ == ok_text(rs[q]),
            decreases batch_size - k,
        {
            let number = self.batches[self.next][k].number;
            let etag = match &results[k] {
                Ok(t) => t.clone(),
                Err(_) => String::new(),
            };
            let ghost d0 = self.done@;
            self.done.push((number, etag));
            assert(self.done@.subrange(0, old_done.len() as int) == d0.subrange(0, old_done.len() as int));
            assert forall|q: int|
                0 <= q < k + 1 implies #[trigger] self.done@[old_done.len() + q] == (
                    (b * 4 + q + 1) as u64,
                    self.done@[old_done.len() + q].1,
                ) && self.done@[old_done.len() + q].1@ == ok_text(rs[q]) by {
                if q < k {
                    assert(self.done@[old_done.len() + q] == d0[old_done.len() + q]);
                }
            }
            k = k + 1;
        }
        self.next = after;
        proof {
            assert(old_done.len() == 4 * b);
            assert(etag_views(self.done@) =~= etag_views(old_done) + batch_etags(b * 4 + 1, rs)) by {
                assert forall|q: int| 0 <= q < etag_views(self.done@).len() implies #[trigger] etag_views(
                    self.done@,
                )[q] == (etag_views(old_done) + batch_etags(b * 4 + 1, rs))[q] by {
                    if q < old_done.len() {
                        assert(self.done@[q] == old_done[q]);
                    } else {
                        let j = q - old_done.len();
                        assert(self.done@[old_done.len() + j].1@ == ok_text(rs[j]));
                    }
                }
            }
            assert(self.done@.len() == parts_before(cnt, b + 1)) by (nonlinear_arith)
                requires
                    self.done@.len() == 4 * b + batch_len(cnt, b),
                    4 * b < cnt,
            ;
            assert forall|q: int| 0 <= q < self.done@.len() implies #[trigger] self.done@[q].0 == q + 1 by {
                if q < old_done.len() {
                    assert(self.done@[q] == old_done[q]);
                } else {
                    let j = q - old_done.len();
                    assert(self.done@[old_done.len() + j].0 == (b * 4 + j + 1) as u64);
                }
            }
        }
        Ok(())
    }

    /// What follows the request that completes the upload: where it failed, abort the
    /// upload and report its error; otherwise the upload is done.
    pub fn after_completion(&self, result: Result<(), String>) -> (r: MultipartAction)
        ensures
            result matches Err(e) ==> (r matches MultipartAction::Abort(x) && x@ == e@),
            result is Ok ==> r matches MultipartAction::Finish,
    {
        match result {
            Ok(()) => MultipartAction::Finish,
            Err(e) => MultipartAction::Abort(e),
        }
    }
}

/// The body that completes a multipart upload, listing each part's number and ETag.
pub open spec fn complete_body_of(parts: Seq<(u64, String)>) -> Seq<char> {
    "<CompleteMultipartUpload>"@ + parts_xml(parts) + "</CompleteMultipartUpload>"@
}

pub open spec fn parts_xml(parts: Seq<(u64, String)>) -> Seq<char>
    decreases parts.len(),
{
    if parts.len() == 0 {
        Seq::empty()
    } else {
        parts_xml(parts.drop_last()) + "<Part><PartNumber>"@ + text::dec(parts.last().0 as nat)
            + "</PartNumber><ETag>"@ + parts.last().1@ + "</ETag></Part>"@
    }
}

pub fn complete_multipart_body(parts: &Vec<(u64, String)>) -> (r: String)
    ensures
        r@ == complete_body_of(parts@),
{
    let mut out: Vec<char> = Vec::new();
    let mut i: usize = 0;
    while i < parts.len()
        invariant
            i <= parts@.len(),
            out@ == parts_xml(parts@.take(i as int)),
        decreases parts@.len() - i,
    {
        text::push_str(&mut out, "<Part><PartNumber>");
        text::push_decimal(&mut out, parts[i].0);
        text::push_str(&mut out, "</PartNumber><ETag>");
        text::push_str(&mut out, parts[i].1.as_str());
        text::push_str(&mut out, "</ETag></Part>");
        assert(parts@.take(i + 1).drop_last() == parts@.take(i as int));
        i = i + 1;
    }
    assert(parts@.take(parts@.len() as int) == parts@);
    let mut full: Vec<char> = text::chars_of("<CompleteMultipartUpload>");
    let body = text::string_from_chars(&out);
    text::push_str(&mut full, body.as_str());
    text::push_str(&mut full, "</CompleteMultipartUpload>");
    text::string_from_chars(&full)
}

/// The encoded object key of a request, refused where it is empty or longer than 1024
/// bytes.
pub fn checked_object_key(key: &str) -> (r: Result<String, String>)
    ensures
        match r {
            Ok(k) => k@ == encoded_key_of(key@) && k@.len() > 0 && encode_utf8(k@).len() <= 1024,
            Err(e) => (encoded_key_of(key@).len() == 0 || encode_utf8(encoded_key_of(key@)).len()
                > 1024) && e@ == "err_r2_invalid_key"@,
        },
{
    let k = encoded_key(key);
    if k.as_str().is_empty() || k.as_str().as_bytes().len() > 1024 {
        Err("err_r2_invalid_key".to_owned())
    } else {
        Ok(k)
    }
}

/// A file handed to an upload must be a regular file that is not empty.
pub fn check_upload_file(is_file: bool, len: u64) -> (r: Result<(), String>)
    ensures
        !is_file ==> (r matches Err(e) && e@ == "err_r2_file_not_found"@),
        is_file && len == 0 ==> (r matches Err(e) && e@ == "err_r2_file_empty"@),
        is_file && len > 0 ==> r is Ok,
{
    if !is_file {
        Err("err_r2_file_not_found".to_owned())
    } else if len == 0 {
        Err("err_r2_file_empty".to_owned())
    } else {
        Ok(())
    }
}

/// `<prefix>:<text cut to max_chars>`.
pub fn prefixed_detail(prefix: &str, detail: &str, max_chars: usize) -> (r: String)
    ensures
        r@ == prefix@ + seq![':'] + truncated(detail@, max_chars as nat),
{
    let mut out: Vec<char> = text::chars_of(prefix);
    out.push(':');
    text::push_str(&mut out, truncate(detail, max_chars).as_str());
    text::string_from_chars(&out)
}

/// `<prefix>:<status>:<trimmed body cut to 1000 characters>`, reported when the service
/// answers with an error status.
pub fn http_failure(prefix: &str, status: &str, body: &str) -> (r: String)
    ensures
        r@ == prefix@ + seq![':'] + status@ + seq![':'] + truncated(text::trim(body@), 1000),
{
    let mut out: Vec<char> = text::chars_of(prefix);
    out.push(':');
    text::push_str(&mut out, status);
    out.push(':');
    let t = text::trim_string(body);
    text::push_str(&mut out, truncate(t.as_str(), 1000).as_str());
    text::string_from_chars(&out)
}

/// Only a file named exactly `.env` is read as R2 settings; the path is trimmed first.
pub fn check_env_file_path(path: &str) -> (r: Result<String, String>)
    ensures
        match r {
            Ok(p) => p@ == text::trim(path@) && paths::path_file_name(p@) == Some(".env"@),
            Err(e) => paths::path_file_name(text::trim(path@)) != Some(".env"@) && e@
                == "err_r2_env_file_name"@,
        },
{
    let p = text::trim_string(path);
    let ok = match paths::file_name_of(p.as_str()) {
        Some(n) => text::str_eq(n.as_str(), ".env"),
        None => false,
    };
    if ok {
        Ok(p)
    } else {
        Err("err_r2_env_file_name".to_owned())
    }
}

} // verus!

verus! {

// ---------------------------------------------------------------------------
// Listing
// ---------------------------------------------------------------------------

/// One object of a listing page.
pub struct R2Object {
    pub key: String,
    pub size: u64,
    pub last_modified: Option<String>,
}

pub struct R2Video {
    pub name: String,
    pub key: String,
    pub size: u64,
    pub modified: Option<i64>,
    pub url: String,
}

pub struct R2Folder {
    pub name: String,
    pub path: String,
    pub videos: Vec<R2Video>,
}

pub struct R2Library {
    pub bucket: String,
    pub folders: Vec<R2Folder>,
}

impl Named for R2Video {
    open spec fn name_view(&self) -> Seq<char> {
        self.name@
    }

    fn name_str(&self) -> (r: &str) {
        self.name.as_str()
    }
}

/// The folder part and the name part of a (trimmed) key: split at its last `/`.
pub open spec fn key_split(key: Seq<char>) -> (Seq<char>, Seq<char>) {
    match text::rpos_of(key, '/') {
        Some(i) => (key.subrange(0, i), key.subrange(i + 1, key.len() as int)),
        None => (Seq::empty(), key),
    }
}

/// `e` is the listing entry of object `o`: the folder path, and the video with its name,
/// trimmed key, size, modification time, and a URL that some reading of the clock gives
/// (the URL below the public base URL where one is set).
pub open spec fn entry_of(c: R2Config, o: R2Object, e: (String, R2Video)) -> bool {
    let key = strip_slashes(o.key@);
    &&& e.0@ == key_split(key).0
    &&& e.1.name@ == key_split(key).1
    &&& e.1.key@ == key
    &&& e.1.size == o.size
    &&& e.1.modified == (match o.last_modified {
        Some(m) => rfc3339_seconds(m@),
        None => None,
    })
    &&& exists|clock: Result<u64, Seq<char>>|
        #[trigger] object_url_result(c, key, clock) == Ok::<Seq<char>, Seq<char>>(e.1.url@)
}

/// The URL of the object with key `key` fails with error `e` for some reading of the clock.
pub open spec fn url_fails(c: R2Config, key: Seq<char>, e: Seq<char>) -> bool {
    exists|clock: Result<u64, Seq<char>>|
        #[trigger] object_url_result(c, key, clock) == Err::<Seq<char>, Seq<char>>(e)
}

/// An object is listed where its trimmed key is not empty and names a video.
pub open spec fn listed(o: R2Object) -> bool {
    strip_slashes(o.key@).len() > 0 && is_r2_video_key(strip_slashes(o.key@))
}

/// `entries` are the entries of the listed objects, in order.
pub open spec fn entries_of(c: R2Config, objects: Seq<R2Object>, entries: Seq<(String, R2Video)>) -> bool
    decreases objects.len(),
{
    if objects.len() == 0 {
        entries.len() == 0
    } else if listed(objects.last()) {
        &&& entries.len() > 0
        &&& entry_of(c, objects.last(), entries.last())
        &&& entries_of(c, objects.drop_last(), entries.drop_last())
    } else {
        entries_of(c, objects.drop_last(), entries)
    }
}

/// The listing fails with `e`: the URL of some listed object fails with it.
pub open spec fn listing_fails(c: R2Config, objects: Seq<R2Object>, e: Seq<char>) -> bool {
    exists|i: int|
        0 <= i < objects.len() && listed(#[trigger] objects[i]) && url_fails(
            c,
            strip_slashes(objects[i].key@),
            e,
        )
}

/// The entry of one listed object; nothing for an object that is not listed.
pub fn r2_listing_entry(config: &R2Config, object: &R2Object) -> (r: Result<
    Option<(String, R2Video)>,
    String,
>)
    ensures
        !listed(*object) ==> r matches Ok(None),
        listed(*object) ==> match r {
            Ok(Some(e)) => entry_of(*config, *object, e),
            Ok(None) => false,
            Err(e) => url_fails(*config, strip_slashes(object.key@), e@),
        },
        config.public_base_url@.len() > 0 ==> r is Ok,
{
    let v = text::chars_of(object.key.as_str());
    let (a, b) = trim_char_bounds(&v, '/');
    let key = text::substring(object.key.as_str(), a, b);
    if key.as_str().is_empty() || !is_r2_video(key.as_str()) {
        return Ok(None);
    }
    let kv = text::chars_of(key.as_str());
    let (folder, name) = match text::rpos_exec(&kv, '/') {
        Some(i) => {
            proof {
                text::lemma_rpos_of(kv@, '/');
            }
            (text::substring(key.as_str(), 0, i), text::substring(key.as_str(), i + 1, kv.len()))
        },
        None => (String::new(), key.clone()),
    };
    let modified = match &object.last_modified {
        Some(m) => r2_modified_timestamp(Some(m.as_str())),
        None => None,
    };
    let url = r2_object_url(config, key.as_str());
    let ghost clock = choose|clock: Result<u64, Seq<char>>|
        text::result_view(url) == object_url_result(*config, key@, clock);
    match url {
        Ok(url) => {
            assert(object_url_result(*config, key@, clock) == Ok::<Seq<char>, Seq<char>>(url@));
            Ok(Some((folder, R2Video { name, key, size: object.size, modified, url })))
        },
        Err(e) => {
            assert(object_url_result(*config, key@, clock) == Err::<Seq<char>, Seq<char>>(e@));
            Err(e)
        },
    }
}

/// The entries of the listed objects of a listing, in order; an error where the URL of a
/// listed object cannot be made.
pub fn r2_entries(config: &R2Config, objects: &Vec<R2Object>) -> (r: Result<
    Vec<(String, R2Video)>,
    String,
>)
    ensures
        r matches Ok(v) ==> entries_of(*config, objects@, v@),
        r matches Err(e) ==> listing_fails(*config, objects@, e@),
        config.public_base_url@.len() > 0 ==> r is Ok,
{
    let mut out: Vec<(String, R2Video)> = Vec::new();
    let mut i: usize = 0;
    while i < objects.len()
        invariant
            i <= objects@.len(),
            entries_of(*config, objects@.take(i as int), out@),
        decreases objects@.len() - i,
    {
        assert(objects@.take(i + 1).drop_last() == objects@.take(i as int));
        assert(objects@.take(i + 1).last() == objects@[i as int]);
        match r2_listing_entry(config, &objects[i]) {
            Ok(Some(e)) => {
                let ghost before = out@;
                out.push(e);
                assert(out@.drop_last() == before);
            },
            Ok(None) => {},
            Err(e) => {
                assert(listed(objects@[i as int]));
                return Err(e);
            },
        }
        i = i + 1;
    }
    assert(objects@.take(objects@.len() as int) == objects@);
    Ok(out)
}

/// The videos of the entries in folder `path`, in entry order.
pub open spec fn group_of(entries: Seq<(String, R2Video)>, path: Seq<char>) -> Seq<R2Video>
    decreases entries.len(),
{
    if entries.len() == 0 {
        Seq::empty()
    } else if entries.last().0@ == path {
        group_of(entries.drop_last(), path).push(entries.last().1)
    } else {
        group_of(entries.drop_last(), path)
    }
}

/// The display name of a folder: the last segment of its path, `Unsorted` where that is
/// empty.
pub open spec fn folder_name_of(path: Seq<char>) -> Seq<char> {
    let seg = match text::rpos_of(path, '/') {
        Some(i) => path.subrange(i + 1, path.len() as int),
        None => path,
    };
    if seg.len() > 0 {
        seg
    } else {
        "Unsorted"@
    }
}

proof fn lemma_group_nonempty(entries: Seq<(String, R2Video)>, path: Seq<char>)
    requires
        group_of(entries, path).len() > 0,
    ensures
        exists|k: int| 0 <= k < entries.len() && (#[trigger] entries[k]).0@ == path,
    decreases entries.len(),
{
    if entries.last().0@ == path {
        assert(entries[entries.len() - 1].0@ == path);
    } else {
        lemma_group_nonempty(entries.drop_last(), path);
        let k = choose|k: int|
            0 <= k < entries.drop_last().len() && (#[trigger] entries.drop_last()[k]).0@ == path;
        assert(entries[k] == entries.drop_last()[k]);
    }
}

fn folder_name(path: &str) -> (r: String)
    ensures
        r@ == folder_name_of(path@),
{
    let v = text::chars_of(path);
    let seg = match text::rpos_exec(&v, '/') {
        Some(i) => {
            proof {
                text::lemma_rpos_of(v@, '/');
            }
            text::substring(path, i + 1, v.len())
        },
        None => path.to_owned(),
    };
    if seg.as_str().is_empty() {
        "Unsorted".to_owned()
    } else {
        seg
    }
}

/// Some folder has path `p`.
pub open spec fn has_folder(folders: Seq<R2Folder>, p: Seq<char>) -> bool {
    exists|i: int| 0 <= i < folders.len() && (#[trigger] folders[i]).path@ == p
}

/// Some string of `paths` is `p`.
pub open spec fn has_path(paths: Seq<String>, p: Seq<char>) -> bool {
    exists|i: int| 0 <= i < paths.len() && (#[trigger] paths[i])@ == p
}

/// The folders of a listing: one per distinct folder path, ordered by path; each holds the
/// videos of its entries sorted by name (equal names keep the listing order) and is named
/// after its last path segment.
pub open spec fn folders_of(entries: Seq<(String, R2Video)>, folders: Seq<R2Folder>) -> bool {
    &&& forall|i: int, j: int|
        0 <= i < j < folders.len() ==> sorting::lex_lt(folders[i].path@, folders[j].path@)
    &&& forall|k: int| 0 <= k < entries.len() ==> has_folder(folders, (#[trigger] entries[k]).0@)
    &&& forall|i: int|
        0 <= i < folders.len() ==> {
            &&& group_of(entries, (#[trigger] folders[i]).path@).len() > 0
            &&& sorting::is_stable_sort(group_of(entries, folders[i].path@), folders[i].videos@)
            &&& folders[i].name@ == folder_name_of(folders[i].path@)
        }
}

/// Groups listing entries into folders (see `folders_of`).
pub fn group_r2_entries(entries: Vec<(String, R2Video)>) -> (r: Vec<R2Folder>)
    ensures
        folders_of(entries@, r@),
{
    let ghost all = entries@;
    let n = entries.len();
    let mut rest = entries;
    let mut paths: Vec<String> = Vec::new();
    let mut groups: Vec<Vec<R2Video>> = Vec::new();
    let mut t: usize = 0;
    while t < n
        invariant
            t <= n,
            n == all.len(),
            rest@ == all.subrange(t as int, n as int),
            paths@.len() == groups@.len(),
            forall|i: int, j: int|
                0 <= i < j < paths@.len() ==> sorting::lex_lt(paths@[i]@, paths@[j]@),
            forall|g: int|
                0 <= g < paths@.len() ==> (#[trigger] groups@[g])@ == group_of(
                    all.take(t as int),
                    paths@[g]@,
                ),
            forall|g: int| 0 <= g < paths@.len() ==> (#[trigger] groups@[g])@.len() > 0,
            forall|k: int| 0 <= k < t ==> has_path(paths@, (#[trigger] all[k]).0@),
        decreases n - t,
    {
        let (p, video) = rest.remove(0);
        assert((p, video) == all[t as int]);
        let ghost taken = all.take(t + 1);
        assert(taken.drop_last() == all.take(t as int));
        assert(taken.last() == all[t as int]);
        let pv = text::chars_of(p.as_str());
        let mut g: usize = 0;
        while g < paths.len() && sorting::lex_lt_exec(&text::chars_of(paths[g].as_str()), &pv)
            invariant
                g <= paths@.len(),
                pv@ == p@,
                forall|i: int| 0 <= i < g ==> sorting::lex_lt((#[trigger] paths@[i])@, p@),
            decreases paths@.len() - g,
        {
            g = g + 1;
        }
        let ghost old_paths = paths@;
        let ghost old_groups = groups@;
        if g < paths.len() && text::str_eq(paths[g].as_str(), p.as_str()) {
            let mut grp = groups.remove(g);
            grp.push(video);
            groups.insert(g, grp);
            proof {
                assert forall|h: int| 0 <= h < paths@.len() implies (#[trigger] groups@[h])@
                    == group_of(taken, paths@[h]@) by {
                    if h < g {
                        assert(groups@[h] == old_groups[h]);
                    } else if h > g {
                        assert(groups@[h] == old_groups[h]);
                    }
                    if h != g {
                        assert(paths@[h]@ != p@) by {
                            sorting::lemma_lex_irreflexive(p@);
                            if h < g {
                            } else {
                                assert(sorting::lex_lt(paths@[g as int]@, paths@[h]@));
                            }
                        }
                    }
                }
                assert forall|k: int| 0 <= k < t + 1 implies has_path(paths@, (#[trigger] all[k]).0@) by {
                    if k == t {
                        assert(paths@[g as int]@ == all[k].0@);
                    } else {
                        assert(has_path(old_paths, all[k].0@));
                        let h = choose|h: int| 0 <= h < old_paths.len() && (#[trigger] old_paths[h])@ == all[k].0@;
                        assert(paths@[h] == old_paths[h]);
                    }
                }
            }
        } else {
            proof {
                if g < old_paths.len() {
                    sorting::lemma_lex_trichotomy(p@, old_paths[g as int]@);
                }
                assert forall|h: int| 0 <= h < old_paths.len() implies old_paths[h]@ != p@ by {
                    sorting::lemma_lex_irreflexive(p@);
                    if h >= g {
                        if h > g {
                            assert(sorting::lex_lt(old_paths[g as int]@, old_paths[h]@));
                            sorting::lemma_lex_transitive(p@, old_paths[g as int]@, old_paths[h]@);
                        }
                    }
                }
                if group_of(all.take(t as int), p@).len() > 0 {
                    lemma_group_nonempty(all.take(t as int), p@);
                    let k = choose|k: int|
                        0 <= k < all.take(t as int).len() && (#[trigger] all.take(t as int)[k]).0@
                            == p@;
                    assert(all.take(t as int)[k] == all[k]);
                    assert(has_path(old_paths, all[k].0@));
                    let h = choose|h: int| 0 <= h < old_paths.len() && (#[trigger] old_paths[h])@ == all[k].0@;
                }
                assert(group_of(all.take(t as int), p@) =~= Seq::<R2Video>::empty());
            }
            let mut grp: Vec<R2Video> = Vec::new();
            grp.push(video);
            paths.insert(g, p);
            groups.insert(g, grp);
            proof {
                assert forall|i: int, j: int| 0 <= i < j < paths@.len() implies sorting::lex_lt(
                    paths@[i]@,
                    paths@[j]@,
                ) by {
                    if i < g && j < g {
                    } else if i < g && j == g {
                    } else if i < g && j > g {
                        assert(paths@[j] == old_paths[j - 1]);
                    } else if i == g {
                        assert(paths@[j] == old_paths[j - 1]);
                        if j - 1 > g {
                            sorting::lemma_lex_transitive(
                                p@,
                                old_paths[g as int]@,
                                old_paths[j - 1]@,
                            );
                        }
                    } else {
                        assert(paths@[i] == old_paths[i - 1]);
                        assert(paths@[j] == old_paths[j - 1]);
                    }
                }
                assert forall|h: int| 0 <= h < paths@.len() implies (#[trigger] groups@[h])@
                    == group_of(taken, paths@[h]@) by {
                    if h < g {
                        assert(groups@[h] == old_groups[h]);
                        assert(paths@[h] == old_paths[h]);
                    } else if h > g {
                        assert(groups@[h] == old_groups[h - 1]);
                        assert(paths@[h] == old_paths[h - 1]);
                    } else {
                        assert(groups@[h]@ =~= seq![video]);
                    }
                }
                assert forall|h: int| 0 <= h < paths@.len() implies (#[trigger] groups@[h])@.len()
                    > 0 by {
                    if h < g {
                        assert(groups@[h] == old_groups[h]);
                    } else if h > g {
                        assert(groups@[h] == old_groups[h - 1]);
                    }
                }
                assert forall|k: int| 0 <= k < t + 1 implies has_path(paths@, (#[trigger] all[k]).0@) by {
                    if k == t {
                        assert(paths@[g as int]@ == all[k].0@);
                    } else {
                        assert(has_path(old_paths, all[k].0@));
                        let h = choose|h: int| 0 <= h < old_paths.len() && (#[trigger] old_paths[h])@ == all[k].0@;
                        if h < g {
                            assert(paths@[h] == old_paths[h]);
                        } else {
                            assert(paths@[h + 1] == old_paths[h]);
                        }
                    }
                }
            }
        }
        t = t + 1;
    }
    assert(all.take(n as int) == all);
    let ghost final_paths = paths@;
    let ghost final_groups = groups@;
    let m = paths.len();
    let mut folders: Vec<R2Folder> = Vec::new();
    let mut i: usize = 0;
    while i < m
        invariant
            i <= m,
            m == final_paths.len(),
            final_paths.len() == final_groups.len(),
            paths@ == final_paths.subrange(i as int, m as int),
            groups@ == final_groups.subrange(i as int, m as int),
            folders@.len() == i,
            forall|a: int, b: int|
                0 <= a < b < final_paths.len() ==> sorting::lex_lt(final_paths[a]@, final_paths[b]@),
            forall|g: int|
                0 <= g < final_paths.len() ==> (#[trigger] final_groups[g])@ == group_of(
                    all,
                    final_paths[g]@,
                ),
            forall|g: int| 0 <= g < final_paths.len() ==> (#[trigger] final_groups[g])@.len() > 0,
            forall|k: int| 0 <= k < all.len() ==> has_path(final_paths, (#[trigger] all[k]).0@),
            forall|j: int|
                0 <= j < i ==> {
                    &&& (#[trigger] folders@[j]).path@ == final_paths[j]@
                    &&& sorting::is_stable_sort(final_groups[j]@, folders@[j].videos@)
                    &&& folders@[j].name@ == folder_name_of(final_paths[j]@)
                },
        decreases m - i,
    {
        let path = paths.remove(0);
        let grp = groups.remove(0);
        assert(path == final_paths[i as int]);
        assert(grp == final_groups[i as int]);
        let name = folder_name(path.as_str());
        let videos = sorting::sort_by_name(grp);
        folders.push(R2Folder { name, path, videos });
        i = i + 1;
    }
    assert forall|k: int| 0 <= k < all.len() implies has_folder(folders@, (#[trigger] all[k]).0@) by {
        assert(has_path(final_paths, all[k].0@));
        let g = choose|g: int| 0 <= g < final_paths.len() && (#[trigger] final_paths[g])@ == all[k].0@;
        assert(folders@[g].path@ == final_paths[g]@);
    }
    assert forall|a: int, b: int| 0 <= a < b < folders@.len() implies sorting::lex_lt(
        folders@[a].path@,
        folders@[b].path@,
    ) by {
        assert(folders@[a].path@ == final_paths[a]@);
        assert(folders@[b].path@ == final_paths[b]@);
    }
    assert forall|j: int| 0 <= j < folders@.len() implies {
        &&& group_of(all, (#[trigger] folders@[j]).path@).len() > 0
        &&& sorting::is_stable_sort(group_of(all, folders@[j].path@), folders@[j].videos@)
        &&& folders@[j].name@ == folder_name_of(folders@[j].path@)
    } by {
        assert(folders@[j].path@ == final_paths[j]@);
        assert(final_groups[j]@ == group_of(all, final_paths[j]@));
    }
    folders
}

/// The library of a bucket: its listing grouped into folders (see `folders_of`); an error
/// where the URL of a listed object cannot be made.
pub fn r2_library(config: &R2Config, objects: &Vec<R2Object>) -> (r: Result<R2Library, String>)
    ensures
        r matches Ok(lib) ==> (lib.bucket@ == config.bucket@ && exists|
            entries: Seq<(String, R2Video)>,
        | entries_of(*config, objects@, entries) && folders_of(entries, lib.folders@)),
        r matches Err(e) ==> listing_fails(*config, objects@, e@),
        config.public_base_url@.len() > 0 ==> r is Ok,
{
    let entries = match r2_entries(config, objects) {
        Ok(v) => v,
        Err(e) => return Err(e),
    };
    let ghost e = entries@;
    let folders = group_r2_entries(entries);
    let r = R2Library { bucket: config.bucket.clone(), folders };
    assert(entries_of(*config, objects@, e) && folders_of(e, r.folders@));
    Ok(r)
}

} // verus!

verus! {

/// Cancelling an upload marks it cancelled and leaves every other upload as it was;
/// clearing it unmarks it and leaves every other upload as it was.
pub proof fn law_cancel_and_clear(
    before: R2UploadState,
    cancelled: R2UploadState,
    cleared: R2UploadState,
    id: Seq<char>,
    other: Seq<char>,
)
    requires
        cancelled.cancelled_ids() == before.cancelled_ids().insert(id),
        cleared.cancelled_ids() == before.cancelled_ids().remove(id),
        other != id,
    ensures
        cancelled.cancelled_ids().contains(id),
        !cleared.cancelled_ids().contains(id),
        cancelled.cancelled_ids().contains(other) == before.cancelled_ids().contains(other),
        cleared.cancelled_ids().contains(other) == before.cancelled_ids().contains(other),
{
}

/// One call made on an upload state: `(true, id)` is `cancel(id)`, `(false, id)` is
/// `clear(id)`.
pub open spec fn applied(ids: Set<Seq<char>>, op: (bool, Seq<char>)) -> Set<Seq<char>> {
    if op.0 {
        ids.insert(op.1)
    } else {
        ids.remove(op.1)
    }
}

/// `id` was cancelled and not cleared since: the last call among `ops` that names `id` is
/// a `cancel`.
pub open spec fn cancelled_since(ops: Seq<(bool, Seq<char>)>, id: Seq<char>) -> bool
    decreases ops.len(),
{
    if ops.len() == 0 {
        false
    } else if ops.last().1 == id {
        ops.last().0
    } else {
        cancelled_since(ops.drop_last(), id)
    }
}

/// The history of an upload state: `states[0]` is a new (or default) state and each
/// `states[i + 1]` is `states[i]` after the call `ops[i]`, as `cancel` and `clear` state.
/// Then an upload counts as cancelled exactly where it was cancelled and not cleared since,
/// each id on its own.
pub proof fn law_cancellation_history(
    states: Seq<R2UploadState>,
    ops: Seq<(bool, Seq<char>)>,
    id: Seq<char>,
)
    requires
        states.len() == ops.len() + 1,
        states[0].cancelled_ids() == Set::<Seq<char>>::empty(),
        forall|i: int|
            0 <= i < ops.len() ==> #[trigger] states[i + 1].cancelled_ids() == applied(
                states[i].cancelled_ids(),
                ops[i],
            ),
    ensures
        states.last().cancelled_ids().contains(id) == cancelled_since(ops, id),
    decreases ops.len(),
{
    if ops.len() > 0 {
        let k = ops.len() - 1;
        let prefix = states.drop_last();
        assert forall|i: int|
            0 <= i < ops.drop_last().len() implies #[trigger] prefix[i + 1].cancelled_ids()
            == applied(prefix[i].cancelled_ids(), ops.drop_last()[i]) by {
            assert(prefix[i + 1] == states[i + 1]);
            assert(prefix[i] == states[i]);
            assert(states[i + 1].cancelled_ids() == applied(states[i].cancelled_ids(), ops[i]));
        }
        law_cancellation_history(prefix, ops.drop_last(), id);
        assert(states[k + 1].cancelled_ids() == applied(states[k].cancelled_ids(), ops[k]));
        assert(prefix.last() == states[k]);
    }
}

/// The parts of a multipart upload cover the file exactly: each is non-empty and at most
/// `MULTIPART_PART_SIZE` long, each starts where the one before it ends, the first starts
/// at 0 and the last ends at the end of the file.
pub proof fn law_parts_cover_file(total: nat, i: int)
    requires
        0 <= i < part_count_of(total),
    ensures
        0 < part_length(total, i) <= MULTIPART_PART_SIZE,
        i + 1 < part_count_of(total) ==> i * MULTIPART_PART_SIZE + part_length(total, i) == (i
            + 1) * MULTIPART_PART_SIZE,
        i + 1 == part_count_of(total) ==> i * MULTIPART_PART_SIZE + part_length(total, i)
            == total,
{
    let p = MULTIPART_PART_SIZE as int;
    assert(i * p < total && (i + 1 < part_count_of(total) ==> (i + 1) * p <= total) && (i + 1
        == part_count_of(total) ==> total <= (i + 1) * p)) by (nonlinear_arith)
        requires
            0 <= i < part_count_of(total),
            part_count_of(total) == (total + p - 1) / p,
            p == 67108864,
    ;
}

/// The length of part `i` (from 0) of a multipart upload of `total` bytes.
pub open spec fn part_length(total: nat, i: int) -> int {
    if total - i * MULTIPART_PART_SIZE < MULTIPART_PART_SIZE {
        total - i * MULTIPART_PART_SIZE
    } else {
        MULTIPART_PART_SIZE as int
    }
}

} // verus!

verus! {

/// A character that SigV4 leaves as it is: `A-Z a-z 0-9 - _ . ~`.
pub open spec fn unreserved(c: char) -> bool {
    ||| ('A' <= c && c <= 'Z')
    ||| ('a' <= c && c <= 'z')
    ||| ('0' <= c && c <= '9')
    ||| c == '-'
    ||| c == '_'
    ||| c == '.'
    ||| c == '~'
}

/// Every character of `s` is unreserved, `%`, or (where `slash` holds) `/`.
pub open spec fn only_safe_chars(s: Seq<char>, slash: bool) -> bool {
    forall|i: int|
        0 <= i < s.len() ==> unreserved(#[trigger] s[i]) || s[i] == '%' || (slash && s[i] == '/')
}

proof fn lemma_pct_safe(bytes: Seq<u8>)
    ensures
        only_safe_chars(pct(bytes), false),
    decreases bytes.len(),
{
    if bytes.len() > 0 {
        lemma_pct_safe(bytes.drop_last());
        let b = bytes.last();
        let head = pct(bytes.drop_last());
        let tail = if escaped_byte(b) {
            seq!['%', hex_upper((b / 16) as nat), hex_upper((b % 16) as nat)]
        } else {
            seq![b as char]
        };
        assert(only_safe_chars(tail, false)) by {
            if !escaped_byte(b) {
                assert(unreserved(b as char));
            }
        }
        assert forall|i: int| 0 <= i < pct(bytes).len() implies unreserved(#[trigger] pct(bytes)[i])
            || pct(bytes)[i] == '%' by {
            if i < head.len() {
                assert(pct(bytes)[i] == head[i]);
            } else {
                assert(pct(bytes)[i] == tail[i - head.len()]);
            }
        }
    }
}

proof fn lemma_segments_safe(parts: Seq<Seq<char>>)
    ensures
        forall|k: int|
            0 <= k < encoded_segments(parts).len() ==> only_safe_chars(
                #[trigger] encoded_segments(parts)[k],
                false,
            ),
    decreases parts.len(),
{
    if parts.len() > 0 {
        lemma_segments_safe(parts.drop_last());
        lemma_pct_safe(encode_utf8(parts.last()));
        let rest = encoded_segments(parts.drop_last());
        let all = encoded_segments(parts);
        assert forall|k: int| 0 <= k < all.len() implies only_safe_chars(#[trigger] all[k], false) by {
            if k < rest.len() {
                assert(all[k] == rest[k]);
            }
        }
    }
}

proof fn lemma_join_safe(parts: Seq<Seq<char>>)
    requires
        forall|k: int| 0 <= k < parts.len() ==> only_safe_chars(#[trigger] parts[k], false),
    ensures
        only_safe_chars(join_with(parts, "/"@), true),
    decreases parts.len(),
{
    reveal_strlit("/");
    if parts.len() > 1 {
        let init = parts.drop_last();
        assert forall|k: int| 0 <= k < init.len() implies only_safe_chars(#[trigger] init[k], false) by {
            assert(init[k] == parts[k]);
        }
        lemma_join_safe(init);
        let a = join_with(init, "/"@);
        let last = parts.last();
        assert(only_safe_chars(last, false)) by {
            assert(last == parts[parts.len() - 1]);
        }
        let j = join_with(parts, "/"@);
        assert(j == a + "/"@ + last);
        assert forall|i: int| 0 <= i < j.len() implies unreserved(#[trigger] j[i]) || j[i] == '%'
            || j[i] == '/' by {
            if i < a.len() {
                assert(j[i] == a[i]);
            } else if i == a.len() {
                assert(j[i] == '/');
            } else {
                assert(j[i] == last[i - a.len() - 1]);
            }
        }
    } else if parts.len() == 1 {
        assert(only_safe_chars(parts[0], false));
    }
}

/// A segment of an encoded key: not empty, not `.` or `..`, without `/`.
pub open spec fn good_segment(seg: Seq<char>) -> bool {
    &&& seg.len() > 0
    &&& seg != "."@
    &&& seg != ".."@
    &&& forall|j: int| 0 <= j < seg.len() ==> #[trigger] seg[j] != '/'
}

proof fn lemma_pct_len(bytes: Seq<u8>)
    ensures
        pct(bytes).len() >= bytes.len(),
    decreases bytes.len(),
{
    if bytes.len() > 0 {
        lemma_pct_len(bytes.drop_last());
    }
}

proof fn lemma_pct_last(bytes: Seq<u8>)
    requires
        bytes.len() > 0,
    ensures
        !escaped_byte(bytes.last()) ==> pct(bytes) == pct(bytes.drop_last()).push(
            bytes.last() as char,
        ),
        escaped_byte(bytes.last()) ==> pct(bytes).len() == pct(bytes.drop_last()).len() + 3,
{
    let b = bytes.last();
    if !escaped_byte(b) {
        assert(pct(bytes) == pct(bytes.drop_last()) + seq![b as char]);
        assert(pct(bytes.drop_last()) + seq![b as char] =~= pct(bytes.drop_last()).push(b as char));
    }
}

proof fn lemma_pct_one_dot(bytes: Seq<u8>)
    requires
        pct(bytes) =~= seq!['.'],
    ensures
        bytes =~= seq![46u8],
{
    lemma_pct_len(bytes);
    assert(bytes.len() > 0);
    let init = bytes.drop_last();
    let b = bytes.last();
    lemma_pct_len(init);
    lemma_pct_last(bytes);
    assert(!escaped_byte(b));
    assert(pct(init).len() == 0);
    assert(init.len() == 0);
    assert(pct(bytes)[0] == b as char);
    assert(b == 46u8);
    assert(bytes =~= init.push(b));
}

proof fn lemma_pct_two_dots(bytes: Seq<u8>)
    requires
        pct(bytes) =~= seq!['.', '.'],
    ensures
        bytes =~= seq![46u8, 46u8],
{
    lemma_pct_len(bytes);
    assert(bytes.len() > 0);
    let init = bytes.drop_last();
    let b = bytes.last();
    lemma_pct_len(init);
    lemma_pct_last(bytes);
    assert(!escaped_byte(b));
    assert(pct(init).len() == 1);
    assert(pct(init)[0] == pct(bytes)[0]);
    assert(pct(init) =~= seq!['.']);
    lemma_pct_one_dot(init);
    assert(pct(bytes)[1] == b as char);
    assert(b == 46u8);
    assert(bytes =~= init.push(b));
}

proof fn lemma_dot_encodings()
    ensures
        encode_utf8("."@) == seq![46u8],
        encode_utf8(".."@) == seq![46u8, 46u8],
{
    reveal_strlit(".");
    reveal_strlit("..");
    let dot = seq!['.'];
    let dots = seq!['.', '.'];
    assert(dots.drop_first() == dot);
    assert(dot.drop_first() == Seq::<char>::empty());
    assert((46u32 & 0x7F) as u8 == 46u8) by (bit_vector);
    assert(encode_utf8(dot) == vstd::utf8::encode_scalar('.' as u32) + encode_utf8(
        Seq::<char>::empty(),
    ));
    assert(encode_utf8(dot) =~= seq![46u8]);
    assert(encode_utf8(dots) == vstd::utf8::encode_scalar('.' as u32) + encode_utf8(dot));
    assert(encode_utf8(dots) =~= seq![46u8, 46u8]);
    assert("."@ =~= dot);
    assert(".."@ =~= dots);
}

proof fn lemma_kept_segment_good(p: Seq<char>)
    requires
        kept_segment(p),
    ensures
        good_segment(pct(encode_utf8(p))),
{
    let bytes = encode_utf8(p);
    let e = pct(bytes);
    assert(bytes.len() > 0) by {
        vstd::utf8::char_is_scalar(p[0]);
        assert(bytes == vstd::utf8::encode_scalar(p[0] as u32) + encode_utf8(p.drop_first()));
    }
    lemma_pct_len(bytes);
    assert(e.len() > 0);
    lemma_pct_safe(bytes);
    assert forall|j: int| 0 <= j < e.len() implies #[trigger] e[j] != '/' by {
        assert(unreserved(e[j]) || e[j] == '%');
    }
    assert(e != "."@) by {
        reveal_strlit(".");
        if e == "."@ {
            lemma_pct_one_dot(bytes);
            lemma_dot_encodings();
            vstd::utf8::encode_utf8_decode_utf8(p);
            vstd::utf8::encode_utf8_decode_utf8("."@);
            assert(p == "."@);
        }
    }
    assert(e != ".."@) by {
        reveal_strlit("..");
        if e == ".."@ {
            lemma_pct_two_dots(bytes);
            lemma_dot_encodings();
            vstd::utf8::encode_utf8_decode_utf8(p);
            vstd::utf8::encode_utf8_decode_utf8(".."@);
            assert(p == ".."@);
        }
    }
}

proof fn lemma_segments_good(parts: Seq<Seq<char>>)
    ensures
        forall|k: int|
            0 <= k < encoded_segments(parts).len() ==> good_segment(
                #[trigger] encoded_segments(parts)[k],
            ),
    decreases parts.len(),
{
    if parts.len() > 0 {
        lemma_segments_good(parts.drop_last());
        let rest = encoded_segments(parts.drop_last());
        let all = encoded_segments(parts);
        if kept_segment(parts.last()) {
            lemma_kept_segment_good(parts.last());
        }
        assert forall|k: int| 0 <= k < all.len() implies good_segment(#[trigger] all[k]) by {
            if k < rest.len() {
                assert(all[k] == rest[k]);
            }
        }
    }
}

proof fn lemma_split_concat(a: Seq<char>, b: Seq<char>, c: char)
    ensures
        text::split_char(a + seq![c] + b, c) == text::split_char(a, c) + text::split_char(b, c),
    decreases a.len(),
{
    let s = a + seq![c] + b;
    text::lemma_pos_of(a, c);
    text::lemma_pos_of(s, c);
    match text::pos_of(a, c) {
        None => {
            assert(s[a.len() as int] == c);
            match text::pos_of(s, c) {
                Some(k) => {
                    if k < a.len() {
                        assert(s[k] == a[k]);
                    }
                },
                None => {},
            }
            assert(s.subrange(0, a.len() as int) == a);
            assert(s.subrange(a.len() + 1int, s.len() as int) == b);
        },
        Some(i) => {
            assert(s[i] == a[i]);
            match text::pos_of(s, c) {
                Some(k) => {
                    if k < i {
                        assert(s[k] == a[k]);
                    }
                },
                None => {},
            }
            let a2 = a.subrange(i + 1, a.len() as int);
            lemma_split_concat(a2, b, c);
            assert(s.subrange(0, i) == a.subrange(0, i));
            assert(s.subrange(i + 1, s.len() as int) == a2 + seq![c] + b);
            let first = seq![a.subrange(0, i)];
            assert(first + (text::split_char(a2, c) + text::split_char(b, c)) == (first
                + text::split_char(a2, c)) + text::split_char(b, c));
        },
    }
}

proof fn lemma_join_split(parts: Seq<Seq<char>>, c: char)
    requires
        parts.len() > 0,
        forall|k: int, j: int| 0 <= k < parts.len() && 0 <= j < parts[k].len() ==> #[trigger] parts[k][j] != c,
    ensures
        text::split_char(join_with(parts, seq![c]), c) == parts,
    decreases parts.len(),
{
    if parts.len() == 1 {
        let p = parts[0];
        text::lemma_pos_of(p, c);
        if let Some(k) = text::pos_of(p, c) {
            assert(parts[0][k] != c);
        }
        assert(parts =~= seq![p]);
    } else {
        let init = parts.drop_last();
        let last = parts.last();
        assert forall|k: int, j: int| 0 <= k < init.len() && 0 <= j < init[k].len() implies #[trigger] init[k][j] != c by {
            assert(init[k] == parts[k]);
        }
        lemma_join_split(init, c);
        lemma_split_concat(join_with(init, seq![c]), last, c);
        text::lemma_pos_of(last, c);
        if let Some(k) = text::pos_of(last, c) {
            assert(parts[parts.len() - 1][k] != c);
        }
        assert(text::split_char(last, c) == seq![last]);
        assert(init + seq![last] =~= parts);
    }
}

/// An encoded object key can only stand in a request path as the key itself: it holds
/// nothing but unreserved characters, `%` escapes and `/`, and where it is not empty, the
/// `/` separate segments none of which is empty, `.` or `..`.
pub proof fn law_encoded_key_is_path_safe(key: Seq<char>)
    ensures
        only_safe_chars(encoded_key_of(key), true),
        encoded_key_of(key).len() > 0 ==> forall|k: int|
            0 <= k < text::split_char(encoded_key_of(key), '/').len() ==> good_segment(
                #[trigger] text::split_char(encoded_key_of(key), '/')[k],
            ),
{
    let parts = text::split_char(strip_slashes(key), '/');
    let segs = encoded_segments(parts);
    lemma_segments_safe(parts);
    lemma_join_safe(segs);
    lemma_segments_good(parts);
    reveal_strlit("/");
    assert("/"@ == seq!['/']);
    if segs.len() > 0 {
        assert forall|k: int, j: int| 0 <= k < segs.len() && 0 <= j < segs[k].len() implies #[trigger] segs[k][j] != '/' by {
            assert(good_segment(segs[k]));
        }
        lemma_join_split(segs, '/');
    }
}

} // verus!

verus! {

/// AWS Signature Version 4 as `request_authorization` applies it, written out: the
/// credential names the access key and the day's scope; the signature is the hex HMAC,
/// under the key derived from the secret through the date, `auto`, `s3` and
/// `aws4_request`, of the string to sign; the string to sign carries the time stamp, the
/// scope and the hex SHA-256 of the canonical request; the canonical request is the
/// method, the path, the query, the three signed headers, their names and the payload
/// hash, one per line.
pub proof fn law_authorization_is_sigv4(
    method: Seq<char>,
    uri: Seq<char>,
    query: Seq<char>,
    host: Seq<char>,
    access_key_id: Seq<char>,
    secret_access_key: Seq<char>,
    payload_hash: Seq<char>,
    timestamp: Seq<char>,
    date: Seq<char>,
)
    ensures
        authorization_of(
            method,
            uri,
            query,
            host,
            access_key_id,
            secret_access_key,
            payload_hash,
            timestamp,
            date,
        ) == "AWS4-HMAC-SHA256 Credential="@ + access_key_id + "/"@ + (date
            + "/auto/s3/aws4_request"@) + ", SignedHeaders="@
            + "host;x-amz-content-sha256;x-amz-date"@ + ", Signature="@ + hex(
            hmac_sha256(
                hmac_sha256(
                    hmac_sha256(
                        hmac_sha256(
                            hmac_sha256(encode_utf8("AWS4"@ + secret_access_key), encode_utf8(date)),
                            encode_utf8("auto"@),
                        ),
                        encode_utf8("s3"@),
                    ),
                    encode_utf8("aws4_request"@),
                ),
                encode_utf8(
                    "AWS4-HMAC-SHA256\n"@ + timestamp + "\n"@ + (date + "/auto/s3/aws4_request"@)
                        + "\n"@ + hex(
                        sha256(
                            encode_utf8(
                                method + "\n"@ + uri + "\n"@ + query + "\n"@ + "host:"@ + host
                                    + "\n"@ + "x-amz-content-sha256:"@ + payload_hash + "\n"@
                                    + "x-amz-date:"@ + timestamp + "\n"@ + "\n"@
                                    + "host;x-amz-content-sha256;x-amz-date"@ + "\n"@
                                    + payload_hash,
                            ),
                        ),
                    ),
                ),
            ),
        ),
{
}

/// The query is signed: two requests that differ only in their query have different
/// canonical requests.
pub proof fn law_canonical_request_holds_the_query(
    method: Seq<char>,
    uri: Seq<char>,
    q1: Seq<char>,
    q2: Seq<char>,
    host: Seq<char>,
    payload_hash: Seq<char>,
    timestamp: Seq<char>,
)
    requires
        q1 != q2,
    ensures
        canonical_request_of(method, uri, q1, host, payload_hash, timestamp) != canonical_request_of(
            method,
            uri,
            q2,
            host,
            payload_hash,
            timestamp,
        ),
{
    let head = method + "\n"@ + uri + "\n"@;
    let tail = "\n"@ + "host:"@ + host + "\n"@ + "x-amz-content-sha256:"@ + payload_hash + "\n"@
        + "x-amz-date:"@ + timestamp + "\n"@ + "\n"@ + signed_headers() + "\n"@ + payload_hash;
    lemma_canonical_shape(method, uri, q1, host, payload_hash, timestamp);
    lemma_canonical_shape(method, uri, q2, host, payload_hash, timestamp);
    lemma_middle_cancel(head, q1, q2, tail);
}

proof fn lemma_canonical_shape(
    method: Seq<char>,
    uri: Seq<char>,
    query: Seq<char>,
    host: Seq<char>,
    payload_hash: Seq<char>,
    timestamp: Seq<char>,
)
    ensures
        canonical_request_of(method, uri, query, host, payload_hash, timestamp) == (method + "\n"@
            + uri + "\n"@) + query + ("\n"@ + "host:"@ + host + "\n"@ + "x-amz-content-sha256:"@
            + payload_hash + "\n"@ + "x-amz-date:"@ + timestamp + "\n"@ + "\n"@ + signed_headers()
            + "\n"@ + payload_hash),
{
    assert(canonical_request_of(method, uri, query, host, payload_hash, timestamp) =~= (method
        + "\n"@ + uri + "\n"@) + query + ("\n"@ + "host:"@ + host + "\n"@ + "x-amz-content-sha256:"@
        + payload_hash + "\n"@ + "x-amz-date:"@ + timestamp + "\n"@ + "\n"@ + signed_headers()
        + "\n"@ + payload_hash));
}

proof fn lemma_middle_cancel(h: Seq<char>, a: Seq<char>, b: Seq<char>, t: Seq<char>)
    requires
        a != b,
    ensures
        h + a + t != h + b + t,
{
    if h + a + t == h + b + t {
        assert((h + a + t).len() == h.len() + a.len() + t.len());
        assert((h + b + t).len() == h.len() + b.len() + t.len());
        assert(a.len() == b.len());
        assert(a =~= (h + a + t).subrange(h.len() as int, (h.len() + a.len()) as int));
        assert(b =~= (h + b + t).subrange(h.len() as int, (h.len() + b.len()) as int));
    }
}

} // verus!

verus! {

/// The media type of each extension the uploads know (in any case); every other file, and
/// a file without extension, is sent as `application/octet-stream`.
pub proof fn law_content_type_table(e: Seq<char>)
    ensures
        sorting::lower_seq(e) == "3gp"@ ==> content_type_for(Some(e)) == "video/3gpp"@,
        sorting::lower_seq(e) == "avi"@ ==> content_type_for(Some(e)) == "video/x-msvideo"@,
        sorting::lower_seq(e) == "flv"@ ==> content_type_for(Some(e)) == "video/x-flv"@,
        sorting::lower_seq(e) == "m4v"@ ==> content_type_for(Some(e)) == "video/x-m4v"@,
        sorting::lower_seq(e) == "mkv"@ ==> content_type_for(Some(e)) == "video/x-matroska"@,
        sorting::lower_seq(e) == "mov"@ ==> content_type_for(Some(e)) == "video/quicktime"@,
        sorting::lower_seq(e) == "mp4"@ ==> content_type_for(Some(e)) == "video/mp4"@,
        sorting::lower_seq(e) == "mpeg"@ ==> content_type_for(Some(e)) == "video/mpeg"@,
        sorting::lower_seq(e) == "mpg"@ ==> content_type_for(Some(e)) == "video/mpeg"@,
        sorting::lower_seq(e) == "ts"@ ==> content_type_for(Some(e)) == "video/mp2t"@,
        sorting::lower_seq(e) == "webm"@ ==> content_type_for(Some(e)) == "video/webm"@,
        sorting::lower_seq(e) == "mp3"@ ==> content_type_for(Some(e)) == "audio/mpeg"@,
        sorting::lower_seq(e) == "m4a"@ ==> content_type_for(Some(e)) == "audio/mp4"@,
        sorting::lower_seq(e) == "opus"@ ==> content_type_for(Some(e)) == "audio/opus"@,
        sorting::lower_seq(e) == "flac"@ ==> content_type_for(Some(e)) == "audio/flac"@,
        sorting::lower_seq(e) == "wav"@ ==> content_type_for(Some(e)) == "audio/wav"@,
        sorting::lower_seq(e) == "webp"@ ==> content_type_for(Some(e)) == "image/webp"@,
        sorting::lower_seq(e) == "jpg"@ ==> content_type_for(Some(e)) == "image/jpeg"@,
        sorting::lower_seq(e) == "jpeg"@ ==> content_type_for(Some(e)) == "image/jpeg"@,
        sorting::lower_seq(e) == "png"@ ==> content_type_for(Some(e)) == "image/png"@,
        sorting::lower_seq(e) == "gif"@ ==> content_type_for(Some(e)) == "image/gif"@,
        sorting::lower_seq(e) == "vtt"@ ==> content_type_for(Some(e)) == "text/vtt"@,
        sorting::lower_seq(e) == "srt"@ ==> content_type_for(Some(e)) == "application/x-subrip"@,
        !(sorting::lower_seq(e) == "3gp"@ || sorting::lower_seq(e) == "avi"@ || sorting::lower_seq(e) == "flv"@ || sorting::lower_seq(e) == "m4v"@ || sorting::lower_seq(e) == "mkv"@ || sorting::lower_seq(e) == "mov"@ || sorting::lower_seq(e) == "mp4"@ || sorting::lower_seq(e) == "mpeg"@ || sorting::lower_seq(e) == "mpg"@ || sorting::lower_seq(e) == "ts"@ || sorting::lower_seq(e) == "webm"@ || sorting::lower_seq(e) == "mp3"@ || sorting::lower_seq(e) == "m4a"@ || sorting::lower_seq(e) == "opus"@ || sorting::lower_seq(e) == "flac"@ || sorting::lower_seq(e) == "wav"@ || sorting::lower_seq(e) == "webp"@ || sorting::lower_seq(e) == "jpg"@ || sorting::lower_seq(e) == "jpeg"@ || sorting::lower_seq(e) == "png"@ || sorting::lower_seq(e) == "gif"@ || sorting::lower_seq(e) == "vtt"@ || sorting::lower_seq(e) == "srt"@) ==> content_type_for(Some(e)) == "application/octet-stream"@,
        content_type_for(None) == "application/octet-stream"@,
{
    reveal_strlit("3gp");
    reveal_strlit("application/octet-stream");
    reveal_strlit("application/x-subrip");
    reveal_strlit("audio/flac");
    reveal_strlit("audio/mp4");
    reveal_strlit("audio/mpeg");
    reveal_strlit("audio/opus");
    reveal_strlit("audio/wav");
    reveal_strlit("avi");
    reveal_strlit("flac");
    reveal_strlit("flv");
    reveal_strlit("gif");
    reveal_strlit("image/gif");
    reveal_strlit("image/jpeg");
    reveal_strlit("image/png");
    reveal_strlit("image/webp");
    reveal_strlit("jpeg");
    reveal_strlit("jpg");
    reveal_strlit("m4a");
    reveal_strlit("m4v");
    reveal_strlit("mkv");
    reveal_strlit("mov");
    reveal_strlit("mp3");
    reveal_strlit("mp4");
    reveal_strlit("mpeg");
    reveal_strlit("mpg");
    reveal_strlit("opus");
    reveal_strlit("png");
    reveal_strlit("srt");
    reveal_strlit("text/vtt");
    reveal_strlit("ts");
    reveal_strlit("video/3gpp");
    reveal_strlit("video/mp2t");
    reveal_strlit("video/mp4");
    reveal_strlit("video/mpeg");
    reveal_strlit("video/quicktime");
    reveal_strlit("video/webm");
    reveal_strlit("video/x-flv");
    reveal_strlit("video/x-m4v");
    reveal_strlit("video/x-matroska");
    reveal_strlit("video/x-msvideo");
    reveal_strlit("vtt");
    reveal_strlit("wav");
    reveal_strlit("webm");
    reveal_strlit("webp");
    if sorting::lower_seq(e) == "avi"@ {
        assert("avi"@[0] != "3gp"@[0]);
    }
    if sorting::lower_seq(e) == "flv"@ {
        assert("flv"@[0] != "3gp"@[0]);
        assert("flv"@[0] != "avi"@[0]);
    }
    if sorting::lower_seq(e) == "m4v"@ {
        assert("m4v"@[0] != "3gp"@[0]);
        assert("m4v"@[0] != "avi"@[0]);
        assert("m4v"@[0] != "flv"@[0]);
    }
    if sorting::lower_seq(e) == "mkv"@ {
        assert("mkv"@[0] != "3gp"@[0]);
        assert("mkv"@[0] != "avi"@[0]);
        assert("mkv"@[0] != "flv"@[0]);
        assert("mkv"@[1] != "m4v"@[1]);
    }
    if sorting::lower_seq(e) == "mov"@ {
        assert("mov"@[0] != "3gp"@[0]);
        assert("mov"@[0] != "avi"@[0]);
        assert("mov"@[0] != "flv"@[0]);
        assert("mov"@[1] != "m4v"@[1]);
        assert("mov"@[1] != "mkv"@[1]);
    }
    if sorting::lower_seq(e) == "mp4"@ {
        assert("mp4"@[0] != "3gp"@[0]);
        assert("mp4"@[0] != "avi"@[0]);
        assert("mp4"@[0] != "flv"@[0]);
        assert("mp4"@[1] != "m4v"@[1]);
        assert("mp4"@[1] != "mkv"@[1]);
        assert("mp4"@[1] != "mov"@[1]);
    }
    if sorting::lower_seq(e) == "mpeg"@ {
        assert("mpeg"@.len() != "3gp"@.len());
        assert("mpeg"@.len() != "avi"@.len());
        assert("mpeg"@.len() != "flv"@.len());
        assert("mpeg"@.len() != "m4v"@.len());
        assert("mpeg"@.len() != "mkv"@.len());
        assert("mpeg"@.len() != "mov"@.len());
        assert("mpeg"@.len() != "mp4"@.len());
    }
    if sorting::lower_seq(e) == "mpg"@ {
        assert("mpg"@[0] != "3gp"@[0]);
        assert("mpg"@[0] != "avi"@[0]);
        assert("mpg"@[0] != "flv"@[0]);
        assert("mpg"@[1] != "m4v"@[1]);
        assert("mpg"@[1] != "mkv"@[1]);
        assert("mpg"@[1] != "mov"@[1]);
        assert("mpg"@[2] != "mp4"@[2]);
        assert("mpg"@.len() != "mpeg"@.len());
    }
    if sorting::lower_seq(e) == "ts"@ {
        assert("ts"@.len() != "3gp"@.len());
        assert("ts"@.len() != "avi"@.len());
        assert("ts"@.len() != "flv"@.len());
        assert("ts"@.len() != "m4v"@.len());
        assert("ts"@.len() != "mkv"@.len());
        assert("ts"@.len() != "mov"@.len());
        assert("ts"@.len() != "mp4"@.len());
        assert("ts"@.len() != "mpeg"@.len());
        assert("ts"@.len() != "mpg"@.len());
    }
    if sorting::lower_seq(e) == "webm"@ {
        assert("webm"@.len() != "3gp"@.len());
        assert("webm"@.len() != "avi"@.len());
        assert("webm"@.len() != "flv"@.len());
        assert("webm"@.len() != "m4v"@.len());
        assert("webm"@.len() != "mkv"@.len());
        assert("webm"@.len() != "mov"@.len());
        assert("webm"@.len() != "mp4"@.len());
        assert("webm"@[0] != "mpeg"@[0]);
        assert("webm"@.len() != "mpg"@.len());
        assert("webm"@.len() != "ts"@.len());
    }
    if sorting::lower_seq(e) == "mp3"@ {
        assert("mp3"@[0] != "3gp"@[0]);
        assert("mp3"@[0] != "avi"@[0]);
        assert("mp3"@[0] != "flv"@[0]);
        assert("mp3"@[1] != "m4v"@[1]);
        assert("mp3"@[1] != "mkv"@[1]);
        assert("mp3"@[1] != "mov"@[1]);
        assert("mp3"@[2] != "mp4"@[2]);
        assert("mp3"@.len() != "mpeg"@.len());
        assert("mp3"@[2] != "mpg"@[2]);
        assert("mp3"@.len() != "ts"@.len());
        assert("mp3"@.len() != "webm"@.len());
    }
    if sorting::lower_seq(e) == "m4a"@ {
        assert("m4a"@[0] != "3gp"@[0]);
        assert("m4a"@[0] != "avi"@[0]);
        assert("m4a"@[0] != "flv"@[0]);
        assert("m4a"@[2] != "m4v"@[2]);
        assert("m4a"@[1] != "mkv"@[1]);
        assert("m4a"@[1] != "mov"@[1]);
        assert("m4a"@[1] != "mp4"@[1]);
        assert("m4a"@.len() != "mpeg"@.len());
        assert("m4a"@[1] != "mpg"@[1]);
        assert("m4a"@.len() != "ts"@.len());
        assert("m4a"@.len() != "webm"@.len());
        assert("m4a"@[1] != "mp3"@[1]);
    }
    if sorting::lower_seq(e) == "opus"@ {
        assert("opus"@.len() != "3gp"@.len());
        assert("opus"@.len() != "avi"@.len());
        assert("opus"@.len() != "flv"@.len());
        assert("opus"@.len() != "m4v"@.len());
        assert("opus"@.len() != "mkv"@.len());
        assert("opus"@.len() != "mov"@.len());
        assert("opus"@.len() != "mp4"@.len());
        assert("opus"@[0] != "mpeg"@[0]);
        assert("opus"@.len() != "mpg"@.len());
        assert("opus"@.len() != "ts"@.len());
        assert("opus"@[0] != "webm"@[0]);
        assert("opus"@.len() != "mp3"@.len());
        assert("opus"@.len() != "m4a"@.len());
    }
    if sorting::lower_seq(e) == "flac"@ {
        assert("flac"@.len() != "3gp"@.len());
        assert("flac"@.len() != "avi"@.len());
        assert("flac"@.len() != "flv"@.len());
        assert("flac"@.len() != "m4v"@.len());
        assert("flac"@.len() != "mkv"@.len());
        assert("flac"@.len() != "mov"@.len());
        assert("flac"@.len() != "mp4"@.len());
        assert("flac"@[0] != "mpeg"@[0]);
        assert("flac"@.len() != "mpg"@.len());
        assert("flac"@.len() != "ts"@.len());
        assert("flac"@[0] != "webm"@[0]);
        assert("flac"@.len() != "mp3"@.len());
        assert("flac"@.len() != "m4a"@.len());
        assert("flac"@[0] != "opus"@[0]);
    }
    if sorting::lower_seq(e) == "wav"@ {
        assert("wav"@[0] != "3gp"@[0]);
        assert("wav"@[0] != "avi"@[0]);
        assert("wav"@[0] != "flv"@[0]);
        assert("wav"@[0] != "m4v"@[0]);
        assert("wav"@[0] != "mkv"@[0]);
        assert("wav"@[0] != "mov"@[0]);
        assert("wav"@[0] != "mp4"@[0]);
        assert("wav"@.len() != "mpeg"@.len());
        assert("wav"@[0] != "mpg"@[0]);
        assert("wav"@.len() != "ts"@.len());
        assert("wav"@.len() != "webm"@.len());
        assert("wav"@[0] != "mp3"@[0]);
        assert("wav"@[0] != "m4a"@[0]);
        assert("wav"@.len() != "opus"@.len());
        assert("wav"@.len() != "flac"@.len());
    }
    if sorting::lower_seq(e) == "webp"@ {
        assert("webp"@.len() != "3gp"@.len());
        assert("webp"@.len() != "avi"@.len());
        assert("webp"@.len() != "flv"@.len());
        assert("webp"@.len() != "m4v"@.len());
        assert("webp"@.len() != "mkv"@.len());
        assert("webp"@.len() != "mov"@.len());
        assert("webp"@.len() != "mp4"@.len());
        assert("webp"@[0] != "mpeg"@[0]);
        assert("webp"@.len() != "mpg"@.len());
        assert("webp"@.len() != "ts"@.len());
        assert("webp"@[3] != "webm"@[3]);
        assert("webp"@.len() != "mp3"@.len());
        assert("webp"@.len() != "m4a"@.len());
        assert("webp"@[0] != "opus"@[0]);
        assert("webp"@[0] != "flac"@[0]);
        assert("webp"@.len() != "wav"@.len());
    }
    if sorting::lower_seq(e) == "jpg"@ {
        assert("jpg"@[0] != "3gp"@[0]);
        assert("jpg"@[0] != "avi"@[0]);
        assert("jpg"@[0] != "flv"@[0]);
        assert("jpg"@[0] != "m4v"@[0]);
        assert("jpg"@[0] != "mkv"@[0]);
        assert("jpg"@[0] != "mov"@[0]);
        assert("jpg"@[0] != "mp4"@[0]);
        assert("jpg"@.len() != "mpeg"@.len());
        assert("jpg"@[0] != "mpg"@[0]);
        assert("jpg"@.len() != "ts"@.len());
        assert("jpg"@.len() != "webm"@.len());
        assert("jpg"@[0] != "mp3"@[0]);
        assert("jpg"@[0] != "m4a"@[0]);
        assert("jpg"@.len() != "opus"@.len());
        assert("jpg"@.len() != "flac"@.len());
        assert("jpg"@[0] != "wav"@[0]);
        assert("jpg"@.len() != "webp"@.len());
    }
    if sorting::lower_seq(e) == "jpeg"@ {
        assert("jpeg"@.len() != "3gp"@.len());
        assert("jpeg"@.len() != "avi"@.len());
        assert("jpeg"@.len() != "flv"@.len());
        assert("jpeg"@.len() != "m4v"@.len());
        assert("jpeg"@.len() != "mkv"@.len());
        assert("jpeg"@.len() != "mov"@.len());
        assert("jpeg"@.len() != "mp4"@.len());
        assert("jpeg"@[0] != "mpeg"@[0]);
        assert("jpeg"@.len() != "mpg"@.len());
        assert("jpeg"@.len() != "ts"@.len());
        assert("jpeg"@[0] != "webm"@[0]);
        assert("jpeg"@.len() != "mp3"@.len());
        assert("jpeg"@.len() != "m4a"@.len());
        assert("jpeg"@[0] != "opus"@[0]);
        assert("jpeg"@[0] != "flac"@[0]);
        assert("jpeg"@.len() != "wav"@.len());
        assert("jpeg"@[0] != "webp"@[0]);
        assert("jpeg"@.len() != "jpg"@.len());
    }
    if sorting::lower_seq(e) == "png"@ {
        assert("png"@[0] != "3gp"@[0]);
        assert("png"@[0] != "avi"@[0]);
        assert("png"@[0] != "flv"@[0]);
        assert("png"@[0] != "m4v"@[0]);
        assert("png"@[0] != "mkv"@[0]);
        assert("png"@[0] != "mov"@[0]);
        assert("png"@[0] != "mp4"@[0]);
        assert("png"@.len() != "mpeg"@.len());
        assert("png"@[0] != "mpg"@[0]);
        assert("png"@.len() != "ts"@.len());
        assert("png"@.len() != "webm"@.len());
        assert("png"@[0] != "mp3"@[0]);
        assert("png"@[0] != "m4a"@[0]);
        assert("png"@.len() != "opus"@.len());
        assert("png"@.len() != "flac"@.len());
        assert("png"@[0] != "wav"@[0]);
        assert("png"@.len() != "webp"@.len());
        assert("png"@[0] != "jpg"@[0]);
        assert("png"@.len() != "jpeg"@.len());
    }
    if sorting::lower_seq(e) == "gif"@ {
        assert("gif"@[0] != "3gp"@[0]);
        assert("gif"@[0] != "avi"@[0]);
        assert("gif"@[0] != "flv"@[0]);
        assert("gif"@[0] != "m4v"@[0]);
        assert("gif"@[0] != "mkv"@[0]);
        assert("gif"@[0] != "mov"@[0]);
        assert("gif"@[0] != "mp4"@[0]);
        assert("gif"@.len() != "mpeg"@.len());
        assert("gif"@[0] != "mpg"@[0]);
        assert("gif"@.len() != "ts"@.len());
        assert("gif"@.len() != "webm"@.len());
        assert("gif"@[0] != "mp3"@[0]);
        assert("gif"@[0] != "m4a"@[0]);
        assert("gif"@.len() != "opus"@.len());
        assert("gif"@.len() != "flac"@.len());
        assert("gif"@[0] != "wav"@[0]);
        assert("gif"@.len() != "webp"@.len());
        assert("gif"@[0] != "jpg"@[0]);
        assert("gif"@.len() != "jpeg"@.len());
        assert("gif"@[0] != "png"@[0]);
    }
    if sorting::lower_seq(e) == "vtt"@ {
        assert("vtt"@[0] != "3gp"@[0]);
        assert("vtt"@[0] != "avi"@[0]);
        assert("vtt"@[0] != "flv"@[0]);
        assert("vtt"@[0] != "m4v"@[0]);
        assert("vtt"@[0] != "mkv"@[0]);
        assert("vtt"@[0] != "mov"@[0]);
        assert("vtt"@[0] != "mp4"@[0]);
        assert("vtt"@.len() != "mpeg"@.len());
        assert("vtt"@[0] != "mpg"@[0]);
        assert("vtt"@.len() != "ts"@.len());
        assert("vtt"@.len() != "webm"@.len());
        assert("vtt"@[0] != "mp3"@[0]);
        assert("vtt"@[0] != "m4a"@[0]);
        assert("vtt"@.len() != "opus"@.len());
        assert("vtt"@.len() != "flac"@.len());
        assert("vtt"@[0] != "wav"@[0]);
        assert("vtt"@.len() != "webp"@.len());
        assert("vtt"@[0] != "jpg"@[0]);
        assert("vtt"@.len() != "jpeg"@.len());
        assert("vtt"@[0] != "png"@[0]);
        assert("vtt"@[0] != "gif"@[0]);
    }
    if sorting::lower_seq(e) == "srt"@ {
        assert("srt"@[0] != "3gp"@[0]);
        assert("srt"@[0] != "avi"@[0]);
        assert("srt"@[0] != "flv"@[0]);
        assert("srt"@[0] != "m4v"@[0]);
        assert("srt"@[0] != "mkv"@[0]);
        assert("srt"@[0] != "mov"@[0]);
        assert("srt"@[0] != "mp4"@[0]);
        assert("srt"@.len() != "mpeg"@.len());
        assert("srt"@[0] != "mpg"@[0]);
        assert("srt"@.len() != "ts"@.len());
        assert("srt"@.len() != "webm"@.len());
        assert("srt"@[0] != "mp3"@[0]);
        assert("srt"@[0] != "m4a"@[0]);
        assert("srt"@.len() != "opus"@.len());
        assert("srt"@.len() != "flac"@.len());
        assert("srt"@[0] != "wav"@[0]);
        assert("srt"@.len() != "webp"@.len());
        assert("srt"@[0] != "jpg"@[0]);
        assert("srt"@.len() != "jpeg"@.len());
        assert("srt"@[0] != "png"@[0]);
        assert("srt"@[0] != "gif"@[0]);
        assert("srt"@[0] != "vtt"@[0]);
    }
}

} // verus!

verus! {

/// A bucket key counts as a video exactly where the text after its last `.`, lower-cased,
/// is one of `3gp`, `avi`, `flv`, `m4v`, `mkv`, `mov`, `mp4`, `mpeg`, `mpg`, `ts`, `webm`;
/// whatever stands before that `.` (folders, other dots) does not matter.
pub proof fn law_r2_video_by_last_extension(p: Seq<char>, e: Seq<char>)
    requires
        forall|j: int| 0 <= j < e.len() ==> e[j] != '.',
    ensures
        is_r2_video_key(p + seq!['.'] + e) <==> (sorting::lower_seq(e) == "3gp"@ || sorting::lower_seq(e) == "avi"@ || sorting::lower_seq(e) == "flv"@ || sorting::lower_seq(e) == "m4v"@ || sorting::lower_seq(e) == "mkv"@ || sorting::lower_seq(e) == "mov"@ || sorting::lower_seq(e) == "mp4"@ || sorting::lower_seq(e) == "mpeg"@ || sorting::lower_seq(e) == "mpg"@ || sorting::lower_seq(e) == "ts"@ || sorting::lower_seq(e) == "webm"@),
{
    let k = p + seq!['.'] + e;
    text::lemma_rpos_of(k, '.');
    assert(k[p.len() as int] == '.');
    match text::rpos_of(k, '.') {
        Some(m) => {
            if m > p.len() {
                assert(k[m] == e[m - p.len() - 1]);
            }
        },
        None => {},
    }
    assert(text::rpos_of(k, '.') == Some(p.len() as int));
    assert(k.subrange(p.len() + 1int, k.len() as int) =~= e);
    let exts = r2_video_extensions();
    if exts.contains(sorting::lower_seq(e)) {
        let i = choose|i: int| 0 <= i < exts.len() && exts[i] == sorting::lower_seq(e);
        assert(0 <= i < 11);
    } else {
        if sorting::lower_seq(e) == "3gp"@ {
            assert(exts[0] == sorting::lower_seq(e));
        }
        if sorting::lower_seq(e) == "avi"@ {
            assert(exts[1] == sorting::lower_seq(e));
        }
        if sorting::lower_seq(e) == "flv"@ {
            assert(exts[2] == sorting::lower_seq(e));
        }
        if sorting::lower_seq(e) == "m4v"@ {
            assert(exts[3] == sorting::lower_seq(e));
        }
        if sorting::lower_seq(e) == "mkv"@ {
            assert(exts[4] == sorting::lower_seq(e));
        }
        if sorting::lower_seq(e) == "mov"@ {
            assert(exts[5] == sorting::lower_seq(e));
        }
        if sorting::lower_seq(e) == "mp4"@ {
            assert(exts[6] == sorting::lower_seq(e));
        }
        if sorting::lower_seq(e) == "mpeg"@ {
            assert(exts[7] == sorting::lower_seq(e));
        }
        if sorting::lower_seq(e) == "mpg"@ {
            assert(exts[8] == sorting::lower_seq(e));
        }
        if sorting::lower_seq(e) == "ts"@ {
            assert(exts[9] == sorting::lower_seq(e));
        }
        if sorting::lower_seq(e) == "webm"@ {
            assert(exts[10] == sorting::lower_seq(e));
        }
    }
}

/// A key without a `.` is no video.
pub proof fn law_r2_key_without_dot_is_no_video(k: Seq<char>)
    requires
        forall|j: int| 0 <= j < k.len() ==> k[j] != '.',
    ensures
        !is_r2_video_key(k),
{
    text::lemma_rpos_of(k, '.');
}

} // verus!
