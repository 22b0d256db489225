# media_dl

The core of a desktop video downloader built around yt-dlp and ffmpeg, with a local video
library and uploads to Cloudflare R2. The decisions and formats of the application live in
`src/` and are verified with Verus; `app/` holds the process, file, network and event
plumbing that drives them.

## Layout

- `src/text.rs` — characters and strings as sequences: trimming, searching, splitting,
  decimal numbers.
- `src/paths.rs` — the few `std::path` operations the library needs, as trusted wrappers.
- `src/parser.rs` — fields of yt-dlp progress lines and ffmpeg status lines.
- `src/output.rs` — progress throttling, splitting process output into lines, output
  destinations, the outcome of a finished download.
- `src/comments.rs` — YouTube credentials, video ids, comment sidecar files.
- `src/sorting.rs` — the stable, case-insensitive name sort used by both libraries.
- `src/local_files.rs` — the local video library and the deletions it allows.
- `src/r2.rs` — AWS Signature Version 4 signing, object keys and URLs, upload planning,
  cancellation bookkeeping and bucket listings.
- `tests/` — tests of the library on concrete values.
- `app/` — the commands themselves: running processes, reading and writing files, HTTP
  requests, JSON and XML (de)serialisation, event emission.

Each `law_*` proof function states, and proves, a property that spans several functions or
every input (for example that the line splitter does not depend on where chunks are cut,
or that an encoded object key cannot escape its path).
