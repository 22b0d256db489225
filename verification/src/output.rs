//! Decisions taken on the output of a yt-dlp / ffmpeg process: progress throttling,
//! line splitting, destination tracking and the final outcome.
use vstd::prelude::*;

use crate::paths;
use crate::text;

verus! {

// ---------------------------------------------------------------------------
// Progress throttling
// ---------------------------------------------------------------------------

/// How a progress percentage stands against 100%: below it, at or above it, or neither
/// (a percentage that is not a number compares with nothing).
#[derive(Clone, Copy, PartialEq, Eq, Structural, Debug)]
pub enum Completion {
    Partial,
    Full,
    Unordered,
}

/// Decides which progress updates are forwarded, so that the front end receives at most
/// one update per interval, but never misses the first update, a change of stage, or the
/// moment the download reaches 100%.
pub struct ProgressThrottler {
    last_emit: Option<u64>,
    throttle_interval: u64,
    last_completion: Completion,
    last_status: Option<String>,
}

impl ProgressThrottler {
    /// When the last update was forwarded, in nanoseconds on the caller's monotonic clock.
    pub closed spec fn spec_last_emit(&self) -> Option<u64> {
        self.last_emit
    }

    /// The throttling interval, in nanoseconds.
    pub closed spec fn spec_interval(&self) -> u64 {
        self.throttle_interval
    }

    /// Where the last forwarded percentage stood against 100%.
    pub closed spec fn spec_last_completion(&self) -> Completion {
        self.last_completion
    }

    /// The status of the last forwarded update.
    pub closed spec fn spec_last_status(&self) -> Option<Seq<char>> {
        match self.last_status {
            Some(s) => Some(s@),
            None => None,
        }
    }

    /// A throttler that has forwarded nothing yet.
    pub fn new(interval_nanos: u64) -> (r: Self)
        ensures
            r.spec_last_emit() is None,
            r.spec_interval() == interval_nanos,
            r.spec_last_completion() == Completion::Partial,
            r.spec_last_status() is None,
    {
        ProgressThrottler {
            last_emit: None,
            throttle_interval: interval_nanos,
            last_completion: Completion::Partial,
            last_status: None,
        }
    }

    /// Whether an update at time `now` (nanoseconds), with the given stand against 100% and
    /// status, is forwarded. A forwarded update becomes the last one; otherwise nothing
    /// changes.
    pub fn should_emit(&mut self, now: u64, completion: Completion, status: &str) -> (r: bool)
        ensures
            r == should_forward(*old(self), now, completion, status@),
            final(self).spec_interval() == old(self).spec_interval(),
            r ==> final(self).spec_last_emit() == Some(now) && final(self).spec_last_status()
                == Some(status@) && final(self).spec_last_completion() == completion,
            !r ==> final(self).spec_last_emit() == old(self).spec_last_emit()
                && final(self).spec_last_status() == old(self).spec_last_status()
                && final(self).spec_last_completion() == old(self).spec_last_completion(),
    {
        let forward = match self.last_emit {
            None => true,
            Some(last) => {
                let same_status = match &self.last_status {
                    Some(s) => text::str_eq(s.as_str(), status),
                    None => false,
                };
                if !same_status {
                    true
                } else if completion == Completion::Full && self.last_completion
                    == Completion::Partial {
                    true
                } else {
                    let elapsed = if now >= last {
                        now - last
                    } else {
                        0
                    };
                    elapsed >= self.throttle_interval
                }
            },
        };
        if forward {
            self.last_emit = Some(now);
            self.last_completion = completion;
            self.last_status = Some(status.to_owned());
        }
        forward
    }
}

/// The rule that `should_emit` applies: the first update, a change of status, and the
/// first update at 100% after one below it are forwarded at once; any other update is
/// forwarded when at least one interval has passed since the last forwarded one.
pub open spec fn should_forward(
    t: ProgressThrottler,
    now: u64,
    completion: Completion,
    status: Seq<char>,
) -> bool {
    match t.spec_last_emit() {
        None => true,
        Some(last) => {
            ||| t.spec_last_status() != Some(status)
            ||| (completion == Completion::Full && t.spec_last_completion() == Completion::Partial)
            ||| (if now >= last {
                now - last
            } else {
                0
            }) >= t.spec_interval()
        },
    }
}

impl Default for ProgressThrottler {
    /// A throttler with a 100 ms interval.
    fn default() -> (r: Self)
        ensures
            r.spec_last_emit() is None,
            r.spec_interval() == 100_000_000,
            r.spec_last_completion() == Completion::Partial,
            r.spec_last_status() is None,
    {
        Self::new(100_000_000)
    }
}

// ---------------------------------------------------------------------------
// Durations and destinations
// ---------------------------------------------------------------------------

/// `MM:SS`, or `HH:MM:SS` from one hour on; each part has at least two digits.
pub open spec fn duration_text(total: nat) -> Seq<char> {
    let h = total / 3600;
    let m = (total % 3600) / 60;
    let s = total % 60;
    if h > 0 {
        text::pad2(h) + seq![':'] + text::pad2(m) + seq![':'] + text::pad2(s)
    } else {
        text::pad2(m) + seq![':'] + text::pad2(s)
    }
}

/// Formats a whole number of seconds as `MM:SS` or `HH:MM:SS`.
pub fn format_duration(total_secs: u64) -> (r: String)
    ensures
        r@ == duration_text(total_secs as nat),
{
    let h = total_secs / 3600;
    let m = (total_secs % 3600) / 60;
    let s = total_secs % 60;
    let mut out: Vec<char> = Vec::new();
    if h > 0 {
        text::push_pad2(&mut out, h);
        out.push(':');
    }
    text::push_pad2(&mut out, m);
    out.push(':');
    text::push_pad2(&mut out, s);
    text::string_from_chars(&out)
}

/// The `[Merger] Merging formats into "..."` form: the text between the first and the
/// last double quote.
pub open spec fn merger_destination(t: Seq<char>) -> Option<Seq<char>> {
    if text::find(t, "[Merger] Merging formats into"@) is Some {
        match (text::pos_of(t, '"'), text::rpos_of(t, '"')) {
            (Some(i), Some(e)) => if i + 1 < e {
                Some(t.subrange(i + 1, e))
            } else {
                None
            },
            _ => None,
        }
    } else {
        None
    }
}

/// The file that a yt-dlp output line names as its destination, if any.
pub open spec fn destination(line: Seq<char>) -> Option<Seq<char>> {
    let t = text::trim(line);
    let p1 = "[download] Destination: "@;
    let p2 = "[download] "@;
    let sfx = "has already been downloaded"@;
    if text::starts_with(t, p1) {
        Some(text::trim(t.subrange(p1.len() as int, t.len() as int)))
    } else if text::starts_with(t, p2) && text::ends_with(t, sfx) {
        if t.len() >= p2.len() + sfx.len() {
            let inner = text::trim(t.subrange(p2.len() as int, t.len() - sfx.len()));
            if inner.len() > 0 {
                Some(inner)
            } else {
                merger_destination(t)
            }
        } else {
            None
        }
    } else {
        merger_destination(t)
    }
}

fn merger_exec(t: &str) -> (r: Option<String>)
    ensures
        text::opt_view(r) == merger_destination(t@),
{
    let v = text::chars_of(t);
    if text::find_in(&v, &text::chars_of("[Merger] Merging formats into")).is_none() {
        return None;
    }
    let first = text::pos_from_exec(&v, '"', 0);
    let last = text::rpos_exec(&v, '"');
    proof {
        text::lemma_pos_of(v@, '"');
        text::lemma_rpos_of(v@, '"');
    }
    match (first, last) {
        (Some(i), Some(e)) => {
            if e > i && e - i > 1 {
                Some(text::substring(t, i + 1, e))
            } else {
                None
            }
        },
        _ => None,
    }
}

/// Parses the destination file out of a yt-dlp output line (`[download] Destination:`,
/// `... has already been downloaded`, `[Merger] Merging formats into "..."`).
pub fn parse_destination(line: &str) -> (r: Option<String>)
    ensures
        text::opt_view(r) == destination(line@),
{
    let t = text::trim_string(line);
    let v = text::chars_of(t.as_str());
    let p1 = text::chars_of("[download] Destination: ");
    let p2 = text::chars_of("[download] ");
    let sfx = text::chars_of("has already been downloaded");
    if text::eq_at(&v, 0, &p1) {
        let rest = text::substring(t.as_str(), p1.len(), v.len());
        return Some(text::trim_string(rest.as_str()));
    }
    let n = v.len();
    if text::eq_at(&v, 0, &p2) && sfx.len() <= n && text::eq_at(&v, n - sfx.len(), &sfx) {
        if n - sfx.len() >= p2.len() {
            let inner = text::trim_string(
                text::substring(t.as_str(), p2.len(), n - sfx.len()).as_str(),
            );
            if !inner.as_str().is_empty() {
                return Some(inner);
            }
            return merger_exec(t.as_str());
        } else {
            return None;
        }
    }
    merger_exec(t.as_str())
}

/// The path that `--print-to-file` wrote: the last line of the trimmed file content,
/// trimmed; nothing where the content is blank.
pub open spec fn last_printed_path(content: Seq<char>) -> Option<Seq<char>> {
    let t = text::trim(content);
    if t.len() == 0 {
        None
    } else {
        match text::rpos_of(t, '\n') {
            Some(i) => Some(text::trim(t.subrange(i + 1, t.len() as int))),
            None => Some(text::trim(t)),
        }
    }
}

/// Picks the final output path out of the content of the `--print-to-file` file.
pub fn last_output_path(content: &str) -> (r: Option<String>)
    ensures
        text::opt_view(r) == last_printed_path(content@),
{
    let t = text::trim_string(content);
    let v = text::chars_of(t.as_str());
    if v.len() == 0 {
        return None;
    }
    match text::rpos_exec(&v, '\n') {
        Some(i) => {
            proof {
                text::lemma_rpos_of(v@, '\n');
            }
            let line = text::substring(t.as_str(), i + 1, v.len());
            Some(text::trim_string(line.as_str()))
        },
        None => Some(text::trim_string(t.as_str())),
    }
}

} // verus!

verus! {

// ---------------------------------------------------------------------------
// Splitting a byte stream into lines
// ---------------------------------------------------------------------------

/// The longest line that is kept; a piece that would make a line longer is dropped.
pub const MAX_LINE_LEN: usize = 65536;

/// `\n` and `\r` both end a line (ffmpeg ends its progress lines with `\r`).
pub open spec fn is_line_end(b: u8) -> bool {
    b == 10 || b == 13
}

/// The first line end at or after `i`.
pub open spec fn line_end_from(s: Seq<u8>, i: int) -> Option<int>
    decreases s.len() - i,
{
    if i < 0 || i >= s.len() {
        None
    } else if is_line_end(s[i]) {
        Some(i)
    } else {
        line_end_from(s, i + 1)
    }
}

pub proof fn lemma_line_end_from(s: Seq<u8>, i: int)
    requires
        0 <= i,
    ensures
        line_end_from(s, i) matches Some(k) ==> i <= k < s.len() && is_line_end(s[k]) && forall|
            j: int,
        |
            i <= j < k ==> !is_line_end(s[j]),
        line_end_from(s, i) is None ==> forall|j: int| i <= j < s.len() ==> !is_line_end(s[j]),
    decreases s.len() - i,
{
    if i < s.len() && !is_line_end(s[i]) {
        lemma_line_end_from(s, i + 1);
    }
}

/// `buf` with `piece` appended, unless the result would be longer than `MAX_LINE_LEN`.
pub open spec fn append_if_fits(buf: Seq<u8>, piece: Seq<u8>) -> Seq<u8> {
    if buf.len() + piece.len() <= MAX_LINE_LEN {
        buf + piece
    } else {
        buf
    }
}

/// Feeding `chunk` to a splitter that holds `buf`: the bytes it then holds, and the
/// complete, non-empty lines it hands out, in order.
pub open spec fn feed_lines(buf: Seq<u8>, chunk: Seq<u8>) -> (Seq<u8>, Seq<Seq<u8>>)
    decreases chunk.len(),
{
    match line_end_from(chunk, 0) {
        None => (append_if_fits(buf, chunk), Seq::empty()),
        Some(k) => {
            proof {
                lemma_line_end_from(chunk, 0);
            }
            let line = append_if_fits(buf, chunk.subrange(0, k));
            let rest = feed_lines(Seq::empty(), chunk.subrange(k + 1, chunk.len() as int));
            (rest.0, if line.len() > 0 {
                seq![line] + rest.1
            } else {
                rest.1
            })
        },
    }
}

/// A complete line as the splitter hands it out: not empty, no longer than
/// `MAX_LINE_LEN`, without line ends.
pub open spec fn good_line(l: Seq<u8>) -> bool {
    &&& 0 < l.len() <= MAX_LINE_LEN
    &&& forall|j: int| 0 <= j < l.len() ==> !is_line_end(#[trigger] l[j])
}

/// What the splitter may hold between chunks.
pub open spec fn good_pending(b: Seq<u8>) -> bool {
    &&& b.len() <= MAX_LINE_LEN
    &&& forall|j: int| 0 <= j < b.len() ==> !is_line_end(#[trigger] b[j])
}

/// Every line handed out is a good line, and what is held stays a good pending line.
pub proof fn lemma_feed_lines_good(buf: Seq<u8>, chunk: Seq<u8>)
    requires
        good_pending(buf),
    ensures
        good_pending(feed_lines(buf, chunk).0),
        forall|i: int|
            0 <= i < feed_lines(buf, chunk).1.len() ==> good_line(
                #[trigger] feed_lines(buf, chunk).1[i],
            ),
    decreases chunk.len(),
{
    lemma_line_end_from(chunk, 0);
    match line_end_from(chunk, 0) {
        None => {
            let r = append_if_fits(buf, chunk);
            assert forall|j: int| 0 <= j < r.len() implies !is_line_end(#[trigger] r[j]) by {
                if buf.len() + chunk.len() <= MAX_LINE_LEN && j >= buf.len() {
                    assert(r[j] == chunk[j - buf.len()]);
                }
            }
        },
        Some(k) => {
            let piece = chunk.subrange(0, k);
            let line = append_if_fits(buf, piece);
            assert forall|j: int| 0 <= j < line.len() implies !is_line_end(#[trigger] line[j]) by {
                if buf.len() + piece.len() <= MAX_LINE_LEN && j >= buf.len() {
                    assert(line[j] == piece[j - buf.len()]);
                }
            }
            let tail = chunk.subrange(k + 1, chunk.len() as int);
            lemma_feed_lines_good(Seq::empty(), tail);
            let rest = feed_lines(Seq::empty(), tail);
            if line.len() > 0 {
                let out = seq![line] + rest.1;
                assert forall|i: int| 0 <= i < out.len() implies good_line(#[trigger] out[i]) by {
                    if i > 0 {
                        assert(out[i] == rest.1[i - 1]);
                    }
                }
            }
        },
    }
}

/// Splits the bytes that a process writes into lines, chunk by chunk.
pub struct LineSplitter {
    pending: Vec<u8>,
}

impl LineSplitter {
    /// The bytes of the line not yet complete.
    pub closed spec fn spec_pending(&self) -> Seq<u8> {
        self.pending@
    }

    pub fn new() -> (r: Self)
        ensures
            r.spec_pending() == Seq::<u8>::empty(),
    {
        LineSplitter { pending: Vec::new() }
    }

    fn append_if_fits_exec(&mut self, chunk: &[u8], from: usize, to: usize)
        requires
            from <= to <= chunk@.len(),
            old(self).pending@.len() <= MAX_LINE_LEN,
        ensures
            final(self).pending@ == append_if_fits(
                old(self).pending@,
                chunk@.subrange(from as int, to as int),
            ),
    {
        if to - from <= MAX_LINE_LEN - self.pending.len() {
            let ghost start = self.pending@;
            let mut i = from;
            while i < to
                invariant
                    from <= i <= to <= chunk@.len(),
                    self.pending@ == start + chunk@.subrange(from as int, i as int),
                decreases to - i,
            {
                self.pending.push(chunk[i]);
                assert(chunk@.subrange(from as int, i + 1) == chunk@.subrange(from as int, i as int)
                    .push(chunk@[i as int]));
                i = i + 1;
            }
        }
    }

    /// Takes in the next chunk of output and hands out the lines it completes; bytes
    /// after the last line end are held for the next chunk.
    pub fn feed(&mut self, chunk: &[u8]) -> (lines: Vec<Vec<u8>>)
        requires
            good_pending(old(self).spec_pending()),
        ensures
            final(self).spec_pending() == feed_lines(old(self).spec_pending(), chunk@).0,
            lines@.map_values(|l: Vec<u8>| l@) == feed_lines(old(self).spec_pending(), chunk@).1,
            good_pending(final(self).spec_pending()),
    {
        proof {
            lemma_feed_lines_good(self.pending@, chunk@);
        }
        let ghost first = self.pending@;
        let n = chunk.len();
        let mut lines: Vec<Vec<u8>> = Vec::new();
        let mut start: usize = 0;
        assert(chunk@.subrange(0, n as int) == chunk@);
        loop
            invariant
                start <= n,
                n == chunk@.len(),
                first == old(self).pending@,
                good_pending(self.pending@),
                feed_lines(first, chunk@).0 == feed_lines(
                    self.pending@,
                    chunk@.subrange(start as int, n as int),
                ).0,
                feed_lines(first, chunk@).1 == lines@.map_values(|l: Vec<u8>| l@) + feed_lines(
                    self.pending@,
                    chunk@.subrange(start as int, n as int),
                ).1,
                good_pending(feed_lines(first, chunk@).0),
            decreases n - start,
        {
            let ghost rest = chunk@.subrange(start as int, n as int);
            let mut i = start;
            while i < n && !(chunk[i] == 10 || chunk[i] == 13)
                invariant
                    start <= i <= n,
                    n == chunk@.len(),
                    rest == chunk@.subrange(start as int, n as int),
                    line_end_from(rest, 0) == line_end_from(rest, i - start),
                decreases n - i,
            {
                i = i + 1;
            }
            proof {
                lemma_line_end_from(rest, 0);
            }
            if i == n {
                let ghost held0 = self.pending@;
                assert(line_end_from(rest, 0) is None);
                assert(rest.subrange(0, rest.len() as int) == rest);
                assert(feed_lines(held0, rest) == (
                    append_if_fits(held0, rest),
                    Seq::<Seq<u8>>::empty(),
                ));
                self.append_if_fits_exec(chunk, start, n);
                assert(lines@.map_values(|l: Vec<u8>| l@) + Seq::<Seq<u8>>::empty()
                    == lines@.map_values(|l: Vec<u8>| l@));
                return lines;
            }
            let ghost held = self.pending@;
            assert(rest[i - start] == chunk@[i as int]);
            assert(line_end_from(rest, 0) == Some((i - start) as int));
            assert(rest.subrange(0, i - start) == chunk@.subrange(start as int, i as int));
            assert(rest.subrange(i - start + 1, rest.len() as int) == chunk@.subrange(
                i + 1,
                n as int,
            ));
            self.append_if_fits_exec(chunk, start, i);
            proof {
                lemma_feed_lines_good(held, rest);
            }
            if self.pending.len() > 0 {
                let mut line: Vec<u8> = Vec::new();
                std::mem::swap(&mut line, &mut self.pending);
                let ghost before = lines@;
                lines.push(line);
                assert(lines@.map_values(|l: Vec<u8>| l@) == before.map_values(|l: Vec<u8>| l@)
                    + seq![line@]);
            }
            assert(self.pending@ =~= Seq::<u8>::empty());
            start = i + 1;
        }
    }

    /// At the end of the stream: the held bytes, as a last line, if there are any.
    pub fn finish(self) -> (last: Option<Vec<u8>>)
        ensures
            self.spec_pending().len() > 0 ==> (last matches Some(l) && l@ == self.spec_pending()),
            self.spec_pending().len() == 0 ==> last is None,
    {
        if self.pending.len() > 0 {
            Some(self.pending)
        } else {
            None
        }
    }
}

} // verus!

verus! {

// ---------------------------------------------------------------------------
// What to do with one output line, and with the end of the process
// ---------------------------------------------------------------------------

/// How one line of process output is handled.
#[derive(Clone, Copy, PartialEq, Eq, Structural, Debug)]
pub enum LineKind {
    /// A `--progress-template` JSON line: a progress update, not logged.
    Progress,
    /// An ffmpeg frame status line (`frame=` and `time=`): progress from the clip time,
    /// not logged.
    FfmpegFrame,
    /// Anything else: forwarded to the log.
    Log,
}

pub struct LineAction {
    /// The line starts with `ERROR:` and becomes the task's last error.
    pub records_error: bool,
    pub kind: LineKind,
    /// For a logged line, the destination file that it names, if any.
    pub destination: Option<String>,
}

pub open spec fn line_kind(line: Seq<char>, is_progress: bool) -> LineKind {
    if is_progress {
        LineKind::Progress
    } else if text::find(line, "time="@) is Some && text::find(line, "frame="@) is Some {
        LineKind::FfmpegFrame
    } else {
        LineKind::Log
    }
}

/// Decides how a (trimmed, non-empty) output line is handled; `is_progress` says whether
/// the line parsed as a progress JSON line.
pub fn output_line_action(line: &str, is_progress: bool) -> (r: LineAction)
    ensures
        r.records_error == text::starts_with(line@, "ERROR:"@),
        r.kind == line_kind(line@, is_progress),
        r.kind == LineKind::Log ==> text::opt_view(r.destination) == destination(line@),
        r.kind != LineKind::Log ==> r.destination is None,
{
    let v = text::chars_of(line);
    let records_error = text::eq_at(&v, 0, &text::chars_of("ERROR:"));
    let kind = if is_progress {
        LineKind::Progress
    } else if text::find_in(&v, &text::chars_of("time=")).is_some() && text::find_in(
        &v,
        &text::chars_of("frame="),
    ).is_some() {
        LineKind::FfmpegFrame
    } else {
        LineKind::Log
    };
    let destination = if kind == LineKind::Log {
        parse_destination(line)
    } else {
        None
    };
    LineAction { records_error, kind, destination }
}

/// A line of output as handed to `output_line_action`: trimmed; blank lines are skipped.
pub fn clean_line(raw: &str) -> (r: Option<String>)
    ensures
        r matches Some(l) ==> l@ == text::trim(raw@) && l@.len() > 0,
        r is None ==> text::trim(raw@).len() == 0,
{
    let t = text::trim_string(raw);
    if t.as_str().is_empty() {
        None
    } else {
        Some(t)
    }
}

/// `err_exit_code:<code>` (`-1` where the process has no exit code), or the error of
/// waiting for the process.
pub open spec fn exit_message(wait: Result<Option<i32>, Seq<char>>) -> Seq<char> {
    match wait {
        Ok(code) => "err_exit_code:"@ + text::dec_int(
            match code {
                Some(c) => c as int,
                None => -1,
            },
        ),
        Err(e) => e,
    }
}

/// The error reported for a failed download: the last `ERROR:` line if there was one,
/// otherwise the exit status.
pub fn failure_message(last_error: Option<String>, wait: Result<Option<i32>, String>) -> (r:
    String)
    ensures
        r@ == (match last_error {
            Some(e) => e@,
            None => exit_message(
                match wait {
                    Ok(c) => Ok(c),
                    Err(e) => Err(e@),
                },
            ),
        }),
{
    match last_error {
        Some(e) => e,
        None => match wait {
            Ok(code) => {
                let c: i32 = match code {
                    Some(c) => c,
                    None => -1,
                };
                let mut out: Vec<char> = Vec::new();
                text::push_str(&mut out, "err_exit_code:");
                text::push_int(&mut out, c as i64);
                text::string_from_chars(&out)
            },
            Err(e) => e,
        },
    }
}

/// What the end of a download process leads to.
#[derive(PartialEq, Eq, Structural, Debug)]
pub enum Outcome {
    /// Exit status success: report the output file.
    Complete,
    /// Failure of a download that was not cancelled: report the error.
    Failed,
    /// Failure of a cancelled download: report nothing.
    Silent,
}

/// Only the exit status decides success; a cancelled download that fails reports nothing.
pub fn completion_outcome(success: bool, cancelled: bool) -> (r: Outcome)
    ensures
        r == (if success {
            Outcome::Complete
        } else if !cancelled {
            Outcome::Failed
        } else {
            Outcome::Silent
        }),
{
    if success {
        Outcome::Complete
    } else if !cancelled {
        Outcome::Failed
    } else {
        Outcome::Silent
    }
}

/// The output file of a finished task: the path read from the `--print-to-file` file,
/// else the last destination seen on stdout, joined to the download directory where it is
/// relative; and whether any output is known.
pub open spec fn resolved_output(
    printed: Option<Seq<char>>,
    fallback: Option<Seq<char>>,
    download_dir: Seq<char>,
    has_output_files: bool,
) -> (Seq<char>, bool) {
    let file = match printed {
        Some(p) => p,
        None => Seq::empty(),
    };
    let file = if file.len() == 0 {
        let f = match fallback {
            Some(f) => f,
            None => Seq::empty(),
        };
        if f.len() > 0 && !paths::path_is_absolute(f) {
            paths::path_join(download_dir, f)
        } else {
            f
        }
    } else {
        file
    };
    (file, has_output_files || file.len() > 0)
}

pub fn resolve_output_path(
    printed: Option<String>,
    fallback: Option<String>,
    download_dir: &str,
    has_output_files: bool,
) -> (r: (String, bool))
    ensures
        (r.0@, r.1) == resolved_output(
            text::opt_view(printed),
            text::opt_view(fallback),
            download_dir@,
            has_output_files,
        ),
{
    let mut file = match printed {
        Some(p) => p,
        None => String::new(),
    };
    if file.as_str().is_empty() {
        file = match fallback {
            Some(f) => f,
            None => String::new(),
        };
        if !file.as_str().is_empty() && !paths::is_absolute_path(file.as_str()) {
            file = paths::join_path(download_dir, file.as_str());
        }
    }
    let has = has_output_files || !file.as_str().is_empty();
    (file, has)
}

} // verus!

verus! {

/// The throttler's promises: the first update is always forwarded; a change of status is
/// forwarded at once; the first update at 100% after one below it is forwarded at once;
/// an update with the same status, not reaching 100%, within one interval of the last
/// forwarded one is held back; after a full interval any update is forwarded.
pub proof fn law_throttler_promises(t: ProgressThrottler, now: u64, completion: Completion, status: Seq<char>)
    ensures
        t.spec_last_emit() is None ==> should_forward(t, now, completion, status),
        t.spec_last_status() != Some(status) ==> should_forward(t, now, completion, status),
        completion == Completion::Full && t.spec_last_completion() == Completion::Partial
            ==> should_forward(t, now, completion, status),
        (t.spec_last_emit() matches Some(last) && now >= last && now - last
            < t.spec_interval() && t.spec_last_status() == Some(status) && !(completion
            == Completion::Full && t.spec_last_completion() == Completion::Partial)) ==> !should_forward(
            t,
            now,
            completion,
            status,
        ),
        (t.spec_last_emit() matches Some(last) && now >= last && now - last >= t.spec_interval())
            ==> should_forward(t, now, completion, status),
{
}

/// Every line the splitter hands out is non-empty, at most `MAX_LINE_LEN` bytes long and
/// free of line ends, whatever the chunks it is fed; what it holds in between has no line
/// end and fits in one line.
pub proof fn law_split_lines_are_clean(pending: Seq<u8>, chunk: Seq<u8>)
    requires
        good_pending(pending),
    ensures
        forall|i: int|
            0 <= i < feed_lines(pending, chunk).1.len() ==> good_line(
                #[trigger] feed_lines(pending, chunk).1[i],
            ),
        good_pending(feed_lines(pending, chunk).0),
{
    lemma_feed_lines_good(pending, chunk);
}

} // verus!

verus! {

proof fn lemma_line_end_concat(c1: Seq<u8>, c2: Seq<u8>)
    ensures
        line_end_from(c1, 0) matches Some(k) ==> line_end_from(c1 + c2, 0) == Some(k),
        line_end_from(c1, 0) is None ==> match line_end_from(c2, 0) {
            Some(k) => line_end_from(c1 + c2, 0) == Some(c1.len() + k),
            None => line_end_from(c1 + c2, 0) is None,
        },
{
    let s = c1 + c2;
    lemma_line_end_from(c1, 0);
    lemma_line_end_from(c2, 0);
    lemma_line_end_from(s, 0);
    match line_end_from(c1, 0) {
        Some(k) => {
            assert(s[k] == c1[k]);
            match line_end_from(s, 0) {
                Some(q) => {
                    if q < k {
                        assert(s[q] == c1[q]);
                    } else if q > k {
                    }
                },
                None => {},
            }
        },
        None => {
            match line_end_from(c2, 0) {
                Some(k) => {
                    assert(s[c1.len() + k] == c2[k]);
                    match line_end_from(s, 0) {
                        Some(q) => {
                            if q < c1.len() {
                                assert(s[q] == c1[q]);
                            } else if q < c1.len() + k {
                                assert(s[q] == c2[q - c1.len()]);
                            }
                        },
                        None => {},
                    }
                },
                None => {
                    match line_end_from(s, 0) {
                        Some(q) => {
                            if q < c1.len() {
                                assert(s[q] == c1[q]);
                            } else {
                                assert(s[q] == c2[q - c1.len()]);
                            }
                        },
                        None => {},
                    }
                },
            }
        },
    }
}

/// Where chunks are cut does not matter: feeding `c1` and then `c2` hands out the same
/// lines, and leaves the same bytes pending, as feeding `c1 + c2` at once, as long as the
/// bytes involved fit in one line (so that no piece is dropped).
pub proof fn law_split_ignores_chunk_boundaries(pending: Seq<u8>, c1: Seq<u8>, c2: Seq<u8>)
    requires
        pending.len() + c1.len() + c2.len() <= MAX_LINE_LEN,
    ensures
        feed_lines(pending, c1 + c2) == (
            feed_lines(feed_lines(pending, c1).0, c2).0,
            feed_lines(pending, c1).1 + feed_lines(feed_lines(pending, c1).0, c2).1,
        ),
    decreases c1.len(),
{
    let s = c1 + c2;
    lemma_line_end_concat(c1, c2);
    lemma_line_end_from(c1, 0);
    lemma_line_end_from(c2, 0);
    match line_end_from(c1, 0) {
        None => {
            let b1 = pending + c1;
            assert(feed_lines(pending, c1) == (b1, Seq::<Seq<u8>>::empty()));
            match line_end_from(c2, 0) {
                None => {
                    assert(pending + s == b1 + c2);
                },
                Some(k) => {
                    assert(s.subrange(0, c1.len() + k) == c1 + c2.subrange(0, k));
                    assert(pending + (c1 + c2.subrange(0, k)) == b1 + c2.subrange(0, k));
                    assert(s.subrange(c1.len() + k + 1, s.len() as int) == c2.subrange(
                        k + 1,
                        c2.len() as int,
                    ));
                    assert(Seq::<Seq<u8>>::empty() + feed_lines(b1, c2).1 == feed_lines(b1, c2).1);
                },
            }
        },
        Some(k) => {
            let tail1 = c1.subrange(k + 1, c1.len() as int);
            assert(s.subrange(0, k) == c1.subrange(0, k));
            assert(s.subrange(k + 1, s.len() as int) == tail1 + c2);
            law_split_ignores_chunk_boundaries(Seq::empty(), tail1, c2);
            let line = append_if_fits(pending, c1.subrange(0, k));
            let r1 = feed_lines(Seq::empty(), tail1);
            let r2 = feed_lines(r1.0, c2);
            if line.len() > 0 {
                assert(seq![line] + (r1.1 + r2.1) == (seq![line] + r1.1) + r2.1);
            }
        },
    }
}

} // verus!
