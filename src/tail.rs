//! The decisions of a tailing task, and the framing of entries for a push
//! stream.
//!
//! A tailing task first drains what a file already holds in large batches
//! with a short pause between them, then waits for a change notice or a
//! timer tick before each smaller batch. Reading the file, waiting and
//! publishing are left to the caller: each step here takes the bytes that the
//! file holds from the read position onwards and says what to publish and
//! what to do next.

use crate::cursor::{byte_lines, takes_lines, Cursor};
use crate::entry::{LogKind, LogType};
use crate::parser::parse_line;
use vstd::prelude::*;
use vstd::utf8::{decode_utf8, valid_utf8};

verus! {

/// Lines taken per batch while catching up with existing content.
pub const CATCH_UP_BATCH: usize = 100;

/// Lines taken per batch once caught up.
pub const LIVE_BATCH: usize = 50;

/// The text that lossy UTF-8 decoding gives for `bytes`.
pub uninterp spec fn lossy_text(bytes: Seq<u8>) -> Seq<char>;

/// Relies on `String::from_utf8_lossy`: invalid sequences become U+FFFD,
/// and valid UTF-8 is decoded as it stands.
#[verifier::external_body]
fn decode_lossy(bytes: &[u8]) -> (r: String)
    ensures
        r@ == lossy_text(bytes@),
        valid_utf8(bytes@) ==> r@ == decode_utf8(bytes@),
{
    String::from_utf8_lossy(bytes).into_owned()
}

/// Where a tailing task stands.
#[derive(Debug, Clone, Copy, PartialEq, Eq, Structural)]
pub enum Phase {
    /// Draining what the file held when the task started.
    CatchUp,
    /// Caught up; following what is appended.
    Live,
}

/// What the task does after a step.
#[derive(Debug, Clone, Copy, PartialEq, Eq, Structural)]
pub enum Next {
    /// Pause briefly, then step again.
    Pause,
    /// Wait for a change notice or a timer tick, then step again.
    Wait,
}

/// The state of one tailing task: its read position, the kind of its file,
/// and its phase.
pub struct Tailer {
    cursor: Cursor,
    kind: LogKind,
    phase: Phase,
}

/// The number of lines a step takes in `phase`.
pub open spec fn batch_size(phase: Phase) -> nat {
    match phase {
        Phase::CatchUp => CATCH_UP_BATCH as nat,
        Phase::Live => LIVE_BATCH as nat,
    }
}

/// `entries` are the parses of `lines`, one for one, as lines of `kind`.
pub open spec fn parses_of(entries: Seq<LogType>, lines: Seq<Seq<u8>>, kind: LogKind) -> bool {
    &&& entries.len() == lines.len()
    &&& forall|i: int|
        0 <= i < lines.len() ==> (#[trigger] entries[i]).parsed_from(lossy_text(lines[i]), kind)
}

impl Tailer {
    /// The byte offset of the next line to read.
    pub closed spec fn pos(&self) -> nat {
        self.cursor.pos()
    }

    /// The kind of the file being followed.
    pub closed spec fn spec_kind(&self) -> LogKind {
        self.kind
    }

    /// Whether the task is still catching up.
    pub closed spec fn spec_phase(&self) -> Phase {
        self.phase
    }

    /// A task for the file named `file_name`, at its start, catching up; the
    /// name decides the kind once for the whole task.
    pub fn new(file_name: &str) -> (r: Tailer)
        ensures
            r.pos() == 0,
            r.spec_kind() == LogKind::of_name(file_name@),
            r.spec_phase() == Phase::CatchUp,
    {
        Tailer { cursor: Cursor::new(), kind: LogKind::from_file_name(file_name), phase: Phase::CatchUp }
    }

    /// The byte offset from which the file is to be read.
    pub fn offset(&self) -> (r: u64)
        ensures
            r == self.pos(),
    {
        self.cursor.offset()
    }

    pub fn kind(&self) -> (r: LogKind)
        ensures
            r == self.spec_kind(),
    {
        self.kind
    }

    pub fn phase(&self) -> (r: Phase)
        ensures
            r == self.spec_phase(),
    {
        self.phase
    }

    /// One step: takes a batch of complete lines from `avail`, the bytes of
    /// the file from the read position onwards, and parses them in order.
    /// While catching up, an empty batch ends the catching up; otherwise the
    /// task pauses and steps again. Once live it waits after every step.
    pub fn step(&mut self, avail: &[u8]) -> (r: (Vec<LogType>, Next))
        requires
            old(self).pos() + avail@.len() <= u64::MAX,
        ensures
            final(self).spec_kind() == old(self).spec_kind(),
            final(self).pos() >= old(self).pos(),
            exists|lines: Seq<Seq<u8>>|
                {
                    &&& takes_lines(
                        avail@,
                        batch_size(old(self).spec_phase()),
                        lines,
                        final(self).pos() - old(self).pos(),
                    )
                    &&& parses_of(r.0@, lines, old(self).spec_kind())
                    &&& (old(self).spec_phase() == Phase::CatchUp && lines.len() > 0) ==> (
                    final(self).spec_phase() == Phase::CatchUp && r.1 == Next::Pause)
                    &&& (old(self).spec_phase() == Phase::Live || lines.len() == 0) ==> (
                    final(self).spec_phase() == Phase::Live && r.1 == Next::Wait)
                },
    {
        let max = match self.phase {
            Phase::CatchUp => CATCH_UP_BATCH,
            Phase::Live => LIVE_BATCH,
        };
        let lines = self.cursor.read_batch(avail, max);
        let ghost line_seqs = byte_lines(lines@);
        let mut entries: Vec<LogType> = Vec::new();
        let mut i: usize = 0;
        while i < lines.len()
            invariant
                i <= lines@.len(),
                line_seqs == byte_lines(lines@),
                entries@.len() == i,
                forall|k: int|
                    0 <= k < i ==> (#[trigger] entries@[k]).parsed_from(
                        lossy_text(line_seqs[k]),
                        self.kind,
                    ),
            decreases lines@.len() - i,
        {
            let text = decode_lossy(lines[i].as_slice());
            entries.push(parse_line(text.as_str(), self.kind));
            i = i + 1;
        }
        let next = if self.phase == Phase::CatchUp && lines.len() > 0 {
            Next::Pause
        } else {
            self.phase = Phase::Live;
            Next::Wait
        };
        proof {
            assert(parses_of(entries@, line_seqs, self.kind));
        }
        (entries, next)
    }
}

/// Whether a tailing task ends after a step: once it has caught up, as soon
/// as nobody is subscribed to what it publishes.
pub fn should_stop(phase: Phase, subscribers: usize) -> (r: bool)
    ensures
        r == (phase == Phase::Live && subscribers == 0),
{
    phase == Phase::Live && subscribers == 0
}

/// Bytes read from a file per step at first.
pub const READ_LIMIT: u64 = 65536;

/// How many bytes to read for the next step: after a step that read as much
/// as it was allowed and still found no complete line, twice as many (up to
/// the largest `u64`), so that a long line is read whole in the end;
/// otherwise the first amount again.
pub fn next_read_limit(limit: u64, read: usize, lines_taken: usize) -> (r: u64)
    ensures
        r == if lines_taken == 0 && read as int == limit as int {
            if 2 * limit <= u64::MAX {
                2 * limit
            } else {
                u64::MAX as int
            }
        } else {
            READ_LIMIT as int
        },
{
    if lines_taken == 0 && read as u64 == limit {
        if limit <= u64::MAX / 2 {
            2 * limit
        } else {
            u64::MAX
        }
    } else {
        READ_LIMIT
    }
}

/// `data: ` followed by `payload` and a blank line: one event of a push
/// stream.
pub open spec fn framed(payload: Seq<char>) -> Seq<char> {
    "data: "@ + payload + "\n\n"@
}

/// Frames an encoded entry as one push-stream event.
pub fn frame_event(payload: &str) -> (r: String)
    ensures
        r@ == framed(payload@),
{
    let mut out = "data: ".to_owned();
    out.append(payload);
    out.append("\n\n");
    out
}

/// The suffix that marks a log file.
pub open spec fn log_suffix() -> Seq<char> {
    seq!['.', 'l', 'o', 'g']
}

/// Whether a file named `name` is listed as a log: its extension is `log`,
/// which takes a non-empty part before the dot.
pub open spec fn is_log_name(name: Seq<char>) -> bool {
    name.len() > 4 && name.skip(name.len() - 4) == log_suffix()
}

/// Decides whether a file name is that of a log file.
pub fn is_log_file_name(name: &str) -> (r: bool)
    ensures
        r == is_log_name(name@),
{
    let n = name.unicode_len();
    if n <= 4 {
        return false;
    }
    let tail = name.substring_char(n - 4, n);
    let a = tail.get_char(0);
    let b = tail.get_char(1);
    let c = tail.get_char(2);
    let d = tail.get_char(3);
    let r = a == '.' && b == 'l' && c == 'o' && d == 'g';
    proof {
        assert(tail@ =~= name@.skip(n - 4));
        if r {
            assert(tail@ =~= log_suffix());
        } else if tail@ == log_suffix() {
            assert(tail@[0] == '.' && tail@[1] == 'l' && tail@[2] == 'o' && tail@[3] == 'g');
        }
    }
    r
}

} // verus!
