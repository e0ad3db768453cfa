//! Watching the agent output for signs of a stuck run.
//!
//! The monitor counts the bytes an agent prints, notes when it last printed,
//! follows the lines of its event stream for one repeated over and over, and
//! watches that stream for the marker a harness prints once it carries on
//! with another model. Whether it saw the marker is a function of the stream
//! it was shown: how the stream was cut into chunks makes no difference.

use vstd::prelude::*;
use crate::registry::{refusal_fallback_marker, fallback_marker_of, CODE_REFUSAL_FALLBACK};
use crate::text::{occurs_at, contains};
use vstd::utf8::encode_utf8;
use vstd::slice::slice_to_vec;
use vstd::std_specs::hash::DefaultHasherAdditionalSpecFns;
use std::collections::hash_map::DefaultHasher;
use std::hash::Hasher;

verus! {

/// A line shorter than this is too generic to count as a repeat.
pub const MINIMUM_LINE_BYTES: u64 = 16;

/// Consecutive repeats of one line before the run counts as looping.
pub const REPEATED_LINE_THRESHOLD: u64 = 10;

/// The byte ending a line.
pub const NEWLINE: u8 = 10;

/// `std::time::Instant`, the moment the agent last printed.
#[verifier::external_type_specification]
#[verifier::external_body]
pub struct ExInstant(std::time::Instant);

/// `std::time::Instant::now`: the current moment. Nothing is claimed of it.
#[verifier::external_body]
fn now() -> std::time::Instant {
    std::time::Instant::now()
}

/// `std::time::Instant::elapsed`: the time since `moment`. Nothing is claimed
/// of it, since it depends on the clock.
#[verifier::external_body]
fn elapsed(moment: &std::time::Instant) -> std::time::Duration {
    moment.elapsed()
}

/// The hash of a line written into a `DefaultHasher` in `writes`.
pub open spec fn line_hash(writes: Seq<Seq<u8>>) -> u64 {
    DefaultHasher::spec_finish(writes)
}

/// What the repeat detector knows: the writes of the line read so far into
/// its hasher and the bytes they hold, the hash of the last line long enough
/// to count, how often it came in a row, and whether the run was seen
/// looping.
pub struct LineState {
    pub writes: Seq<Seq<u8>>,
    pub line_bytes: nat,
    pub last_line: Option<u64>,
    pub repeats: nat,
    pub doom_looping: bool,
}

/// What the fallback watch knows: the marker it looks for, the tail of the
/// stream a marker split between two chunks starts in, and whether the marker
/// was seen.
pub struct FallbackState {
    pub marker: Option<Seq<u8>>,
    pub carry: Seq<u8>,
    pub fell_back: bool,
}

/// Everything a monitor knows, but the clock.
pub struct MonitorState {
    pub output_bytes: nat,
    pub lines: LineState,
    pub fallback: FallbackState,
}

/// The detector once the line read so far is complete.
pub open spec fn completed(s: LineState) -> LineState {
    let hash = line_hash(s.writes);
    if s.line_bytes < MINIMUM_LINE_BYTES {
        LineState { writes: seq![], line_bytes: 0, last_line: None, repeats: 0, ..s }
    } else if s.last_line == Some(hash) {
        LineState {
            writes: seq![],
            line_bytes: 0,
            last_line: s.last_line,
            repeats: s.repeats + 1,
            doom_looping: s.doom_looping || s.repeats + 1 >= REPEATED_LINE_THRESHOLD,
        }
    } else {
        LineState { writes: seq![], line_bytes: 0, last_line: Some(hash), repeats: 1, ..s }
    }
}

/// The detector with `bytes` written into the line read so far; nothing is
/// written for no bytes.
pub open spec fn extended(s: LineState, bytes: Seq<u8>) -> LineState {
    LineState {
        writes: if bytes.len() == 0 {
            s.writes
        } else {
            s.writes.push(bytes)
        },
        line_bytes: s.line_bytes + bytes.len(),
        ..s
    }
}

/// The detector after `rest` of a chunk, the piece `piece` of a line read
/// from the chunk before it: every newline writes the piece before it and
/// completes the line, and what follows the last newline is written last.
pub open spec fn read_from(s: LineState, piece: Seq<u8>, rest: Seq<u8>) -> LineState
    decreases rest.len(),
{
    if rest.len() == 0 {
        extended(s, piece)
    } else if rest[0] == NEWLINE {
        read_from(completed(extended(s, piece)), seq![], rest.drop_first())
    } else {
        read_from(s, piece.push(rest[0]), rest.drop_first())
    }
}

/// The detector after the chunk `chunk` of the event stream.
pub open spec fn read_chunk(s: LineState, chunk: Seq<u8>) -> LineState {
    read_from(s, seq![], chunk)
}

/// The bytes a fallback marker may start in at the end of `window`.
pub open spec fn kept(window: Seq<u8>, marker: Seq<u8>) -> Seq<u8> {
    let kept = if window.len() < marker.len() - 1 {
        window.len() as int
    } else {
        marker.len() - 1
    };
    window.subrange(window.len() - kept, window.len() as int)
}

/// The fallback watch after `chunk` of the event stream.
pub open spec fn scanned(f: FallbackState, chunk: Seq<u8>) -> FallbackState {
    match f.marker {
        None => f,
        Some(marker) => {
            let window = f.carry + chunk;
            FallbackState {
                marker: f.marker,
                carry: kept(window, marker),
                fell_back: f.fell_back || contains(window, marker),
            }
        },
    }
}

/// The monitor after `chunk` of output, of the event stream when `scan_lines`.
pub open spec fn observed(m: MonitorState, chunk: Seq<u8>, scan_lines: bool) -> MonitorState {
    MonitorState {
        output_bytes: m.output_bytes + chunk.len(),
        lines: if scan_lines {
            read_chunk(m.lines, chunk)
        } else {
            m.lines
        },
        fallback: if scan_lines {
            scanned(m.fallback, chunk)
        } else {
            m.fallback
        },
    }
}

/// The monitor after the chunks `reads` in turn, each read from the event
/// stream or not.
pub open spec fn observed_all(m: MonitorState, reads: Seq<(Seq<u8>, bool)>) -> MonitorState
    decreases reads.len(),
{
    if reads.len() == 0 {
        m
    } else {
        observed(observed_all(m, reads.drop_last()), reads.last().0, reads.last().1)
    }
}

/// The event stream `reads` make: their chunks read from it, joined.
pub open spec fn scanned_stream(reads: Seq<(Seq<u8>, bool)>) -> Seq<u8>
    decreases reads.len(),
{
    if reads.len() == 0 {
        seq![]
    } else if reads.last().1 {
        scanned_stream(reads.drop_last()) + reads.last().0
    } else {
        scanned_stream(reads.drop_last())
    }
}

/// The bytes of all of `reads`.
pub open spec fn read_bytes(reads: Seq<(Seq<u8>, bool)>) -> nat
    decreases reads.len(),
{
    if reads.len() == 0 {
        0
    } else {
        read_bytes(reads.drop_last()) + reads.last().0.len()
    }
}

/// The monitor on a new process of the same run: the bytes and a fallback
/// carry over, the repeat detector and the carry start over.
pub open spec fn restarted(m: MonitorState) -> MonitorState {
    MonitorState {
        output_bytes: m.output_bytes,
        lines: LineState { writes: seq![], line_bytes: 0, last_line: None, repeats: 0, doom_looping: false },
        fallback: FallbackState { marker: m.fallback.marker, carry: seq![], fell_back: m.fallback.fell_back },
    }
}

/// A monitor that has seen nothing, watching for `marker`.
pub open spec fn fresh(marker: Option<Seq<u8>>) -> MonitorState {
    MonitorState {
        output_bytes: 0,
        lines: LineState { writes: seq![], line_bytes: 0, last_line: None, repeats: 0, doom_looping: false },
        fallback: FallbackState { marker, carry: seq![], fell_back: false },
    }
}

/// The marker a monitor for `harness` watches for, as the bytes of its text.
pub open spec fn marker_bytes(harness: Seq<char>) -> Option<Seq<u8>> {
    match fallback_marker_of(harness) {
        Some(text) => Some(encode_utf8(text)),
        None => None,
    }
}

/// What the fallback watch of every reachable monitor satisfies: a marker is
/// never empty and the carry is shorter than it, and nothing is carried
/// without a marker.
pub open spec fn fallback_formed(f: FallbackState) -> bool {
    match f.marker {
        Some(marker) => marker.len() >= 1 && f.carry.len() < marker.len(),
        None => f.carry.len() == 0,
    }
}

/// What every reachable monitor state satisfies: its fallback watch is well
/// formed, the repeat count goes with a remembered line, and the repeats and
/// the line read so far never outgrow the bytes counted.
pub open spec fn well_formed(m: MonitorState) -> bool {
    &&& fallback_formed(m.fallback)
    &&& (m.lines.last_line is None) == (m.lines.repeats == 0)
    &&& m.lines.repeats + m.lines.line_bytes <= m.output_bytes
}

/// The agent output statistics of a run.
pub struct Monitor {
    output_bytes: u64,
    last_output: std::time::Instant,
    /// The current line, hashed as it streams so no line is buffered.
    line_hasher: DefaultHasher,
    line_bytes: u64,
    last_line: Option<u64>,
    repeats: u64,
    doom_looping: bool,
    /// What the harness prints once it carries on with another model.
    fallback_marker: Option<Vec<u8>>,
    /// The tail of the stream a marker split between two reads starts in.
    marker_carry: Vec<u8>,
    fell_back: bool,
}

/// Whether `bytes` holds `marker` anywhere.
fn holds(bytes: &Vec<u8>, marker: &Vec<u8>) -> (b: bool)
    ensures
        b == contains(bytes@, marker@),
{
    let n = bytes.len();
    let m = marker.len();
    if m > n {
        assert(!contains(bytes@, marker@));
        return false;
    }
    let mut at: usize = 0;
    while at <= n - m
        invariant
            n == bytes@.len(),
            m == marker@.len(),
            m <= n,
            at <= n - m + 1,
            forall|j: int| 0 <= j < at ==> !occurs_at(bytes@, marker@, j),
        decreases n - m + 1 - at,
    {
        let mut k: usize = 0;
        let mut same = true;
        while k < m
            invariant
                n == bytes@.len(),
                m == marker@.len(),
                at + m <= n,
                k <= m,
                same == (forall|j: int| 0 <= j < k ==> bytes@[at + j] == marker@[j]),
            decreases m - k,
        {
            if bytes[at + k] != marker[k] {
                same = false;
            }
            k = k + 1;
        }
        if same {
            assert(bytes@.subrange(at as int, at + m) =~= marker@);
            assert(occurs_at(bytes@, marker@, at as int));
            return true;
        }
        assert(bytes@.subrange(at as int, at + m) != marker@) by {
            let w = choose|j: int| 0 <= j < m && bytes@[at + j] != marker@[j];
            assert(bytes@.subrange(at as int, at + m)[w] != marker@[w]);
        }
        at = at + 1;
    }
    false
}

/// The place of the first newline in `bytes`, if there is one.
fn newline_in(bytes: &[u8]) -> (position: Option<usize>)
    ensures
        match position {
            Some(p) => p < bytes@.len() && bytes@[p as int] == NEWLINE && forall|j: int|
                0 <= j < p ==> bytes@[j] != NEWLINE,
            None => forall|j: int| 0 <= j < bytes@.len() ==> bytes@[j] != NEWLINE,
        },
{
    let mut i: usize = 0;
    while i < bytes.len()
        invariant
            i <= bytes@.len(),
            forall|j: int| 0 <= j < i ==> bytes@[j] != NEWLINE,
        decreases bytes@.len() - i,
    {
        if bytes[i] == NEWLINE {
            return Some(i);
        }
        i = i + 1;
    }
    None
}

/// Reading bytes without a newline only lengthens the piece of the line.
pub proof fn lemma_read_piece(s: LineState, piece: Seq<u8>, tail: Seq<u8>, more: Seq<u8>)
    requires
        forall|j: int| 0 <= j < tail.len() ==> tail[j] != NEWLINE,
    ensures
        read_from(s, piece, tail + more) == read_from(s, piece + tail, more),
    decreases tail.len(),
{
    if tail.len() == 0 {
        assert(tail + more =~= more);
        assert(piece + tail =~= piece);
    } else {
        assert((tail + more)[0] == tail[0]);
        assert((tail + more).drop_first() =~= tail.drop_first() + more);
        lemma_read_piece(s, piece.push(tail[0]), tail.drop_first(), more);
        assert(piece.push(tail[0]) + tail.drop_first() =~= piece + tail);
    }
}

impl Monitor {
    /// What the monitor knows, as a mathematical value.
    pub closed spec fn state(&self) -> MonitorState {
        MonitorState {
            output_bytes: self.output_bytes as nat,
            lines: LineState {
                writes: self.line_hasher@,
                line_bytes: self.line_bytes as nat,
                last_line: self.last_line,
                repeats: self.repeats as nat,
                doom_looping: self.doom_looping,
            },
            fallback: FallbackState {
                marker: match self.fallback_marker {
                    Some(marker) => Some(marker@),
                    None => None,
                },
                carry: self.marker_carry@,
                fell_back: self.fell_back,
            },
        }
    }

    /// The moment the agent last printed, as far as the monitor knows.
    pub closed spec fn last_output(&self) -> std::time::Instant {
        self.last_output
    }

    /// The monitor is well formed.
    pub closed spec fn inv(&self) -> bool {
        well_formed(self.state())
    }

    /// A monitor watching for the refusal fallback marker of `harness`, if
    /// it has one.
    pub fn new(harness: &str) -> (monitor: Self)
        ensures
            monitor.inv(),
            monitor.state() == fresh(marker_bytes(harness@)),
    {
        Monitor::new_at(harness, now())
    }

    /// A monitor for `harness` made at `moment`: the silence clock counts
    /// from it.
    pub fn new_at(harness: &str, moment: std::time::Instant) -> (monitor: Self)
        ensures
            monitor.inv(),
            monitor.state() == fresh(marker_bytes(harness@)),
            monitor.last_output() == moment,
    {
        let fallback_marker = match refusal_fallback_marker(harness) {
            Some(marker) => {
                let bytes = slice_to_vec(marker.as_bytes());
                proof {
                    reveal_strlit("\"subtype\":\"model_refusal_fallback\"");
                    assert(marker@.len() > 0);
                    assert(encode_utf8(marker@).len() > 0);
                }
                Some(bytes)
            },
            None => None,
        };
        let monitor = Monitor {
            output_bytes: 0,
            last_output: moment,
            line_hasher: DefaultHasher::new(),
            line_bytes: 0,
            last_line: None,
            repeats: 0,
            doom_looping: false,
            fallback_marker,
            marker_carry: Vec::new(),
            fell_back: false,
        };
        assert(monitor.state().fallback.carry =~= seq![]);
        monitor
    }

    /// Start watching a new sandbox on the counters of the run.
    ///
    /// The bytes are the console of the whole run, so they carry over, as does
    /// a fallback, since the harness keeps the session on the other model. The
    /// silence clock and the repeat detector are about the process that is
    /// live and start over with it.
    pub fn restart(&mut self)
        requires
            old(self).inv(),
        ensures
            final(self).inv(),
            final(self).state() == restarted(old(self).state()),
    {
        self.restart_at(now());
    }

    /// Start watching a new sandbox at `moment`, the time of the restart: the
    /// silence clock counts from it, whatever the old process printed.
    pub fn restart_at(&mut self, moment: std::time::Instant)
        requires
            old(self).inv(),
        ensures
            final(self).inv(),
            final(self).state() == restarted(old(self).state()),
            final(self).last_output() == moment,
    {
        self.last_output = moment;
        self.line_hasher = DefaultHasher::new();
        self.line_bytes = 0;
        self.last_line = None;
        self.repeats = 0;
        self.doom_looping = false;
        self.marker_carry = Vec::new();
        assert(self.state().fallback.carry =~= seq![]);
        assert(self.state().lines.writes =~= seq![]);
    }

    /// Count `chunk` and, on the line scanned stream, watch for repeats and
    /// for the fallback marker. A chunk with nothing in it is no output: the
    /// silence goes on.
    pub fn observe(&mut self, chunk: &[u8], scan_lines: bool)
        requires
            old(self).inv(),
            old(self).state().output_bytes + chunk@.len() <= u64::MAX,
        ensures
            final(self).inv(),
            final(self).state() == observed(old(self).state(), chunk@, scan_lines),
            chunk@.len() == 0 ==> final(self).last_output() == old(self).last_output(),
    {
        self.observe_at(chunk, scan_lines, now());
    }

    /// Count `chunk`, printed at `moment`, as `observe` does. Output on
    /// either stream is output: a chunk with anything in it, scanned or not,
    /// sets the silence clock to `moment`; an empty one leaves it alone.
    pub fn observe_at(&mut self, chunk: &[u8], scan_lines: bool, moment: std::time::Instant)
        requires
            old(self).inv(),
            old(self).state().output_bytes + chunk@.len() <= u64::MAX,
        ensures
            final(self).inv(),
            final(self).state() == observed(old(self).state(), chunk@, scan_lines),
            chunk@.len() > 0 ==> final(self).last_output() == moment,
            chunk@.len() == 0 ==> final(self).last_output() == old(self).last_output(),
    {
        self.output_bytes = self.output_bytes + chunk.len() as u64;
        if chunk.len() > 0 {
            self.last_output = moment;
        }
        let ghost moment = self.last_output;

        if !scan_lines {
            return;
        }

        self.scan_fallback(chunk);

        let ghost start = self.state();
        let mut rest: &[u8] = chunk;
        loop
            invariant
                self.inv(),
                self.last_output == moment,
                rest@.len() <= chunk@.len(),
                self.state().output_bytes == start.output_bytes,
                self.state().fallback == start.fallback,
                read_chunk(start.lines, chunk@) == read_from(self.state().lines, seq![], rest@),
                self.state().lines.repeats + self.state().lines.line_bytes + rest@.len()
                    <= self.state().output_bytes,
            ensures
                forall|j: int| 0 <= j < rest@.len() ==> rest@[j] != NEWLINE,
            decreases rest@.len(),
        {
            match newline_in(rest) {
                Some(position) => {
                    let ghost before = self.state().lines;
                    let ghost whole = rest@;
                    let (tail, remainder) = rest.split_at(position);
                    self.extend_line(tail);
                    self.complete_line();
                    rest = &remainder[1..remainder.len()];
                    proof {
                        assert(whole =~= tail@ + (seq![NEWLINE] + rest@));
                        lemma_read_piece(before, seq![], tail@, seq![NEWLINE] + rest@);
                        assert(Seq::<u8>::empty() + tail@ =~= tail@);
                        assert((seq![NEWLINE] + rest@).drop_first() =~= rest@);
                    }
                },
                None => {
                    break;
                },
            }
        }
        let ghost before = self.state().lines;
        proof {
            lemma_read_piece(before, seq![], rest@, seq![]);
            assert(rest@ + Seq::<u8>::empty() =~= rest@);
            assert(Seq::<u8>::empty() + rest@ =~= rest@);
        }
        self.extend_line(rest);
    }

    /// The bytes the agent printed so far.
    pub fn output_bytes(&self) -> (bytes: u64)
        ensures
            bytes == self.state().output_bytes,
    {
        self.output_bytes
    }

    /// How long the agent has printed nothing. It depends on the clock, so
    /// nothing more is claimed of it.
    pub fn silent_for(&self) -> std::time::Duration {
        elapsed(&self.last_output)
    }

    /// Whether the harness reported answering with another model than the one
    /// it was started on.
    pub fn fell_back(&self) -> (fell_back: bool)
        ensures
            fell_back == self.state().fallback.fell_back,
    {
        self.fell_back
    }

    /// Whether one line repeated often enough to look like a loop.
    pub fn doom_looping(&self) -> (looping: bool)
        ensures
            looping == self.state().lines.doom_looping,
    {
        self.doom_looping
    }

    /// Look for the fallback marker in `chunk`, a marker split between this
    /// chunk and the one before included.
    pub fn scan_fallback(&mut self, chunk: &[u8])
        requires
            old(self).inv(),
        ensures
            final(self).inv(),
            final(self).state() == (MonitorState {
                fallback: scanned(old(self).state().fallback, chunk@),
                ..old(self).state()
            }),
            final(self).last_output() == old(self).last_output(),
    {
        let marker = match &self.fallback_marker {
            Some(marker) => marker,
            None => {
                return;
            },
        };
        let mut window: Vec<u8> = Vec::new();
        std::mem::swap(&mut window, &mut self.marker_carry);
        let ghost carried = window@;
        window.extend_from_slice(chunk);
        assert(window@ =~= carried + chunk@);
        let found = holds(&window, marker);
        self.fell_back = self.fell_back || found;
        let keep = if window.len() < marker.len() - 1 {
            window.len()
        } else {
            marker.len() - 1
        };
        let split = window.len() - keep;
        self.marker_carry = window.split_off(split);
    }

    /// Write `bytes` into the line read so far; a read that ends on a
    /// newline leaves nothing to write.
    pub fn extend_line(&mut self, bytes: &[u8])
        requires
            old(self).inv(),
            old(self).state().lines.repeats + old(self).state().lines.line_bytes + bytes@.len()
                <= old(self).state().output_bytes,
        ensures
            final(self).inv(),
            final(self).state() == (MonitorState {
                lines: extended(old(self).state().lines, bytes@),
                ..old(self).state()
            }),
            final(self).last_output() == old(self).last_output(),
    {
        if bytes.len() > 0 {
            self.line_hasher.write(bytes);
        }
        self.line_bytes = self.line_bytes + bytes.len() as u64;
    }

    /// Compare the completed line against the one before it.
    pub fn complete_line(&mut self)
        requires
            old(self).inv(),
        ensures
            final(self).inv(),
            final(self).state() == (MonitorState {
                lines: completed(old(self).state().lines),
                ..old(self).state()
            }),
            final(self).last_output() == old(self).last_output(),
    {
        let hash = self.line_hasher.finish();
        let bytes = self.line_bytes;
        self.line_hasher = DefaultHasher::new();
        self.line_bytes = 0;

        if bytes < MINIMUM_LINE_BYTES {
            self.last_line = None;
            self.repeats = 0;
            return;
        }

        let repeated = match self.last_line {
            Some(last) => last == hash,
            None => false,
        };
        if repeated {
            self.repeats = self.repeats + 1;
            self.doom_looping = self.doom_looping || self.repeats >= REPEATED_LINE_THRESHOLD;
        } else {
            self.last_line = Some(hash);
            self.repeats = 1;
        }
    }
}

/// A marker found in the first part of a stream stands in the whole of it.
proof fn lemma_occurs_in_prefix(w1: Seq<u8>, b: Seq<u8>, marker: Seq<u8>, at: int)
    requires
        occurs_at(w1, marker, at),
    ensures
        occurs_at(w1 + b, marker, at),
{
    assert((w1 + b).subrange(at, at + marker.len()) =~= w1.subrange(at, at + marker.len()));
}

/// Where the whole stream holds the marker at `at`, the part from `from` on
/// holds it at `at - from`, and the other way around.
proof fn lemma_occurs_in_suffix(w: Seq<u8>, from: int, marker: Seq<u8>, at: int)
    requires
        0 <= from <= at,
        from <= w.len(),
    ensures
        occurs_at(w, marker, at) == occurs_at(w.skip(from), marker, at - from),
{
    if at + marker.len() <= w.len() {
        assert(w.skip(from).subrange(at - from, at - from + marker.len()) =~= w.subrange(
            at,
            at + marker.len(),
        ));
    }
}

/// Scanning two chunks in turn is scanning them joined: what the carry keeps
/// is enough to find a marker split between them.
pub proof fn lemma_scan_concat(f: FallbackState, a: Seq<u8>, b: Seq<u8>)
    requires
        fallback_formed(f),
    ensures
        scanned(scanned(f, a), b) == scanned(f, a + b),
{
    if let Some(marker) = f.marker {
        let k = marker.len() - 1;
        let w1 = f.carry + a;
        let w = f.carry + (a + b);
        let carried = kept(w1, marker);
        let d = w1.len() - carried.len();
        let w2 = carried + b;
        assert(w =~= w1 + b);
        assert(w2 =~= w.skip(d));
        // The carry after the second chunk is the tail of the whole window.
        assert(kept(w2, marker) =~= kept(w, marker));
        // A marker in the whole window stands in the first window or in the
        // carry and the second chunk.
        if contains(w, marker) {
            let at = choose|at: int| occurs_at(w, marker, at);
            if at + marker.len() <= w1.len() {
                assert(w1.subrange(at, at + marker.len()) =~= w.subrange(at, at + marker.len()));
                assert(occurs_at(w1, marker, at));
            } else {
                lemma_occurs_in_suffix(w, d, marker, at);
                assert(occurs_at(w2, marker, at - d));
            }
        }
        if contains(w1, marker) {
            let at = choose|at: int| occurs_at(w1, marker, at);
            lemma_occurs_in_prefix(w1, b, marker, at);
            assert(occurs_at(w, marker, at));
        }
        if contains(w2, marker) {
            let at = choose|at: int| occurs_at(w2, marker, at);
            lemma_occurs_in_suffix(w, d, marker, at + d);
            assert(occurs_at(w, marker, at + d));
        }
    }
}

/// Scanning nothing changes nothing, and scanning keeps a watch well formed.
proof fn lemma_scan_nothing(f: FallbackState, chunk: Seq<u8>)
    requires
        fallback_formed(f),
    ensures
        scanned(f, seq![]) == f,
        fallback_formed(scanned(f, chunk)),
{
    if let Some(marker) = f.marker {
        assert(f.carry + Seq::<u8>::empty() =~= f.carry);
        assert(kept(f.carry, marker) =~= f.carry);
        if contains(f.carry, marker) {
            let at = choose|at: int| occurs_at(f.carry, marker, at);
            assert(false);
        }
    }
}

/// Over any number of reads, some of the event stream and some not, and
/// however that stream is cut into chunks, the bytes are all counted and the
/// fallback watch ends as one scan over the event stream joined would leave it.
pub proof fn law_fallback_over_reads(m: MonitorState, reads: Seq<(Seq<u8>, bool)>)
    requires
        fallback_formed(m.fallback),
    ensures
        observed_all(m, reads).fallback == scanned(m.fallback, scanned_stream(reads)),
        observed_all(m, reads).output_bytes == m.output_bytes + read_bytes(reads),
    decreases reads.len(),
{
    lemma_scan_nothing(m.fallback, seq![]);
    if reads.len() > 0 {
        let earlier = reads.drop_last();
        law_fallback_over_reads(m, earlier);
        lemma_scan_nothing(m.fallback, scanned_stream(earlier));
        if reads.last().1 {
            lemma_scan_concat(m.fallback, scanned_stream(earlier), reads.last().0);
        }
    }
}

/// A monitor that has seen nothing falls back, over any reads without a
/// restart among them, exactly when it has a marker and the event stream they
/// make holds it, wherever the chunks are cut.
pub proof fn law_fallback_is_the_marker_in_the_stream(
    marker: Option<Seq<u8>>,
    reads: Seq<(Seq<u8>, bool)>,
)
    requires
        marker matches Some(bytes) ==> bytes.len() >= 1,
    ensures
        observed_all(fresh(marker), reads).fallback.fell_back == (marker matches Some(bytes)
            && contains(scanned_stream(reads), bytes)),
{
    law_fallback_over_reads(fresh(marker), reads);
    assert(Seq::<u8>::empty() + scanned_stream(reads) =~= scanned_stream(reads));
}

/// The monitor made for `harness` falls back, over any reads without a
/// restart among them, exactly when the harness has a marker and the event
/// stream those reads make holds its bytes, wherever the chunks are cut.
pub proof fn law_a_new_monitor_falls_back_on_its_marker(
    harness: Seq<char>,
    reads: Seq<(Seq<u8>, bool)>,
)
    ensures
        observed_all(fresh(marker_bytes(harness)), reads).fallback.fell_back == (marker_bytes(
            harness,
        ) matches Some(bytes) && contains(scanned_stream(reads), bytes)),
{
    if fallback_marker_of(harness) is Some {
        reveal_strlit("\"subtype\":\"model_refusal_fallback\"");
        assert(CODE_REFUSAL_FALLBACK@.len() > 0);
        assert(encode_utf8(CODE_REFUSAL_FALLBACK@).len() > 0);
    }
    law_fallback_is_the_marker_in_the_stream(marker_bytes(harness), reads);
}

/// The repeats and the line read so far stay within the bytes counted.
proof fn lemma_read_bounds(s: LineState, piece: Seq<u8>, rest: Seq<u8>, total: nat)
    requires
        s.repeats + s.line_bytes + piece.len() + rest.len() <= total,
        (s.last_line is None) == (s.repeats == 0),
    ensures
        read_from(s, piece, rest).repeats + read_from(s, piece, rest).line_bytes <= total,
        (read_from(s, piece, rest).last_line is None) == (read_from(s, piece, rest).repeats == 0),
    decreases rest.len(),
{
    if rest.len() > 0 {
        if rest[0] == NEWLINE {
            lemma_read_bounds(completed(extended(s, piece)), seq![], rest.drop_first(), total);
        } else {
            lemma_read_bounds(s, piece.push(rest[0]), rest.drop_first(), total);
        }
    }
}

/// A monitor never stops being well formed, whatever it observes, and over
/// a restart.
pub proof fn law_well_formed_is_kept(m: MonitorState, chunk: Seq<u8>, scan_lines: bool)
    requires
        well_formed(m),
    ensures
        well_formed(observed(m, chunk, scan_lines)),
        well_formed(restarted(m)),
{
    lemma_scan_nothing(m.fallback, chunk);
    lemma_read_bounds(m.lines, seq![], chunk, m.output_bytes + chunk.len());
}

/// The output of the stream that is not scanned only counts: the lines and
/// the fallback watch stay as they were.
pub proof fn law_unscanned_output_only_counts(m: MonitorState, chunk: Seq<u8>)
    ensures
        observed(m, chunk, false).lines == m.lines,
        observed(m, chunk, false).fallback == m.fallback,
        observed(m, chunk, false).output_bytes == m.output_bytes + chunk.len(),
{
}

/// Once fallen back, a monitor stays so, a restart included; a monitor
/// without a marker never falls back.
pub proof fn law_fallback_is_kept(m: MonitorState, chunk: Seq<u8>, scan_lines: bool)
    ensures
        m.fallback.fell_back ==> observed(m, chunk, scan_lines).fallback.fell_back,
        m.fallback.fell_back ==> restarted(m).fallback.fell_back,
        m.fallback.marker is None ==> observed(m, chunk, scan_lines).fallback == m.fallback,
{
}

/// Reading more of the stream never clears the verdict that the run loops.
proof fn lemma_looping_is_kept(s: LineState, piece: Seq<u8>, rest: Seq<u8>)
    ensures
        s.doom_looping ==> read_from(s, piece, rest).doom_looping,
    decreases rest.len(),
{
    if rest.len() > 0 {
        if rest[0] == NEWLINE {
            lemma_looping_is_kept(completed(extended(s, piece)), seq![], rest.drop_first());
        } else {
            lemma_looping_is_kept(s, piece.push(rest[0]), rest.drop_first());
        }
    }
}

/// Once looping, a monitor stays so until the next restart.
pub proof fn law_looping_is_kept(m: MonitorState, chunk: Seq<u8>, scan_lines: bool)
    ensures
        m.lines.doom_looping ==> observed(m, chunk, scan_lines).lines.doom_looping,
{
    lemma_looping_is_kept(m.lines, seq![], chunk);
}

/// The newlines in `bytes`.
pub open spec fn newlines(bytes: Seq<u8>) -> nat
    decreases bytes.len(),
{
    if bytes.len() == 0 {
        0
    } else {
        (if bytes[0] == NEWLINE {
            1nat
        } else {
            0nat
        }) + newlines(bytes.drop_first())
    }
}

/// Without the verdict, fewer completed lines than the threshold, beyond the
/// repeats counted, cannot reach it.
proof fn lemma_too_few_lines(s: LineState, piece: Seq<u8>, rest: Seq<u8>)
    requires
        !s.doom_looping,
        s.repeats + newlines(rest) < REPEATED_LINE_THRESHOLD,
    ensures
        !read_from(s, piece, rest).doom_looping,
    decreases rest.len(),
{
    if rest.len() > 0 {
        if rest[0] == NEWLINE {
            lemma_too_few_lines(completed(extended(s, piece)), seq![], rest.drop_first());
        } else {
            lemma_too_few_lines(s, piece.push(rest[0]), rest.drop_first());
        }
    }
}

/// A restart starts the repeat detector over: after it, a chunk completing
/// fewer lines than the threshold does not mark a loop, whatever came before.
pub proof fn law_restart_forgets_the_loop(m: MonitorState, chunk: Seq<u8>, scan_lines: bool)
    requires
        newlines(chunk) < REPEATED_LINE_THRESHOLD,
    ensures
        !observed(restarted(m), chunk, scan_lines).lines.doom_looping,
        restarted(m).output_bytes == m.output_bytes,
        restarted(m).fallback.fell_back == m.fallback.fell_back,
        restarted(m).fallback.carry.len() == 0,
        restarted(m).lines.writes.len() == 0,
        restarted(m).lines.line_bytes == 0,
        !restarted(m).lines.doom_looping,
{
    lemma_too_few_lines(restarted(m).lines, seq![], chunk);
}

/// `line` and its newline, `count` times over.
pub open spec fn repeated(line: Seq<u8>, count: nat) -> Seq<u8>
    decreases count,
{
    if count == 0 {
        seq![]
    } else {
        repeated(line, (count - 1) as nat) + line.push(NEWLINE)
    }
}

/// The detector after `line` completed `count` times in a row.
pub open spec fn after_copies(s: LineState, line: Seq<u8>, count: nat) -> LineState
    decreases count,
{
    if count == 0 {
        s
    } else {
        completed(extended(after_copies(s, line, (count - 1) as nat), line))
    }
}

/// Reading a line a number of times over is completing it that many times.
proof fn lemma_read_copies(s: LineState, line: Seq<u8>, count: nat, more: Seq<u8>)
    requires
        forall|j: int| 0 <= j < line.len() ==> line[j] != NEWLINE,
    ensures
        read_from(s, seq![], repeated(line, count) + more) == read_from(
            after_copies(s, line, count),
            seq![],
            more,
        ),
    decreases count,
{
    if count == 0 {
        assert(repeated(line, 0) + more =~= more);
    } else {
        let tail = line.push(NEWLINE) + more;
        lemma_read_copies(s, line, (count - 1) as nat, tail);
        assert(repeated(line, count) + more =~= repeated(line, (count - 1) as nat) + tail);
        let t = after_copies(s, line, (count - 1) as nat);
        lemma_read_piece(t, seq![], line, seq![NEWLINE] + more);
        assert(tail =~= line + (seq![NEWLINE] + more));
        assert(Seq::<u8>::empty() + line =~= line);
        assert((seq![NEWLINE] + more).drop_first() =~= more);
    }
}

/// After a long line completed `count` times from an empty line, that line
/// is the one remembered, repeated at least `count` times, and a count at the
/// threshold was noted.
proof fn lemma_copies(s: LineState, line: Seq<u8>, count: nat)
    requires
        s.writes.len() == 0,
        s.line_bytes == 0,
        line.len() >= MINIMUM_LINE_BYTES,
        count >= 1,
        s.repeats >= REPEATED_LINE_THRESHOLD ==> s.doom_looping,
    ensures
        after_copies(s, line, count).writes.len() == 0,
        after_copies(s, line, count).line_bytes == 0,
        after_copies(s, line, count).last_line == Some(line_hash(seq![line])),
        after_copies(s, line, count).repeats >= count,
        after_copies(s, line, count).repeats >= REPEATED_LINE_THRESHOLD ==> after_copies(
            s,
            line,
            count,
        ).doom_looping,
    decreases count,
{
    if count > 1 {
        lemma_copies(s, line, (count - 1) as nat);
    }
    let before = after_copies(s, line, (count - 1) as nat);
    assert(before.writes.push(line) =~= seq![line]);
}

/// The same long line ten times in a row, begun on an empty line, marks the
/// run as looping.
pub proof fn law_ten_repeats_mark_a_loop(m: MonitorState, line: Seq<u8>)
    requires
        m.lines.writes.len() == 0,
        m.lines.line_bytes == 0,
        m.lines.repeats >= REPEATED_LINE_THRESHOLD ==> m.lines.doom_looping,
        line.len() >= MINIMUM_LINE_BYTES,
        forall|j: int| 0 <= j < line.len() ==> line[j] != NEWLINE,
    ensures
        observed(m, repeated(line, REPEATED_LINE_THRESHOLD as nat), true).lines.doom_looping,
{
    let chunk = repeated(line, REPEATED_LINE_THRESHOLD as nat);
    lemma_read_copies(m.lines, line, REPEATED_LINE_THRESHOLD as nat, seq![]);
    assert(chunk + Seq::<u8>::empty() =~= chunk);
    lemma_copies(m.lines, line, REPEATED_LINE_THRESHOLD as nat);
}

/// A line too short to count forgets the line before it.
pub proof fn law_short_lines_break_a_repeat(s: LineState)
    requires
        s.line_bytes < MINIMUM_LINE_BYTES,
    ensures
        completed(s).repeats == 0,
        completed(s).last_line is None,
{
}

/// Reads of the event stream, the `i`th of them `line` and its newline
/// `counts[i]` times over.
pub open spec fn reads_of_copies(line: Seq<u8>, counts: Seq<nat>) -> Seq<(Seq<u8>, bool)> {
    Seq::new(counts.len(), |i: int| (repeated(line, counts[i]), true))
}

/// The sum of `counts`.
pub open spec fn total(counts: Seq<nat>) -> nat
    decreases counts.len(),
{
    if counts.len() == 0 {
        0
    } else {
        total(counts.drop_last()) + counts.last()
    }
}

/// Completing a line `a` times and then `b` times is completing it `a + b`
/// times.
proof fn lemma_copies_add(s: LineState, line: Seq<u8>, a: nat, b: nat)
    ensures
        after_copies(after_copies(s, line, a), line, b) == after_copies(s, line, a + b),
    decreases b,
{
    if b > 0 {
        lemma_copies_add(s, line, a, (b - 1) as nat);
        assert((a + b - 1) as nat == a + (b - 1) as nat);
    }
}

/// Whole lines read in any number of reads complete the line as often as
/// they hold it, wherever the reads end.
proof fn lemma_reads_of_copies(m: MonitorState, line: Seq<u8>, counts: Seq<nat>)
    requires
        forall|j: int| 0 <= j < line.len() ==> line[j] != NEWLINE,
    ensures
        observed_all(m, reads_of_copies(line, counts)).lines == after_copies(
            m.lines,
            line,
            total(counts),
        ),
    decreases counts.len(),
{
    if counts.len() > 0 {
        let reads = reads_of_copies(line, counts);
        let earlier = counts.drop_last();
        assert(reads.drop_last() =~= reads_of_copies(line, earlier));
        lemma_reads_of_copies(m, line, earlier);
        let before = observed_all(m, reads_of_copies(line, earlier)).lines;
        let chunk = repeated(line, counts.last());
        lemma_read_copies(before, line, counts.last(), seq![]);
        assert(chunk + Seq::<u8>::empty() =~= chunk);
        let after = after_copies(before, line, counts.last());
        assert(extended(after, seq![]) == after);
        lemma_copies_add(m.lines, line, total(earlier), counts.last());
    }
}

/// The same long line completed ten times in a row marks the run as looping,
/// however many reads it arrives in: from a line boundary, reads that each
/// hold whole copies of the line, as many copies in all as the threshold or
/// more, leave the run looping; the copies counted never fall short of those
/// read.
pub proof fn law_repeats_across_reads(m: MonitorState, line: Seq<u8>, counts: Seq<nat>)
    requires
        m.lines.writes.len() == 0,
        m.lines.line_bytes == 0,
        m.lines.repeats >= REPEATED_LINE_THRESHOLD ==> m.lines.doom_looping,
        line.len() >= MINIMUM_LINE_BYTES,
        forall|j: int| 0 <= j < line.len() ==> line[j] != NEWLINE,
    ensures
        total(counts) >= 1 ==> observed_all(m, reads_of_copies(line, counts)).lines.repeats
            >= total(counts),
        total(counts) >= REPEATED_LINE_THRESHOLD ==> observed_all(
            m,
            reads_of_copies(line, counts),
        ).lines.doom_looping,
{
    lemma_reads_of_copies(m, line, counts);
    if total(counts) >= 1 {
        lemma_copies(m.lines, line, total(counts));
    }
}

} // verus!
