//! A byte stream consumed in units of one line or one JSON value.
//!
//! A [`Reader`] holds the bytes that its source has delivered and no read
//! has consumed yet. Each read consumes one unit at the cursor and never
//! looks behind it, so reads of both kinds can be mixed freely. The reader
//! performs no input itself: the host feeds it the bytes of the source and
//! closes it when the source is exhausted, and a read that cannot be decided
//! on the bytes at hand says so instead of guessing. A host that lets
//! several handles share one stream keeps one `Reader` behind a lock; every
//! read is then one call on it.

use vstd::prelude::*;
use vstd::slice::{slice_subrange, slice_to_vec};
use vstd::utf8::{decode_utf8, valid_utf8};

verus! {

/// The scripting runtime's dynamically typed value. Nothing is known of its
/// contents here; the reader only hands decoded values on.
#[verifier::external_type_specification]
#[verifier::external_body]
pub struct ExDynamic(rhai::Dynamic);

/// The line terminator.
pub open spec fn is_newline(b: u8) -> bool {
    b == 0x0a
}

/// The four bytes that JSON treats as insignificant whitespace.
pub open spec fn is_blank(b: u8) -> bool {
    b == 0x20 || b == 0x0a || b == 0x09 || b == 0x0d
}

/// The bytes that open a JSON value whose end is marked by a closing byte of
/// its own: an array, a string, an object.
pub open spec fn is_self_delimited(b: u8) -> bool {
    b == 0x5b || b == 0x22 || b == 0x7b
}

/// Length of the first line of `s`, terminator included; the whole of `s`
/// where it holds no terminator.
pub open spec fn line_len(s: Seq<u8>) -> nat
    decreases s.len(),
{
    if s.len() == 0 {
        0
    } else if is_newline(s[0]) {
        1
    } else {
        1 + line_len(s.skip(1))
    }
}

/// Whether the first line of `s` ends in a terminator.
pub open spec fn line_terminated(s: Seq<u8>) -> bool {
    line_len(s) > 0 && is_newline(s[line_len(s) - 1])
}

/// Number of whitespace bytes at the front of `s`.
pub open spec fn blank_run(s: Seq<u8>) -> nat
    decreases s.len(),
{
    if s.len() > 0 && is_blank(s[0]) {
        1 + blank_run(s.skip(1))
    } else {
        0
    }
}

/// `k` bytes without a terminator, then a terminator or the end, fix the
/// length of the first line.
pub proof fn lemma_line_len(s: Seq<u8>, k: int)
    requires
        0 <= k <= s.len(),
        forall|j: int| 0 <= j < k ==> !is_newline(#[trigger] s[j]),
        k == s.len() || is_newline(s[k]),
    ensures
        line_len(s) == (if k == s.len() { k } else { k + 1 }),
        line_terminated(s) == (k < s.len()),
    decreases k,
{
    if k > 0 {
        let t = s.skip(1);
        assert forall|j: int| 0 <= j < k - 1 implies !is_newline(#[trigger] t[j]) by {
            assert(t[j] == s[j + 1]);
        }
        lemma_line_len(t, k - 1);
        assert(line_len(s) == 1 + line_len(t));
        if k < s.len() {
            assert(t[k - 1] == s[k]);
            assert(t[line_len(t) - 1] == s[line_len(s) - 1]);
        } else {
            if line_len(t) > 0 {
                assert(t[line_len(t) - 1] == s[line_len(s) - 1]);
            }
        }
    }
}

/// `k` whitespace bytes, then another byte or the end, fix the length of the
/// leading whitespace.
pub proof fn lemma_blank_run(s: Seq<u8>, k: int)
    requires
        0 <= k <= s.len(),
        forall|j: int| 0 <= j < k ==> is_blank(#[trigger] s[j]),
        k == s.len() || !is_blank(s[k]),
    ensures
        blank_run(s) == k,
    decreases k,
{
    if k > 0 {
        let t = s.skip(1);
        assert forall|j: int| 0 <= j < k - 1 implies is_blank(#[trigger] t[j]) by {
            assert(t[j] == s[j + 1]);
        }
        if k < s.len() {
            assert(t[k - 1] == s[k]);
        }
        lemma_blank_run(t, k - 1);
    }
}

/// The first line is never longer than the bytes at hand.
pub proof fn lemma_line_len_bound(s: Seq<u8>)
    ensures
        line_len(s) <= s.len(),
        s.len() > 0 ==> line_len(s) > 0,
    decreases s.len(),
{
    if s.len() > 0 && !is_newline(s[0]) {
        lemma_line_len_bound(s.skip(1));
    }
}

/// The leading whitespace is whitespace throughout and never longer than
/// the bytes at hand, and the byte behind it, if there is one, is no
/// whitespace.
pub proof fn lemma_blank_run_bound(s: Seq<u8>)
    ensures
        blank_run(s) <= s.len(),
        blank_run(s) < s.len() ==> !is_blank(s[blank_run(s) as int]),
        forall|j: int| 0 <= j < blank_run(s) ==> is_blank(#[trigger] s[j]),
    decreases s.len(),
{
    if s.len() > 0 && is_blank(s[0]) {
        let t = s.skip(1);
        lemma_blank_run_bound(t);
        if blank_run(t) < t.len() {
            assert(t[blank_run(t) as int] == s[blank_run(s) as int]);
        }
        assert forall|j: int| 0 <= j < blank_run(s) implies is_blank(#[trigger] s[j]) by {
            if j > 0 {
                assert(s[j] == t[j - 1]);
            }
        }
    }
}

/// What one attempt to read a line came to.
#[derive(Debug, PartialEq, Eq)]
pub enum LineStep {
    /// The next line, terminator included. Only the last line of a closed
    /// stream can lack the terminator.
    Line(String),
    /// The stream is closed and nothing is left of it.
    End,
    /// No terminator is at hand and the source may still deliver one.
    NeedMore,
    /// The bytes of the line are not UTF-8. They have been consumed.
    InvalidText,
}

/// `LineStep` with the text as a sequence of characters.
pub enum LineView {
    Line(Seq<char>),
    End,
    NeedMore,
    InvalidText,
}

impl View for LineStep {
    type V = LineView;

    open spec fn view(&self) -> LineView {
        match self {
            LineStep::Line(text) => LineView::Line(text@),
            LineStep::End => LineView::End,
            LineStep::NeedMore => LineView::NeedMore,
            LineStep::InvalidText => LineView::InvalidText,
        }
    }
}

/// What one attempt to read a JSON value came to.
#[derive(Debug)]
pub enum JsonStep {
    /// The next value. The stream stands just behind its last byte.
    Value(rhai::Dynamic),
    /// The stream is closed and held nothing but whitespace.
    End,
    /// The bytes at hand do not settle where the value ends, and the source
    /// may still deliver more.
    NeedMore,
    /// The stream is closed in the middle of a value.
    Truncated,
    /// The bytes at hand cannot begin a JSON value.
    Malformed,
}

/// `JsonStep` without the decoded value.
#[derive(Debug, Clone, Copy, PartialEq, Eq, Structural)]
pub enum JsonOutcome {
    Value,
    End,
    NeedMore,
    Truncated,
    Malformed,
}

impl JsonStep {
    /// Which of the five outcomes this step is.
    pub open spec fn outcome(&self) -> JsonOutcome {
        match self {
            JsonStep::Value(_) => JsonOutcome::Value,
            JsonStep::End => JsonOutcome::End,
            JsonStep::NeedMore => JsonOutcome::NeedMore,
            JsonStep::Truncated => JsonOutcome::Truncated,
            JsonStep::Malformed => JsonOutcome::Malformed,
        }
    }

    /// Which of the five outcomes this step is.
    pub fn kind(&self) -> (k: JsonOutcome)
        ensures
            k == self.outcome(),
    {
        match self {
            JsonStep::Value(_) => JsonOutcome::Value,
            JsonStep::End => JsonOutcome::End,
            JsonStep::NeedMore => JsonOutcome::NeedMore,
            JsonStep::Truncated => JsonOutcome::Truncated,
            JsonStep::Malformed => JsonOutcome::Malformed,
        }
    }
}

/// What the JSON decoder makes of bytes that begin with a byte other than
/// whitespace: `Ok(n)` where the first `n` bytes are one value, `Err(true)`
/// where the bytes end inside a value, `Err(false)` where they cannot begin
/// one.
pub uninterp spec fn json_scan(bytes: Seq<u8>) -> Result<usize, bool>;

/// What a decoding attempt on the bytes at hand means for the stream.
#[derive(Debug, Clone, Copy, PartialEq, Eq, Structural)]
pub enum Verdict {
    /// A value ends after this many bytes: consume them.
    Take(usize),
    /// Wait for more bytes.
    Wait,
    /// The stream ended inside a value.
    Truncated,
    /// No value begins here.
    Malformed,
}

/// The rule behind [`verdict`]. `first` is the first byte at hand, `avail`
/// their number, `closed` whether the source is exhausted, `scan` what the
/// decoder made of them.
///
/// A decoded value is taken unless it reaches the last byte at hand, has no
/// closing byte of its own and the source may still extend it. Bytes that
/// end inside a value are an error only once the source is exhausted.
pub open spec fn verdict_of(first: u8, avail: usize, closed: bool, scan: Result<usize, bool>) -> Verdict {
    match scan {
        Ok(used) => if used >= avail && !closed && !is_self_delimited(first) {
            Verdict::Wait
        } else {
            Verdict::Take(used)
        },
        Err(true) => if closed {
            Verdict::Truncated
        } else {
            Verdict::Wait
        },
        Err(false) => Verdict::Malformed,
    }
}

/// Decides what a decoding attempt on the bytes at hand means for the
/// stream.
pub fn verdict(first: u8, avail: usize, closed: bool, scan: Result<usize, bool>) -> (v: Verdict)
    ensures
        v == verdict_of(first, avail, closed, scan),
{
    match scan {
        Ok(used) => {
            let delimited = first == 0x5b || first == 0x22 || first == 0x7b;
            if used >= avail && !closed && !delimited {
                Verdict::Wait
            } else {
                Verdict::Take(used)
            }
        },
        Err(at_end) => {
            if !at_end {
                Verdict::Malformed
            } else if closed {
                Verdict::Truncated
            } else {
                Verdict::Wait
            }
        },
    }
}

/// What a line read does on the unconsumed bytes `rest`: the number of bytes
/// that it consumes and its result.
pub open spec fn line_effect(rest: Seq<u8>, closed: bool) -> (nat, LineView) {
    if !line_terminated(rest) && !closed {
        (0, LineView::NeedMore)
    } else if rest.len() == 0 {
        (0, LineView::End)
    } else {
        let chunk = rest.take(line_len(rest) as int);
        if valid_utf8(chunk) {
            (line_len(rest), LineView::Line(decode_utf8(chunk)))
        } else {
            (line_len(rest), LineView::InvalidText)
        }
    }
}

/// What a JSON read does on the unconsumed bytes `rest`, given what the
/// decoder makes of them behind their leading whitespace: the number of
/// bytes that it consumes and its outcome. Leading whitespace is consumed
/// whatever the outcome.
pub open spec fn json_effect(rest: Seq<u8>, closed: bool, scan: Result<usize, bool>) -> (nat, JsonOutcome) {
    let ws = blank_run(rest);
    if ws >= rest.len() {
        (ws, if closed { JsonOutcome::End } else { JsonOutcome::NeedMore })
    } else {
        match verdict_of(rest[ws as int], (rest.len() - ws) as usize, closed, scan) {
            Verdict::Take(used) => (ws + used as nat, JsonOutcome::Value),
            Verdict::Wait => (ws, JsonOutcome::NeedMore),
            Verdict::Truncated => (ws, JsonOutcome::Truncated),
            Verdict::Malformed => (ws, JsonOutcome::Malformed),
        }
    }
}

/// The decoder's answer on a run of bytes.
enum Decoded {
    Blank,
    Value(rhai::Dynamic, usize),
    Truncated,
    Malformed,
}

/// Calls `serde_json::Deserializer::from_slice(bytes).into_iter()` for
/// `rhai::Dynamic` and asks the stream for its first item and, after a
/// value, for `byte_offset()`.
///
/// Trusted: the stream yields nothing exactly when `bytes` is whitespace
/// throughout; otherwise its answer is `json_scan(bytes)`, an error counting
/// as truncation where `is_eof()` holds of it; the offset behind a value lies
/// behind the leading whitespace and within `bytes`.
#[verifier::external_body]
fn decode_prefix(bytes: &[u8]) -> (found: Decoded)
    ensures
        found is Blank <==> blank_run(bytes@) >= bytes@.len(),
        found matches Decoded::Value(_, used) ==> (json_scan(bytes@) matches Ok(n) && n == used)
            && blank_run(bytes@) < used <= bytes@.len(),
        found is Truncated ==> (json_scan(bytes@) matches Err(at_end) && at_end),
        found is Malformed ==> (json_scan(bytes@) matches Err(at_end) && !at_end),
{
    let mut stream = serde_json::Deserializer::from_slice(bytes).into_iter::<rhai::Dynamic>();
    match stream.next() {
        None => Decoded::Blank,
        Some(Ok(value)) => Decoded::Value(value, stream.byte_offset()),
        Some(Err(e)) => if e.is_eof() {
            Decoded::Truncated
        } else {
            Decoded::Malformed
        },
    }
}

/// Calls `String::from_utf8`.
///
/// Trusted: it succeeds exactly on valid UTF-8, and the string then holds
/// the characters that the bytes encode.
#[verifier::external_body]
fn text_of(bytes: Vec<u8>) -> (text: Option<String>)
    ensures
        text is Some <==> valid_utf8(bytes@),
        text matches Some(t) ==> t@ == decode_utf8(bytes@),
{
    String::from_utf8(bytes).ok()
}

/// A byte stream with a cursor.
///
/// `stream()` is every byte that the source has delivered, `position()` the
/// number of them that reads have consumed, and `is_closed()` tells that the
/// source will deliver no more.
pub struct Reader {
    /// The bytes that reads may still need: those not consumed, behind a
    /// consumed prefix of length `pos` that the next `feed` drops.
    buf: Vec<u8>,
    pos: usize,
    closed: bool,
    /// The bytes dropped from the front of `buf`.
    past: Ghost<Seq<u8>>,
}

impl Reader {
    /// Every byte delivered so far, consumed or not.
    pub closed spec fn stream(&self) -> Seq<u8> {
        self.past@ + self.buf@
    }

    /// The number of bytes consumed so far.
    pub closed spec fn position(&self) -> nat {
        (self.past@.len() + self.pos) as nat
    }

    /// Whether the source is exhausted.
    pub closed spec fn is_closed(&self) -> bool {
        self.closed
    }

    /// The cursor lies within the stream.
    pub closed spec fn wf(&self) -> bool {
        self.pos <= self.buf.len()
    }

    /// The bytes not yet consumed.
    pub open spec fn rest(&self) -> Seq<u8> {
        self.stream().skip(self.position() as int)
    }

    /// A reader on a source that has delivered nothing yet.
    pub fn new() -> (r: Reader)
        ensures
            r.wf(),
            r.stream() == Seq::<u8>::empty(),
            r.position() == 0,
            !r.is_closed(),
    {
        let r = Reader { buf: Vec::new(), pos: 0, closed: false, past: Ghost(Seq::empty()) };
        assert(r.stream() =~= Seq::<u8>::empty());
        r
    }

    /// A reader on a source that consists of `bytes` and is exhausted.
    pub fn from_bytes(bytes: Vec<u8>) -> (r: Reader)
        ensures
            r.wf(),
            r.stream() == bytes@,
            r.position() == 0,
            r.is_closed(),
    {
        let r = Reader { buf: bytes, pos: 0, closed: true, past: Ghost(Seq::empty()) };
        assert(r.stream() =~= bytes@);
        r
    }

    /// The cursor never passes the end of what was delivered.
    pub proof fn lemma_cursor_within(&self)
        requires
            self.wf(),
        ensures
            self.position() <= self.stream().len(),
    {
    }

    /// What is left to read is what is held behind the cursor.
    proof fn lemma_rest(&self)
        requires
            self.wf(),
        ensures
            self.rest() == self.buf@.skip(self.pos as int),
            self.position() <= self.stream().len(),
    {
        assert(self.rest() =~= self.buf@.skip(self.pos as int));
    }

    /// Appends what the source delivered. A closed reader takes nothing and
    /// answers `false`.
    pub fn feed(&mut self, chunk: &[u8]) -> (taken: bool)
        requires
            old(self).wf(),
        ensures
            final(self).wf(),
            taken == !old(self).is_closed(),
            final(self).stream() == (if taken { old(self).stream() + chunk@ } else { old(self).stream() }),
            final(self).position() == old(self).position(),
            final(self).is_closed() == old(self).is_closed(),
    {
        if self.closed {
            return false;
        }
        if self.pos > 0 {
            let n = self.buf.len();
            let kept = slice_to_vec(slice_subrange(self.buf.as_slice(), self.pos, n));
            proof {
                self.past = Ghost(self.past@ + self.buf@.take(self.pos as int));
            }
            self.buf = kept;
            self.pos = 0;
            assert(self.stream() =~= old(self).stream());
        }
        self.buf.extend_from_slice(chunk);
        assert(self.stream() =~= old(self).stream() + chunk@);
        true
    }

    /// Records that the source is exhausted.
    pub fn close(&mut self)
        requires
            old(self).wf(),
        ensures
            final(self).wf(),
            final(self).is_closed(),
            final(self).stream() == old(self).stream(),
            final(self).position() == old(self).position(),
    {
        self.closed = true;
    }

    /// Whether the source is exhausted.
    pub fn closed(&self) -> (c: bool)
        ensures
            c == self.is_closed(),
    {
        self.closed
    }

    /// The number of bytes at hand that no read has consumed.
    pub fn pending(&self) -> (n: usize)
        requires
            self.wf(),
        ensures
            n == self.rest().len(),
    {
        proof {
            self.lemma_rest();
        }
        self.buf.len() - self.pos
    }
}

/// Reads the next line, terminator included.
///
/// With a terminator at hand the line up to it is consumed. Without one
/// an open reader answers `NeedMore` and consumes nothing; a closed one
/// hands out what is left as the last line, or `End` when nothing is
/// left, however often it is asked. A line that is not UTF-8 is consumed
/// and reported as `InvalidText`.
pub fn line(reader: &mut Reader) -> (step: LineStep)
    requires
        old(reader).wf(),
    ensures
        final(reader).wf(),
        final(reader).stream() == old(reader).stream(),
        final(reader).is_closed() == old(reader).is_closed(),
        final(reader).position() == old(reader).position() + line_effect(
            old(reader).rest(),
            old(reader).is_closed(),
        ).0,
        step@ == line_effect(old(reader).rest(), old(reader).is_closed()).1,
        final(reader).position() <= final(reader).stream().len(),
{
    let n = reader.buf.len();
    let start = reader.pos;
    let ghost rest = reader.buf@.skip(start as int);
    proof {
        reader.lemma_rest();
    }
    let mut end: usize = start;
    while end < n && reader.buf[end] != 0x0a
        invariant
            start <= end <= n,
            n == reader.buf.len(),
            forall|j: int| start <= j < end ==> !is_newline(#[trigger] reader.buf@[j]),
        decreases n - end,
    {
        end += 1;
    }
    proof {
        assert forall|j: int| 0 <= j < end - start implies !is_newline(#[trigger] rest[j]) by {
            assert(rest[j] == reader.buf@[start + j]);
        }
        lemma_line_len(rest, end - start);
    }
    if end == n && !reader.closed {
        return LineStep::NeedMore;
    }
    if end == start && end == n {
        return LineStep::End;
    }
    let stop: usize = if end < n { end + 1 } else { end };
    let chunk = slice_to_vec(slice_subrange(reader.buf.as_slice(), start, stop));
    assert(chunk@ =~= rest.take(line_len(rest) as int));
    reader.pos = stop;
    match text_of(chunk) {
        Some(text) => LineStep::Line(text),
        None => LineStep::InvalidText,
    }
}

/// Reads the next JSON value.
///
/// Leading whitespace is consumed in every case. With nothing behind it
/// a closed reader answers `End`, however often it is asked, and an open
/// one `NeedMore`. Otherwise the decoder is run on the bytes behind the
/// whitespace and [`verdict_of`] decides: a value is handed out and
/// exactly its bytes are consumed, or nothing more is consumed and the
/// step tells why.
pub fn json(reader: &mut Reader) -> (step: JsonStep)
    requires
        old(reader).wf(),
    ensures
        final(reader).wf(),
        final(reader).stream() == old(reader).stream(),
        final(reader).is_closed() == old(reader).is_closed(),
        final(reader).position() == old(reader).position() + json_effect(
            old(reader).rest(),
            old(reader).is_closed(),
            json_scan(old(reader).rest().skip(blank_run(old(reader).rest()) as int)),
        ).0,
        step.outcome() == json_effect(
            old(reader).rest(),
            old(reader).is_closed(),
            json_scan(old(reader).rest().skip(blank_run(old(reader).rest()) as int)),
        ).1,
        final(reader).position() <= final(reader).stream().len(),
{
    let n = reader.buf.len();
    let start = reader.pos;
    let ghost rest = reader.buf@.skip(start as int);
    proof {
        reader.lemma_rest();
    }
    let mut at: usize = start;
    while at < n && (reader.buf[at] == 0x20 || reader.buf[at] == 0x0a || reader.buf[at] == 0x09
        || reader.buf[at] == 0x0d)
        invariant
            start <= at <= n,
            n == reader.buf.len(),
            forall|j: int| start <= j < at ==> is_blank(#[trigger] reader.buf@[j]),
        decreases n - at,
    {
        at += 1;
    }
    proof {
        assert forall|j: int| 0 <= j < at - start implies is_blank(#[trigger] rest[j]) by {
            assert(rest[j] == reader.buf@[start + j]);
        }
        lemma_blank_run(rest, at - start);
    }
    reader.pos = at;
    if at == n {
        return if reader.closed { JsonStep::End } else { JsonStep::NeedMore };
    }
    let first = reader.buf[at];
    let body = slice_subrange(reader.buf.as_slice(), at, n);
    assert(body@ =~= rest.skip(blank_run(rest) as int));
    proof {
        lemma_blank_run(body@, 0);
    }
    match decode_prefix(body) {
        Decoded::Value(value, used) => {
            match verdict(first, n - at, reader.closed, Ok(used)) {
                Verdict::Take(_) => {
                    reader.pos = at + used;
                    JsonStep::Value(value)
                },
                _ => JsonStep::NeedMore,
            }
        },
        Decoded::Truncated => {
            if reader.closed {
                JsonStep::Truncated
            } else {
                JsonStep::NeedMore
            }
        },
        Decoded::Malformed => JsonStep::Malformed,
        Decoded::Blank => JsonStep::End,
    }
}

/// The bytes between consecutive marks, joined in order. Each mark is the
/// cursor after one read, the first the cursor before any of them.
pub open spec fn joined(stream: Seq<u8>, marks: Seq<int>) -> Seq<u8>
    decreases marks.len(),
{
    if marks.len() < 2 {
        Seq::empty()
    } else {
        joined(stream, marks.drop_last()) + stream.subrange(
            marks[marks.len() - 2],
            marks[marks.len() - 1],
        )
    }
}

/// Reads consume the stream once and in order. Every read, of either kind
/// and through whichever handle, starts where the read before it stopped
/// and never moves the cursor back; so what a run of reads consumed, joined
/// in the order of the reads, is the stream from the first cursor to the
/// last: no byte is lost, none comes twice, none changes place.
pub proof fn lemma_reads_partition(stream: Seq<u8>, marks: Seq<int>)
    requires
        marks.len() >= 1,
        forall|i: int| 0 <= i < marks.len() ==> 0 <= #[trigger] marks[i] <= stream.len(),
        forall|i: int, j: int| 0 <= i <= j < marks.len() ==> marks[i] <= marks[j],
    ensures
        joined(stream, marks) == stream.subrange(marks[0], marks[marks.len() - 1]),
    decreases marks.len(),
{
    if marks.len() < 2 {
        assert(stream.subrange(marks[0], marks[0]) =~= Seq::<u8>::empty());
    } else {
        let head = marks.drop_last();
        lemma_reads_partition(stream, head);
        let a = marks[0];
        let b = marks[marks.len() - 2];
        let c = marks[marks.len() - 1];
        assert(head[0] == a && head[head.len() - 1] == b);
        assert(stream.subrange(a, b) + stream.subrange(b, c) =~= stream.subrange(a, c));
    }
}

/// A line read consumes no more than is at hand, and hands out something
/// exactly when it consumes something.
pub proof fn lemma_line_effect_bounds(rest: Seq<u8>, closed: bool)
    ensures
        line_effect(rest, closed).0 <= rest.len(),
        line_effect(rest, closed).0 > 0 <==> (line_effect(rest, closed).1 is Line || line_effect(
            rest,
            closed,
        ).1 is InvalidText),
{
    lemma_line_len_bound(rest);
}

/// A line holds no terminator but at its end, and a line without one
/// reaches to the end of the bytes at hand.
pub proof fn lemma_line_shape(s: Seq<u8>)
    ensures
        forall|j: int| 0 <= j < line_len(s) - 1 ==> !is_newline(#[trigger] s[j]),
        !line_terminated(s) ==> line_len(s) == s.len() && forall|j: int|
            0 <= j < s.len() ==> !is_newline(#[trigger] s[j]),
    decreases s.len(),
{
    if s.len() > 0 && !is_newline(s[0]) {
        let t = s.skip(1);
        lemma_line_shape(t);
        lemma_line_len_bound(t);
        assert forall|j: int| 0 <= j < line_len(s) - 1 implies !is_newline(#[trigger] s[j]) by {
            if j > 0 {
                assert(s[j] == t[j - 1]);
            }
        }
        if line_len(t) > 0 {
            assert(t[line_len(t) - 1] == s[line_len(s) - 1]);
        }
        if !line_terminated(s) {
            assert(!line_terminated(t));
            assert forall|j: int| 0 <= j < s.len() implies !is_newline(#[trigger] s[j]) by {
                if j > 0 {
                    assert(s[j] == t[j - 1]);
                }
            }
        }
    }
}

/// A line read hands out a line without terminator only as the last of a
/// closed stream.
pub proof fn lemma_unterminated_line_is_last(rest: Seq<u8>, closed: bool)
    requires
        line_effect(rest, closed).0 > 0,
        !line_terminated(rest),
    ensures
        closed,
        line_effect(rest, closed).0 == rest.len(),
{
    lemma_line_shape(rest);
}

/// Once a closed stream is exhausted, every read of either kind answers
/// `End` and consumes nothing, so the next read finds the same.
pub proof fn lemma_end_is_final(rest: Seq<u8>, scan: Result<usize, bool>)
    requires
        rest.len() == 0,
    ensures
        line_effect(rest, true) == (0nat, LineView::End),
        json_effect(rest, true, scan) == (0nat, JsonOutcome::End),
{
}

/// `End` is never an answer while bytes that a read of that kind would
/// hand out are left, nor on an open stream: a line read answers it only on
/// an exhausted closed stream, a JSON read only on a closed stream that
/// holds nothing but whitespace, which it consumes.
pub proof fn lemma_end_only_when_exhausted(rest: Seq<u8>, closed: bool, scan: Result<usize, bool>)
    ensures
        line_effect(rest, closed).1 is End <==> closed && rest.len() == 0,
        json_effect(rest, closed, scan).1 == JsonOutcome::End <==> closed && blank_run(rest)
            == rest.len(),
        json_effect(rest, closed, scan).1 == JsonOutcome::End ==> json_effect(rest, closed, scan).0
            == rest.len(),
{
    lemma_line_len_bound(rest);
    lemma_blank_run_bound(rest);
}

/// A JSON read that hands out no value consumes the leading whitespace and
/// nothing else; one that hands out a value consumes the whitespace and
/// the value's bytes.
pub proof fn lemma_json_effect_whitespace(rest: Seq<u8>, closed: bool, scan: Result<usize, bool>)
    ensures
        json_effect(rest, closed, scan).0 >= blank_run(rest),
        json_effect(rest, closed, scan).1 != JsonOutcome::Value ==> json_effect(rest, closed, scan).0
            == blank_run(rest),
        json_effect(rest, closed, scan).1 == JsonOutcome::Value ==> scan is Ok && json_effect(
            rest,
            closed,
            scan,
        ).0 == blank_run(rest) + scan->Ok_0,
{
}

} // verus!
