//! The framed reader: a state machine that turns the process's primary
//! output stream into message and log events.
//!
//! The reader loops over three states.  Waiting for a header it reads one
//! line: a blank line is skipped, a length header announces a body, and any
//! other line is published as a raw log line.  After a length header it
//! discards exactly one further line as the end-of-header separator.  It
//! then consumes exactly the declared number of body bytes; a body that
//! decodes as UTF-8 is published as a message, a short read or a decode
//! failure drops the frame silently.

use vstd::prelude::*;

use crate::framing::classify;
use crate::framing::classify_header_line;
use crate::framing::copy_range;
use crate::framing::crlf;
use crate::framing::dec_digits;
use crate::framing::declared_len;
use crate::framing::frame_bytes;
use crate::framing::header_prefix;
use crate::framing::is_digit;
use crate::framing::is_length_header;
use crate::framing::is_ws;
use crate::framing::lemma_dec_digits;
use crate::framing::strip_eol;
use crate::framing::strip_eol_line;
use crate::framing::trim_end;
use crate::framing::HeaderLine;
use crate::text::utf8_to_string;
use vstd::utf8::decode_utf8;
use vstd::utf8::valid_utf8;

verus! {

/// One event of the wire model: the bytes of a message body whose frame was
/// read whole and decoded, or a raw log line (its end-of-line marker
/// removed, nothing else).
#[verifier::ext_equal]
pub enum Event {
    Message(Seq<u8>),
    Log(Seq<u8>),
}

/// The length of the first line of a stream: everything up to and including
/// the first line feed, or the whole stream when none remains.
pub open spec fn line_len(s: Seq<u8>) -> nat
    decreases s.len(),
{
    if s.len() == 0 {
        0
    } else if s[0] == 10 {
        1
    } else {
        1 + line_len(s.drop_first())
    }
}

/// A stream's first line is never empty and never longer than the stream.
pub proof fn lemma_line_len_bounds(s: Seq<u8>)
    ensures
        s.len() > 0 ==> 1 <= line_len(s) <= s.len(),
        s.len() == 0 ==> line_len(s) == 0,
    decreases s.len(),
{
    if s.len() > 0 && s[0] != 10 {
        lemma_line_len_bounds(s.drop_first());
    }
}

/// The events a body read produces: one message when the declared bytes
/// arrived whole and decode as UTF-8, none otherwise.
pub open spec fn body_events(body: Seq<u8>) -> Seq<Event> {
    if valid_utf8(body) {
        seq![Event::Message(body)]
    } else {
        Seq::empty()
    }
}

/// The events the framed reader publishes for a complete output stream,
/// from the byte after the last one consumed.  Each step takes a header
/// line; a length header then takes one separator line and exactly the
/// declared number of body bytes.  A stream that closes before the separator
/// line or before the body is complete drops the pending frame and produces
/// nothing further.
pub open spec fn parse(s: Seq<u8>) -> Seq<Event>
    decreases s.len(),
    via parse_decreases
{
    if s.len() == 0 {
        Seq::empty()
    } else {
        let line = s.subrange(0, line_len(s) as int);
        let rest = s.subrange(line_len(s) as int, s.len() as int);
        let t = trim_end(line);
        if t.len() == 0 {
            parse(rest)
        } else if is_length_header(t) {
            if rest.len() == 0 {
                // the stream closed before the separator line: frame dropped
                Seq::empty()
            } else {
                let n = declared_len(t) as int;
                let rest2 = rest.subrange(line_len(rest) as int, rest.len() as int);
                if rest2.len() >= n {
                    body_events(rest2.subrange(0, n)) + parse(
                        rest2.subrange(n, rest2.len() as int),
                    )
                } else {
                    Seq::empty()
                }
            }
        } else {
            seq![Event::Log(strip_eol(line))] + parse(rest)
        }
    }
}

#[via_fn]
proof fn parse_decreases(s: Seq<u8>) {
    lemma_line_len_bounds(s);
    if s.len() > 0 {
        lemma_line_len_bounds(s.subrange(line_len(s) as int, s.len() as int));
    }
}

/// The first line of a stream ends just past its first line feed.
pub proof fn lemma_line_len_at(s: Seq<u8>, k: int)
    requires
        0 <= k < s.len(),
        s[k] == 10,
        forall|j: int| 0 <= j < k ==> s[j] != 10,
    ensures
        line_len(s) == k + 1,
    decreases k,
{
    if k > 0 {
        lemma_line_len_at(s.drop_first(), k - 1);
    }
}

/// A stream without a line feed is one line.
pub proof fn lemma_line_len_whole(s: Seq<u8>)
    requires
        forall|j: int| 0 <= j < s.len() ==> s[j] != 10,
    ensures
        line_len(s) == s.len(),
    decreases s.len(),
{
    if s.len() > 0 {
        lemma_line_len_whole(s.drop_first());
    }
}

/// Where the framed reader stands in the stream.
#[derive(Clone, Copy, PartialEq, Eq, Structural, Debug)]
pub enum ReaderMode {
    /// Waiting for a header line.
    Header,
    /// A length header arrived; the next line is discarded as the separator.
    Separator { declared: usize },
    /// The header block ended; exactly `declared` body bytes follow.
    Body { declared: usize },
}

/// The framed reader's state.  The caller reads the stream (one line while
/// no body is pending, otherwise exactly the pending byte count) and feeds
/// what arrived; the reader decides what to publish.
pub struct FramedReader {
    pub mode: ReaderMode,
}

impl FramedReader {
    /// A fresh reader, waiting for a header line.
    pub fn new() -> (r: Self)
        ensures
            r.mode is Header,
    {
        FramedReader { mode: ReaderMode::Header }
    }

    /// How many body bytes the reader needs next; `None` while it reads
    /// lines.
    pub fn body_needed(&self) -> (r: Option<usize>)
        ensures
            self.mode matches ReaderMode::Body { declared } ==> r == Some(declared),
            !(self.mode is Body) ==> r is None,
    {
        match self.mode {
            ReaderMode::Body { declared } => Some(declared),
            _ => None,
        }
    }

    /// Feeds one line read from the stream while no body is pending.  A raw
    /// log line comes back for publication, with its end-of-line marker
    /// removed and nothing else; blank lines, length headers, and the
    /// separator line after a header produce nothing.
    pub fn feed_line(&mut self, line: &Vec<u8>) -> (r: Option<Vec<u8>>)
        requires
            !(old(self).mode is Body),
        ensures
            old(self).mode matches ReaderMode::Separator { declared } ==> final(self).mode == (
            ReaderMode::Body { declared }) && r is None,
            old(self).mode is Header && classify(line@) is Blank ==> final(self).mode is Header
                && r is None,
            old(self).mode is Header ==> (classify(line@) matches HeaderLine::Length { declared }
                ==> final(self).mode == (ReaderMode::Separator { declared }) && r is None),
            old(self).mode is Header && classify(line@) is Raw ==> final(self).mode is Header && (
            r matches Some(l) && l@ == strip_eol(line@)),
    {
        match self.mode {
            ReaderMode::Separator { declared } => {
                self.mode = ReaderMode::Body { declared };
                None
            },
            _ => {
                match classify_header_line(line) {
                    HeaderLine::Blank => None,
                    HeaderLine::Length { declared } => {
                        self.mode = ReaderMode::Separator { declared };
                        None
                    },
                    HeaderLine::Raw => Some(strip_eol_line(line)),
                }
            },
        }
    }

    /// Completes a frame with exactly the declared body bytes: the decoded
    /// message comes back for publication, or nothing when the bytes are not
    /// valid UTF-8 and the frame is dropped silently.
    pub fn feed_body(&mut self, body: Vec<u8>) -> (r: Option<String>)
        requires
            old(self).mode matches ReaderMode::Body { declared } && body@.len() == declared,
        ensures
            final(self).mode is Header,
            r is Some <==> valid_utf8(body@),
            r matches Some(s) ==> s@ == decode_utf8(body@),
    {
        self.mode = ReaderMode::Header;
        utf8_to_string(body)
    }

    /// Abandons the pending frame after a short body read: the stream closed
    /// before the declared byte count arrived, so no message is published
    /// and the reader waits for a header again.
    pub fn body_short(&mut self)
        requires
            old(self).mode is Body,
        ensures
            final(self).mode is Header,
    {
        self.mode = ReaderMode::Header;
    }
}

/// Finds the end of the line that starts at `pos`: the index just past the
/// next line feed, or the end of the stream when none is left.
pub(crate) fn next_line(stream: &Vec<u8>, pos: usize) -> (end: usize)
    requires
        pos <= stream@.len(),
    ensures
        pos <= end <= stream@.len(),
        end - pos == line_len(stream@.subrange(pos as int, stream@.len() as int)),
{
    let mut i: usize = pos;
    while i < stream.len() && stream[i] != 10
        invariant
            pos <= i <= stream@.len(),
            forall|j: int| pos <= j < i ==> stream@[j] != 10,
        decreases stream@.len() - i,
    {
        i = i + 1;
    }
    let ghost rem = stream@.subrange(pos as int, stream@.len() as int);
    if i < stream.len() {
        proof {
            lemma_line_len_at(rem, i as int - pos as int);
        }
        i + 1
    } else {
        proof {
            lemma_line_len_whole(rem);
        }
        i
    }
}

/// An event the output relay publishes: a decoded message body, or a raw
/// log line that did not parse as a frame header.
#[derive(PartialEq, Eq, Debug)]
pub enum OutputEvent {
    Message(String),
    Log(Vec<u8>),
}

/// A published event matches its wire-model counterpart when it carries the
/// same content: the decoded body for a message, the line without its
/// end-of-line marker for a log.
pub open spec fn event_matches(e: OutputEvent, w: Event) -> bool {
    match w {
        Event::Message(body) => e matches OutputEvent::Message(s) && valid_utf8(body) && s@
            == decode_utf8(body),
        Event::Log(t) => e matches OutputEvent::Log(l) && l@ == t,
    }
}

/// The output relay over an in-memory stream: drains the whole stream
/// through a framed reader and collects every event it publishes, in order.
/// The events are exactly those of the wire model, `parse`.
pub fn relay_output(stream: &Vec<u8>) -> (r: Vec<OutputEvent>)
    ensures
        r@.len() == parse(stream@).len(),
        forall|i: int| 0 <= i < r@.len() ==> event_matches(#[trigger] r@[i], parse(stream@)[i]),
{
    let mut reader = FramedReader::new();
    let mut r: Vec<OutputEvent> = Vec::new();
    let mut pos: usize = 0;
    let ghost mut done: Seq<Event> = Seq::empty();
    proof {
        assert(stream@.subrange(0, stream@.len() as int) =~= stream@);
        assert(parse(stream@) =~= done + parse(stream@.subrange(0, stream@.len() as int)));
    }
    while pos < stream.len()
        invariant
            pos <= stream@.len(),
            reader.mode is Header || pos == stream@.len(),
            r@.len() == done.len(),
            forall|i: int| 0 <= i < done.len() ==> event_matches(#[trigger] r@[i], done[i]),
            parse(stream@) == done + parse(stream@.subrange(pos as int, stream@.len() as int)),
        decreases stream@.len() - pos,
    {
        let ghost rem = stream@.subrange(pos as int, stream@.len() as int);
        let end = next_line(stream, pos);
        let line = copy_range(stream, pos, end);
        proof {
            lemma_line_len_bounds(rem);
            assert(line@ =~= rem.subrange(0, line_len(rem) as int));
            assert(stream@.subrange(end as int, stream@.len() as int) =~= rem.subrange(
                line_len(rem) as int,
                rem.len() as int,
            ));
        }
        let log = reader.feed_line(&line);
        pos = end;
        match log {
            Some(l) => {
                proof {
                    done = done + seq![Event::Log(strip_eol(line@))];
                }
                r.push(OutputEvent::Log(l));
            },
            None => {
            },
        }
        match reader.mode {
            ReaderMode::Separator { declared } => {
                if pos == stream.len() {
                    // the stream closed before the separator line could be
                    // read: the frame is dropped and nothing more follows
                    proof {
                        assert(classify(line@) is Length);
                        assert(parse(rem) == Seq::<Event>::empty());
                    }
                    continue;
                }
                let ghost rest = stream@.subrange(pos as int, stream@.len() as int);
                let end2 = next_line(stream, pos);
                let sep = copy_range(stream, pos, end2);
                proof {
                    lemma_line_len_bounds(rest);
                    assert(stream@.subrange(end2 as int, stream@.len() as int) =~= rest.subrange(
                        line_len(rest) as int,
                        rest.len() as int,
                    ));
                }
                let _ = reader.feed_line(&sep);
                pos = end2;
                let ghost rest2 = stream@.subrange(pos as int, stream@.len() as int);
                if stream.len() - pos >= declared {
                    let body = copy_range(stream, pos, pos + declared);
                    proof {
                        assert(body@ =~= rest2.subrange(0, declared as int));
                        assert(stream@.subrange(
                            pos as int + declared as int,
                            stream@.len() as int,
                        ) =~= rest2.subrange(declared as int, rest2.len() as int));
                    }
                    let msg = reader.feed_body(body);
                    pos = pos + declared;
                    match msg {
                        Some(s) => {
                            proof {
                                done = done + body_events(rest2.subrange(0, declared as int));
                            }
                            r.push(OutputEvent::Message(s));
                        },
                        None => {
                            proof {
                                done = done + body_events(rest2.subrange(0, declared as int));
                            }
                        },
                    }
                } else {
                    reader.body_short();
                    pos = stream.len();
                    proof {
                        assert(stream@.subrange(pos as int, stream@.len() as int) =~= Seq::<
                            u8,
                        >::empty());
                    }
                }
            },
            _ => {
            },
        }
    }
    proof {
        assert(stream@.subrange(pos as int, stream@.len() as int) =~= Seq::<u8>::empty());
        assert(parse(stream@) =~= done);
    }
    r
}

/// A stream that starts with a complete line `hl` (its only line feed at the
/// end) splits into that line and the rest.
proof fn lemma_first_line(hl: Seq<u8>, rest: Seq<u8>)
    requires
        hl.len() > 0,
        hl.last() == 10,
        forall|j: int| 0 <= j < hl.len() - 1 ==> hl[j] != 10,
    ensures
        line_len(hl + rest) == hl.len(),
        (hl + rest).subrange(0, hl.len() as int) == hl,
        (hl + rest).subrange(hl.len() as int, (hl + rest).len() as int) == rest,
{
    lemma_line_len_at(hl + rest, hl.len() - 1);
    assert((hl + rest).subrange(0, hl.len() as int) =~= hl);
    assert((hl + rest).subrange(hl.len() as int, (hl + rest).len() as int) =~= rest);
}

/// A header line that does not match the length-header pattern is always
/// published as a raw log line, never discarded: it contributes exactly one
/// log event and parsing goes on behind it.
pub proof fn lemma_raw_line_logged(hl: Seq<u8>, rest: Seq<u8>)
    requires
        hl.len() > 0,
        hl.last() == 10,
        forall|j: int| 0 <= j < hl.len() - 1 ==> hl[j] != 10,
        trim_end(hl).len() > 0,
        !is_length_header(trim_end(hl)),
    ensures
        parse(hl + rest) == seq![Event::Log(strip_eol(hl))] + parse(rest),
{
    lemma_first_line(hl, rest);
}

/// After a length header and its separator line, the reader consumes exactly
/// the declared number of body bytes before it reads headers again: those
/// bytes become at most one message event, and parsing resumes right behind
/// them.
pub proof fn lemma_consumes_declared(hl: Seq<u8>, sl: Seq<u8>, rest: Seq<u8>)
    requires
        hl.len() > 0,
        hl.last() == 10,
        forall|j: int| 0 <= j < hl.len() - 1 ==> hl[j] != 10,
        sl.len() > 0,
        sl.last() == 10,
        forall|j: int| 0 <= j < sl.len() - 1 ==> sl[j] != 10,
        is_length_header(trim_end(hl)),
        rest.len() >= declared_len(trim_end(hl)),
    ensures
        parse(hl + sl + rest) == body_events(
            rest.subrange(0, declared_len(trim_end(hl)) as int),
        ) + parse(rest.subrange(declared_len(trim_end(hl)) as int, rest.len() as int)),
{
    assert(hl + sl + rest =~= hl + (sl + rest));
    lemma_first_line(hl, sl + rest);
    lemma_first_line(sl, rest);
    let s = hl + sl + rest;
    let n = declared_len(trim_end(hl)) as int;
    assert(s.subrange(0, line_len(s) as int) == hl);
    let after = s.subrange(line_len(s) as int, s.len() as int);
    assert(after == sl + rest);
    assert(after.subrange(line_len(after) as int, after.len() as int) == rest);
}

/// A body read that ends early because the stream closed before the declared
/// byte count arrived produces no message event: the frame is dropped and
/// nothing more is published.
pub proof fn lemma_short_body_drops_frame(hl: Seq<u8>, sl: Seq<u8>, rest: Seq<u8>)
    requires
        hl.len() > 0,
        hl.last() == 10,
        forall|j: int| 0 <= j < hl.len() - 1 ==> hl[j] != 10,
        sl.len() > 0,
        sl.last() == 10,
        forall|j: int| 0 <= j < sl.len() - 1 ==> sl[j] != 10,
        is_length_header(trim_end(hl)),
        rest.len() < declared_len(trim_end(hl)),
    ensures
        parse(hl + sl + rest) == Seq::<Event>::empty(),
{
    assert(hl + sl + rest =~= hl + (sl + rest));
    lemma_first_line(hl, sl + rest);
    lemma_first_line(sl, rest);
    let s = hl + sl + rest;
    let after = s.subrange(line_len(s) as int, s.len() as int);
    assert(after == sl + rest);
    assert(after.subrange(line_len(after) as int, after.len() as int) == rest);
}

/// Round trip: framing a body and reading the framed bytes back through the
/// framed reader yields exactly that body, as one message event, provided
/// the body is valid UTF-8.
pub proof fn lemma_frame_round_trip(body: Seq<u8>)
    requires
        body.len() <= usize::MAX,
        valid_utf8(body),
    ensures
        parse(frame_bytes(body)) == seq![Event::Message(body)],
{
    let digits = dec_digits(body.len());
    lemma_dec_digits(body.len());
    let hl = header_prefix() + digits + crlf();
    let sl = crlf();
    assert(frame_bytes(body) =~= hl + sl + body);
    assert(hl.last() == 10);
    assert forall|j: int| 0 <= j < hl.len() - 1 implies hl[j] != 10 by {
        if j < 16 {
            assert(hl[j] == header_prefix()[j]);
        } else if j < 16 + digits.len() {
            assert(hl[j] == digits[j - 16]);
            assert(is_digit(digits[j - 16]));
        } else {
            assert(hl[j] == 13);
        }
    }
    assert(sl.last() == 10);
    assert(sl[0] == 13);
    let t = header_prefix() + digits;
    assert(!is_ws(t.last()));
    lemma_trim_crlf(t);
    assert(trim_end(hl) == t);
    assert(t.subrange(0, 16) =~= header_prefix());
    assert forall|i: int| 16 <= i < t.len() implies is_digit(#[trigger] t[i]) by {
        assert(t[i] == digits[i - 16]);
    }
    assert(is_length_header(t));
    assert(t.subrange(16, t.len() as int) =~= digits);
    assert(declared_len(t) == body.len());
    lemma_consumes_declared(hl, sl, body);
    assert(body.subrange(0, body.len() as int) =~= body);
    assert(body.subrange(body.len() as int, body.len() as int) =~= Seq::<u8>::empty());
    assert(body_events(body) == seq![Event::Message(body)]);
    assert(seq![Event::Message(body)] + parse(Seq::<u8>::empty()) =~= seq![Event::Message(body)]);
}

/// Trimming removes one CRLF from the end of a line that otherwise ends in
/// something other than whitespace.
proof fn lemma_trim_crlf(a: Seq<u8>)
    requires
        a.len() > 0,
        !is_ws(a.last()),
    ensures
        trim_end(a + crlf()) == a,
{
    assert((a + crlf()).last() == 10);
    assert((a + crlf()).drop_last() =~= a + seq![13u8]);
    assert(trim_end(a + crlf()) == trim_end(a + seq![13u8]));
    assert((a + seq![13u8]).last() == 13);
    assert((a + seq![13u8]).drop_last() =~= a);
    assert(trim_end(a + seq![13u8]) == trim_end(a));
    assert(trim_end(a) == a);
}

} // verus!
