//! The input channel and the diagnostic relay: what a send writes, when a
//! send is refused, and which diagnostic lines are published.

use vstd::prelude::*;

use crate::framing::copy_range;
use crate::framing::frame_bytes;
use crate::framing::frame_message;
use crate::framing::strip_eol;
use crate::framing::strip_eol_line;
use crate::reader::lemma_line_len_bounds;
use crate::reader::line_len;
use crate::reader::next_line;
use crate::text::utf8_to_string;
use vstd::utf8::decode_utf8;
use vstd::utf8::valid_utf8;

verus! {

/// Why a bridge operation failed.
#[derive(PartialEq, Eq, Debug)]
pub enum BridgeError {
    /// The process could not be started or one of its pipes could not be
    /// obtained; carries the underlying error text.
    Spawn(String),
    /// A send was attempted while no process is running.
    NotRunning,
    /// A write or flush on the running process's input failed; carries the
    /// underlying error text.
    Io(String),
}

/// The send-path decision of the input channel: it never blocks and performs
/// no I/O itself.  While a process is running (`running`: the input handle is
/// present in the shared bridge state) the framed payload to write comes
/// back, ready for one write-and-flush; with no process running the send
/// fails with `NotRunning` and nothing is to be written.
pub fn plan_send(running: bool, body: &Vec<u8>) -> (r: Result<Vec<u8>, BridgeError>)
    ensures
        running ==> (r matches Ok(p) && p@ == frame_bytes(body@)),
        !running ==> (r matches Err(e) && e is NotRunning),
{
    if running {
        Ok(frame_message(body))
    } else {
        Err(BridgeError::NotRunning)
    }
}

/// The diagnostic relay's treatment of one line from the process's secondary
/// output: a line that decodes as UTF-8 is published as a diagnostic event,
/// any other line is skipped silently.
pub fn diagnostic_event(line: Vec<u8>) -> (r: Option<String>)
    ensures
        r is Some <==> valid_utf8(line@),
        r matches Some(s) ==> s@ == decode_utf8(line@),
{
    utf8_to_string(line)
}

/// The diagnostic events of a complete secondary-output stream: one per
/// line that decodes as UTF-8 (without its end-of-line marker), in stream
/// order; lines that do not decode are skipped.
pub open spec fn diag_events(s: Seq<u8>) -> Seq<Seq<char>>
    decreases s.len(),
    via diag_events_decreases
{
    if s.len() == 0 {
        Seq::empty()
    } else {
        let line = s.subrange(0, line_len(s) as int);
        let rest = s.subrange(line_len(s) as int, s.len() as int);
        let here = if valid_utf8(strip_eol(line)) {
            seq![decode_utf8(strip_eol(line))]
        } else {
            Seq::empty()
        };
        here + diag_events(rest)
    }
}

#[via_fn]
proof fn diag_events_decreases(s: Seq<u8>) {
    lemma_line_len_bounds(s);
}

/// The diagnostic relay over an in-memory stream: reads it line by line and
/// collects every line that decodes as UTF-8, in order, exactly as
/// `diag_events` describes.
pub fn relay_diagnostics(stream: &Vec<u8>) -> (r: Vec<String>)
    ensures
        r@.len() == diag_events(stream@).len(),
        forall|i: int| 0 <= i < r@.len() ==> #[trigger] r@[i]@ == diag_events(stream@)[i],
{
    let mut r: Vec<String> = Vec::new();
    let mut pos: usize = 0;
    let ghost mut done: Seq<Seq<char>> = Seq::empty();
    proof {
        assert(stream@.subrange(0, stream@.len() as int) =~= stream@);
        assert(diag_events(stream@) =~= done + diag_events(
            stream@.subrange(0, stream@.len() as int),
        ));
    }
    while pos < stream.len()
        invariant
            pos <= stream@.len(),
            r@.len() == done.len(),
            forall|i: int| 0 <= i < done.len() ==> #[trigger] r@[i]@ == done[i],
            diag_events(stream@) == done + diag_events(
                stream@.subrange(pos as int, stream@.len() as int),
            ),
        decreases stream@.len() - pos,
    {
        let ghost rem = stream@.subrange(pos as int, stream@.len() as int);
        let end = next_line(stream, pos);
        let line = copy_range(stream, pos, end);
        proof {
            lemma_line_len_bounds(rem);
            assert(line@ =~= rem.subrange(0, line_len(rem) as int));
            assert(stream@.subrange(end as int, stream@.len() as int) =~= rem.subrange(
                line_len(rem) as int,
                rem.len() as int,
            ));
        }
        let stripped = strip_eol_line(&line);
        match diagnostic_event(stripped) {
            Some(text) => {
                proof {
                    done = done + seq![decode_utf8(strip_eol(rem.subrange(
                        0,
                        line_len(rem) as int,
                    )))];
                }
                r.push(text);
            },
            None => {
            },
        }
        pos = end;
    }
    proof {
        assert(stream@.subrange(pos as int, stream@.len() as int) =~= Seq::<u8>::empty());
        assert(diag_events(stream@) =~= done);
    }
    r
}

} // verus!
