//! Byte-level model of the wire format: the length header, trailing
//! whitespace trimming, decimal lengths, and the framed payload layout.

use vstd::prelude::*;

verus! {

/// Bytes treated as whitespace when a header line is trimmed: space, tab,
/// carriage return, and line feed.
pub open spec fn is_ws(b: u8) -> bool {
    b == 32 || b == 9 || b == 13 || b == 10
}

/// A line with its trailing whitespace removed.
pub open spec fn trim_end(s: Seq<u8>) -> Seq<u8>
    decreases s.len(),
{
    if s.len() > 0 && is_ws(s.last()) {
        trim_end(s.drop_last())
    } else {
        s
    }
}

/// Removes trailing whitespace from a line, as `trim_end` describes.
pub fn trim_line(line: &Vec<u8>) -> (r: Vec<u8>)
    ensures
        r@ == trim_end(line@),
{
    let mut end: usize = line.len();
    proof {
        assert(line@.subrange(0, line@.len() as int) =~= line@);
    }
    while end > 0 && (line[end - 1] == 32 || line[end - 1] == 9 || line[end - 1] == 13
        || line[end - 1] == 10)
        invariant
            end <= line.len(),
            trim_end(line@) == trim_end(line@.subrange(0, end as int)),
        decreases end,
    {
        proof {
            assert(line@.subrange(0, end as int).drop_last() =~= line@.subrange(
                0,
                end as int - 1,
            ));
        }
        end = end - 1;
    }
    proof {
        assert(trim_end(line@.subrange(0, end as int)) == line@.subrange(0, end as int));
    }
    copy_range(line, 0, end)
}

/// Copies the bytes of `v` between `from` and `to` into a fresh vector.
pub fn copy_range(v: &Vec<u8>, from: usize, to: usize) -> (r: Vec<u8>)
    requires
        from <= to <= v.len(),
    ensures
        r@ == v@.subrange(from as int, to as int),
{
    let mut r: Vec<u8> = Vec::new();
    let mut i: usize = from;
    while i < to
        invariant
            from <= i <= to <= v.len(),
            r@ == v@.subrange(from as int, i as int),
        decreases to - i,
    {
        r.push(v[i]);
        proof {
            assert(v@.subrange(from as int, i as int).push(v@[i as int]) =~= v@.subrange(
                from as int,
                i as int + 1,
            ));
        }
        i = i + 1;
    }
    r
}

/// A line with its end-of-line marker removed and nothing else: a trailing
/// line feed goes, then a carriage return left at the end by a CRLF ending.
/// This is how a raw log line is published.
pub open spec fn strip_eol(l: Seq<u8>) -> Seq<u8> {
    let a = if l.len() > 0 && l.last() == 10 {
        l.drop_last()
    } else {
        l
    };
    if a.len() > 0 && a.last() == 13 {
        a.drop_last()
    } else {
        a
    }
}

/// Removes the end-of-line marker from a line, as `strip_eol` describes.
pub fn strip_eol_line(line: &Vec<u8>) -> (r: Vec<u8>)
    ensures
        r@ == strip_eol(line@),
{
    let mut end: usize = line.len();
    if end > 0 && line[end - 1] == 10 {
        end = end - 1;
    }
    if end > 0 && line[end - 1] == 13 {
        end = end - 1;
    }
    proof {
        let l = line@;
        if l.len() > 0 && l.last() == 10 {
            assert(l.drop_last() =~= l.subrange(0, l.len() as int - 1));
            let a = l.drop_last();
            if a.len() > 0 && a.last() == 13 {
                assert(a.drop_last() =~= l.subrange(0, l.len() as int - 2));
            }
        } else if l.len() > 0 && l.last() == 13 {
            assert(l.drop_last() =~= l.subrange(0, l.len() as int - 1));
        }
        assert(l.subrange(0, l.len() as int) =~= l);
        assert(strip_eol(l) =~= l.subrange(0, end as int));
    }
    copy_range(line, 0, end)
}

/// A decimal digit byte, `'0'` through `'9'`.
pub open spec fn is_digit(b: u8) -> bool {
    48 <= b <= 57
}

/// The numeric value of a sequence of decimal digit bytes, most significant
/// digit first.
pub open spec fn dec_value(ds: Seq<u8>) -> nat
    decreases ds.len(),
{
    if ds.len() == 0 {
        0
    } else {
        (dec_value(ds.drop_last()) * 10 + (ds.last() - 48)) as nat
    }
}

/// The shortest decimal digit representation of `n`, most significant digit
/// first.
pub open spec fn dec_digits(n: nat) -> Seq<u8>
    decreases n,
{
    if n < 10 {
        seq![(48 + n) as u8]
    } else {
        dec_digits(n / 10).push((48 + n % 10) as u8)
    }
}

/// `dec_digits` yields only digit bytes, at least one of them, and
/// `dec_value` reads the value back.
pub proof fn lemma_dec_digits(n: nat)
    ensures
        dec_digits(n).len() >= 1,
        forall|i: int| 0 <= i < dec_digits(n).len() ==> is_digit(#[trigger] dec_digits(n)[i]),
        dec_value(dec_digits(n)) == n,
    decreases n,
{
    if n < 10 {
        assert(dec_digits(n).drop_last() =~= Seq::<u8>::empty());
        assert(dec_value(Seq::<u8>::empty()) == 0);
    } else {
        lemma_dec_digits(n / 10);
        assert(dec_digits(n).drop_last() =~= dec_digits(n / 10));
        assert(dec_value(dec_digits(n)) == (dec_value(dec_digits(n / 10)) * 10 + (dec_digits(
            n,
        ).last() - 48)) as nat);
        assert(n == (n / 10) * 10 + n % 10) by (nonlinear_arith);
    }
}

/// The header field name, `"Content-Length: "`, as bytes.
pub open spec fn header_prefix() -> Seq<u8> {
    seq![67u8, 111u8, 110u8, 116u8, 101u8, 110u8, 116u8, 45u8, 76u8, 101u8, 110u8, 103u8, 116u8, 104u8, 58u8, 32u8]
}

/// The end-of-header separator, one CRLF.
pub open spec fn crlf() -> Seq<u8> {
    seq![13u8, 10u8]
}

/// The framed payload for a message body: the length header announcing the
/// body's byte count, a CRLF ending the header line, a CRLF for the blank
/// separator line, then the body bytes themselves.
pub open spec fn frame_bytes(body: Seq<u8>) -> Seq<u8> {
    header_prefix() + dec_digits(body.len()) + crlf() + crlf() + body
}

/// Whether a trimmed header line matches the length-header pattern:
/// `"Content-Length: "` followed by one or more decimal digits and nothing
/// else.
pub open spec fn is_length_header(t: Seq<u8>) -> bool {
    &&& t.len() >= 17
    &&& t.subrange(0, 16) == header_prefix()
    &&& forall|i: int| 16 <= i < t.len() ==> is_digit(#[trigger] t[i])
}

/// The body length a matching header line declares.  A value too large for
/// the machine counts as a failed parse and declares length zero.
pub open spec fn declared_len(t: Seq<u8>) -> nat {
    let v = dec_value(t.subrange(16, t.len() as int));
    if v > usize::MAX as nat {
        0
    } else {
        v
    }
}

/// How the reader treats one header line, decided on the line with its
/// trailing whitespace trimmed.
#[derive(Clone, Copy, PartialEq, Eq, Structural, Debug)]
pub enum HeaderLine {
    /// The line was blank: a separator, nothing to publish.
    Blank,
    /// The line declared the byte length of a message body that follows.
    Length { declared: usize },
    /// Anything else: an opaque raw log line.
    Raw,
}

/// The classification of one header line as it was read from the stream.
pub open spec fn classify(line: Seq<u8>) -> HeaderLine {
    let t = trim_end(line);
    if t.len() == 0 {
        HeaderLine::Blank
    } else if is_length_header(t) {
        HeaderLine::Length { declared: declared_len(t) as usize }
    } else {
        HeaderLine::Raw
    }
}

/// Classifies one line read while the reader waits for a header: a blank
/// separator, a length header with the body length it declares, or a raw
/// log line.
pub fn classify_header_line(line: &Vec<u8>) -> (r: HeaderLine)
    ensures
        r == classify(line@),
{
    let t = trim_line(line);
    if t.len() == 0 {
        return HeaderLine::Blank;
    }
    if t.len() < 17 {
        proof {
            assert(!is_length_header(trim_end(line@)));
        }
        return HeaderLine::Raw;
    }
    if !(t[0] == 67 && t[1] == 111 && t[2] == 110 && t[3] == 116 && t[4] == 101 && t[5] == 110
        && t[6] == 116 && t[7] == 45 && t[8] == 76 && t[9] == 101 && t[10] == 110 && t[11] == 103
        && t[12] == 116 && t[13] == 104 && t[14] == 58 && t[15] == 32) {
        proof {
            assert(trim_end(line@).subrange(0, 16) != header_prefix());
        }
        return HeaderLine::Raw;
    }
    proof {
        assert(t@.subrange(0, 16) =~= header_prefix());
    }
    let mut i: usize = 16;
    while i < t.len()
        invariant
            16 <= i <= t@.len(),
            t@ == trim_end(line@),
            forall|j: int| 16 <= j < i ==> is_digit(#[trigger] t@[j]),
        decreases t@.len() - i,
    {
        if !(48 <= t[i] && t[i] <= 57) {
            proof {
                assert(!is_length_header(trim_end(line@)));
            }
            return HeaderLine::Raw;
        }
        i = i + 1;
    }
    proof {
        assert(is_length_header(trim_end(line@)));
    }
    let mut v: usize = 0;
    let mut over: bool = false;
    let mut k: usize = 16;
    while k < t.len()
        invariant
            16 <= k <= t@.len(),
            t@ == trim_end(line@),
            is_length_header(t@),
            !over ==> v == dec_value(t@.subrange(16, k as int)),
            over ==> dec_value(t@.subrange(16, k as int)) > usize::MAX as nat,
        decreases t@.len() - k,
    {
        proof {
            assert(is_digit(t@[k as int]));
            assert(t@.subrange(16, k as int + 1) =~= t@.subrange(16, k as int).push(t@[k as int]));
            lemma_dec_value_push(t@.subrange(16, k as int), t@[k as int]);
            assert(dec_value(t@.subrange(16, k as int + 1)) == dec_value(
                t@.subrange(16, k as int),
            ) * 10 + (t@[k as int] - 48));
        }
        let d = t[k] - 48;
        if !over {
            match v.checked_mul(10) {
                Some(m) => match m.checked_add(d as usize) {
                    Some(s) => {
                        v = s;
                    },
                    None => {
                        over = true;
                        v = 0;
                    },
                },
                None => {
                    over = true;
                    v = 0;
                },
            }
        }
        k = k + 1;
    }
    if over {
        HeaderLine::Length { declared: 0 }
    } else {
        HeaderLine::Length { declared: v }
    }
}

/// Appending a digit multiplies the value a digit string denotes by ten and
/// adds the new digit.
proof fn lemma_dec_value_push(ds: Seq<u8>, d: u8)
    requires
        is_digit(d),
    ensures
        dec_value(ds.push(d)) == dec_value(ds) * 10 + (d - 48),
{
    assert(ds.push(d).drop_last() =~= ds);
    assert(ds.push(d).last() == d);
}

/// Appends the decimal digits of `n` to `out`.
fn push_decimal(n: usize, out: &mut Vec<u8>)
    ensures
        final(out)@ == old(out)@ + dec_digits(n as nat),
    decreases n,
{
    if n >= 10 {
        push_decimal(n / 10, out);
    }
    out.push((48 + (n % 10) as u8));
    proof {
        assert(old(out)@ + dec_digits(n as nat) =~= out@);
    }
}

/// Wraps a message body in the length-prefixed frame that the peer's reader
/// expects: `Content-Length: <byte count>`, CRLF, CRLF, then the body.
pub fn frame_message(body: &Vec<u8>) -> (r: Vec<u8>)
    ensures
        r@ == frame_bytes(body@),
{
    let mut r: Vec<u8> = Vec::new();
    r.push(67);
    r.push(111);
    r.push(110);
    r.push(116);
    r.push(101);
    r.push(110);
    r.push(116);
    r.push(45);
    r.push(76);
    r.push(101);
    r.push(110);
    r.push(103);
    r.push(116);
    r.push(104);
    r.push(58);
    r.push(32);
    proof {
        assert(r@ =~= header_prefix());
    }
    push_decimal(body.len(), &mut r);
    r.push(13);
    r.push(10);
    r.push(13);
    r.push(10);
    let mut i: usize = 0;
    while i < body.len()
        invariant
            i <= body.len(),
            r@ == header_prefix() + dec_digits(body@.len()) + crlf() + crlf() + body@.subrange(
                0,
                i as int,
            ),
        decreases body.len() - i,
    {
        r.push(body[i]);
        proof {
            assert(body@.subrange(0, i as int).push(body@[i as int]) =~= body@.subrange(
                0,
                i as int + 1,
            ));
            assert(r@ =~= header_prefix() + dec_digits(body@.len()) + crlf() + crlf()
                + body@.subrange(0, i as int + 1));
        }
        i = i + 1;
    }
    proof {
        assert(body@.subrange(0, body@.len() as int) =~= body@);
    }
    r
}

} // verus!
