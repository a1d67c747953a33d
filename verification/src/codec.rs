//! The framing codec: bytes on a connection to tokens, and tokens back to bytes.

use vstd::prelude::*;
use vstd::slice::{slice_subrange, slice_to_vec};
use vstd::utf8::{decode_utf8, encode_utf8, valid_utf8};
use bytes::{Bytes, BytesMut};
use crate::buffer::{
    buf_advance, buf_as_slice, buf_clear, buf_put_slice, buf_put_u8, buf_seq, bytes_as_slice,
    bytes_from_slice, bytes_seq,
};
use crate::error::Error;
use crate::text::{
    all_digits, all_name_chars, ascii, crlf, decimal, digits_value, is_digit, is_name_char,
    is_space, lemma_ascii_utf8, parse_digits, push_decimal, utf8_to_string, CR, FF, HYPHEN, LF,
    NINE, PLUS, SPACE, TAB, ZERO,
};

verus! {

/// The longest command line, body included, in bytes.
pub const MAX_LINE: usize = 1792;

/// The longest name, in bytes.
pub const MAX_NAME: usize = 1600;

/// The default ceiling on the length of a job's body.
pub const MAX_JOB_SIZE: u32 = 65535;

/// One token of a frame.
#[derive(Clone, Debug, PartialEq)]
pub enum Data {
    String(String),
    Integer(u32),
    Bytes(Bytes),
    /// Shapes a response: ends the line before a body.
    Crlf,
}

/// What a token is, as plain values.
pub enum Token {
    Name(Seq<char>),
    Integer(u32),
    Bytes(Seq<u8>),
    Crlf,
}

impl View for Data {
    type V = Token;

    open spec fn view(&self) -> Token {
        match self {
            Data::String(s) => Token::Name(s@),
            Data::Integer(n) => Token::Integer(*n),
            Data::Bytes(b) => Token::Bytes(bytes_seq(*b)),
            Data::Crlf => Token::Crlf,
        }
    }
}

/// The tokens of a frame, as plain values.
pub open spec fn frame_view(frame: Seq<Data>) -> Seq<Token> {
    Seq::new(frame.len(), |i: int| frame[i]@)
}

/// What reading a buffer from its start yields.
pub enum Scan {
    /// More bytes are needed.
    Incomplete,
    /// The bytes are not a frame.
    Failed(Error),
    /// The tokens read, and the number of bytes they took.
    Done(Seq<Token>, int),
}

/// The first position at or after `i` that holds whitespace; the length where none does.
pub open spec fn field_end(s: Seq<u8>, i: int) -> int
    decreases s.len() - i,
{
    if i >= s.len() {
        s.len() as int
    } else if is_space(s[i]) {
        i
    } else {
        field_end(s, i + 1)
    }
}

/// The number that a field spells: an optional `+`, then decimal digits that fit in 32 bits.
pub open spec fn number(f: Seq<u8>) -> Result<u32, Error> {
    let d = if f.len() > 0 && f[0] == PLUS {
        f.skip(1)
    } else {
        f
    };
    if !valid_utf8(f) {
        Err(Error::InternalError)
    } else if d.len() > 0 && all_digits(d) && digits_value(d) <= u32::MAX {
        Ok(digits_value(d) as u32)
    } else {
        Err(Error::BadFormat)
    }
}

/// The token that a field spells. A field that starts with a digit is a number; one that
/// starts with another name character but `-` is a name.
pub open spec fn field(f: Seq<u8>) -> Result<Token, Error> {
    if f.len() > 0 && is_digit(f[0]) {
        match number(f) {
            Ok(n) => Ok(Token::Integer(n)),
            Err(e) => Err(e),
        }
    } else if f.len() > 0 && is_name_char(f[0]) && f[0] != HYPHEN {
        if f.len() > MAX_NAME || !all_name_chars(f) {
            Err(Error::BadFormat)
        } else {
            Ok(Token::Name(ascii(f)))
        }
    } else {
        Err(Error::BadFormat)
    }
}

/// `ts` put in front of what a scan found.
pub open spec fn prepend(ts: Seq<Token>, rest: Scan) -> Scan {
    match rest {
        Scan::Done(more, end) => Scan::Done(ts + more, end),
        other => other,
    }
}

/// The command line that starts at `i`: fields separated by single spaces and ended by
/// `\r\n`. The first field that is wrong decides; so does the end of the bytes, if it
/// comes before the end of the line.
pub open spec fn line(s: Seq<u8>, i: int) -> Scan
    decreases s.len() - i,
    via line_decreases
{
    let e = field_end(s, i);
    if i < 0 || e >= s.len() {
        Scan::Incomplete
    } else {
        match field(s.subrange(i, e)) {
            Err(err) => Scan::Failed(err),
            Ok(tok) => if s[e] == SPACE {
                prepend(seq![tok], line(s, e + 1))
            } else if s[e] == CR {
                if e + 1 >= s.len() {
                    Scan::Incomplete
                } else if s[e + 1] == LF {
                    Scan::Done(seq![tok], e + 2)
                } else {
                    Scan::Failed(Error::BadFormat)
                }
            } else {
                Scan::Failed(Error::BadFormat)
            },
        }
    }
}

#[via_fn]
proof fn line_decreases(s: Seq<u8>, i: int) {
    if 0 <= i {
        lemma_field_end(s, i);
    }
}

/// A field ends at or after its start, within the bytes, on whitespace, and holds none.
pub proof fn lemma_field_end(s: Seq<u8>, i: int)
    requires
        0 <= i,
    ensures
        i <= s.len() ==> i <= field_end(s, i) <= s.len(),
        field_end(s, i) < s.len() ==> is_space(s[field_end(s, i)]),
        forall|j: int| i <= j < field_end(s, i) ==> !is_space(#[trigger] s[j]),
    decreases s.len() - i,
{
    if i < s.len() && !is_space(s[i]) {
        lemma_field_end(s, i + 1);
    }
}

/// Whether a body follows the line: the line is a `put` and ends in a number.
pub open spec fn expects_body(ts: Seq<Token>) -> bool {
    ts.len() > 0 && ts[0] == Token::Name("put"@) && ts.last() is Integer
}

/// The frame at the start of `s`.
///
/// A line that expects a body of `n` bytes is complete once those bytes are there; the
/// two bytes after them must then be `\r\n`. A frame, body and line ends included, is
/// at most `MAX_LINE` bytes long.
pub open spec fn frame(s: Seq<u8>, max_job_size: u32) -> Scan {
    match line(s, 0) {
        Scan::Incomplete => if s.len() > MAX_LINE {
            Scan::Failed(Error::BadFormat)
        } else {
            Scan::Incomplete
        },
        Scan::Failed(e) => Scan::Failed(e),
        Scan::Done(ts, end) => if expects_body(ts) {
            let n = ts.last()->Integer_0 as int;
            if n > max_job_size {
                Scan::Failed(Error::JobTooBig)
            } else if end + n + 2 > MAX_LINE {
                Scan::Failed(Error::BadFormat)
            } else if s.len() < end + n {
                Scan::Incomplete
            } else if s.len() >= end + n + 2 && s[end + n] == CR && s[end + n + 1] == LF {
                Scan::Done(ts.push(Token::Bytes(s.subrange(end, end + n))), end + n + 2)
            } else {
                Scan::Failed(Error::ExpectedCrlf)
            }
        } else if end > MAX_LINE {
            Scan::Failed(Error::BadFormat)
        } else {
            Scan::Done(ts, end)
        },
    }
}

/// Whether a byte may occur in a name.
pub fn valid_name_char(c: u8) -> (out: bool)
    ensures
        out == is_name_char(c),
{
    (c >= ZERO && c <= NINE) || (c >= 65 && c <= 90) || (c >= 97
        && c <= 122) || c == HYPHEN || c == PLUS
        || c == 47 || c == 59 || c == 46 || c == 36 || c == 95 || c == 40 || c == 41
}

/// The string that the bytes encode in UTF-8.
pub fn string_from_bytes(buf: &[u8]) -> (out: Result<String, Error>)
    ensures
        match out {
            Ok(s) => valid_utf8(buf@) && s@ == decode_utf8(buf@),
            Err(e) => !valid_utf8(buf@) && e == Error::InternalError,
        },
{
    match utf8_to_string(slice_to_vec(buf)) {
        Some(s) => Ok(s),
        None => Err(Error::InternalError),
    }
}

/// The number that the bytes spell.
pub fn num_from_bytes(buf: &[u8]) -> (out: Result<u32, Error>)
    ensures
        out == number(buf@),
{
    match string_from_bytes(buf) {
        Err(e) => Err(e),
        Ok(_) => {
            let digits = if buf.len() > 0 && buf[0] == PLUS {
                slice_subrange(buf, 1, buf.len())
            } else {
                buf
            };
            proof {
                if buf@.len() > 0 && buf@[0] == PLUS {
                    assert(digits@ =~= buf@.skip(1));
                }
            }
            match parse_digits(digits) {
                Some(n) => Ok(n),
                None => Err(Error::BadFormat),
            }
        },
    }
}

/// Whether a byte is ASCII whitespace.
fn is_whitespace(c: u8) -> (out: bool)
    ensures
        out == is_space(c),
{
    c == SPACE || c == TAB || c == LF || c == FF || c == CR
}

/// The end of the field that starts at `i`.
fn find_field_end(s: &[u8], i: usize) -> (e: usize)
    requires
        i <= s@.len(),
    ensures
        e == field_end(s@, i as int),
        i <= e <= s@.len(),
{
    let mut e: usize = i;
    while e < s.len() && !is_whitespace(s[e])
        invariant
            i <= e <= s@.len(),
            field_end(s@, i as int) == field_end(s@, e as int),
        decreases s@.len() - e,
    {
        e += 1;
    }
    e
}

/// Whether every byte may occur in a name.
fn only_name_chars(f: &[u8]) -> (out: bool)
    ensures
        out == all_name_chars(f@),
{
    let mut i: usize = 0;
    while i < f.len()
        invariant
            0 <= i <= f@.len(),
            forall|j: int| 0 <= j < i ==> is_name_char(#[trigger] f@[j]),
        decreases f@.len() - i,
    {
        if !valid_name_char(f[i]) {
            return false;
        }
        i += 1;
    }
    true
}

/// The token that a field spells.
fn read_field(f: &[u8]) -> (out: Result<Data, Error>)
    ensures
        match out {
            Ok(d) => field(f@) == Ok::<Token, Error>(d@),
            Err(e) => field(f@) == Err::<Token, Error>(e),
        },
{
    if f.len() == 0 {
        return Err(Error::BadFormat);
    }
    let first: u8 = f[0];
    if first >= ZERO && first <= NINE {
        match num_from_bytes(f) {
            Ok(n) => Ok(Data::Integer(n)),
            Err(e) => Err(e),
        }
    } else if valid_name_char(first) && first != HYPHEN {
        if f.len() > MAX_NAME || !only_name_chars(f) {
            return Err(Error::BadFormat);
        }
        proof {
            lemma_ascii_utf8(f@);
        }
        match string_from_bytes(f) {
            Ok(s) => Ok(Data::String(s)),
            Err(e) => Err(e),
        }
    } else {
        Err(Error::BadFormat)
    }
}

/// Putting tokens in front one at a time is putting them in front together.
proof fn lemma_prepend_push(ts: Seq<Token>, tok: Token, rest: Scan)
    ensures
        prepend(ts, prepend(seq![tok], rest)) == prepend(ts.push(tok), rest),
{
    match rest {
        Scan::Done(more, end) => {
            assert(ts + (seq![tok] + more) =~= ts.push(tok) + more);
        },
        _ => {},
    }
}

/// A line that was read ends within the bytes and holds at least one token.
pub proof fn lemma_line_bounds(s: Seq<u8>, i: int)
    requires
        0 <= i,
    ensures
        match line(s, i) {
            Scan::Done(ts, end) => i + 2 < end <= s.len() && ts.len() >= 1,
            _ => true,
        },
    decreases s.len() - i,
{
    lemma_field_end(s, i);
    let e = field_end(s, i);
    if e < s.len() {
        if field(s.subrange(i, e)) is Ok && s[e] == SPACE {
            lemma_line_bounds(s, e + 1);
        }
    }
}

/// The command line at the start of `s`, and the number of bytes it takes.
fn read_line(s: &[u8]) -> (out: Result<Option<(Vec<Data>, usize)>, Error>)
    ensures
        match line(s@, 0) {
            Scan::Incomplete => out is Ok && out->Ok_0 is None,
            Scan::Failed(e) => out is Err && out->Err_0 == e,
            Scan::Done(ts, end) => out matches Ok(Some((v, n))) && frame_view(v@) == ts && n
                == end,
        },
{
    let mut toks: Vec<Data> = Vec::new();
    let mut i: usize = 0;
    proof {
        assert(frame_view(toks@) + Seq::<Token>::empty() =~= Seq::<Token>::empty());
        assert(frame_view(toks@) =~= Seq::<Token>::empty());
        match line(s@, 0) {
            Scan::Done(more, end) => {
                assert(Seq::<Token>::empty() + more =~= more);
            },
            _ => {},
        }
    }
    loop
        invariant
            0 <= i <= s@.len(),
            line(s@, 0) == prepend(frame_view(toks@), line(s@, i as int)),
        decreases s@.len() - i,
    {
        let e = find_field_end(s, i);
        if e >= s.len() {
            return Ok(None);
        }
        let tok = match read_field(slice_subrange(s, i, e)) {
            Ok(d) => d,
            Err(err) => {
                return Err(err);
            },
        };
        let sep: u8 = s[e];
        if sep == SPACE {
            proof {
                lemma_prepend_push(frame_view(toks@), tok@, line(s@, e + 1));
                assert(frame_view(toks@.push(tok)) =~= frame_view(toks@).push(tok@));
            }
            toks.push(tok);
            i = e + 1;
        } else if sep == CR {
            if e + 1 >= s.len() {
                return Ok(None);
            }
            if s[e + 1] != LF {
                return Err(Error::BadFormat);
            }
            proof {
                assert(frame_view(toks@.push(tok)) =~= frame_view(toks@) + seq![tok@]);
            }
            toks.push(tok);
            return Ok(Some((toks, e + 2)));
        } else {
            return Err(Error::BadFormat);
        }
    }
}

/// Reads the frame at the start of `s`: its tokens and the number of bytes it takes,
/// nothing where more bytes are needed, an error where the bytes are not a frame.
pub fn read_frame(s: &[u8], max_job_size: u32) -> (out: Result<Option<(Vec<Data>, usize)>, Error>)
    ensures
        match frame(s@, max_job_size) {
            Scan::Incomplete => out is Ok && out->Ok_0 is None,
            Scan::Failed(e) => out is Err && out->Err_0 == e,
            Scan::Done(ts, used) => out matches Ok(Some((v, n))) && frame_view(v@) == ts && n
                == used && used <= s@.len(),
        },
{
    proof {
        lemma_line_bounds(s@, 0);
    }
    let (mut toks, end) = match read_line(s) {
        Err(e) => {
            return Err(e);
        },
        Ok(None) => {
            if s.len() > MAX_LINE {
                return Err(Error::BadFormat);
            }
            return Ok(None);
        },
        Ok(Some(found)) => found,
    };
    let ghost ts = frame_view(toks@);
    let is_put = match &toks[0] {
        Data::String(name) => crate::text::str_eq(name.as_str(), "put"),
        _ => false,
    };
    let body_len = match &toks[toks.len() - 1] {
        Data::Integer(n) => Some(*n),
        _ => None,
    };
    assert(ts[0] == toks@[0]@);
    assert(ts.last() == toks@[toks@.len() - 1]@);
    match body_len {
        Some(n32) if is_put => {
            assert(expects_body(ts));
            if n32 > max_job_size {
                return Err(Error::JobTooBig);
            }
            let n: usize = n32 as usize;
            if n > MAX_LINE - 2 || end > MAX_LINE - 2 - n {
                return Err(Error::BadFormat);
            }
            if s.len() < end + n {
                return Ok(None);
            }
            if s.len() >= end + n + 2 && s[end + n] == CR && s[end + n + 1] == LF {
                let body = bytes_from_slice(slice_subrange(s, end, end + n));
                let tok = Data::Bytes(body);
                proof {
                    assert(frame_view(toks@.push(tok)) =~= ts.push(tok@));
                }
                toks.push(tok);
                Ok(Some((toks, end + n + 2)))
            } else {
                Err(Error::ExpectedCrlf)
            }
        },
        _ => {
            assert(!expects_body(ts));
            if end > MAX_LINE {
                return Err(Error::BadFormat);
            }
            Ok(Some((toks, end)))
        },
    }
}

/// The bytes that a token is written as.
pub open spec fn token_bytes(t: Token) -> Seq<u8> {
    match t {
        Token::Name(s) => encode_utf8(s),
        Token::Integer(n) => decimal(n as nat),
        Token::Bytes(b) => b,
        Token::Crlf => crlf(),
    }
}

/// Whether a space is written after the token at `i`: it has a successor, and neither
/// of the two is a line end.
pub open spec fn spaced(ts: Seq<Token>, i: int) -> bool {
    i + 1 < ts.len() && !(ts[i] is Crlf) && !(ts[i + 1] is Crlf)
}

/// The bytes that the first `n` tokens are written as, with the spaces after them.
pub open spec fn written(ts: Seq<Token>, n: int) -> Seq<u8>
    decreases n,
{
    if n <= 0 {
        Seq::empty()
    } else {
        written(ts, n - 1) + token_bytes(ts[n - 1]) + if spaced(ts, n - 1) {
            seq![SPACE]
        } else {
            Seq::empty()
        }
    }
}

/// The bytes that a frame is written as: its tokens, then `\r\n`.
pub open spec fn encoded(ts: Seq<Token>) -> Seq<u8> {
    written(ts, ts.len() as int) + crlf()
}

/// What is written grows with the number of tokens.
pub proof fn lemma_written_grows(ts: Seq<Token>, i: int, n: int)
    requires
        0 <= i <= n,
    ensures
        written(ts, i).len() <= written(ts, n).len(),
    decreases n - i,
{
    if i < n {
        lemma_written_grows(ts, i, n - 1);
    }
}

/// The codec of one connection.
pub struct BeanstalkCodec {
    max_job_size: u32,
}

impl BeanstalkCodec {
    /// The ceiling on the length of a job's body.
    pub closed spec fn limit(&self) -> u32 {
        self.max_job_size
    }

    /// A codec with the default ceiling on the length of a job's body.
    pub fn new() -> (out: Self)
        ensures
            out.limit() == MAX_JOB_SIZE,
    {
        Self { max_job_size: MAX_JOB_SIZE }
    }

    /// A codec with the given ceiling on the length of a job's body.
    pub fn with_max_job_size(max_job_size: u32) -> (out: Self)
        ensures
            out.limit() == max_job_size,
    {
        Self { max_job_size }
    }

    /// The ceiling on the length of a job's body.
    pub fn max_job_size(&self) -> (out: u32)
        ensures
            out == self.limit(),
    {
        self.max_job_size
    }

    /// Takes the frame at the start of the buffer out of it. Where more bytes are
    /// needed, or the bytes are not a frame, the buffer stays as it is.
    pub fn decode(&mut self, buf: &mut BytesMut) -> (out: Result<Option<Vec<Data>>, Error>)
        ensures
            final(self).limit() == old(self).limit(),
            match frame(buf_seq(*old(buf)), old(self).limit()) {
                Scan::Incomplete => out is Ok && out->Ok_0 is None && buf_seq(*final(buf))
                    == buf_seq(*old(buf)),
                Scan::Failed(e) => out is Err && out->Err_0 == e && buf_seq(*final(buf))
                    == buf_seq(*old(buf)),
                Scan::Done(ts, used) => out matches Ok(Some(v)) && frame_view(v@) == ts
                    && buf_seq(*final(buf)) == buf_seq(*old(buf)).skip(used),
            },
    {
        let found = read_frame(buf_as_slice(buf), self.max_job_size);
        match found {
            Err(e) => Err(e),
            Ok(None) => Ok(None),
            Ok(Some((toks, used))) => {
                buf_advance(buf, used);
                Ok(Some(toks))
            },
        }
    }

    /// Makes the buffer fit for reading on after an error of `decode`, and says whether
    /// it is: after `BAD_FORMAT` nothing can be read, and the buffer stays; after any other
    /// error what was buffered is dropped, and with it the command that was wrong.
    pub fn recover(&mut self, buf: &mut BytesMut, error: Error) -> (out: bool)
        ensures
            final(self).limit() == old(self).limit(),
            out == (error != Error::BadFormat),
            buf_seq(*final(buf)) == if out {
                Seq::<u8>::empty()
            } else {
                buf_seq(*old(buf))
            },
    {
        if error == Error::BadFormat {
            false
        } else {
            buf_clear(buf);
            true
        }
    }

    /// Appends the frame to the buffer: its tokens with single spaces between them, none
    /// beside a line end, then `\r\n`. Where the buffer would get longer than a buffer
    /// can be, it stays as it is, and the error is `INTERNAL_ERROR`.
    pub fn encode(&mut self, data: Vec<Data>, buf: &mut BytesMut) -> (out: Result<(), Error>)
        ensures
            final(self).limit() == old(self).limit(),
            out is Ok <==> buf_seq(*old(buf)).len() + encoded(frame_view(data@)).len()
                <= isize::MAX,
            out is Ok ==> buf_seq(*final(buf)) == buf_seq(*old(buf)) + encoded(
                frame_view(data@),
            ),
            out matches Err(e) ==> e == Error::InternalError && buf_seq(*final(buf)) == buf_seq(
                *old(buf),
            ),
    {
        let ghost ts = frame_view(data@);
        let ghost start = buf_seq(*buf);
        let used = buf_as_slice(buf).len();
        if used > isize::MAX as usize {
            return Err(Error::InternalError);
        }
        let room = (isize::MAX as usize) - used;
        match encoded_len(&data, room) {
            None => {
                return Err(Error::InternalError);
            },
            Some(_) => {},
        }
        let length = data.len();
        let mut i: usize = 0;
        while i < length
            invariant
                0 <= i <= length,
                length == data@.len(),
                ts == frame_view(data@),
                buf_seq(*buf) == start + written(ts, i as int),
                start.len() + encoded(ts).len() <= isize::MAX,
            decreases length - i,
        {
            proof {
                lemma_written_grows(ts, i + 1, length as int);
                assert(ts[i as int] == data@[i as int]@);
            }
            let ghost before = buf_seq(*buf);
            match &data[i] {
                Data::String(name) => buf_put_slice(buf, name.as_str().as_bytes()),
                Data::Integer(n) => {
                    let mut digits: Vec<u8> = Vec::new();
                    push_decimal(*n as u64, &mut digits);
                    assert(digits@ =~= decimal(*n as nat));
                    buf_put_slice(buf, digits.as_slice());
                },
                Data::Bytes(bytes) => buf_put_slice(buf, bytes_as_slice(bytes)),
                Data::Crlf => {
                    buf_put_u8(buf, CR);
                    buf_put_u8(buf, LF);
                    assert(buf_seq(*buf) =~= before + crlf());
                },
            }
            assert(buf_seq(*buf) == before + token_bytes(ts[i as int]));
            let space = i + 1 < length && !is_crlf(&data[i]) && !is_crlf(&data[i + 1]);
            proof {
                if i + 1 < length {
                    assert(ts[i + 1] == data@[i + 1]@);
                }
            }
            if space {
                buf_put_u8(buf, SPACE);
            }
            proof {
                assert(buf_seq(*buf) =~= start + written(ts, i + 1));
            }
            i += 1;
        }
        buf_put_u8(buf, CR);
        buf_put_u8(buf, LF);
        proof {
            assert(buf_seq(*buf) =~= start + encoded(ts));
        }
        Ok(())
    }
}

/// The number of bytes that a token is written as.
fn token_len(d: &Data) -> (n: usize)
    ensures
        n == token_bytes(d@).len(),
{
    match d {
        Data::String(name) => name.as_str().as_bytes().len(),
        Data::Integer(n) => {
            let mut digits: Vec<u8> = Vec::new();
            push_decimal(*n as u64, &mut digits);
            assert(digits@ =~= decimal(*n as nat));
            digits.len()
        },
        Data::Bytes(bytes) => bytes_as_slice(bytes).len(),
        Data::Crlf => 2,
    }
}

/// The number of bytes that a frame is written as, if it is at most `room`.
pub fn encoded_len(data: &Vec<Data>, room: usize) -> (out: Option<usize>)
    ensures
        match out {
            Some(n) => n == encoded(frame_view(data@)).len() && n <= room,
            None => encoded(frame_view(data@)).len() > room,
        },
{
    let ghost ts = frame_view(data@);
    if room < 2 {
        return None;
    }
    let limit = room - 2;
    let length = data.len();
    let mut total: usize = 0;
    let mut i: usize = 0;
    while i < length
        invariant
            0 <= i <= length,
            length == data@.len(),
            ts == frame_view(data@),
            limit == room - 2,
            total == written(ts, i as int).len(),
            total <= limit,
        decreases length - i,
    {
        proof {
            assert(ts[i as int] == data@[i as int]@);
            lemma_written_grows(ts, i + 1, length as int);
            if i + 1 < length {
                assert(ts[i + 1] == data@[i + 1]@);
            }
        }
        let n = token_len(&data[i]);
        let space: usize = if i + 1 < length && !is_crlf(&data[i]) && !is_crlf(&data[i + 1]) {
            1
        } else {
            0
        };
        if n > limit - total || space > limit - total - n {
            return None;
        }
        total = total + n + space;
        i += 1;
    }
    Some(total + 2)
}

/// Whether a token is a line end.
fn is_crlf(d: &Data) -> (out: bool)
    ensures
        out == (d@ is Crlf),
{
    match d {
        Data::Crlf => true,
        _ => false,
    }
}

} // verus!
