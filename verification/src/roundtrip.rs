//! What is written for a request reads back as that request.

use vstd::prelude::*;
use vstd::utf8::{encode_utf8, encode_utf8_decode_utf8};
use crate::codec::{
    encoded, expects_body, field, field_end, frame, lemma_field_end, line, number, prepend,
    spaced, token_bytes, written, Scan, Token, MAX_LINE, MAX_NAME,
};
use crate::text::{
    all_ascii, all_digits, all_name_chars, ascii, crlf, decimal, is_digit, is_space,
    lemma_ascii_utf8, lemma_decimal, CR, HYPHEN, LF, SPACE,
};

verus! {

/// A name that the codec reads as a name: one to `MAX_NAME` name characters, the first
/// neither a digit nor `-`.
pub open spec fn is_name(s: Seq<char>) -> bool {
    let f = encode_utf8(s);
    1 <= f.len() <= MAX_NAME && all_name_chars(f) && !is_digit(f[0]) && f[0] != HYPHEN
}

/// A token that stands on a command line: a name or a number.
pub open spec fn is_plain(t: Token) -> bool {
    match t {
        Token::Name(s) => is_name(s),
        Token::Integer(_) => true,
        _ => false,
    }
}

/// The number of tokens on the command line of `ts`: all of them, or all but a line end
/// and a body at the end.
pub open spec fn line_len(ts: Seq<Token>) -> int {
    if ts.len() >= 2 && ts[ts.len() - 2] is Crlf && ts.last() is Bytes {
        ts.len() - 2
    } else {
        ts.len() as int
    }
}

/// A frame as a client sends it: a line of names and numbers; after it a line end and a
/// body, if and only if the line is a `put` that ends in a number, which is then the
/// body's length and within the ceiling; no longer than `MAX_LINE` when written.
pub open spec fn is_request(ts: Seq<Token>, max_job_size: u32) -> bool {
    let m = line_len(ts);
    &&& m >= 1
    &&& forall|i: int| 0 <= i < m ==> is_plain(#[trigger] ts[i])
    &&& expects_body(ts.take(m)) <==> m < ts.len()
    &&& m < ts.len() ==> ts.last()->Bytes_0.len() == ts[m - 1]->Integer_0 && ts[m
        - 1]->Integer_0 <= max_job_size
    &&& encoded(ts).len() <= MAX_LINE
}

/// The tokens of a frame without the line ends that only shape it.
pub open spec fn without_crlf(ts: Seq<Token>) -> Seq<Token> {
    ts.filter(|t: Token| !(t is Crlf))
}

/// A run of bytes without whitespace, followed by whitespace or the end, is one field.
proof fn lemma_field_end_at(s: Seq<u8>, i: int, e: int)
    requires
        0 <= i <= e <= s.len(),
        forall|j: int| i <= j < e ==> !is_space(#[trigger] s[j]),
        e < s.len() ==> is_space(s[e]),
    ensures
        field_end(s, i) == e,
    decreases e - i,
{
    if i < e {
        lemma_field_end_at(s, i + 1, e);
    }
}

/// A name or a number is written as a field without whitespace that reads as itself.
proof fn lemma_plain_field(t: Token)
    requires
        is_plain(t),
    ensures
        token_bytes(t).len() >= 1,
        forall|j: int| 0 <= j < token_bytes(t).len() ==> !is_space(#[trigger] token_bytes(t)[j]),
        field(token_bytes(t)) == Ok::<Token, crate::error::Error>(t),
{
    let f = token_bytes(t);
    match t {
        Token::Name(s) => {
            assert(all_ascii(f)) by {
                assert forall|i: int| 0 <= i < f.len() implies #[trigger] f[i] < 128 by {
                    assert(crate::text::is_name_char(f[i]));
                }
            }
            lemma_ascii_utf8(f);
            encode_utf8_decode_utf8(s);
            assert(ascii(f) == s);
            assert forall|j: int| 0 <= j < f.len() implies !is_space(#[trigger] f[j]) by {
                assert(crate::text::is_name_char(f[j]));
            }
        },
        Token::Integer(n) => {
            lemma_decimal(n as nat);
            assert(is_digit(f[0]));
            assert(all_ascii(f)) by {
                assert forall|i: int| 0 <= i < f.len() implies #[trigger] f[i] < 128 by {
                    assert(is_digit(f[i]));
                }
            }
            lemma_ascii_utf8(f);
            assert(number(f) == Ok::<u32, crate::error::Error>(n));
            assert forall|j: int| 0 <= j < f.len() implies !is_space(#[trigger] f[j]) by {
                assert(is_digit(f[j]));
            }
        },
        _ => {},
    }
}

/// What is written for the first `k` tokens starts what is written for the first `n`.
proof fn lemma_written_prefix(ts: Seq<Token>, k: int, n: int)
    requires
        0 <= k <= n,
    ensures
        written(ts, k).len() <= written(ts, n).len(),
        forall|j: int| 0 <= j < written(ts, k).len() ==> written(ts, n)[j] == written(ts, k)[j],
    decreases n - k,
{
    if k < n {
        lemma_written_prefix(ts, k, n - 1);
    }
}

/// On the line of a request, each token but the last is followed by a space, and the
/// last by nothing.
proof fn lemma_written_step(ts: Seq<Token>, max_job_size: u32, k: int)
    requires
        is_request(ts, max_job_size),
        0 <= k < line_len(ts),
    ensures
        k + 1 < line_len(ts) ==> written(ts, k + 1) == written(ts, k) + token_bytes(ts[k])
            + seq![SPACE],
        k + 1 == line_len(ts) ==> written(ts, k + 1) == written(ts, k) + token_bytes(ts[k]),
{
    let m = line_len(ts);
    assert(is_plain(ts[k]));
    if k + 1 < m {
        assert(is_plain(ts[k + 1]));
        assert(spaced(ts, k));
    } else {
        assert(!spaced(ts, k));
        assert(written(ts, k + 1) =~= written(ts, k) + token_bytes(ts[k]));
    }
}

/// Bytes that start with the written line of a request and its `\r\n` read, from the
/// place of the `k`-th token on, as the rest of the line.
proof fn lemma_line_reads(ts: Seq<Token>, max_job_size: u32, b: Seq<u8>, k: int)
    requires
        is_request(ts, max_job_size),
        0 <= k < line_len(ts),
        b.len() >= written(ts, line_len(ts)).len() + 2,
        forall|j: int|
            0 <= j < written(ts, line_len(ts)).len() ==> b[j] == written(ts, line_len(ts))[j],
        b[written(ts, line_len(ts)).len() as int] == CR,
        b[written(ts, line_len(ts)).len() as int + 1] == LF,
    ensures
        line(b, written(ts, k).len() as int) == Scan::Done(
            ts.subrange(k, line_len(ts)),
            written(ts, line_len(ts)).len() as int + 2,
        ),
    decreases line_len(ts) - k,
{
    let m = line_len(ts);
    let p = written(ts, k).len() as int;
    let f = token_bytes(ts[k]);
    let e = p + f.len() as int;
    assert(is_plain(ts[k]));
    lemma_plain_field(ts[k]);
    lemma_written_step(ts, max_job_size, k);
    lemma_written_prefix(ts, k + 1, m);
    assert(e <= written(ts, k + 1).len());
    assert forall|j: int| p <= j < e implies b[j] == f[j - p] by {
        assert(written(ts, k + 1)[j] == f[j - p]);
        assert(b[j] == written(ts, m)[j]);
    }
    assert(b.subrange(p, e) =~= f);
    if k + 1 < m {
        assert(written(ts, k + 1)[e] == SPACE);
        assert(b[e] == written(ts, m)[e]);
        assert(b[e] == SPACE);
        lemma_field_end_at(b, p, e);
        lemma_line_reads(ts, max_job_size, b, k + 1);
        assert(written(ts, k + 1).len() == e + 1);
        assert(seq![ts[k]] + ts.subrange(k + 1, m) =~= ts.subrange(k, m));
    } else {
        assert(written(ts, m).len() == e);
        lemma_field_end_at(b, p, e);
        assert(seq![ts[k]] =~= ts.subrange(k, m));
    }
}

/// Dropping the line ends of a request leaves its line and, where it has one, its body.
proof fn lemma_without_crlf(ts: Seq<Token>, max_job_size: u32)
    requires
        is_request(ts, max_job_size),
    ensures
        line_len(ts) == ts.len() ==> without_crlf(ts) == ts,
        line_len(ts) < ts.len() ==> without_crlf(ts) == ts.take(line_len(ts)).push(ts.last()),
{
    let m = line_len(ts);
    let keep = |t: Token| !(t is Crlf);
    let l = ts.take(m);
    assert forall|i: int| 0 <= i < l.len() implies keep(#[trigger] l[i]) by {
        assert(is_plain(ts[i]));
    }
    lemma_filter_all(l, keep);
    if m == ts.len() {
        assert(l =~= ts);
    } else {
        let tail = seq![ts[m], ts.last()];
        assert(ts =~= l + tail);
        Seq::filter_distributes_over_add(l, tail, keep);
        reveal_with_fuel(Seq::filter, 3);
        assert(tail.drop_last() =~= seq![ts[m]]);
        assert(seq![ts[m]].drop_last() =~= Seq::<Token>::empty());
        assert(tail.filter(keep) =~= seq![ts.last()]);
        assert(l + seq![ts.last()] =~= l.push(ts.last()));
    }
}

/// Filtering keeps a sequence whose every item passes.
proof fn lemma_filter_all(s: Seq<Token>, keep: spec_fn(Token) -> bool)
    requires
        forall|i: int| 0 <= i < s.len() ==> keep(#[trigger] s[i]),
    ensures
        s.filter(keep) == s,
    decreases s.len(),
{
    reveal(Seq::filter);
    if s.len() > 0 {
        lemma_filter_all(s.drop_last(), keep);
        assert(s.drop_last().push(s.last()) =~= s);
    }
}

/// Writing a request and reading the bytes back gives the request without its line
/// ends, and takes every byte.
pub proof fn lemma_decode_encode(ts: Seq<Token>, max_job_size: u32)
    requires
        is_request(ts, max_job_size),
    ensures
        frame(encoded(ts), max_job_size) == Scan::Done(
            without_crlf(ts),
            encoded(ts).len() as int,
        ),
{
    let m = line_len(ts);
    let b = encoded(ts);
    let n = ts.len() as int;
    let w = written(ts, m);
    lemma_without_crlf(ts, max_job_size);
    lemma_written_prefix(ts, m, n);
    if m == n {
        assert(b =~= w + crlf());
        lemma_line_reads(ts, max_job_size, b, 0);
        assert(ts.subrange(0, m) =~= ts.take(m));
        assert(ts.take(m) =~= ts);
    } else {
        let body = ts.last()->Bytes_0;
        assert(!spaced(ts, m));
        assert(!spaced(ts, m + 1));
        assert(written(ts, m + 1) =~= w + crlf());
        assert(written(ts, n) =~= w + crlf() + body);
        assert(b =~= w + crlf() + body + crlf());
        lemma_line_reads(ts, max_job_size, b, 0);
        assert(ts.subrange(0, m) =~= ts.take(m));
        let end = w.len() as int + 2;
        assert(ts.take(m).last() == ts[m - 1]);
        assert(b.subrange(end, end + body.len() as int) =~= body);
    }
}

} // verus!
