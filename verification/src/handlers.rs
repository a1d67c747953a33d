//! What each command does to the store and to the connection, and what it answers.

use vstd::prelude::*;
use vstd::utf8::encode_utf8;
use bytes::Bytes;
use crate::buffer::{bytes_as_slice, bytes_from_slice, bytes_seq};
use crate::cmd::Cmd;
use crate::codec::{frame_view, Data, Token};
use crate::connection::{ConnInfo, Connection};
use crate::error::Error;
use crate::queue::{time_after, Job, Queue};
use crate::store::{later, lemma_next, JobState, Store, TimerEvent};
use crate::text::{all_name_chars, decimal, push_decimal, COLON, HYPHEN, LF, SPACE};
use crate::codec::valid_name_char;

verus! {

/// What a command leaves behind: the store, the connection, and the answer. An answer
/// without tokens is none: nothing is sent.
pub struct Outcome {
    pub queue: Store,
    pub conn: ConnInfo,
    pub reply: Result<Seq<Token>, Error>,
}

/// An answer as plain values.
pub open spec fn reply_view(out: Result<Vec<Data>, Error>) -> Result<Seq<Token>, Error> {
    match out {
        Ok(frame) => Ok(frame_view(frame@)),
        Err(e) => Err(e),
    }
}

/// A length as it is written in an answer: the greatest number where it is beyond it.
pub open spec fn length(n: nat) -> u32 {
    if n > u32::MAX {
        u32::MAX
    } else {
        n as u32
    }
}

/// An answer of one word.
pub open spec fn said(word: Seq<char>) -> Seq<Token> {
    seq![Token::Name(word)]
}

/// An answer of one word and a number.
pub open spec fn counted(word: Seq<char>, n: u32) -> Seq<Token> {
    seq![Token::Name(word), Token::Integer(n)]
}

/// An answer of one word and a name.
pub open spec fn named(word: Seq<char>, name: Seq<char>) -> Seq<Token> {
    seq![Token::Name(word), Token::Name(name)]
}

/// An answer that hands out a job: the word, the id, the length of the body, and on a
/// line of its own the body.
pub open spec fn job_reply(word: Seq<char>, id: u32, body: Seq<u8>) -> Seq<Token> {
    seq![
        Token::Name(word),
        Token::Integer(id),
        Token::Integer(length(body.len())),
        Token::Crlf,
        Token::Bytes(body),
    ]
}

/// An answer that hands out a text: `OK`, the length of the text, and on a line of its
/// own the text.
pub open spec fn text_reply(body: Seq<u8>) -> Seq<Token> {
    seq![
        Token::Name("OK"@),
        Token::Integer(length(body.len())),
        Token::Crlf,
        Token::Bytes(body),
    ]
}

/// The line `---` that starts a text.
pub open spec fn header() -> Seq<u8> {
    seq![HYPHEN, HYPHEN, HYPHEN, LF]
}

/// The lines of the first `n` names of a list: `- `, the name, a line feed.
pub open spec fn list_lines(names: Seq<Seq<char>>, n: int) -> Seq<u8>
    decreases n,
{
    if n <= 0 {
        Seq::empty()
    } else {
        list_lines(names, n - 1) + seq![HYPHEN, SPACE] + encode_utf8(names[n - 1]) + seq![LF]
    }
}

/// A list of names as a text.
pub open spec fn list_text(names: Seq<Seq<char>>) -> Seq<u8> {
    header() + list_lines(names, names.len() as int)
}

/// One line of a description: the key, `: `, the value, a line feed.
pub open spec fn field_line(key: Seq<char>, value: Seq<u8>) -> Seq<u8> {
    encode_utf8(key) + seq![COLON, SPACE] + value + seq![LF]
}

/// The word for a state.
pub open spec fn state_word(state: JobState) -> Seq<char> {
    match state {
        JobState::Delayed => "delayed"@,
        JobState::Ready => "ready"@,
        JobState::Reserved => "reserved"@,
        JobState::Buried => "buried"@,
    }
}

/// The description of a job: its id, tube, state, priority and time to run.
pub open spec fn job_text(q: Store, id: u32) -> Seq<u8> {
    let j = q.jobs[id];
    header() + field_line("id"@, decimal(id as nat)) + field_line(
        "tube"@,
        encode_utf8(q.tubes[j.tube].name),
    ) + field_line("state"@, encode_utf8(state_word(j.state))) + field_line(
        "pri"@,
        decimal(j.pri as nat),
    ) + field_line("ttr"@, decimal(j.ttr as nat))
}

/// The description of a tube: its name and the numbers of its ready, delayed and
/// buried jobs.
pub open spec fn tube_text(q: Store, tube: Seq<char>) -> Seq<u8> {
    let t = q.tubes[q.tube_of(tube)];
    header() + field_line("name"@, encode_utf8(tube)) + field_line(
        "current-jobs-ready"@,
        decimal(t.ready.len()),
    ) + field_line("current-jobs-delayed"@, decimal(t.delayed.len())) + field_line(
        "current-jobs-buried"@,
        decimal(t.buried.len()),
    )
}

/// The description of the server: the numbers of its tubes, of the jobs that were ever
/// put, and of the connections that wait.
pub open spec fn server_text(q: Store) -> Seq<u8> {
    header() + field_line("current-tubes"@, decimal(q.names().len())) + field_line(
        "total-jobs"@,
        decimal((q.next_id - 1) as nat),
    ) + field_line("current-waiting"@, decimal(q.waiters.len()))
}

/// Whether a connection may delete a job: there is one, and no other connection holds
/// it.
pub open spec fn may_delete(q: Store, id: u32, conn: u64) -> bool {
    q.jobs.contains_key(id) && (q.jobs[id].state != JobState::Reserved || q.jobs[id].reserver
        == conn)
}

/// `put`: turned away with `DRAINING` while the server drains, with `INTERNAL_ERROR`
/// where no id is left; else the job enters the used tube, ready where `delay` is 0,
/// and the answer is `INSERTED` and the id.
pub open spec fn put_outcome(
    c: ConnInfo,
    q: Store,
    pri: u32,
    delay: u32,
    ttr: u32,
    body: Seq<u8>,
    now: u64,
) -> Outcome {
    if q.draining {
        Outcome { queue: q, conn: c, reply: Err(Error::Draining) }
    } else if q.next_id > u32::MAX {
        Outcome { queue: q, conn: c, reply: Err(Error::InternalError) }
    } else {
        Outcome {
            queue: if delay == 0 {
                q.put(c.used, pri, ttr, body, JobState::Ready, 0)
            } else {
                q.put(c.used, pri, ttr, body, JobState::Delayed, later(now, delay))
            },
            conn: c,
            reply: Ok(counted("INSERTED"@, q.next_id as u32)),
        }
    }
}

/// The longest name of a tube, in bytes.
pub const MAX_TUBE_NAME: usize = 200;

/// Whether a tube can have this name: one to `MAX_TUBE_NAME` name characters, the first
/// not `-`.
pub open spec fn is_tube_name(name: Seq<char>) -> bool {
    let f = encode_utf8(name);
    1 <= f.len() <= MAX_TUBE_NAME && all_name_chars(f) && f[0] != HYPHEN
}

/// What a command that names a tube leaves behind: `BAD_FORMAT`, and nothing else, where
/// no tube can have the name; else what it does with the tube.
pub open spec fn for_tube(c: ConnInfo, q: Store, tube: Seq<char>, done: Outcome) -> Outcome {
    if is_tube_name(tube) {
        done
    } else {
        Outcome { queue: q, conn: c, reply: Err(Error::BadFormat) }
    }
}

/// `use`: the tube is made if there is none and becomes the used one, in place of the one
/// that was; the answer is `USING` and its name.
pub open spec fn use_outcome(c: ConnInfo, q: Store, tube: Seq<char>) -> Outcome {
    for_tube(
        c,
        q,
        tube,
        Outcome {
            queue: q.retain(tube).release_ref(c.used),
            conn: ConnInfo { used: tube, ..c },
            reply: Ok(named("USING"@, tube)),
        },
    )
}

/// `watch`: the tube enters the watch-set, and is made if there is none, unless it is
/// watched; the answer is `WATCHING` and the size of the watch-set.
pub open spec fn watch_outcome(c: ConnInfo, q: Store, tube: Seq<char>) -> Outcome {
    for_tube(
        c,
        q,
        tube,
        Outcome {
            queue: if c.watched.contains(tube) {
                q
            } else {
                q.retain(tube)
            },
            conn: c.watch(tube),
            reply: Ok(counted("WATCHING"@, length(c.watch(tube).watched.len()))),
        },
    )
}

/// `ignore`: refused with `NOT_IGNORED` where the tube is the only one watched; else the
/// tube leaves the watch-set, and the answer is `WATCHING` and the size of the
/// watch-set.
pub open spec fn ignore_outcome(c: ConnInfo, q: Store, tube: Seq<char>) -> Outcome {
    for_tube(
        c,
        q,
        tube,
        if c.watched == seq![tube] {
            Outcome { queue: q, conn: c, reply: Err(Error::NotIgnored) }
        } else {
            Outcome {
                queue: if c.watched.contains(tube) {
                    q.release_ref(tube)
                } else {
                    q
                },
                conn: c.ignore(tube),
                reply: Ok(counted("WATCHING"@, length(c.ignore(tube).watched.len()))),
            }
        },
    )
}

/// What a reservation leaves behind, where a job is handed out: the job is reserved
/// for the connection, which holds it, and the answer is `RESERVED`, the id and the
/// body.
pub open spec fn reserved_outcome(c: ConnInfo, q: Store, id: u32, now: u64) -> Outcome {
    Outcome {
        queue: q.reserve(id, c.id, now),
        conn: c.hold(id, q.jobs[id].ttr),
        reply: Ok(job_reply("RESERVED"@, id, q.jobs[id].body)),
    }
}

/// `reserve-with-timeout`: where a watched tube offers a job, the job that goes first
/// is handed out. Where none does, the answer is `TIMED_OUT` if `seconds` is 0; else the
/// connection waits, for `seconds` seconds at most, and there is no answer yet.
pub open spec fn reserve_with_timeout_outcome(
    c: ConnInfo,
    q: Store,
    seconds: u32,
    now: u64,
) -> Outcome {
    match q.next(c.watched, now) {
        Some(id) => reserved_outcome(c, q, id, now),
        None => if seconds == 0 {
            Outcome { queue: q, conn: c, reply: Err(Error::TimedOut) }
        } else {
            Outcome {
                queue: q.park(c.id, c.watched, Some(later(now, seconds))),
                conn: ConnInfo { waiting: true, ..c },
                reply: Ok(Seq::empty()),
            }
        },
    }
}

/// `reserve`: where a watched tube offers a job, the job that goes first is handed out;
/// else the connection waits, and there is no answer yet.
pub open spec fn reserve_outcome(c: ConnInfo, q: Store, now: u64) -> Outcome {
    match q.next(c.watched, now) {
        Some(id) => reserved_outcome(c, q, id, now),
        None => Outcome {
            queue: q.park(c.id, c.watched, None),
            conn: ConnInfo { waiting: true, ..c },
            reply: Ok(Seq::empty()),
        },
    }
}

/// `reserve-job`: a job that exists and is not reserved is handed out; else the answer
/// is `NOT_FOUND`.
pub open spec fn reserve_job_outcome(c: ConnInfo, q: Store, id: u32, now: u64) -> Outcome {
    if q.jobs.contains_key(id) && q.jobs[id].state != JobState::Reserved {
        reserved_outcome(c, q, id, now)
    } else {
        Outcome { queue: q, conn: c, reply: Err(Error::NotFound) }
    }
}

/// `delete`: a job that exists and that no other connection holds leaves the store, and
/// the answer is `DELETED`; else the answer is `NOT_FOUND`. Either way the connection no
/// longer counts the job among those it holds.
pub open spec fn delete_outcome(c: ConnInfo, q: Store, id: u32) -> Outcome {
    if may_delete(q, id, c.id) {
        Outcome { queue: q.removed(id), conn: c.drop(id), reply: Ok(said("DELETED"@)) }
    } else {
        Outcome { queue: q, conn: c.drop(id), reply: Err(Error::NotFound) }
    }
}

/// `release`: a job that the connection holds becomes ready, or delayed where `delay`
/// is not 0, with the new priority, and the answer is `RELEASED`; else the answer is
/// `NOT_FOUND`. Either way the connection no longer counts the job among those it holds.
pub open spec fn release_outcome(
    c: ConnInfo,
    q: Store,
    id: u32,
    pri: u32,
    delay: u32,
    now: u64,
) -> Outcome {
    if q.held_by(id, c.id) {
        Outcome {
            queue: q.release(id, pri, delay, now),
            conn: c.drop(id),
            reply: Ok(said("RELEASED"@)),
        }
    } else {
        Outcome { queue: q, conn: c.drop(id), reply: Err(Error::NotFound) }
    }
}

/// `bury`: a job that the connection holds is set aside, with the new priority, and the
/// answer is `BURIED`; else the answer is `NOT_FOUND`. Either way the connection no longer
/// counts the job among those it holds.
pub open spec fn bury_outcome(c: ConnInfo, q: Store, id: u32, pri: u32) -> Outcome {
    if q.held_by(id, c.id) {
        Outcome { queue: q.bury(id, pri), conn: c.drop(id), reply: Ok(said("BURIED"@)) }
    } else {
        Outcome { queue: q, conn: c.drop(id), reply: Err(Error::NotFound) }
    }
}

/// `touch`: the time of a job that the connection holds is extended, and the answer is
/// `TOUCHED`; else the answer is `NOT_FOUND`.
pub open spec fn touch_outcome(c: ConnInfo, q: Store, id: u32) -> Outcome {
    if q.held_by(id, c.id) {
        Outcome { queue: q.touch(id), conn: c, reply: Ok(said("TOUCHED"@)) }
    } else {
        Outcome { queue: q, conn: c, reply: Err(Error::NotFound) }
    }
}

/// The answer that shows a job, if there is one to show.
pub open spec fn found(c: ConnInfo, q: Store, id: Option<u32>) -> Outcome {
    Outcome {
        queue: q,
        conn: c,
        reply: match id {
            Some(id) => Ok(job_reply("FOUND"@, id, q.jobs[id].body)),
            None => Err(Error::NotFound),
        },
    }
}

/// `peek`: the answer shows the job of this id, or is `NOT_FOUND`.
pub open spec fn peek_outcome(c: ConnInfo, q: Store, id: u32) -> Outcome {
    found(
        c,
        q,
        if q.jobs.contains_key(id) {
            Some(id)
        } else {
            None
        },
    )
}

/// `peek-ready`: the answer shows the ready job of the used tube that is reserved next,
/// or is `NOT_FOUND`.
pub open spec fn peek_ready_outcome(c: ConnInfo, q: Store) -> Outcome {
    let l = q.tubes[q.tube_of(c.used)].ready;
    found(
        c,
        q,
        if q.has_tube(c.used) && l.len() > 0 {
            Some(l[0])
        } else {
            None
        },
    )
}

/// `peek-buried`: the answer shows the job of the used tube that was buried first, or is
/// `NOT_FOUND`.
pub open spec fn peek_buried_outcome(c: ConnInfo, q: Store) -> Outcome {
    let l = q.tubes[q.tube_of(c.used)].buried;
    found(
        c,
        q,
        if q.has_tube(c.used) && l.len() > 0 {
            Some(l[0])
        } else {
            None
        },
    )
}

/// `peek-delayed`: the answer shows the delayed job of the used tube whose delay is over
/// first, or is `NOT_FOUND`.
pub open spec fn peek_delayed_outcome(c: ConnInfo, q: Store) -> Outcome {
    let l = q.tubes[q.tube_of(c.used)].delayed;
    found(
        c,
        q,
        if q.has_tube(c.used) && l.len() > 0 {
            Some(l[q.soonest(l, l.len() as int)])
        } else {
            None
        },
    )
}

/// `kick`: buried jobs of the used tube, or delayed ones where none is buried, become
/// ready, `bound` at most; the answer is `KICKED` and their number.
pub open spec fn kick_outcome(c: ConnInfo, q: Store, bound: u32) -> Outcome {
    Outcome {
        queue: q.kick(c.used, bound),
        conn: c,
        reply: Ok(counted("KICKED"@, q.kick_count(c.used, bound) as u32)),
    }
}

/// `kick-job`: a buried or delayed job becomes ready, and the answer is `KICKED`; else
/// the answer is `NOT_FOUND`.
pub open spec fn kick_job_outcome(c: ConnInfo, q: Store, id: u32) -> Outcome {
    if q.jobs.contains_key(id) && (q.jobs[id].state == JobState::Buried || q.jobs[id].state
        == JobState::Delayed) {
        Outcome { queue: q.readied(id, q.jobs[id].pri), conn: c, reply: Ok(said("KICKED"@)) }
    } else {
        Outcome { queue: q, conn: c, reply: Err(Error::NotFound) }
    }
}

/// `pause-tube`: a tube that exists is paused until `delay` seconds after `now`, and the
/// answer is `PAUSED`; else the answer is `NOT_FOUND`.
pub open spec fn pause_tube_outcome(
    c: ConnInfo,
    q: Store,
    tube: Seq<char>,
    delay: u32,
    now: u64,
) -> Outcome {
    for_tube(
        c,
        q,
        tube,
        if q.has_live_tube(tube) {
            Outcome {
                queue: q.pause(q.tube_of(tube), later(now, delay)),
                conn: c,
                reply: Ok(said("PAUSED"@)),
            }
        } else {
            Outcome { queue: q, conn: c, reply: Err(Error::NotFound) }
        },
    )
}

/// An answer that changes nothing.
pub open spec fn told(c: ConnInfo, q: Store, reply: Result<Seq<Token>, Error>) -> Outcome {
    Outcome { queue: q, conn: c, reply }
}

/// `stats-job`: the answer describes the job, or is `NOT_FOUND`.
pub open spec fn stats_job_outcome(c: ConnInfo, q: Store, id: u32) -> Outcome {
    told(
        c,
        q,
        if q.jobs.contains_key(id) {
            Ok(text_reply(job_text(q, id)))
        } else {
            Err(Error::NotFound)
        },
    )
}

/// `stats-tube`: the answer describes the tube, or is `NOT_FOUND`.
pub open spec fn stats_tube_outcome(c: ConnInfo, q: Store, tube: Seq<char>) -> Outcome {
    for_tube(
        c,
        q,
        tube,
        told(
            c,
            q,
            if q.has_live_tube(tube) {
                Ok(text_reply(tube_text(q, tube)))
            } else {
                Err(Error::NotFound)
            },
        ),
    )
}

/// `quit`: the connection is to be closed, and there is no answer.
pub open spec fn quit_outcome(c: ConnInfo, q: Store) -> Outcome {
    Outcome { queue: q, conn: ConnInfo { closing: true, ..c }, reply: Ok(Seq::empty()) }
}

impl Cmd {
    /// What the command leaves behind.
    pub open spec fn outcome(&self, c: ConnInfo, q: Store, now: u64) -> Outcome {
        match self {
            Cmd::Put { pri, delay, ttr, bytes, data } => put_outcome(
                c,
                q,
                *pri,
                *delay,
                *ttr,
                bytes_seq(*data),
                now,
            ),
            Cmd::Use { tube } => use_outcome(c, q, tube@),
            Cmd::Reserve => reserve_outcome(c, q, now),
            Cmd::ReserveWithTimeout { seconds } => reserve_with_timeout_outcome(
                c,
                q,
                *seconds,
                now,
            ),
            Cmd::ReserveJob { id } => reserve_job_outcome(c, q, *id, now),
            Cmd::Delete { id } => delete_outcome(c, q, *id),
            Cmd::Release { id, pri, delay } => release_outcome(c, q, *id, *pri, *delay, now),
            Cmd::Bury { id, pri } => bury_outcome(c, q, *id, *pri),
            Cmd::Touch { id } => touch_outcome(c, q, *id),
            Cmd::Watch { tube } => watch_outcome(c, q, tube@),
            Cmd::Ignore { tube } => ignore_outcome(c, q, tube@),
            Cmd::Peek { id } => peek_outcome(c, q, *id),
            Cmd::PeekReady => peek_ready_outcome(c, q),
            Cmd::PeekDelayed => peek_delayed_outcome(c, q),
            Cmd::PeekBuried => peek_buried_outcome(c, q),
            Cmd::Kick { bound } => kick_outcome(c, q, *bound),
            Cmd::KickJob { id } => kick_job_outcome(c, q, *id),
            Cmd::StatsJob { id } => stats_job_outcome(c, q, *id),
            Cmd::StatsTube { tube } => stats_tube_outcome(c, q, tube@),
            Cmd::Stats => told(c, q, Ok(text_reply(server_text(q)))),
            Cmd::ListTubes => told(c, q, Ok(text_reply(list_text(q.names())))),
            Cmd::ListTubeUsed => told(c, q, Ok(named("USING"@, c.used))),
            Cmd::ListTubesWatched => told(c, q, Ok(text_reply(list_text(c.watched)))),
            Cmd::Quit => quit_outcome(c, q),
            Cmd::PauseTube { tube_name, delay } => pause_tube_outcome(
                c,
                q,
                tube_name@,
                *delay,
                now,
            ),
        }
    }
}

/// Appends bytes.
fn append(out: &mut Vec<u8>, src: &[u8])
    ensures
        final(out)@ == old(out)@ + src@,
{
    let mut i: usize = 0;
    while i < src.len()
        invariant
            0 <= i <= src@.len(),
            out@ == old(out)@ + src@.take(i as int),
        decreases src@.len() - i,
    {
        out.push(src[i]);
        proof {
            assert(out@ =~= old(out)@ + src@.take(i + 1));
        }
        i += 1;
    }
    proof {
        assert(src@.take(i as int) =~= src@);
    }
}

/// A length as it is written in an answer.
fn len_u32(n: usize) -> (out: u32)
    ensures
        out == length(n as nat),
{
    if n > 0xffff_ffff {
        0xffff_ffff
    } else {
        n as u32
    }
}

/// No answer.
fn silence() -> (out: Vec<Data>)
    ensures
        frame_view(out@) == Seq::<Token>::empty(),
{
    let out: Vec<Data> = Vec::new();
    proof {
        assert(frame_view(out@) =~= Seq::<Token>::empty());
    }
    out
}

/// An answer of one word.
fn say(word: &str) -> (out: Vec<Data>)
    ensures
        frame_view(out@) == said(word@),
{
    let mut out: Vec<Data> = Vec::new();
    out.push(Data::String(word.to_owned()));
    proof {
        assert(frame_view(out@) =~= said(word@));
    }
    out
}

/// An answer of one word and a number.
fn count(word: &str, n: u32) -> (out: Vec<Data>)
    ensures
        frame_view(out@) == counted(word@, n),
{
    let mut out: Vec<Data> = Vec::new();
    out.push(Data::String(word.to_owned()));
    out.push(Data::Integer(n));
    proof {
        assert(frame_view(out@) =~= counted(word@, n));
    }
    out
}

/// An answer of one word and a name.
fn name_frame(word: &str, name: &str) -> (out: Vec<Data>)
    ensures
        frame_view(out@) == named(word@, name@),
{
    let mut out: Vec<Data> = Vec::new();
    out.push(Data::String(word.to_owned()));
    out.push(Data::String(name.to_owned()));
    proof {
        assert(frame_view(out@) =~= named(word@, name@));
    }
    out
}

/// An answer that hands out a job.
fn job_frame(word: &str, id: u32, data: Bytes) -> (out: Vec<Data>)
    ensures
        frame_view(out@) == job_reply(word@, id, bytes_seq(data)),
{
    let n = len_u32(bytes_as_slice(&data).len());
    let mut out: Vec<Data> = Vec::new();
    out.push(Data::String(word.to_owned()));
    out.push(Data::Integer(id));
    out.push(Data::Integer(n));
    out.push(Data::Crlf);
    out.push(Data::Bytes(data));
    proof {
        assert(frame_view(out@) =~= job_reply(word@, id, bytes_seq(data)));
    }
    out
}

/// An answer that hands out a text.
fn text_frame(body: &Vec<u8>) -> (out: Vec<Data>)
    ensures
        frame_view(out@) == text_reply(body@),
{
    let mut out: Vec<Data> = Vec::new();
    out.push(Data::String("OK".to_owned()));
    out.push(Data::Integer(len_u32(body.len())));
    out.push(Data::Crlf);
    out.push(Data::Bytes(bytes_from_slice(body.as_slice())));
    proof {
        assert(frame_view(out@) =~= text_reply(body@));
    }
    out
}

/// The line that starts a text.
fn start_text() -> (out: Vec<u8>)
    ensures
        out@ == header(),
{
    let mut out: Vec<u8> = Vec::new();
    out.push(HYPHEN);
    out.push(HYPHEN);
    out.push(HYPHEN);
    out.push(LF);
    proof {
        assert(out@ =~= header());
    }
    out
}

/// A list of names as a text.
fn list_body(list: &Vec<String>) -> (out: Vec<u8>)
    ensures
        out@ == list_text(crate::queue::names(list@)),
{
    let ghost names = crate::queue::names(list@);
    let mut out = start_text();
    let mut n: usize = 0;
    proof {
        assert(out@ =~= header() + list_lines(names, 0));
    }
    while n < list.len()
        invariant
            0 <= n <= list@.len(),
            names == crate::queue::names(list@),
            out@ == header() + list_lines(names, n as int),
        decreases list@.len() - n,
    {
        let ghost before = out@;
        out.push(HYPHEN);
        out.push(SPACE);
        append(&mut out, list[n].as_str().as_bytes());
        out.push(LF);
        proof {
            assert(names[n as int] == list@[n as int]@);
            assert(out@ =~= header() + list_lines(names, n + 1));
        }
        n += 1;
    }
    out
}

/// Appends one line of a description.
fn put_field(out: &mut Vec<u8>, key: &str, value: &[u8])
    ensures
        final(out)@ == old(out)@ + field_line(key@, value@),
{
    append(out, key.as_bytes());
    out.push(COLON);
    out.push(SPACE);
    append(out, value);
    out.push(LF);
    proof {
        assert(out@ =~= old(out)@ + field_line(key@, value@));
    }
}

/// Appends one line of a description whose value is a number.
fn put_number(out: &mut Vec<u8>, key: &str, value: u64)
    ensures
        final(out)@ == old(out)@ + field_line(key@, decimal(value as nat)),
{
    let mut digits: Vec<u8> = Vec::new();
    push_decimal(value, &mut digits);
    proof {
        assert(digits@ =~= decimal(value as nat));
    }
    put_field(out, key, digits.as_slice());
}

/// The word for a state.
fn state_name(state: JobState) -> (out: &'static str)
    ensures
        out@ == state_word(state),
{
    match state {
        JobState::Delayed => "delayed",
        JobState::Ready => "ready",
        JobState::Reserved => "reserved",
        JobState::Buried => "buried",
    }
}

/// Whether a tube can have this name.
pub fn tube_name_ok(name: &str) -> (out: bool)
    ensures
        out == is_tube_name(name@),
{
    let f = name.as_bytes();
    if f.len() == 0 || f.len() > MAX_TUBE_NAME || f[0] == HYPHEN {
        return false;
    }
    let mut i: usize = 0;
    while i < f.len()
        invariant
            0 <= i <= f@.len(),
            f@ == encode_utf8(name@),
            1 <= f@.len() <= MAX_TUBE_NAME,
            f@[0] != HYPHEN,
            forall|j: int| 0 <= j < i ==> crate::text::is_name_char(#[trigger] f@[j]),
        decreases f@.len() - i,
    {
        if !valid_name_char(f[i]) {
            assert(!crate::text::is_name_char(f@[i as int]));
            return false;
        }
        i += 1;
    }
    true
}

/// Adds a job to the tube that the connection uses.
pub fn put(
    connection: &Connection,
    queue: &mut Queue,
    pri: u32,
    delay: u32,
    ttr: u32,
    data: Bytes,
    now: u64,
) -> (out: Result<Vec<Data>, Error>)
    requires
        old(queue).wf(),
        connection.wf(),
    ensures
        final(queue).wf(),
        (Outcome { queue: final(queue)@, conn: connection@, reply: reply_view(out) })
            == put_outcome(connection@, old(queue)@, pri, delay, ttr, bytes_seq(data), now),
{
    if queue.is_draining() {
        return Err(Error::Draining);
    }
    if !queue.has_room() {
        return Err(Error::InternalError);
    }
    let id = if delay > 0 {
        queue.new_delayed_job(connection.tube().to_owned(), ttr, pri, delay, data, now)
    } else {
        queue.new_job(connection.tube().to_owned(), ttr, pri, data)
    };
    Ok(count("INSERTED", id))
}

/// Makes a tube the one that the connection's `put` adds to.
pub fn use_tube(connection: &mut Connection, queue: &mut Queue, tube: String) -> (out: Result<
    Vec<Data>,
    Error,
>)
    requires
        old(queue).wf(),
        old(connection).wf(),
    ensures
        final(queue).wf(),
        final(connection).wf(),
        (Outcome { queue: final(queue)@, conn: final(connection)@, reply: reply_view(out) })
            == use_outcome(old(connection)@, old(queue)@, tube@),
{
    if !tube_name_ok(tube.as_str()) {
        return Err(Error::BadFormat);
    }
    queue.retain(tube.as_str());
    queue.release_ref(connection.tube());
    connection.use_tube(tube.as_str());
    Ok(name_frame("USING", tube.as_str()))
}

/// Adds a tube to the connection's watch-set.
pub fn watch(connection: &mut Connection, queue: &mut Queue, tube: String) -> (out: Result<
    Vec<Data>,
    Error,
>)
    requires
        old(queue).wf(),
        old(connection).wf(),
    ensures
        final(queue).wf(),
        final(connection).wf(),
        (Outcome { queue: final(queue)@, conn: final(connection)@, reply: reply_view(out) })
            == watch_outcome(old(connection)@, old(queue)@, tube@),
{
    if !tube_name_ok(tube.as_str()) {
        return Err(Error::BadFormat);
    }
    if !connection.watches(tube.as_str()) {
        queue.retain(tube.as_str());
    }
    connection.watch(tube);
    Ok(count("WATCHING", len_u32(connection.get_watched_tubes().len())))
}

/// Takes a tube out of the connection's watch-set, unless it is the only one.
pub fn ignore(connection: &mut Connection, queue: &mut Queue, tube: String) -> (out: Result<
    Vec<Data>,
    Error,
>)
    requires
        old(queue).wf(),
        old(connection).wf(),
    ensures
        final(queue).wf(),
        final(connection).wf(),
        (Outcome { queue: final(queue)@, conn: final(connection)@, reply: reply_view(out) })
            == ignore_outcome(old(connection)@, old(queue)@, tube@),
{
    if !tube_name_ok(tube.as_str()) {
        return Err(Error::BadFormat);
    }
    let watched = connection.watches(tube.as_str());
    let name = tube.clone();
    if connection.ignore(tube) {
        Err(Error::NotIgnored)
    } else {
        if watched {
            queue.release_ref(name.as_str());
        }
        Ok(count("WATCHING", len_u32(connection.get_watched_tubes().len())))
    }
}

/// What is sent to a connection that a job is handed to, or whose waiting time is
/// over. The connection no longer waits, and counts the job among those it holds.
pub fn handle_reserved_job(connection: &mut Connection, job: Option<(u32, u32, Bytes)>) -> (out:
    Vec<Data>)
    requires
        old(connection).wf(),
    ensures
        final(connection).wf(),
        match job {
            Some((id, ttr, data)) => final(connection)@ == (ConnInfo {
                waiting: false,
                ..old(connection)@.hold(id, ttr)
            }) && frame_view(out@) == job_reply("RESERVED"@, id, bytes_seq(data)),
            None => final(connection)@ == (ConnInfo { waiting: false, ..old(connection)@ })
                && frame_view(out@) == said("TIMED_OUT"@),
        },
{
    connection.set_waiting(false);
    match job {
        Some((id, ttr, data)) => {
            connection.add_reserved(id, ttr);
            job_frame("RESERVED", id, data)
        },
        None => say("TIMED_OUT"),
    }
}

/// Hands the job over that was reserved for the connection.
fn hand_over(connection: &mut Connection, job: Job) -> (out: Vec<Data>)
    requires
        old(connection).wf(),
    ensures
        final(connection).wf(),
        final(connection)@ == old(connection)@.hold(job.id, job.ttr),
        frame_view(out@) == job_reply("RESERVED"@, job.id, bytes_seq(job.data)),
{
    connection.add_reserved(job.id, job.ttr);
    job_frame("RESERVED", job.id, job.data)
}

/// Reserves the job that goes first among the watched tubes, or lets the connection
/// wait for one, for `seconds` seconds at most.
pub fn reserve_with_timeout(
    connection: &mut Connection,
    queue: &mut Queue,
    seconds: u32,
    now: u64,
) -> (out: Result<Vec<Data>, Error>)
    requires
        old(queue).wf(),
        old(connection).wf(),
    ensures
        final(queue).wf(),
        final(connection).wf(),
        (Outcome { queue: final(queue)@, conn: final(connection)@, reply: reply_view(out) })
            == reserve_with_timeout_outcome(old(connection)@, old(queue)@, seconds, now),
{
    let conn = connection.id();
    match queue.reserve_job(connection.get_watched_tubes(), conn, now) {
        Some(job) => Ok(hand_over(connection, job)),
        None => {
            if seconds == 0 {
                return Err(Error::TimedOut);
            }
            let watch = copy_names(connection.get_watched_tubes());
            queue.park(conn, watch, Some(time_after(now, seconds)));
            connection.set_waiting(true);
            Ok(silence())
        },
    }
}

/// Reserves the job that goes first among the watched tubes, or lets the connection
/// wait for one.
pub fn reserve(connection: &mut Connection, queue: &mut Queue, now: u64) -> (out: Result<
    Vec<Data>,
    Error,
>)
    requires
        old(queue).wf(),
        old(connection).wf(),
    ensures
        final(queue).wf(),
        final(connection).wf(),
        (Outcome { queue: final(queue)@, conn: final(connection)@, reply: reply_view(out) })
            == reserve_outcome(old(connection)@, old(queue)@, now),
{
    let conn = connection.id();
    match queue.reserve_job(connection.get_watched_tubes(), conn, now) {
        Some(job) => Ok(hand_over(connection, job)),
        None => {
            let watch = copy_names(connection.get_watched_tubes());
            queue.park(conn, watch, None);
            connection.set_waiting(true);
            Ok(silence())
        },
    }
}

/// A copy of a list of names.
fn copy_names(list: &Vec<String>) -> (out: Vec<String>)
    ensures
        crate::queue::names(out@) == crate::queue::names(list@),
{
    let mut out: Vec<String> = Vec::new();
    let mut n: usize = 0;
    while n < list.len()
        invariant
            0 <= n <= list@.len(),
            out@.len() == n,
            forall|a: int| 0 <= a < n ==> out@[a]@ == list@[a]@,
        decreases list@.len() - n,
    {
        out.push(list[n].clone());
        n += 1;
    }
    proof {
        assert(crate::queue::names(out@) =~= crate::queue::names(list@));
    }
    out
}

/// Reserves the job of this id for the connection.
pub fn reserve_job(connection: &mut Connection, queue: &mut Queue, id: u32, now: u64) -> (out:
    Result<Vec<Data>, Error>)
    requires
        old(queue).wf(),
        old(connection).wf(),
    ensures
        final(queue).wf(),
        final(connection).wf(),
        (Outcome { queue: final(queue)@, conn: final(connection)@, reply: reply_view(out) })
            == reserve_job_outcome(old(connection)@, old(queue)@, id, now),
{
    match queue.reserve_by_id(id, connection.id(), now) {
        Some(job) => Ok(hand_over(connection, job)),
        None => Err(Error::NotFound),
    }
}

/// Removes a job, unless another connection holds it.
pub fn delete(connection: &mut Connection, queue: &mut Queue, id: u32) -> (out: Result<
    Vec<Data>,
    Error,
>)
    requires
        old(queue).wf(),
        old(connection).wf(),
    ensures
        final(queue).wf(),
        final(connection).wf(),
        (Outcome { queue: final(queue)@, conn: final(connection)@, reply: reply_view(out) })
            == delete_outcome(old(connection)@, old(queue)@, id),
{
    connection.remove_reserved(id);
    let free = match queue.state_of(id) {
        Some(JobState::Reserved) => queue.holds(id, connection.id()),
        Some(_) => true,
        None => false,
    };
    if free && queue.delete_job(id) {
        Ok(say("DELETED"))
    } else {
        Err(Error::NotFound)
    }
}

/// Gives a job that the connection holds back.
pub fn release(
    connection: &mut Connection,
    queue: &mut Queue,
    id: u32,
    pri: u32,
    delay: u32,
    now: u64,
) -> (out: Result<Vec<Data>, Error>)
    requires
        old(queue).wf(),
        old(connection).wf(),
    ensures
        final(queue).wf(),
        final(connection).wf(),
        (Outcome { queue: final(queue)@, conn: final(connection)@, reply: reply_view(out) })
            == release_outcome(old(connection)@, old(queue)@, id, pri, delay, now),
{
    connection.remove_reserved(id);
    if queue.release(id, connection.id(), pri, delay, now) {
        Ok(say("RELEASED"))
    } else {
        Err(Error::NotFound)
    }
}

/// Sets a job that the connection holds aside.
pub fn bury(connection: &mut Connection, queue: &mut Queue, id: u32, pri: u32) -> (out: Result<
    Vec<Data>,
    Error,
>)
    requires
        old(queue).wf(),
        old(connection).wf(),
    ensures
        final(queue).wf(),
        final(connection).wf(),
        (Outcome { queue: final(queue)@, conn: final(connection)@, reply: reply_view(out) })
            == bury_outcome(old(connection)@, old(queue)@, id, pri),
{
    connection.remove_reserved(id);
    if queue.bury(id, connection.id(), pri) {
        Ok(say("BURIED"))
    } else {
        Err(Error::NotFound)
    }
}

/// Extends the time of a job that the connection holds.
pub fn touch(connection: &Connection, queue: &mut Queue, id: u32) -> (out: Result<
    Vec<Data>,
    Error,
>)
    requires
        old(queue).wf(),
        connection.wf(),
    ensures
        final(queue).wf(),
        (Outcome { queue: final(queue)@, conn: connection@, reply: reply_view(out) })
            == touch_outcome(connection@, old(queue)@, id),
{
    if queue.touch(id, connection.id()) {
        Ok(say("TOUCHED"))
    } else {
        Err(Error::NotFound)
    }
}

/// The answer that shows a job, if there is one to show.
fn show(job: Option<Job>) -> (out: Result<Vec<Data>, Error>)
    ensures
        reply_view(out) == match job {
            Some(j) => Ok::<Seq<Token>, Error>(job_reply("FOUND"@, j.id, bytes_seq(j.data))),
            None => Err::<Seq<Token>, Error>(Error::NotFound),
        },
{
    match job {
        Some(j) => Ok(job_frame("FOUND", j.id, j.data)),
        None => Err(Error::NotFound),
    }
}

/// Shows the job of this id.
pub fn peek(connection: &Connection, queue: &Queue, id: u32) -> (out: Result<Vec<Data>, Error>)
    requires
        queue.wf(),
        connection.wf(),
    ensures
        (Outcome { queue: queue@, conn: connection@, reply: reply_view(out) })
            == peek_outcome(connection@, queue@, id),
{
    show(queue.peek(id))
}

/// Shows the ready job of the used tube that is reserved next.
pub fn peek_ready(connection: &Connection, queue: &Queue) -> (out: Result<Vec<Data>, Error>)
    requires
        queue.wf(),
        connection.wf(),
    ensures
        (Outcome { queue: queue@, conn: connection@, reply: reply_view(out) })
            == peek_ready_outcome(connection@, queue@),
{
    show(queue.peek_ready(connection.tube()))
}

/// Shows the delayed job of the used tube whose delay is over first.
pub fn peek_delayed(connection: &Connection, queue: &Queue) -> (out: Result<Vec<Data>, Error>)
    requires
        queue.wf(),
        connection.wf(),
    ensures
        (Outcome { queue: queue@, conn: connection@, reply: reply_view(out) })
            == peek_delayed_outcome(connection@, queue@),
{
    show(queue.peek_delayed(connection.tube()))
}

/// Shows the job of the used tube that was buried first.
pub fn peek_buried(connection: &Connection, queue: &Queue) -> (out: Result<Vec<Data>, Error>)
    requires
        queue.wf(),
        connection.wf(),
    ensures
        (Outcome { queue: queue@, conn: connection@, reply: reply_view(out) })
            == peek_buried_outcome(connection@, queue@),
{
    show(queue.peek_buried(connection.tube()))
}

/// Makes buried or delayed jobs of the used tube ready.
pub fn kick(connection: &Connection, queue: &mut Queue, bound: u32) -> (out: Result<
    Vec<Data>,
    Error,
>)
    requires
        old(queue).wf(),
        connection.wf(),
    ensures
        final(queue).wf(),
        (Outcome { queue: final(queue)@, conn: connection@, reply: reply_view(out) })
            == kick_outcome(connection@, old(queue)@, bound),
{
    let n = queue.kick(connection.tube(), bound);
    Ok(count("KICKED", n))
}

/// Makes one buried or delayed job ready.
pub fn kick_job(connection: &Connection, queue: &mut Queue, id: u32) -> (out: Result<
    Vec<Data>,
    Error,
>)
    requires
        old(queue).wf(),
        connection.wf(),
    ensures
        final(queue).wf(),
        (Outcome { queue: final(queue)@, conn: connection@, reply: reply_view(out) })
            == kick_job_outcome(connection@, old(queue)@, id),
{
    if queue.kick_job(id) {
        Ok(say("KICKED"))
    } else {
        Err(Error::NotFound)
    }
}

/// Holds back reservations from a tube.
pub fn pause_tube(
    connection: &Connection,
    queue: &mut Queue,
    tube: String,
    delay: u32,
    now: u64,
) -> (out: Result<Vec<Data>, Error>)
    requires
        old(queue).wf(),
        connection.wf(),
    ensures
        final(queue).wf(),
        (Outcome { queue: final(queue)@, conn: connection@, reply: reply_view(out) })
            == pause_tube_outcome(connection@, old(queue)@, tube@, delay, now),
{
    if !tube_name_ok(tube.as_str()) {
        return Err(Error::BadFormat);
    }
    if queue.pause_tube(tube.as_str(), delay, now) {
        Ok(say("PAUSED"))
    } else {
        Err(Error::NotFound)
    }
}

/// Lists all tubes.
pub fn list_tubes(queue: &Queue) -> (out: Result<Vec<Data>, Error>)
    requires
        queue.wf(),
    ensures
        reply_view(out) == Ok::<Seq<Token>, Error>(text_reply(list_text(queue@.names()))),
{
    let body = list_body(&queue.tube_names());
    Ok(text_frame(&body))
}

/// Names the tube that the connection uses.
pub fn list_tube_used(connection: &Connection) -> (out: Result<Vec<Data>, Error>)
    ensures
        reply_view(out) == Ok::<Seq<Token>, Error>(named("USING"@, connection@.used)),
{
    Ok(name_frame("USING", connection.tube()))
}

/// Lists the tubes that the connection watches.
pub fn list_tubes_watched(connection: &Connection) -> (out: Result<Vec<Data>, Error>)
    requires
        connection.wf(),
    ensures
        reply_view(out) == Ok::<Seq<Token>, Error>(text_reply(list_text(connection@.watched))),
{
    let body = list_body(connection.get_watched_tubes());
    Ok(text_frame(&body))
}

/// Describes a job.
pub fn stats_job(connection: &Connection, queue: &Queue, id: u32) -> (out: Result<
    Vec<Data>,
    Error,
>)
    requires
        queue.wf(),
        connection.wf(),
    ensures
        (Outcome { queue: queue@, conn: connection@, reply: reply_view(out) })
            == stats_job_outcome(connection@, queue@, id),
{
    let job = match queue.peek(id) {
        Some(job) => job,
        None => {
            return Err(Error::NotFound);
        },
    };
    let tube = match queue.tube_of(id) {
        Some(tube) => tube,
        None => {
            return Err(Error::NotFound);
        },
    };
    let state = match queue.state_of(id) {
        Some(state) => state,
        None => {
            return Err(Error::NotFound);
        },
    };
    let mut body = start_text();
    put_number(&mut body, "id", id as u64);
    put_field(&mut body, "tube", tube.as_str().as_bytes());
    put_field(&mut body, "state", state_name(state).as_bytes());
    put_number(&mut body, "pri", job.pri as u64);
    put_number(&mut body, "ttr", job.ttr as u64);
    Ok(text_frame(&body))
}

/// Describes a tube.
pub fn stats_tube(connection: &Connection, queue: &Queue, tube: String) -> (out: Result<
    Vec<Data>,
    Error,
>)
    requires
        queue.wf(),
        connection.wf(),
    ensures
        (Outcome { queue: queue@, conn: connection@, reply: reply_view(out) })
            == stats_tube_outcome(connection@, queue@, tube@),
{
    if !tube_name_ok(tube.as_str()) {
        return Err(Error::BadFormat);
    }
    match queue.tube_counts(tube.as_str()) {
        None => Err(Error::NotFound),
        Some((ready, delayed, buried)) => {
            let mut body = start_text();
            put_field(&mut body, "name", tube.as_str().as_bytes());
            put_number(&mut body, "current-jobs-ready", ready as u64);
            put_number(&mut body, "current-jobs-delayed", delayed as u64);
            put_number(&mut body, "current-jobs-buried", buried as u64);
            Ok(text_frame(&body))
        },
    }
}

/// Describes the server.
pub fn stats(queue: &Queue) -> (out: Result<Vec<Data>, Error>)
    requires
        queue.wf(),
    ensures
        reply_view(out) == Ok::<Seq<Token>, Error>(text_reply(server_text(queue@))),
{
    let (jobs, waiting) = queue.counts();
    let list = queue.tube_names();
    let tubes = list.len();
    let mut body = start_text();
    proof {
        assert(crate::queue::names(list@).len() == list@.len());
    }
    put_number(&mut body, "current-tubes", tubes as u64);
    put_number(&mut body, "total-jobs", jobs);
    put_number(&mut body, "current-waiting", waiting as u64);
    Ok(text_frame(&body))
}

/// Marks the connection as one to be closed.
pub fn quit(connection: &mut Connection) -> (out: Result<Vec<Data>, Error>)
    requires
        old(connection).wf(),
    ensures
        final(connection).wf(),
        final(connection)@ == (ConnInfo { closing: true, ..old(connection)@ }),
        reply_view(out) == Ok::<Seq<Token>, Error>(Seq::empty()),
{
    connection.quit();
    Ok(silence())
}

} // verus!
