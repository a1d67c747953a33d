//! The decisions of a connection's driver: what a frame, a timer event and the end of
//! the connection do.

use vstd::prelude::*;
use crate::cmd::{is_command, lemma_same_tokens, parse, Cmd};
use bytes::Bytes;
use crate::buffer::bytes_seq;
use crate::codec::{frame_view, Data, Token};
use crate::connection::{ConnInfo, Connection};
use crate::error::Error;
use crate::handlers::{
    bury, delete, handle_reserved_job, ignore, job_reply, kick, kick_job, list_tube_used,
    list_tubes, list_tubes_watched, pause_tube, peek, peek_buried, peek_delayed, peek_ready, put,
    quit, release, reply_view, reserve, reserve_job, reserve_with_timeout, said, stats,
    stats_job, stats_tube, touch, use_tube, watch, Outcome,
};
use crate::queue::Queue;
use crate::store::{Store, TimerEvent};

verus! {

impl Cmd {
    /// Carries the command out for a connection.
    pub fn run(self, connection: &mut Connection, queue: &mut Queue, now: u64) -> (out: Result<
        Vec<Data>,
        Error,
    >)
        requires
            old(queue).wf(),
            old(connection).wf(),
        ensures
            final(queue).wf(),
            final(connection).wf(),
            (Outcome { queue: final(queue)@, conn: final(connection)@, reply: reply_view(out) })
                == self.outcome(old(connection)@, old(queue)@, now),
    {
        match self {
            Cmd::Put { pri, delay, ttr, bytes: _, data } => put(
                connection,
                queue,
                pri,
                delay,
                ttr,
                data,
                now,
            ),
            Cmd::Use { tube } => use_tube(connection, queue, tube),
            Cmd::Reserve => reserve(connection, queue, now),
            Cmd::ReserveWithTimeout { seconds } => reserve_with_timeout(
                connection,
                queue,
                seconds,
                now,
            ),
            Cmd::ReserveJob { id } => reserve_job(connection, queue, id, now),
            Cmd::Delete { id } => delete(connection, queue, id),
            Cmd::Release { id, pri, delay } => release(connection, queue, id, pri, delay, now),
            Cmd::Bury { id, pri } => bury(connection, queue, id, pri),
            Cmd::Touch { id } => touch(connection, queue, id),
            Cmd::Watch { tube } => watch(connection, queue, tube),
            Cmd::Ignore { tube } => ignore(connection, queue, tube),
            Cmd::Peek { id } => peek(connection, queue, id),
            Cmd::PeekReady => peek_ready(connection, queue),
            Cmd::PeekDelayed => peek_delayed(connection, queue),
            Cmd::PeekBuried => peek_buried(connection, queue),
            Cmd::Kick { bound } => kick(connection, queue, bound),
            Cmd::KickJob { id } => kick_job(connection, queue, id),
            Cmd::StatsJob { id } => stats_job(connection, queue, id),
            Cmd::StatsTube { tube } => stats_tube(connection, queue, tube),
            Cmd::Stats => stats(queue),
            Cmd::ListTubes => list_tubes(queue),
            Cmd::ListTubeUsed => list_tube_used(connection),
            Cmd::ListTubesWatched => list_tubes_watched(connection),
            Cmd::Quit => quit(connection),
            Cmd::PauseTube { tube_name, delay } => pause_tube(
                connection,
                queue,
                tube_name,
                delay,
                now,
            ),
        }
    }
}

/// Two commands that are written as the same tokens leave the same behind.
pub proof fn lemma_same_outcome(a: Cmd, b: Cmd, c: ConnInfo, q: Store, now: u64)
    requires
        a.tokens() == b.tokens(),
    ensures
        a.outcome(c, q, now) == b.outcome(c, q, now),
{
    lemma_same_tokens(a, b);
}

/// What a frame does: the outcome of the command that it is; `BAD_FORMAT`, and nothing
/// else, where it is none. An error of the codec is handed on, and where it is
/// `BAD_FORMAT` the connection is to be closed: nothing can be read after it.
pub open spec fn frame_outcome(
    frame: Result<Seq<Token>, Error>,
    c: ConnInfo,
    q: Store,
    now: u64,
    after: Outcome,
) -> bool {
    match frame {
        Err(e) => after == (Outcome {
            queue: q,
            conn: ConnInfo { closing: c.closing || e == Error::BadFormat, ..c },
            reply: Err(e),
        }),
        Ok(ts) => if is_command(ts) {
            exists|cmd: Cmd| cmd.tokens() == ts && after == #[trigger] cmd.outcome(c, q, now)
        } else {
            after == (Outcome { queue: q, conn: c, reply: Err(Error::BadFormat) })
        },
    }
}

/// What a timer event does to a connection: where the time of a job that it holds is
/// over, it no longer counts the job among those it holds.
pub open spec fn timer_outcome(c: ConnInfo, event: TimerEvent) -> ConnInfo {
    match event {
        TimerEvent::Expired { id, conn } => if conn == c.id {
            c.drop(id)
        } else {
            c
        },
        _ => c,
    }
}

/// What is sent to a connection for a timer event: the warning `DEADLINE_SOON` where
/// the time of a job that it holds is nearly over, else nothing.
pub open spec fn timer_reply(c: ConnInfo, event: TimerEvent) -> Seq<Token> {
    match event {
        TimerEvent::DeadlineSoon { id, conn } => if conn == c.id {
            said(Error::DeadlineSoon.word())
        } else {
            Seq::empty()
        },
        _ => Seq::empty(),
    }
}

impl Connection {
    /// Carries out what a frame from the codec asks for, and gives the answer.
    pub fn handle_frame(
        &mut self,
        queue: &mut Queue,
        frame: Result<Vec<Data>, Error>,
        now: u64,
    ) -> (out: Result<Vec<Data>, Error>)
        requires
            old(queue).wf(),
            old(self).wf(),
        ensures
            final(queue).wf(),
            final(self).wf(),
            frame_outcome(
                reply_view(frame),
                old(self)@,
                old(queue)@,
                now,
                Outcome { queue: final(queue)@, conn: final(self)@, reply: reply_view(out) },
            ),
    {
        match frame {
            Err(e) => {
                if e == Error::BadFormat {
                    self.quit();
                }
                Err(e)
            },
            Ok(data) => match parse(data) {
                Err(e) => Err(e),
                Ok(cmd) => cmd.run(self, queue, now),
            },
        }
    }

    /// What a timer event does to the connection, and what is sent for it.
    pub fn handle_timer(&mut self, event: TimerEvent) -> (out: Vec<Data>)
        requires
            old(self).wf(),
        ensures
            final(self).wf(),
            final(self)@ == timer_outcome(old(self)@, event),
            frame_view(out@) == timer_reply(old(self)@, event),
    {
        match event {
            TimerEvent::DeadlineSoon { id, conn } => {
                if conn == self.id() {
                    return respond(Err(Error::DeadlineSoon));
                }
            },
            TimerEvent::Expired { id, conn } => {
                if conn == self.id() {
                    self.remove_reserved(id);
                }
            },
            TimerEvent::Ready { id } => {},
        }
        respond(Ok(Vec::new()))
    }

    /// Ends the connection: the jobs that it holds are ready again, it no longer waits
    /// for one, and it no longer uses or watches a tube.
    pub fn disconnect(&mut self, queue: &mut Queue)
        requires
            old(queue).wf(),
            old(self).wf(),
        ensures
            final(queue).wf(),
            final(self).wf(),
            final(queue)@ == old(queue)@.disconnect(old(self)@.id).cancel(
                old(self)@.id,
            ).release_ref(old(self)@.used).release_refs(old(self)@.watched),
            final(self)@ == (ConnInfo { closing: true, held: Seq::empty(), ..old(self)@ }),
    {
        queue.release_all(self.id());
        queue.cancel(self.id());
        queue.release_ref(self.tube());
        let ghost start = queue@;
        let watch = self.get_watched_tubes();
        let ghost list = crate::queue::names(watch@);
        let mut i: usize = 0;
        proof {
            assert(list.skip(0) =~= list);
        }
        while i < watch.len()
            invariant
                0 <= i <= watch@.len(),
                list == crate::queue::names(watch@),
                queue.wf(),
                start.release_refs(list) == queue@.release_refs(list.skip(i as int)),
            decreases watch@.len() - i,
        {
            proof {
                assert(list.skip(i as int)[0] == watch@[i as int]@);
                assert(list.skip(i as int).skip(1) =~= list.skip(i + 1));
            }
            queue.release_ref(watch[i].as_str());
            i += 1;
        }
        proof {
            assert(list.skip(i as int) =~= Seq::<Seq<char>>::empty());
        }
        self.forget_jobs();
        self.quit();
    }
}

/// The frame that is sent for an answer: the answer itself, or the word of the error.
pub fn respond(result: Result<Vec<Data>, Error>) -> (out: Vec<Data>)
    ensures
        frame_view(out@) == match result {
            Ok(frame) => frame_view(frame@),
            Err(e) => said(e.word()),
        },
{
    match result {
        Ok(frame) => frame,
        Err(e) => {
            let mut out: Vec<Data> = Vec::new();
            out.push(Data::String(e.to_string()));
            proof {
                assert(frame_view(out@) =~= said(e.word()));
            }
            out
        },
    }
}

/// What happens to a connection.
pub enum Event {
    /// The codec read a frame, or failed to.
    Frame(Result<Vec<Data>, Error>),
    /// The job that the connection waited for is there, with its id and time to run; or
    /// nothing, where the waiting time is over.
    Job(Option<(u32, u32, Bytes)>),
    /// Time did something to a job.
    Timer(TimerEvent),
}

impl Connection {
    /// Carries out what an event asks for, and gives the frame that is to be sent for
    /// it: the answer to a frame, or the word of its error; the job or `TIMED_OUT` for
    /// a connection that waited; the warning for a job whose time is nearly over.
    pub fn run(&mut self, queue: &mut Queue, event: Event, now: u64) -> (out: Vec<Data>)
        requires
            old(queue).wf(),
            old(self).wf(),
        ensures
            final(queue).wf(),
            final(self).wf(),
            match event {
                Event::Frame(frame) => exists|reply: Result<Seq<Token>, Error>|
                    #[trigger] frame_outcome(
                        reply_view(frame),
                        old(self)@,
                        old(queue)@,
                        now,
                        Outcome { queue: final(queue)@, conn: final(self)@, reply },
                    ) && frame_view(out@) == match reply {
                        Ok(ts) => ts,
                        Err(e) => said(e.word()),
                    },
                Event::Job(Some((id, ttr, data))) => final(queue)@ == old(queue)@ && final(self)@
                    == (ConnInfo { waiting: false, ..old(self)@.hold(id, ttr) }) && frame_view(
                    out@,
                ) == job_reply("RESERVED"@, id, bytes_seq(data)),
                Event::Job(None) => final(queue)@ == old(queue)@ && final(self)@ == (ConnInfo {
                    waiting: false,
                    ..old(self)@
                }) && frame_view(out@) == said("TIMED_OUT"@),
                Event::Timer(e) => final(queue)@ == old(queue)@ && final(self)@ == timer_outcome(
                    old(self)@,
                    e,
                ) && frame_view(out@) == timer_reply(old(self)@, e),
            },
    {
        match event {
            Event::Frame(frame) => {
                let answer = self.handle_frame(queue, frame, now);
                respond(answer)
            },
            Event::Job(job) => handle_reserved_job(self, job),
            Event::Timer(e) => self.handle_timer(e),
        }
    }

    /// The frame, if it is to be sent: an answer without tokens is none.
    pub fn send_frame(&self, frame: Vec<Data>) -> (out: Option<Vec<Data>>)
        ensures
            match out {
                Some(sent) => frame@.len() > 0 && sent == frame,
                None => frame@.len() == 0,
            },
    {
        if frame.len() > 0 {
            Some(frame)
        } else {
            None
        }
    }
}

} // verus!
