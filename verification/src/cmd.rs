//! The commands of the protocol, and how a frame is read as one.

use vstd::prelude::*;
use bytes::Bytes;
use crate::buffer::bytes_seq;
use crate::codec::{frame_view, Data, Token};
use crate::error::Error;
use crate::parser::Parser;
use crate::text::str_eq;

verus! {

/// One command of a client.
#[derive(PartialEq, Debug)]
pub enum Cmd {
    /// Adds a job to the used tube.
    Put {
        pri: u32,
        delay: u32,
        ttr: u32,
        bytes: u32,
        data: Bytes,
    },
    /// Makes a tube the one that `put` adds to.
    Use {
        tube: String,
    },
    /// Waits for a job from a watched tube.
    Reserve,
    /// Waits for a job, for so many seconds at most.
    ReserveWithTimeout {
        seconds: u32,
    },
    /// Reserves the job with this id.
    ReserveJob {
        id: u32,
    },
    /// Removes a job.
    Delete {
        id: u32,
    },
    /// Gives a reserved job back.
    Release {
        id: u32,
        pri: u32,
        delay: u32,
    },
    /// Sets a reserved job aside.
    Bury {
        id: u32,
        pri: u32,
    },
    /// Asks for a new time-to-run.
    Touch {
        id: u32,
    },
    /// Adds a tube to the watch-set.
    Watch {
        tube: String,
    },
    /// Takes a tube out of the watch-set.
    Ignore {
        tube: String,
    },
    /// Shows a job.
    Peek {
        id: u32,
    },
    /// Shows the next ready job of the used tube.
    PeekReady,
    /// Shows the delayed job of the used tube that is due first.
    PeekDelayed,
    /// Shows the first buried job of the used tube.
    PeekBuried,
    /// Makes buried or delayed jobs of the used tube ready.
    Kick {
        bound: u32,
    },
    /// Makes one buried or delayed job ready.
    KickJob {
        id: u32,
    },
    /// Describes a job.
    StatsJob {
        id: u32,
    },
    /// Describes a tube.
    StatsTube {
        tube: String,
    },
    /// Describes the server.
    Stats,
    /// Lists all tubes.
    ListTubes,
    /// Names the used tube.
    ListTubeUsed,
    /// Lists the watch-set.
    ListTubesWatched,
    /// Closes the connection.
    Quit,
    /// Holds back reservations from a tube.
    PauseTube {
        tube_name: String,
        delay: u32,
    },
}

impl Cmd {
    /// The word that the command starts with.
    pub open spec fn verb(&self) -> Seq<char> {
        match self {
            Cmd::Put { .. } => "put"@,
            Cmd::Use { .. } => "use"@,
            Cmd::Reserve => "reserve"@,
            Cmd::ReserveWithTimeout { .. } => "reserve-with-timeout"@,
            Cmd::ReserveJob { .. } => "reserve-job"@,
            Cmd::Delete { .. } => "delete"@,
            Cmd::Release { .. } => "release"@,
            Cmd::Bury { .. } => "bury"@,
            Cmd::Touch { .. } => "touch"@,
            Cmd::Watch { .. } => "watch"@,
            Cmd::Ignore { .. } => "ignore"@,
            Cmd::Peek { .. } => "peek"@,
            Cmd::PeekReady => "peek-ready"@,
            Cmd::PeekDelayed => "peek-delayed"@,
            Cmd::PeekBuried => "peek-buried"@,
            Cmd::Kick { .. } => "kick"@,
            Cmd::KickJob { .. } => "kick-job"@,
            Cmd::StatsJob { .. } => "stats-job"@,
            Cmd::StatsTube { .. } => "stats-tube"@,
            Cmd::Stats => "stats"@,
            Cmd::ListTubes => "list-tubes"@,
            Cmd::ListTubeUsed => "list-tube-used"@,
            Cmd::ListTubesWatched => "list-tubes-watched"@,
            Cmd::Quit => "quit"@,
            Cmd::PauseTube { .. } => "pause-tube"@,
        }
    }

    /// The tokens that follow the verb.
    pub open spec fn args(&self) -> Seq<Token> {
        match self {
            Cmd::Put { pri, delay, ttr, bytes, data } => seq![Token::Integer(*pri),
                Token::Integer(*delay), Token::Integer(*ttr), Token::Integer(*bytes),
                Token::Bytes(bytes_seq(*data))],
            Cmd::Use { tube } => seq![Token::Name(tube@)],
            Cmd::Reserve => Seq::empty(),
            Cmd::ReserveWithTimeout { seconds } => seq![Token::Integer(*seconds)],
            Cmd::ReserveJob { id } => seq![Token::Integer(*id)],
            Cmd::Delete { id } => seq![Token::Integer(*id)],
            Cmd::Release { id, pri, delay } => seq![Token::Integer(*id), Token::Integer(*pri),
                Token::Integer(*delay)],
            Cmd::Bury { id, pri } => seq![Token::Integer(*id), Token::Integer(*pri)],
            Cmd::Touch { id } => seq![Token::Integer(*id)],
            Cmd::Watch { tube } => seq![Token::Name(tube@)],
            Cmd::Ignore { tube } => seq![Token::Name(tube@)],
            Cmd::Peek { id } => seq![Token::Integer(*id)],
            Cmd::PeekReady => Seq::empty(),
            Cmd::PeekDelayed => Seq::empty(),
            Cmd::PeekBuried => Seq::empty(),
            Cmd::Kick { bound } => seq![Token::Integer(*bound)],
            Cmd::KickJob { id } => seq![Token::Integer(*id)],
            Cmd::StatsJob { id } => seq![Token::Integer(*id)],
            Cmd::StatsTube { tube } => seq![Token::Name(tube@)],
            Cmd::Stats => Seq::empty(),
            Cmd::ListTubes => Seq::empty(),
            Cmd::ListTubeUsed => Seq::empty(),
            Cmd::ListTubesWatched => Seq::empty(),
            Cmd::Quit => Seq::empty(),
            Cmd::PauseTube { tube_name, delay } => seq![Token::Name(tube_name@),
                Token::Integer(*delay)],
        }
    }

    /// The tokens that the command is written as: the verb, then its arguments.
    pub open spec fn tokens(&self) -> Seq<Token> {
        seq![Token::Name(self.verb())] + self.args()
    }
}

/// Whether the tokens are a command: a verb, followed by the arguments that the verb takes,
/// each of its kind, and nothing more.
pub open spec fn is_command(ts: Seq<Token>) -> bool {
    ts.len() >= 1 && ts[0] is Name && {
        let v = ts[0]->Name_0;
        if v == "put"@ {
            ts.len() == 6 && ts[1] is Integer && ts[2] is Integer && ts[3] is Integer
                && ts[4] is Integer && ts[5] is Bytes
        } else if v == "use"@ {
            ts.len() == 2 && ts[1] is Name
        } else if v == "reserve"@ {
            ts.len() == 1
        } else if v == "reserve-with-timeout"@ {
            ts.len() == 2 && ts[1] is Integer
        } else if v == "reserve-job"@ {
            ts.len() == 2 && ts[1] is Integer
        } else if v == "delete"@ {
            ts.len() == 2 && ts[1] is Integer
        } else if v == "release"@ {
            ts.len() == 4 && ts[1] is Integer && ts[2] is Integer && ts[3] is Integer
        } else if v == "bury"@ {
            ts.len() == 3 && ts[1] is Integer && ts[2] is Integer
        } else if v == "touch"@ {
            ts.len() == 2 && ts[1] is Integer
        } else if v == "watch"@ {
            ts.len() == 2 && ts[1] is Name
        } else if v == "ignore"@ {
            ts.len() == 2 && ts[1] is Name
        } else if v == "peek"@ {
            ts.len() == 2 && ts[1] is Integer
        } else if v == "peek-ready"@ {
            ts.len() == 1
        } else if v == "peek-delayed"@ {
            ts.len() == 1
        } else if v == "peek-buried"@ {
            ts.len() == 1
        } else if v == "kick"@ {
            ts.len() == 2 && ts[1] is Integer
        } else if v == "kick-job"@ {
            ts.len() == 2 && ts[1] is Integer
        } else if v == "stats-job"@ {
            ts.len() == 2 && ts[1] is Integer
        } else if v == "stats-tube"@ {
            ts.len() == 2 && ts[1] is Name
        } else if v == "stats"@ {
            ts.len() == 1
        } else if v == "list-tubes"@ {
            ts.len() == 1
        } else if v == "list-tube-used"@ {
            ts.len() == 1
        } else if v == "list-tubes-watched"@ {
            ts.len() == 1
        } else if v == "quit"@ {
            ts.len() == 1
        } else if v == "pause-tube"@ {
            ts.len() == 3 && ts[1] is Name && ts[2] is Integer
        } else {
            false
        }
    }
}

/// What tells the verbs apart: the length, the first and the third character.
pub open spec fn verb_key(v: Seq<char>) -> (nat, char, char) {
    (v.len(), v[0], v[2])
}

/// No two verbs agree in length, first and third character.
pub proof fn lemma_verbs()
    ensures
        verb_key("put"@) == (3nat, 'p', 't'),
        verb_key("use"@) == (3nat, 'u', 'e'),
        verb_key("reserve"@) == (7nat, 'r', 's'),
        verb_key("reserve-with-timeout"@) == (20nat, 'r', 's'),
        verb_key("reserve-job"@) == (11nat, 'r', 's'),
        verb_key("delete"@) == (6nat, 'd', 'l'),
        verb_key("release"@) == (7nat, 'r', 'l'),
        verb_key("bury"@) == (4nat, 'b', 'r'),
        verb_key("touch"@) == (5nat, 't', 'u'),
        verb_key("watch"@) == (5nat, 'w', 't'),
        verb_key("ignore"@) == (6nat, 'i', 'n'),
        verb_key("peek"@) == (4nat, 'p', 'e'),
        verb_key("peek-ready"@) == (10nat, 'p', 'e'),
        verb_key("peek-delayed"@) == (12nat, 'p', 'e'),
        verb_key("peek-buried"@) == (11nat, 'p', 'e'),
        verb_key("kick"@) == (4nat, 'k', 'c'),
        verb_key("kick-job"@) == (8nat, 'k', 'c'),
        verb_key("stats-job"@) == (9nat, 's', 'a'),
        verb_key("stats-tube"@) == (10nat, 's', 'a'),
        verb_key("stats"@) == (5nat, 's', 'a'),
        verb_key("list-tubes"@) == (10nat, 'l', 's'),
        verb_key("list-tube-used"@) == (14nat, 'l', 's'),
        verb_key("list-tubes-watched"@) == (18nat, 'l', 's'),
        verb_key("quit"@) == (4nat, 'q', 'i'),
        verb_key("pause-tube"@) == (10nat, 'p', 'u'),
{
    reveal_strlit("put");
    reveal_strlit("use");
    reveal_strlit("reserve");
    reveal_strlit("reserve-with-timeout");
    reveal_strlit("reserve-job");
    reveal_strlit("delete");
    reveal_strlit("release");
    reveal_strlit("bury");
    reveal_strlit("touch");
    reveal_strlit("watch");
    reveal_strlit("ignore");
    reveal_strlit("peek");
    reveal_strlit("peek-ready");
    reveal_strlit("peek-delayed");
    reveal_strlit("peek-buried");
    reveal_strlit("kick");
    reveal_strlit("kick-job");
    reveal_strlit("stats-job");
    reveal_strlit("stats-tube");
    reveal_strlit("stats");
    reveal_strlit("list-tubes");
    reveal_strlit("list-tube-used");
    reveal_strlit("list-tubes-watched");
    reveal_strlit("quit");
    reveal_strlit("pause-tube");
}

/// Every command is written as tokens that are a command.
pub proof fn lemma_command_tokens(c: Cmd)
    ensures
        is_command(c.tokens()),
{
    lemma_verbs();
    let ts = c.tokens();
    assert(ts[0] == Token::Name(c.verb()));
    match c {
        Cmd::Put { .. } => {
            assert(ts.len() == 6);
            assert(ts[1] == c.args()[0]);
            assert(ts[2] == c.args()[1]);
            assert(ts[3] == c.args()[2]);
            assert(ts[4] == c.args()[3]);
            assert(ts[5] == c.args()[4]);
        },
        Cmd::Use { .. } => {
            assert(ts.len() == 2);
            assert(ts[1] == c.args()[0]);
        },
        Cmd::Reserve => {
            assert(ts.len() == 1);
        },
        Cmd::ReserveWithTimeout { .. } => {
            assert(ts.len() == 2);
            assert(ts[1] == c.args()[0]);
        },
        Cmd::ReserveJob { .. } => {
            assert(ts.len() == 2);
            assert(ts[1] == c.args()[0]);
        },
        Cmd::Delete { .. } => {
            assert(ts.len() == 2);
            assert(ts[1] == c.args()[0]);
        },
        Cmd::Release { .. } => {
            assert(ts.len() == 4);
            assert(ts[1] == c.args()[0]);
            assert(ts[2] == c.args()[1]);
            assert(ts[3] == c.args()[2]);
        },
        Cmd::Bury { .. } => {
            assert(ts.len() == 3);
            assert(ts[1] == c.args()[0]);
            assert(ts[2] == c.args()[1]);
        },
        Cmd::Touch { .. } => {
            assert(ts.len() == 2);
            assert(ts[1] == c.args()[0]);
        },
        Cmd::Watch { .. } => {
            assert(ts.len() == 2);
            assert(ts[1] == c.args()[0]);
        },
        Cmd::Ignore { .. } => {
            assert(ts.len() == 2);
            assert(ts[1] == c.args()[0]);
        },
        Cmd::Peek { .. } => {
            assert(ts.len() == 2);
            assert(ts[1] == c.args()[0]);
        },
        Cmd::PeekReady => {
            assert(ts.len() == 1);
        },
        Cmd::PeekDelayed => {
            assert(ts.len() == 1);
        },
        Cmd::PeekBuried => {
            assert(ts.len() == 1);
        },
        Cmd::Kick { .. } => {
            assert(ts.len() == 2);
            assert(ts[1] == c.args()[0]);
        },
        Cmd::KickJob { .. } => {
            assert(ts.len() == 2);
            assert(ts[1] == c.args()[0]);
        },
        Cmd::StatsJob { .. } => {
            assert(ts.len() == 2);
            assert(ts[1] == c.args()[0]);
        },
        Cmd::StatsTube { .. } => {
            assert(ts.len() == 2);
            assert(ts[1] == c.args()[0]);
        },
        Cmd::Stats => {
            assert(ts.len() == 1);
        },
        Cmd::ListTubes => {
            assert(ts.len() == 1);
        },
        Cmd::ListTubeUsed => {
            assert(ts.len() == 1);
        },
        Cmd::ListTubesWatched => {
            assert(ts.len() == 1);
        },
        Cmd::Quit => {
            assert(ts.len() == 1);
        },
        Cmd::PauseTube { .. } => {
            assert(ts.len() == 3);
            assert(ts[1] == c.args()[0]);
            assert(ts[2] == c.args()[1]);
        },
    }
}

/// Two commands that are written as the same tokens are the same command, with the
/// same arguments.
pub proof fn lemma_same_tokens(a: Cmd, b: Cmd)
    requires
        a.tokens() == b.tokens(),
    ensures
        a.verb() == b.verb(),
        a.args() == b.args(),
        a is Put <==> b is Put,
        a is Put ==> a->Put_pri == b->Put_pri,
        a is Put ==> a->Put_delay == b->Put_delay,
        a is Put ==> a->Put_ttr == b->Put_ttr,
        a is Put ==> a->Put_bytes == b->Put_bytes,
        a is Put ==> bytes_seq(a->Put_data) == bytes_seq(b->Put_data),
        a is Use <==> b is Use,
        a is Use ==> a->Use_tube@ == b->Use_tube@,
        a is Reserve <==> b is Reserve,
        a is ReserveWithTimeout <==> b is ReserveWithTimeout,
        a is ReserveWithTimeout ==> a->ReserveWithTimeout_seconds == b->ReserveWithTimeout_seconds,
        a is ReserveJob <==> b is ReserveJob,
        a is ReserveJob ==> a->ReserveJob_id == b->ReserveJob_id,
        a is Delete <==> b is Delete,
        a is Delete ==> a->Delete_id == b->Delete_id,
        a is Release <==> b is Release,
        a is Release ==> a->Release_id == b->Release_id,
        a is Release ==> a->Release_pri == b->Release_pri,
        a is Release ==> a->Release_delay == b->Release_delay,
        a is Bury <==> b is Bury,
        a is Bury ==> a->Bury_id == b->Bury_id,
        a is Bury ==> a->Bury_pri == b->Bury_pri,
        a is Touch <==> b is Touch,
        a is Touch ==> a->Touch_id == b->Touch_id,
        a is Watch <==> b is Watch,
        a is Watch ==> a->Watch_tube@ == b->Watch_tube@,
        a is Ignore <==> b is Ignore,
        a is Ignore ==> a->Ignore_tube@ == b->Ignore_tube@,
        a is Peek <==> b is Peek,
        a is Peek ==> a->Peek_id == b->Peek_id,
        a is PeekReady <==> b is PeekReady,
        a is PeekDelayed <==> b is PeekDelayed,
        a is PeekBuried <==> b is PeekBuried,
        a is Kick <==> b is Kick,
        a is Kick ==> a->Kick_bound == b->Kick_bound,
        a is KickJob <==> b is KickJob,
        a is KickJob ==> a->KickJob_id == b->KickJob_id,
        a is StatsJob <==> b is StatsJob,
        a is StatsJob ==> a->StatsJob_id == b->StatsJob_id,
        a is StatsTube <==> b is StatsTube,
        a is StatsTube ==> a->StatsTube_tube@ == b->StatsTube_tube@,
        a is Stats <==> b is Stats,
        a is ListTubes <==> b is ListTubes,
        a is ListTubeUsed <==> b is ListTubeUsed,
        a is ListTubesWatched <==> b is ListTubesWatched,
        a is Quit <==> b is Quit,
        a is PauseTube <==> b is PauseTube,
        a is PauseTube ==> a->PauseTube_tube_name@ == b->PauseTube_tube_name@,
        a is PauseTube ==> a->PauseTube_delay == b->PauseTube_delay,
{
    lemma_verbs();
    assert(a.tokens()[0] == Token::Name(a.verb()));
    assert(b.tokens()[0] == Token::Name(b.verb()));
    assert(a.args() =~= a.tokens().skip(1));
    assert(b.args() =~= b.tokens().skip(1));
    match a {
        Cmd::Put { .. } => {
            assert(a.args()[0] == b.args()[0]);
            assert(a.args()[1] == b.args()[1]);
            assert(a.args()[2] == b.args()[2]);
            assert(a.args()[3] == b.args()[3]);
            assert(a.args()[4] == b.args()[4]);
        },
        Cmd::Use { .. } => {
            assert(a.args()[0] == b.args()[0]);
        },
        Cmd::Reserve => {
        },
        Cmd::ReserveWithTimeout { .. } => {
            assert(a.args()[0] == b.args()[0]);
        },
        Cmd::ReserveJob { .. } => {
            assert(a.args()[0] == b.args()[0]);
        },
        Cmd::Delete { .. } => {
            assert(a.args()[0] == b.args()[0]);
        },
        Cmd::Release { .. } => {
            assert(a.args()[0] == b.args()[0]);
            assert(a.args()[1] == b.args()[1]);
            assert(a.args()[2] == b.args()[2]);
        },
        Cmd::Bury { .. } => {
            assert(a.args()[0] == b.args()[0]);
            assert(a.args()[1] == b.args()[1]);
        },
        Cmd::Touch { .. } => {
            assert(a.args()[0] == b.args()[0]);
        },
        Cmd::Watch { .. } => {
            assert(a.args()[0] == b.args()[0]);
        },
        Cmd::Ignore { .. } => {
            assert(a.args()[0] == b.args()[0]);
        },
        Cmd::Peek { .. } => {
            assert(a.args()[0] == b.args()[0]);
        },
        Cmd::PeekReady => {
        },
        Cmd::PeekDelayed => {
        },
        Cmd::PeekBuried => {
        },
        Cmd::Kick { .. } => {
            assert(a.args()[0] == b.args()[0]);
        },
        Cmd::KickJob { .. } => {
            assert(a.args()[0] == b.args()[0]);
        },
        Cmd::StatsJob { .. } => {
            assert(a.args()[0] == b.args()[0]);
        },
        Cmd::StatsTube { .. } => {
            assert(a.args()[0] == b.args()[0]);
        },
        Cmd::Stats => {
        },
        Cmd::ListTubes => {
        },
        Cmd::ListTubeUsed => {
        },
        Cmd::ListTubesWatched => {
        },
        Cmd::Quit => {
        },
        Cmd::PauseTube { .. } => {
            assert(a.args()[0] == b.args()[0]);
            assert(a.args()[1] == b.args()[1]);
        },
    }
}

/// Reads a frame as a command.
///
/// The frame is a command exactly where its tokens are the verb and the arguments of
/// one; it is then that command.
pub fn parse(data: Vec<Data>) -> (out: Result<Cmd, Error>)
    ensures
        out is Ok <==> is_command(frame_view(data@)),
        out matches Ok(c) ==> c.tokens() == frame_view(data@),
        out matches Err(e) ==> e == Error::BadFormat,
{
    let ghost ts = frame_view(data@);
    let mut parser = Parser::new(data);
    let name = parser.consume_name()?;
    let verb = name.as_str();
    let cmd = if str_eq(verb, "put") {
        let pri = parser.consume_integer()?;
        let delay = parser.consume_integer()?;
        let ttr = parser.consume_integer()?;
        let bytes = parser.consume_integer()?;
        let data = parser.consume_bytes()?;
        Cmd::Put { pri, delay, ttr, bytes, data }
    } else if str_eq(verb, "use") {
        let tube = parser.consume_name()?;
        Cmd::Use { tube }
    } else if str_eq(verb, "reserve") {
        Cmd::Reserve
    } else if str_eq(verb, "reserve-with-timeout") {
        let seconds = parser.consume_integer()?;
        Cmd::ReserveWithTimeout { seconds }
    } else if str_eq(verb, "reserve-job") {
        let id = parser.consume_integer()?;
        Cmd::ReserveJob { id }
    } else if str_eq(verb, "delete") {
        let id = parser.consume_integer()?;
        Cmd::Delete { id }
    } else if str_eq(verb, "release") {
        let id = parser.consume_integer()?;
        let pri = parser.consume_integer()?;
        let delay = parser.consume_integer()?;
        Cmd::Release { id, pri, delay }
    } else if str_eq(verb, "bury") {
        let id = parser.consume_integer()?;
        let pri = parser.consume_integer()?;
        Cmd::Bury { id, pri }
    } else if str_eq(verb, "touch") {
        let id = parser.consume_integer()?;
        Cmd::Touch { id }
    } else if str_eq(verb, "watch") {
        let tube = parser.consume_name()?;
        Cmd::Watch { tube }
    } else if str_eq(verb, "ignore") {
        let tube = parser.consume_name()?;
        Cmd::Ignore { tube }
    } else if str_eq(verb, "peek") {
        let id = parser.consume_integer()?;
        Cmd::Peek { id }
    } else if str_eq(verb, "peek-ready") {
        Cmd::PeekReady
    } else if str_eq(verb, "peek-delayed") {
        Cmd::PeekDelayed
    } else if str_eq(verb, "peek-buried") {
        Cmd::PeekBuried
    } else if str_eq(verb, "kick") {
        let bound = parser.consume_integer()?;
        Cmd::Kick { bound }
    } else if str_eq(verb, "kick-job") {
        let id = parser.consume_integer()?;
        Cmd::KickJob { id }
    } else if str_eq(verb, "stats-job") {
        let id = parser.consume_integer()?;
        Cmd::StatsJob { id }
    } else if str_eq(verb, "stats-tube") {
        let tube = parser.consume_name()?;
        Cmd::StatsTube { tube }
    } else if str_eq(verb, "stats") {
        Cmd::Stats
    } else if str_eq(verb, "list-tubes") {
        Cmd::ListTubes
    } else if str_eq(verb, "list-tube-used") {
        Cmd::ListTubeUsed
    } else if str_eq(verb, "list-tubes-watched") {
        Cmd::ListTubesWatched
    } else if str_eq(verb, "quit") {
        Cmd::Quit
    } else if str_eq(verb, "pause-tube") {
        let tube_name = parser.consume_name()?;
        let delay = parser.consume_integer()?;
        Cmd::PauseTube { tube_name, delay }
    } else {
        return Err(Error::BadFormat);
    };
    parser.finish()?;
    proof {
        assert(cmd.tokens() =~= ts);
    }
    Ok(cmd)
}

} // verus!
