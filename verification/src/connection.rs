//! What the server keeps of one client: its id, the tube it uses, the tubes it
//! watches, and the jobs it holds.

use vstd::prelude::*;
use crate::queue::names;
use crate::text::str_eq;

verus! {

/// A change to the jobs that a connection holds.
#[derive(Debug)]
pub enum ReserveCommand {
    /// The connection was handed this job, with this time to run.
    Reserve { id: u32, ttr: u32 },
    /// The connection no longer holds this job.
    Remove { id: u32 },
}

/// The state of one client.
pub struct Connection {
    id: u64,
    tube: String,
    watch: Vec<String>,
    reserved: Vec<(u32, u32)>,
    closing: bool,
    waiting: bool,
}

/// The state of one client, as plain values.
pub struct ConnInfo {
    /// The number that tells this connection from the others.
    pub id: u64,
    /// The name of the tube that `put` adds to.
    pub used: Seq<char>,
    /// The names of the watched tubes, in the order in which they were added.
    pub watched: Seq<Seq<char>>,
    /// The jobs that the connection holds, each with its time to run, in the order in
    /// which they were handed out.
    pub held: Seq<(u32, u32)>,
    /// Whether the connection is to be closed.
    pub closing: bool,
    /// Whether the connection waits for a job, so that no further command of it is
    /// read.
    pub waiting: bool,
}

impl ConnInfo {
    /// What holds of every connection: it watches a tube, and none twice.
    pub open spec fn inv(self) -> bool {
        self.watched.len() >= 1 && self.watched.no_duplicates()
    }

    /// The state of a connection that was just made.
    pub open spec fn fresh(id: u64) -> ConnInfo {
        ConnInfo {
            id,
            used: "default"@,
            watched: seq!["default"@],
            held: Seq::empty(),
            closing: false,
            waiting: false,
        }
    }

    /// The state with one more watched tube, at the end, unless it is watched.
    pub open spec fn watch(self, tube: Seq<char>) -> ConnInfo {
        if self.watched.contains(tube) {
            self
        } else {
            ConnInfo { watched: self.watched.push(tube), ..self }
        }
    }

    /// The state without a watched tube, unless it is the only one.
    pub open spec fn ignore(self, tube: Seq<char>) -> ConnInfo {
        if self.watched == seq![tube] {
            self
        } else {
            ConnInfo { watched: without_name(self.watched, tube), ..self }
        }
    }

    /// The state with one more held job.
    pub open spec fn hold(self, id: u32, ttr: u32) -> ConnInfo {
        ConnInfo { held: self.held.push((id, ttr)), ..self }
    }

    /// The state without a held job.
    pub open spec fn drop(self, id: u32) -> ConnInfo {
        ConnInfo { held: without_job(self.held, id), ..self }
    }
}

impl View for Connection {
    type V = ConnInfo;

    closed spec fn view(&self) -> ConnInfo {
        ConnInfo {
            id: self.id,
            used: self.tube@,
            watched: names(self.watch@),
            held: self.reserved@,
            closing: self.closing,
            waiting: self.waiting,
        }
    }
}

/// What tells the held jobs that are not the job `id`.
pub open spec fn other_job(id: u32) -> spec_fn((u32, u32)) -> bool {
    |h: (u32, u32)| h.0 != id
}

/// What tells the names that are not `name`.
pub open spec fn other_name(name: Seq<char>) -> spec_fn(Seq<char>) -> bool {
    |n: Seq<char>| n != name
}

/// The list without the items whose first part is `id`.
pub open spec fn without_job(held: Seq<(u32, u32)>, id: u32) -> Seq<(u32, u32)> {
    held.filter(other_job(id))
}

/// The names without `name`.
pub open spec fn without_name(watch: Seq<Seq<char>>, name: Seq<char>) -> Seq<Seq<char>> {
    watch.filter(other_name(name))
}

impl Connection {
    /// Whether the connection is in order: it watches a tube, and none twice.
    pub closed spec fn wf(&self) -> bool {
        self.watch@.len() >= 1 && names(self.watch@).no_duplicates()
    }

    /// The watch-set of a connection that is in order is not empty and holds no name
    /// twice.
    pub proof fn lemma_wf(&self)
        requires
            self.wf(),
        ensures
            self@.inv(),
    {
    }

    /// A connection that uses and watches `default` and holds no job.
    pub fn new(id: u64) -> (out: Self)
        ensures
            out.wf(),
            out@ == ConnInfo::fresh(id),
    {
        let mut watch: Vec<String> = Vec::new();
        watch.push("default".to_owned());
        proof {
            assert(names(watch@) =~= seq!["default"@]);
        }
        Self {
            id,
            tube: "default".to_owned(),
            watch,
            reserved: Vec::new(),
            closing: false,
            waiting: false,
        }
    }

    /// The number that tells this connection from the others.
    pub fn id(&self) -> (out: u64)
        ensures
            out == self@.id,
    {
        self.id
    }

    /// Makes a tube the one that `put` adds to.
    pub fn use_tube(&mut self, tube: &str)
        requires
            old(self).wf(),
        ensures
            final(self).wf(),
            final(self)@ == (ConnInfo { used: tube@, ..old(self)@ }),
    {
        self.tube = tube.to_owned();
    }

    /// The name of the tube that `put` adds to.
    pub fn tube(&self) -> (out: &str)
        ensures
            out@ == self@.used,
    {
        self.tube.as_str()
    }

    /// The names of the watched tubes.
    pub fn get_watched_tubes(&self) -> (out: &Vec<String>)
        requires
            self.wf(),
        ensures
            names(out@) == self@.watched,
            out@.len() >= 1,
    {
        &self.watch
    }

    /// Whether the tube is watched.
    pub fn watches(&self, tube: &str) -> (out: bool)
        ensures
            out == self@.watched.contains(tube@),
    {
        self.place(tube).is_some()
    }

    /// The place of a name in the watch-set.
    fn place(&self, tube: &str) -> (out: Option<usize>)
        ensures
            match out {
                Some(i) => i < self@.watched.len() && self@.watched[i as int] == tube@,
                None => !self@.watched.contains(tube@),
            },
    {
        let mut i: usize = 0;
        while i < self.watch.len()
            invariant
                0 <= i <= self.watch@.len(),
                forall|a: int| 0 <= a < i ==> names(self.watch@)[a] != tube@,
            decreases self.watch@.len() - i,
        {
            if str_eq(self.watch[i].as_str(), tube) {
                assert(names(self.watch@)[i as int] == tube@);
                return Some(i);
            }
            i += 1;
        }
        None
    }

    /// Adds a tube to the watch-set, at the end, unless it is there.
    pub fn watch(&mut self, tube: String)
        requires
            old(self).wf(),
        ensures
            final(self).wf(),
            final(self)@ == old(self)@.watch(tube@),
    {
        if self.place(tube.as_str()).is_none() {
            let ghost before = names(self.watch@);
            self.watch.push(tube);
            proof {
                assert(names(self.watch@) =~= before.push(tube@));
                assert forall|a: int, b: int|
                    0 <= a < names(self.watch@).len() && 0 <= b < names(self.watch@).len() && a
                        != b implies names(self.watch@)[a] != names(self.watch@)[b] by {
                    if a < before.len() {
                        assert(before.contains(before[a]));
                    }
                    if b < before.len() {
                        assert(before.contains(before[b]));
                    }
                }
            }
        }
    }

    /// Takes a tube out of the watch-set, unless it is not there or is the last one.
    /// Says whether the tube was the last one, so that it stayed.
    pub fn ignore(&mut self, tube: String) -> (last: bool)
        requires
            old(self).wf(),
        ensures
            final(self).wf(),
            last == (old(self)@.watched == seq![tube@]),
            final(self)@ == old(self)@.ignore(tube@),
    {
        let ghost before = names(self.watch@);
        let ghost keep = other_name(tube@);
        match self.place(tube.as_str()) {
            None => {
                proof {
                    lemma_filter_keeps(before, keep);
                    assert(before[0] != tube@) by {
                        assert(before.contains(before[0]));
                    }
                }
                false
            },
            Some(i) => {
                if self.watch.len() == 1 {
                    proof {
                        assert(before =~= seq![tube@]);
                    }
                    return true;
                }
                self.watch.remove(i);
                proof {
                    assert(names(self.watch@) =~= before.remove(i as int));
                    lemma_filter_removes(before, keep, i as int);
                    assert(!(before =~= seq![tube@]));
                    assert forall|a: int, b: int|
                        0 <= a < before.remove(i as int).len() && 0 <= b < before.remove(
                            i as int,
                        ).len() && a != b implies before.remove(i as int)[a] != before.remove(
                        i as int,
                    )[b] by {
                        let a1 = if a < i { a } else { a + 1 };
                        let b1 = if b < i { b } else { b + 1 };
                        assert(before.remove(i as int)[a] == before[a1]);
                        assert(before.remove(i as int)[b] == before[b1]);
                    }
                }
                false
            },
        }
    }

    /// Writes down that the connection was handed a job, with its time to run.
    pub fn add_reserved(&mut self, id: u32, ttr: u32)
        requires
            old(self).wf(),
        ensures
            final(self).wf(),
            final(self)@ == old(self)@.hold(id, ttr),
    {
        self.reserved.push((id, ttr));
    }

    /// Writes down that the connection no longer holds a job.
    pub fn remove_reserved(&mut self, id: u32)
        requires
            old(self).wf(),
        ensures
            final(self).wf(),
            final(self)@ == old(self)@.drop(id),
    {
        let ghost before = self.reserved@;
        let mut kept: Vec<(u32, u32)> = Vec::new();
        let mut i: usize = 0;
        proof {
            lemma_without_job_empty(id);
            assert(before.take(0) =~= Seq::<(u32, u32)>::empty());
        }
        while i < self.reserved.len()
            invariant
                0 <= i <= self.reserved@.len(),
                self.reserved@ == before,
                kept@ == without_job(before.take(i as int), id),
            decreases self.reserved@.len() - i,
        {
            let h = self.reserved[i];
            proof {
                assert(before.take(i + 1) =~= before.take(i as int).push(before[i as int]));
                lemma_without_job_push(before.take(i as int), before[i as int], id);
            }
            if h.0 != id {
                kept.push(h);
            }
            i += 1;
        }
        proof {
            assert(before.take(i as int) =~= before);
        }
        self.reserved = kept;
    }

    /// Applies a change to the jobs that the connection holds.
    pub fn track(&mut self, change: ReserveCommand)
        requires
            old(self).wf(),
        ensures
            final(self).wf(),
            final(self)@ == match change {
                ReserveCommand::Reserve { id, ttr } => old(self)@.hold(id, ttr),
                ReserveCommand::Remove { id } => old(self)@.drop(id),
            },
    {
        match change {
            ReserveCommand::Reserve { id, ttr } => self.add_reserved(id, ttr),
            ReserveCommand::Remove { id } => self.remove_reserved(id),
        }
    }

    /// The jobs that the connection holds, each with its time to run.
    pub fn held_jobs(&self) -> (out: Vec<(u32, u32)>)
        ensures
            out@ == self@.held,
    {
        let mut out: Vec<(u32, u32)> = Vec::new();
        let mut i: usize = 0;
        while i < self.reserved.len()
            invariant
                0 <= i <= self.reserved@.len(),
                out@ == self.reserved@.take(i as int),
            decreases self.reserved@.len() - i,
        {
            out.push(self.reserved[i]);
            proof {
                assert(out@ =~= self.reserved@.take(i + 1));
            }
            i += 1;
        }
        proof {
            assert(self.reserved@.take(i as int) =~= self.reserved@);
        }
        out
    }

    /// Writes down that the connection holds no job any more.
    pub fn forget_jobs(&mut self)
        requires
            old(self).wf(),
        ensures
            final(self).wf(),
            final(self)@ == (ConnInfo { held: Seq::empty(), ..old(self)@ }),
    {
        self.reserved = Vec::new();
    }

    /// Writes down whether the connection waits for a job.
    pub fn set_waiting(&mut self, waiting: bool)
        requires
            old(self).wf(),
        ensures
            final(self).wf(),
            final(self)@ == (ConnInfo { waiting, ..old(self)@ }),
    {
        self.waiting = waiting;
    }

    /// Whether the next command of the connection is to be read: it neither waits for
    /// a job nor is to be closed.
    pub fn wants_input(&self) -> (out: bool)
        ensures
            out == (!self@.waiting && !self@.closing),
    {
        !self.waiting && !self.closing
    }

    /// Marks the connection as one to be closed.
    pub fn quit(&mut self)
        requires
            old(self).wf(),
        ensures
            final(self).wf(),
            final(self)@ == (ConnInfo { closing: true, ..old(self)@ }),
    {
        self.closing = true;
    }

    /// Whether the connection is to be closed.
    pub fn is_closing(&self) -> (out: bool)
        ensures
            out == self@.closing,
    {
        self.closing
    }
}

/// The empty list without a job is empty.
proof fn lemma_without_job_empty(id: u32)
    ensures
        without_job(Seq::empty(), id) == Seq::<(u32, u32)>::empty(),
{
    reveal(Seq::filter);
}

/// A list with one more job, without the job `id`, is the list without that job, with the
/// one more unless it is that job.
proof fn lemma_without_job_push(s: Seq<(u32, u32)>, h: (u32, u32), id: u32)
    ensures
        without_job(s.push(h), id) == if h.0 != id {
            without_job(s, id).push(h)
        } else {
            without_job(s, id)
        },
{
    reveal(Seq::filter);
    assert(s.push(h).drop_last() =~= s);
}

/// Filtering keeps a list whose every item passes.
pub proof fn lemma_filter_keeps<T>(s: Seq<T>, keep: spec_fn(T) -> bool)
    requires
        forall|i: int| 0 <= i < s.len() ==> keep(#[trigger] s[i]),
    ensures
        s.filter(keep) == s,
    decreases s.len(),
{
    reveal(Seq::filter);
    if s.len() > 0 {
        lemma_filter_keeps(s.drop_last(), keep);
        assert(s.drop_last().push(s.last()) =~= s);
    }
}

/// Filtering takes out of a list the one item that does not pass.
pub proof fn lemma_filter_removes<T>(s: Seq<T>, keep: spec_fn(T) -> bool, i: int)
    requires
        0 <= i < s.len(),
        !keep(s[i]),
        forall|a: int| 0 <= a < s.len() && a != i ==> keep(#[trigger] s[a]),
    ensures
        s.filter(keep) == s.remove(i),
    decreases s.len(),
{
    reveal(Seq::filter);
    let d = s.drop_last();
    if i == s.len() - 1 {
        lemma_filter_keeps(d, keep);
        assert(s.remove(i) =~= d);
    } else {
        lemma_filter_removes(d, keep, i);
        assert(d.remove(i).push(s.last()) =~= s.remove(i));
    }
}

} // verus!
