//! The job store: tubes, their jobs, and the moves between the states of a job.

use vstd::prelude::*;
use std::collections::{HashMap, VecDeque};
use bytes::Bytes;
use crate::buffer::bytes_seq;
use crate::store::{
    later, lemma_added, lemma_amend, lemma_band_end_is, lemma_index_of, lemma_moved, lemma_next,
    lemma_pause, lemma_release_ref, lemma_removed, lemma_retain, lemma_tube_of, lemma_waiters,
    lemma_with_refs, lemma_with_tube, JobInfo, JobState, Store, TimerEvent, TubeInfo,
    WaiterInfo, SECOND,
};
use crate::text::str_eq;

verus! {

broadcast use vstd::std_specs::hash::group_hash_axioms;

/// A job as it is handed to a client.
#[derive(Debug, PartialEq, Clone)]
pub struct Job {
    pub id: u32,
    pub ttr: u32,
    pub pri: u32,
    pub data: Bytes,
}

/// A named queue of jobs.
pub struct Tube {
    name: String,
    ready: VecDeque<u32>,
    delay: Vec<u32>,
    buried: Vec<u32>,
    paused_until: u64,
    refs: usize,
}

/// What the store keeps of one job.
struct Entry {
    job: Job,
    tube: usize,
    state: JobState,
    deadline: u64,
    reserver: u64,
    warned: bool,
}

/// A connection that waits for a job.
struct Waiter {
    conn: u64,
    watch: Vec<String>,
    deadline: Option<u64>,
}

/// The store of all jobs and tubes.
pub struct Queue {
    tubes: Vec<Tube>,
    jobs: HashMap<u32, Entry>,
    reserved: Vec<u32>,
    waiters: Vec<Waiter>,
    next_id: u64,
    draining: bool,
}

impl Job {
    /// Whether this is the job `id` as the store knows it.
    pub open spec fn shows(&self, id: u32, info: JobInfo) -> bool {
        self.id == id && self.pri == info.pri && self.ttr == info.ttr && bytes_seq(self.data)
            == info.body
    }

    /// A job of these values. A time to run of 0 counts as 1.
    pub fn new(id: u32, ttr: u32, pri: u32, data: Bytes) -> (out: Self)
        ensures
            out.id == id,
            out.ttr == if ttr == 0 {
                1
            } else {
                ttr
            },
            out.pri == pri,
            out.data == data,
    {
        let ttr = if ttr == 0 {
            1
        } else {
            ttr
        };
        Self { id, ttr, pri, data }
    }
}

/// The names that a list of strings holds.
pub open spec fn names(v: Seq<String>) -> Seq<Seq<char>> {
    Seq::new(v.len(), |i: int| v[i]@)
}

/// The time `secs` seconds after `now`; the last moment where that is beyond it.
pub fn time_after(now: u64, secs: u32) -> (out: u64)
    ensures
        out == later(now, secs),
{
    let span: u64 = secs as u64 * SECOND;
    if now > u64::MAX - span {
        u64::MAX
    } else {
        now + span
    }
}

/// Whether the list holds the name.
fn in_list(list: &Vec<String>, name: &str) -> (out: bool)
    ensures
        out == names(list@).contains(name@),
{
    let mut i: usize = 0;
    while i < list.len()
        invariant
            0 <= i <= list@.len(),
            forall|a: int| 0 <= a < i ==> names(list@)[a] != name@,
        decreases list@.len() - i,
    {
        if str_eq(list[i].as_str(), name) {
            assert(names(list@)[i as int] == name@);
            return true;
        }
        i += 1;
    }
    false
}

impl View for Tube {
    type V = TubeInfo;

    closed spec fn view(&self) -> TubeInfo {
        TubeInfo {
            name: self.name@,
            ready: self.ready@,
            delayed: self.delay@,
            buried: self.buried@,
            paused_until: self.paused_until,
            refs: self.refs,
        }
    }
}

impl View for Entry {
    type V = JobInfo;

    closed spec fn view(&self) -> JobInfo {
        JobInfo {
            tube: self.tube as int,
            pri: self.job.pri,
            ttr: self.job.ttr,
            body: bytes_seq(self.job.data),
            state: self.state,
            deadline: self.deadline,
            reserver: self.reserver,
            warned: self.warned,
        }
    }
}

impl View for Waiter {
    type V = WaiterInfo;

    closed spec fn view(&self) -> WaiterInfo {
        WaiterInfo { conn: self.conn, watch: names(self.watch@), deadline: self.deadline }
    }
}

impl View for Queue {
    type V = Store;

    closed spec fn view(&self) -> Store {
        Store {
            tubes: Seq::new(self.tubes@.len(), |k: int| self.tubes@[k]@),
            jobs: Map::new(|id: u32| self.jobs@.contains_key(id), |id: u32| self.jobs@[id]@),
            reserved: self.reserved@,
            waiters: Seq::new(self.waiters@.len(), |i: int| self.waiters@[i]@),
            next_id: self.next_id as nat,
            draining: self.draining,
        }
    }
}

impl Queue {
    /// What the fields hold beyond what the view shows: each job under its own id, and
    /// a next id that is at most one past the last.
    spec fn repr(&self) -> bool {
        &&& forall|id: u32| #[trigger] self.jobs@.contains_key(id) ==> self.jobs@[id].job.id == id
        &&& self.next_id <= 0x1_0000_0000
    }

    /// Whether the store is in order.
    pub closed spec fn wf(&self) -> bool {
        self.repr() && self@.inv()
    }

    /// The place of the tube with this name, if there is one.
    fn find_tube(&self, name: &str) -> (out: Option<usize>)
        ensures
            match out {
                Some(k) => k < self@.tubes.len() && self@.tubes[k as int].name == name@,
                None => !self@.has_tube(name@),
            },
    {
        let mut k: usize = 0;
        while k < self.tubes.len()
            invariant
                0 <= k <= self.tubes@.len(),
                forall|a: int| 0 <= a < k ==> (#[trigger] self@.tubes[a]).name != name@,
            decreases self.tubes@.len() - k,
        {
            if str_eq(self.tubes[k].name.as_str(), name) {
                return Some(k);
            }
            k += 1;
        }
        None
    }

    /// A store that is in order holds what must hold of its state.
    pub proof fn lemma_wf(&self)
        requires
            self.wf(),
        ensures
            self@.inv(),
    {
    }

    /// A store with the tube `default` and no job.
    pub fn new() -> (out: Self)
        ensures
            out.wf(),
            out@ == Store::fresh(),
    {
        let mut tubes: Vec<Tube> = Vec::new();
        tubes.push(
            Tube {
                name: "default".to_owned(),
                ready: VecDeque::new(),
                delay: Vec::new(),
                buried: Vec::new(),
                paused_until: 0,
                refs: 0,
            },
        );
        let out = Queue {
            tubes,
            jobs: HashMap::new(),
            reserved: Vec::new(),
            waiters: Vec::new(),
            next_id: 1,
            draining: false,
        };
        proof {
            assert(out@.tubes =~= Store::fresh().tubes);
            assert(out@.jobs =~= Store::fresh().jobs);
            assert(out@.reserved =~= Store::fresh().reserved);
            assert(out@.waiters =~= Store::fresh().waiters);
            assert(out@.tube_ok(0));
        }
        out
    }

    /// Whether an id is left for another job.
    pub fn has_room(&self) -> (out: bool)
        ensures
            out == (self@.next_id <= u32::MAX),
    {
        self.next_id <= 0xffff_ffff
    }

    /// The place of the tube of this name, which is made if there is none.
    fn tube_slot(&mut self, name: &str) -> (k: usize)
        requires
            old(self).wf(),
        ensures
            final(self).wf(),
            final(self)@ == old(self)@.with_tube(name@),
            k < final(self)@.tubes.len(),
            k == final(self)@.tube_of(name@),
            final(self)@.tubes[k as int].name == name@,
    {
        match self.find_tube(name) {
            Some(k) => {
                proof {
                    lemma_tube_of(self@, name@, k as int);
                }
                k
            },
            None => {
                proof {
                    lemma_with_tube(self@, name@);
                }
                let k = self.tubes.len();
                self.tubes.push(
                    Tube {
                        name: name.to_owned(),
                        ready: VecDeque::new(),
                        delay: Vec::new(),
                        buried: Vec::new(),
                        paused_until: 0,
                        refs: 0,
                    },
                );
                proof {
                    assert(self@.tubes =~= old(self)@.with_tube(name@).tubes);
                    assert(self@.jobs =~= old(self)@.with_tube(name@).jobs);
                    lemma_tube_of(self@, name@, k as int);
                }
                k
            },
        }
    }

    /// Makes a tube of this name, if there is none.
    pub fn new_tube(&mut self, tube: &str)
        requires
            old(self).wf(),
        ensures
            final(self).wf(),
            final(self)@ == old(self)@.with_tube(tube@),
    {
        let _ = self.tube_slot(tube);
    }

    /// Puts a job into a tube as ready, at the end of its priority band, and gives its
    /// id.
    pub fn new_job(&mut self, tube: String, ttr: u32, pri: u32, data: Bytes) -> (id: u32)
        requires
            old(self).wf(),
            old(self)@.next_id <= u32::MAX,
        ensures
            final(self).wf(),
            id == old(self)@.next_id,
            final(self)@ == old(self)@.put(tube@, pri, ttr, bytes_seq(data), JobState::Ready, 0),
    {
        let k = self.tube_slot(tube.as_str());
        let ttr = if ttr == 0 {
            1
        } else {
            ttr
        };
        self.add_job(k, ttr, pri, data, JobState::Ready, 0)
    }

    /// Puts a job into a tube as delayed until `delay` seconds after `now`, and gives
    /// its id.
    pub fn new_delayed_job(
        &mut self,
        tube: String,
        ttr: u32,
        pri: u32,
        delay: u32,
        data: Bytes,
        now: u64,
    ) -> (id: u32)
        requires
            old(self).wf(),
            old(self)@.next_id <= u32::MAX,
        ensures
            final(self).wf(),
            id == old(self)@.next_id,
            final(self)@ == old(self)@.put(
                tube@,
                pri,
                ttr,
                bytes_seq(data),
                JobState::Delayed,
                later(now, delay),
            ),
    {
        let k = self.tube_slot(tube.as_str());
        let ttr = if ttr == 0 {
            1
        } else {
            ttr
        };
        self.add_job(k, ttr, pri, data, JobState::Delayed, time_after(now, delay))
    }

    /// Makes a delayed, buried or reserved job of the tube ready, at the end of its
    /// priority band. Nothing changes where the tube has no such job.
    pub fn queue_job(&mut self, tube: String, id: u32)
        requires
            old(self).wf(),
        ensures
            final(self).wf(),
            final(self)@ == if old(self)@.can_queue(tube@, id) {
                old(self)@.readied(id, old(self)@.jobs[id].pri)
            } else {
                old(self)@
            },
    {
        if !self.jobs.contains_key(&id) {
            return ;
        }
        assert(self@.jobs.contains_key(id));
        assert(self@.job_ok(id));
        let e = self.entry(id);
        let pri = e.job.pri;
        if e.state != JobState::Ready && str_eq(self.tubes[e.tube].name.as_str(), tube.as_str()) {
            self.move_job(id, JobState::Ready, pri, 0, 0, false);
        }
    }

    /// Removes a job, whatever its state, and says whether there was one.
    pub fn delete_job(&mut self, id: u32) -> (out: bool)
        requires
            old(self).wf(),
        ensures
            final(self).wf(),
            out == old(self)@.jobs.contains_key(id),
            final(self)@ == if out {
                old(self)@.removed(id)
            } else {
                old(self)@
            },
    {
        if self.jobs.contains_key(&id) {
            assert(self@.jobs.contains_key(id));
            let _ = self.drop_job(id);
            true
        } else {
            assert(!self@.jobs.contains_key(id));
            false
        }
    }

    /// A copy of a job for a client.
    fn copy_of(&self, id: u32) -> (job: Job)
        requires
            self.repr(),
            self.jobs@.contains_key(id),
        ensures
            job.shows(id, self@.jobs[id]),
    {
        let e = self.entry(id);
        Job { id: e.job.id, ttr: e.job.ttr, pri: e.job.pri, data: e.job.data.clone() }
    }

    /// Whether the first ready job of the tube at `a` goes before that of the tube at `b`.
    fn goes_before(&self, a: usize, b: usize) -> (out: bool)
        requires
            self.wf(),
            a < self@.tubes.len(),
            b < self@.tubes.len(),
            self@.tubes[a as int].ready.len() > 0,
            self@.tubes[b as int].ready.len() > 0,
        ensures
            out == self@.before(a as int, b as int),
    {
        assert(self@.tube_ok(a as int));
        assert(self@.tube_ok(b as int));
        assert(self@.holds(self@.tubes[a as int].ready[0], a as int, JobState::Ready));
        assert(self@.holds(self@.tubes[b as int].ready[0], b as int, JobState::Ready));
        let pa = self.entry(self.tubes[a].ready[0]).job.pri;
        let pb = self.entry(self.tubes[b].ready[0]).job.pri;
        pa < pb || (pa == pb && crate::text::name_not_after(
            self.tubes[a].name.as_str(),
            self.tubes[b].name.as_str(),
        ))
    }

    /// The job that is reserved next for a watch-list.
    pub fn next_job(&self, watch_list: &Vec<String>, now: u64) -> (out: Option<u32>)
        requires
            self.wf(),
        ensures
            out == self@.next(names(watch_list@), now),
    {
        let ghost watch = names(watch_list@);
        let mut best: Option<usize> = None;
        let mut k: usize = 0;
        while k < self.tubes.len()
            invariant
                0 <= k <= self@.tubes.len(),
                self.tubes@.len() == self@.tubes.len(),
                self.wf(),
                watch == names(watch_list@),
                match self@.pick(watch, now, k as int) {
                    Some(b) => best == Some(b as usize) && 0 <= b < k && self@.offers(
                        watch,
                        now,
                        b,
                    ),
                    None => best is None,
                },
            decreases self@.tubes.len() - k,
        {
            let t = &self.tubes[k];
            let offers = t.paused_until <= now && t.ready.len() > 0 && in_list(
                watch_list,
                t.name.as_str(),
            );
            assert(offers == self@.offers(watch, now, k as int));
            if offers {
                match best {
                    None => {
                        best = Some(k);
                    },
                    Some(b) => {
                        if !self.goes_before(b, k) {
                            best = Some(k);
                        }
                    },
                }
            }
            k += 1;
        }
        match best {
            None => None,
            Some(b) => Some(self.tubes[b].ready[0]),
        }
    }

    /// Reserves for a connection the ready job that goes first among the watched tubes
    /// that are not paused: the one of the smallest priority number, within a tube the
    /// one that became ready first, between tubes the one of the tube whose name comes
    /// first.
    pub fn reserve_job(&mut self, watch_list: &Vec<String>, conn: u64, now: u64) -> (out: Option<
        Job,
    >)
        requires
            old(self).wf(),
        ensures
            final(self).wf(),
            match old(self)@.next(names(watch_list@), now) {
                Some(id) => out matches Some(job) && job.shows(id, old(self)@.jobs[id])
                    && final(self)@ == old(self)@.reserve(id, conn, now),
                None => out is None && final(self)@ == old(self)@,
            },
    {
        match self.next_job(watch_list, now) {
            None => None,
            Some(id) => {
                proof {
                    lemma_next(self@, names(watch_list@), now);
                }
                let job = self.copy_of(id);
                self.move_job(id, JobState::Reserved, job.pri, time_after(now, job.ttr), conn,
                    false);
                Some(job)
            },
        }
    }

    /// Lets a connection wait for a job from the tubes it watches, behind the
    /// connections that wait already.
    pub fn park(&mut self, conn: u64, watch: Vec<String>, deadline: Option<u64>)
        requires
            old(self).wf(),
        ensures
            final(self).wf(),
            final(self)@ == old(self)@.park(conn, names(watch@), deadline),
    {
        proof {
            lemma_waiters(self@, self@.park(conn, names(watch@), deadline).waiters);
        }
        self.waiters.push(Waiter { conn, watch, deadline });
        proof {
            assert(self@.waiters =~= old(self)@.park(conn, names(watch@), deadline).waiters);
            assert(self@.tubes =~= old(self)@.tubes);
            assert(self@.jobs =~= old(self)@.jobs);
        }
    }

    /// Hands the job that is next for it to the connection that waits longest among
    /// those for which there is one, and gives the connection and the job.
    pub fn serve(&mut self, now: u64) -> (out: Option<(u64, Job)>)
        requires
            old(self).wf(),
        ensures
            final(self).wf(),
            match old(self)@.first_served(now, old(self)@.waiters.len() as int) {
                Some(i) => {
                    let w = old(self)@.waiters[i];
                    let id = old(self)@.next(w.watch, now)->0;
                    out matches Some((conn, job)) && conn == w.conn && job.shows(
                        id,
                        old(self)@.jobs[id],
                    ) && final(self)@ == old(self)@.serve(i, now)
                },
                None => out is None && final(self)@ == old(self)@,
            },
    {
        let mut n: usize = 0;
        while n < self.waiters.len()
            invariant
                0 <= n <= self@.waiters.len(),
                self.waiters@.len() == self@.waiters.len(),
                self.wf(),
                self@ == old(self)@,
                self@.first_served(now, n as int) is None,
            decreases self@.waiters.len() - n,
        {
            match self.next_job(&self.waiters[n].watch, now) {
                Some(id) => {
                    proof {
                        lemma_first_served_stays(self@, now, n as int, self@.waiters.len() as int);
                        lemma_next(self@, self@.waiters[n as int].watch, now);
                        lemma_waiters(self@, self@.waiters.remove(n as int));
                    }
                    let ghost before = self@;
                    let w = self.waiters.remove(n);
                    proof {
                        assert(self@.waiters =~= before.waiters.remove(n as int));
                        assert(self@.tubes =~= before.tubes);
                        assert(self@.jobs =~= before.jobs);
                        assert(self@
                            == (Store { waiters: before.waiters.remove(n as int), ..before }));
                    }
                    let job = self.copy_of(id);
                    self.move_job(id, JobState::Reserved, job.pri, time_after(now, job.ttr),
                        w.conn, false);
                    return Some((w.conn, job));
                },
                None => {},
            }
            n += 1;
        }
        None
    }

    /// Lets the connection that waits longest among those whose waiting time is over
    /// stop waiting, and gives the connection.
    pub fn time_out(&mut self, now: u64) -> (out: Option<u64>)
        requires
            old(self).wf(),
        ensures
            final(self).wf(),
            match old(self)@.first_timed_out(now, old(self)@.waiters.len() as int) {
                Some(i) => out == Some(old(self)@.waiters[i].conn) && final(self)@ == old(
                    self,
                )@.unpark(i),
                None => out is None && final(self)@ == old(self)@,
            },
    {
        let mut n: usize = 0;
        while n < self.waiters.len()
            invariant
                0 <= n <= self@.waiters.len(),
                self.waiters@.len() == self@.waiters.len(),
                self.wf(),
                self@ == old(self)@,
                self@.first_timed_out(now, n as int) is None,
            decreases self@.waiters.len() - n,
        {
            let over = match self.waiters[n].deadline {
                Some(d) => d <= now,
                None => false,
            };
            if over {
                proof {
                    lemma_first_timed_out_stays(self@, now, n as int, self@.waiters.len() as int);
                    lemma_waiters(self@, self@.waiters.remove(n as int));
                }
                let w = self.waiters.remove(n);
                proof {
                    assert(self@.waiters =~= old(self)@.waiters.remove(n as int));
                    assert(self@.tubes =~= old(self)@.tubes);
                    assert(self@.jobs =~= old(self)@.jobs);
                }
                return Some(w.conn);
            }
            n += 1;
        }
        None
    }

    /// Lets a connection stop waiting, wherever it waits.
    pub fn cancel(&mut self, conn: u64)
        requires
            old(self).wf(),
        ensures
            final(self).wf(),
            final(self)@ == old(self)@.cancel(conn),
    {
        let ghost keep = |w: WaiterInfo| w.conn != conn;
        let ghost before = self@;
        let mut n: usize = 0;
        proof {
            assert(before.waiters.take(0) =~= Seq::<WaiterInfo>::empty());
            assert(Seq::<WaiterInfo>::empty().filter(keep) =~= Seq::<WaiterInfo>::empty()) by {
                reveal(Seq::filter);
            }
            assert(before.waiters.skip(0) =~= before.waiters);
        }
        let ghost mut done: int = 0;
        while n < self.waiters.len()
            invariant
                0 <= n <= self@.waiters.len(),
                self.waiters@.len() == self@.waiters.len(),
                self.wf(),
                keep == |w: WaiterInfo| w.conn != conn,
                0 <= done <= before.waiters.len(),
                (Store { waiters: before.waiters, ..self@ }) == before,
                self@.waiters.take(n as int) == before.waiters.take(done).filter(keep),
                self@.waiters.skip(n as int) == before.waiters.skip(done),
            decreases self@.waiters.len() - n,
        {
            let ghost cur = self@;
            proof {
                assert(cur.waiters.skip(n as int).len() == cur.waiters.len() - n);
                assert(before.waiters.skip(done).len() == before.waiters.len() - done);
                assert(done < before.waiters.len());
                assert(cur.waiters[n as int] == cur.waiters.skip(n as int)[0]);
                assert(before.waiters[done] == before.waiters.skip(done)[0]);
                assert(before.waiters.take(done + 1) =~= before.waiters.take(done).push(
                    before.waiters[done],
                ));
                Seq::lemma_filter_push(before.waiters.take(done), before.waiters[done], keep);
                assert(before.waiters.skip(done).skip(1) =~= before.waiters.skip(done + 1));
            }
            if self.waiters[n].conn == conn {
                proof {
                    lemma_waiters(cur, cur.waiters.remove(n as int));
                }
                let _ = self.waiters.remove(n);
                proof {
                    assert(self@.waiters =~= cur.waiters.remove(n as int));
                    assert(self@.tubes =~= cur.tubes);
                    assert(self@.jobs =~= cur.jobs);
                    assert(self@.waiters.take(n as int) =~= cur.waiters.take(n as int));
                    assert(self@.waiters.skip(n as int) =~= cur.waiters.skip(n as int).skip(1));
                }
            } else {
                proof {
                    assert(cur.waiters.take(n + 1) =~= cur.waiters.take(n as int).push(
                        cur.waiters[n as int],
                    ));
                    assert(cur.waiters.skip(n + 1) =~= cur.waiters.skip(n as int).skip(1));
                }
                n += 1;
            }
            proof {
                done = done + 1;
            }
        }
        proof {
            assert(self@.waiters.take(n as int) =~= self@.waiters);
            assert(done == before.waiters.len()) by {
                assert(self@.waiters.skip(n as int).len() == 0);
                assert(before.waiters.skip(done).len() == before.waiters.len() - done);
            }
            assert(before.waiters.take(done) =~= before.waiters);
        }
    }

    /// Reserves this job for a connection, unless there is none or it is reserved.
    pub fn reserve_by_id(&mut self, id: u32, conn: u64, now: u64) -> (out: Option<Job>)
        requires
            old(self).wf(),
        ensures
            final(self).wf(),
            if old(self)@.jobs.contains_key(id) && old(self)@.jobs[id].state
                != JobState::Reserved {
                out matches Some(job) && job.shows(id, old(self)@.jobs[id]) && final(self)@
                    == old(self)@.reserve(id, conn, now)
            } else {
                out is None && final(self)@ == old(self)@
            },
    {
        if !self.jobs.contains_key(&id) {
            assert(!self@.jobs.contains_key(id));
            return None;
        }
        assert(self@.jobs.contains_key(id));
        if self.entry(id).state == JobState::Reserved {
            return None;
        }
        let job = self.copy_of(id);
        self.move_job(id, JobState::Reserved, job.pri, time_after(now, job.ttr), conn, false);
        Some(job)
    }

    /// Whether the tube at `k` is there for the clients.
    fn is_alive(&self, k: usize) -> (out: bool)
        requires
            self.wf(),
            k < self@.tubes.len(),
        ensures
            out == self@.alive(k as int),
    {
        let t = &self.tubes[k];
        if k == 0 || t.refs > 0 || t.ready.len() > 0 || t.delay.len() > 0 || t.buried.len() > 0 {
            return true;
        }
        let mut n: usize = 0;
        while n < self.reserved.len()
            invariant
                0 <= n <= self.reserved@.len(),
                self.wf(),
                forall|i: int| 0 <= i < n ==> self@.jobs[#[trigger] self@.reserved[i]].tube != k,
            decreases self.reserved@.len() - n,
        {
            assert(self@.jobs.contains_key(self@.reserved[n as int]));
            if self.entry(self.reserved[n]).tube == k {
                return true;
            }
            n += 1;
        }
        false
    }

    /// The place of the tube of this name, if it is there for the clients.
    fn find_live_tube(&self, name: &str) -> (out: Option<usize>)
        requires
            self.wf(),
        ensures
            match out {
                Some(k) => self@.has_live_tube(name@) && k == self@.tube_of(name@) && k
                    < self@.tubes.len(),
                None => !self@.has_live_tube(name@),
            },
    {
        match self.find_tube(name) {
            None => None,
            Some(k) => {
                proof {
                    lemma_tube_of(self@, name@, k as int);
                }
                if self.is_alive(k) {
                    Some(k)
                } else {
                    None
                }
            },
        }
    }

    /// The names of the tubes that are there for the clients, in the order in which they
    /// were made.
    pub fn tube_names(&self) -> (out: Vec<String>)
        requires
            self.wf(),
        ensures
            names(out@) == self@.names(),
    {
        let mut out: Vec<String> = Vec::new();
        let mut k: usize = 0;
        proof {
            assert(names(out@) =~= self@.live_names(0));
        }
        while k < self.tubes.len()
            invariant
                0 <= k <= self.tubes@.len(),
                self.tubes@.len() == self@.tubes.len(),
                self.wf(),
                names(out@) == self@.live_names(k as int),
            decreases self.tubes@.len() - k,
        {
            if self.is_alive(k) {
                let ghost before = names(out@);
                out.push(self.tubes[k].name.clone());
                proof {
                    assert(names(out@) =~= before.push(self@.tubes[k as int].name));
                }
            }
            k += 1;
        }
        out
    }

    /// Counts a connection that begins to use or watch a tube, which is made if there
    /// is none.
    pub fn retain(&mut self, tube: &str)
        requires
            old(self).wf(),
        ensures
            final(self).wf(),
            final(self)@ == old(self)@.retain(tube@),
    {
        proof {
            lemma_retain(self@, tube@);
        }
        let k = self.tube_slot(tube);
        let t = &mut self.tubes[k];
        if t.refs < usize::MAX {
            t.refs = t.refs + 1;
        }
        proof {
            assert(self@.tubes =~= old(self)@.retain(tube@).tubes);
            assert(self@.jobs =~= old(self)@.retain(tube@).jobs);
        }
    }

    /// Counts a connection that ends to use or watch a tube.
    pub fn release_ref(&mut self, tube: &str)
        requires
            old(self).wf(),
        ensures
            final(self).wf(),
            final(self)@ == old(self)@.release_ref(tube@),
    {
        proof {
            lemma_release_ref(self@, tube@);
        }
        match self.find_tube(tube) {
            None => {},
            Some(k) => {
                proof {
                    lemma_tube_of(self@, tube@, k as int);
                }
                let t = &mut self.tubes[k];
                if t.refs > 0 {
                    t.refs = t.refs - 1;
                }
                proof {
                    assert(self@.tubes =~= old(self)@.release_ref(tube@).tubes);
                    assert(self@.jobs =~= old(self)@.release_ref(tube@).jobs);
                }
            },
        }
    }

    /// Gives a job that the connection holds back: as ready where `delay` is 0, else
    /// as delayed until `delay` seconds after `now`; with a new priority. Says whether
    /// the connection held the job.
    pub fn release(&mut self, id: u32, conn: u64, pri: u32, delay: u32, now: u64) -> (out: bool)
        requires
            old(self).wf(),
        ensures
            final(self).wf(),
            out == old(self)@.held_by(id, conn),
            final(self)@ == if out {
                old(self)@.release(id, pri, delay, now)
            } else {
                old(self)@
            },
    {
        if !self.holds(id, conn) {
            return false;
        }
        if delay == 0 {
            self.move_job(id, JobState::Ready, pri, 0, 0, false);
        } else {
            self.move_job(id, JobState::Delayed, pri, time_after(now, delay), 0, false);
        }
        true
    }

    /// Sets a job that the connection holds aside, with a new priority. Says whether
    /// the connection held the job.
    pub fn bury(&mut self, id: u32, conn: u64, pri: u32) -> (out: bool)
        requires
            old(self).wf(),
        ensures
            final(self).wf(),
            out == old(self)@.held_by(id, conn),
            final(self)@ == if out {
                old(self)@.bury(id, pri)
            } else {
                old(self)@
            },
    {
        if !self.holds(id, conn) {
            return false;
        }
        self.move_job(id, JobState::Buried, pri, 0, 0, false);
        true
    }

    /// Extends the time of a job that the connection holds by the job's time to run.
    /// Says whether the connection held the job.
    pub fn touch(&mut self, id: u32, conn: u64) -> (out: bool)
        requires
            old(self).wf(),
        ensures
            final(self).wf(),
            out == old(self)@.held_by(id, conn),
            final(self)@ == if out {
                old(self)@.touch(id)
            } else {
                old(self)@
            },
    {
        if !self.holds(id, conn) {
            return false;
        }
        let e = self.entry(id);
        let pri = e.job.pri;
        let warned = e.warned;
        let deadline = time_after(e.deadline, e.job.ttr);
        proof {
            assert(self@.job_ok(id));
            lemma_amend(self@, id, self@.touch(id).jobs[id]);
        }
        self.replace(id, JobState::Reserved, pri, deadline, conn, warned);
        proof {
            assert(self@.jobs =~= old(self)@.touch(id).jobs);
        }
        true
    }

    /// Whether the connection holds the job.
    pub fn holds(&self, id: u32, conn: u64) -> (out: bool)
        ensures
            out == self@.held_by(id, conn),
    {
        if !self.jobs.contains_key(&id) {
            assert(!self@.jobs.contains_key(id));
            return false;
        }
        assert(self@.jobs.contains_key(id));
        let e = self.entry(id);
        e.state == JobState::Reserved && e.reserver == conn
    }

    /// The number of jobs in a list of a tube.
    fn list_len(&self, k: usize, state: JobState) -> (n: usize)
        requires
            k < self@.tubes.len(),
        ensures
            n == self@.tubes[k as int].list(state).len(),
    {
        match state {
            JobState::Ready => self.tubes[k].ready.len(),
            JobState::Delayed => self.tubes[k].delay.len(),
            JobState::Buried => self.tubes[k].buried.len(),
            JobState::Reserved => 0,
        }
    }

    /// The job at a place of a list of a tube.
    fn list_at(&self, k: usize, state: JobState, i: usize) -> (id: u32)
        requires
            k < self@.tubes.len(),
            i < self@.tubes[k as int].list(state).len(),
        ensures
            id == self@.tubes[k as int].list(state)[i as int],
    {
        match state {
            JobState::Ready => self.tubes[k].ready[i],
            JobState::Delayed => self.tubes[k].delay[i],
            JobState::Buried => self.tubes[k].buried[i],
            JobState::Reserved => vstd::pervasive::unreached(),
        }
    }

    /// Makes up to `bound` buried jobs of a tube ready, the first buried first; where
    /// none is buried, up to `bound` delayed jobs, the first delayed first. Gives the
    /// number of jobs that it made ready.
    pub fn kick(&mut self, tube: &str, bound: u32) -> (count: u32)
        requires
            old(self).wf(),
        ensures
            final(self).wf(),
            final(self)@ == old(self)@.kick(tube@, bound),
            count == old(self)@.kick_count(tube@, bound),
    {
        let k = match self.find_tube(tube) {
            Some(k) => k,
            None => {
                return 0;
            },
        };
        proof {
            lemma_tube_of(self@, tube@, k as int);
        }
        let state = if self.tubes[k].buried.len() > 0 {
            JobState::Buried
        } else {
            JobState::Delayed
        };
        let ghost start = self@;
        let ghost total = self@.tubes[k as int].list(state).len();
        let mut count: u32 = 0;
        while count < bound && self.list_len(k, state) > 0
            invariant
                self.wf(),
                k < self@.tubes.len(),
                state != JobState::Ready,
                state != JobState::Reserved,
                count <= bound,
                self@.tubes[k as int].list(state).len() + count == total,
                start.kick_list(k as int, state, bound as nat) == self@.kick_list(
                    k as int,
                    state,
                    (bound - count) as nat,
                ),
            decreases bound - count,
        {
            let id = self.list_at(k, state, 0);
            let ghost prev = self@;
            proof {
                assert(prev.tube_ok(k as int));
                assert(prev.holds(prev.tubes[k as int].list(state)[0], k as int, state));
                lemma_index_of(prev.tubes[k as int].list(state), 0);
            }
            let pri = self.entry(id).job.pri;
            self.move_job(id, JobState::Ready, pri, 0, 0, false);
            proof {
                assert(self@ == prev.readied(id, pri));
                assert(self@.tubes[k as int].list(state) == prev.tubes[k as int].list(
                    state,
                ).remove(0));
            }
            count += 1;
        }
        count
    }

    /// Makes a buried or delayed job ready, and says whether there was such a job.
    pub fn kick_job(&mut self, id: u32) -> (out: bool)
        requires
            old(self).wf(),
        ensures
            final(self).wf(),
            out == (old(self)@.jobs.contains_key(id) && (old(self)@.jobs[id].state
                == JobState::Buried || old(self)@.jobs[id].state == JobState::Delayed)),
            final(self)@ == if out {
                old(self)@.readied(id, old(self)@.jobs[id].pri)
            } else {
                old(self)@
            },
    {
        if !self.jobs.contains_key(&id) {
            assert(!self@.jobs.contains_key(id));
            return false;
        }
        assert(self@.jobs.contains_key(id));
        let e = self.entry(id);
        let pri = e.job.pri;
        if e.state == JobState::Buried || e.state == JobState::Delayed {
            self.move_job(id, JobState::Ready, pri, 0, 0, false);
            true
        } else {
            false
        }
    }

    /// The job of this id, if there is one.
    pub fn peek(&self, id: u32) -> (out: Option<Job>)
        requires
            self.wf(),
        ensures
            match out {
                Some(job) => self@.jobs.contains_key(id) && job.shows(id, self@.jobs[id]),
                None => !self@.jobs.contains_key(id),
            },
    {
        if self.jobs.contains_key(&id) {
            assert(self@.jobs.contains_key(id));
            Some(self.copy_of(id))
        } else {
            assert(!self@.jobs.contains_key(id));
            None
        }
    }

    /// The state of the job of this id, if there is one.
    pub fn state_of(&self, id: u32) -> (out: Option<JobState>)
        ensures
            match out {
                Some(state) => self@.jobs.contains_key(id) && self@.jobs[id].state == state,
                None => !self@.jobs.contains_key(id),
            },
    {
        if self.jobs.contains_key(&id) {
            assert(self@.jobs.contains_key(id));
            Some(self.entry(id).state)
        } else {
            assert(!self@.jobs.contains_key(id));
            None
        }
    }

    /// The first job of a list of a tube, if the tube exists and the list holds one.
    fn peek_first(&self, tube: &str, state: JobState) -> (out: Option<Job>)
        requires
            self.wf(),
            state != JobState::Reserved,
        ensures
            match out {
                Some(job) => self@.has_tube(tube@) && self@.tubes[self@.tube_of(tube@)].list(
                    state,
                ).len() > 0 && job.shows(
                    self@.tubes[self@.tube_of(tube@)].list(state)[0],
                    self@.jobs[self@.tubes[self@.tube_of(tube@)].list(state)[0]],
                ),
                None => !self@.has_tube(tube@) || self@.tubes[self@.tube_of(tube@)].list(
                    state,
                ).len() == 0,
            },
    {
        match self.find_tube(tube) {
            None => None,
            Some(k) => {
                proof {
                    lemma_tube_of(self@, tube@, k as int);
                }
                if self.list_len(k, state) == 0 {
                    return None;
                }
                let id = self.list_at(k, state, 0);
                proof {
                    assert(self@.tube_ok(k as int));
                    assert(self@.holds(self@.tubes[k as int].list(state)[0], k as int, state));
                }
                Some(self.copy_of(id))
            },
        }
    }

    /// The ready job of a tube that is reserved next, if the tube has one.
    pub fn peek_ready(&self, tube: &str) -> (out: Option<Job>)
        requires
            self.wf(),
        ensures
            match out {
                Some(job) => self@.has_tube(tube@) && self@.tubes[self@.tube_of(tube@)].ready.len()
                    > 0 && job.shows(
                    self@.tubes[self@.tube_of(tube@)].ready[0],
                    self@.jobs[self@.tubes[self@.tube_of(tube@)].ready[0]],
                ),
                None => !self@.has_tube(tube@) || self@.tubes[self@.tube_of(tube@)].ready.len()
                    == 0,
            },
    {
        self.peek_first(tube, JobState::Ready)
    }

    /// The buried job of a tube that was buried first, if the tube has one.
    pub fn peek_buried(&self, tube: &str) -> (out: Option<Job>)
        requires
            self.wf(),
        ensures
            match out {
                Some(job) => self@.has_tube(tube@) && self@.tubes[self@.tube_of(
                    tube@,
                )].buried.len() > 0 && job.shows(
                    self@.tubes[self@.tube_of(tube@)].buried[0],
                    self@.jobs[self@.tubes[self@.tube_of(tube@)].buried[0]],
                ),
                None => !self@.has_tube(tube@) || self@.tubes[self@.tube_of(tube@)].buried.len()
                    == 0,
            },
    {
        self.peek_first(tube, JobState::Buried)
    }

    /// The delayed job of a tube whose delay is over first, if the tube has one; of
    /// several, the one that was delayed first.
    pub fn peek_delayed(&self, tube: &str) -> (out: Option<Job>)
        requires
            self.wf(),
        ensures
            match out {
                Some(job) => {
                    let l = self@.tubes[self@.tube_of(tube@)].delayed;
                    let id = l[self@.soonest(l, l.len() as int)];
                    self@.has_tube(tube@) && l.len() > 0 && job.shows(id, self@.jobs[id])
                },
                None => !self@.has_tube(tube@) || self@.tubes[self@.tube_of(
                    tube@,
                )].delayed.len() == 0,
            },
    {
        match self.find_tube(tube) {
            None => None,
            Some(k) => {
                proof {
                    lemma_tube_of(self@, tube@, k as int);
                    assert(self@.tube_ok(k as int));
                }
                let list = &self.tubes[k].delay;
                if list.len() == 0 {
                    return None;
                }
                let ghost l = self@.tubes[k as int].delayed;
                let mut best: usize = 0;
                let mut n: usize = 1;
                while n < list.len()
                    invariant
                        1 <= n <= l.len(),
                        l == list@,
                        l == self@.tubes[k as int].delayed,
                        self@.tube_ok(k as int),
                        best == self@.soonest(l, n as int),
                        0 <= best < n,
                    decreases l.len() - n,
                {
                    assert(self@.holds(l[n as int], k as int, JobState::Delayed));
                    assert(self@.holds(l[best as int], k as int, JobState::Delayed));
                    if self.entry(list[n]).deadline < self.entry(list[best]).deadline {
                        best = n;
                    }
                    n += 1;
                }
                assert(self@.holds(l[best as int], k as int, JobState::Delayed));
                Some(self.copy_of(list[best]))
            },
        }
    }

    /// Holds back reservations from a tube until `delay` seconds after `now`, and says
    /// whether there is such a tube.
    pub fn pause_tube(&mut self, tube: &str, delay: u32, now: u64) -> (out: bool)
        requires
            old(self).wf(),
        ensures
            final(self).wf(),
            out == old(self)@.has_live_tube(tube@),
            final(self)@ == if out {
                old(self)@.pause(old(self)@.tube_of(tube@), later(now, delay))
            } else {
                old(self)@
            },
    {
        match self.find_live_tube(tube) {
            None => false,
            Some(k) => {
                proof {
                    lemma_pause(self@, k as int, later(now, delay));
                }
                let until = time_after(now, delay);
                let t = &mut self.tubes[k];
                t.paused_until = until;
                proof {
                    assert(self@.tubes =~= old(self)@.pause(k as int, until).tubes);
                    assert(self@.jobs =~= old(self)@.jobs);
                }
                true
            },
        }
    }

    /// The place of the first job of a list that is due.
    fn find_due(&self, list: &Vec<u32>, now: u64, near: bool) -> (out: Option<usize>)
        requires
            forall|i: int| 0 <= i < list@.len() ==> self.jobs@.contains_key(#[trigger] list@[i]),
        ensures
            match out {
                Some(i) => self@.first_due(list@, now, near, list@.len() as int) == Some(
                    i as int,
                ) && i < list@.len(),
                None => self@.first_due(list@, now, near, list@.len() as int) is None,
            },
    {
        let horizon = time_after(now, 1);
        let mut n: usize = 0;
        while n < list.len()
            invariant
                0 <= n <= list@.len(),
                horizon == later(now, 1),
                forall|i: int| 0 <= i < list@.len() ==> self.jobs@.contains_key(
                    #[trigger] list@[i]),
                self@.first_due(list@, now, near, n as int) is None,
            decreases list@.len() - n,
        {
            let e = self.entry(list[n]);
            let due = if near {
                !e.warned && e.deadline <= horizon
            } else {
                e.deadline <= now
            };
            assert(due == self@.is_due(list@[n as int], now, near));
            if due {
                proof {
                    lemma_first_due_stays(self@, list@, now, near, n as int, list@.len() as int);
                }
                return Some(n);
            }
            n += 1;
        }
        None
    }

    /// Does what is due first at `now`, and says what it was.
    pub fn tick(&mut self, now: u64) -> (out: Option<TimerEvent>)
        requires
            old(self).wf(),
        ensures
            final(self).wf(),
            out == old(self)@.timer(now),
            final(self)@ == old(self)@.fire(out),
    {
        let mut k: usize = 0;
        while k < self.tubes.len()
            invariant
                0 <= k <= self@.tubes.len(),
                self.tubes@.len() == self@.tubes.len(),
                self.wf(),
                self@ == old(self)@,
                self@.due_delayed(now, k as int) is None,
            decreases self@.tubes.len() - k,
        {
            proof {
                assert(self@.tube_ok(k as int));
                assert forall|i: int| 0 <= i < self.tubes@[k as int].delay@.len()
                    implies self.jobs@.contains_key(
                    #[trigger] self.tubes@[k as int].delay@[i],
                ) by {
                    assert(self@.holds(self@.tubes[k as int].delayed[i], k as int,
                        JobState::Delayed));
                }
            }
            match self.find_due(&self.tubes[k].delay, now, false) {
                Some(i) => {
                    let id = self.tubes[k].delay[i];
                    proof {
                        assert(self@.holds(self@.tubes[k as int].delayed[i as int], k as int,
                            JobState::Delayed));
                        lemma_due_delayed_stays(self@, now, k as int + 1, self@.tubes.len() as int);
                    }
                    let pri = self.entry(id).job.pri;
                    self.move_job(id, JobState::Ready, pri, 0, 0, false);
                    return Some(TimerEvent::Ready { id });
                },
                None => {},
            }
            k += 1;
        }
        proof {
            assert forall|i: int| 0 <= i < self.reserved@.len() implies self.jobs@.contains_key(
                #[trigger] self.reserved@[i],
            ) by {
                assert(self@.jobs.contains_key(self@.reserved[i]));
            }
        }
        match self.find_due(&self.reserved, now, false) {
            Some(i) => {
                let id = self.reserved[i];
                assert(self@.jobs.contains_key(self@.reserved[i as int]));
                let e = self.entry(id);
                let pri = e.job.pri;
                let conn = e.reserver;
                self.move_job(id, JobState::Ready, pri, 0, 0, false);
                return Some(TimerEvent::Expired { id, conn });
            },
            None => {},
        }
        match self.find_due(&self.reserved, now, true) {
            Some(i) => {
                let id = self.reserved[i];
                assert(self@.jobs.contains_key(self@.reserved[i as int]));
                let e = self.entry(id);
                let pri = e.job.pri;
                let conn = e.reserver;
                let deadline = e.deadline;
                proof {
                    assert(self@.job_ok(id));
                    lemma_amend(self@, id, JobInfo { warned: true, ..self@.jobs[id] });
                }
                self.replace(id, JobState::Reserved, pri, deadline, conn, true);
                proof {
                    assert(self@.jobs =~= old(self)@.fire(
                        Some(TimerEvent::DeadlineSoon { id, conn }),
                    ).jobs);
                }
                Some(TimerEvent::DeadlineSoon { id, conn })
            },
            None => None,
        }
    }

    /// Makes every job that a connection holds ready again, each with the priority it
    /// has, in the order in which they were reserved.
    pub fn release_all(&mut self, conn: u64)
        requires
            old(self).wf(),
        ensures
            final(self).wf(),
            final(self)@ == old(self)@.disconnect(conn),
            forall|id: u32| !final(self)@.held_by(id, conn),
    {
        let mut ids: Vec<u32> = Vec::new();
        let mut n: usize = 0;
        while n < self.reserved.len()
            invariant
                0 <= n <= self.reserved@.len(),
                ids@ == self.reserved@.take(n as int),
                self@ == old(self)@,
                self.wf(),
            decreases self.reserved@.len() - n,
        {
            ids.push(self.reserved[n]);
            proof {
                assert(ids@ =~= self.reserved@.take(n + 1));
            }
            n += 1;
        }
        proof {
            assert(ids@ =~= self@.reserved);
            assert forall|id: u32| self@.held_by(id, conn) implies ids@.contains(id) by {
                assert(self@.job_ok(id) && self@.listed(id));
            }
        }
        let mut i: usize = 0;
        while i < ids.len()
            invariant
                0 <= i <= ids@.len(),
                self.wf(),
                old(self)@.release_each(ids@, conn)
                    == self@.release_each(ids@.skip(i as int), conn),
                forall|id: u32|
                    self@.held_by(id, conn) ==> exists|a: int|
                        i <= a < ids@.len() && ids@[a] == id,
            decreases ids@.len() - i,
        {
            let id = ids[i];
            let ghost prev = self@;
            proof {
                assert(ids@.skip(i as int).skip(1) =~= ids@.skip(i + 1));
                assert(ids@.skip(i as int)[0] == id);
            }
            if self.holds(id, conn) {
                let pri = self.entry(id).job.pri;
                proof {
                    assert(prev.job_ok(id));
                    lemma_moved(prev, id, prev.jobs[id].readied(pri));
                }
                self.move_job(id, JobState::Ready, pri, 0, 0, false);
            }
            proof {
                assert forall|x: u32| self@.held_by(x, conn) implies exists|a: int|
                    i + 1 <= a < ids@.len() && ids@[a] == x by {
                    assert(prev.held_by(x, conn));
                    let a = choose|a: int| i <= a < ids@.len() && ids@[a] == x;
                    assert(a != i);
                }
            }
            i += 1;
        }
        proof {
            assert(ids@.skip(ids@.len() as int) =~= Seq::<u32>::empty());
        }
    }

    /// Turns new jobs away, or lets them in again.
    pub fn set_draining(&mut self, on: bool)
        requires
            old(self).wf(),
        ensures
            final(self).wf(),
            final(self)@ == (Store { draining: on, ..old(self)@ }),
    {
        self.draining = on;
        proof {
            assert(self@.tubes =~= old(self)@.tubes);
            assert(self@.jobs =~= old(self)@.jobs);
            let u = self@;
            let s = old(self)@;
            assert forall|k: int| 0 <= k < u.tubes.len() implies #[trigger] u.tube_ok(k) by {
                assert(s.tube_ok(k));
            }
            assert forall|x: u32| #[trigger] u.jobs.contains_key(x) implies u.job_ok(x)
                && u.listed(x) by {
                assert(s.job_ok(x) && s.listed(x));
            }
        }
    }

    /// Whether new jobs are turned away.
    pub fn is_draining(&self) -> (out: bool)
        ensures
            out == self@.draining,
    {
        self.draining
    }

    /// The name of the tube of a job, if there is such a job.
    pub fn tube_of(&self, id: u32) -> (out: Option<String>)
        requires
            self.wf(),
        ensures
            match out {
                Some(name) => self@.jobs.contains_key(id) && name@
                    == self@.tubes[self@.jobs[id].tube].name,
                None => !self@.jobs.contains_key(id),
            },
    {
        if self.jobs.contains_key(&id) {
            assert(self@.jobs.contains_key(id));
            assert(self@.job_ok(id));
            Some(self.tubes[self.entry(id).tube].name.clone())
        } else {
            assert(!self@.jobs.contains_key(id));
            None
        }
    }

    /// The numbers of ready, delayed and buried jobs of a tube, if there is such a
    /// tube.
    pub fn tube_counts(&self, tube: &str) -> (out: Option<(usize, usize, usize)>)
        requires
            self.wf(),
        ensures
            match out {
                Some((ready, delayed, buried)) => {
                    let t = self@.tubes[self@.tube_of(tube@)];
                    self@.has_live_tube(tube@) && ready == t.ready.len() && delayed
                        == t.delayed.len() && buried == t.buried.len()
                },
                None => !self@.has_live_tube(tube@),
            },
    {
        match self.find_live_tube(tube) {
            None => None,
            Some(k) => {
                let t = &self.tubes[k];
                Some((t.ready.len(), t.delay.len(), t.buried.len()))
            },
        }
    }

    /// The ready jobs of a tube, the next to be reserved first; none where there is no
    /// such tube.
    pub fn ready_ids(&self, tube: &str) -> (out: Vec<u32>)
        requires
            self.wf(),
        ensures
            out@ == if self@.has_tube(tube@) {
                self@.tubes[self@.tube_of(tube@)].ready
            } else {
                Seq::empty()
            },
    {
        let mut out: Vec<u32> = Vec::new();
        match self.find_tube(tube) {
            None => {},
            Some(k) => {
                proof {
                    lemma_tube_of(self@, tube@, k as int);
                }
                let ready = &self.tubes[k].ready;
                let mut i: usize = 0;
                while i < ready.len()
                    invariant
                        0 <= i <= ready@.len(),
                        out@ == ready@.take(i as int),
                    decreases ready@.len() - i,
                {
                    out.push(ready[i]);
                    proof {
                        assert(out@ =~= ready@.take(i + 1));
                    }
                    i += 1;
                }
                proof {
                    assert(ready@.take(i as int) =~= ready@);
                }
            },
        }
        out
    }

    /// The priority of the ready job of a tube that is reserved next, if the tube has
    /// one.
    pub fn smallest_pri(&self, tube: &str) -> (out: Option<u32>)
        requires
            self.wf(),
        ensures
            match out {
                Some(pri) => self@.has_tube(tube@) && self@.tubes[self@.tube_of(tube@)].ready.len()
                    > 0 && pri == self@.head_pri(self@.tube_of(tube@)),
                None => !self@.has_tube(tube@) || self@.tubes[self@.tube_of(tube@)].ready.len()
                    == 0,
            },
    {
        match self.peek_first(tube, JobState::Ready) {
            Some(job) => Some(job.pri),
            None => None,
        }
    }

    /// The number of jobs that were ever put, and of connections that wait.
    pub fn counts(&self) -> (out: (u64, usize))
        requires
            self.wf(),
        ensures
            out.0 == self@.next_id - 1,
            out.1 == self@.waiters.len(),
    {
        (self.next_id - 1, self.waiters.len())
    }

    /// What is kept of a job.
    fn entry(&self, id: u32) -> (e: &Entry)
        requires
            self.jobs@.contains_key(id),
        ensures
            *e == self.jobs@[id],
    {
        match self.jobs.get(&id) {
            Some(e) => e,
            None => vstd::pervasive::unreached(),
        }
    }

    /// Takes a job out of the list that holds it.
    fn unlist(&mut self, id: u32)
        requires
            old(self).wf(),
            old(self).jobs@.contains_key(id),
        ensures
            final(self)@ == old(self)@.unlist(id),
            final(self).jobs == old(self).jobs,
            final(self).next_id == old(self).next_id,
    {
        let e = self.entry(id);
        let k = e.tube;
        let state = e.state;
        proof {
            assert(self@.jobs.contains_key(id));
            assert(self@.job_ok(id) && self@.listed(id));
            assert(self@.tube_ok(k as int));
        }
        match state {
            JobState::Reserved => {
                match position(&self.reserved, id) {
                    Some(i) => {
                        proof {
                            lemma_index_of(self.reserved@, i as int);
                        }
                        self.reserved.remove(i);
                    },
                    None => {},
                }
            },
            JobState::Ready => {
                let t = &mut self.tubes[k];
                match position_deque(&t.ready, id) {
                    Some(i) => {
                        proof {
                            lemma_index_of(t.ready@, i as int);
                        }
                        t.ready.remove(i);
                    },
                    None => {},
                }
            },
            JobState::Delayed => {
                let t = &mut self.tubes[k];
                match position(&t.delay, id) {
                    Some(i) => {
                        proof {
                            lemma_index_of(t.delay@, i as int);
                        }
                        t.delay.remove(i);
                    },
                    None => {},
                }
            },
            JobState::Buried => {
                let t = &mut self.tubes[k];
                match position(&t.buried, id) {
                    Some(i) => {
                        proof {
                            lemma_index_of(t.buried@, i as int);
                        }
                        t.buried.remove(i);
                    },
                    None => {},
                }
            },
        }
        proof {
            assert(self@.tubes =~= old(self)@.unlist(id).tubes);
            assert(self@.jobs =~= old(self)@.unlist(id).jobs);
        }
    }

    /// Where a job of this priority enters the ready list of a tube.
    fn band_end(&self, k: usize, pri: u32) -> (p: usize)
        requires
            k < self.tubes@.len(),
            self@.tube_ok(k as int),
        ensures
            p == self@.band_end(self@.tubes[k as int].ready, pri),
            p <= self.tubes@[k as int].ready@.len(),
    {
        let ready = &self.tubes[k].ready;
        let ghost l = ready@;
        let mut lo: usize = 0;
        let mut hi: usize = ready.len();
        while lo < hi
            invariant
                0 <= lo <= hi <= l.len(),
                l == ready@,
                l == self@.tubes[k as int].ready,
                self@.tube_ok(k as int),
                forall|i: int| 0 <= i < lo ==> self@.jobs[#[trigger] l[i]].pri <= pri,
                forall|i: int| hi <= i < l.len() ==> self@.jobs[#[trigger] l[i]].pri > pri,
            decreases hi - lo,
        {
            let mid = lo + (hi - lo) / 2;
            let id = ready[mid];
            assert(self@.holds(l[mid as int], k as int, JobState::Ready));
            let e = self.entry(id);
            if e.job.pri <= pri {
                assert forall|i: int| 0 <= i < mid + 1 implies self@.jobs[#[trigger] l[i]].pri
                    <= pri by {
                    if i < mid {
                        assert(self@.jobs[l[i]].pri <= self@.jobs[l[mid as int]].pri);
                    }
                }
                lo = mid + 1;
            } else {
                assert forall|i: int| mid <= i < l.len() implies self@.jobs[#[trigger] l[i]].pri
                    > pri by {
                    if i > mid {
                        assert(self@.jobs[l[mid as int]].pri <= self@.jobs[l[i]].pri);
                    }
                }
                hi = mid;
            }
        }
        proof {
            lemma_band_end_is(self@, l, pri, lo as int);
        }
        lo
    }

    /// Puts a job that is in no list into the list that its state and tube name.
    fn enlist(&mut self, id: u32)
        requires
            old(self).repr(),
            old(self)@.inv_but(Some(id)),
        ensures
            final(self)@ == old(self)@.enlist(id),
            final(self).jobs == old(self).jobs,
            final(self).next_id == old(self).next_id,
    {
        assert(self@.jobs.contains_key(id));
        assert(self@.job_ok(id));
        let e = self.entry(id);
        let k = e.tube;
        let state = e.state;
        let pri = e.job.pri;
        assert(self@.tube_ok(k as int));
        match state {
            JobState::Reserved => {
                self.reserved.push(id);
            },
            JobState::Ready => {
                let p = self.band_end(k, pri);
                let t = &mut self.tubes[k];
                t.ready.insert(p, id);
            },
            JobState::Delayed => {
                let t = &mut self.tubes[k];
                t.delay.push(id);
            },
            JobState::Buried => {
                let t = &mut self.tubes[k];
                t.buried.push(id);
            },
        }
        proof {
            assert(self@.tubes =~= old(self)@.enlist(id).tubes);
            assert(self@.jobs =~= old(self)@.enlist(id).jobs);
        }
    }

    /// Writes down another place for a job, without moving it.
    fn replace(
        &mut self,
        id: u32,
        state: JobState,
        pri: u32,
        deadline: u64,
        reserver: u64,
        warned: bool,
    )
        requires
            old(self).repr(),
            old(self).jobs@.contains_key(id),
        ensures
            final(self).repr(),
            final(self)@ == old(self)@.with_job(
                id,
                old(self)@.jobs[id].placed(state, pri, deadline, reserver, warned),
            ),
            final(self).next_id == old(self).next_id,
    {
        match self.jobs.remove(&id) {
            Some(e) => {
                let job = Job { id: e.job.id, ttr: e.job.ttr, pri, data: e.job.data };
                let e2 = Entry { job, tube: e.tube, state, deadline, reserver, warned };
                self.jobs.insert(id, e2);
            },
            None => {},
        }
        proof {
            assert(self@.tubes =~= old(self)@.tubes);
            assert(self@.jobs =~= old(self)@.jobs.insert(
                id,
                old(self)@.jobs[id].placed(state, pri, deadline, reserver, warned),
            ));
        }
    }

    /// Moves a job from where it is to where the arguments say.
    fn move_job(
        &mut self,
        id: u32,
        state: JobState,
        pri: u32,
        deadline: u64,
        reserver: u64,
        warned: bool,
    )
        requires
            old(self).wf(),
            old(self)@.jobs.contains_key(id),
        ensures
            final(self).wf(),
            final(self)@ == old(self)@.moved(
                id,
                old(self)@.jobs[id].placed(state, pri, deadline, reserver, warned),
            ),
    {
        let ghost info = self@.jobs[id].placed(state, pri, deadline, reserver, warned);
        proof {
            assert(self@.job_ok(id));
            crate::store::lemma_unlist(self@, id);
            crate::store::lemma_with_job(self@.unlist(id), id, info);
            lemma_moved(self@, id, info);
        }
        self.unlist(id);
        self.replace(id, state, pri, deadline, reserver, warned);
        self.enlist(id);
    }

    /// Takes a job in under the next id.
    fn add_job(
        &mut self,
        tube: usize,
        ttr: u32,
        pri: u32,
        data: Bytes,
        state: JobState,
        deadline: u64,
    ) -> (id: u32)
        requires
            old(self).wf(),
            old(self)@.next_id <= u32::MAX,
            tube < old(self)@.tubes.len(),
            ttr >= 1,
        ensures
            final(self).wf(),
            id == old(self)@.next_id,
            final(self)@ == old(self)@.added(
                JobInfo {
                    tube: tube as int,
                    pri,
                    ttr,
                    body: bytes_seq(data),
                    state,
                    deadline,
                    reserver: 0,
                    warned: false,
                },
            ),
    {
        let ghost info = JobInfo {
            tube: tube as int,
            pri,
            ttr,
            body: bytes_seq(data),
            state,
            deadline,
            reserver: 0,
            warned: false,
        };
        let id = self.next_id as u32;
        proof {
            crate::store::lemma_fresh(self@, info);
            lemma_added(self@, info);
        }
        let e = Entry { job: Job { id, ttr, pri, data }, tube, state, deadline, reserver: 0,
            warned: false };
        self.jobs.insert(id, e);
        self.next_id = self.next_id + 1;
        proof {
            let mid = (Store { next_id: old(self)@.next_id + 1, ..old(self)@ }).with_job(id, info);
            assert(self@.tubes =~= mid.tubes);
            assert(self@.jobs =~= mid.jobs);
            assert(self@ == mid);
        }
        self.enlist(id);
        id
    }

    /// Takes a job out of the store and hands it back.
    fn drop_job(&mut self, id: u32) -> (job: Job)
        requires
            old(self).wf(),
            old(self)@.jobs.contains_key(id),
        ensures
            final(self).wf(),
            final(self)@ == old(self)@.removed(id),
            job.id == id,
            job.pri == old(self)@.jobs[id].pri,
            job.ttr == old(self)@.jobs[id].ttr,
            bytes_seq(job.data) == old(self)@.jobs[id].body,
    {
        proof {
            lemma_removed(self@, id);
        }
        self.unlist(id);
        let gone = self.jobs.remove(&id);
        proof {
            assert(self@.tubes =~= old(self)@.removed(id).tubes);
            assert(self@.jobs =~= old(self)@.removed(id).jobs);
        }
        match gone {
            Some(e) => e.job,
            None => vstd::pervasive::unreached(),
        }
    }
}

/// The place of `id` in the list, if it is there.
fn position(l: &Vec<u32>, id: u32) -> (out: Option<usize>)
    ensures
        match out {
            Some(i) => i < l@.len() && l@[i as int] == id,
            None => !l@.contains(id),
        },
{
    let mut i: usize = 0;
    while i < l.len()
        invariant
            0 <= i <= l@.len(),
            forall|a: int| 0 <= a < i ==> l@[a] != id,
        decreases l@.len() - i,
    {
        if l[i] == id {
            return Some(i);
        }
        i += 1;
    }
    None
}

/// The place of `id` in the list, if it is there.
fn position_deque(l: &VecDeque<u32>, id: u32) -> (out: Option<usize>)
    ensures
        match out {
            Some(i) => i < l@.len() && l@[i as int] == id,
            None => !l@.contains(id),
        },
{
    let mut i: usize = 0;
    while i < l.len()
        invariant
            0 <= i <= l@.len(),
            forall|a: int| 0 <= a < i ==> l@[a] != id,
        decreases l@.len() - i,
    {
        if l[i] == id {
            return Some(i);
        }
        i += 1;
    }
    None
}

/// A job that is due among the first `n` of a list is due among the first `m`.
proof fn lemma_first_due_stays(s: Store, l: Seq<u32>, now: u64, near: bool, n: int, m: int)
    requires
        0 <= n < m,
        s.first_due(l, now, near, n) is None,
        s.is_due(l[n], now, near),
    ensures
        s.first_due(l, now, near, m) == Some(n),
    decreases m - n,
{
    if n + 1 < m {
        lemma_first_due_stays(s, l, now, near, n, m - 1);
    }
}

/// A delayed job that is due among the first `n` tubes is due among the first `m`.
proof fn lemma_due_delayed_stays(s: Store, now: u64, n: int, m: int)
    requires
        0 <= n <= m,
        s.due_delayed(now, n) is Some,
    ensures
        s.due_delayed(now, m) == s.due_delayed(now, n),
    decreases m - n,
{
    if n < m {
        lemma_due_delayed_stays(s, now, n, m - 1);
    }
}

/// A waiting connection that can be served among the first `n` is the one among the
/// first `m`.
proof fn lemma_first_served_stays(s: Store, now: u64, n: int, m: int)
    requires
        0 <= n < m,
        s.first_served(now, n) is None,
        s.next(s.waiters[n].watch, now) is Some,
    ensures
        s.first_served(now, m) == Some(n),
    decreases m - n,
{
    if n + 1 < m {
        lemma_first_served_stays(s, now, n, m - 1);
    }
}

/// A waiting connection whose time is over among the first `n` is the one among the
/// first `m`.
proof fn lemma_first_timed_out_stays(s: Store, now: u64, n: int, m: int)
    requires
        0 <= n < m,
        s.first_timed_out(now, n) is None,
        s.waiters[n].deadline matches Some(d) && d <= now,
    ensures
        s.first_timed_out(now, m) == Some(n),
    decreases m - n,
{
    if n + 1 < m {
        lemma_first_timed_out_stays(s, now, n, m - 1);
    }
}

} // verus!
