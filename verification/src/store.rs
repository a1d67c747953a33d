//! The job store as plain values: what it holds, what must hold of it, and the moves
//! that every operation is made of.

use vstd::prelude::*;
use crate::text::{lemma_name_order, name_le};

verus! {

/// Where a job is in its life.
#[derive(Clone, Copy, Debug, PartialEq, Eq, Structural)]
pub enum JobState {
    /// Waiting for its delay to run out.
    Delayed,
    /// Waiting to be reserved.
    Ready,
    /// Handed to a connection.
    Reserved,
    /// Set aside until it is kicked.
    Buried,
}

/// What the passing of time does to a job.
#[derive(Clone, Copy, Debug, PartialEq, Eq, Structural)]
pub enum TimerEvent {
    /// The delay of a job is over: it is ready.
    Ready { id: u32 },
    /// The time to run of a reserved job is over: it is ready again, and the
    /// connection no longer holds it.
    Expired { id: u32, conn: u64 },
    /// The time to run of a reserved job is over within a second: the connection that
    /// holds it is to be told.
    DeadlineSoon { id: u32, conn: u64 },
}

/// What the store knows of one job.
pub struct JobInfo {
    /// The place of the job's tube among the tubes.
    pub tube: int,
    pub pri: u32,
    pub ttr: u32,
    pub body: Seq<u8>,
    pub state: JobState,
    /// When a delayed job becomes ready, or when a reserved job's time runs out.
    pub deadline: u64,
    /// The connection that holds a reserved job.
    pub reserver: u64,
    /// Whether the holder was told that the time is about to run out.
    pub warned: bool,
}

/// What the store knows of one tube.
pub struct TubeInfo {
    pub name: Seq<char>,
    /// The ready jobs, the next to be reserved first.
    pub ready: Seq<u32>,
    /// The delayed jobs, in the order in which they were delayed.
    pub delayed: Seq<u32>,
    /// The buried jobs, in the order in which they were buried.
    pub buried: Seq<u32>,
    /// Until when nothing is reserved from the tube.
    pub paused_until: u64,
    /// How often a connection uses or watches the tube.
    pub refs: usize,
}

/// A connection that waits for a job.
pub struct WaiterInfo {
    pub conn: u64,
    /// The names of the tubes that it watched when it began to wait.
    pub watch: Seq<Seq<char>>,
    /// When it stops waiting; never, where there is none.
    pub deadline: Option<u64>,
}

/// The state of the store.
pub struct Store {
    /// The tubes, in the order in which they were made.
    pub tubes: Seq<TubeInfo>,
    pub jobs: Map<u32, JobInfo>,
    /// The reserved jobs, in the order in which they were reserved.
    pub reserved: Seq<u32>,
    /// The connections that wait for a job, the one that waits longest first.
    pub waiters: Seq<WaiterInfo>,
    /// The id that the next job gets.
    pub next_id: nat,
    /// Whether new jobs are turned away.
    pub draining: bool,
}

/// A second on the clock of the engine, which counts milliseconds.
pub const SECOND: u64 = 1000;

/// The time `secs` seconds after `now`; the last moment where that is beyond it.
pub open spec fn later(now: u64, secs: u32) -> u64 {
    if now + secs * SECOND > u64::MAX {
        u64::MAX
    } else {
        (now + secs * SECOND) as u64
    }
}

impl JobInfo {
    /// The job in another place: its tube, its body and its time to run stay.
    pub open spec fn placed(
        self,
        state: JobState,
        pri: u32,
        deadline: u64,
        reserver: u64,
        warned: bool,
    ) -> JobInfo {
        JobInfo { state, pri, deadline, reserver, warned, ..self }
    }

    /// The job as a ready one of this priority.
    pub open spec fn readied(self, pri: u32) -> JobInfo {
        self.placed(JobState::Ready, pri, 0, 0, false)
    }
}

/// The list without `id`.
pub open spec fn without(l: Seq<u32>, id: u32) -> Seq<u32> {
    if l.contains(id) {
        l.remove(l.index_of(id))
    } else {
        l
    }
}

/// In a list without repeats, an item's place is where it is found.
pub proof fn lemma_index_of(l: Seq<u32>, i: int)
    requires
        l.no_duplicates(),
        0 <= i < l.len(),
    ensures
        l.contains(l[i]),
        l.index_of(l[i]) == i,
        without(l, l[i]) == l.remove(i),
{
}

/// Taking an item out of a list without repeats leaves the others, in order.
pub proof fn lemma_remove(l: Seq<u32>, i: int)
    requires
        l.no_duplicates(),
        0 <= i < l.len(),
    ensures
        l.remove(i).no_duplicates(),
        !l.remove(i).contains(l[i]),
        forall|x: u32| x != l[i] ==> (l.contains(x) <==> #[trigger] l.remove(i).contains(x)),
        forall|x: u32| l.remove(i).contains(x) ==> l.contains(x),
{
    let r = l.remove(i);
    assert forall|x: u32| x != l[i] && l.contains(x) implies r.contains(x) by {
        let a = choose|a: int| 0 <= a < l.len() && l[a] == x;
        if a < i {
            assert(r[a] == x);
        } else {
            assert(r[a - 1] == x);
        }
    }
    assert forall|x: u32| r.contains(x) implies l.contains(x) && x != l[i] by {
        let a = choose|a: int| 0 <= a < r.len() && r[a] == x;
        if a < i {
            assert(l[a] == x);
        } else {
            assert(l[a + 1] == x);
        }
    }
}

/// Putting a new item into a list without repeats adds it and keeps the others, in order.
pub proof fn lemma_insert(l: Seq<u32>, i: int, id: u32)
    requires
        l.no_duplicates(),
        !l.contains(id),
        0 <= i <= l.len(),
    ensures
        l.insert(i, id).no_duplicates(),
        l.insert(i, id).len() == l.len() + 1,
        l.insert(i, id)[i] == id,
        forall|x: u32| #[trigger] l.insert(i, id).contains(x) <==> (x == id || l.contains(x)),
        forall|a: int| 0 <= a < i ==> #[trigger] l.insert(i, id)[a] == l[a],
        forall|a: int| i < a <= l.len() ==> #[trigger] l.insert(i, id)[a] == l[a - 1],
{
    let r = l.insert(i, id);
    assert forall|x: u32| r.contains(x) implies (x == id || l.contains(x)) by {
        let a = choose|a: int| 0 <= a < r.len() && r[a] == x;
        if a < i {
            assert(l[a] == x);
        } else if a > i {
            assert(l[a - 1] == x);
        }
    }
    assert forall|x: u32| (x == id || l.contains(x)) implies r.contains(x) by {
        if x == id {
            assert(r[i] == x);
        } else {
            let a = choose|a: int| 0 <= a < l.len() && l[a] == x;
            if a < i {
                assert(r[a] == x);
            } else {
                assert(r[a + 1] == x);
            }
        }
    }
    assert forall|a: int, b: int| 0 <= a < r.len() && 0 <= b < r.len() && a != b implies r[a]
        != r[b] by {
        let la = if a < i { a } else { a - 1 };
        let lb = if b < i { b } else { b - 1 };
        if a != i && b != i {
            assert(r[a] == l[la] && r[b] == l[lb]);
        } else if a == i {
            assert(r[b] == l[lb]);
            assert(l.contains(l[lb]));
        } else {
            assert(r[a] == l[la]);
            assert(l.contains(l[la]));
        }
    }
}

impl TubeInfo {
    /// The list of the tube that holds the jobs in a state; reserved jobs are in none.
    pub open spec fn list(self, state: JobState) -> Seq<u32> {
        match state {
            JobState::Ready => self.ready,
            JobState::Delayed => self.delayed,
            JobState::Buried => self.buried,
            JobState::Reserved => Seq::empty(),
        }
    }

    /// The tube with one of its lists replaced.
    pub open spec fn with_list(self, state: JobState, l: Seq<u32>) -> TubeInfo {
        match state {
            JobState::Ready => TubeInfo { ready: l, ..self },
            JobState::Delayed => TubeInfo { delayed: l, ..self },
            JobState::Buried => TubeInfo { buried: l, ..self },
            JobState::Reserved => self,
        }
    }

    /// Whether one of the tube's lists holds the job.
    pub open spec fn lists(self, id: u32) -> bool {
        self.ready.contains(id) || self.delayed.contains(id) || self.buried.contains(id)
    }

    /// A tube without jobs.
    pub open spec fn empty(name: Seq<char>) -> TubeInfo {
        TubeInfo {
            name,
            ready: Seq::empty(),
            delayed: Seq::empty(),
            buried: Seq::empty(),
            paused_until: 0,
            refs: 0,
        }
    }
}

impl Store {
    /// Whether the job exists, in this tube and in this state.
    pub open spec fn holds(self, id: u32, k: int, state: JobState) -> bool {
        self.jobs.contains_key(id) && self.jobs[id].tube == k && self.jobs[id].state == state
    }

    /// A list of a tube holds nothing twice, and only jobs of that tube in that state.
    pub open spec fn list_ok(self, l: Seq<u32>, k: int, state: JobState) -> bool {
        l.no_duplicates()
            && forall|i: int| 0 <= i < l.len() ==> self.holds(#[trigger] l[i], k, state)
    }

    /// The list is ordered by priority: no job stands before one of a smaller number.
    pub open spec fn sorted(self, l: Seq<u32>) -> bool {
        forall|i: int, j: int|
            #![trigger l[i], l[j]]
            0 <= i < j < l.len() ==> self.jobs[l[i]].pri <= self.jobs[l[j]].pri
    }

    /// What must hold of the lists of the tube at `k`.
    pub open spec fn tube_ok(self, k: int) -> bool {
        let t = self.tubes[k];
        &&& self.list_ok(t.ready, k, JobState::Ready)
        &&& self.list_ok(t.delayed, k, JobState::Delayed)
        &&& self.list_ok(t.buried, k, JobState::Buried)
        &&& self.sorted(t.ready)
    }

    /// The reserved list holds nothing twice, and only reserved jobs.
    pub open spec fn reserved_ok(self) -> bool {
        self.reserved.no_duplicates() && forall|i: int|
            0 <= i < self.reserved.len() ==> self.jobs.contains_key(#[trigger] self.reserved[i])
                && self.jobs[self.reserved[i]].state == JobState::Reserved
    }

    /// Whether the job stands in the list that its state and tube name.
    pub open spec fn listed(self, id: u32) -> bool {
        let j = self.jobs[id];
        match j.state {
            JobState::Reserved => self.reserved.contains(id),
            state => self.tubes[j.tube].list(state).contains(id),
        }
    }

    /// The job's tube exists, its id was handed out, and it has time to run.
    pub open spec fn job_ok(self, id: u32) -> bool {
        let j = self.jobs[id];
        0 <= j.tube < self.tubes.len() && 1 <= id < self.next_id && j.ttr >= 1
    }

    /// Whether no list holds the job.
    pub open spec fn absent(self, id: u32) -> bool {
        !self.reserved.contains(id) && forall|k: int|
            0 <= k < self.tubes.len() ==> !(#[trigger] self.tubes[k]).lists(id)
    }

    /// What holds of the store while the job `skip`, if any, is taken out of its list to
    /// be put into another.
    pub open spec fn inv_but(self, skip: Option<u32>) -> bool {
        &&& self.tubes.len() >= 1
        &&& self.tubes[0].name == "default"@
        &&& forall|a: int, b: int|
            0 <= a < self.tubes.len() && 0 <= b < self.tubes.len() && a != b ==> (
            #[trigger] self.tubes[a]).name != (#[trigger] self.tubes[b]).name
        &&& forall|k: int| 0 <= k < self.tubes.len() ==> #[trigger] self.tube_ok(k)
        &&& self.reserved_ok()
        &&& forall|id: u32| #[trigger]
            self.jobs.contains_key(id) ==> self.job_ok(id) && (skip == Some(id) || self.listed(
                id,
            ))
        &&& skip matches Some(id) ==> self.jobs.contains_key(id) && self.absent(id)
        &&& self.next_id >= 1
    }

    /// What holds of the store between operations: every job stands in exactly the list
    /// that its state and tube name, no list holds a job twice, and the ready lists are
    /// ordered by priority.
    pub open spec fn inv(self) -> bool {
        self.inv_but(None)
    }

    /// Whether a tube has this name.
    pub open spec fn has_tube(self, name: Seq<char>) -> bool {
        exists|k: int| 0 <= k < self.tubes.len() && (#[trigger] self.tubes[k]).name == name
    }

    /// The place of the tube with this name.
    pub open spec fn tube_of(self, name: Seq<char>) -> int {
        choose|k: int| 0 <= k < self.tubes.len() && (#[trigger] self.tubes[k]).name == name
    }

    /// The store with the job taken out of the list that holds it.
    pub open spec fn unlist(self, id: u32) -> Store {
        let j = self.jobs[id];
        if j.state == JobState::Reserved {
            Store { reserved: without(self.reserved, id), ..self }
        } else {
            let t = self.tubes[j.tube];
            Store {
                tubes: self.tubes.update(
                    j.tube,
                    t.with_list(j.state, without(t.list(j.state), id)),
                ),
                ..self
            }
        }
    }

    /// Where a job of this priority enters a ready list: behind the last job whose
    /// number is not greater.
    pub open spec fn band_end(self, l: Seq<u32>, pri: u32) -> int
        decreases l.len(),
    {
        if l.len() == 0 {
            0
        } else if self.jobs[l.last()].pri <= pri {
            l.len() as int
        } else {
            self.band_end(l.drop_last(), pri)
        }
    }

    /// The store with the job put into the list that its state and tube name: a ready
    /// job at the end of its priority band, any other at the end of the list.
    pub open spec fn enlist(self, id: u32) -> Store {
        let j = self.jobs[id];
        let t = self.tubes[j.tube];
        match j.state {
            JobState::Reserved => Store { reserved: self.reserved.push(id), ..self },
            JobState::Ready => Store {
                tubes: self.tubes.update(
                    j.tube,
                    TubeInfo { ready: t.ready.insert(self.band_end(t.ready, j.pri), id), ..t },
                ),
                ..self
            },
            JobState::Delayed => Store {
                tubes: self.tubes.update(j.tube, TubeInfo { delayed: t.delayed.push(id), ..t }),
                ..self
            },
            JobState::Buried => Store {
                tubes: self.tubes.update(j.tube, TubeInfo { buried: t.buried.push(id), ..t }),
                ..self
            },
        }
    }

    /// The store with this written down for the job.
    pub open spec fn with_job(self, id: u32, info: JobInfo) -> Store {
        Store { jobs: self.jobs.insert(id, info), ..self }
    }

    /// The store after a job went from where it was to where `info` says.
    pub open spec fn moved(self, id: u32, info: JobInfo) -> Store {
        self.unlist(id).with_job(id, info).enlist(id)
    }

    /// The store after a new job came in, under the next id.
    pub open spec fn added(self, info: JobInfo) -> Store {
        Store { next_id: self.next_id + 1, ..self }.with_job(self.next_id as u32, info).enlist(
            self.next_id as u32,
        )
    }

    /// The store after a job left it.
    pub open spec fn removed(self, id: u32) -> Store {
        let s = self.unlist(id);
        Store { jobs: s.jobs.remove(id), ..s }
    }

    /// The store with a tube of this name, made at the end if there was none.
    pub open spec fn with_tube(self, name: Seq<char>) -> Store {
        if self.has_tube(name) {
            self
        } else {
            Store { tubes: self.tubes.push(TubeInfo::empty(name)), ..self }
        }
    }
}

impl Store {
    /// The store at the start: the tube `default`, no job, and 1 as the next id.
    pub open spec fn fresh() -> Store {
        Store {
            tubes: seq![TubeInfo::empty("default"@)],
            jobs: Map::empty(),
            reserved: Seq::empty(),
            waiters: Seq::empty(),
            next_id: 1,
            draining: false,
        }
    }

    /// The store after a job was put into a tube, which is made if there was none. A
    /// time to run of 0 counts as 1.
    pub open spec fn put(
        self,
        tube: Seq<char>,
        pri: u32,
        ttr: u32,
        body: Seq<u8>,
        state: JobState,
        deadline: u64,
    ) -> Store {
        let s = self.with_tube(tube);
        s.added(
            JobInfo {
                tube: s.tube_of(tube),
                pri,
                ttr: if ttr == 0 {
                    1
                } else {
                    ttr
                },
                body,
                state,
                deadline,
                reserver: 0,
                warned: false,
            },
        )
    }

    /// Whether the store holds the job in the tube of this name, and not as ready.
    pub open spec fn can_queue(self, tube: Seq<char>, id: u32) -> bool {
        self.jobs.contains_key(id) && self.tubes[self.jobs[id].tube].name == tube
            && self.jobs[id].state != JobState::Ready
    }

    /// The store after a job was made ready, at the end of its priority band.
    pub open spec fn readied(self, id: u32, pri: u32) -> Store {
        self.moved(id, self.jobs[id].readied(pri))
    }

    /// Whether a job may be reserved from the tube at `k`: the tube is watched, not
    /// paused, and has a ready job.
    pub open spec fn offers(self, watch: Seq<Seq<char>>, now: u64, k: int) -> bool {
        0 <= k < self.tubes.len() && watch.contains(self.tubes[k].name)
            && self.tubes[k].paused_until
            <= now && self.tubes[k].ready.len() > 0
    }

    /// The priority of the first ready job of the tube at `k`.
    pub open spec fn head_pri(self, k: int) -> u32 {
        self.jobs[self.tubes[k].ready[0]].pri
    }

    /// Whether the first ready job of the tube at `a` goes before that of the tube at
    /// `b`: it has the smaller number, or the same and the tube's name is not the later.
    pub open spec fn before(self, a: int, b: int) -> bool {
        self.head_pri(a) < self.head_pri(b) || (self.head_pri(a) == self.head_pri(b) && name_le(
            self.tubes[a].name,
            self.tubes[b].name,
        ))
    }

    /// The tube among the first `n` from which the next job is reserved.
    pub open spec fn pick(self, watch: Seq<Seq<char>>, now: u64, n: int) -> Option<int>
        decreases n,
    {
        if n <= 0 {
            None
        } else if !self.offers(watch, now, n - 1) {
            self.pick(watch, now, n - 1)
        } else {
            match self.pick(watch, now, n - 1) {
                Some(b) => if self.before(b, n - 1) {
                    Some(b)
                } else {
                    Some(n - 1)
                },
                None => Some(n - 1),
            }
        }
    }

    /// The job that is reserved next for this watch-list.
    pub open spec fn next(self, watch: Seq<Seq<char>>, now: u64) -> Option<u32> {
        match self.pick(watch, now, self.tubes.len() as int) {
            Some(k) => Some(self.tubes[k].ready[0]),
            None => None,
        }
    }

    /// The store after a connection reserved a job: the job's time runs out its time
    /// to run after `now`.
    pub open spec fn reserve(self, id: u32, conn: u64, now: u64) -> Store {
        let j = self.jobs[id];
        self.moved(id, j.placed(JobState::Reserved, j.pri, later(now, j.ttr), conn, false))
    }

    /// The store after a connection gave a job back: ready where `delay` is 0, else
    /// delayed until `delay` seconds after `now`.
    pub open spec fn release(self, id: u32, pri: u32, delay: u32, now: u64) -> Store {
        let j = self.jobs[id];
        if delay == 0 {
            self.moved(id, j.readied(pri))
        } else {
            self.moved(id, j.placed(JobState::Delayed, pri, later(now, delay), 0, false))
        }
    }

    /// The store after a connection set a job aside, at the end of the buried list.
    pub open spec fn bury(self, id: u32, pri: u32) -> Store {
        self.moved(id, self.jobs[id].placed(JobState::Buried, pri, 0, 0, false))
    }

    /// The store after a reserved job's time was extended by its time to run.
    pub open spec fn touch(self, id: u32) -> Store {
        let j = self.jobs[id];
        self.with_job(id, JobInfo { deadline: later(j.deadline, j.ttr), ..j })
    }

    /// The store after the first `n` jobs of a list of the tube at `k`, or all of them
    /// where there are fewer, were made ready, from the front.
    pub open spec fn kick_list(self, k: int, state: JobState, n: nat) -> Store
        decreases n,
    {
        let l = self.tubes[k].list(state);
        if n == 0 || l.len() == 0 {
            self
        } else {
            self.readied(l[0], self.jobs[l[0]].pri).kick_list(k, state, (n - 1) as nat)
        }
    }

    /// The list that a kick takes from: the buried jobs where there are any, else the
    /// delayed ones.
    pub open spec fn kick_from(self, k: int) -> JobState {
        if self.tubes[k].buried.len() > 0 {
            JobState::Buried
        } else {
            JobState::Delayed
        }
    }

    /// The store after a kick of at most `bound` jobs of the tube of this name.
    pub open spec fn kick(self, tube: Seq<char>, bound: u32) -> Store {
        if self.has_tube(tube) {
            let k = self.tube_of(tube);
            self.kick_list(k, self.kick_from(k), bound as nat)
        } else {
            self
        }
    }

    /// The number of jobs that a kick makes ready.
    pub open spec fn kick_count(self, tube: Seq<char>, bound: u32) -> nat {
        if self.has_tube(tube) {
            let k = self.tube_of(tube);
            let n = self.tubes[k].list(self.kick_from(k)).len();
            if n < bound {
                n
            } else {
                bound as nat
            }
        } else {
            0
        }
    }

    /// The place among the first `n` of a list of the job whose deadline is the
    /// earliest, the first of several.
    pub open spec fn soonest(self, l: Seq<u32>, n: int) -> int
        decreases n,
    {
        if n <= 1 {
            0
        } else {
            let b = self.soonest(l, n - 1);
            if self.jobs[l[n - 1]].deadline < self.jobs[l[b]].deadline {
                n - 1
            } else {
                b
            }
        }
    }

    /// The store with the tube at `k` paused until a time.
    pub open spec fn pause(self, k: int, until: u64) -> Store {
        Store {
            tubes: self.tubes.update(k, TubeInfo { paused_until: until, ..self.tubes[k] }),
            ..self
        }
    }

    /// Whether a job is due at `now`: its deadline has come, or, where it is asked
    /// whether the deadline is near, it comes within a second and nobody was told.
    pub open spec fn is_due(self, id: u32, now: u64, near: bool) -> bool {
        let j = self.jobs[id];
        if near {
            !j.warned && j.deadline <= later(now, 1)
        } else {
            j.deadline <= now
        }
    }

    /// The place of the first job among the first `n` of a list that is due.
    pub open spec fn first_due(self, l: Seq<u32>, now: u64, near: bool, n: int) -> Option<int>
        decreases n,
    {
        if n <= 0 {
            None
        } else {
            match self.first_due(l, now, near, n - 1) {
                Some(i) => Some(i),
                None => if self.is_due(l[n - 1], now, near) {
                    Some(n - 1)
                } else {
                    None
                },
            }
        }
    }

    /// The first delayed job of the first `m` tubes whose delay is over.
    pub open spec fn due_delayed(self, now: u64, m: int) -> Option<u32>
        decreases m,
    {
        if m <= 0 {
            None
        } else {
            match self.due_delayed(now, m - 1) {
                Some(id) => Some(id),
                None => {
                    let l = self.tubes[m - 1].delayed;
                    match self.first_due(l, now, false, l.len() as int) {
                        Some(i) => Some(l[i]),
                        None => None,
                    }
                },
            }
        }
    }

    /// What is due first at `now`: the first delayed job whose delay is over, by tube
    /// and place; else the reserved job, first reserved, whose time is over; else the
    /// reserved job, first reserved, whose time is over within a second and whose
    /// holder was not told.
    pub open spec fn timer(self, now: u64) -> Option<TimerEvent> {
        let r = self.reserved;
        match self.due_delayed(now, self.tubes.len() as int) {
            Some(id) => Some(TimerEvent::Ready { id }),
            None => match self.first_due(r, now, false, r.len() as int) {
                Some(i) => Some(TimerEvent::Expired { id: r[i], conn: self.jobs[r[i]].reserver }),
                None => match self.first_due(r, now, true, r.len() as int) {
                    Some(i) => Some(
                        TimerEvent::DeadlineSoon { id: r[i], conn: self.jobs[r[i]].reserver },
                    ),
                    None => None,
                },
            },
        }
    }

    /// The store after what was due was done: a job whose delay or time to run is over
    /// is ready, at the end of its priority band; of one whose time is nearly over it
    /// is written down that its holder was told.
    pub open spec fn fire(self, event: Option<TimerEvent>) -> Store {
        match event {
            None => self,
            Some(TimerEvent::Ready { id }) => self.readied(id, self.jobs[id].pri),
            Some(TimerEvent::Expired { id, conn }) => self.readied(id, self.jobs[id].pri),
            Some(TimerEvent::DeadlineSoon { id, conn }) => self.with_job(
                id,
                JobInfo { warned: true, ..self.jobs[id] },
            ),
        }
    }

    /// The store after the jobs of a list that the connection still holds were made
    /// ready again, one after the other, each with the priority it has.
    pub open spec fn release_each(self, ids: Seq<u32>, conn: u64) -> Store
        decreases ids.len(),
    {
        if ids.len() == 0 {
            self
        } else {
            let s = if self.held_by(ids[0], conn) {
                self.readied(ids[0], self.jobs[ids[0]].pri)
            } else {
                self
            };
            s.release_each(ids.skip(1), conn)
        }
    }

    /// The store after a connection went away: every job that it held is ready again,
    /// in the order in which they were reserved.
    pub open spec fn disconnect(self, conn: u64) -> Store {
        self.release_each(self.reserved, conn)
    }

    /// The store with one more connection that waits, behind the others.
    pub open spec fn park(self, conn: u64, watch: Seq<Seq<char>>, deadline: Option<u64>) -> Store {
        Store { waiters: self.waiters.push(WaiterInfo { conn, watch, deadline }), ..self }
    }

    /// The place of the first among the first `n` waiting connections for which a job
    /// can be reserved.
    pub open spec fn first_served(self, now: u64, n: int) -> Option<int>
        decreases n,
    {
        if n <= 0 {
            None
        } else {
            match self.first_served(now, n - 1) {
                Some(i) => Some(i),
                None => if self.next(self.waiters[n - 1].watch, now) is Some {
                    Some(n - 1)
                } else {
                    None
                },
            }
        }
    }

    /// The store after the waiting connection at `i` was handed the job that is next
    /// for it, and stopped waiting.
    pub open spec fn serve(self, i: int, now: u64) -> Store {
        let w = self.waiters[i];
        let s = self.reserve(self.next(w.watch, now)->0, w.conn, now);
        Store { waiters: self.waiters.remove(i), ..s }
    }

    /// The place of the first among the first `n` waiting connections whose waiting
    /// time is over.
    pub open spec fn first_timed_out(self, now: u64, n: int) -> Option<int>
        decreases n,
    {
        if n <= 0 {
            None
        } else {
            match self.first_timed_out(now, n - 1) {
                Some(i) => Some(i),
                None => match self.waiters[n - 1].deadline {
                    Some(d) => if d <= now {
                        Some(n - 1)
                    } else {
                        None
                    },
                    None => None,
                },
            }
        }
    }

    /// The store without the waiting connection at `i`.
    pub open spec fn unpark(self, i: int) -> Store {
        Store { waiters: self.waiters.remove(i), ..self }
    }

    /// The store without the waiting of a connection.
    pub open spec fn cancel(self, conn: u64) -> Store {
        Store { waiters: self.waiters.filter(|w: WaiterInfo| w.conn != conn), ..self }
    }

    /// The store with another count of the connections that use or watch the tube at
    /// `k`.
    pub open spec fn with_refs(self, k: int, refs: usize) -> Store {
        Store { tubes: self.tubes.update(k, TubeInfo { refs, ..self.tubes[k] }), ..self }
    }

    /// The store after a connection began to use or watch a tube, which is made if
    /// there was none.
    pub open spec fn retain(self, name: Seq<char>) -> Store {
        let s = self.with_tube(name);
        let k = s.tube_of(name);
        let n = s.tubes[k].refs;
        s.with_refs(
            k,
            if n < usize::MAX {
                (n + 1) as usize
            } else {
                n
            },
        )
    }

    /// The store after a connection ended to use or watch a tube.
    pub open spec fn release_ref(self, name: Seq<char>) -> Store {
        if self.has_tube(name) {
            let k = self.tube_of(name);
            let n = self.tubes[k].refs;
            self.with_refs(
                k,
                if n > 0 {
                    (n - 1) as usize
                } else {
                    n
                },
            )
        } else {
            self
        }
    }

    /// The store after a connection ended to use or watch each tube of a list.
    pub open spec fn release_refs(self, names: Seq<Seq<char>>) -> Store
        decreases names.len(),
    {
        if names.len() == 0 {
            self
        } else {
            self.release_ref(names[0]).release_refs(names.skip(1))
        }
    }

    /// Whether a reserved job is of the tube at `k`.
    pub open spec fn holds_reserved(self, k: int) -> bool {
        exists|i: int|
            0 <= i < self.reserved.len() && self.jobs[#[trigger] self.reserved[i]].tube == k
    }

    /// Whether the tube at `k` is there for the clients: it is `default`, or a
    /// connection uses or watches it, or it has a job.
    pub open spec fn alive(self, k: int) -> bool {
        let t = self.tubes[k];
        k == 0 || t.refs > 0 || t.ready.len() > 0 || t.delayed.len() > 0 || t.buried.len() > 0
            || self.holds_reserved(k)
    }

    /// Whether a tube of this name is there for the clients.
    pub open spec fn has_live_tube(self, name: Seq<char>) -> bool {
        self.has_tube(name) && self.alive(self.tube_of(name))
    }

    /// The names of those of the first `n` tubes that are there for the clients.
    pub open spec fn live_names(self, n: int) -> Seq<Seq<char>>
        decreases n,
    {
        if n <= 0 {
            Seq::empty()
        } else if self.alive(n - 1) {
            self.live_names(n - 1).push(self.tubes[n - 1].name)
        } else {
            self.live_names(n - 1)
        }
    }

    /// The names of the tubes that are there for the clients, in the order in which
    /// they were made.
    pub open spec fn names(self) -> Seq<Seq<char>> {
        self.live_names(self.tubes.len() as int)
    }

    /// Whether the connection holds the job.
    pub open spec fn held_by(self, id: u32, conn: u64) -> bool {
        self.jobs.contains_key(id) && self.jobs[id].state == JobState::Reserved
            && self.jobs[id].reserver == conn
    }
}

/// A tube's place is the one that has its name.
pub proof fn lemma_tube_of(s: Store, name: Seq<char>, k: int)
    requires
        s.inv(),
        0 <= k < s.tubes.len(),
        s.tubes[k].name == name,
    ensures
        s.has_tube(name),
        s.tube_of(name) == k,
{
    let c = s.tube_of(name);
    assert(s.tubes[c].name == name);
}

/// The tube that is picked offers a job, and its first job goes before that of every
/// other tube that offers one; no tube is picked only where none offers a job.
pub proof fn lemma_pick(s: Store, watch: Seq<Seq<char>>, now: u64, n: int)
    requires
        0 <= n <= s.tubes.len(),
    ensures
        match s.pick(watch, now, n) {
            Some(b) => 0 <= b < n && s.offers(watch, now, b) && forall|j: int|
                0 <= j < n && s.offers(watch, now, j) ==> s.before(b, j),
            None => forall|j: int| 0 <= j < n ==> !s.offers(watch, now, j),
        },
    decreases n,
{
    if n > 0 {
        lemma_pick(s, watch, now, n - 1);
        let k = n - 1;
        if s.offers(watch, now, k) {
            lemma_name_order(s.tubes[k].name, s.tubes[k].name, s.tubes[k].name);
            match s.pick(watch, now, n - 1) {
                Some(b) => {
                    lemma_name_order(s.tubes[b].name, s.tubes[k].name, s.tubes[k].name);
                    if !s.before(b, k) {
                        assert(s.before(k, b));
                        assert forall|j: int| 0 <= j < n
                            && s.offers(watch, now, j) implies s.before(
                            k,
                            j,
                        ) by {
                            if j < k {
                                assert(s.before(b, j));
                                lemma_name_order(
                                    s.tubes[k].name,
                                    s.tubes[b].name,
                                    s.tubes[j].name,
                                );
                            }
                        }
                    }
                },
                None => {},
            }
        }
    }
}

/// A list that was in order stays in order where its jobs are known as before.
proof fn lemma_list_frame(s: Store, s2: Store, l: Seq<u32>, k: int, state: JobState)
    requires
        s.list_ok(l, k, state),
        forall|x: u32| l.contains(x) ==> s2.jobs.contains_key(x) && s2.jobs[x] == s.jobs[x],
    ensures
        s2.list_ok(l, k, state),
        s.sorted(l) ==> s2.sorted(l),
{
    assert forall|i: int| 0 <= i < l.len() implies s2.holds(#[trigger] l[i], k, state) by {
        assert(l.contains(l[i]));
        assert(s.holds(l[i], k, state));
    }
    if s.sorted(l) {
        assert forall|i: int, j: int| 0 <= i < j < l.len() implies s2.jobs[l[i]].pri
            <= s2.jobs[l[j]].pri by {
            assert(l.contains(l[i]));
            assert(l.contains(l[j]));
        }
    }
}

/// A tube that was in order stays in order where it and its jobs are as before.
proof fn lemma_tube_frame(s: Store, s2: Store, k: int)
    requires
        0 <= k < s.tubes.len(),
        s.tube_ok(k),
        s2.tubes.len() > k,
        s2.tubes[k] == s.tubes[k],
        forall|x: u32| s.tubes[k].lists(x) ==> s2.jobs.contains_key(x) && s2.jobs[x] == s.jobs[x],
    ensures
        s2.tube_ok(k),
{
    let t = s.tubes[k];
    lemma_list_frame(s, s2, t.ready, k, JobState::Ready);
    lemma_list_frame(s, s2, t.delayed, k, JobState::Delayed);
    lemma_list_frame(s, s2, t.buried, k, JobState::Buried);
}

/// A listed job is one that the store holds, in the list's tube and state.
proof fn lemma_listed_holds(s: Store, k: int, id: u32)
    requires
        0 <= k < s.tubes.len(),
        s.tube_ok(k),
        s.tubes[k].lists(id),
    ensures
        s.jobs.contains_key(id),
        s.jobs[id].tube == k,
        s.jobs[id].state != JobState::Reserved,
        s.tubes[k].list(s.jobs[id].state).contains(id),
{
    let t = s.tubes[k];
    if t.ready.contains(id) {
        let i = choose|i: int| 0 <= i < t.ready.len() && t.ready[i] == id;
        assert(s.holds(t.ready[i], k, JobState::Ready));
    } else if t.delayed.contains(id) {
        let i = choose|i: int| 0 <= i < t.delayed.len() && t.delayed[i] == id;
        assert(s.holds(t.delayed[i], k, JobState::Delayed));
    } else {
        let i = choose|i: int| 0 <= i < t.buried.len() && t.buried[i] == id;
        assert(s.holds(t.buried[i], k, JobState::Buried));
    }
}

/// A job in the reserved list is one that the store holds as reserved.
proof fn lemma_reserved_holds(s: Store, id: u32)
    requires
        s.reserved_ok(),
        s.reserved.contains(id),
    ensures
        s.jobs.contains_key(id),
        s.jobs[id].state == JobState::Reserved,
{
    let i = choose|i: int| 0 <= i < s.reserved.len() && s.reserved[i] == id;
    assert(s.jobs.contains_key(s.reserved[i]));
}

/// Taking a job out of its list leaves a store that is in order but for that job.
pub proof fn lemma_unlist(s: Store, id: u32)
    requires
        s.inv(),
        s.jobs.contains_key(id),
    ensures
        s.unlist(id).inv_but(Some(id)),
        s.unlist(id).jobs == s.jobs,
        s.unlist(id).tubes.len() == s.tubes.len(),
        s.unlist(id).next_id == s.next_id,
{
    let j = s.jobs[id];
    let u = s.unlist(id);
    assert(s.job_ok(id) && s.listed(id));
    if j.state == JobState::Reserved {
        let i = s.reserved.index_of(id);
        lemma_index_of(s.reserved, i);
        lemma_remove(s.reserved, i);
        assert(u.reserved == s.reserved.remove(i));
        assert forall|k: int| 0 <= k < u.tubes.len() implies #[trigger] u.tube_ok(k) by {
            assert(s.tube_ok(k));
            lemma_tube_frame(s, u, k);
        }
        assert(u.reserved_ok()) by {
            assert forall|a: int| 0 <= a < u.reserved.len() implies u.jobs.contains_key(
                #[trigger] u.reserved[a],
            ) && u.jobs[u.reserved[a]].state == JobState::Reserved by {
                assert(u.reserved.contains(u.reserved[a]));
                assert(s.reserved.contains(u.reserved[a]));
                lemma_reserved_holds(s, u.reserved[a]);
            }
        }
        assert forall|x: u32| #[trigger] u.jobs.contains_key(x) implies u.job_ok(x) && (x == id
            || u.listed(x)) by {
            assert(s.job_ok(x) && s.listed(x));
        }
        assert forall|k: int| 0 <= k < u.tubes.len() implies !(#[trigger] u.tubes[k]).lists(
            id,
        ) by {
            assert(s.tube_ok(k));
            if s.tubes[k].lists(id) {
                lemma_listed_holds(s, k, id);
            }
        }
    } else {
        let k0 = j.tube;
        let t = s.tubes[k0];
        let l = t.list(j.state);
        let i = l.index_of(id);
        assert(s.tube_ok(k0));
        assert(l.no_duplicates());
        lemma_index_of(l, i);
        lemma_remove(l, i);
        let l2 = l.remove(i);
        assert(u.tubes[k0] == t.with_list(j.state, l2));
        assert forall|k: int| 0 <= k < u.tubes.len() implies #[trigger] u.tube_ok(k) by {
            assert(s.tube_ok(k));
            if k != k0 {
                lemma_tube_frame(s, u, k);
            } else {
                assert(u.list_ok(l2, k0, j.state)) by {
                    assert forall|a: int| 0 <= a < l2.len() implies u.holds(
                        #[trigger] l2[a],
                        k0,
                        j.state,
                    ) by {
                        let b = if a < i { a } else { a + 1 };
                        assert(l2[a] == l[b]);
                        assert(s.holds(l[b], k0, j.state));
                    }
                }
                if j.state == JobState::Ready {
                    assert forall|a: int, b: int| 0 <= a < b < l2.len() implies u.jobs[l2[a]].pri
                        <= u.jobs[l2[b]].pri by {
                        let a1 = if a < i { a } else { a + 1 };
                        let b1 = if b < i { b } else { b + 1 };
                        assert(l2[a] == l[a1] && l2[b] == l[b1]);
                    }
                }
            }
        }
        assert(u.reserved_ok());
        assert forall|a: int, b: int|
            0 <= a < u.tubes.len() && 0 <= b < u.tubes.len() && a != b implies (
        #[trigger] u.tubes[a]).name != (#[trigger] u.tubes[b]).name by {
            assert(u.tubes[a].name == s.tubes[a].name);
            assert(u.tubes[b].name == s.tubes[b].name);
        }
        assert forall|x: u32| #[trigger] u.jobs.contains_key(x) implies u.job_ok(x) && (x == id
            || u.listed(x)) by {
            assert(s.job_ok(x) && s.listed(x));
            let jx = s.jobs[x];
            if x != id && jx.state != JobState::Reserved {
                if jx.tube == k0 && jx.state == j.state {
                    assert(l2.contains(x));
                } else if jx.tube == k0 {
                    assert(u.tubes[k0].list(jx.state) == t.list(jx.state));
                }
            }
        }
        assert forall|k: int| 0 <= k < u.tubes.len() implies !(#[trigger] u.tubes[k]).lists(
            id,
        ) by {
            assert(s.tube_ok(k));
            if k != k0 {
                if s.tubes[k].lists(id) {
                    lemma_listed_holds(s, k, id);
                }
            } else {
                if u.tubes[k].lists(id) {
                    lemma_listed_holds(u, k, id);
                }
            }
        }
        assert(!u.reserved.contains(id)) by {
            if s.reserved.contains(id) {
                lemma_reserved_holds(s, id);
            }
        }
    }
}

/// Writing down something else for a job that is in no list keeps the store in order
/// but for that job.
pub proof fn lemma_with_job(s: Store, id: u32, info: JobInfo)
    requires
        s.inv_but(Some(id)),
        0 <= info.tube < s.tubes.len(),
        info.ttr >= 1,
    ensures
        s.with_job(id, info).inv_but(Some(id)),
{
    let u = s.with_job(id, info);
    assert forall|k: int| 0 <= k < u.tubes.len() implies #[trigger] u.tube_ok(k) by {
        assert(s.tube_ok(k));
        assert(!s.tubes[k].lists(id));
        lemma_tube_frame(s, u, k);
    }
    assert(u.reserved_ok()) by {
        assert forall|a: int| 0 <= a < u.reserved.len() implies u.jobs.contains_key(
            #[trigger] u.reserved[a],
        ) && u.jobs[u.reserved[a]].state == JobState::Reserved by {
            assert(s.reserved.contains(s.reserved[a]));
            assert(s.jobs.contains_key(s.reserved[a]));
        }
    }
    assert forall|x: u32| #[trigger] u.jobs.contains_key(x) implies u.job_ok(x) && (x == id
        || u.listed(x)) by {
        assert(s.jobs.contains_key(id));
        if x != id {
            assert(s.jobs.contains_key(x));
            assert(s.job_ok(x) && s.listed(x));
        } else {
            assert(s.job_ok(id));
        }
    }
    assert forall|k: int| 0 <= k < u.tubes.len() implies !(#[trigger] u.tubes[k]).lists(id) by {
        assert(!s.tubes[k].lists(id));
    }
}

/// A ready list in order has its band end where the greater numbers start.
pub proof fn lemma_band_end(s: Store, l: Seq<u32>, pri: u32)
    requires
        s.sorted(l),
    ensures
        0 <= s.band_end(l, pri) <= l.len(),
        forall|i: int| 0 <= i < s.band_end(l, pri) ==> s.jobs[#[trigger] l[i]].pri <= pri,
        forall|i: int| s.band_end(l, pri) <= i < l.len() ==> s.jobs[#[trigger] l[i]].pri > pri,
    decreases l.len(),
{
    if l.len() > 0 && s.jobs[l.last()].pri > pri {
        let d = l.drop_last();
        assert forall|i: int, j: int| 0 <= i < j < d.len() implies s.jobs[d[i]].pri
            <= s.jobs[d[j]].pri by {
            assert(d[i] == l[i] && d[j] == l[j]);
        }
        lemma_band_end(s, d, pri);
        assert forall|i: int| 0 <= i < s.band_end(l, pri) implies s.jobs[#[trigger] l[i]].pri
            <= pri by {
            assert(l[i] == d[i]);
        }
        assert forall|i: int| s.band_end(l, pri) <= i < l.len() implies s.jobs[
            #[trigger] l[i]
        ].pri > pri by {
            if i < d.len() {
                assert(l[i] == d[i]);
            }
        }
    } else if l.len() > 0 {
        assert forall|i: int| 0 <= i < l.len() implies s.jobs[#[trigger] l[i]].pri <= pri by {
            if i < l.len() - 1 {
                assert(s.jobs[l[i]].pri <= s.jobs[l[l.len() - 1]].pri);
            }
        }
    }
}

/// The place that splits a ready list in order into the numbers not greater and the
/// greater ones is its band end.
pub proof fn lemma_band_end_is(s: Store, l: Seq<u32>, pri: u32, p: int)
    requires
        0 <= p <= l.len(),
        forall|i: int| 0 <= i < p ==> s.jobs[#[trigger] l[i]].pri <= pri,
        forall|i: int| p <= i < l.len() ==> s.jobs[#[trigger] l[i]].pri > pri,
    ensures
        s.band_end(l, pri) == p,
    decreases l.len(),
{
    if l.len() > 0 {
        if s.jobs[l.last()].pri <= pri {
            assert(l.last() == l[l.len() - 1]);
        } else {
            let d = l.drop_last();
            assert(l.last() == l[l.len() - 1]);
            assert(p < l.len());
            assert forall|i: int| 0 <= i < p implies s.jobs[#[trigger] d[i]].pri <= pri by {
                assert(d[i] == l[i]);
            }
            assert forall|i: int| p <= i < d.len() implies s.jobs[#[trigger] d[i]].pri > pri by {
                assert(d[i] == l[i]);
            }
            lemma_band_end_is(s, d, pri, p);
        }
    }
}

/// Putting a job that is in no list into the list that its state and tube name puts
/// the store in order.
pub proof fn lemma_enlist(s: Store, id: u32)
    requires
        s.inv_but(Some(id)),
    ensures
        s.enlist(id).inv(),
        s.enlist(id).jobs == s.jobs,
        s.enlist(id).tubes.len() == s.tubes.len(),
        s.enlist(id).next_id == s.next_id,
{
    let j = s.jobs[id];
    let u = s.enlist(id);
    assert(s.job_ok(id));
    let k0 = j.tube;
    let t = s.tubes[k0];
    assert(!t.lists(id));
    if j.state == JobState::Reserved {
        let l = s.reserved;
        lemma_insert(l, l.len() as int, id);
        assert(l.insert(l.len() as int, id) =~= l.push(id));
        assert forall|k: int| 0 <= k < u.tubes.len() implies #[trigger] u.tube_ok(k) by {
            assert(s.tube_ok(k));
            lemma_tube_frame(s, u, k);
        }
        assert forall|a: int| 0 <= a < u.reserved.len() implies u.jobs.contains_key(
            #[trigger] u.reserved[a],
        ) && u.jobs[u.reserved[a]].state == JobState::Reserved by {
            if a < l.len() {
                assert(u.reserved[a] == s.reserved[a]);
            }
        }
        assert forall|x: u32| #[trigger] u.jobs.contains_key(x) implies u.job_ok(x) && u.listed(
            x,
        ) by {
            assert(s.job_ok(x));
            if x != id {
                assert(s.listed(x));
            }
        }
    } else {
        assert(s.tube_ok(k0));
        let l = t.list(j.state);
        let p = if j.state == JobState::Ready {
            lemma_band_end(s, l, j.pri);
            s.band_end(l, j.pri)
        } else {
            l.len() as int
        };
        lemma_insert(l, p, id);
        let l2 = l.insert(p, id);
        if j.state != JobState::Ready {
            assert(l2 =~= l.push(id));
        }
        assert(u.tubes[k0] == t.with_list(j.state, l2));
        assert forall|k: int| 0 <= k < u.tubes.len() implies #[trigger] u.tube_ok(k) by {
            assert(s.tube_ok(k));
            if k != k0 {
                lemma_tube_frame(s, u, k);
            } else {
                assert(u.list_ok(l2, k0, j.state)) by {
                    assert forall|a: int| 0 <= a < l2.len() implies u.holds(
                        #[trigger] l2[a],
                        k0,
                        j.state,
                    ) by {
                        if a < p {
                            assert(l2[a] == l[a]);
                            assert(s.holds(l[a], k0, j.state));
                        } else if a > p {
                            assert(l2[a] == l[a - 1]);
                            assert(s.holds(l[a - 1], k0, j.state));
                        }
                    }
                }
                if j.state == JobState::Ready {
                    assert forall|a: int, b: int| 0 <= a < b < l2.len() implies u.jobs[l2[a]].pri
                        <= u.jobs[l2[b]].pri by {
                        let a1 = if a < p { a } else { a - 1 };
                        let b1 = if b < p { b } else { b - 1 };
                        if a != p {
                            assert(l2[a] == l[a1]);
                        }
                        if b != p {
                            assert(l2[b] == l[b1]);
                        }
                    }
                }
            }
        }
        assert forall|a: int, b: int|
            0 <= a < u.tubes.len() && 0 <= b < u.tubes.len() && a != b implies (
        #[trigger] u.tubes[a]).name != (#[trigger] u.tubes[b]).name by {
            assert(u.tubes[a].name == s.tubes[a].name);
            assert(u.tubes[b].name == s.tubes[b].name);
        }
        assert forall|x: u32| #[trigger] u.jobs.contains_key(x) implies u.job_ok(x) && u.listed(
            x,
        ) by {
            assert(s.job_ok(x));
            if x != id {
                assert(s.listed(x));
                let jx = s.jobs[x];
                if jx.state != JobState::Reserved {
                    if jx.tube == k0 && jx.state == j.state {
                        assert(l2.contains(x));
                    } else if jx.tube == k0 {
                        assert(u.tubes[k0].list(jx.state) == t.list(jx.state));
                    }
                }
            } else {
                assert(l2.contains(id));
            }
        }
    }
}

/// Forgetting a job that is in no list puts the store in order.
pub proof fn lemma_forget(s: Store, id: u32)
    requires
        s.inv_but(Some(id)),
    ensures
        (Store { jobs: s.jobs.remove(id), ..s }).inv(),
{
    let u = Store { jobs: s.jobs.remove(id), ..s };
    assert forall|k: int| 0 <= k < u.tubes.len() implies #[trigger] u.tube_ok(k) by {
        assert(s.tube_ok(k));
        assert(!s.tubes[k].lists(id));
        lemma_tube_frame(s, u, k);
    }
    assert forall|a: int| 0 <= a < u.reserved.len() implies u.jobs.contains_key(
        #[trigger] u.reserved[a],
    ) && u.jobs[u.reserved[a]].state == JobState::Reserved by {
        assert(s.reserved.contains(s.reserved[a]));
        assert(s.jobs.contains_key(s.reserved[a]));
    }
    assert forall|x: u32| #[trigger] u.jobs.contains_key(x) implies u.job_ok(x) && u.listed(
        x,
    ) by {
        assert(s.jobs.contains_key(x));
        assert(s.job_ok(x) && s.listed(x));
    }
}

/// Writing down a job under the next id leaves a store that is in order but for that
/// job.
pub proof fn lemma_fresh(s: Store, info: JobInfo)
    requires
        s.inv(),
        s.next_id <= u32::MAX,
        0 <= info.tube < s.tubes.len(),
        info.ttr >= 1,
    ensures
        (Store { next_id: s.next_id + 1, ..s }).with_job(s.next_id as u32, info).inv_but(
            Some(s.next_id as u32),
        ),
{
    let id = s.next_id as u32;
    let u = (Store { next_id: s.next_id + 1, ..s }).with_job(id, info);
    assert(!s.jobs.contains_key(id)) by {
        if s.jobs.contains_key(id) {
            assert(s.job_ok(id));
        }
    }
    assert forall|k: int| 0 <= k < u.tubes.len() implies !(#[trigger] u.tubes[k]).lists(id) by {
        assert(s.tube_ok(k));
        if s.tubes[k].lists(id) {
            lemma_listed_holds(s, k, id);
        }
    }
    assert(!u.reserved.contains(id)) by {
        if s.reserved.contains(id) {
            lemma_reserved_holds(s, id);
        }
    }
    assert forall|k: int| 0 <= k < u.tubes.len() implies #[trigger] u.tube_ok(k) by {
        assert(s.tube_ok(k));
        assert(!s.tubes[k].lists(id));
        lemma_tube_frame(s, u, k);
    }
    assert forall|a: int| 0 <= a < u.reserved.len() implies u.jobs.contains_key(
        #[trigger] u.reserved[a],
    ) && u.jobs[u.reserved[a]].state == JobState::Reserved by {
        assert(s.reserved.contains(s.reserved[a]));
        assert(s.jobs.contains_key(s.reserved[a]));
    }
    assert forall|x: u32| #[trigger] u.jobs.contains_key(x) implies u.job_ok(x) && (x == id
        || u.listed(x)) by {
        if x != id {
            assert(s.jobs.contains_key(x));
            assert(s.job_ok(x) && s.listed(x));
        }
    }
}

/// A job that moves leaves the store in order.
pub proof fn lemma_moved(s: Store, id: u32, info: JobInfo)
    requires
        s.inv(),
        s.jobs.contains_key(id),
        0 <= info.tube < s.tubes.len(),
        info.ttr >= 1,
    ensures
        s.moved(id, info).inv(),
        s.moved(id, info).jobs == s.jobs.insert(id, info),
        s.moved(id, info).tubes.len() == s.tubes.len(),
        s.moved(id, info).next_id == s.next_id,
{
    lemma_unlist(s, id);
    lemma_with_job(s.unlist(id), id, info);
    lemma_enlist(s.unlist(id).with_job(id, info), id);
}

/// A job that comes in leaves the store in order.
pub proof fn lemma_added(s: Store, info: JobInfo)
    requires
        s.inv(),
        s.next_id <= u32::MAX,
        0 <= info.tube < s.tubes.len(),
        info.ttr >= 1,
    ensures
        s.added(info).inv(),
        s.added(info).jobs == s.jobs.insert(s.next_id as u32, info),
        s.added(info).tubes.len() == s.tubes.len(),
        s.added(info).next_id == s.next_id + 1,
        !s.jobs.contains_key(s.next_id as u32),
{
    lemma_fresh(s, info);
    lemma_enlist((Store { next_id: s.next_id + 1, ..s }).with_job(s.next_id as u32, info),
        s.next_id as u32);
    if s.jobs.contains_key(s.next_id as u32) {
        assert(s.job_ok(s.next_id as u32));
    }
}

/// A job that leaves leaves the store in order.
pub proof fn lemma_removed(s: Store, id: u32)
    requires
        s.inv(),
        s.jobs.contains_key(id),
    ensures
        s.removed(id).inv(),
        s.removed(id).jobs == s.jobs.remove(id),
        s.removed(id).tubes.len() == s.tubes.len(),
        s.removed(id).next_id == s.next_id,
{
    lemma_unlist(s, id);
    lemma_forget(s.unlist(id), id);
}

/// A tube that is made leaves the store in order.
pub proof fn lemma_with_tube(s: Store, name: Seq<char>)
    requires
        s.inv(),
    ensures
        s.with_tube(name).inv(),
        s.with_tube(name).has_tube(name),
        s.with_tube(name).jobs == s.jobs,
{
    let u = s.with_tube(name);
    if !s.has_tube(name) {
        let n = s.tubes.len() as int;
        assert(u.tubes[n].name == name);
        assert forall|k: int| 0 <= k < u.tubes.len() implies #[trigger] u.tube_ok(k) by {
            if k < n {
                assert(s.tube_ok(k));
                assert(u.tubes[k] == s.tubes[k]);
                lemma_tube_frame(s, u, k);
            }
        }
        assert forall|a: int, b: int|
            0 <= a < u.tubes.len() && 0 <= b < u.tubes.len() && a != b implies (
        #[trigger] u.tubes[a]).name != (#[trigger] u.tubes[b]).name by {
            if a < n {
                assert(u.tubes[a] == s.tubes[a]);
            }
            if b < n {
                assert(u.tubes[b] == s.tubes[b]);
            }
        }
        assert forall|x: u32| #[trigger] u.jobs.contains_key(x) implies u.job_ok(x) && u.listed(
            x,
        ) by {
            assert(s.job_ok(x) && s.listed(x));
            assert(u.tubes[s.jobs[x].tube] == s.tubes[s.jobs[x].tube]);
        }
    }
}

/// Writing down something else for a job, in the same tube and state and of the same
/// priority, leaves the store in order.
pub proof fn lemma_amend(s: Store, id: u32, info: JobInfo)
    requires
        s.inv(),
        s.jobs.contains_key(id),
        info.tube == s.jobs[id].tube,
        info.state == s.jobs[id].state,
        info.pri == s.jobs[id].pri,
        info.ttr >= 1,
    ensures
        s.with_job(id, info).inv(),
{
    let u = s.with_job(id, info);
    assert forall|k: int| 0 <= k < u.tubes.len() implies #[trigger] u.tube_ok(k) by {
        assert(s.tube_ok(k));
        let t = s.tubes[k];
        assert forall|i: int| 0 <= i < t.ready.len() implies u.holds(
            #[trigger] t.ready[i],
            k,
            JobState::Ready,
        ) by {
            assert(s.holds(t.ready[i], k, JobState::Ready));
        }
        assert forall|i: int| 0 <= i < t.delayed.len() implies u.holds(
            #[trigger] t.delayed[i],
            k,
            JobState::Delayed,
        ) by {
            assert(s.holds(t.delayed[i], k, JobState::Delayed));
        }
        assert forall|i: int| 0 <= i < t.buried.len() implies u.holds(
            #[trigger] t.buried[i],
            k,
            JobState::Buried,
        ) by {
            assert(s.holds(t.buried[i], k, JobState::Buried));
        }
        assert forall|i: int, j: int| 0 <= i < j < t.ready.len() implies u.jobs[t.ready[i]].pri
            <= u.jobs[t.ready[j]].pri by {
            assert(s.jobs[t.ready[i]].pri <= s.jobs[t.ready[j]].pri);
        }
    }
    assert forall|a: int| 0 <= a < u.reserved.len() implies u.jobs.contains_key(
        #[trigger] u.reserved[a],
    ) && u.jobs[u.reserved[a]].state == JobState::Reserved by {
        assert(s.jobs.contains_key(s.reserved[a]));
    }
    assert forall|x: u32| #[trigger] u.jobs.contains_key(x) implies u.job_ok(x) && u.listed(
        x,
    ) by {
        if x != id {
            assert(s.jobs.contains_key(x));
        }
        assert(s.job_ok(x) && s.listed(x));
    }
}

/// Pausing a tube leaves the store in order.
pub proof fn lemma_pause(s: Store, k: int, until: u64)
    requires
        s.inv(),
        0 <= k < s.tubes.len(),
    ensures
        s.pause(k, until).inv(),
{
    let u = s.pause(k, until);
    assert forall|a: int| 0 <= a < u.tubes.len() implies #[trigger] u.tube_ok(a) by {
        assert(s.tube_ok(a));
    }
    assert forall|a: int, b: int|
        0 <= a < u.tubes.len() && 0 <= b < u.tubes.len() && a != b implies (
    #[trigger] u.tubes[a]).name != (#[trigger] u.tubes[b]).name by {
        assert(u.tubes[a].name == s.tubes[a].name);
        assert(u.tubes[b].name == s.tubes[b].name);
    }
    assert forall|x: u32| #[trigger] u.jobs.contains_key(x) implies u.job_ok(x) && u.listed(
        x,
    ) by {
        assert(s.job_ok(x) && s.listed(x));
    }
}

/// What must hold of the store does not speak of the connections that wait.
pub proof fn lemma_waiters(s: Store, waiters: Seq<WaiterInfo>)
    requires
        s.inv(),
    ensures
        (Store { waiters, ..s }).inv(),
{
    let u = Store { waiters, ..s };
    assert forall|k: int| 0 <= k < u.tubes.len() implies #[trigger] u.tube_ok(k) by {
        assert(s.tube_ok(k));
    }
    assert forall|x: u32| #[trigger] u.jobs.contains_key(x) implies u.job_ok(x) && u.listed(
        x,
    ) by {
        assert(s.job_ok(x) && s.listed(x));
    }
}

/// A job that is next for a watch-list is a ready job that the store holds.
pub proof fn lemma_next(s: Store, watch: Seq<Seq<char>>, now: u64)
    requires
        s.inv(),
    ensures
        match s.next(watch, now) {
            Some(id) => s.jobs.contains_key(id) && s.jobs[id].state == JobState::Ready,
            None => forall|k: int| !s.offers(watch, now, k),
        },
{
    lemma_pick(s, watch, now, s.tubes.len() as int);
    match s.pick(watch, now, s.tubes.len() as int) {
        Some(k) => {
            assert(s.tube_ok(k));
            assert(s.holds(s.tubes[k].ready[0], k, JobState::Ready));
        },
        None => {},
    }
}

/// Counting the connections of a tube anew leaves the store in order.
pub proof fn lemma_with_refs(s: Store, k: int, refs: usize)
    requires
        s.inv(),
        0 <= k < s.tubes.len(),
    ensures
        s.with_refs(k, refs).inv(),
{
    let u = s.with_refs(k, refs);
    assert forall|a: int| 0 <= a < u.tubes.len() implies #[trigger] u.tube_ok(a) by {
        assert(s.tube_ok(a));
    }
    assert forall|a: int, b: int|
        0 <= a < u.tubes.len() && 0 <= b < u.tubes.len() && a != b implies (
    #[trigger] u.tubes[a]).name != (#[trigger] u.tubes[b]).name by {
        assert(u.tubes[a].name == s.tubes[a].name);
        assert(u.tubes[b].name == s.tubes[b].name);
    }
    assert forall|x: u32| #[trigger] u.jobs.contains_key(x) implies u.job_ok(x) && u.listed(
        x,
    ) by {
        assert(s.job_ok(x) && s.listed(x));
    }
}

/// A connection that begins to use or watch a tube leaves the store in order.
pub proof fn lemma_retain(s: Store, name: Seq<char>)
    requires
        s.inv(),
    ensures
        s.retain(name).inv(),
        s.retain(name).has_tube(name),
        s.retain(name).jobs == s.jobs,
        s.retain(name).next_id == s.next_id,
{
    lemma_with_tube(s, name);
    let t = s.with_tube(name);
    let k = t.tube_of(name);
    assert(0 <= k < t.tubes.len() && t.tubes[k].name == name);
    let n = t.tubes[k].refs;
    let m = if n < usize::MAX {
        (n + 1) as usize
    } else {
        n
    };
    lemma_with_refs(t, k, m);
    assert(t.with_refs(k, m).tubes[k].name == name);
}

/// A connection that ends to use or watch a tube leaves the store in order.
pub proof fn lemma_release_ref(s: Store, name: Seq<char>)
    requires
        s.inv(),
    ensures
        s.release_ref(name).inv(),
        s.release_ref(name).jobs == s.jobs,
        s.release_ref(name).next_id == s.next_id,
{
    if s.has_tube(name) {
        let k = s.tube_of(name);
        assert(0 <= k < s.tubes.len() && s.tubes[k].name == name);
        let n = s.tubes[k].refs;
        lemma_with_refs(
            s,
            k,
            if n > 0 {
                (n - 1) as usize
            } else {
                n
            },
        );
    }
}

/// A connection that ends to use or watch tubes leaves the store in order.
pub proof fn lemma_release_refs(s: Store, names: Seq<Seq<char>>)
    requires
        s.inv(),
    ensures
        s.release_refs(names).inv(),
        s.release_refs(names).jobs == s.jobs,
        s.release_refs(names).next_id == s.next_id,
    decreases names.len(),
{
    if names.len() > 0 {
        lemma_release_ref(s, names[0]);
        lemma_release_refs(s.release_ref(names[0]), names.skip(1));
    }
}

} // verus!
