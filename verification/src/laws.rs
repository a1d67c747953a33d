//! What holds of the engine whatever the clients do.

use vstd::prelude::*;
use crate::connection::{lemma_filter_removes, other_name, without_name, ConnInfo};
use crate::error::Error;
use crate::handlers::{
    is_tube_name, reserved_outcome, counted, delete_outcome, ignore_outcome, length, may_delete,
        release_outcome,
    reserve_with_timeout_outcome, touch_outcome, Outcome,
};
use crate::store::{
    lemma_added, lemma_band_end, lemma_index_of, lemma_insert, lemma_moved, lemma_next, lemma_pick,
    lemma_remove, lemma_removed, lemma_tube_of, lemma_with_tube, JobInfo, JobState, Store,
    TubeInfo,
};
use crate::text::name_le;
use crate::cmd::Cmd;
use crate::store::{lemma_amend, lemma_pause, lemma_waiters, TimerEvent};

verus! {

impl Store {
    /// Whether the job is seen as ready: a tube has it in its ready list.
    pub open spec fn seen_ready(self, id: u32) -> bool {
        exists|k: int| 0 <= k < self.tubes.len() && (#[trigger] self.tubes[k]).ready.contains(id)
    }

    /// Whether the job is seen as delayed: a tube has it in its delayed list.
    pub open spec fn seen_delayed(self, id: u32) -> bool {
        exists|k: int| 0 <= k < self.tubes.len() && (#[trigger] self.tubes[k]).delayed.contains(id)
    }

    /// Whether the job is seen as buried: a tube has it in its buried list.
    pub open spec fn seen_buried(self, id: u32) -> bool {
        exists|k: int| 0 <= k < self.tubes.len() && (#[trigger] self.tubes[k]).buried.contains(id)
    }

    /// Whether the job is seen as reserved: it is in the reserved list.
    pub open spec fn seen_reserved(self, id: u32) -> bool {
        self.reserved.contains(id)
    }
}

/// A job is seen in the list of a tube only if it is of that tube and in the list's
/// state.
proof fn lemma_seen(s: Store, id: u32, state: JobState)
    requires
        s.inv(),
        state != JobState::Reserved,
        exists|k: int| 0 <= k < s.tubes.len() && (#[trigger] s.tubes[k]).list(state).contains(id),
    ensures
        s.jobs.contains_key(id),
        s.jobs[id].state == state,
{
    let k = choose|k: int| 0 <= k < s.tubes.len()
        && (#[trigger] s.tubes[k]).list(state).contains(id);
    let l = s.tubes[k].list(state);
    let i = choose|i: int| 0 <= i < l.len() && l[i] == id;
    assert(s.tube_ok(k));
    assert(s.holds(l[i], k, state));
}

/// At every moment a job is seen in one place at most, and a job that the store holds
/// in exactly one: the place that its state names.
pub proof fn lemma_one_place(s: Store, id: u32)
    requires
        s.inv(),
    ensures
        s.seen_delayed(id) <==> s.jobs.contains_key(id) && s.jobs[id].state == JobState::Delayed,
        s.seen_ready(id) <==> s.jobs.contains_key(id) && s.jobs[id].state == JobState::Ready,
        s.seen_reserved(id) <==> s.jobs.contains_key(id) && s.jobs[id].state
            == JobState::Reserved,
        s.seen_buried(id) <==> s.jobs.contains_key(id) && s.jobs[id].state == JobState::Buried,
        !(s.seen_delayed(id) && s.seen_ready(id)),
        !(s.seen_delayed(id) && s.seen_reserved(id)),
        !(s.seen_delayed(id) && s.seen_buried(id)),
        !(s.seen_ready(id) && s.seen_reserved(id)),
        !(s.seen_ready(id) && s.seen_buried(id)),
        !(s.seen_reserved(id) && s.seen_buried(id)),
{
    if s.seen_delayed(id) {
        let k = choose|k: int|
            0 <= k < s.tubes.len() && (#[trigger] s.tubes[k]).delayed.contains(id);
        assert(s.tubes[k].list(JobState::Delayed).contains(id));
        lemma_seen(s, id, JobState::Delayed);
    }
    if s.seen_ready(id) {
        let k = choose|k: int| 0 <= k < s.tubes.len() && (#[trigger] s.tubes[k]).ready.contains(id);
        assert(s.tubes[k].list(JobState::Ready).contains(id));
        lemma_seen(s, id, JobState::Ready);
    }
    if s.seen_buried(id) {
        let k = choose|k: int| 0 <= k < s.tubes.len()
            && (#[trigger] s.tubes[k]).buried.contains(id);
        assert(s.tubes[k].list(JobState::Buried).contains(id));
        lemma_seen(s, id, JobState::Buried);
    }
    if s.seen_reserved(id) {
        let i = choose|i: int| 0 <= i < s.reserved.len() && s.reserved[i] == id;
        assert(s.jobs.contains_key(s.reserved[i]));
    }
    if s.jobs.contains_key(id) {
        assert(s.job_ok(id) && s.listed(id));
        let k = s.jobs[id].tube;
        assert(s.tubes[k].list(s.jobs[id].state) == match s.jobs[id].state {
            JobState::Ready => s.tubes[k].ready,
            JobState::Delayed => s.tubes[k].delayed,
            JobState::Buried => s.tubes[k].buried,
            JobState::Reserved => Seq::empty(),
        });
    }
}

/// `ignore` of a watched tube: where the tube is the only one watched, the answer is
/// `NOT_IGNORED` and nothing changes; where more are watched, the tube leaves the
/// watch-set, which gets smaller by one and keeps the others, and the answer is
/// `WATCHING` and the new size.
pub proof fn lemma_ignore(c: ConnInfo, q: Store, tube: Seq<char>)
    requires
        c.inv(),
        c.watched.contains(tube),
        is_tube_name(tube),
    ensures
        c.watched.len() == 1 ==> ignore_outcome(c, q, tube) == (Outcome {
            queue: q,
            conn: c,
            reply: Err(Error::NotIgnored),
        }),
        c.watched.len() >= 2 ==> {
            let o = ignore_outcome(c, q, tube);
            &&& o.queue == q.release_ref(tube)
            &&& o.conn.inv()
            &&& o.conn.watched.len() == c.watched.len() - 1
            &&& !o.conn.watched.contains(tube)
            &&& forall|n: Seq<char>| n != tube
                && c.watched.contains(n) ==> o.conn.watched.contains(n)
            &&& o.conn == (ConnInfo { watched: o.conn.watched, ..c })
            &&& o.reply == Ok::<Seq<crate::codec::Token>, Error>(
                counted("WATCHING"@, length((c.watched.len() - 1) as nat)),
            )
        },
{
    let i = choose|i: int| 0 <= i < c.watched.len() && c.watched[i] == tube;
    if c.watched.len() == 1 {
        assert(c.watched =~= seq![tube]);
    } else {
        assert(!(c.watched =~= seq![tube]));
        let keep = other_name(tube);
        lemma_filter_removes(c.watched, keep, i);
        let w = c.watched.remove(i);
        assert(without_name(c.watched, tube) =~= w);
        assert forall|a: int, b: int| 0 <= a < w.len() && 0 <= b < w.len() && a != b implies w[a]
            != w[b] by {
            let a1 = if a < i { a } else { a + 1 };
            let b1 = if b < i { b } else { b + 1 };
            assert(w[a] == c.watched[a1] && w[b] == c.watched[b1]);
        }
        assert(!w.contains(tube)) by {
            if w.contains(tube) {
                let a = choose|a: int| 0 <= a < w.len() && w[a] == tube;
                let a1 = if a < i { a } else { a + 1 };
                assert(w[a] == c.watched[a1]);
            }
        }
        assert forall|n: Seq<char>| n != tube && c.watched.contains(n) implies w.contains(n) by {
            let a = choose|a: int| 0 <= a < c.watched.len() && c.watched[a] == n;
            if a < i {
                assert(w[a] == n);
            } else {
                assert(w[a - 1] == n);
            }
        }
    }
}

/// After a job was deleted, `delete`, `release` and `touch` of it, by whatever
/// connection, are answered with `NOT_FOUND`.
pub proof fn lemma_deleted(
    c: ConnInfo,
    q: Store,
    id: u32,
    other: ConnInfo,
    pri: u32,
    delay: u32,
    now: u64,
)
    requires
        q.inv(),
        may_delete(q, id, c.id),
    ensures
        ({
            let after = delete_outcome(c, q, id).queue;
            &&& after.inv()
            &&& !after.jobs.contains_key(id)
            &&& delete_outcome(other, after, id).reply == Err::<Seq<crate::codec::Token>, Error>(
                Error::NotFound,
            )
            &&& release_outcome(other, after, id, pri, delay, now).reply == Err::<
                Seq<crate::codec::Token>,
                Error,
            >(Error::NotFound)
            &&& touch_outcome(other, after, id).reply == Err::<Seq<crate::codec::Token>, Error>(
                Error::NotFound,
            )
            &&& delete_outcome(other, after, id).queue == after
            &&& release_outcome(other, after, id, pri, delay, now).queue == after
            &&& touch_outcome(other, after, id).queue == after
        }),
{
    lemma_removed(q, id);
}

/// `reserve-with-timeout 0` never lets the connection wait, and its answer is
/// `TIMED_OUT` exactly where no tube that the connection watches, and that is not
/// paused, has a ready job.
pub proof fn lemma_reserve_at_once(c: ConnInfo, q: Store, now: u64)
    requires
        q.inv(),
    ensures
        ({
            let o = reserve_with_timeout_outcome(c, q, 0, now);
            &&& o.queue.waiters == q.waiters
            &&& o.reply == Err::<Seq<crate::codec::Token>, Error>(Error::TimedOut) <==> forall|
                k: int,
            | !q.offers(c.watched, now, k)
            &&& q.next(c.watched, now) matches Some(id) ==> o == reserved_outcome(c, q, id, now)
        }),
{
    lemma_next(q, c.watched, now);
    lemma_pick(q, c.watched, now, q.tubes.len() as int);
    match q.pick(c.watched, now, q.tubes.len() as int) {
        Some(k) => {
            assert(q.offers(c.watched, now, k));
        },
        None => {},
    }
}

impl Store {
    /// Whether, in every ready list, jobs of the same priority stand in the order of
    /// their ids, which is the order in which they were put.
    pub open spec fn in_put_order(self) -> bool {
        forall|k: int, i: int, j: int|
            #![trigger self.tubes[k].ready[i], self.tubes[k].ready[j]]
            0 <= k < self.tubes.len() && 0 <= i < j < self.tubes[k].ready.len() ==> {
                let a = self.tubes[k].ready[i];
                let b = self.tubes[k].ready[j];
                self.jobs[a].pri < self.jobs[b].pri || (self.jobs[a].pri == self.jobs[b].pri
                    && a < b)
            }
    }
}

/// What a reservation of a ready job changes: the job leaves the ready list of its
/// tube and enters the reserved list; the rest stays.
pub proof fn lemma_reserve_shape(s: Store, id: u32, conn: u64, now: u64)
    requires
        s.inv(),
        s.jobs.contains_key(id),
        s.jobs[id].state == JobState::Ready,
    ensures
        ({
            let after = s.reserve(id, conn, now);
            let k = s.jobs[id].tube;
            let l = s.tubes[k].ready;
            &&& after.inv()
            &&& 0 <= k < s.tubes.len()
            &&& l.contains(id)
            &&& after.tubes == s.tubes.update(
                k,
                TubeInfo { ready: l.remove(l.index_of(id)), ..s.tubes[k] },
            )
            &&& after.reserved == s.reserved.push(id)
            &&& after.waiters == s.waiters
            &&& after.next_id == s.next_id
            &&& after.jobs.dom() == s.jobs.dom()
            &&& forall|x: u32| x != id ==> after.jobs[x] == s.jobs[x]
            &&& after.jobs[id].state == JobState::Reserved
            &&& after.jobs[id].reserver == conn
            &&& after.jobs[id].pri == s.jobs[id].pri
            &&& after.jobs[id].tube == s.jobs[id].tube
        }),
{
    let j = s.jobs[id];
    let info = j.placed(JobState::Reserved, j.pri, crate::store::later(now, j.ttr), conn, false);
    assert(s.job_ok(id) && s.listed(id));
    lemma_moved(s, id, info);
    let after = s.reserve(id, conn, now);
    assert(after.jobs.dom() =~= s.jobs.dom());
}

/// The job that is reserved next has the smallest priority number among the ready
/// jobs of the watched tubes that are not paused, and stands first in its tube; of
/// two tubes whose first jobs have that number, it is of the one whose name comes
/// first.
pub proof fn lemma_next_least(s: Store, watch: Seq<Seq<char>>, now: u64, k: int, i: int)
    requires
        s.inv(),
        s.offers(watch, now, k),
        0 <= i < s.tubes[k].ready.len(),
    ensures
        s.next(watch, now) is Some,
        ({
            let id = s.next(watch, now)->0;
            let kb = s.jobs[id].tube;
            let x = s.tubes[k].ready[i];
            &&& s.jobs.contains_key(id)
            &&& s.offers(watch, now, kb)
            &&& s.tubes[kb].ready[0] == id
            &&& s.jobs[id].pri <= s.jobs[x].pri
            &&& s.jobs[id].pri == s.jobs[s.tubes[k].ready[0]].pri ==> name_le(
                s.tubes[kb].name,
                s.tubes[k].name,
            )
        }),
{
    lemma_pick(s, watch, now, s.tubes.len() as int);
    let b = s.pick(watch, now, s.tubes.len() as int)->0;
    assert(s.before(b, k));
    assert(s.tube_ok(b));
    assert(s.tube_ok(k));
    assert(s.holds(s.tubes[b].ready[0], b, JobState::Ready));
    if i > 0 {
        assert(s.jobs[s.tubes[k].ready[0]].pri <= s.jobs[s.tubes[k].ready[i]].pri);
    }
}

/// Of two jobs that are reserved one right after the other for the same watch-list,
/// the second has no smaller priority number than the first; where both are of the
/// same tube and priority, the first stood before the second in the ready list, and
/// has the smaller id where the ready lists are in the order in which the jobs were
/// put.
pub proof fn lemma_reserve_twice(s: Store, watch: Seq<Seq<char>>, now: u64, c1: u64)
    requires
        s.inv(),
        s.next(watch, now) is Some,
        s.reserve(s.next(watch, now)->0, c1, now).next(watch, now) is Some,
    ensures
        ({
            let a = s.next(watch, now)->0;
            let b = s.reserve(a, c1, now).next(watch, now)->0;
            let l = s.tubes[s.jobs[a].tube].ready;
            &&& s.jobs.contains_key(a) && s.jobs.contains_key(b) && a != b
            &&& s.jobs[a].state == JobState::Ready && s.jobs[b].state == JobState::Ready
            &&& s.jobs[a].pri <= s.jobs[b].pri
            &&& s.jobs[a].tube == s.jobs[b].tube ==> l[0] == a && l[1] == b
            &&& s.jobs[a].tube == s.jobs[b].tube && s.jobs[a].pri == s.jobs[b].pri
                && s.in_put_order() ==> a < b
            &&& s.jobs[a].tube != s.jobs[b].tube && s.jobs[a].pri == s.jobs[b].pri ==> name_le(
                s.tubes[s.jobs[a].tube].name,
                s.tubes[s.jobs[b].tube].name,
            )
        }),
{
    let a = s.next(watch, now)->0;
    lemma_next(s, watch, now);
    lemma_reserve_shape(s, a, c1, now);
    let t = s.reserve(a, c1, now);
    let b = t.next(watch, now)->0;
    lemma_next(t, watch, now);
    lemma_pick(s, watch, now, s.tubes.len() as int);
    lemma_pick(t, watch, now, t.tubes.len() as int);
    let ka = s.pick(watch, now, s.tubes.len() as int)->0;
    let kb = t.pick(watch, now, t.tubes.len() as int)->0;
    assert(s.tube_ok(ka));
    assert(t.tube_ok(kb));
    assert(s.holds(s.tubes[ka].ready[0], ka, JobState::Ready));
    assert(t.holds(t.tubes[kb].ready[0], kb, JobState::Ready));
    let l = s.tubes[ka].ready;
    lemma_index_of(l, 0);
    assert(t.tubes[ka].ready == l.remove(0));
    assert(b != a);
    if kb == ka {
        assert(b == l[1]);
        assert(s.tube_ok(ka));
        assert(s.holds(l[1], ka, JobState::Ready));
        assert(s.jobs[l[0]].pri <= s.jobs[l[1]].pri);
    } else {
        assert(t.tubes[kb] == s.tubes[kb]);
        assert(s.offers(watch, now, kb));
        lemma_next_least(s, watch, now, kb, 0);
    }
}

/// The ready lists of a store without jobs are in the order in which the jobs were
/// put.
pub proof fn lemma_put_order_fresh()
    ensures
        Store::fresh().inv(),
        Store::fresh().in_put_order(),
{
    let s = Store::fresh();
    assert(s.tube_ok(0));
}

/// A `put` of a ready job keeps the ready lists in the order in which the jobs were
/// put.
pub proof fn lemma_put_order_put(s: Store, tube: Seq<char>, pri: u32, ttr: u32, body: Seq<u8>)
    requires
        s.inv(),
        s.in_put_order(),
        s.next_id <= u32::MAX,
    ensures
        s.put(tube, pri, ttr, body, JobState::Ready, 0).inv(),
        s.put(tube, pri, ttr, body, JobState::Ready, 0).in_put_order(),
{
    let s1 = s.with_tube(tube);
    lemma_with_tube(s, tube);
    let k = s1.tube_of(tube);
    assert(0 <= k < s1.tubes.len() && s1.tubes[k].name == tube);
    let info = JobInfo {
        tube: k,
        pri,
        ttr: if ttr == 0 {
            1
        } else {
            ttr
        },
        body,
        state: JobState::Ready,
        deadline: 0,
        reserver: 0,
        warned: false,
    };
    lemma_added(s1, info);
    let id = s1.next_id as u32;
    let s2 = s1.added(info);
    assert(s1.in_put_order()) by {
        assert forall|k2: int, i: int, j: int|
            0 <= k2 < s1.tubes.len() && 0 <= i < j < s1.tubes[k2].ready.len() implies ({
            let a = #[trigger] s1.tubes[k2].ready[i];
            let b = #[trigger] s1.tubes[k2].ready[j];
            s1.jobs[a].pri < s1.jobs[b].pri || (s1.jobs[a].pri == s1.jobs[b].pri && a < b)
        }) by {
            if k2 < s.tubes.len() {
                assert(s1.tubes[k2] == s.tubes[k2]);
                let a = s.tubes[k2].ready[i];
                let b = s.tubes[k2].ready[j];
            }
        }
    }
    let mid = (Store { next_id: s1.next_id + 1, ..s1 }).with_job(id, info);
    let l = s1.tubes[k].ready;
    assert(s1.tube_ok(k));
    assert(mid.sorted(l)) by {
        assert forall|i: int, j: int| 0 <= i < j < l.len() implies mid.jobs[l[i]].pri
            <= mid.jobs[l[j]].pri by {
            assert(s1.holds(l[i], k, JobState::Ready));
            assert(s1.holds(l[j], k, JobState::Ready));
            assert(s1.jobs[l[i]].pri <= s1.jobs[l[j]].pri);
        }
    }
    lemma_band_end(mid, l, pri);
    let p = mid.band_end(l, pri);
    assert(!l.contains(id)) by {
        if l.contains(id) {
            let i = choose|i: int| 0 <= i < l.len() && l[i] == id;
            assert(s1.holds(l[i], k, JobState::Ready));
        }
    }
    lemma_insert(l, p, id);
    let l2 = l.insert(p, id);
    assert(s2.tubes[k].ready == l2);
    assert forall|k2: int, i: int, j: int|
        0 <= k2 < s2.tubes.len() && 0 <= i < j < s2.tubes[k2].ready.len() implies ({
        let a = #[trigger] s2.tubes[k2].ready[i];
        let b = #[trigger] s2.tubes[k2].ready[j];
        s2.jobs[a].pri < s2.jobs[b].pri || (s2.jobs[a].pri == s2.jobs[b].pri && a < b)
    }) by {
        assert(s1.tube_ok(k2));
        if k2 != k {
            assert(s2.tubes[k2] == s1.tubes[k2]);
            let a = s1.tubes[k2].ready[i];
            let b = s1.tubes[k2].ready[j];
            assert(s1.holds(a, k2, JobState::Ready));
            assert(s1.holds(b, k2, JobState::Ready));
        } else {
            let i1 = if i < p { i } else { i - 1 };
            let j1 = if j < p { j } else { j - 1 };
            if i != p && j != p {
                assert(l2[i] == l[i1] && l2[j] == l[j1]);
                assert(s1.holds(l[i1], k, JobState::Ready));
                assert(s1.holds(l[j1], k, JobState::Ready));
                let a = s1.tubes[k].ready[i1];
                let b = s1.tubes[k].ready[j1];
            } else if i == p {
                assert(l2[j] == l[j1]);
                assert(s1.holds(l[j1], k, JobState::Ready));
                assert(mid.jobs[l[j1]].pri > pri);
            } else {
                assert(l2[i] == l[i1]);
                assert(s1.holds(l[i1], k, JobState::Ready));
                assert(mid.jobs[l[i1]].pri <= pri);
                assert(s1.job_ok(l[i1]));
            }
        }
    }
}

/// A reservation keeps the ready lists in the order in which the jobs were put.
pub proof fn lemma_put_order_reserve(s: Store, id: u32, conn: u64, now: u64)
    requires
        s.inv(),
        s.in_put_order(),
        s.jobs.contains_key(id),
        s.jobs[id].state == JobState::Ready,
    ensures
        s.reserve(id, conn, now).inv(),
        s.reserve(id, conn, now).in_put_order(),
{
    lemma_reserve_shape(s, id, conn, now);
    let t = s.reserve(id, conn, now);
    let k = s.jobs[id].tube;
    let l = s.tubes[k].ready;
    let p = l.index_of(id);
    assert(0 <= p < l.len() && l[p] == id);
    assert forall|k2: int, i: int, j: int|
        0 <= k2 < t.tubes.len() && 0 <= i < j < t.tubes[k2].ready.len() implies ({
        let a = #[trigger] t.tubes[k2].ready[i];
        let b = #[trigger] t.tubes[k2].ready[j];
        t.jobs[a].pri < t.jobs[b].pri || (t.jobs[a].pri == t.jobs[b].pri && a < b)
    }) by {
        assert(t.tube_ok(k2));
        let a = t.tubes[k2].ready[i];
        let b = t.tubes[k2].ready[j];
        assert(t.holds(a, k2, JobState::Ready));
        assert(t.holds(b, k2, JobState::Ready));
        assert(a != id && b != id);
        if k2 != k {
            assert(t.tubes[k2] == s.tubes[k2]);
            let a0 = s.tubes[k2].ready[i];
            let b0 = s.tubes[k2].ready[j];
        } else {
            let i1 = if i < p { i } else { i + 1 };
            let j1 = if j < p { j } else { j + 1 };
            assert(t.tubes[k].ready[i] == l[i1] && t.tubes[k].ready[j] == l[j1]);
            let a0 = s.tubes[k].ready[i1];
            let b0 = s.tubes[k].ready[j1];
        }
    }
}

impl Store {
    /// Whether the id was handed out and its job has left the store.
    pub open spec fn gone(self, id: u32) -> bool {
        1 <= id < self.next_id && !self.jobs.contains_key(id)
    }

    /// Whether `after` is a store in order in which no id is handed out again: the jobs
    /// that have left this store have left that one, and the next id is no smaller.
    pub open spec fn leads_to(self, after: Store) -> bool {
        &&& after.inv()
        &&& self.next_id <= after.next_id
        &&& forall|id: u32| self.gone(id) ==> after.gone(id)
    }
}

/// A job that moves leaves no id free.
proof fn lemma_moved_leads(s: Store, id: u32, info: JobInfo)
    requires
        s.inv(),
        s.jobs.contains_key(id),
        info.tube == s.jobs[id].tube,
        info.ttr == s.jobs[id].ttr,
    ensures
        s.leads_to(s.moved(id, info)),
{
    assert(s.job_ok(id));
    lemma_moved(s, id, info);
}

/// A kick leaves no id free.
proof fn lemma_kick_leads(s: Store, k: int, state: JobState, n: nat)
    requires
        s.inv(),
        0 <= k < s.tubes.len(),
        state != JobState::Reserved,
    ensures
        s.leads_to(s.kick_list(k, state, n)),
    decreases n,
{
    let l = s.tubes[k].list(state);
    if n > 0 && l.len() > 0 {
        assert(s.tube_ok(k));
        assert(s.holds(l[0], k, state));
        let t = s.readied(l[0], s.jobs[l[0]].pri);
        lemma_moved_leads(s, l[0], s.jobs[l[0]].readied(s.jobs[l[0]].pri));
        lemma_kick_leads(t, k, state, (n - 1) as nat);
    }
}

/// The end of a connection leaves no id free.
proof fn lemma_release_each_leads(s: Store, ids: Seq<u32>, conn: u64)
    requires
        s.inv(),
    ensures
        s.leads_to(s.release_each(ids, conn)),
    decreases ids.len(),
{
    if ids.len() > 0 {
        let t = if s.held_by(ids[0], conn) {
            s.readied(ids[0], s.jobs[ids[0]].pri)
        } else {
            s
        };
        if s.held_by(ids[0], conn) {
            lemma_moved_leads(s, ids[0], s.jobs[ids[0]].readied(s.jobs[ids[0]].pri));
        }
        lemma_release_each_leads(t, ids.skip(1), conn);
    }
}

/// Whatever a command does, the store stays in order, and the id of a job that has
/// left the store is never handed out again.
pub proof fn lemma_command_keeps(cmd: Cmd, c: ConnInfo, q: Store, now: u64)
    requires
        q.inv(),
    ensures
        q.leads_to(cmd.outcome(c, q, now).queue),
{
    let o = cmd.outcome(c, q, now);
    match cmd {
        Cmd::Put { pri, delay, ttr, bytes, data } => {
            if !q.draining && q.next_id <= u32::MAX {
                let s1 = q.with_tube(c.used);
                lemma_with_tube(q, c.used);
                let k = s1.tube_of(c.used);
                assert(0 <= k < s1.tubes.len() && s1.tubes[k].name == c.used);
                let t = if ttr == 0 {
                    1u32
                } else {
                    ttr
                };
                let info = JobInfo {
                    tube: k,
                    pri,
                    ttr: t,
                    body: crate::buffer::bytes_seq(data),
                    state: if delay == 0 {
                        JobState::Ready
                    } else {
                        JobState::Delayed
                    },
                    deadline: if delay == 0 {
                        0
                    } else {
                        crate::store::later(now, delay)
                    },
                    reserver: 0,
                    warned: false,
                };
                lemma_added(s1, info);
                assert(o.queue == s1.added(info));
            }
        },
        Cmd::Use { tube } => {
            crate::store::lemma_retain(q, tube@);
            crate::store::lemma_release_ref(q.retain(tube@), c.used);
        },
        Cmd::Watch { tube } => {
            crate::store::lemma_retain(q, tube@);
        },
        Cmd::Ignore { tube } => {
            crate::store::lemma_release_ref(q, tube@);
        },
        Cmd::Reserve => {
            lemma_next(q, c.watched, now);
            match q.next(c.watched, now) {
                Some(id) => {
                    lemma_reserve_shape(q, id, c.id, now);
                },
                None => {
                    lemma_waiters(q, q.park(c.id, c.watched, None).waiters);
                },
            }
        },
        Cmd::ReserveWithTimeout { seconds } => {
            lemma_next(q, c.watched, now);
            match q.next(c.watched, now) {
                Some(id) => {
                    lemma_reserve_shape(q, id, c.id, now);
                },
                None => {
                    lemma_waiters(
                        q,
                        q.park(c.id, c.watched, Some(crate::store::later(now, seconds))).waiters,
                    );
                },
            }
        },
        Cmd::ReserveJob { id } => {
            if q.jobs.contains_key(id) && q.jobs[id].state != JobState::Reserved {
                let j = q.jobs[id];
                lemma_moved_leads(
                    q,
                    id,
                    j.placed(JobState::Reserved, j.pri, crate::store::later(now, j.ttr), c.id,
                        false),
                );
            }
        },
        Cmd::Delete { id } => {
            if may_delete(q, id, c.id) {
                lemma_removed(q, id);
            }
        },
        Cmd::Release { id, pri, delay } => {
            if q.held_by(id, c.id) {
                let j = q.jobs[id];
                if delay == 0 {
                    lemma_moved_leads(q, id, j.readied(pri));
                } else {
                    lemma_moved_leads(
                        q,
                        id,
                        j.placed(JobState::Delayed, pri, crate::store::later(now, delay), 0, false),
                    );
                }
            }
        },
        Cmd::Bury { id, pri } => {
            if q.held_by(id, c.id) {
                lemma_moved_leads(q, id, q.jobs[id].placed(JobState::Buried, pri, 0, 0, false));
            }
        },
        Cmd::Touch { id } => {
            if q.held_by(id, c.id) {
                assert(q.job_ok(id));
                lemma_amend(q, id, q.touch(id).jobs[id]);
            }
        },
        Cmd::Kick { bound } => {
            if q.has_tube(c.used) {
                let k = q.tube_of(c.used);
                assert(0 <= k < q.tubes.len() && q.tubes[k].name == c.used);
                lemma_kick_leads(q, k, q.kick_from(k), bound as nat);
            }
        },
        Cmd::KickJob { id } => {
            if q.jobs.contains_key(id) {
                lemma_moved_leads(q, id, q.jobs[id].readied(q.jobs[id].pri));
            }
        },
        Cmd::PauseTube { tube_name, delay } => {
            if q.has_tube(tube_name@) {
                let k = q.tube_of(tube_name@);
                assert(0 <= k < q.tubes.len() && q.tubes[k].name == tube_name@);
                lemma_pause(q, k, crate::store::later(now, delay));
            }
        },
        _ => {},
    }
}

/// The first job of a list that is due has a place in the list.
proof fn lemma_first_due(s: Store, l: Seq<u32>, now: u64, near: bool, n: int)
    requires
        0 <= n <= l.len(),
    ensures
        s.first_due(l, now, near, n) matches Some(i) ==> 0 <= i < n && s.is_due(l[i], now, near),
    decreases n,
{
    if n > 0 {
        lemma_first_due(s, l, now, near, n - 1);
    }
}

/// The delayed job that is due first is a delayed job of the store.
proof fn lemma_due_delayed(s: Store, now: u64, m: int)
    requires
        s.inv(),
        0 <= m <= s.tubes.len(),
    ensures
        s.due_delayed(now, m) matches Some(id) ==> s.jobs.contains_key(id) && s.jobs[id].state
            == JobState::Delayed && s.jobs[id].deadline <= now,
    decreases m,
{
    if m > 0 {
        lemma_due_delayed(s, now, m - 1);
        let l = s.tubes[m - 1].delayed;
        lemma_first_due(s, l, now, false, l.len() as int);
        match s.first_due(l, now, false, l.len() as int) {
            Some(i) => {
                assert(s.tube_ok(m - 1));
                assert(s.holds(l[i], m - 1, JobState::Delayed));
            },
            None => {},
        }
    }
}

/// What is due is due of a job of the store: a delayed one whose delay is over, or a
/// reserved one whose time is over or nearly over, with the connection that holds it.
pub proof fn lemma_timer(q: Store, now: u64)
    requires
        q.inv(),
    ensures
        match q.timer(now) {
            Some(TimerEvent::Ready { id }) => q.jobs.contains_key(id) && q.jobs[id].state
                == JobState::Delayed && q.jobs[id].deadline <= now,
            Some(TimerEvent::Expired { id, conn }) => q.held_by(id, conn) && q.jobs[id].deadline
                <= now,
            Some(TimerEvent::DeadlineSoon { id, conn }) => q.held_by(id, conn)
                && !q.jobs[id].warned && now < q.jobs[id].deadline <= crate::store::later(now, 1),
            None => true,
        },
{
    lemma_due_delayed(q, now, q.tubes.len() as int);
    let r = q.reserved;
    lemma_first_due(q, r, now, false, r.len() as int);
    lemma_first_due(q, r, now, true, r.len() as int);
    match q.first_due(r, now, false, r.len() as int) {
        Some(i) => {
            assert(q.jobs.contains_key(r[i]));
        },
        None => {
            match q.first_due(r, now, true, r.len() as int) {
                Some(i) => {
                    assert(q.jobs.contains_key(r[i]));
                    lemma_none_due(q, r, now, r.len() as int, i);
                },
                None => {},
            }
        },
    }
}

/// Where no job among the first `n` of a list is due, none of them is.
proof fn lemma_none_due(s: Store, l: Seq<u32>, now: u64, n: int, i: int)
    requires
        0 <= i < n <= l.len(),
        s.first_due(l, now, false, n) is None,
    ensures
        !s.is_due(l[i], now, false),
    decreases n,
{
    if i < n - 1 {
        lemma_none_due(s, l, now, n - 1, i);
    }
}

/// A connection is told once that the time of a job that it holds is nearly over: after
/// it was told, it is not told again, at whatever time, as long as nothing else happens
/// to the job.
pub proof fn lemma_told_once(q: Store, now: u64, later: u64)
    requires
        q.inv(),
        q.timer(now) is Some,
        q.timer(now)->0 is DeadlineSoon,
    ensures
        ({
            let id = q.timer(now)->0->DeadlineSoon_id;
            let after = q.fire(q.timer(now));
            &&& after.jobs[id].warned
            &&& after.timer(later) matches Some(e) ==> !(e is DeadlineSoon && e->DeadlineSoon_id
                == id)
        }),
{
    lemma_timer(q, now);
    let id = q.timer(now)->0->DeadlineSoon_id;
    let after = q.fire(q.timer(now));
    let r = after.reserved;
    lemma_first_due(after, r, later, true, r.len() as int);
}

/// Whatever the passing of time does, the store stays in order, and the id of a job
/// that has left the store is never handed out again.
pub proof fn lemma_timer_keeps(q: Store, now: u64)
    requires
        q.inv(),
    ensures
        q.leads_to(q.fire(q.timer(now))),
{
    lemma_timer(q, now);
    match q.timer(now) {
        None => {},
        Some(TimerEvent::Ready { id }) => {
            lemma_moved_leads(q, id, q.jobs[id].readied(q.jobs[id].pri));
        },
        Some(TimerEvent::Expired { id, conn }) => {
            lemma_moved_leads(q, id, q.jobs[id].readied(q.jobs[id].pri));
        },
        Some(TimerEvent::DeadlineSoon { id, conn }) => {
            assert(q.job_ok(id));
            lemma_amend(q, id, JobInfo { warned: true, ..q.jobs[id] });
        },
    }
}

/// A job that is handed to a connection that waits leaves the store in order, and the
/// id of a job that has left the store is never handed out again.
pub proof fn lemma_serve_keeps(q: Store, i: int, now: u64)
    requires
        q.inv(),
        0 <= i < q.waiters.len(),
        q.next(q.waiters[i].watch, now) is Some,
    ensures
        q.leads_to(q.serve(i, now)),
{
    let w = q.waiters[i];
    lemma_next(q, w.watch, now);
    let id = q.next(w.watch, now)->0;
    lemma_reserve_shape(q, id, w.conn, now);
    lemma_waiters(q.reserve(id, w.conn, now), q.waiters.remove(i));
}

/// The end of a connection leaves the store in order, and the id of a job that has
/// left the store is never handed out again.
pub proof fn lemma_disconnect_keeps(q: Store, conn: u64)
    requires
        q.inv(),
    ensures
        q.leads_to(q.disconnect(conn).cancel(conn)),
        forall|used: Seq<char>, watched: Seq<Seq<char>>|
            q.leads_to(
                #[trigger] q.disconnect(conn).cancel(conn).release_ref(used).release_refs(watched),
            ),
{
    lemma_release_each_leads(q, q.reserved, conn);
    let t = q.disconnect(conn);
    lemma_waiters(t, t.cancel(conn).waiters);
    let u = t.cancel(conn);
    assert forall|used: Seq<char>, watched: Seq<Seq<char>>|
        q.leads_to(#[trigger] u.release_ref(used).release_refs(watched)) by {
        crate::store::lemma_release_ref(u, used);
        crate::store::lemma_release_refs(u.release_ref(used), watched);
    }
}

} // verus!
