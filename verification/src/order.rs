//! The order in which jobs are reserved, over whole runs of `put` and `reserve`.

use vstd::prelude::*;
use crate::laws::{
    lemma_next_least, lemma_put_order_fresh, lemma_put_order_put, lemma_put_order_reserve,
    lemma_reserve_shape,
};
use crate::store::{
    lemma_added, lemma_band_end, lemma_index_of, lemma_insert, lemma_next, lemma_remove,
    lemma_with_tube, JobInfo, JobState, Store,
};

verus! {

/// One step of a run.
pub enum Step {
    /// A ready job is put into a tube.
    Put { tube: Seq<char>, pri: u32, ttr: u32, body: Seq<u8> },
    /// A connection reserves the job that is next for the watch-list of the run.
    Reserve { conn: u64 },
}

/// Where a run stands: the store, and the jobs that were reserved, in their order.
pub struct Run {
    pub store: Store,
    pub taken: Seq<u32>,
}

/// The run after its first `n` steps, from a store without jobs. A `put` for which no
/// id is left and a `reserve` for which no job is there change nothing.
pub open spec fn play(steps: Seq<Step>, watch: Seq<Seq<char>>, now: u64, n: int) -> Run
    decreases n,
{
    if n <= 0 {
        Run { store: Store::fresh(), taken: Seq::empty() }
    } else {
        let r = play(steps, watch, now, n - 1);
        match steps[n - 1] {
            Step::Put { tube, pri, ttr, body } => if r.store.next_id <= u32::MAX {
                Run { store: r.store.put(tube, pri, ttr, body, JobState::Ready, 0), taken: r.taken }
            } else {
                r
            },
            Step::Reserve { conn } => match r.store.next(watch, now) {
                Some(id) => Run {
                    store: r.store.reserve(id, conn, now),
                    taken: r.taken.push(id),
                },
                None => r,
            },
        }
    }
}

/// Whether no `put` of the run brings a job of a smaller priority number than a job
/// that was reserved before it.
pub open spec fn none_undercuts(steps: Seq<Step>, watch: Seq<Seq<char>>, now: u64) -> bool {
    forall|n: int, i: int|
        #![trigger steps[n], play(steps, watch, now, n).taken[i]]
        0 <= n < steps.len() && steps[n] is Put && 0 <= i < play(steps, watch, now, n).taken.len()
            ==> play(steps, watch, now, n).store.jobs[play(steps, watch, now, n).taken[i]].pri
            <= steps[n]->Put_pri
}

/// Whether job `a` has the smaller id, where `a` and `b` are of one tube and one
/// priority.
pub open spec fn tie_goes_to(s: Store, a: u32, b: u32) -> bool {
    s.jobs[a].pri == s.jobs[b].pri && s.jobs[a].tube == s.jobs[b].tube ==> a < b
}

/// Whether job `a` goes before job `b`: it has no greater priority number, and the
/// smaller id where both are of one tube and one priority.
pub open spec fn goes_first(s: Store, a: u32, b: u32) -> bool {
    s.jobs[a].pri <= s.jobs[b].pri && tie_goes_to(s, a, b)
}

/// What holds of a run after every step.
spec fn settled(r: Run, watch: Seq<Seq<char>>, now: u64) -> bool {
    let s = r.store;
    &&& s.inv()
    &&& s.in_put_order()
    &&& forall|i: int|
        0 <= i < r.taken.len() ==> s.jobs.contains_key(#[trigger] r.taken[i])
            && s.jobs[r.taken[i]].state
            == JobState::Reserved
    &&& forall|i: int, j: int|
        #![trigger r.taken[i], r.taken[j]]
        0 <= i < j < r.taken.len() ==> goes_first(s, r.taken[i], r.taken[j])
    &&& forall|i: int, k: int, x: u32|
        #![trigger r.taken[i], s.tubes[k].ready.contains(x)]
        0 <= i < r.taken.len() && s.offers(watch, now, k) && s.tubes[k].ready.contains(x)
            ==> s.jobs[r.taken[i]].pri <= s.jobs[x].pri
    &&& forall|i: int, k: int, x: u32|
        #![trigger r.taken[i], s.tubes[k].ready.contains(x)]
        0 <= i < r.taken.len() && 0 <= k < s.tubes.len() && s.tubes[k].ready.contains(x)
            ==> tie_goes_to(s, r.taken[i], x)
}

/// What a `put` of a ready job changes: the job is written down under the next id and
/// enters the ready list of its tube; the other jobs and lists stay.
proof fn lemma_put_shape(s: Store, tube: Seq<char>, pri: u32, ttr: u32, body: Seq<u8>)
    requires
        s.inv(),
        s.next_id <= u32::MAX,
    ensures
        ({
            let after = s.put(tube, pri, ttr, body, JobState::Ready, 0);
            let id = s.next_id as u32;
            &&& after.inv()
            &&& after.next_id == s.next_id + 1
            &&& !s.jobs.contains_key(id)
            &&& after.jobs.contains_key(id)
            &&& after.jobs[id].pri == pri
            &&& after.jobs[id].state == JobState::Ready
            &&& forall|x: u32| s.jobs.contains_key(x) ==> after.jobs.contains_key(x)
                && after.jobs[x]
                == s.jobs[x]
            &&& after.tubes.len() >= s.tubes.len()
            &&& forall|k: int|
                0 <= k < s.tubes.len() ==> (#[trigger] after.tubes[k]).name == s.tubes[k].name
                    && after.tubes[k].paused_until == s.tubes[k].paused_until
            &&& forall|k: int, x: u32|
                0 <= k < after.tubes.len() && #[trigger] after.tubes[k].ready.contains(x) ==> x
                    == id || (k < s.tubes.len() && s.tubes[k].ready.contains(x))
        }),
{
    let id = s.next_id as u32;
    let s1 = s.with_tube(tube);
    lemma_with_tube(s, tube);
    let kt = s1.tube_of(tube);
    assert(0 <= kt < s1.tubes.len() && s1.tubes[kt].name == tube);
    let info = JobInfo {
        tube: kt,
        pri,
        ttr: if ttr == 0 {
            1
        } else {
            ttr
        },
        body,
        state: JobState::Ready,
        deadline: 0,
        reserver: 0,
        warned: false,
    };
    lemma_added(s1, info);
    let after = s1.added(info);
    let mid = (Store { next_id: s1.next_id + 1, ..s1 }).with_job(id, info);
    let l = s1.tubes[kt].ready;
    assert(s1.tube_ok(kt));
    assert(mid.sorted(l)) by {
        assert forall|i: int, j: int| 0 <= i < j < l.len() implies mid.jobs[l[i]].pri
            <= mid.jobs[l[j]].pri by {
            assert(s1.holds(l[i], kt, JobState::Ready));
            assert(s1.holds(l[j], kt, JobState::Ready));
            assert(s1.jobs[l[i]].pri <= s1.jobs[l[j]].pri);
        }
    }
    lemma_band_end(mid, l, pri);
    assert(!l.contains(id)) by {
        if l.contains(id) {
            let i = choose|i: int| 0 <= i < l.len() && l[i] == id;
            assert(s1.holds(l[i], kt, JobState::Ready));
        }
    }
    lemma_insert(l, mid.band_end(l, pri), id);
    assert forall|k: int| 0 <= k < s.tubes.len() implies (#[trigger] after.tubes[k]).name
        == s.tubes[k].name && after.tubes[k].paused_until == s.tubes[k].paused_until by {
        assert(s1.tubes[k] == s.tubes[k]);
    }
    assert forall|k: int, x: u32|
        0 <= k < after.tubes.len() && #[trigger] after.tubes[k].ready.contains(x) implies x == id
        || (k < s.tubes.len() && s.tubes[k].ready.contains(x)) by {
        if k != kt {
            assert(after.tubes[k] == s1.tubes[k]);
        }
        if k < s.tubes.len() {
            assert(s1.tubes[k] == s.tubes[k]);
        } else if x != id {
            assert(s1.tubes[k].ready =~= Seq::<u32>::empty());
            if k == kt {
                assert(l.contains(x));
            } else {
                assert(s1.tubes[k].ready.contains(x));
            }
            let i = choose|i: int| 0 <= i < s1.tubes[k].ready.len() && s1.tubes[k].ready[i] == x;
        }
    }
}

/// A step keeps what holds of a run.
proof fn lemma_step(steps: Seq<Step>, watch: Seq<Seq<char>>, now: u64, n: int)
    requires
        0 < n <= steps.len(),
        none_undercuts(steps, watch, now),
        settled(play(steps, watch, now, n - 1), watch, now),
    ensures
        settled(play(steps, watch, now, n), watch, now),
{
    let r = play(steps, watch, now, n - 1);
    let s = r.store;
    let after = play(steps, watch, now, n);
    let t = after.store;
    match steps[n - 1] {
        Step::Put { tube, pri, ttr, body } => {
            if s.next_id <= u32::MAX {
                let id = s.next_id as u32;
                lemma_put_shape(s, tube, pri, ttr, body);
                lemma_put_order_put(s, tube, pri, ttr, body);
                assert forall|i: int| 0 <= i < r.taken.len()
                    implies s.jobs[#[trigger] r.taken[i]].pri
                    <= pri by {
                    assert(steps[n - 1] is Put);
                    let x = play(steps, watch, now, n - 1).taken[i];
                }
                assert forall|i: int, j: int| 0 <= i < j < after.taken.len() implies goes_first(
                    t,
                    #[trigger] after.taken[i],
                    #[trigger] after.taken[j],
                ) by {
                    assert(goes_first(s, r.taken[i], r.taken[j]));
                }
                assert forall|i: int, k: int, x: u32|
                    #![trigger after.taken[i], t.tubes[k].ready.contains(x)]
                    0 <= i < after.taken.len() && 0 <= k < t.tubes.len()
                        && t.tubes[k].ready.contains(
                        x,
                    ) implies tie_goes_to(t, after.taken[i], x) && (t.offers(watch, now, k)
                    ==> t.jobs[after.taken[i]].pri <= t.jobs[x].pri) by {
                    let a = r.taken[i];
                    assert(s.jobs.contains_key(a));
                    assert(s.job_ok(a));
                    if x != id {
                        assert(s.tubes[k].ready.contains(x));
                        assert(s.tube_ok(k));
                        let m = choose|m: int| 0 <= m < s.tubes[k].ready.len()
                            && s.tubes[k].ready[m]
                            == x;
                        assert(s.holds(s.tubes[k].ready[m], k, JobState::Ready));
                        assert(tie_goes_to(s, a, x));
                        if t.offers(watch, now, k) {
                            assert(s.offers(watch, now, k));
                        }
                    }
                }
            }
        },
        Step::Reserve { conn } => {
            lemma_next(s, watch, now);
            match s.next(watch, now) {
                None => {},
                Some(a) => {
                    lemma_reserve_shape(s, a, conn, now);
                    lemma_put_order_reserve(s, a, conn, now);
                    let ka = s.jobs[a].tube;
                    let l = s.tubes[ka].ready;
                    let p = l.index_of(a);
                    assert(s.tube_ok(ka));
                    lemma_index_of(l, p);
                    lemma_remove(l, p);
                    crate::store::lemma_pick(s, watch, now, s.tubes.len() as int);
                    assert(s.offers(watch, now, ka) && p == 0) by {
                        let kb = s.pick(watch, now, s.tubes.len() as int)->0;
                        assert(s.tube_ok(kb));
                        assert(s.holds(s.tubes[kb].ready[0], kb, JobState::Ready));
                        lemma_index_of(s.tubes[kb].ready, 0);
                    }
                    assert forall|k: int, x: u32|
                        0 <= k < t.tubes.len() && #[trigger] t.tubes[k].ready.contains(
                            x,
                        ) implies s.tubes[k].ready.contains(x) && x != a by {
                        if k != ka {
                            assert(t.tubes[k] == s.tubes[k]);
                            assert(s.tube_ok(k));
                            let m = choose|m: int| 0 <= m < s.tubes[k].ready.len()
                                && s.tubes[k].ready[m]
                                == x;
                            assert(s.holds(s.tubes[k].ready[m], k, JobState::Ready));
                        }
                    }
                    assert forall|i: int| 0 <= i < after.taken.len() implies t.jobs.contains_key(
                        #[trigger] after.taken[i],
                    ) && t.jobs[after.taken[i]].state == JobState::Reserved by {
                        if i < r.taken.len() {
                            assert(s.jobs.contains_key(r.taken[i]));
                            assert(r.taken[i] != a);
                        }
                    }
                    assert forall|i: int| 0 <= i < r.taken.len() implies goes_first(
                        s,
                        #[trigger] r.taken[i],
                        a,
                    ) && r.taken[i] != a by {
                        assert(l.contains(a));
                        assert(s.tubes[ka].ready.contains(a));
                        assert(tie_goes_to(s, r.taken[i], a));
                    }
                    assert forall|i: int, j: int| 0 <= i < j < after.taken.len() implies goes_first(
                        t,
                        #[trigger] after.taken[i],
                        #[trigger] after.taken[j],
                    ) by {
                        if j < r.taken.len() {
                            assert(goes_first(s, r.taken[i], r.taken[j]));
                            assert(r.taken[i] != a && r.taken[j] != a);
                        } else {
                            assert(goes_first(s, r.taken[i], a));
                        }
                    }
                    assert forall|i: int, k: int, x: u32|
                        #![trigger after.taken[i], t.tubes[k].ready.contains(x)]
                        0 <= i < after.taken.len() && 0 <= k < t.tubes.len()
                            && t.tubes[k].ready.contains(
                            x,
                        ) implies tie_goes_to(t, after.taken[i], x) && (t.offers(watch, now, k)
                        ==> t.jobs[after.taken[i]].pri <= t.jobs[x].pri) by {
                        assert(s.tubes[k].ready.contains(x) && x != a);
                        let m = choose|m: int| 0 <= m < s.tubes[k].ready.len()
                            && s.tubes[k].ready[m]
                            == x;
                        if t.offers(watch, now, k) {
                            assert(s.offers(watch, now, k));
                        }
                        if i < r.taken.len() {
                            assert(r.taken[i] != a);
                            assert(tie_goes_to(s, r.taken[i], x));
                        } else {
                            if s.offers(watch, now, k) {
                                lemma_next_least(s, watch, now, k, m);
                            }
                            if k == ka {
                                assert(m != 0);
                                let a0 = s.tubes[ka].ready[0];
                                let x0 = s.tubes[ka].ready[m];
                            } else {
                                assert(s.tube_ok(k));
                                assert(s.holds(s.tubes[k].ready[m], k, JobState::Ready));
                            }
                        }
                    }
                },
            }
        },
    }
}

/// What holds of a run holds after any number of its steps.
proof fn lemma_settled(steps: Seq<Step>, watch: Seq<Seq<char>>, now: u64, n: int)
    requires
        0 <= n <= steps.len(),
        none_undercuts(steps, watch, now),
    ensures
        settled(play(steps, watch, now, n), watch, now),
    decreases n,
{
    if n == 0 {
        lemma_put_order_fresh();
    } else {
        lemma_settled(steps, watch, now, n - 1);
        lemma_step(steps, watch, now, n);
    }
}

/// In every run of `put` and `reserve` in which no `put` brings a job of a smaller
/// priority number than a job that was reserved before it, the jobs are reserved in the
/// order of their priority numbers, and jobs of one tube and one priority in the order
/// in which they were put.
pub proof fn lemma_reserved_in_order(steps: Seq<Step>, watch: Seq<Seq<char>>, now: u64)
    requires
        none_undercuts(steps, watch, now),
    ensures
        ({
            let r = play(steps, watch, now, steps.len() as int);
            forall|i: int, j: int|
                #![trigger r.taken[i], r.taken[j]]
                0 <= i < j < r.taken.len() ==> {
                    let a = r.store.jobs[r.taken[i]];
                    let b = r.store.jobs[r.taken[j]];
                    &&& a.pri <= b.pri
                    &&& a.pri == b.pri && a.tube == b.tube ==> r.taken[i] < r.taken[j]
                }
        }),
{
    lemma_settled(steps, watch, now, steps.len() as int);
    let r = play(steps, watch, now, steps.len() as int);
    assert forall|i: int, j: int| 0 <= i < j < r.taken.len() implies ({
        let a = r.store.jobs[#[trigger] r.taken[i]];
        let b = r.store.jobs[#[trigger] r.taken[j]];
        &&& a.pri <= b.pri
        &&& a.pri == b.pri && a.tube == b.tube ==> r.taken[i] < r.taken[j]
    }) by {
        assert(goes_first(r.store, r.taken[i], r.taken[j]));
    }
}

} // verus!
