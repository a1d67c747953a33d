use beanstalk::queue::{time_after, Job, Queue};
use beanstalk::store::{JobState, TimerEvent};
use bytes::Bytes;

const S: u64 = 1000;

#[test]
fn tube_ready() {
    let mut queue = Queue::new();
    queue.new_job("default".to_string(), 0, 0, Bytes::new());
    queue.new_job("default".to_string(), 0, 0, Bytes::new());
    queue.new_job("default".to_string(), 0, 10, Bytes::new());
    queue.new_job("default".to_string(), 0, 1, Bytes::new());
    assert_eq!(queue.ready_ids("default"), vec![1, 2, 4, 3]);
}

#[test]
fn smallest_pri() {
    let mut queue = Queue::new();
    queue.new_job("default".to_string(), 0, 100, Bytes::new());
    assert_eq!(queue.smallest_pri("default"), Some(100));
    queue.new_job("default".to_string(), 0, 1000, Bytes::new());
    assert_eq!(queue.smallest_pri("default"), Some(100));
    queue.new_job("default".to_string(), 0, 10, Bytes::new());
    assert_eq!(queue.smallest_pri("default"), Some(10));
    queue.new_job("default".to_string(), 0, 1, Bytes::new());
    assert_eq!(queue.smallest_pri("default"), Some(1));
}

#[test]
fn delay_job() {
    let mut queue = Queue::new();
    let id = queue.new_delayed_job("default".to_string(), 0, 0, 1, Bytes::new(), 100 * S);
    assert_eq!(queue.state_of(id), Some(JobState::Delayed));
    assert_eq!(queue.tick(100 * S), None);
    assert_eq!(queue.state_of(id), Some(JobState::Delayed));
    assert_eq!(queue.tick(101 * S), Some(TimerEvent::Ready { id }));
    assert_eq!(queue.state_of(id), Some(JobState::Ready));
    assert_eq!(queue.tick(101 * S), None);
}

#[test]
fn job_new_counts_zero_ttr_as_one() {
    let job = Job::new(7, 0, 3, Bytes::from_static(b"x"));
    assert_eq!(job, Job { id: 7, ttr: 1, pri: 3, data: Bytes::from_static(b"x") });
    let job = Job::new(7, 60, 3, Bytes::from_static(b"x"));
    assert_eq!(job.ttr, 60);
}

#[test]
fn ids_start_at_one_and_are_not_reused() {
    let mut queue = Queue::new();
    assert_eq!(queue.new_job("default".to_string(), 1, 0, Bytes::new()), 1);
    assert_eq!(queue.new_job("default".to_string(), 1, 0, Bytes::new()), 2);
    assert!(queue.delete_job(2));
    assert_eq!(queue.new_job("default".to_string(), 1, 0, Bytes::new()), 3);
}

#[test]
fn reserve_takes_smallest_priority_then_first_in() {
    let mut queue = Queue::new();
    let watch = vec!["default".to_string()];
    let a = queue.new_job("default".to_string(), 5, 10, Bytes::from_static(b"a"));
    let b = queue.new_job("default".to_string(), 5, 1, Bytes::from_static(b"b"));
    let c = queue.new_job("default".to_string(), 5, 10, Bytes::from_static(b"c"));
    assert_eq!(queue.reserve_job(&watch, 1, 0).map(|j| j.id), Some(b));
    assert_eq!(queue.reserve_job(&watch, 1, 0).map(|j| j.id), Some(a));
    assert_eq!(queue.reserve_job(&watch, 1, 0).map(|j| j.id), Some(c));
    assert_eq!(queue.reserve_job(&watch, 1, 0), None);
    assert_eq!(queue.state_of(a), Some(JobState::Reserved));
}

#[test]
fn reserve_breaks_ties_between_tubes_by_name() {
    let mut queue = Queue::new();
    let watch = vec!["zeta".to_string(), "alpha".to_string(), "alp".to_string()];
    let z = queue.new_job("zeta".to_string(), 5, 3, Bytes::new());
    let a = queue.new_job("alpha".to_string(), 5, 3, Bytes::new());
    let p = queue.new_job("alp".to_string(), 5, 3, Bytes::new());
    let low = queue.new_job("zeta".to_string(), 5, 4, Bytes::new());
    assert_eq!(queue.reserve_job(&watch, 1, 0).map(|j| j.id), Some(p));
    assert_eq!(queue.reserve_job(&watch, 1, 0).map(|j| j.id), Some(a));
    assert_eq!(queue.reserve_job(&watch, 1, 0).map(|j| j.id), Some(z));
    assert_eq!(queue.reserve_job(&watch, 1, 0).map(|j| j.id), Some(low));
}

#[test]
fn reserve_skips_unwatched_and_paused_tubes() {
    let mut queue = Queue::new();
    let id = queue.new_job("t1".to_string(), 5, 0, Bytes::new());
    assert_eq!(queue.reserve_job(&vec!["default".to_string()], 1, 0), None);
    assert!(queue.pause_tube("t1", 10, 100 * S));
    assert!(!queue.pause_tube("nope", 10, 100 * S));
    let watch = vec!["t1".to_string()];
    assert_eq!(queue.reserve_job(&watch, 1, 109 * S), None);
    let late = queue.new_job("t1".to_string(), 5, 0, Bytes::new());
    assert_eq!(queue.ready_ids("t1"), vec![id, late]);
    assert_eq!(queue.reserve_job(&watch, 1, 110 * S).map(|j| j.id), Some(id));
}

#[test]
fn reserve_by_id_takes_from_any_list_but_reserved() {
    let mut queue = Queue::new();
    let r = queue.new_job("default".to_string(), 5, 0, Bytes::from_static(b"r"));
    let d = queue.new_delayed_job("default".to_string(), 5, 0, 9, Bytes::new(), 0);
    assert_eq!(queue.reserve_by_id(r, 1, 0).map(|j| j.data), Some(Bytes::from_static(b"r")));
    assert_eq!(queue.reserve_by_id(r, 2, 0), None);
    assert_eq!(queue.reserve_by_id(d, 2, 0).map(|j| j.id), Some(d));
    assert_eq!(queue.reserve_by_id(99, 2, 0), None);
    assert!(queue.bury(d, 2, 0));
    assert_eq!(queue.reserve_by_id(d, 3, 0).map(|j| j.id), Some(d));
    assert!(queue.holds(d, 3));
}

#[test]
fn release_bury_touch_need_the_holder() {
    let mut queue = Queue::new();
    let watch = vec!["default".to_string()];
    let id = queue.new_job("default".to_string(), 10, 5, Bytes::new());
    assert!(!queue.release(id, 1, 0, 0, 0));
    queue.reserve_job(&watch, 1, 0);
    assert!(!queue.release(id, 2, 0, 0, 0));
    assert!(!queue.bury(id, 2, 0));
    assert!(!queue.touch(id, 2));
    assert!(queue.touch(id, 1));
    assert!(queue.release(id, 1, 7, 0, 0));
    assert_eq!(queue.state_of(id), Some(JobState::Ready));
    assert_eq!(queue.peek(id).map(|j| j.pri), Some(7));
    queue.reserve_job(&watch, 1, 0);
    assert!(queue.release(id, 1, 7, 3, 50 * S));
    assert_eq!(queue.state_of(id), Some(JobState::Delayed));
    assert_eq!(queue.tick(52 * S), None);
    assert_eq!(queue.tick(53 * S), Some(TimerEvent::Ready { id }));
}

#[test]
fn touch_extends_the_deadline_by_the_time_to_run() {
    let mut queue = Queue::new();
    let watch = vec!["default".to_string()];
    let id = queue.new_job("default".to_string(), 10, 0, Bytes::new());
    queue.reserve_job(&watch, 4, 100 * S);
    assert!(queue.touch(id, 4));
    assert_eq!(queue.tick(118 * S), None);
    assert_eq!(queue.tick(119 * S), Some(TimerEvent::DeadlineSoon { id, conn: 4 }));
    assert_eq!(queue.tick(119 * S), None);
    assert_eq!(queue.tick(120 * S), Some(TimerEvent::Expired { id, conn: 4 }));
    assert_eq!(queue.state_of(id), Some(JobState::Ready));
}

#[test]
fn deadline_soon_comes_once_then_the_job_expires() {
    let mut queue = Queue::new();
    let watch = vec!["default".to_string()];
    let id = queue.new_job("default".to_string(), 3, 9, Bytes::new());
    queue.reserve_job(&watch, 7, 10 * S);
    assert_eq!(queue.tick(11 * S), None);
    assert_eq!(queue.tick(12 * S - 1), None);
    assert_eq!(queue.tick(12 * S), Some(TimerEvent::DeadlineSoon { id, conn: 7 }));
    assert_eq!(queue.tick(13 * S - 1), None);
    assert_eq!(queue.tick(12 * S), None);
    assert_eq!(queue.tick(13 * S), Some(TimerEvent::Expired { id, conn: 7 }));
    assert_eq!(queue.tick(13 * S), None);
    assert!(!queue.holds(id, 7));
    assert_eq!(queue.peek(id).map(|j| j.pri), Some(9));
    assert_eq!(queue.ready_ids("default"), vec![id]);
}

#[test]
fn kick_takes_buried_first_then_delayed() {
    let mut queue = Queue::new();
    let watch = vec!["default".to_string()];
    let a = queue.new_job("default".to_string(), 5, 0, Bytes::new());
    let b = queue.new_job("default".to_string(), 5, 0, Bytes::new());
    let d1 = queue.new_delayed_job("default".to_string(), 5, 0, 100, Bytes::new(), 0);
    let d2 = queue.new_delayed_job("default".to_string(), 5, 0, 50, Bytes::new(), 0);
    queue.reserve_job(&watch, 1, 0);
    queue.reserve_job(&watch, 1, 0);
    assert!(queue.bury(b, 1, 2));
    assert!(queue.bury(a, 1, 1));
    assert_eq!(queue.peek_buried("default").map(|j| j.id), Some(b));
    assert_eq!(queue.peek_delayed("default").map(|j| j.id), Some(d2));
    assert_eq!(queue.kick("default", 1), 1);
    assert_eq!(queue.ready_ids("default"), vec![b]);
    assert_eq!(queue.kick("default", 5), 1);
    assert_eq!(queue.ready_ids("default"), vec![a, b]);
    assert_eq!(queue.kick("default", 1), 1);
    assert_eq!(queue.state_of(d1), Some(JobState::Ready));
    assert_eq!(queue.state_of(d2), Some(JobState::Delayed));
    assert_eq!(queue.kick("nope", 5), 0);
    assert!(queue.kick_job(d2));
    assert!(!queue.kick_job(d2));
    assert!(!queue.kick_job(1000));
}

#[test]
fn waiters_are_served_first_come_first() {
    let mut queue = Queue::new();
    queue.park(1, vec!["a".to_string()], None);
    queue.park(2, vec!["b".to_string(), "a".to_string()], Some(20 * S));
    queue.park(3, vec!["a".to_string()], Some(10 * S));
    assert_eq!(queue.serve(0), None);
    let jb = queue.new_job("b".to_string(), 5, 0, Bytes::new());
    assert_eq!(queue.serve(0).map(|(c, j)| (c, j.id)), Some((2, jb)));
    let ja = queue.new_job("a".to_string(), 5, 0, Bytes::new());
    assert_eq!(queue.serve(0).map(|(c, j)| (c, j.id)), Some((1, ja)));
    assert_eq!(queue.serve(0), None);
    assert_eq!(queue.time_out(9 * S), None);
    assert_eq!(queue.time_out(10 * S), Some(3));
    assert_eq!(queue.time_out(10 * S), None);
    queue.park(4, vec!["a".to_string()], None);
    queue.park(5, vec!["a".to_string()], None);
    queue.cancel(4);
    let j = queue.new_job("a".to_string(), 5, 0, Bytes::new());
    assert_eq!(queue.serve(0).map(|(c, j)| (c, j.id)), Some((5, j)));
}

#[test]
fn release_all_gives_back_what_a_connection_holds() {
    let mut queue = Queue::new();
    let watch = vec!["default".to_string()];
    let a = queue.new_job("default".to_string(), 5, 2, Bytes::new());
    let b = queue.new_job("default".to_string(), 5, 1, Bytes::new());
    let c = queue.new_job("default".to_string(), 5, 1, Bytes::new());
    queue.reserve_job(&watch, 1, 0);
    queue.reserve_job(&watch, 2, 0);
    queue.reserve_job(&watch, 1, 0);
    queue.release_all(1);
    assert_eq!(queue.ready_ids("default"), vec![b, a]);
    assert!(queue.holds(c, 2));
}

#[test]
fn tubes_are_listed_in_the_order_they_were_made() {
    let mut queue = Queue::new();
    queue.retain("b");
    queue.retain("a");
    queue.retain("b");
    queue.new_tube("c");
    assert_eq!(queue.tube_names(), vec!["default", "b", "a"]);
    queue.queue_job("a".to_string(), 1);
    assert_eq!(queue.tube_counts("a"), Some((0, 0, 0)));
    assert_eq!(queue.tube_counts("c"), None);
    assert_eq!(queue.tube_counts("d"), None);
    queue.release_ref("b");
    assert_eq!(queue.tube_names(), vec!["default", "b", "a"]);
    queue.release_ref("b");
    queue.release_ref("b");
    queue.release_ref("nope");
    assert_eq!(queue.tube_names(), vec!["default", "a"]);
    queue.new_job("c".to_string(), 1, 1, Bytes::new());
    assert_eq!(queue.tube_names(), vec!["default", "a", "c"]);
    assert_eq!(queue.tube_counts("c"), Some((1, 0, 0)));
}

#[test]
fn queue_job_readies_a_job_of_the_named_tube() {
    let mut queue = Queue::new();
    let d = queue.new_delayed_job("t".to_string(), 5, 0, 100, Bytes::new(), 0);
    queue.queue_job("default".to_string(), d);
    assert_eq!(queue.state_of(d), Some(JobState::Delayed));
    queue.queue_job("t".to_string(), d);
    assert_eq!(queue.state_of(d), Some(JobState::Ready));
    assert_eq!(queue.ready_ids("t"), vec![d]);
}

#[test]
fn a_job_is_in_one_place_at_a_time() {
    let mut queue = Queue::new();
    let watch = vec!["default".to_string()];
    let id = queue.new_job("default".to_string(), 5, 1, Bytes::new());
    let places = |q: &Queue| {
        let (ready, delayed, buried) = q.tube_counts("default").unwrap();
        (ready, delayed, buried, q.holds(id, 1))
    };
    assert_eq!(places(&queue), (1, 0, 0, false));
    queue.reserve_job(&watch, 1, 0);
    assert_eq!(places(&queue), (0, 0, 0, true));
    assert!(queue.bury(id, 1, 1));
    assert_eq!(places(&queue), (0, 0, 1, false));
    assert!(queue.kick_job(id));
    assert_eq!(places(&queue), (1, 0, 0, false));
    queue.reserve_job(&watch, 1, 0);
    assert!(queue.release(id, 1, 1, 5, 0));
    assert_eq!(places(&queue), (0, 1, 0, false));
    assert_eq!(queue.tick(5 * S), Some(TimerEvent::Ready { id }));
    assert_eq!(places(&queue), (1, 0, 0, false));
    assert!(queue.delete_job(id));
    assert_eq!(places(&queue), (0, 0, 0, false));
    assert_eq!(queue.state_of(id), None);
}

#[test]
fn time_after_stops_at_the_last_moment() {
    assert_eq!(time_after(10, 5), 5010);
    assert_eq!(time_after(u64::MAX - 5000, 5), u64::MAX);
    assert_eq!(time_after(u64::MAX - 4999, 5), u64::MAX);
    assert_eq!(time_after(u64::MAX - 5001, 5), u64::MAX - 1);
    assert_eq!(time_after(u64::MAX, 0), u64::MAX);
}
