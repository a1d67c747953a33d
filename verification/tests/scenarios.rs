use beanstalk::codec::{BeanstalkCodec, Data};
use beanstalk::connection::Connection;
use beanstalk::driver::Event;
use beanstalk::queue::Queue;
use beanstalk::store::TimerEvent;
use bytes::BytesMut;

const S: u64 = 1000;

fn wire(conn: &Connection, frame: Vec<Data>) -> String {
    let frame = match conn.send_frame(frame) {
        Some(frame) => frame,
        None => return String::new(),
    };
    let mut codec = BeanstalkCodec::new();
    let mut out = BytesMut::new();
    codec.encode(frame, &mut out).unwrap();
    String::from_utf8(out.to_vec()).unwrap()
}

fn talk(conn: &mut Connection, queue: &mut Queue, input: &str, now: u64) -> String {
    let mut codec = BeanstalkCodec::new();
    let mut buf = BytesMut::from(input);
    let frame = match codec.decode(&mut buf) {
        Ok(Some(frame)) => Ok(frame),
        Ok(None) => panic!("incomplete"),
        Err(e) => Err(e),
    };
    let reply = conn.run(queue, Event::Frame(frame), now);
    wire(conn, reply)
}

fn deliver(conn: &mut Connection, queue: &mut Queue, now: u64) -> String {
    match queue.serve(now) {
        Some((to, job)) => {
            assert_eq!(to, conn.id());
            let reply = conn.run(queue, Event::Job(Some((job.id, job.ttr, job.data))), now);
            wire(conn, reply)
        }
        None => String::new(),
    }
}

fn give_up(conn: &mut Connection, queue: &mut Queue, now: u64) -> String {
    match queue.time_out(now) {
        Some(to) => {
            assert_eq!(to, conn.id());
            let reply = conn.run(queue, Event::Job(None), now);
            wire(conn, reply)
        }
        None => String::new(),
    }
}

#[test]
fn put_then_reserve_on_default_tube() {
    let mut queue = Queue::new();
    let mut conn = Connection::new(1);
    assert_eq!(talk(&mut conn, &mut queue, "put 1 0 60 5\r\nhello\r\n", 0), "INSERTED 1\r\n");
    assert_eq!(talk(&mut conn, &mut queue, "reserve\r\n", 0), "RESERVED 1 5\r\nhello\r\n");
}

#[test]
fn priority_ordering() {
    let mut queue = Queue::new();
    let mut a = Connection::new(1);
    let mut b = Connection::new(2);
    assert_eq!(talk(&mut a, &mut queue, "put 10 0 60 1\r\na\r\n", 0), "INSERTED 1\r\n");
    assert_eq!(talk(&mut a, &mut queue, "put 1 0 60 1\r\nb\r\n", 0), "INSERTED 2\r\n");
    assert_eq!(talk(&mut a, &mut queue, "put 5 0 60 1\r\nc\r\n", 0), "INSERTED 3\r\n");
    assert_eq!(talk(&mut b, &mut queue, "reserve\r\n", 0), "RESERVED 2 1\r\nb\r\n");
    assert_eq!(talk(&mut b, &mut queue, "reserve\r\n", 0), "RESERVED 3 1\r\nc\r\n");
    assert_eq!(talk(&mut b, &mut queue, "reserve\r\n", 0), "RESERVED 1 1\r\na\r\n");
}

#[test]
fn delay_promotion() {
    let mut queue = Queue::new();
    let mut conn = Connection::new(1);
    assert_eq!(talk(&mut conn, &mut queue, "put 0 2 60 1\r\nx\r\n", 0), "INSERTED 1\r\n");
    assert_eq!(talk(&mut conn, &mut queue, "reserve-with-timeout 1\r\n", 0), "");
    assert_eq!(give_up(&mut conn, &mut queue, 0), "");
    assert_eq!(queue.tick(1 * S), None);
    assert_eq!(deliver(&mut conn, &mut queue, 1 * S), "");
    assert_eq!(give_up(&mut conn, &mut queue, 1 * S), "TIMED_OUT\r\n");
    assert_eq!(talk(&mut conn, &mut queue, "reserve-with-timeout 5\r\n", 1 * S), "");
    assert_eq!(queue.tick(2 * S), Some(TimerEvent::Ready { id: 1 }));
    assert_eq!(deliver(&mut conn, &mut queue, 2 * S), "RESERVED 1 1\r\nx\r\n");
    assert_eq!(give_up(&mut conn, &mut queue, 100 * S), "");
}

#[test]
fn watch_set() {
    let mut queue = Queue::new();
    let mut a = Connection::new(1);
    let mut b = Connection::new(2);
    assert_eq!(talk(&mut a, &mut queue, "use t1\r\n", 0), "USING t1\r\n");
    assert_eq!(talk(&mut a, &mut queue, "put 1 0 60 1\r\ny\r\n", 0), "INSERTED 1\r\n");
    assert_eq!(talk(&mut b, &mut queue, "reserve-with-timeout 1\r\n", 0), "");
    assert_eq!(deliver(&mut b, &mut queue, 0), "");
    assert_eq!(give_up(&mut b, &mut queue, 1 * S), "TIMED_OUT\r\n");
    assert_eq!(talk(&mut b, &mut queue, "watch t1\r\n", 1 * S), "WATCHING 2\r\n");
    assert_eq!(talk(&mut b, &mut queue, "reserve\r\n", 1 * S), "RESERVED 1 1\r\ny\r\n");
}

#[test]
fn ttr_release() {
    let mut queue = Queue::new();
    let mut a = Connection::new(1);
    let mut b = Connection::new(2);
    assert_eq!(talk(&mut a, &mut queue, "put 3 0 1 1\r\nz\r\n", 0), "INSERTED 1\r\n");
    assert_eq!(talk(&mut a, &mut queue, "reserve\r\n", 0), "RESERVED 1 1\r\nz\r\n");
    assert_eq!(talk(&mut b, &mut queue, "reserve-with-timeout 0\r\n", 0), "TIMED_OUT\r\n");
    let soon = queue.tick(0).unwrap();
    assert_eq!(soon, TimerEvent::DeadlineSoon { id: 1, conn: 1 });
    let reply = b.run(&mut queue, Event::Timer(soon), 0);
    assert_eq!(wire(&b, reply), "");
    let reply = a.run(&mut queue, Event::Timer(soon), 0);
    assert_eq!(wire(&a, reply), "DEADLINE_SOON\r\n");
    assert_eq!(queue.tick(0), None);
    let over = queue.tick(2 * S).unwrap();
    assert_eq!(over, TimerEvent::Expired { id: 1, conn: 1 });
    assert_eq!(a.held_jobs(), vec![(1, 1)]);
    let reply = a.handle_timer(over);
    assert_eq!(wire(&a, reply), "");
    assert_eq!(a.held_jobs(), vec![]);
    assert_eq!(talk(&mut b, &mut queue, "reserve\r\n", 2 * S), "RESERVED 1 1\r\nz\r\n");
    assert_eq!(talk(&mut a, &mut queue, "delete 1\r\n", 2 * S), "NOT_FOUND\r\n");
    assert_eq!(talk(&mut a, &mut queue, "touch 1\r\n", 2 * S), "NOT_FOUND\r\n");
    assert_eq!(talk(&mut b, &mut queue, "delete 1\r\n", 2 * S), "DELETED\r\n");
}

#[test]
fn bad_framing() {
    let mut queue = Queue::new();
    let mut conn = Connection::new(1);
    assert_eq!(talk(&mut conn, &mut queue, "put 1 0 60 1\r\nyy", 0), "EXPECTED_CRLF\r\n");
    assert!(!conn.is_closing());
    assert_eq!(talk(&mut conn, &mut queue, "put 1 0 60 1\r\ny\r\n", 0), "INSERTED 1\r\n");
}

#[test]
fn bad_format_of_the_stream_closes_and_of_a_command_does_not() {
    let mut queue = Queue::new();
    let mut conn = Connection::new(1);
    assert_eq!(talk(&mut conn, &mut queue, "frobnicate\r\n", 0), "BAD_FORMAT\r\n");
    assert_eq!(talk(&mut conn, &mut queue, "delete\r\n", 0), "BAD_FORMAT\r\n");
    assert_eq!(talk(&mut conn, &mut queue, "delete 1 2\r\n", 0), "BAD_FORMAT\r\n");
    assert!(!conn.is_closing());
    assert_eq!(talk(&mut conn, &mut queue, "use a^b\r\n", 0), "BAD_FORMAT\r\n");
    assert!(conn.is_closing());
}

#[test]
fn ignore_keeps_the_last_watched_tube() {
    let mut queue = Queue::new();
    let mut conn = Connection::new(1);
    assert_eq!(talk(&mut conn, &mut queue, "ignore default\r\n", 0), "NOT_IGNORED\r\n");
    assert_eq!(talk(&mut conn, &mut queue, "ignore other\r\n", 0), "WATCHING 1\r\n");
    assert_eq!(talk(&mut conn, &mut queue, "watch t\r\n", 0), "WATCHING 2\r\n");
    assert_eq!(talk(&mut conn, &mut queue, "watch t\r\n", 0), "WATCHING 2\r\n");
    assert_eq!(talk(&mut conn, &mut queue, "ignore default\r\n", 0), "WATCHING 1\r\n");
    assert_eq!(talk(&mut conn, &mut queue, "ignore t\r\n", 0), "NOT_IGNORED\r\n");
    assert_eq!(
        talk(&mut conn, &mut queue, "list-tubes-watched\r\n", 0),
        "OK 8\r\n---\n- t\n\r\n"
    );
}

#[test]
fn after_delete_the_job_is_not_found() {
    let mut queue = Queue::new();
    let mut conn = Connection::new(1);
    talk(&mut conn, &mut queue, "put 1 0 60 1\r\ny\r\n", 0);
    talk(&mut conn, &mut queue, "reserve\r\n", 0);
    assert_eq!(talk(&mut conn, &mut queue, "delete 1\r\n", 0), "DELETED\r\n");
    assert_eq!(talk(&mut conn, &mut queue, "delete 1\r\n", 0), "NOT_FOUND\r\n");
    assert_eq!(talk(&mut conn, &mut queue, "release 1 0 0\r\n", 0), "NOT_FOUND\r\n");
    assert_eq!(talk(&mut conn, &mut queue, "touch 1\r\n", 0), "NOT_FOUND\r\n");
    assert_eq!(talk(&mut conn, &mut queue, "put 1 0 60 1\r\ny\r\n", 0), "INSERTED 2\r\n");
    assert_eq!(talk(&mut conn, &mut queue, "peek 1\r\n", 0), "NOT_FOUND\r\n");
}

#[test]
fn a_job_held_by_another_connection_is_not_found() {
    let mut queue = Queue::new();
    let mut a = Connection::new(1);
    let mut b = Connection::new(2);
    talk(&mut a, &mut queue, "put 1 0 60 1\r\ny\r\n", 0);
    talk(&mut a, &mut queue, "reserve\r\n", 0);
    assert_eq!(talk(&mut b, &mut queue, "delete 1\r\n", 0), "NOT_FOUND\r\n");
    assert_eq!(talk(&mut b, &mut queue, "release 1 0 0\r\n", 0), "NOT_FOUND\r\n");
    assert_eq!(talk(&mut b, &mut queue, "bury 1 0\r\n", 0), "NOT_FOUND\r\n");
    assert_eq!(talk(&mut b, &mut queue, "touch 1\r\n", 0), "NOT_FOUND\r\n");
    assert_eq!(talk(&mut b, &mut queue, "reserve-job 1\r\n", 0), "NOT_FOUND\r\n");
    assert_eq!(talk(&mut a, &mut queue, "touch 1\r\n", 0), "TOUCHED\r\n");
    assert_eq!(talk(&mut a, &mut queue, "bury 1 4\r\n", 0), "BURIED\r\n");
    assert_eq!(talk(&mut b, &mut queue, "peek-buried\r\n", 0), "FOUND 1 1\r\ny\r\n");
    assert_eq!(talk(&mut b, &mut queue, "kick 10\r\n", 0), "KICKED 1\r\n");
    assert_eq!(talk(&mut b, &mut queue, "peek-ready\r\n", 0), "FOUND 1 1\r\ny\r\n");
    assert_eq!(talk(&mut b, &mut queue, "reserve-job 1\r\n", 0), "RESERVED 1 1\r\ny\r\n");
    assert_eq!(talk(&mut b, &mut queue, "release 1 2 9\r\n", 0), "RELEASED\r\n");
    assert_eq!(talk(&mut b, &mut queue, "peek-delayed\r\n", 0), "FOUND 1 1\r\ny\r\n");
    assert_eq!(talk(&mut b, &mut queue, "kick-job 1\r\n", 0), "KICKED\r\n");
    assert_eq!(talk(&mut b, &mut queue, "kick-job 1\r\n", 0), "NOT_FOUND\r\n");
}

#[test]
fn reserve_with_timeout_zero_answers_at_once() {
    let mut queue = Queue::new();
    let mut conn = Connection::new(1);
    assert_eq!(talk(&mut conn, &mut queue, "reserve-with-timeout 0\r\n", 0), "TIMED_OUT\r\n");
    assert_eq!(queue.counts().1, 0);
    talk(&mut conn, &mut queue, "put 1 0 60 1\r\ny\r\n", 0);
    assert_eq!(
        talk(&mut conn, &mut queue, "reserve-with-timeout 0\r\n", 0),
        "RESERVED 1 1\r\ny\r\n"
    );
    talk(&mut conn, &mut queue, "put 1 0 60 1\r\ny\r\n", 0);
    assert_eq!(talk(&mut conn, &mut queue, "pause-tube default 5\r\n", 10 * S), "PAUSED\r\n");
    assert_eq!(talk(&mut conn, &mut queue, "reserve-with-timeout 0\r\n", 14 * S), "TIMED_OUT\r\n");
    assert_eq!(
        talk(&mut conn, &mut queue, "reserve-with-timeout 0\r\n", 15 * S),
        "RESERVED 2 1\r\ny\r\n"
    );
    assert_eq!(talk(&mut conn, &mut queue, "pause-tube nope 5\r\n", 10 * S), "NOT_FOUND\r\n");
}

#[test]
fn lists_and_stats() {
    let mut queue = Queue::new();
    let mut conn = Connection::new(1);
    assert_eq!(talk(&mut conn, &mut queue, "list-tube-used\r\n", 0), "USING default\r\n");
    talk(&mut conn, &mut queue, "use jobs\r\n", 0);
    assert_eq!(talk(&mut conn, &mut queue, "list-tube-used\r\n", 0), "USING jobs\r\n");
    assert_eq!(
        talk(&mut conn, &mut queue, "list-tubes\r\n", 0),
        "OK 21\r\n---\n- default\n- jobs\n\r\n"
    );
    talk(&mut conn, &mut queue, "put 7 0 0 1\r\ny\r\n", 0);
    assert_eq!(
        talk(&mut conn, &mut queue, "stats-job 1\r\n", 0),
        "OK 48\r\n---\nid: 1\ntube: jobs\nstate: ready\npri: 7\nttr: 1\n\r\n"
    );
    assert_eq!(talk(&mut conn, &mut queue, "stats-job 2\r\n", 0), "NOT_FOUND\r\n");
    assert_eq!(
        talk(&mut conn, &mut queue, "stats-tube jobs\r\n", 0),
        "OK 84\r\n---\nname: jobs\ncurrent-jobs-ready: 1\ncurrent-jobs-delayed: 0\ncurrent-jobs-buried: 0\n\r\n"
    );
    assert_eq!(talk(&mut conn, &mut queue, "stats-tube nope\r\n", 0), "NOT_FOUND\r\n");
    assert_eq!(
        talk(&mut conn, &mut queue, "stats\r\n", 0),
        "OK 54\r\n---\ncurrent-tubes: 2\ntotal-jobs: 1\ncurrent-waiting: 0\n\r\n"
    );
}

#[test]
fn draining_turns_put_away() {
    let mut queue = Queue::new();
    let mut conn = Connection::new(1);
    queue.set_draining(true);
    assert_eq!(talk(&mut conn, &mut queue, "put 1 0 60 1\r\ny\r\n", 0), "DRAINING\r\n");
    queue.set_draining(false);
    assert_eq!(talk(&mut conn, &mut queue, "put 1 0 60 1\r\ny\r\n", 0), "INSERTED 1\r\n");
}

#[test]
fn quit_and_disconnect() {
    let mut queue = Queue::new();
    let mut a = Connection::new(1);
    let mut b = Connection::new(2);
    talk(&mut a, &mut queue, "put 4 0 60 1\r\ny\r\n", 0);
    talk(&mut a, &mut queue, "reserve\r\n", 0);
    talk(&mut b, &mut queue, "reserve\r\n", 0);
    assert_eq!(queue.counts().1, 1);
    assert_eq!(talk(&mut b, &mut queue, "quit\r\n", 0), "");
    assert!(b.is_closing());
    b.disconnect(&mut queue);
    assert_eq!(queue.counts().1, 0);
    a.disconnect(&mut queue);
    assert!(a.is_closing());
    assert!(!queue.holds(1, 1));
    assert_eq!(queue.ready_ids("default"), vec![1]);
    assert_eq!(queue.peek(1).map(|j| j.pri), Some(4));
}

#[test]
fn a_tube_lasts_while_it_is_used_watched_or_holds_a_job() {
    let mut queue = Queue::new();
    let mut a = Connection::new(1);
    let mut b = Connection::new(2);
    assert_eq!(talk(&mut a, &mut queue, "use t\r\n", 0), "USING t\r\n");
    assert_eq!(talk(&mut b, &mut queue, "watch t\r\n", 0), "WATCHING 2\r\n");
    assert_eq!(queue.tube_names(), vec!["default", "t"]);
    assert_eq!(talk(&mut a, &mut queue, "use default\r\n", 0), "USING default\r\n");
    assert_eq!(queue.tube_names(), vec!["default", "t"]);
    assert_eq!(talk(&mut b, &mut queue, "ignore t\r\n", 0), "WATCHING 1\r\n");
    assert_eq!(queue.tube_names(), vec!["default"]);
    assert_eq!(talk(&mut a, &mut queue, "stats-tube t\r\n", 0), "NOT_FOUND\r\n");
    assert_eq!(talk(&mut a, &mut queue, "pause-tube t 1\r\n", 0), "NOT_FOUND\r\n");
    talk(&mut a, &mut queue, "use t\r\n", 0);
    talk(&mut a, &mut queue, "put 1 0 60 1\r\ny\r\n", 0);
    talk(&mut a, &mut queue, "use default\r\n", 0);
    assert_eq!(queue.tube_names(), vec!["default", "t"]);
    talk(&mut a, &mut queue, "reserve-job 1\r\n", 0);
    assert_eq!(queue.tube_names(), vec!["default", "t"]);
    talk(&mut a, &mut queue, "delete 1\r\n", 0);
    assert_eq!(queue.tube_names(), vec!["default"]);
    talk(&mut b, &mut queue, "watch w\r\n", 0);
    talk(&mut b, &mut queue, "use u\r\n", 0);
    assert_eq!(queue.tube_names(), vec!["default", "w", "u"]);
    b.disconnect(&mut queue);
    assert_eq!(queue.tube_names(), vec!["default"]);
}

#[test]
fn a_tube_name_has_at_most_200_characters() {
    let mut queue = Queue::new();
    let mut conn = Connection::new(1);
    let long = "a".repeat(201);
    let longest = "a".repeat(200);
    assert_eq!(talk(&mut conn, &mut queue, &format!("use {}\r\n", long), 0), "BAD_FORMAT\r\n");
    assert_eq!(talk(&mut conn, &mut queue, &format!("watch {}\r\n", long), 0), "BAD_FORMAT\r\n");
    assert_eq!(talk(&mut conn, &mut queue, &format!("ignore {}\r\n", long), 0), "BAD_FORMAT\r\n");
    assert_eq!(
        talk(&mut conn, &mut queue, &format!("stats-tube {}\r\n", long), 0),
        "BAD_FORMAT\r\n"
    );
    assert_eq!(
        talk(&mut conn, &mut queue, &format!("pause-tube {} 1\r\n", long), 0),
        "BAD_FORMAT\r\n"
    );
    assert!(!conn.is_closing());
    assert_eq!(queue.tube_names(), vec!["default"]);
    assert_eq!(
        talk(&mut conn, &mut queue, &format!("use {}\r\n", longest), 0),
        format!("USING {}\r\n", longest)
    );
}

#[test]
fn a_connection_that_waits_reads_no_command() {
    let mut queue = Queue::new();
    let mut conn = Connection::new(1);
    assert!(conn.wants_input());
    assert_eq!(talk(&mut conn, &mut queue, "reserve-with-timeout 3\r\n", 0), "");
    assert!(!conn.wants_input());
    assert_eq!(give_up(&mut conn, &mut queue, 3 * S), "TIMED_OUT\r\n");
    assert!(conn.wants_input());
    assert_eq!(talk(&mut conn, &mut queue, "reserve\r\n", 0), "");
    assert!(!conn.wants_input());
    let mut other = Connection::new(2);
    talk(&mut other, &mut queue, "put 1 0 60 1\r\ny\r\n", 0);
    assert_eq!(deliver(&mut conn, &mut queue, 0), "RESERVED 1 1\r\ny\r\n");
    assert!(conn.wants_input());
    assert_eq!(talk(&mut conn, &mut queue, "quit\r\n", 0), "");
    assert!(!conn.wants_input());
    assert_eq!(conn.send_frame(vec![]), None);
    assert_eq!(conn.send_frame(vec![Data::Crlf]), Some(vec![Data::Crlf]));
}
