use beanstalk::connection::{Connection, ReserveCommand};

#[test]
fn a_new_connection_uses_and_watches_default() {
    let conn = Connection::new(9);
    assert_eq!(conn.id(), 9);
    assert_eq!(conn.tube(), "default");
    assert_eq!(conn.get_watched_tubes(), &vec!["default".to_string()]);
    assert!(conn.watches("default"));
    assert!(!conn.is_closing());
}

#[test]
fn watch_adds_once_and_ignore_keeps_the_last() {
    let mut conn = Connection::new(1);
    conn.watch("a".to_string());
    conn.watch("a".to_string());
    conn.watch("default".to_string());
    assert_eq!(conn.get_watched_tubes(), &vec!["default".to_string(), "a".to_string()]);
    assert!(!conn.ignore("b".to_string()));
    assert!(!conn.ignore("default".to_string()));
    assert_eq!(conn.get_watched_tubes(), &vec!["a".to_string()]);
    assert!(!conn.ignore("b".to_string()));
    assert!(conn.ignore("a".to_string()));
    assert_eq!(conn.get_watched_tubes(), &vec!["a".to_string()]);
}

#[test]
fn use_tube_and_quit() {
    let mut conn = Connection::new(1);
    conn.use_tube("t");
    assert_eq!(conn.tube(), "t");
    conn.quit();
    assert!(conn.is_closing());
}

#[test]
fn held_jobs_are_tracked() {
    let mut conn = Connection::new(1);
    conn.add_reserved(1, 60);
    conn.track(ReserveCommand::Reserve { id: 2, ttr: 5 });
    conn.add_reserved(1, 61);
    assert_eq!(conn.held_jobs(), vec![(1, 60), (2, 5), (1, 61)]);
    conn.track(ReserveCommand::Remove { id: 1 });
    assert_eq!(conn.held_jobs(), vec![(2, 5)]);
    conn.remove_reserved(7);
    assert_eq!(conn.held_jobs(), vec![(2, 5)]);
    conn.forget_jobs();
    assert_eq!(conn.held_jobs(), vec![]);
}
