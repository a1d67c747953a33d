use beanstalk::cmd::{parse, Cmd};
use beanstalk::codec::Data;
use beanstalk::error::Error;
use bytes::Bytes;

#[test]
fn cmd_parse() {
    let data = vec![
        Data::String("put".into()),
        Data::Integer(1),
        Data::Integer(2),
        Data::Integer(3),
        Data::Integer(4),
        Data::Bytes(Bytes::from_static(b"hello")),
    ];
    assert_eq!(
        parse(data).unwrap(),
        Cmd::Put {
            pri: 1,
            delay: 2,
            ttr: 3,
            bytes: 4,
            data: Bytes::from_static(b"hello")
        }
    );
}

#[test]
fn mod_parse() {
    let data = vec![
        Data::String("put".into()),
        Data::Integer(1),
        Data::Integer(2),
        Data::Integer(3),
        Data::Integer(4),
        Data::Bytes(Bytes::from_static(b"hello")),
    ];
    assert_eq!(
        parse(data).unwrap(),
        Cmd::Put {
            pri: 1,
            delay: 2,
            ttr: 3,
            bytes: 4,
            data: Bytes::from_static(b"hello")
        }
    );
}

fn name(s: &str) -> Data {
    Data::String(s.to_string())
}

#[test]
fn every_verb_is_read() {
    assert_eq!(parse(vec![name("use"), name("t")]), Ok(Cmd::Use { tube: "t".into() }));
    assert_eq!(parse(vec![name("reserve")]), Ok(Cmd::Reserve));
    assert_eq!(
        parse(vec![name("reserve-with-timeout"), Data::Integer(5)]),
        Ok(Cmd::ReserveWithTimeout { seconds: 5 })
    );
    assert_eq!(parse(vec![name("reserve-job"), Data::Integer(5)]), Ok(Cmd::ReserveJob { id: 5 }));
    assert_eq!(parse(vec![name("delete"), Data::Integer(5)]), Ok(Cmd::Delete { id: 5 }));
    assert_eq!(
        parse(vec![name("release"), Data::Integer(5), Data::Integer(6), Data::Integer(7)]),
        Ok(Cmd::Release { id: 5, pri: 6, delay: 7 })
    );
    assert_eq!(
        parse(vec![name("bury"), Data::Integer(5), Data::Integer(6)]),
        Ok(Cmd::Bury { id: 5, pri: 6 })
    );
    assert_eq!(parse(vec![name("touch"), Data::Integer(5)]), Ok(Cmd::Touch { id: 5 }));
    assert_eq!(parse(vec![name("watch"), name("t")]), Ok(Cmd::Watch { tube: "t".into() }));
    assert_eq!(parse(vec![name("ignore"), name("t")]), Ok(Cmd::Ignore { tube: "t".into() }));
    assert_eq!(parse(vec![name("peek"), Data::Integer(5)]), Ok(Cmd::Peek { id: 5 }));
    assert_eq!(parse(vec![name("peek-ready")]), Ok(Cmd::PeekReady));
    assert_eq!(parse(vec![name("peek-delayed")]), Ok(Cmd::PeekDelayed));
    assert_eq!(parse(vec![name("peek-buried")]), Ok(Cmd::PeekBuried));
    assert_eq!(parse(vec![name("kick"), Data::Integer(5)]), Ok(Cmd::Kick { bound: 5 }));
    assert_eq!(parse(vec![name("kick-job"), Data::Integer(5)]), Ok(Cmd::KickJob { id: 5 }));
    assert_eq!(parse(vec![name("stats-job"), Data::Integer(5)]), Ok(Cmd::StatsJob { id: 5 }));
    assert_eq!(
        parse(vec![name("stats-tube"), name("t")]),
        Ok(Cmd::StatsTube { tube: "t".into() })
    );
    assert_eq!(parse(vec![name("stats")]), Ok(Cmd::Stats));
    assert_eq!(parse(vec![name("list-tubes")]), Ok(Cmd::ListTubes));
    assert_eq!(parse(vec![name("list-tube-used")]), Ok(Cmd::ListTubeUsed));
    assert_eq!(parse(vec![name("list-tubes-watched")]), Ok(Cmd::ListTubesWatched));
    assert_eq!(parse(vec![name("quit")]), Ok(Cmd::Quit));
    assert_eq!(
        parse(vec![name("pause-tube"), name("t"), Data::Integer(9)]),
        Ok(Cmd::PauseTube { tube_name: "t".into(), delay: 9 })
    );
}

#[test]
fn what_is_no_command_is_bad_format() {
    assert_eq!(parse(vec![]), Err(Error::BadFormat));
    assert_eq!(parse(vec![Data::Integer(1)]), Err(Error::BadFormat));
    assert_eq!(parse(vec![name("reserve_with_timeout"), Data::Integer(1)]), Err(Error::BadFormat));
    assert_eq!(parse(vec![name("PUT")]), Err(Error::BadFormat));
    assert_eq!(parse(vec![name("use")]), Err(Error::BadFormat));
    assert_eq!(parse(vec![name("use"), Data::Integer(1)]), Err(Error::BadFormat));
    assert_eq!(parse(vec![name("use"), name("a"), name("b")]), Err(Error::BadFormat));
    assert_eq!(parse(vec![name("quit"), Data::Crlf]), Err(Error::BadFormat));
    assert_eq!(
        parse(vec![
            name("put"),
            Data::Integer(1),
            Data::Integer(2),
            Data::Integer(3),
            Data::Integer(4)
        ]),
        Err(Error::BadFormat)
    );
    assert_eq!(
        parse(vec![name("delete"), Data::Bytes(Bytes::from_static(b"1"))]),
        Err(Error::BadFormat)
    );
}
