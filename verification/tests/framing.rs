use beanstalk::codec::{read_frame, BeanstalkCodec, Data, MAX_LINE, MAX_NAME};
use beanstalk::error::Error;
use beanstalk::parser::Parser;
use bytes::{Bytes, BytesMut};

fn name(s: &str) -> Data {
    Data::String(s.to_string())
}

fn encode(frame: Vec<Data>) -> Vec<u8> {
    let mut out = BytesMut::from("x");
    BeanstalkCodec::new().encode(frame, &mut out).unwrap();
    out.to_vec()
}

#[test]
fn encodes_with_spaces_but_none_beside_a_line_end() {
    assert_eq!(encode(vec![]), b"x\r\n");
    assert_eq!(encode(vec![name("INSERTED"), Data::Integer(12)]), b"xINSERTED 12\r\n");
    assert_eq!(
        encode(vec![
            name("RESERVED"),
            Data::Integer(1),
            Data::Integer(5),
            Data::Crlf,
            Data::Bytes(Bytes::from_static(b"he lo"))
        ]),
        b"xRESERVED 1 5\r\nhe lo\r\n"
    );
    assert_eq!(
        encode(vec![name("a"), Data::Bytes(Bytes::from_static(b"b")), Data::Integer(0)]),
        b"xa b 0\r\n"
    );
    assert_eq!(encode(vec![Data::Crlf, Data::Crlf]), b"x\r\n\r\n\r\n");
    assert_eq!(encode(vec![Data::Integer(4294967295)]), b"x4294967295\r\n");
}

#[test]
fn what_is_written_for_a_request_reads_back() {
    let frames = vec![
        vec![name("use"), name("default+$23")],
        vec![name("release"), Data::Integer(1), Data::Integer(0), Data::Integer(4294967295)],
        vec![name("quit")],
    ];
    for frame in frames {
        let mut buf = BytesMut::new();
        let mut codec = BeanstalkCodec::new();
        codec.encode(frame.clone(), &mut buf).unwrap();
        assert_eq!(codec.decode(&mut buf), Ok(Some(frame)));
        assert!(buf.is_empty());
    }
    let mut buf = BytesMut::new();
    let mut codec = BeanstalkCodec::new();
    let body = Data::Bytes(Bytes::from_static(b"a\r\nb "));
    let put = vec![
        name("put"),
        Data::Integer(1),
        Data::Integer(2),
        Data::Integer(3),
        Data::Integer(5),
    ];
    let mut sent = put.clone();
    sent.push(Data::Crlf);
    sent.push(body.clone());
    codec.encode(sent, &mut buf).unwrap();
    let mut read = put;
    read.push(body);
    assert_eq!(codec.decode(&mut buf), Ok(Some(read)));
    assert!(buf.is_empty());
}

#[test]
fn a_response_with_a_body_does_not_read_back() {
    let mut buf = BytesMut::new();
    let mut codec = BeanstalkCodec::new();
    let frame = vec![
        name("OK"),
        Data::Integer(1),
        Data::Crlf,
        Data::Bytes(Bytes::from_static(b"x")),
    ];
    codec.encode(frame, &mut buf).unwrap();
    assert_eq!(codec.decode(&mut buf), Ok(Some(vec![name("OK"), Data::Integer(1)])));
    assert_eq!(&buf[..], b"x\r\n");
}

#[test]
fn partial_reads_wait_and_leave_the_buffer() {
    let mut codec = BeanstalkCodec::new();
    for part in ["", "p", "put", "put ", "put 1 0 60 5", "put 1 0 60 5\r", "put 1 0 60 5\r\n",
        "put 1 0 60 5\r\nhell"]
    {
        let mut buf = BytesMut::from(part);
        assert_eq!(codec.decode(&mut buf), Ok(None), "{:?}", part);
        assert_eq!(&buf[..], part.as_bytes());
    }
    let mut buf = BytesMut::from("put 1 0 60 5\r\nhello");
    assert_eq!(codec.decode(&mut buf), Err(Error::ExpectedCrlf));
    let mut buf = BytesMut::from("put 1 0 60 5\r\nhello\r");
    assert_eq!(codec.decode(&mut buf), Err(Error::ExpectedCrlf));
    assert_eq!(&buf[..], b"put 1 0 60 5\r\nhello\r");
    let mut buf = BytesMut::from("put 1 0 60 0\r\n\r\n");
    assert_eq!(
        codec.decode(&mut buf).unwrap().unwrap().last(),
        Some(&Data::Bytes(Bytes::new()))
    );
}

#[test]
fn only_the_frame_is_taken_out_of_the_buffer() {
    let mut codec = BeanstalkCodec::new();
    let mut buf = BytesMut::from("delete 7\r\nput 1 0 60 2\r\nhi\r\nres");
    assert_eq!(codec.decode(&mut buf), Ok(Some(vec![name("delete"), Data::Integer(7)])));
    assert_eq!(&buf[..], b"put 1 0 60 2\r\nhi\r\nres");
    assert!(codec.decode(&mut buf).unwrap().is_some());
    assert_eq!(&buf[..], b"res");
    assert_eq!(codec.decode(&mut buf), Ok(None));
}

#[test]
fn only_put_has_a_body_and_a_size_limit() {
    let mut codec = BeanstalkCodec::new();
    let mut buf = BytesMut::from("delete 70000\r\nxyz");
    assert_eq!(codec.decode(&mut buf), Ok(Some(vec![name("delete"), Data::Integer(70000)])));
    assert_eq!(&buf[..], b"xyz");
    let mut small = BeanstalkCodec::with_max_job_size(3);
    assert_eq!(small.max_job_size(), 3);
    assert_eq!(small.decode(&mut BytesMut::from("put 1 1 1 4\r\n")), Err(Error::JobTooBig));
    assert!(small.decode(&mut BytesMut::from("put 1 1 1 3\r\nabc\r\n")).unwrap().is_some());
}

#[test]
fn malformed_lines() {
    let mut codec = BeanstalkCodec::new();
    for bad in ["\r\n", " put\r\n", "put  1\r\n", "put\t1\r\n", "put\n", "put\rx", "put 1x\r\n",
        "put ^\r\n", "put -a\r\n", "put 1 \r\n"]
    {
        assert_eq!(codec.decode(&mut BytesMut::from(bad)), Err(Error::BadFormat), "{:?}", bad);
    }
    assert_eq!(
        codec.decode(&mut BytesMut::from(&b"put 1\xff\r\n"[..])),
        Err(Error::InternalError)
    );
    assert!(codec.decode(&mut BytesMut::from("a-b 01\r\n")).unwrap().is_some());
}

#[test]
fn length_limits() {
    let mut codec = BeanstalkCodec::new();
    let longest = "a".repeat(MAX_NAME);
    let line = format!("use {}\r\n", longest);
    assert_eq!(
        codec.decode(&mut BytesMut::from(&line[..])),
        Ok(Some(vec![name("use"), name(&longest)]))
    );
    let fill = MAX_LINE - 2 - 4 - MAX_NAME - 1;
    let line = format!("use {} {}\r\n", longest, "b".repeat(fill));
    assert_eq!(line.len(), MAX_LINE);
    assert!(codec.decode(&mut BytesMut::from(&line[..])).unwrap().is_some());
    let line = format!("use {} {}\r\n", longest, "b".repeat(fill + 1));
    assert_eq!(codec.decode(&mut BytesMut::from(&line[..])), Err(Error::BadFormat));
    let waiting = "1".repeat(MAX_LINE);
    assert_eq!(codec.decode(&mut BytesMut::from(&waiting[..])), Ok(None));
    let waiting = "1".repeat(MAX_LINE + 1);
    assert_eq!(codec.decode(&mut BytesMut::from(&waiting[..])), Err(Error::BadFormat));
    let body = 1774;
    let line = format!("put 1 1 1 {}\r\n", body);
    assert_eq!(line.len() + body + 2, MAX_LINE);
    assert_eq!(codec.decode(&mut BytesMut::from(&line[..])), Ok(None));
    let line = format!("put 1 1 1 {}\r\n", body + 1);
    assert_eq!(codec.decode(&mut BytesMut::from(&line[..])), Err(Error::BadFormat));
}

#[test]
fn read_frame_tells_how_much_it_took() {
    let (frame, used) = read_frame(b"kick 5\r\nrest", 10).unwrap().unwrap();
    assert_eq!(frame, vec![name("kick"), Data::Integer(5)]);
    assert_eq!(used, 8);
}

#[test]
fn recover_drops_the_input_unless_the_stream_is_lost() {
    let mut codec = BeanstalkCodec::new();
    let mut buf = BytesMut::from("put 1 0 60 1\r\nyy");
    assert!(codec.recover(&mut buf, Error::ExpectedCrlf));
    assert!(buf.is_empty());
    let mut buf = BytesMut::from("^\r\n");
    assert!(!codec.recover(&mut buf, Error::BadFormat));
    assert_eq!(&buf[..], b"^\r\n");
}

#[test]
fn parser_hands_out_tokens_in_order() {
    let mut parser = Parser::new(vec![
        name("n"),
        Data::Integer(3),
        Data::Bytes(Bytes::from_static(b"b")),
        Data::Crlf,
    ]);
    assert_eq!(parser.consume_name(), Ok("n".to_string()));
    assert_eq!(parser.consume_integer(), Ok(3));
    assert_eq!(parser.consume_bytes(), Ok(Bytes::from_static(b"b")));
    assert_eq!(parser.finish(), Err(Error::BadFormat));
    assert_eq!(parser.finish(), Ok(()));
    assert_eq!(parser.consume_name(), Err(Error::BadFormat));
    let mut parser = Parser::new(vec![Data::Integer(3), name("n")]);
    assert_eq!(parser.consume_name(), Err(Error::BadFormat));
    assert_eq!(parser.consume_name(), Ok("n".to_string()));
    assert_eq!(parser.consume_integer(), Err(Error::BadFormat));
}
