use beanstalk::codec::{BeanstalkCodec, Data, MAX_JOB_SIZE};
use bytes::{Bytes, BytesMut};

#[test]
fn decodes() {
    let mut codec = BeanstalkCodec::new();
    assert_eq!(
        codec
            .decode(&mut BytesMut::from("put 1 11 101 1\r\nh\r\n"))
            .unwrap(),
        Some(vec![
            Data::String("put".into()),
            Data::Integer(1),
            Data::Integer(11),
            Data::Integer(101),
            Data::Integer(1),
            Data::Bytes(Bytes::from_static(b"h"))
        ])
    );
    let mut codec = BeanstalkCodec::new();
    assert_eq!(
        codec
            .decode(&mut BytesMut::from("use default+$23\r\n"))
            .unwrap(),
        Some(vec![
            Data::String("use".into()),
            Data::String("default+$23".into())
        ])
    );
}

#[test]
fn int_too_big() {
    let mut codec = BeanstalkCodec::new();
    if let Err(e) = codec.decode(&mut BytesMut::from("4294967296\r\n")) {
        assert_eq!(e.to_string(), "BAD_FORMAT");
    } else {
        panic!("did not error");
    }
}

#[test]
fn invalid_name() {
    let mut codec = BeanstalkCodec::new();
    if let Err(e) = codec.decode(&mut BytesMut::from("-name\r\n")) {
        assert_eq!(e.to_string(), "BAD_FORMAT");
    } else {
        panic!("did not error");
    }

    let mut codec = BeanstalkCodec::new();
    if let Err(e) = codec.decode(&mut BytesMut::from("name^\r\n")) {
        assert_eq!(e.to_string(), "BAD_FORMAT");
    } else {
        panic!("did not error");
    }
}

#[test]
fn too_long() {
    let mut codec = BeanstalkCodec::new();
    if let Err(e) = codec.decode(&mut BytesMut::from(
        &format!("{}\r\n", "a".repeat(8 * 224))[..],
    )) {
        assert_eq!(e.to_string(), "BAD_FORMAT");
    } else {
        panic!("did not error");
    }

    let mut codec = BeanstalkCodec::new();
    if let Err(e) = codec.decode(&mut BytesMut::from(
        &format!("put {}\r\n", "a".repeat(8 * 201))[..],
    )) {
        assert_eq!(e.to_string(), "BAD_FORMAT");
    } else {
        panic!("did not error");
    }

    let mut codec = BeanstalkCodec::new();
    if let Err(e) = codec.decode(&mut BytesMut::from(
        &format!("put 1 1 1 {}\r\n", MAX_JOB_SIZE + 1)[..],
    )) {
        assert_eq!(e.to_string(), "JOB_TOO_BIG");
    } else {
        panic!("did not error");
    }
}

#[test]
fn no_crlf() {
    let mut codec = BeanstalkCodec::new();
    if let Err(e) = codec.decode(&mut BytesMut::from("put 1 1 1 1\r\nh")) {
        assert_eq!(e.to_string(), "EXPECTED_CRLF");
    } else {
        panic!("did not error");
    }
}
