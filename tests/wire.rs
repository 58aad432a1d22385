use logbroker::codec::{encode_record, encode_slot_pair, push_be16, push_be32, push_be64, read_be16, read_be32, read_be64, read_slot};
use logbroker::protocol::{
    auth_failed_frame, decode_request, encode_request, end_of_batch, frame, offset_trailer,
    parse_pull_stream, push_reply, Record, Request, PULL_COMMAND, PUSH_COMMAND,
};
use logbroker::registry::{admit_broker, Admission};
use logbroker::transfer::{SendOutcome, SendProgress, SendStep};

#[test]
fn big_endian_round_trip() {
    let mut v = Vec::new();
    push_be16(&mut v, 0x0102);
    push_be32(&mut v, 0x03040506);
    push_be64(&mut v, 0x0708090a0b0c0d0e);
    assert_eq!(v, vec![1, 2, 3, 4, 5, 6, 7, 8, 9, 10, 11, 12, 13, 14]);
    assert_eq!(read_be16(&v, 0), 0x0102);
    assert_eq!(read_be32(&v, 2), 0x03040506);
    assert_eq!(read_be64(&v, 6), 0x0708090a0b0c0d0e);
}

#[test]
fn record_and_slot_layout() {
    assert_eq!(encode_record(b"ab", 258), vec![0, 0, 0, 2, 0, 0, 0, 0, 0, 0, 1, 2, b'a', b'b']);
    let pair = encode_slot_pair(300, 14);
    assert_eq!(pair.len(), 24);
    assert_eq!(read_slot(&pair, 0), (300, 14));
    assert_eq!(read_slot(&pair, 1), (0, 0));
}

fn request(key: &[u8], cmd: &[u8], broker: &[u8], trailer: &[u8]) -> Vec<u8> {
    encode_request(key, cmd, broker, trailer)
}

#[test]
fn auth_reject() {
    let body = request(b"wrong", &PUSH_COMMAND, b"t1", b"hello");
    assert_eq!(decode_request(&body, b"s3cr3t"), Request::AuthFailed);
    let reply = auth_failed_frame();
    assert_eq!(&reply[..4], &[0, 0, 0, 29]);
    assert_eq!(&reply[4..], b"Server authentication failed.");
}

#[test]
fn push_request_round_trip() {
    let body = request(b"s3cr3t", &PUSH_COMMAND, b"t1", b"payload");
    assert_eq!(body[..2], [0, 6]);
    assert_eq!(
        decode_request(&body, b"s3cr3t"),
        Request::Push { broker: b"t1".to_vec(), payload: b"payload".to_vec() }
    );
}

#[test]
fn pull_request_round_trip() {
    let body = request(b"k", &PULL_COMMAND, b"t1", &offset_trailer(42));
    assert_eq!(decode_request(&body, b"k"), Request::Pull { broker: b"t1".to_vec(), offset: 42 });
}

#[test]
fn malformed_and_other_requests() {
    assert_eq!(decode_request(&[0], b"k"), Request::Malformed);
    assert_eq!(decode_request(&[0, 5, b'k'], b"k"), Request::Malformed);
    let body = request(b"k", &PULL_COMMAND, b"t1", &[0, 0, 1]);
    assert_eq!(decode_request(&body, b"k"), Request::Malformed);
    let body = request(b"k", b"PEEK", b"t1", b"");
    assert_eq!(decode_request(&body, b"k"), Request::Other);
    let mut body = request(b"k", &PUSH_COMMAND, b"", b"");
    body.truncate(body.len() - 1);
    assert_eq!(decode_request(&body, b"k"), Request::Malformed);
}

#[test]
fn framing() {
    assert_eq!(frame(b"OK"), vec![0, 0, 0, 2, b'O', b'K']);
    assert_eq!(end_of_batch(), vec![0, 0, 0, 0]);
    assert_eq!(push_reply(Admission::Existing), vec![0, 0, 0, 2, b'O', b'K']);
    assert_eq!(push_reply(Admission::Create), vec![0, 0, 0, 2, b'O', b'K']);
    let refused = push_reply(Admission::Refuse);
    assert_eq!(&refused[..4], &[0, 0, 0, 9]);
    assert_eq!(&refused[4..], b"NO_BROKER");
}

#[test]
fn broker_cap() {
    // Brokers a and b exist under a cap of 2: c is refused.
    assert_eq!(admit_broker(false, 2, 2), Admission::Refuse);
    assert_eq!(admit_broker(true, 2, 2), Admission::Existing);
    assert_eq!(admit_broker(false, 1, 2), Admission::Create);
    assert_eq!(admit_broker(false, 0, 0), Admission::Refuse);
    assert_eq!(admit_broker(false, 65535, 65535), Admission::Refuse);
    assert_eq!(admit_broker(false, 65534, 65535), Admission::Create);
}

#[test]
fn pull_stream_parses_three_records() {
    let mut stream = Vec::new();
    for (i, p) in [&b"a"[..], b"bb", b"ccc"].iter().enumerate() {
        stream.extend_from_slice(&encode_record(p, i as u64));
    }
    stream.extend_from_slice(&end_of_batch());
    let rs = parse_pull_stream(&stream).unwrap();
    assert_eq!(
        rs,
        vec![
            Record { offset: 0, payload: b"a".to_vec() },
            Record { offset: 1, payload: b"bb".to_vec() },
            Record { offset: 2, payload: b"ccc".to_vec() },
        ]
    );
    assert_eq!(parse_pull_stream(&stream[..stream.len() - 2]), None);
    assert_eq!(parse_pull_stream(&[0, 0, 0, 0]), Some(vec![]));
}

#[test]
fn send_progress_steps() {
    let mut p = SendProgress::start(100);
    assert_eq!(p.step(SendOutcome::WouldBlock), SendStep::Again);
    assert_eq!(p.step(SendOutcome::Sent(30)), SendStep::Again);
    assert_eq!(p.remaining, 70);
    assert_eq!(p.step(SendOutcome::Sent(0)), SendStep::Finished(30));
    assert_eq!(p.step(SendOutcome::Failed), SendStep::Failed(30));
    assert_eq!(p.step(SendOutcome::Sent(70)), SendStep::Finished(100));
    assert_eq!(p.remaining, 0);
}
