//! The wire protocol: length-prefixed frames, the request body, the server's
//! replies, and the record stream that answers a pull.
use crate::codec::{
    be16, be32, be64, lemma_records_concat_front, lemma_u16_round_trip, lemma_u32_round_trip,
    lemma_u64_round_trip,
    push_be16, push_be32, push_be64, read_be16, read_be32, read_be64, record_bytes,
    records_concat, u16_of, u32_of, u64_of,
};
use crate::registry::Admission;
use vstd::prelude::*;

verus! {

/// The command word of a publish.
pub const PUSH_COMMAND: [u8; 4] = [80, 85, 83, 72];

/// The command word of a read.
pub const PULL_COMMAND: [u8; 4] = [80, 85, 76, 76];

pub open spec fn push_word() -> Seq<u8> {
    seq![80u8, 85u8, 83u8, 72u8]
}

pub open spec fn pull_word() -> Seq<u8> {
    seq![80u8, 85u8, 76u8, 76u8]
}

/// `body` behind a 4-byte big-endian length.
pub open spec fn framed(body: Seq<u8>) -> Seq<u8> {
    be32(body.len() as u32) + body
}

/// Frames a body: its length as four big-endian bytes, then the body.
pub fn frame(body: &[u8]) -> (r: Vec<u8>)
    requires
        body@.len() <= u32::MAX,
    ensures
        r@ == framed(body@),
{
    let mut r: Vec<u8> = Vec::new();
    push_be32(&mut r, body.len() as u32);
    let mut i: usize = 0;
    while i < body.len()
        invariant
            i <= body@.len(),
            r@ == be32(body@.len() as u32) + body@.subrange(0, i as int),
        decreases body@.len() - i,
    {
        r.push(body[i]);
        assert(body@.subrange(0, i + 1) =~= body@.subrange(0, i as int).push(body@[i as int]));
        i = i + 1;
    }
    assert(body@.subrange(0, i as int) =~= body@);
    r
}

/// The body of the reply to an accepted publish.
pub fn ok_reply() -> (r: Vec<u8>)
    ensures
        r@ == seq![79u8, 75u8],
{
    let r: Vec<u8> = vec![79u8, 75u8];
    assert(r@ =~= seq![79u8, 75u8]);
    r
}

/// The body of the reply when the broker cannot be had.
pub fn no_broker_reply() -> (r: Vec<u8>)
    ensures
        r@ == seq![78u8, 79u8, 95u8, 66u8, 82u8, 79u8, 75u8, 69u8, 82u8],
{
    let r: Vec<u8> = vec![78u8, 79u8, 95u8, 66u8, 82u8, 79u8, 75u8, 69u8, 82u8];
    assert(r@ =~= seq![78u8, 79u8, 95u8, 66u8, 82u8, 79u8, 75u8, 69u8, 82u8]);
    r
}

/// The text of the reply to a wrong key: `Server authentication failed.`
pub open spec fn auth_failed_text() -> Seq<u8> {
    seq![
        83u8, 101u8, 114u8, 118u8, 101u8, 114u8, 32u8, 97u8, 117u8, 116u8, 104u8, 101u8, 110u8,
        116u8, 105u8, 99u8, 97u8, 116u8, 105u8, 111u8, 110u8, 32u8, 102u8, 97u8, 105u8, 108u8,
        101u8, 100u8, 46u8,
    ]
}

/// The body of the reply to a wrong key.
pub fn auth_failed_reply() -> (r: Vec<u8>)
    ensures
        r@ == auth_failed_text(),
{
    let r: Vec<u8> = vec![
        83u8, 101u8, 114u8, 118u8, 101u8, 114u8, 32u8, 97u8, 117u8, 116u8, 104u8, 101u8, 110u8,
        116u8, 105u8, 99u8, 97u8, 116u8, 105u8, 111u8, 110u8, 32u8, 102u8, 97u8, 105u8, 108u8,
        101u8, 100u8, 46u8,
    ];
    assert(r@ =~= auth_failed_text());
    r
}

/// The four zero bytes that end the answer to a pull.
pub fn end_of_batch() -> (r: Vec<u8>)
    ensures
        r@ == be32(0),
{
    let mut r: Vec<u8> = Vec::new();
    push_be32(&mut r, 0);
    assert(r@ =~= be32(0));
    r
}

/// A request, as the server acts on it.
#[derive(Debug, PartialEq, Eq)]
pub enum Request {
    /// The body ends inside a field, or a pull lacks its offset.
    Malformed,
    /// The key is not the configured one.
    AuthFailed,
    /// Append `payload` to `broker`.
    Push { broker: Vec<u8>, payload: Vec<u8> },
    /// Send records of `broker` from `offset`.
    Pull { broker: Vec<u8>, offset: u64 },
    /// A command word other than PUSH or PULL; the server ignores it.
    Other,
}

pub enum RequestView {
    Malformed,
    AuthFailed,
    Push { broker: Seq<u8>, payload: Seq<u8> },
    Pull { broker: Seq<u8>, offset: u64 },
    Other,
}

impl View for Request {
    type V = RequestView;

    open spec fn view(&self) -> RequestView {
        match self {
            Request::Malformed => RequestView::Malformed,
            Request::AuthFailed => RequestView::AuthFailed,
            Request::Push { broker, payload } => RequestView::Push {
                broker: broker@,
                payload: payload@,
            },
            Request::Pull { broker, offset } => RequestView::Pull { broker: broker@, offset: *offset },
            Request::Other => RequestView::Other,
        }
    }
}

/// The field at `at` of a body: a 2-byte length, then that many bytes; with
/// the position after it.
pub open spec fn field_at(b: Seq<u8>, at: int) -> Option<(Seq<u8>, int)> {
    if at + 2 > b.len() {
        None
    } else {
        let n = u16_of(b.subrange(at, at + 2)) as int;
        if at + 2 + n > b.len() {
            None
        } else {
            Some((b.subrange(at + 2, at + 2 + n), at + 2 + n))
        }
    }
}

/// What a request body asks for, given the configured key: the key first,
/// then the command word, then the broker name, then for a publish the
/// rest of the body as payload, for a pull an 8-byte offset.
pub open spec fn request_of(b: Seq<u8>, key: Seq<u8>) -> RequestView {
    match field_at(b, 0) {
        None => RequestView::Malformed,
        Some((k, p1)) => if k != key {
            RequestView::AuthFailed
        } else {
            match field_at(b, p1) {
                None => RequestView::Malformed,
                Some((c, p2)) => if c == push_word() {
                    match field_at(b, p2) {
                        None => RequestView::Malformed,
                        Some((n, p3)) => RequestView::Push {
                            broker: n,
                            payload: b.subrange(p3, b.len() as int),
                        },
                    }
                } else if c == pull_word() {
                    match field_at(b, p2) {
                        None => RequestView::Malformed,
                        Some((n, p3)) => if p3 + 8 > b.len() {
                            RequestView::Malformed
                        } else {
                            RequestView::Pull { broker: n, offset: u64_of(b.subrange(p3, p3 + 8)) }
                        },
                    }
                } else {
                    RequestView::Other
                },
            }
        },
    }
}

fn copy_range(b: &[u8], from: usize, to: usize) -> (r: Vec<u8>)
    requires
        from <= to <= b@.len(),
    ensures
        r@ == b@.subrange(from as int, to as int),
{
    let mut r: Vec<u8> = Vec::new();
    let mut i: usize = from;
    while i < to
        invariant
            from <= i <= to,
            to <= b@.len(),
            r@ == b@.subrange(from as int, i as int),
        decreases to - i,
    {
        r.push(b[i]);
        assert(b@.subrange(from as int, i + 1) =~= b@.subrange(from as int, i as int).push(
            b@[i as int],
        ));
        i = i + 1;
    }
    r
}

fn bytes_equal(a: &[u8], b: &[u8]) -> (r: bool)
    ensures
        r == (a@ == b@),
{
    if a.len() != b.len() {
        return false;
    }
    let mut i: usize = 0;
    while i < a.len()
        invariant
            a@.len() == b@.len(),
            i <= a@.len(),
            forall|j: int| 0 <= j < i ==> a@[j] == b@[j],
        decreases a@.len() - i,
    {
        if a[i] != b[i] {
            return false;
        }
        i = i + 1;
    }
    assert(a@ =~= b@);
    true
}

/// Reads the field at `at`: its bounds in `b`.
fn read_field(b: &[u8], at: usize) -> (r: Option<(usize, usize)>)
    requires
        at <= b@.len(),
    ensures
        match field_at(b@, at as int) {
            None => r is None,
            Some((f, next)) => r matches Some((s, e)) && s == at + 2 && e == next && s <= e <= b@.len()
                && f == b@.subrange(s as int, e as int),
        },
{
    let n = b.len();
    if n - at < 2 {
        return None;
    }
    let len = read_be16(b, at) as usize;
    if n - at - 2 < len {
        return None;
    }
    Some((at + 2, at + 2 + len))
}

/// Reads a request body against the configured key.
pub fn decode_request(body: &[u8], key: &[u8]) -> (r: Request)
    ensures
        r@ == request_of(body@, key@),
{
    let (ks, ke) = match read_field(body, 0) {
        None => return Request::Malformed,
        Some(f) => f,
    };
    if !bytes_equal(slice_range(body, ks, ke), key) {
        return Request::AuthFailed;
    }
    let (cs, ce) = match read_field(body, ke) {
        None => return Request::Malformed,
        Some(f) => f,
    };
    let cmd = slice_range(body, cs, ce);
    let push: [u8; 4] = PUSH_COMMAND;
    let pull: [u8; 4] = PULL_COMMAND;
    assert(push@ =~= push_word());
    assert(pull@ =~= pull_word());
    let is_push = bytes_equal(cmd, push.as_slice());
    let is_pull = bytes_equal(cmd, pull.as_slice());
    if !is_push && !is_pull {
        return Request::Other;
    }
    let (ns, ne) = match read_field(body, ce) {
        None => return Request::Malformed,
        Some(f) => f,
    };
    let broker = copy_range(body, ns, ne);
    if is_push {
        Request::Push { broker, payload: copy_range(body, ne, body.len()) }
    } else {
        if body.len() - ne < 8 {
            return Request::Malformed;
        }
        Request::Pull { broker, offset: read_be64(body, ne) }
    }
}

fn slice_range(b: &[u8], from: usize, to: usize) -> (r: &[u8])
    requires
        from <= to <= b@.len(),
    ensures
        r@ == b@.subrange(from as int, to as int),
{
    vstd::slice::slice_subrange(b, from, to)
}

/// The body of a request: key, command word and broker name, each behind a
/// 2-byte length, then the trailer.
pub open spec fn request_bytes(key: Seq<u8>, command: Seq<u8>, broker: Seq<u8>, trailer: Seq<u8>) -> Seq<u8> {
    be16(key.len() as u16) + key + be16(command.len() as u16) + command + be16(broker.len() as u16)
        + broker + trailer
}

fn push_all(out: &mut Vec<u8>, b: &[u8])
    ensures
        final(out)@ == old(out)@ + b@,
{
    let mut i: usize = 0;
    while i < b.len()
        invariant
            i <= b@.len(),
            out@ == old(out)@ + b@.subrange(0, i as int),
        decreases b@.len() - i,
    {
        out.push(b[i]);
        assert(b@.subrange(0, i + 1) =~= b@.subrange(0, i as int).push(b@[i as int]));
        i = i + 1;
    }
    assert(b@.subrange(0, i as int) =~= b@);
}

/// Builds a request body; the trailer is a publish's payload, or a pull's
/// offset as eight big-endian bytes.
pub fn encode_request(key: &[u8], command: &[u8], broker: &[u8], trailer: &[u8]) -> (r: Vec<u8>)
    requires
        key@.len() <= u16::MAX,
        command@.len() <= u16::MAX,
        broker@.len() <= u16::MAX,
    ensures
        r@ == request_bytes(key@, command@, broker@, trailer@),
{
    let mut r: Vec<u8> = Vec::new();
    push_be16(&mut r, key.len() as u16);
    push_all(&mut r, key);
    push_be16(&mut r, command.len() as u16);
    push_all(&mut r, command);
    push_be16(&mut r, broker.len() as u16);
    push_all(&mut r, broker);
    push_all(&mut r, trailer);
    assert(r@ =~= request_bytes(key@, command@, broker@, trailer@));
    r
}

/// The eight big-endian bytes of a pull's offset.
pub fn offset_trailer(offset: u64) -> (r: Vec<u8>)
    ensures
        r@ == be64(offset),
{
    let mut r: Vec<u8> = Vec::new();
    push_be64(&mut r, offset);
    assert(r@ =~= be64(offset));
    r
}

/// A request with the configured key and the PUSH word reads back as a
/// publish of its broker and payload.
pub proof fn lemma_push_round_trip(key: Seq<u8>, broker: Seq<u8>, payload: Seq<u8>)
    requires
        key.len() <= u16::MAX,
        broker.len() <= u16::MAX,
    ensures
        request_of(request_bytes(key, push_word(), broker, payload), key) == (RequestView::Push {
            broker,
            payload,
        }),
{
    lemma_fields(key, push_word(), broker, payload);
}

/// A request with the configured key and the PULL word reads back as a
/// pull of its broker from its offset.
pub proof fn lemma_pull_round_trip(key: Seq<u8>, broker: Seq<u8>, offset: u64)
    requires
        key.len() <= u16::MAX,
        broker.len() <= u16::MAX,
    ensures
        request_of(request_bytes(key, pull_word(), broker, be64(offset)), key) == (RequestView::Pull {
            broker,
            offset,
        }),
{
    lemma_fields(key, pull_word(), broker, be64(offset));
    let b = request_bytes(key, pull_word(), broker, be64(offset));
    let p3 = (6 + key.len() + 4 + broker.len()) as int;
    assert(b.subrange(p3, p3 + 8) =~= be64(offset));
    lemma_u64_round_trip(offset);
}

/// A request whose key differs from the configured one is refused, whatever
/// follows the key.
pub proof fn lemma_wrong_key(key: Seq<u8>, sent: Seq<u8>, command: Seq<u8>, broker: Seq<u8>, trailer: Seq<u8>)
    requires
        sent.len() <= u16::MAX,
        command.len() <= u16::MAX,
        broker.len() <= u16::MAX,
        sent != key,
    ensures
        request_of(request_bytes(sent, command, broker, trailer), key) == RequestView::AuthFailed,
{
    lemma_fields(sent, command, broker, trailer);
}

proof fn lemma_fields(key: Seq<u8>, command: Seq<u8>, broker: Seq<u8>, trailer: Seq<u8>)
    requires
        key.len() <= u16::MAX,
        command.len() <= u16::MAX,
        broker.len() <= u16::MAX,
    ensures
        ({
            let b = request_bytes(key, command, broker, trailer);
            let p1 = 2 + key.len();
            let p2 = p1 + 2 + command.len();
            let p3 = p2 + 2 + broker.len();
            &&& field_at(b, 0) == Some((key, p1 as int))
            &&& field_at(b, p1 as int) == Some((command, p2 as int))
            &&& field_at(b, p2 as int) == Some((broker, p3 as int))
            &&& b.subrange(p3 as int, b.len() as int) == trailer
            &&& b.len() == p3 + trailer.len()
        }),
{
    let b = request_bytes(key, command, broker, trailer);
    let p1 = 2 + key.len() as int;
    let p2 = p1 + 2 + command.len() as int;
    let p3 = p2 + 2 + broker.len() as int;
    lemma_u16_round_trip(key.len() as u16);
    lemma_u16_round_trip(command.len() as u16);
    lemma_u16_round_trip(broker.len() as u16);
    assert(b.subrange(0, 2) =~= be16(key.len() as u16));
    assert(b.subrange(2, p1 as int) =~= key);
    assert(b.subrange(p1 as int, p1 + 2) =~= be16(command.len() as u16));
    assert(b.subrange(p1 + 2, p2 as int) =~= command);
    assert(b.subrange(p2 as int, p2 + 2) =~= be16(broker.len() as u16));
    assert(b.subrange(p2 + 2, p3 as int) =~= broker);
    assert(b.subrange(p3 as int, b.len() as int) =~= trailer);
}

/// A record read back from a pull: its logical offset and payload.
#[derive(Clone, Debug, PartialEq, Eq)]
pub struct Record {
    pub offset: u64,
    pub payload: Vec<u8>,
}

pub open spec fn records_view(v: Seq<Record>) -> Seq<(u64, Seq<u8>)> {
    v.map_values(|r: Record| (r.offset, r.payload@))
}

/// The records of a pull's answer, up to the four zero bytes that end it;
/// none when the bytes end first.
pub open spec fn parse_stream(b: Seq<u8>) -> Option<Seq<(u64, Seq<u8>)>>
    decreases b.len(),
{
    if b.len() < 4 {
        None
    } else {
        let n = u32_of(b.subrange(0, 4)) as int;
        if n == 0 {
            Some(Seq::empty())
        } else if b.len() < 12 + n {
            None
        } else {
            match parse_stream(b.subrange(12 + n, b.len() as int)) {
                None => None,
                Some(rest) => Some(
                    seq![(u64_of(b.subrange(4, 12)), b.subrange(12, 12 + n))] + rest,
                ),
            }
        }
    }
}

/// Records back to back, then the four zero bytes that end a batch.
pub open spec fn stream_bytes(rs: Seq<(u64, Seq<u8>)>) -> Seq<u8> {
    records_concat(rs) + be32(0)
}

pub open spec fn prepend(a: Seq<(u64, Seq<u8>)>, r: Option<Seq<(u64, Seq<u8>)>>) -> Option<
    Seq<(u64, Seq<u8>)>,
> {
    match r {
        None => None,
        Some(rest) => Some(a + rest),
    }
}

/// Reads the records of a pull's answer, up to the four zero bytes that end
/// it.
pub fn parse_pull_stream(b: &[u8]) -> (r: Option<Vec<Record>>)
    ensures
        match r {
            None => parse_stream(b@) is None,
            Some(v) => parse_stream(b@) == Some(records_view(v@)),
        },
{
    let n = b.len();
    let mut p: usize = 0;
    let mut out: Vec<Record> = Vec::new();
    assert(b@.subrange(0, n as int) =~= b@);
    assert(records_view(out@) =~= Seq::empty());
    while n - p >= 4
        invariant
            n == b@.len(),
            p <= n,
            parse_stream(b@) == prepend(records_view(out@), parse_stream(b@.subrange(p as int, n as int))),
        decreases n - p,
    {
        let ghost rest = b@.subrange(p as int, n as int);
        let len = read_be32(b, p) as usize;
        assert(rest.subrange(0, 4) =~= b@.subrange(p as int, p + 4));
        if len == 0 {
            assert(records_view(out@) + Seq::empty() =~= records_view(out@));
            return Some(out);
        }
        if n - p < 12 || n - p - 12 < len {
            return None;
        }
        let offset = read_be64(b, p + 4);
        assert(rest.subrange(4, 12) =~= b@.subrange(p + 4, p + 12));
        let payload = copy_range(b, p + 12, p + 12 + len);
        assert(rest.subrange(12, 12 + len) =~= b@.subrange(p + 12, p + 12 + len));
        assert(rest.subrange(12 + len, rest.len() as int) =~= b@.subrange(p + 12 + len, n as int));
        let ghost before = records_view(out@);
        out.push(Record { offset, payload });
        assert(records_view(out@) =~= before + seq![(offset, payload@)]);
        proof {
            let tail = parse_stream(b@.subrange(p + 12 + len, n as int));
            match tail {
                None => {},
                Some(t) => {
                    assert(before + (seq![(offset, payload@)] + t) =~= (before + seq![(offset, payload@)]) + t);
                },
            }
        }
        p = p + 12 + len;
    }
    None
}

proof fn lemma_stream_head(rs: Seq<(u64, Seq<u8>)>)
    requires
        rs.len() > 0,
        rs[0].1.len() + 12 <= u32::MAX,
    ensures
        ({
            let b = stream_bytes(rs);
            let n = rs[0].1.len() as int;
            &&& b.len() >= 12 + n
            &&& u32_of(b.subrange(0, 4)) == n
            &&& u64_of(b.subrange(4, 12)) == rs[0].0
            &&& b.subrange(12, 12 + n) == rs[0].1
            &&& b.subrange(12 + n, b.len() as int) == stream_bytes(rs.drop_first())
        }),
{
    let (off, pl) = rs[0];
    let b = stream_bytes(rs);
    let rb = record_bytes(pl, off);
    let n = pl.len() as int;
    lemma_records_concat_front(rs);
    assert(b =~= rb + stream_bytes(rs.drop_first()));
    lemma_u32_round_trip(n as u32);
    lemma_u64_round_trip(off);
    assert(b.subrange(0, 4) =~= be32(n as u32));
    assert(b.subrange(4, 12) =~= be64(off));
    assert(b.subrange(12, 12 + n) =~= pl);
    assert(b.subrange(12 + n, b.len() as int) =~= stream_bytes(rs.drop_first()));
}

/// Records with non-empty payloads, followed by the end-of-batch marker,
/// read back as themselves, in order. (A record with an empty payload would
/// read as the end of the batch.)
pub proof fn lemma_stream_round_trip(rs: Seq<(u64, Seq<u8>)>)
    requires
        forall|i: int| 0 <= i < rs.len() ==> 0 < (#[trigger] rs[i]).1.len() && rs[i].1.len() + 12 <= u32::MAX,
    ensures
        parse_stream(stream_bytes(rs)) == Some(rs),
    decreases rs.len(),
{
    if rs.len() == 0 {
        lemma_u32_round_trip(0);
        assert(stream_bytes(rs) =~= be32(0));
        assert(stream_bytes(rs).subrange(0, 4) =~= be32(0));
        assert(Seq::<(u64, Seq<u8>)>::empty() =~= rs);
    } else {
        let tail = rs.drop_first();
        assert forall|i: int| 0 <= i < tail.len() implies 0 < (#[trigger] tail[i]).1.len()
            && tail[i].1.len() + 12 <= u32::MAX by {
            assert(tail[i] == rs[i + 1]);
        }
        lemma_stream_round_trip(tail);
        assert(0 < rs[0].1.len());
        lemma_stream_head(rs);
        assert(seq![(rs[0].0, rs[0].1)] + tail =~= rs);
    }
}

/// The framed reply to a publish once the registry has decided: `OK` when
/// the broker was served (and the record appended), `NO_BROKER` when it
/// was refused.
pub fn push_reply(admission: Admission) -> (r: Vec<u8>)
    ensures
        r@ == framed(
            if admission == Admission::Refuse {
                seq![78u8, 79u8, 95u8, 66u8, 82u8, 79u8, 75u8, 69u8, 82u8]
            } else {
                seq![79u8, 75u8]
            },
        ),
{
    let body = match admission {
        Admission::Refuse => no_broker_reply(),
        _ => ok_reply(),
    };
    frame(body.as_slice())
}

/// The framed reply to a request with a wrong key.
pub fn auth_failed_frame() -> (r: Vec<u8>)
    ensures
        r@ == framed(auth_failed_text()),
{
    let body = auth_failed_reply();
    frame(body.as_slice())
}

} // verus!
