use ignix::aof::AofHandle;
use ignix::net::{
    next_token, would_block, Connection, Interest, IoFailure, ReadStep, WriteStep, LISTENER,
    LISTEN_BACKLOG, READ_BUF,
};
use ignix::shard::Shard;

fn serve(conn: &mut Connection, shard: &mut Shard, bytes: &[u8]) {
    assert_eq!(conn.on_read(bytes), ReadStep::Again);
    assert_eq!(conn.on_read_error(IoFailure::WouldBlock), ReadStep::Drained);
    conn.process(shard);
}

fn drain(conn: &mut Connection) -> Vec<u8> {
    let reply = conn.pending_output().to_vec();
    conn.on_write(reply.len());
    reply
}

fn answer(shard: &mut Shard, bytes: &[u8]) -> Vec<u8> {
    let mut conn = Connection::new();
    serve(&mut conn, shard, bytes);
    drain(&mut conn)
}

#[test]
fn set_then_get() {
    let mut shard = Shard::new(0, None);
    let mut conn = Connection::new();
    serve(
        &mut conn,
        &mut shard,
        b"*3\r\n$3\r\nSET\r\n$5\r\nhello\r\n$5\r\nworld\r\n",
    );
    serve(&mut conn, &mut shard, b"*2\r\n$3\r\nGET\r\n$5\r\nhello\r\n");
    assert_eq!(drain(&mut conn), b"+OK\r\n$5\r\nworld\r\n");
}

#[test]
fn get_of_a_missing_key() {
    let mut shard = Shard::new(0, None);
    assert_eq!(
        answer(&mut shard, b"*2\r\n$3\r\nGET\r\n$4\r\nmiss\r\n"),
        b"$-1\r\n"
    );
}

#[test]
fn pipelined_in_one_write() {
    let mut shard = Shard::new(0, None);
    assert_eq!(
        answer(
            &mut shard,
            b"*1\r\n$4\r\nPING\r\n*3\r\n$3\r\nSET\r\n$1\r\na\r\n$1\r\n1\r\n*2\r\n$3\r\nGET\r\n$1\r\na\r\n"
        ),
        b"+PONG\r\n+OK\r\n$1\r\n1\r\n"
    );
}

#[test]
fn incr_from_text() {
    let mut shard = Shard::new(0, None);
    assert_eq!(
        answer(
            &mut shard,
            b"*3\r\n$3\r\nSET\r\n$1\r\nx\r\n$2\r\n41\r\n*2\r\n$4\r\nINCR\r\n$1\r\nx\r\n*2\r\n$3\r\nGET\r\n$1\r\nx\r\n"
        ),
        b"+OK\r\n:42\r\n$2\r\n42\r\n"
    );
}

#[test]
fn rename_of_a_missing_key() {
    let mut shard = Shard::new(0, None);
    assert_eq!(
        answer(
            &mut shard,
            b"*3\r\n$6\r\nRENAME\r\n$4\r\nnone\r\n$5\r\nother\r\n"
        ),
        b"-ERR no such key\r\n"
    );
}

#[test]
fn mget_with_a_hole() {
    let mut shard = Shard::new(0, None);
    assert_eq!(
        answer(&mut shard, b"*3\r\n$3\r\nSET\r\n$1\r\na\r\n$1\r\n1\r\n"),
        b"+OK\r\n"
    );
    assert_eq!(
        answer(
            &mut shard,
            b"*4\r\n$4\r\nMGET\r\n$1\r\na\r\n$1\r\nb\r\n$1\r\nc\r\n"
        ),
        b"*3\r\n$1\r\n1\r\n$-1\r\n$-1\r\n"
    );
}

const SESSION: &[u8] = b"*1\r\n$4\r\nPING\r\n*3\r\n$3\r\nSET\r\n$1\r\na\r\n$2\r\n41\r\n*2\r\n$4\r\nINCR\r\n$1\r\na\r\n*2\r\n$3\r\nGET\r\n$1\r\na\r\n*3\r\n$6\r\nRENAME\r\n$1\r\na\r\n$1\r\nb\r\n*3\r\n$4\r\nMGET\r\n$1\r\na\r\n$1\r\nb\r\n*2\r\n$3\r\nDEL\r\n$1\r\nb\r\n*2\r\n$6\r\nEXISTS\r\n$1\r\nb\r\n";

const SESSION_REPLIES: &[u8] =
    b"+PONG\r\n+OK\r\n:42\r\n$2\r\n42\r\n+OK\r\n*2\r\n$-1\r\n$2\r\n42\r\n:1\r\n:0\r\n";

#[test]
fn replies_do_not_depend_on_where_the_input_is_split() {
    for at in 0..=SESSION.len() {
        let mut shard = Shard::new(0, None);
        let mut conn = Connection::new();
        if at > 0 {
            serve(&mut conn, &mut shard, &SESSION[..at]);
        }
        if at < SESSION.len() {
            serve(&mut conn, &mut shard, &SESSION[at..]);
        }
        assert!(!conn.finished());
        assert!(conn.pending_input().is_empty(), "split at {}", at);
        assert_eq!(drain(&mut conn), SESSION_REPLIES, "split at {}", at);
    }
}

#[test]
fn replies_do_not_depend_on_the_size_of_the_reads() {
    for size in [1usize, 2, 3, 5, 7, 16, 64] {
        let mut shard = Shard::new(0, None);
        let mut conn = Connection::new();
        let mut written = Vec::new();
        for chunk in SESSION.chunks(size) {
            serve(&mut conn, &mut shard, chunk);
            written.extend_from_slice(&drain(&mut conn));
        }
        assert!(conn.pending_input().is_empty());
        assert_eq!(written, SESSION_REPLIES, "reads of {} bytes", size);
    }
}

#[test]
fn pipelined_replies_are_those_of_single_requests() {
    let requests: Vec<&[u8]> = vec![
        b"*1\r\n$4\r\nPING\r\n",
        b"*3\r\n$3\r\nSET\r\n$1\r\na\r\n$2\r\n41\r\n",
        b"*2\r\n$4\r\nINCR\r\n$1\r\na\r\n",
        b"*2\r\n$3\r\nGET\r\n$1\r\na\r\n",
        b"*3\r\n$6\r\nRENAME\r\n$1\r\na\r\n$1\r\nb\r\n",
        b"*3\r\n$4\r\nMGET\r\n$1\r\na\r\n$1\r\nb\r\n",
        b"*2\r\n$3\r\nDEL\r\n$1\r\nb\r\n",
        b"*2\r\n$6\r\nEXISTS\r\n$1\r\nb\r\n",
    ];
    assert_eq!(requests.concat(), SESSION);
    let mut shard = Shard::new(0, None);
    let mut conn = Connection::new();
    let mut one_by_one = Vec::new();
    for request in &requests {
        serve(&mut conn, &mut shard, request);
        one_by_one.extend_from_slice(&drain(&mut conn));
    }
    let mut pipelined = Shard::new(0, None);
    assert_eq!(answer(&mut pipelined, SESSION), one_by_one);
    assert_eq!(one_by_one, SESSION_REPLIES);
}

#[test]
fn an_incomplete_frame_waits_in_the_input() {
    let mut shard = Shard::new(0, None);
    let mut conn = Connection::new();
    serve(&mut conn, &mut shard, b"*1\r\n$4\r\nPING\r\n*2\r\n$3\r\nGET\r\n$4\r\nmi");
    assert_eq!(conn.pending_input(), b"*2\r\n$3\r\nGET\r\n$4\r\nmi");
    assert_eq!(drain(&mut conn), b"+PONG\r\n");
    serve(&mut conn, &mut shard, b"ss\r\n");
    assert!(conn.pending_input().is_empty());
    assert_eq!(drain(&mut conn), b"$-1\r\n");
}

#[test]
fn a_protocol_error_ends_the_connection() {
    let mut shard = Shard::new(0, None);
    let mut conn = Connection::new();
    serve(&mut conn, &mut shard, b"hello\r\n");
    assert_eq!(
        conn.pending_output(),
        b"-ERR protocol error: expected array\r\n"
    );
    assert!(conn.has_output());
    assert!(!conn.finished());
    assert_eq!(conn.interest(), Interest::ReadWrite);
    conn.on_write(10);
    assert!(!conn.finished());
    conn.on_write(1000);
    assert!(conn.finished());
}

#[test]
fn each_protocol_error_has_its_reply() {
    let cases: Vec<(&[u8], &[u8])> = vec![
        (b"+OK\r\n", b"-ERR protocol error: expected array\r\n"),
        (b"*0\r\n", b"-ERR empty array\r\n"),
        (b"*1\r\n:1\r\n", b"-ERR expected bulk\r\n"),
        (b"*1\r\n$-1\r\n", b"-ERR negative bulk length\r\n"),
        (b"*1x\r\n", b"-ERR expected CRLF\r\n"),
        (b"*99999999999999999999\r\n", b"-ERR number out of range\r\n"),
        (b"*1\r\n$4\r\nQUIT\r\n", b"-ERR unknown/invalid command\r\n"),
    ];
    for (input, reply) in cases {
        let mut shard = Shard::new(0, None);
        assert_eq!(answer(&mut shard, input), reply);
    }
}

#[test]
fn nothing_is_executed_beside_a_protocol_error() {
    let mut shard = Shard::new(0, None);
    let mut conn = Connection::new();
    serve(
        &mut conn,
        &mut shard,
        b"*3\r\n$3\r\nSET\r\n$1\r\na\r\n$1\r\n1\r\n+bad\r\n",
    );
    assert_eq!(
        conn.pending_output(),
        b"-ERR protocol error: expected array\r\n"
    );
    assert_eq!(conn.pending_input(), b"+bad\r\n");
    assert_eq!(shard.dict.get(b"a"), None);
}

#[test]
fn a_closing_connection_decodes_no_more() {
    let mut shard = Shard::new(0, None);
    let mut conn = Connection::new();
    serve(&mut conn, &mut shard, b"bad\r\n");
    let reply = drain(&mut conn);
    assert_eq!(reply, b"-ERR protocol error: expected array\r\n");
    assert!(conn.finished());
    assert_eq!(conn.on_read(b"*1\r\n$4\r\nPING\r\n"), ReadStep::Again);
    conn.process(&mut shard);
    assert!(!conn.has_output());
    assert!(conn.finished());
}

#[test]
fn end_of_input_closes_the_connection() {
    let mut conn = Connection::new();
    assert_eq!(conn.on_read(b""), ReadStep::Close);
    assert_eq!(conn.on_read(b"x"), ReadStep::Again);
    assert_eq!(conn.pending_input(), b"x");
}

#[test]
fn failed_reads_and_writes() {
    let conn = Connection::new();
    assert_eq!(conn.on_read_error(IoFailure::WouldBlock), ReadStep::Drained);
    assert_eq!(conn.on_read_error(IoFailure::Interrupted), ReadStep::Drained);
    assert_eq!(conn.on_read_error(IoFailure::Other), ReadStep::Close);
    assert_eq!(conn.on_write_error(IoFailure::WouldBlock), WriteStep::Keep);
    assert_eq!(conn.on_write_error(IoFailure::Interrupted), WriteStep::Keep);
    assert_eq!(conn.on_write_error(IoFailure::Other), WriteStep::Close);
    assert!(would_block(IoFailure::WouldBlock));
    assert!(would_block(IoFailure::Interrupted));
    assert!(!would_block(IoFailure::Other));
}

#[test]
fn written_bytes_leave_the_output() {
    let mut shard = Shard::new(0, None);
    let mut conn = Connection::new();
    assert_eq!(conn.interest(), Interest::Readable);
    assert!(!conn.has_output());
    serve(&mut conn, &mut shard, b"*1\r\n$4\r\nPING\r\n*1\r\n$4\r\nPING\r\n");
    assert_eq!(conn.pending_output(), b"+PONG\r\n+PONG\r\n");
    assert_eq!(conn.interest(), Interest::ReadWrite);
    conn.on_write(0);
    assert_eq!(conn.pending_output(), b"+PONG\r\n+PONG\r\n");
    conn.on_write(3);
    assert_eq!(conn.pending_output(), b"NG\r\n+PONG\r\n");
    assert_eq!(conn.interest(), Interest::ReadWrite);
    conn.on_write(11);
    assert!(!conn.has_output());
    assert_eq!(conn.interest(), Interest::Readable);
    assert!(!conn.finished());
}

#[test]
fn connections_share_the_keyspace() {
    let mut shard = Shard::new(0, None);
    let mut first = Connection::new();
    let mut second = Connection::new();
    serve(&mut first, &mut shard, b"*3\r\n$3\r\nSET\r\n$1\r\nk\r\n$1\r\nv\r\n");
    serve(&mut second, &mut shard, b"*2\r\n$3\r\nGET\r\n$1\r\nk\r\n");
    assert_eq!(drain(&mut first), b"+OK\r\n");
    assert_eq!(drain(&mut second), b"$1\r\nv\r\n");
}

#[test]
fn records_follow_the_order_of_the_requests() {
    let mut shard = Shard::new(0, Some(AofHandle::new()));
    let input = b"*3\r\n$3\r\nSET\r\n$1\r\na\r\n$1\r\n1\r\n*2\r\n$4\r\nINCR\r\n$1\r\na\r\n";
    assert_eq!(answer(&mut shard, input), b"+OK\r\n:2\r\n");
    let records = shard.aof.as_mut().unwrap().take_pending();
    assert_eq!(records.concat(), input);
    assert_eq!(records.len(), 2);
}

#[test]
fn tokens_pass_over_the_listener() {
    assert_eq!(LISTENER, 0);
    assert_eq!(READ_BUF, 4096);
    assert_eq!(LISTEN_BACKLOG, 1024);
    assert_eq!(ignix::DEFAULT_ADDR, "0.0.0.0:7379");
    assert_eq!(ignix::aof::DEFAULT_AOF_PATH, "ignix.aof");
    assert_eq!(next_token(1), 2);
    assert_eq!(next_token(41), 42);
    assert_eq!(next_token(usize::MAX - 1), usize::MAX);
    assert_eq!(next_token(usize::MAX), 1);
    assert_eq!(next_token(0), 1);
}
