use ignix::protocol::{
    resp_array, resp_bulk, resp_integer, resp_null, resp_simple, write_array_len, write_bulk,
    write_error, write_error_bytes, write_integer, write_null, write_simple, write_simple_bytes,
};

#[test]
fn simple_string_reply() {
    assert_eq!(resp_simple("OK"), b"+OK\r\n");
    assert_eq!(resp_simple("PONG"), b"+PONG\r\n");
    assert_eq!(resp_simple(""), b"+\r\n");
}

#[test]
fn bulk_string_reply() {
    assert_eq!(resp_bulk(b"world"), b"$5\r\nworld\r\n");
    assert_eq!(resp_bulk(b""), b"$0\r\n\r\n");
    assert_eq!(resp_bulk(b"a\r\nb"), b"$4\r\na\r\nb\r\n");
    assert_eq!(resp_bulk(&[0u8, 255, 10]), b"$3\r\n\x00\xff\n\r\n");
    assert_eq!(resp_bulk(b"0123456789"), b"$10\r\n0123456789\r\n");
}

#[test]
fn null_bulk_reply() {
    assert_eq!(resp_null(), b"$-1\r\n");
}

#[test]
fn integer_reply() {
    assert_eq!(resp_integer(0), b":0\r\n");
    assert_eq!(resp_integer(42), b":42\r\n");
    assert_eq!(resp_integer(-3), b":-3\r\n");
    assert_eq!(resp_integer(i64::MIN), b":-9223372036854775808\r\n");
}

#[test]
fn array_reply() {
    assert_eq!(resp_array(vec![]), b"*0\r\n");
    assert_eq!(
        resp_array(vec![resp_bulk(b"1"), resp_null(), resp_null()]),
        b"*3\r\n$1\r\n1\r\n$-1\r\n$-1\r\n"
    );
}

#[test]
fn replies_are_appended() {
    let mut out = b"+PONG\r\n".to_vec();
    write_simple("OK", &mut out);
    write_error("ERR no such key", &mut out);
    write_integer(7, &mut out);
    write_bulk(b"hi", &mut out);
    write_null(&mut out);
    write_array_len(12, &mut out);
    write_simple_bytes(b"A", &mut out);
    write_error_bytes(b"B", &mut out);
    assert_eq!(
        out,
        b"+PONG\r\n+OK\r\n-ERR no such key\r\n:7\r\n$2\r\nhi\r\n$-1\r\n*12\r\n+A\r\n-B\r\n"
    );
}
