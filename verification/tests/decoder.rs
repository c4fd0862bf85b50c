use bytes::BytesMut;
use ignix::protocol::{eq_ignore_case, parse_many, parse_one, read_decimal_line, Cmd, ProtocolError};

#[test]
fn decimal_line_values() {
    assert_eq!(read_decimal_line(b"3\r\n"), Ok((3, 3)));
    assert_eq!(read_decimal_line(b"12\r\nrest"), Ok((4, 12)));
    assert_eq!(read_decimal_line(b"-1\r\n"), Ok((4, -1)));
    assert_eq!(read_decimal_line(b"007\r\n"), Ok((5, 7)));
    assert_eq!(read_decimal_line(b"\r\n"), Ok((2, 0)));
    assert_eq!(read_decimal_line(b"-\r\n"), Ok((3, 0)));
    assert_eq!(
        read_decimal_line(b"9223372036854775807\r\n"),
        Ok((21, i64::MAX))
    );
    assert_eq!(
        read_decimal_line(b"-9223372036854775808\r\n"),
        Ok((22, i64::MIN))
    );
}

#[test]
fn decimal_line_not_yet_there() {
    assert_eq!(read_decimal_line(b""), Ok((0, 0)));
    assert_eq!(read_decimal_line(b"1"), Ok((0, 0)));
    assert_eq!(read_decimal_line(b"12\r"), Ok((0, 0)));
    assert_eq!(read_decimal_line(b"-"), Ok((0, 0)));
    assert_eq!(read_decimal_line(b"1x"), Ok((0, 0)));
    assert_eq!(read_decimal_line(b"99999999999999999999999"), Ok((0, 0)));
}

#[test]
fn decimal_line_errors() {
    assert_eq!(read_decimal_line(b"1x\r\n"), Err(ProtocolError::ExpectedCrlf));
    assert_eq!(read_decimal_line(b"12\rx"), Err(ProtocolError::ExpectedCrlf));
    assert_eq!(read_decimal_line(b"12\n\r"), Err(ProtocolError::ExpectedCrlf));
    assert_eq!(read_decimal_line(b"+1\r\n"), Err(ProtocolError::ExpectedCrlf));
    assert_eq!(read_decimal_line(b"1 \r\n"), Err(ProtocolError::ExpectedCrlf));
    assert_eq!(
        read_decimal_line(b"9223372036854775808\r\n"),
        Err(ProtocolError::NumberOverflow)
    );
    assert_eq!(
        read_decimal_line(b"-9223372036854775809\r\n"),
        Err(ProtocolError::NumberOverflow)
    );
    assert_eq!(
        read_decimal_line(b"99999999999999999999999999\r\n"),
        Err(ProtocolError::NumberOverflow)
    );
}

#[test]
fn one_frame_of_each_command() {
    assert_eq!(parse_one(b"*1\r\n$4\r\nPING\r\n"), Ok(Some((14, Cmd::Ping))));
    assert_eq!(
        parse_one(b"*2\r\n$3\r\nGET\r\n$5\r\nhello\r\n"),
        Ok(Some((24, Cmd::Get(b"hello".to_vec()))))
    );
    assert_eq!(
        parse_one(b"*3\r\n$3\r\nSET\r\n$5\r\nhello\r\n$5\r\nworld\r\n"),
        Ok(Some((35, Cmd::SetKey(b"hello".to_vec(), b"world".to_vec()))))
    );
    assert_eq!(
        parse_one(b"*2\r\n$3\r\nDEL\r\n$1\r\nk\r\n"),
        Ok(Some((20, Cmd::Del(b"k".to_vec()))))
    );
    assert_eq!(
        parse_one(b"*3\r\n$6\r\nRENAME\r\n$1\r\na\r\n$1\r\nb\r\n"),
        Ok(Some((30, Cmd::Rename(b"a".to_vec(), b"b".to_vec()))))
    );
    assert_eq!(
        parse_one(b"*2\r\n$6\r\nEXISTS\r\n$1\r\nk\r\n"),
        Ok(Some((23, Cmd::Exists(b"k".to_vec()))))
    );
    assert_eq!(
        parse_one(b"*2\r\n$4\r\nINCR\r\n$1\r\nk\r\n"),
        Ok(Some((21, Cmd::Incr(b"k".to_vec()))))
    );
    assert_eq!(
        parse_one(b"*4\r\n$4\r\nMGET\r\n$1\r\na\r\n$1\r\nb\r\n$1\r\nc\r\n"),
        Ok(Some((35, Cmd::MGet(vec![b"a".to_vec(), b"b".to_vec(), b"c".to_vec()]))))
    );
    assert_eq!(
        parse_one(b"*5\r\n$4\r\nMSET\r\n$1\r\na\r\n$1\r\n1\r\n$1\r\nb\r\n$1\r\n2\r\n"),
        Ok(Some((
            42,
            Cmd::MSet(vec![
                (b"a".to_vec(), b"1".to_vec()),
                (b"b".to_vec(), b"2".to_vec())
            ])
        )))
    );
}

#[test]
fn command_names_in_any_case() {
    assert_eq!(parse_one(b"*1\r\n$4\r\nping\r\n"), Ok(Some((14, Cmd::Ping))));
    assert_eq!(parse_one(b"*1\r\n$4\r\nPiNg\r\n"), Ok(Some((14, Cmd::Ping))));
    assert_eq!(
        parse_one(b"*2\r\n$3\r\ngEt\r\n$1\r\nk\r\n"),
        Ok(Some((20, Cmd::Get(b"k".to_vec()))))
    );
    assert!(eq_ignore_case(b"rename", b"RENAME"));
    assert!(eq_ignore_case(b"", b""));
    assert!(!eq_ignore_case(b"GET", b"GETS"));
    assert!(!eq_ignore_case(b"GET", b"SET"));
    assert!(!eq_ignore_case(b"@", b"`"));
    assert!(!eq_ignore_case(b"[", b"{"));
}

#[test]
fn only_the_first_frame_is_taken() {
    assert_eq!(
        parse_one(b"*1\r\n$4\r\nPING\r\n*1\r\n$4\r\nPING\r\n"),
        Ok(Some((14, Cmd::Ping)))
    );
    assert_eq!(parse_one(b"*1\r\n$4\r\nPING\r\ngarbage"), Ok(Some((14, Cmd::Ping))));
}

#[test]
fn payloads_are_binary() {
    assert_eq!(
        parse_one(b"*3\r\n$3\r\nSET\r\n$2\r\n\r\n\r\n$3\r\n\x00$*\r\n"),
        Ok(Some((30, Cmd::SetKey(b"\r\n".to_vec(), b"\x00$*".to_vec()))))
    );
    assert_eq!(
        parse_one(b"*2\r\n$3\r\nGET\r\n$0\r\n\r\n"),
        Ok(Some((19, Cmd::Get(Vec::new()))))
    );
}

#[test]
fn arguments_beyond_those_used_are_ignored() {
    assert_eq!(
        parse_one(b"*3\r\n$3\r\nGET\r\n$1\r\na\r\n$1\r\nb\r\n"),
        Ok(Some((27, Cmd::Get(b"a".to_vec()))))
    );
    assert_eq!(
        parse_one(b"*4\r\n$3\r\nSET\r\n$1\r\na\r\n$1\r\nb\r\n$1\r\nc\r\n"),
        Ok(Some((34, Cmd::SetKey(b"a".to_vec(), b"b".to_vec()))))
    );
    assert_eq!(
        parse_one(b"*3\r\n$3\r\nDEL\r\n$1\r\na\r\n$1\r\nb\r\n"),
        Ok(Some((27, Cmd::Del(b"a".to_vec()))))
    );
}

#[test]
fn every_proper_prefix_of_a_frame_is_incomplete() {
    let frame = b"*3\r\n$3\r\nSET\r\n$5\r\nhello\r\n$5\r\nworld\r\n";
    for n in 0..frame.len() {
        assert_eq!(parse_one(&frame[..n]), Ok(None), "prefix of {} bytes", n);
    }
    assert!(matches!(parse_one(frame), Ok(Some((35, _)))));
}

#[test]
fn frames_that_are_no_frames() {
    assert_eq!(parse_one(b"PING\r\n"), Err(ProtocolError::ExpectedArray));
    assert_eq!(parse_one(b"+OK\r\n"), Err(ProtocolError::ExpectedArray));
    assert_eq!(parse_one(b"*0\r\n"), Err(ProtocolError::EmptyArray));
    assert_eq!(parse_one(b"*-1\r\n"), Err(ProtocolError::EmptyArray));
    assert_eq!(parse_one(b"*\r\n"), Err(ProtocolError::EmptyArray));
    assert_eq!(parse_one(b"*1\r\n+PING\r\n"), Err(ProtocolError::ExpectedBulk));
    assert_eq!(parse_one(b"*2\r\n$3\r\nGET\r\n:1\r\n"), Err(ProtocolError::ExpectedBulk));
    assert_eq!(parse_one(b"*1\r\n$-1\r\n"), Err(ProtocolError::NegativeLength));
    assert_eq!(parse_one(b"*1x\r\n"), Err(ProtocolError::ExpectedCrlf));
    assert_eq!(parse_one(b"*1\r\n$4x\r\nPING\r\n"), Err(ProtocolError::ExpectedCrlf));
    assert_eq!(parse_one(b"*1\r\n$4\r\nPINGxx"), Err(ProtocolError::ExpectedCrlf));
    assert_eq!(parse_one(b"*1\r\n$4\r\nPING\n\r"), Err(ProtocolError::ExpectedCrlf));
    assert_eq!(
        parse_one(b"*99999999999999999999\r\n"),
        Err(ProtocolError::NumberOverflow)
    );
    assert_eq!(
        parse_one(b"*1\r\n$99999999999999999999\r\n"),
        Err(ProtocolError::NumberOverflow)
    );
}

#[test]
fn unknown_commands_and_arities() {
    assert_eq!(parse_one(b"*1\r\n$4\r\nQUIT\r\n"), Err(ProtocolError::UnknownCommand));
    assert_eq!(parse_one(b"*1\r\n$0\r\n\r\n"), Err(ProtocolError::UnknownCommand));
    assert_eq!(parse_one(b"*1\r\n$3\r\nGET\r\n"), Err(ProtocolError::UnknownCommand));
    assert_eq!(
        parse_one(b"*2\r\n$3\r\nSET\r\n$1\r\na\r\n"),
        Err(ProtocolError::UnknownCommand)
    );
    assert_eq!(parse_one(b"*1\r\n$3\r\nDEL\r\n"), Err(ProtocolError::UnknownCommand));
    assert_eq!(
        parse_one(b"*2\r\n$6\r\nRENAME\r\n$1\r\na\r\n"),
        Err(ProtocolError::UnknownCommand)
    );
    assert_eq!(parse_one(b"*1\r\n$6\r\nEXISTS\r\n"), Err(ProtocolError::UnknownCommand));
    assert_eq!(parse_one(b"*1\r\n$4\r\nINCR\r\n"), Err(ProtocolError::UnknownCommand));
    assert_eq!(parse_one(b"*1\r\n$4\r\nMGET\r\n"), Err(ProtocolError::UnknownCommand));
    assert_eq!(
        parse_one(b"*2\r\n$4\r\nMSET\r\n$1\r\na\r\n"),
        Err(ProtocolError::UnknownCommand)
    );
    assert_eq!(
        parse_one(b"*4\r\n$4\r\nMSET\r\n$1\r\na\r\n$1\r\n1\r\n$1\r\nb\r\n"),
        Err(ProtocolError::UnknownCommand)
    );
    assert_eq!(
        parse_one(b"*2\r\n$4\r\nPING\r\n$1\r\nx\r\n"),
        Err(ProtocolError::UnknownCommand)
    );
}

#[test]
fn a_frame_is_judged_when_it_is_complete() {
    assert_eq!(parse_one(b"*2\r\n$4\r\nQUIT\r\n"), Ok(None));
    assert_eq!(
        parse_one(b"*2\r\n$4\r\nQUIT\r\n$1\r\nx\r\n"),
        Err(ProtocolError::UnknownCommand)
    );
    assert_eq!(parse_one(b"*1"), Ok(None));
    assert_eq!(parse_one(b"*1\r\n$4\r\nPING\r"), Ok(None));
    assert_eq!(parse_one(b"*1\r\n$4\r\nPINGx"), Ok(None));
    assert_eq!(parse_one(b"*1\r\n$100\r\nPING\r\n"), Ok(None));
    assert_eq!(parse_one(b"*9223372036854775807\r\n"), Ok(None));
    assert_eq!(parse_one(b"*1\r\n$9223372036854775807\r\nPING"), Ok(None));
}

#[test]
fn pipelined_frames_leave_the_buffer() {
    let mut buf = BytesMut::new();
    buf.extend_from_slice(b"*1\r\n$4\r\nPING\r\n*2\r\n$3\r\nGET\r\n$1\r\na\r\n*2\r\n$3\r\nGE");
    let mut cmds = vec![Cmd::Ping];
    assert_eq!(parse_many(&mut buf, &mut cmds), Ok(()));
    assert_eq!(cmds, vec![Cmd::Ping, Cmd::Ping, Cmd::Get(b"a".to_vec())]);
    assert_eq!(&buf[..], b"*2\r\n$3\r\nGE");
    buf.extend_from_slice(b"T\r\n$1\r\nb\r\n");
    assert_eq!(parse_many(&mut buf, &mut cmds), Ok(()));
    assert_eq!(cmds.len(), 4);
    assert_eq!(cmds[3], Cmd::Get(b"b".to_vec()));
    assert!(buf.is_empty());
    assert_eq!(parse_many(&mut buf, &mut cmds), Ok(()));
    assert_eq!(cmds.len(), 4);
}

#[test]
fn an_error_stops_the_decoder_where_it_is() {
    let mut buf = BytesMut::new();
    buf.extend_from_slice(b"*1\r\n$4\r\nPING\r\nhello\r\n");
    let mut cmds = Vec::new();
    assert_eq!(
        parse_many(&mut buf, &mut cmds),
        Err(ProtocolError::ExpectedArray)
    );
    assert_eq!(cmds, vec![Cmd::Ping]);
    assert_eq!(&buf[..], b"hello\r\n");
}

#[test]
fn error_messages() {
    assert_eq!(ProtocolError::ExpectedArray.message(), "protocol error: expected array");
    assert_eq!(ProtocolError::EmptyArray.message(), "empty array");
    assert_eq!(ProtocolError::ExpectedBulk.message(), "expected bulk");
    assert_eq!(ProtocolError::NegativeLength.message(), "negative bulk length");
    assert_eq!(ProtocolError::ExpectedCrlf.message(), "expected CRLF");
    assert_eq!(ProtocolError::NumberOverflow.message(), "number out of range");
    assert_eq!(ProtocolError::UnknownCommand.message(), "unknown/invalid command");
}
