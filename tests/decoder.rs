use bytes::BytesMut;
use redis_rs::codec::Codec;
use redis_rs::db::{CmdReq, CmdResp};
use redis_rs::error::Error;

fn buf(b: &[u8]) -> BytesMut {
    BytesMut::from(b)
}

fn parts(req: &CmdReq) -> (Vec<u8>, Vec<Vec<u8>>) {
    (req.command.clone(), req.args.clone())
}

#[test]
fn set_command_decodes_to_name_and_args() {
    let mut codec = Codec::new();
    let mut src = buf(b"*3\r\n$3\r\nSET\r\n$3\r\nfoo\r\n$3\r\nbar\r\n");
    let req = codec.decode(&mut src).unwrap().unwrap();
    assert_eq!(parts(&req), (b"SET".to_vec(), vec![b"foo".to_vec(), b"bar".to_vec()]));
    assert!(src.is_empty());
}

#[test]
fn one_byte_at_a_time_gives_the_same_command() {
    let frame = b"*3\r\n$3\r\nSET\r\n$3\r\nfoo\r\n$3\r\nbar\r\n";
    let mut codec = Codec::new();
    let mut src = BytesMut::new();
    let mut got = None;
    for (i, b) in frame.iter().enumerate() {
        src.extend_from_slice(&[*b]);
        let r = codec.decode(&mut src).unwrap();
        if i + 1 < frame.len() {
            assert!(r.is_none(), "completed early at byte {}", i);
        } else {
            got = r;
        }
    }
    let req = got.unwrap();
    assert_eq!(parts(&req), (b"SET".to_vec(), vec![b"foo".to_vec(), b"bar".to_vec()]));
    assert!(src.is_empty());
}

#[test]
fn uneven_chunks_give_the_same_command() {
    let frame: &[u8] = b"*2\r\n$4\r\nECHO\r\n$5\r\nhello\r\n";
    for cut in 0..=frame.len() {
        let mut codec = Codec::new();
        let mut src = buf(&frame[..cut]);
        let first = codec.decode(&mut src).unwrap();
        let req = match first {
            Some(req) => {
                assert_eq!(cut, frame.len());
                req
            }
            None => {
                src.extend_from_slice(&frame[cut..]);
                codec.decode(&mut src).unwrap().unwrap()
            }
        };
        assert_eq!(parts(&req), (b"ECHO".to_vec(), vec![b"hello".to_vec()]));
        assert!(src.is_empty());
    }
}

#[test]
fn consumed_bytes_equal_appended_bytes() {
    let stream: &[u8] = b"*1\r\n$4\r\nPING\r\n*2\r\n$3\r\nGET\r\n$1\r\nk\r\n";
    let mut codec = Codec::new();
    let mut src = BytesMut::new();
    let mut n = 0;
    for chunk in stream.chunks(3) {
        src.extend_from_slice(chunk);
        while let Some(_) = codec.decode(&mut src).unwrap() {
            n += 1;
        }
    }
    assert_eq!(n, 2);
    assert!(src.is_empty());
}

#[test]
fn decoder_is_fresh_after_a_complete_frame() {
    let mut codec = Codec::new();
    let mut src = buf(b"*1\r\n$4\r\nPING\r\nhello\r\n");
    let first = codec.decode(&mut src).unwrap().unwrap();
    assert_eq!(parts(&first), (b"PING".to_vec(), vec![]));
    let second = codec.decode(&mut src).unwrap().unwrap();
    assert_eq!(parts(&second), (b"hello".to_vec(), vec![]));
}

#[test]
fn zero_argument_count_is_a_no_op() {
    let mut codec = Codec::new();
    let mut src = buf(b"*0\r\n*1\r\n$4\r\nPING\r\n");
    assert!(codec.decode(&mut src).unwrap().is_none());
    assert_eq!(&src[..], b"*1\r\n$4\r\nPING\r\n");
    let req = codec.decode(&mut src).unwrap().unwrap();
    assert_eq!(parts(&req), (b"PING".to_vec(), vec![]));
}

#[test]
fn negative_argument_count_is_a_no_op() {
    let mut codec = Codec::new();
    let mut src = buf(b"*-1\r\n*1\r\n$4\r\nPING\r\n");
    assert!(codec.decode(&mut src).unwrap().is_none());
    assert_eq!(src.len(), 14);
    let req = codec.decode(&mut src).unwrap().unwrap();
    assert_eq!(parts(&req), (b"PING".to_vec(), vec![]));
}

#[test]
fn non_digit_in_count_is_rejected() {
    let mut codec = Codec::new();
    let mut src = buf(b"*1x\r\n$4\r\nPING\r\n");
    assert!(matches!(codec.decode(&mut src), Err(Error::Protocol(_))));
    let mut codec = Codec::new();
    let mut src = buf(b"*\r\n");
    assert!(matches!(codec.decode(&mut src), Err(Error::Protocol(_))));
    let mut codec = Codec::new();
    let mut src = buf(b"*1-\r\n");
    assert!(matches!(codec.decode(&mut src), Err(Error::Protocol(_))));
}

#[test]
fn count_above_the_limit_is_rejected() {
    let mut codec = Codec::new();
    let mut src = buf(b"*99999999999999999999999\r\n");
    assert!(matches!(codec.decode(&mut src), Err(Error::Protocol(_))));
}

#[test]
fn bulk_header_must_start_with_dollar() {
    let mut codec = Codec::new();
    let mut src = buf(b"*1\r\n+4\r\nPING\r\n");
    assert!(matches!(codec.decode(&mut src), Err(Error::Protocol(_))));
}

#[test]
fn bulk_without_terminator_is_rejected() {
    let mut codec = Codec::new();
    let mut src = buf(b"*1\r\n$4\r\nPINGxx");
    assert!(matches!(codec.decode(&mut src), Err(Error::Protocol(_))));
}

#[test]
fn header_cr_without_lf_waits_for_crlf() {
    let mut codec = Codec::new();
    let mut src = buf(b"*1\rX");
    assert!(codec.decode(&mut src).unwrap().is_none());
    assert_eq!(&src[..], b"*1\rX");
    src.extend_from_slice(b"\r\n");
    assert!(matches!(codec.decode(&mut src), Err(Error::Protocol(_))));
}

#[test]
fn bulk_header_cr_without_lf_waits_for_crlf() {
    let mut codec = Codec::new();
    let mut src = buf(b"*1\r\n$4\r");
    assert!(codec.decode(&mut src).unwrap().is_none());
    assert_eq!(&src[..], b"$4\r");
    src.extend_from_slice(b"\nPING\r\n");
    let req = codec.decode(&mut src).unwrap().unwrap();
    assert_eq!(parts(&req), (b"PING".to_vec(), vec![]));
}

#[test]
fn short_bulk_body_leaves_buffer_alone() {
    let mut codec = Codec::new();
    let mut src = buf(b"*1\r\n$4\r\nPI");
    assert!(codec.decode(&mut src).unwrap().is_none());
    assert_eq!(&src[..], b"PI");
    assert!(codec.decode(&mut src).unwrap().is_none());
    assert_eq!(&src[..], b"PI");
}

#[test]
fn empty_bulk_is_an_empty_argument() {
    let mut codec = Codec::new();
    let mut src = buf(b"*2\r\n$3\r\nGET\r\n$0\r\n\r\n");
    let req = codec.decode(&mut src).unwrap().unwrap();
    assert_eq!(parts(&req), (b"GET".to_vec(), vec![Vec::new()]));
}

#[test]
fn binary_payload_with_crlf_inside() {
    let mut codec = Codec::new();
    let mut src = buf(b"*2\r\n$3\r\nSET\r\n$4\r\na\r\nb\r\n");
    let req = codec.decode(&mut src).unwrap().unwrap();
    assert_eq!(parts(&req), (b"SET".to_vec(), vec![b"a\r\nb".to_vec()]));
}

#[test]
fn incomplete_frame_then_rest() {
    let mut codec = Codec::new();
    let mut src = buf(b"*2\r\n$3\r\nfoo");
    assert!(codec.decode(&mut src).unwrap().is_none());
    assert!(codec.decode(&mut src).unwrap().is_none());
    src.extend_from_slice(b"\r\n$3\r\nbar\r\n");
    let req = codec.decode(&mut src).unwrap().unwrap();
    assert_eq!(parts(&req), (b"foo".to_vec(), vec![b"bar".to_vec()]));
    assert!(src.is_empty());
}

#[test]
fn empty_input_is_incomplete() {
    let mut codec = Codec::new();
    let mut src = BytesMut::new();
    assert!(codec.decode(&mut src).unwrap().is_none());
}

#[test]
fn inline_line_with_crlf() {
    let mut codec = Codec::new();
    let mut src = buf(b"PING\r\nrest");
    let req = codec.decode(&mut src).unwrap().unwrap();
    assert_eq!(parts(&req), (b"PING".to_vec(), vec![]));
    assert_eq!(&src[..], b"rest");
}

#[test]
fn inline_line_with_bare_lf() {
    let mut codec = Codec::new();
    let mut src = buf(b"set a b\n");
    let req = codec.decode(&mut src).unwrap().unwrap();
    assert_eq!(parts(&req), (b"set a b".to_vec(), vec![]));
    assert!(src.is_empty());
}

#[test]
fn inline_without_terminator_waits() {
    let mut codec = Codec::new();
    let mut src = buf(b"PIN");
    assert!(codec.decode(&mut src).unwrap().is_none());
    assert_eq!(&src[..], b"PIN");
    src.extend_from_slice(b"G\n");
    let req = codec.decode(&mut src).unwrap().unwrap();
    assert_eq!(parts(&req), (b"PING".to_vec(), vec![]));
}

#[test]
fn overlong_inline_line_is_rejected() {
    let mut codec = Codec::new();
    let mut src = buf(&vec![b'a'; 65536]);
    assert!(matches!(codec.decode(&mut src), Err(Error::Protocol(_))));
    let mut codec = Codec::new();
    let mut src = buf(&vec![b'a'; 65535]);
    assert!(codec.decode(&mut src).unwrap().is_none());
}

#[test]
fn overlong_header_is_rejected() {
    let mut line = vec![b'*'];
    line.extend(vec![b'0'; 70000]);
    let mut codec = Codec::new();
    let mut src = buf(&line);
    assert!(matches!(codec.decode(&mut src), Err(Error::Protocol(_))));
}

#[test]
fn encode_appends_the_response() {
    let mut codec = Codec::new();
    let mut dst = buf(b"+OK\r\n");
    let mut resp = CmdResp::new();
    resp.data.extend_from_slice(b"+PONG\r\n");
    codec.encode(resp, &mut dst).unwrap();
    assert_eq!(&dst[..], b"+OK\r\n+PONG\r\n");
}
