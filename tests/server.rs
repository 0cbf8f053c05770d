use bytes::BytesMut;
use redis_rs::codec::Codec;
use redis_rs::config::{parse_config, Config};
use redis_rs::conn::drain;
use redis_rs::db::{CmdReq, CmdResp, Command, DB};
use redis_rs::error::{Error, RedisError};

/// A stand-in executor that answers every command with `+PONG`.
fn pong(_req: &CmdReq) -> Vec<u8> {
    b"+PONG\r\n".to_vec()
}

#[test]
fn pipelined_pings_answer_in_order() {
    let mut codec = Codec::new();
    let mut src = BytesMut::from(&b"*1\r\n$4\r\nPING\r\n*1\r\n$4\r\nPING\r\n"[..]);
    let mut out = Vec::new();
    let mut names = Vec::new();
    while let Some(req) = codec.decode(&mut src).unwrap() {
        names.push(req.command.clone());
        out.extend_from_slice(&pong(&req));
    }
    assert_eq!(names, vec![b"PING".to_vec(), b"PING".to_vec()]);
    assert_eq!(out, b"+PONG\r\n+PONG\r\n".to_vec());
    assert!(src.is_empty());
}

#[test]
fn pipelined_pings_split_across_reads() {
    let stream: &[u8] = b"*1\r\n$4\r\nPING\r\n*1\r\n$4\r\nPING\r\n";
    let mut codec = Codec::new();
    let mut src = BytesMut::new();
    let mut out = Vec::new();
    for chunk in stream.chunks(5) {
        src.extend_from_slice(chunk);
        while let Some(req) = codec.decode(&mut src).unwrap() {
            out.extend_from_slice(&pong(&req));
        }
    }
    assert_eq!(out, b"+PONG\r\n+PONG\r\n".to_vec());
}

#[test]
fn drain_answers_pipelined_commands_in_order() {
    let mut codec = Codec::new();
    let mut db = DB::new();
    let mut src = BytesMut::from(&b"*1\r\n$4\r\nPING\r\n*3\r\n$3\r\nSET\r\n$1\r\nk\r\n$1\r\nv\r\n"[..]);
    let mut out = Vec::new();
    drain(&mut codec, &mut src, &mut db, &mut out).unwrap();
    assert_eq!(out, b"+OK\r\n+OK\r\n".to_vec());
    assert!(src.is_empty());
}

#[test]
fn set_runs_once_and_answers_ok() {
    let mut codec = Codec::new();
    let mut db = DB::new();
    let mut src = BytesMut::from(&b"*3\r\n$3\r\nSET\r\n$3\r\nfoo\r\n$3\r\nbar\r\n*1\r\n$3\r\nSET"[..]);
    let mut out = Vec::new();
    drain(&mut codec, &mut src, &mut db, &mut out).unwrap();
    assert_eq!(out, b"+OK\r\n".to_vec());
}

#[test]
fn protocol_fault_keeps_earlier_replies() {
    let mut codec = Codec::new();
    let mut db = DB::new();
    let mut src = BytesMut::from(&b"*1\r\n$4\r\nPING\r\n*x\r\n"[..]);
    let mut out = Vec::new();
    let r = drain(&mut codec, &mut src, &mut db, &mut out);
    assert!(matches!(r, Err(Error::Protocol(_))));
    assert_eq!(out, b"+OK\r\n".to_vec());
}

#[test]
fn refused_command_closes_after_earlier_replies() {
    let mut codec = Codec::new();
    let mut db = DB::new();
    let mut src = BytesMut::from(&b"*1\r\n$4\r\nPING\r\n*2\r\n$3\r\nSET\r\n$1\r\nk\r\n"[..]);
    let mut out = Vec::new();
    let r = drain(&mut codec, &mut src, &mut db, &mut out);
    assert!(matches!(r, Err(Error::Redis(_))));
    assert_eq!(out, b"+OK\r\n".to_vec());
}

#[test]
fn no_op_frames_answer_nothing() {
    let mut codec = Codec::new();
    let mut db = DB::new();
    let mut src = BytesMut::from(&b"*0\r\n*-1\r\n*1\r\n$4\r\nPING\r\n"[..]);
    let mut out = Vec::new();
    drain(&mut codec, &mut src, &mut db, &mut out).unwrap();
    assert_eq!(out, b"+OK\r\n".to_vec());
}

#[test]
fn process_command_replies() {
    let mut db = DB::new();
    let set = db.process_command(&b"SET".to_vec(), &vec![b"k".to_vec(), b"v".to_vec()]).unwrap();
    assert_eq!(set, b"+OK\r\n".to_vec());
    let again = db.process_command(&b"SET".to_vec(), &vec![b"k".to_vec(), b"w".to_vec()]).unwrap();
    assert_eq!(again, b"+OK\r\n".to_vec());
    let ping = db.process_command(&b"PING".to_vec(), &vec![]).unwrap();
    assert_eq!(ping, b"+OK\r\n".to_vec());
    let extra = db
        .process_command(&b"SET".to_vec(), &vec![b"k".to_vec(), b"x".to_vec(), b"EX".to_vec()])
        .unwrap();
    assert_eq!(extra, b"+OK\r\n".to_vec());
    let command = db.process_command(&b"COMMAND".to_vec(), &vec![]).unwrap();
    assert_eq!(command, b"+OK\r\n".to_vec());
}

#[test]
fn set_with_wrong_arity_is_refused() {
    let mut db = DB::new();
    let r = db.process_command(&b"SET".to_vec(), &vec![b"k".to_vec()]);
    assert!(matches!(r, Err(Error::Redis(_))));
}

#[test]
fn exec_wraps_the_reply() {
    let mut db = DB::new();
    let mut req = CmdReq::new();
    req.command.extend_from_slice(b"SET");
    req.args.push(b"foo".to_vec());
    req.args.push(b"bar".to_vec());
    let resp: CmdResp = req.exec(&mut db).unwrap();
    assert_eq!(resp.as_bytes(), b"+OK\r\n");
    assert_eq!(req.command, b"SET".to_vec());
}

#[test]
fn exec_passes_on_a_refusal() {
    let mut db = DB::new();
    let mut req = CmdReq::new();
    req.command.extend_from_slice(b"SET");
    req.args.push(b"foo".to_vec());
    let r: Result<CmdResp, Error> = req.exec(&mut db);
    assert!(matches!(r, Err(Error::Redis(_))));
}

#[test]
fn reset_clears_the_request() {
    let mut req = CmdReq::new();
    req.command.extend_from_slice(b"SET");
    req.args.push(b"k".to_vec());
    req.reset();
    assert!(req.command.is_empty());
    assert!(req.args.is_empty());
}

#[test]
fn default_config_listens_on_loopback() {
    assert_eq!(Config::new().addr, "127.0.0.1:6379");
    assert_eq!(parse_config().unwrap().addr, "127.0.0.1:6379");
}

#[test]
fn redis_error_keeps_its_message() {
    let e = RedisError::new("boom".to_string());
    assert_eq!(e.msg, "boom");
}
