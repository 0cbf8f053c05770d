//! What one connection does with the bytes it has read: decode every
//! complete request, run each against the store in arrival order, and
//! queue the replies in the same order.
use vstd::prelude::*;
use bytes::BytesMut;
use crate::codec::{buf_bytes, bytes_of, Codec};
use crate::db::{args_view, command_effect, DB};
use crate::error::Error;
use crate::frame::{parse_frame, Parse};

verus! {

/// What a connection owes for a stream of bytes.
pub enum Served {
    /// Every complete request was answered; `rest` awaits more bytes.
    Waiting { replies: Seq<u8>, store: Map<Seq<u8>, Seq<u8>>, rest: Seq<u8> },
    /// The stream broke the protocol, or a command was refused, after
    /// these replies: the connection is to be closed.
    Failed { replies: Seq<u8>, store: Map<Seq<u8>, Seq<u8>> },
}

/// Puts `r` before the replies of `s`.
pub open spec fn prepend(r: Seq<u8>, s: Served) -> Served {
    match s {
        Served::Waiting { replies, store, rest } => Served::Waiting { replies: r + replies, store, rest },
        Served::Failed { replies, store } => Served::Failed { replies: r + replies, store },
    }
}

/// The replies, final store and leftover bytes of the stream `t`, run
/// frame by frame against `store`.
pub open spec fn serve(t: Seq<u8>, store: Map<Seq<u8>, Seq<u8>>) -> Served
    decreases t.len(),
{
    match parse_frame(t) {
        Parse::Incomplete => Served::Waiting { replies: Seq::empty(), store, rest: t },
        Parse::Invalid => Served::Failed { replies: Seq::empty(), store },
        Parse::Done { req, len } => {
            if 0 < len <= t.len() {
                match req {
                    None => serve(t.skip(len), store),
                    Some(parts) => match command_effect(store, parts[0], parts.skip(1)) {
                        None => Served::Failed { replies: Seq::empty(), store },
                        Some((next, reply)) => prepend(reply, serve(t.skip(len), next)),
                    },
                }
            } else {
                Served::Failed { replies: Seq::empty(), store }
            }
        },
    }
}

proof fn lemma_prepend_twice(a: Seq<u8>, b: Seq<u8>, s: Served)
    ensures
        prepend(a, prepend(b, s)) == prepend(a + b, s),
{
    match s {
        Served::Waiting { replies, .. } => {
            assert(a + (b + replies) =~= (a + b) + replies);
        },
        Served::Failed { replies, .. } => {
            assert(a + (b + replies) =~= (a + b) + replies);
        },
    }
}

/// Decodes and runs every complete request in `src`, after the bytes the
/// decoder already holds, appending each reply to `out` in order.
///
/// On `Ok` the decoder keeps, with `src`, exactly the bytes of the frame
/// not yet complete; on `Err` the connection is to be closed, and `out`
/// holds the replies of the requests before the fault.
pub fn drain(codec: &mut Codec, src: &mut BytesMut, db: &mut DB, out: &mut Vec<u8>) -> (r: Result<(), Error>)
    requires
        old(codec).wf(),
        old(db).wf(),
    ensures
        final(codec).wf(),
        final(db).wf(),
        match serve(old(codec).consumed() + bytes_of(*old(src)), old(db).store()) {
            Served::Waiting { replies, store, rest } => {
                &&& r is Ok
                &&& final(out)@ == old(out)@ + replies
                &&& final(db).store() == store
                &&& final(codec).consumed() + bytes_of(*final(src)) == rest
            },
            Served::Failed { replies, store } => {
                &&& r is Err
                &&& final(out)@ == old(out)@ + replies
                &&& final(db).store() == store
            },
        },
{
    let ghost goal = prepend(
        old(out)@,
        serve(old(codec).consumed() + bytes_of(*old(src)), old(db).store()),
    );
    loop
        invariant
            codec.wf(),
            db.wf(),
            goal == prepend(out@, serve(codec.consumed() + bytes_of(*src), db.store())),
            goal == prepend(
                old(out)@,
                serve(old(codec).consumed() + bytes_of(*old(src)), old(db).store()),
            ),
        decreases bytes_of(*src).len(),
    {
        let ghost t = codec.consumed() + bytes_of(*src);
        let ghost store = db.store();
        proof {
            codec.lemma_frame_ends_later(bytes_of(*src));
        }
        let before = buf_bytes(src).len();
        match codec.decode(src) {
            Err(e) => {
                assert(out@ + Seq::<u8>::empty() =~= out@);
                return Err(e);
            },
            Ok(None) => {
                proof {
                    if let Parse::Done { len, .. } = parse_frame(t) {
                        assert(codec.consumed() + bytes_of(*src) =~= t.skip(len));
                    }
                }
                if buf_bytes(src).len() >= before {
                    assert(out@ + Seq::<u8>::empty() =~= out@);
                    return Ok(());
                }
            },
            Ok(Some(req)) => {
                let ghost parts = req.parts();
                assert(parts.skip(1) =~= args_view(req.args@));
                match db.process_command(&req.command, &req.args) {
                    Err(e) => {
                        assert(out@ + Seq::<u8>::empty() =~= out@);
                        return Err(e);
                    },
                    Ok(reply) => {
                        let ghost before = out@;
                        out.extend_from_slice(reply.as_slice());
                        assert(out@ =~= before + reply@);
                        proof {
                            if let Parse::Done { len, .. } = parse_frame(t) {
                                assert(codec.consumed() + bytes_of(*src) =~= t.skip(len));
                                lemma_prepend_twice(
                                    before,
                                    reply@,
                                    serve(codec.consumed() + bytes_of(*src), db.store()),
                                );
                            }
                        }
                    },
                }
            },
        }
    }
}

} // verus!
