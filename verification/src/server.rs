//! The server side: the per-connection serve logic.
//!
//! A connection worker reads the inbound bytes of one accepted stream and
//! hands them to [`handle_conn`], which decodes request frames one after the
//! other, invokes the shared handler on each request payload, and collects
//! the reply frames, in request order, until a shutdown frame or the end of
//! the input.

use vstd::prelude::*;
use crate::codec::{
    decode_packet, encode_packet, append_bytes, payload_ok, frame, parse_stream, valid_payload,
    Decoded, StreamEnd,
};
use crate::error::Error;
use crate::packet::Packet;

verus! {

/// The user-supplied request handler. One handler value is shared by every
/// connection worker; it must tolerate being invoked from many of them.
/// Nothing is promised of its results: [`answer`] states what the serve
/// loop does with every possible outcome.
pub trait Serve<Request, Reply> {
    fn serve(&self, request: &Request) -> Result<Reply, Error>;
}

/// The concatenation of the reply frames for the requests in `msgs`,
/// answered in order by the payloads in `reps`.
pub open spec fn reply_frames(msgs: Seq<(u64, Seq<u8>)>, reps: Seq<Seq<u8>>) -> Seq<u8>
    decreases msgs.len(),
{
    if msgs.len() == 0 || msgs.len() != reps.len() {
        Seq::empty()
    } else {
        reply_frames(msgs.drop_last(), reps.drop_last()) + frame(
            Packet::Message(msgs.last().0, reps.last()),
        )
    }
}

/// What the serve loop does with the handler's outcome for the request of
/// `id`: a failure comes back as that failure and writes nothing; a reply
/// that is not one self-delimiting value is the handler's fault, writes
/// nothing, and comes back as [`Error::Handler`]; any other reply is framed
/// under the request's id and appended to the outbound bytes.
pub fn answer(id: u64, res: Result<Vec<u8>, Error>, out: &mut Vec<u8>) -> (r: Result<(), Error>)
    ensures
        res matches Err(e) ==> (r == Err::<(), Error>(e) && final(out)@ == old(out)@),
        res matches Ok(p) ==> (if valid_payload(p@) {
            r is Ok && final(out)@ == old(out)@ + frame(Packet::Message(id, p@))
        } else {
            r == Err::<(), Error>(Error::Handler) && final(out)@ == old(out)@
        }),
{
    match res {
        Err(e) => Err(e),
        Ok(p) => {
            if !payload_ok(&p) {
                return Err(Error::Handler);
            }
            let reply = Packet::Message(id, p);
            let fr = encode_packet(&reply);
            append_bytes(out, &fr);
            Ok(())
        },
    }
}

/// Serves one connection whose inbound bytes are `input`: decodes each
/// message frame, runs the handler on its payload, and answers it under the
/// same id with [`answer`]. The ghost result names the reply payloads that
/// were framed, in request order, one per answered request.
///
/// Success comes exactly when every request of the stream was answered and
/// the stream then ended at a shutdown frame or cleanly between frames; the
/// outbound bytes are then the reply frames for those payloads, in request
/// order. Once every request is answered, input that stops inside a frame
/// or breaks the framing is exactly [`Error::Decode`]; otherwise the loop
/// stopped at the first request that [`answer`] refused, and returns what
/// it returned.
pub fn handle_conn<F: Serve<Vec<u8>, Vec<u8>>>(input: &[u8], f: &F) -> (r: (
    Result<Vec<u8>, Error>,
    Ghost<Seq<Seq<u8>>>,
))
    ensures
        ({
            let msgs = parse_stream(input@, 0).0;
            let end = parse_stream(input@, 0).1;
            let reps = r.1@;
            &&& reps.len() <= msgs.len()
            &&& forall|q: int| 0 <= q < reps.len() ==> valid_payload(#[trigger] reps[q])
            &&& (r.0 is Ok <==> (reps.len() == msgs.len() && (end is Shut || end is Clean)))
            &&& (r.0 matches Ok(out) ==> out@ == reply_frames(msgs, reps))
            &&& (r.0 matches Err(e) ==> (reps.len() == msgs.len() ==> ((end is Truncated
                || end is Malformed) && e == Error::Decode)))
        }),
{
    let mut out: Vec<u8> = Vec::new();
    let mut pos: usize = 0;
    let ghost mut done: Seq<(u64, Seq<u8>)> = Seq::empty();
    let ghost mut reps: Seq<Seq<u8>> = Seq::empty();
    loop
        invariant
            pos <= input@.len(),
            parse_stream(input@, 0).0 == done + parse_stream(input@, pos as int).0,
            parse_stream(input@, 0).1 == parse_stream(input@, pos as int).1,
            reps.len() == done.len(),
            forall|q: int| 0 <= q < reps.len() ==> valid_payload(#[trigger] reps[q]),
            out@ == reply_frames(done, reps),
        decreases input@.len() - pos,
    {
        match decode_packet(input, pos) {
            Decoded::CleanEnd => {
                proof {
                    assert(done + parse_stream(input@, pos as int).0 =~= done);
                }
                return (Ok(out), Ghost(reps));
            },
            Decoded::NeedMore => {
                proof {
                    assert(done + parse_stream(input@, pos as int).0 =~= done);
                }
                return (Err(Error::Decode), Ghost(reps));
            },
            Decoded::Malformed => {
                proof {
                    assert(done + parse_stream(input@, pos as int).0 =~= done);
                }
                return (Err(Error::Decode), Ghost(reps));
            },
            Decoded::Found(pkt, n) => {
                match pkt {
                    Packet::Shutdown => {
                        proof {
                            assert(done + parse_stream(input@, pos as int).0 =~= done);
                        }
                        return (Ok(out), Ghost(reps));
                    },
                    Packet::Message(id, req) => {
                        let res = f.serve(&req);
                        let ghost res0 = res;
                        match answer(id, res, &mut out) {
                            Err(e) => {
                                proof {
                                    assert(parse_stream(input@, 0).0.len() >= done.len() + 1);
                                }
                                return (Err(e), Ghost(reps));
                            },
                            Ok(_u) => {
                                proof {
                                    let rep: Seq<u8> = match res0 {
                                        Ok(p) => p@,
                                        Err(_) => Seq::empty(),
                                    };
                                    if res0 is Err {
                                        assert(false);
                                    }
                                    assert(valid_payload(rep));
                                    let step = seq![(id, req@)];
                                    let done2 = done + step;
                                    let reps2 = reps + seq![rep];
                                    assert(done2.drop_last() =~= done);
                                    assert(reps2.drop_last() =~= reps);
                                    assert(done2.last() == (id, req@));
                                    assert(reply_frames(done2, reps2) == reply_frames(done, reps)
                                        + frame(Packet::Message(id, rep)));
                                    assert(parse_stream(input@, pos as int).0 == step
                                        + parse_stream(input@, n as int).0);
                                    assert(done + parse_stream(input@, pos as int).0 =~= done2
                                        + parse_stream(input@, n as int).0);
                                    done = done2;
                                    reps = reps2;
                                }
                                pos = n;
                            },
                        }
                    },
                }
            },
        }
    }
}

} // verus!
