//! Client front-end state and the client reader.
//!
//! The front end assigns request ids monotonically under one exclusion
//! lock, registers the waiter with the correlator, and writes the request
//! frame — all in one atomic section, so that a reply can never arrive
//! before its waiter is registered, and the bytes of two requests never
//! interleave on the stream. The reader owns the read half and turns the
//! inbound bytes into reply messages for the correlator.

use vstd::prelude::*;
use crate::codec::{
    decode_packet, encode_packet, frame, parse_stream, valid_payload, Decoded, StreamEnd,
};
use crate::correlator::Handle;
use crate::packet::Packet;

verus! {

/// Takes the current value as the id of the next call and advances the
/// counter by one.
pub fn increment(cur_id: &mut u64) -> (id: u64)
    requires
        *cur_id < u64::MAX,
    ensures
        id == *old(cur_id),
        *final(cur_id) == *old(cur_id) + 1,
{
    let id = *cur_id;
    *cur_id += 1;
    id
}

/// The messages a reader produced, as the specification sees them.
pub open spec fn msgs_view(v: Seq<(u64, Vec<u8>)>) -> Seq<(u64, Seq<u8>)> {
    v.map_values(|t: (u64, Vec<u8>)| (t.0, t.1@))
}

/// The reader: decodes every reply frame of the inbound bytes, in order,
/// and says how the stream ended — cleanly between frames, at a shutdown
/// frame, in the middle of a frame, or at a malformed frame. Whatever the
/// ending, every complete reply before it is handed on.
pub fn reader(input: &[u8]) -> (r: (Vec<(u64, Vec<u8>)>, StreamEnd))
    ensures
        msgs_view(r.0@) == parse_stream(input@, 0).0,
        r.1 == parse_stream(input@, 0).1,
{
    let mut out: Vec<(u64, Vec<u8>)> = Vec::new();
    let mut pos: usize = 0;
    proof {
        assert(msgs_view(out@) + parse_stream(input@, 0).0 =~= parse_stream(input@, 0).0);
    }
    loop
        invariant
            pos <= input@.len(),
            parse_stream(input@, 0).0 == msgs_view(out@) + parse_stream(input@, pos as int).0,
            parse_stream(input@, 0).1 == parse_stream(input@, pos as int).1,
        decreases input@.len() - pos,
    {
        match decode_packet(input, pos) {
            Decoded::CleanEnd => {
                proof {
                    assert(msgs_view(out@) + parse_stream(input@, pos as int).0 =~= msgs_view(
                        out@,
                    ));
                }
                return (out, StreamEnd::Clean);
            },
            Decoded::NeedMore => {
                proof {
                    assert(msgs_view(out@) + parse_stream(input@, pos as int).0 =~= msgs_view(
                        out@,
                    ));
                }
                return (out, StreamEnd::Truncated);
            },
            Decoded::Malformed => {
                proof {
                    assert(msgs_view(out@) + parse_stream(input@, pos as int).0 =~= msgs_view(
                        out@,
                    ));
                }
                return (out, StreamEnd::Malformed);
            },
            Decoded::Found(pkt, n) => {
                match pkt {
                    Packet::Shutdown => {
                        proof {
                            assert(msgs_view(out@) + parse_stream(input@, pos as int).0
                                =~= msgs_view(out@));
                        }
                        return (out, StreamEnd::Shut);
                    },
                    Packet::Message(id, pl) => {
                        let ghost out0 = out@;
                        out.push((id, pl));
                        proof {
                            assert(msgs_view(out@) =~= msgs_view(out0) + seq![
                                (id, out@.last().1@),
                            ]);
                            assert(msgs_view(out0) + parse_stream(input@, pos as int).0
                                =~= msgs_view(out@) + parse_stream(input@, n as int).0);
                        }
                        pos = n;
                    },
                }
            },
        }
    }
}

/// The client state guarded by the exclusion lock, as far as the library
/// models it: the id counter for the next call, together with the history
/// of the ids already handed out.
pub struct SyncedClientState {
    pub next_id: u64,
    pub assigned: Ghost<Seq<u64>>,
}

impl SyncedClientState {
    /// Well-formed: the counter counts the calls made, and the `i`-th call
    /// was assigned id `i`.
    pub open spec fn wf(&self) -> bool {
        &&& self.assigned@.len() == self.next_id
        &&& forall|i: int| 0 <= i < self.assigned@.len() ==> self.assigned@[i] == i
    }

    /// The state of a fresh client: no call made yet, first id 0.
    pub fn new() -> (st: Self)
        ensures
            st.wf(),
            st.next_id == 0,
            st.assigned@.len() == 0,
    {
        SyncedClientState { next_id: 0, assigned: Ghost(Seq::empty()) }
    }

    /// The atomic section of one call, up to the write: allocates the id,
    /// pairs the caller's waiter with it for the correlator, and builds the
    /// request frame. The whole request is one contiguous frame, so writing
    /// it under the lock keeps the bytes of concurrent calls apart.
    pub fn prepare_call<W>(&mut self, waiter: W, payload: Vec<u8>) -> (r: (Handle<W>, Vec<u8>))
        requires
            old(self).wf(),
            old(self).next_id < u64::MAX,
            valid_payload(payload@),
        ensures
            final(self).wf(),
            r.0.id == old(self).next_id,
            r.0.waiter == waiter,
            final(self).next_id == old(self).next_id + 1,
            final(self).assigned@ == old(self).assigned@.push(old(self).next_id),
            r.1@ == frame(Packet::Message(r.0.id, payload@)),
    {
        let id = increment(&mut self.next_id);
        proof {
            self.assigned@ = self.assigned@.push(id);
        }
        let pkt = Packet::Message(id, payload);
        let fr = encode_packet(&pkt);
        (Handle { id, waiter }, fr)
    }
}

/// Ids assigned by one client instance are strictly monotonically
/// increasing, starting at 0, and are never reused.
pub proof fn lemma_ids_monotonic(st: SyncedClientState)
    requires
        st.wf(),
    ensures
        forall|i: int, j: int|
            0 <= i < j < st.assigned@.len() ==> st.assigned@[i] < st.assigned@[j],
        st.assigned@.len() > 0 ==> st.assigned@[0] == 0,
{
}

/// The frame the client writes under the lock when it shuts down.
pub fn shutdown_frame() -> (v: Vec<u8>)
    ensures
        v@ == frame(Packet::Shutdown),
{
    let pkt: Packet<Vec<u8>> = Packet::Shutdown;
    encode_packet(&pkt)
}

} // verus!
