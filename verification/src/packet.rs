//! The framing unit on the wire: a correlated message or a shutdown signal.

use vstd::prelude::*;

verus! {

/// A packet is either a correlated message — an id assigned by the
/// originator of a call and echoed verbatim in the reply, together with a
/// payload — or a shutdown signal that carries nothing.
#[derive(Debug, PartialEq, Eq)]
pub enum Packet<T> {
    Message(u64, T),
    Shutdown,
}

/// The mathematical model of a packet whose payload is a byte string: the
/// same shape over `Seq<u8>`.
impl View for Packet<Vec<u8>> {
    type V = Packet<Seq<u8>>;

    open spec fn view(&self) -> Packet<Seq<u8>> {
        match self {
            Packet::Message(id, payload) => Packet::Message(*id, payload@),
            Packet::Shutdown => Packet::Shutdown,
        }
    }
}

} // verus!
