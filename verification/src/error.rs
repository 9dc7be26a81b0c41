//! The error taxonomy shared by client and server.

use vstd::prelude::*;

verus! {

/// What can go wrong in the runtime, by kind.
///
/// `Io` is a failure of the underlying stream, `Decode` a malformed packet
/// or end-of-input in the middle of one, `Protocol` a reply whose id has no
/// registered waiter, `Sender` a failed hand-off to the correlator,
/// `Handler` a failure of the user handler on the server, `Closed` the
/// outcome seen by callers still blocked when the client shuts down.
/// `Impossible` marks the accept loop returning normally, which is reserved,
/// and `Unimplemented` is likewise reserved.
#[derive(Clone, Copy, Debug, PartialEq, Eq, Structural)]
pub enum Error {
    Io,
    Decode,
    Protocol,
    Sender,
    Handler,
    Closed,
    Impossible,
    Unimplemented,
}

} // verus!
