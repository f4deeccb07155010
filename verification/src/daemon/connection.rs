//! What the daemon decides about a connection.

use crate::proto::frame::{framed, law_framed_comes_out, peek, Peek};
use crate::proto::{FrameDecoder, FrameError, MAX_CLIENT_FRAME};
use vstd::prelude::*;

verus! {

/// Connections served at a time.
pub const MAX_CONNECTIONS: usize = 64;

/// Pages of a reply that wait to be written.
pub const QUERY_PAGE_BACKLOG: usize = 4;

/// Seconds after which a silent client is dropped.
pub const IDLE_TIMEOUT_SECS: u64 = 30;

/// Bytes read at a time.
pub const READ_CHUNK: usize = 16_384;

/// Whether one more client is served. At the limit the newest is dropped, and
/// the daemon stays free to answer those it has.
pub fn admits(served: usize) -> (res: bool)
    ensures
        res == (served < MAX_CONNECTIONS),
{
    served < MAX_CONNECTIONS
}

/// Whether the server stops: when it is told to, or when nobody is left who
/// could tell it.
pub fn must_stop(told: bool, senders_gone: bool) -> (res: bool)
    ensures
        res == (told || senders_gone),
{
    told || senders_gone
}

/// What a wait for the client's bytes came to.
#[derive(Clone, Copy, Debug, PartialEq, Eq, Structural)]
pub enum Arrival {
    /// None within [`IDLE_TIMEOUT_SECS`].
    Timeout,
    /// So many bytes; none means that the client has closed.
    Bytes(usize),
}

/// What to do next on a connection.
pub enum ConnStep {
    /// Answer this request, then ask for the next step.
    Request(Vec<u8>),
    /// Wait for more bytes.
    Wait,
    /// Close the connection: the client sends what is no frame.
    Fail(FrameError),
}

/// A connection.
pub struct Connection {
    decoder: FrameDecoder,
}

impl Connection {
    /// The bytes received and not yet taken up.
    pub closed spec fn pending(&self) -> Seq<u8> {
        self.decoder.bytes()
    }

    /// The longest frame taken is that of a client.
    pub closed spec fn wf(&self) -> bool {
        self.decoder.limit() == MAX_CLIENT_FRAME
    }

    /// A connection on which nothing was received.
    pub fn new() -> (conn: Connection)
        ensures
            conn.wf(),
            conn.pending() == Seq::<u8>::empty(),
    {
        Connection { decoder: FrameDecoder::new(MAX_CLIENT_FRAME) }
    }

    /// Takes in what arrived: the first bytes of `buffer`. Tells whether the
    /// connection goes on; a silent client is dropped, so that it does not hold
    /// a place for ever.
    pub fn on_arrival(&mut self, arrival: Arrival, buffer: &[u8]) -> (goes_on: bool)
        requires
            old(self).wf(),
            arrival is Bytes ==> arrival->Bytes_0 <= buffer@.len(),
        ensures
            final(self).wf(),
            goes_on == (arrival is Bytes && arrival->Bytes_0 > 0),
            goes_on ==> final(self).pending() == old(self).pending() + buffer@.take(
                arrival->Bytes_0 as int,
            ),
            !goes_on ==> final(self).pending() == old(self).pending(),
    {
        match arrival {
            Arrival::Timeout => false,
            Arrival::Bytes(n) => {
                if n == 0 {
                    return false;
                }
                assert(buffer@.subrange(0, n as int) =~= buffer@.take(n as int));
                self.decoder.feed(vstd::slice::slice_subrange(buffer, 0, n));
                true
            },
        }
    }

    /// The next request among the bytes received.
    pub fn next_step(&mut self) -> (step: ConnStep)
        requires
            old(self).wf(),
        ensures
            final(self).wf(),
            match peek(old(self).pending(), MAX_CLIENT_FRAME) {
                Peek::Whole(n) => {
                    &&& step is Request
                    &&& step->Request_0@ == old(self).pending().subrange(4, 4 + n)
                    &&& final(self).pending() == old(self).pending().skip(4 + n)
                },
                Peek::Partial => step is Wait && final(self).pending() == old(self).pending(),
                Peek::TooLong(len) => {
                    &&& step is Fail
                    &&& step->Fail_0 == (FrameError::TooLong { len, max: MAX_CLIENT_FRAME })
                    &&& final(self).pending() == old(self).pending()
                },
            },
    {
        match self.decoder.next_frame() {
            Ok(Some(frame)) => ConnStep::Request(frame),
            Ok(None) => ConnStep::Wait,
            Err(e) => ConnStep::Fail(e),
        }
    }
}

/// A request that a client sends in a frame is the request that is answered, and
/// what follows it waits its turn.
pub proof fn law_request_arrives(request: Seq<u8>, rest: Seq<u8>)
    requires
        request.len() <= MAX_CLIENT_FRAME,
    ensures
        ({
            let bytes = framed(request) + rest;
            &&& peek(bytes, MAX_CLIENT_FRAME) == Peek::Whole(request.len() as u32)
            &&& bytes.subrange(4, 4 + request.len() as int) == request
            &&& bytes.skip(4 + request.len() as int) == rest
        }),
{
    law_framed_comes_out(request, rest, MAX_CLIENT_FRAME);
}

} // verus!
