use vstd::prelude::*;

verus! {

/// Where a transmission to the kernel failed.
#[derive(Clone, Copy, Debug, PartialEq, Eq, Structural)]
pub enum TransportError {
    /// The control socket could not be opened.
    Socket,
    /// The batch could not be sent.
    Send,
    /// Reading a response failed.
    Receive,
    /// A response could not be decoded, or reported an error.
    Kernel,
}

/// What decoding one response message gave.
#[derive(Clone, Copy, Debug, PartialEq, Eq, Structural)]
pub enum CallbackResult {
    /// An acknowledgement: more responses may follow.
    Continue,
    /// The terminal marker: the response stream is complete.
    Stop,
}

/// What the transport does next while it drains the kernel's responses.
#[derive(Clone, Copy, Debug, PartialEq, Eq, Structural)]
pub enum TransportAction {
    /// Decode the message of this many bytes that was just read.
    Decode(usize),
    /// Read the next message.
    ReadNext,
    /// All responses are in: the batch was applied.
    Finish,
    /// Stop and report this failure; nothing is retried.
    Fail(TransportError),
}

/// Decides what follows a read from the socket: a message to decode when
/// bytes came, the end when none did, the read's failure otherwise.
pub fn on_received(received: Result<usize, TransportError>) -> (a: TransportAction)
    ensures
        a == match received {
            Ok(n) => if n > 0 {
                TransportAction::Decode(n)
            } else {
                TransportAction::Finish
            },
            Err(e) => TransportAction::Fail(e),
        },
{
    match received {
        Ok(n) => if n > 0 {
            TransportAction::Decode(n)
        } else {
            TransportAction::Finish
        },
        Err(e) => TransportAction::Fail(e),
    }
}

/// Decides what follows the decoding of a message: read on after an
/// acknowledgement, finish at the terminal marker, fail on an error.
pub fn on_decoded(decoded: Result<CallbackResult, TransportError>) -> (a: TransportAction)
    ensures
        a == match decoded {
            Ok(CallbackResult::Continue) => TransportAction::ReadNext,
            Ok(CallbackResult::Stop) => TransportAction::Finish,
            Err(e) => TransportAction::Fail(e),
        },
{
    match decoded {
        Ok(CallbackResult::Continue) => TransportAction::ReadNext,
        Ok(CallbackResult::Stop) => TransportAction::Finish,
        Err(e) => TransportAction::Fail(e),
    }
}

} // verus!
