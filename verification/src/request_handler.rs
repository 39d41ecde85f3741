//! The request protocol between the session driver and the host application.
//!
//! The driver inverts control: it emits one request at a time and the host's
//! handler services it, optionally answering with a payload.  A handler may
//! return a break value to pause the driver mid-tick; the driver resumes from
//! the same structural position on its next call.

use vstd::prelude::*;

verus! {

use core::ops::ControlFlow;
use crate::Frame;
use crate::Nanos;
use crate::SerializedInput;
use crate::SerializedState;
use crate::inputs::PlayerInputs;

/// What the driver asks the host to do.
#[derive(Debug)]
#[non_exhaustive]
pub enum Request {
    /// Serialize the current simulation state; answer with `Saved`.
    SaveTo,
    /// Restore the given serialized state.
    LoadFrom(SerializedState),
    /// Advance the simulation by `amount` with the given per-player inputs.
    #[non_exhaustive]
    Advance { amount: Nanos, inputs: PlayerInputs, confirmed: Confirmation, current_frame: Frame },
    /// Serialize the local input for the current realtime frame; answer with
    /// `Captured`.
    CaptureLocalInput,
}

/// The host's answer to a request.
#[derive(Debug)]
pub enum Response {
    /// The answer to requests that carry no payload back.
    Handled,
    /// The serialized state asked for by `SaveTo`.
    Saved(SerializedState),
    /// The serialized local input asked for by `CaptureLocalInput`.
    Captured(SerializedInput),
}

/// How authoritative the inputs of an `Advance` are.
#[derive(Debug, PartialEq, Eq, Clone, Copy, Structural)]
pub enum Confirmation {
    /// Some input is still a hold-last guess; this frame may be re-executed.
    Unconfirmed,
    /// The first advance over this frame with fully confirmed inputs.
    First,
    /// A re-execution over inputs that were already confirmed once.
    Subsequent,
}

/// Implemented by the host; the driver hands it one request at a time.
///
/// The contract binds the answer's shape to the request's kind: a `SaveTo`
/// must be answered with `Saved`, a `CaptureLocalInput` with `Captured`, and
/// the rest with `Handled` — or with a break value to pause the driver.
pub trait RequestHandler {
    type Break;

    fn handle_request(&mut self, request: Request) -> (r: ControlFlow<Self::Break, Response>)
        ensures
            r matches ControlFlow::Continue(resp) ==> match request {
                Request::SaveTo => resp is Saved,
                Request::CaptureLocalInput => resp is Captured,
                _ => resp is Handled,
            },
    ;
}

/// Something that may carry a break value out of a handler.
pub trait MaybeMessage {
    type Message;

    fn as_message(self) -> Option<Self::Message>;
}

impl<M> MaybeMessage for ControlFlow<M> {
    type Message = M;

    fn as_message(self) -> Option<M> {
        match self {
            ControlFlow::Break(m) => Some(m),
            ControlFlow::Continue(()) => None,
        }
    }
}

impl<M> MaybeMessage for Option<M> {
    type Message = M;

    fn as_message(self) -> Option<M> {
        self
    }
}

impl MaybeMessage for () {
    type Message = ();

    fn as_message(self) -> Option<()> {
        None
    }
}

/// Control-flow helpers the driver leans on.
pub trait ControlFlowExt: Sized {
    type BreakValue;

    /// Wraps the break value in `Some`: the driver's marker for "the handler
    /// paused us" as opposed to "nothing more to do".
    fn break_into_option(self) -> ControlFlow<Option<Self::BreakValue>>;
}

impl<B> ControlFlowExt for ControlFlow<B> {
    type BreakValue = B;

    fn break_into_option(self) -> (r: ControlFlow<Option<B>>)
        ensures
            r == match self {
                ControlFlow::Break(b) => ControlFlow::Break(Some(b)),
                ControlFlow::Continue(c) => ControlFlow::<Option<B>, ()>::Continue(c),
            },
    {
        match self {
            ControlFlow::Break(b) => ControlFlow::Break(Some(b)),
            ControlFlow::Continue(c) => ControlFlow::Continue(c),
        }
    }
}

} // verus!
