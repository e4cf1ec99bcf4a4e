//! Cooperative cancellation of a long-running pass.

use vstd::prelude::*;

verus! {

/// The value a caller sends to ask a running pass to stop.
#[derive(Clone, Copy, PartialEq, Eq, Structural, Debug)]
pub struct CancelFormatChange;

/// A channel receiver, declared so the cancellation endpoint can appear in
/// verified signatures.
#[verifier::external_type_specification]
#[verifier::external_body]
#[verifier::reject_recursive_types(T)]
pub struct ExReceiver<T>(crossbeam_channel::Receiver<T>);

/// Relies on crossbeam_channel::Receiver::try_recv: a non-blocking poll that
/// returns Err(TryRecvError::Empty) exactly when the channel is open and holds
/// no message. A pending message and a disconnected channel both count as a
/// cancellation request. Nothing is promised of the result: it depends on what
/// the other endpoint did.
#[verifier::external_body]
pub(crate) fn cancel_requested(
    cancel_receiver: &crossbeam_channel::Receiver<CancelFormatChange>,
) -> bool {
    !matches!(cancel_receiver.try_recv(), Err(crossbeam_channel::TryRecvError::Empty))
}

} // verus!
