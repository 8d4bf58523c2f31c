//! The command-handling layer's surface on this core: the errors that sending
//! a command for processing can report.

use vstd::prelude::*;

verus! {

/// An error that may be yielded when a command is sent for processing: one
/// side or the other of the processing channel has gone away.
#[derive(Debug, Clone)]
pub enum CommandSenderError {
    /// The reply channel was dropped before the outcome was delivered
    OneshotCancelled,
    /// The command processor stopped accepting commands
    CommandProcessorCancelled,
}

} // verus!
