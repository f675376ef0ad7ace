//! Backpressure configuration and the error taxonomy.

use vstd::prelude::*;

verus! {

/// The three page-count thresholds that drive inbound backpressure.
///
/// `suspend_threshold` pages ask the sending side to pause,
/// `resume_threshold` pages let it resume, and past `drop_threshold`
/// pages further messages from the channel are dropped.
#[derive(Copy, Clone, Debug, PartialEq, Eq, Structural)]
pub struct QueueConfigData {
    /// Queue depth at which the other side is told to suspend its sending.
    pub suspend_threshold: u32,
    /// Queue depth past which further messages from the channel are dropped.
    pub drop_threshold: u32,
    /// Queue depth the backlog must shrink to before sending may recommence.
    pub resume_threshold: u32,
}

impl QueueConfigData {
    /// The invariant every accepted configuration satisfies.
    pub open spec fn is_valid(self) -> bool {
        0 < self.resume_threshold < self.suspend_threshold <= self.drop_threshold
    }

    /// Accepts the configuration only when its invariant holds.
    pub fn validate(&self) -> (r: Result<(), QueueError>)
        ensures
            r is Ok <==> self.is_valid(),
            r is Err ==> r == Result::<(), QueueError>::Err(QueueError::BadQueueConfig),
    {
        if self.resume_threshold < self.suspend_threshold && self.suspend_threshold
            <= self.drop_threshold && self.resume_threshold > 0 {
            Ok(())
        } else {
            Err(QueueError::BadQueueConfig)
        }
    }
}

impl Default for QueueConfigData {
    /// The genesis configuration: drop at 48 pages, suspend at 32, resume at 8.
    fn default() -> (d: Self)
        ensures
            d.suspend_threshold == 32,
            d.drop_threshold == 48,
            d.resume_threshold == 8,
            d.is_valid(),
    {
        QueueConfigData { suspend_threshold: 32, drop_threshold: 48, resume_threshold: 8 }
    }
}

/// Errors surfaced by the queue's administrative and signalling surface.
#[derive(Copy, Clone, Debug, PartialEq, Eq, Structural)]
pub enum QueueError {
    /// A configuration update violated the threshold invariant.
    BadQueueConfig,
    /// Execution was already suspended.
    AlreadySuspended,
    /// Execution was already resumed.
    AlreadyResumed,
    /// The registry of active outbound channels is at capacity.
    TooManyActiveOutboundChannels,
}

/// Errors surfaced to a caller of the outbound page writer.
#[derive(Copy, Clone, Debug, PartialEq, Eq, Structural)]
pub enum MessageSendError {
    /// The transport reports no channel towards the peer.
    NoChannel,
    /// The fragment and its header cannot fit even an empty page.
    TooBig,
    /// The registry of active outbound channels is at capacity.
    TooManyChannels,
    /// The channel's page index space is exhausted.
    Fatal,
}

} // verus!
