//! A verified cross-chain message queue engine.
//!
//! Application fragments destined for remote peer chains are appended into
//! size-bounded pages, harvested once per block by a budgeted extraction
//! scheduler, and delivered by an untrusted page transport. Inbound pages are
//! decoded and dispatched under an explicit processing budget. Backpressure
//! flows both ways through `Suspend`/`Resume` control frames, and a per-peer
//! multiplicative fee factor escalates while a channel stays congested.

use vstd::prelude::*;

pub mod address_match;
pub mod budget;
pub mod channel;
pub mod config;
pub mod deposit;
pub mod fee;
pub mod host_types;
pub mod inbound;
pub mod laws;
pub mod outbound;
pub mod scheduler;
pub mod state;
pub mod store;
pub mod wire;

pub use address_match::AddressMatcher;
pub use address_match::BuiltinAddressMatcher;
pub use budget::Budget;
pub use budget::CollectingSink;
pub use budget::DownstreamSink;
pub use budget::ProcessCosts;
pub use channel::ChannelStatus;
pub use channel::OutboundChannelDetails;
pub use channel::OutboundState;
pub use channel::PeerChannel;
pub use channel::TransportSnapshot;
pub use config::MessageSendError;
pub use config::QueueConfigData;
pub use config::QueueError;
pub use deposit::Diff;
pub use deposit::Nested;
pub use deposit::Root;
pub use deposit::Sealed;
pub use deposit::State;
pub use host_types::EcdsaVerifyError;
pub use host_types::KillStorageResult;
pub use state::QueueLimits;
pub use state::XcmpQueue;
pub use store::FeeStore;
pub use store::PageStore;
pub use store::SignalStore;
pub use wire::ChannelSignal;
pub use wire::PageFormat;
