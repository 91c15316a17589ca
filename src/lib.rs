//! Cluster membership in the SWIM style: members probe each other, suspect
//! and declare down those that stop answering, and gossip every change of
//! membership on the messages they exchange.

pub mod codec;
pub mod log;
pub mod member;
pub mod memberlist;
pub mod merge_laws;
pub mod node;
pub mod waitlist;

pub use codec::{build_message, decode_message, encode_message, Message, Request};
pub use log::enqueue_state_change;
pub use member::{determine_member_event, Addr, Member, MemberEvent, MemberState, StateChange};
pub use memberlist::{MemberList, MergeOutcome};
pub use node::{ClusterConfig, Effect, InternalRequest, PendingProbe, Reactor, TargetedRequest};
