//! Join-channel selection for fixed channel plans of 72 channels: eight banks
//! of eight standard channels and one bank of eight wide channels.
//!
//! The selector never repeats a channel within a cycle, pairs every standard
//! pick with a step into the next bank, and can steer the first attempts
//! towards a preferred subband. It draws no randomness itself: whenever a
//! pick needs a random word it says so, and the caller hands one in.

pub mod available_channels;
pub mod behaviour;
pub mod channel_mask;
pub mod cycle;
pub mod join_channels;
pub mod progress;
pub mod subband;

pub use available_channels::{AvailableChannels, PoolState, Step};
pub use channel_mask::ChannelMask;
pub use join_channels::{JoinChannels, JoinState};
pub use subband::{InvalidSubband, Subband};
