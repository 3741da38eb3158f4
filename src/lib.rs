//! Dictionary coding of replicated log entries: a capacity-bounded cache of
//! templates with stable indices, the codec that leader and followers run on
//! it in lock-step, the batch sequencing that keeps them in step, and the
//! resynchronization that restores agreement.

use vstd::prelude::*;

pub mod bytes;
pub mod cache;
pub mod codec;
pub mod messages;
pub mod sequencer;
pub mod wire;

verus! {

} // verus!
