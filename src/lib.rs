//! On-chain accountability for a GRANDPA-style finality gadget.
//!
//! The authority set and its scheduled changes, equivocation proofs, the
//! validation of commits by weighted supermajority over a header ancestry,
//! disputes over finalizations with their answers and expiry, and the
//! digest entries that announce changes and disputes.

pub mod primitives;
pub mod codec;
pub mod commit;
pub mod digest;
pub mod decode;
pub mod authority;
pub mod equivocation;
pub mod challenge;
pub mod dispatch;
