//! Topic pub/sub bookkeeping: topic names, delivery and access policies,
//! and the registry's subscription and sequencing state.

pub mod topic;
pub mod policy;
pub mod backplane;
pub mod registry;
pub mod dispatch;
pub mod frame;
