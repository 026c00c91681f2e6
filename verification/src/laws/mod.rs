//! What holds of the mempool as a whole.

pub mod classification;
pub mod confirmation;
pub mod contents;
pub mod eligibility;
pub mod exchange;
pub mod lookup;
pub mod storage;
