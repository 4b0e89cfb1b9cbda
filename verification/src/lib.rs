//! Division allocation engine: distributes capacity-limited buckets among
//! participants over a sequence of selection rounds, using randomized
//! per-(round, bucket) priority ranks and a deterministic, replayable
//! resolution pass.

pub mod basis;
pub mod bucket;
pub mod hash;
pub mod laws;
pub mod random;
pub mod requests;
pub mod resolve;
pub mod selections;
pub mod sequences;
pub mod state;

pub use basis::BlockDivisionBasis;
pub use basis::BucketDef;
pub use basis::DivisionError;
pub use basis::ParticipantDef;
pub use selections::Selection;
pub use selections::SelectionResult;
pub use selections::Selections;
pub use state::BlockDivisionState;
