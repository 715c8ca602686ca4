//! The authoritative server of a match: it assembles each tick's inputs at the host's pace,
//! steps the world it owns, and keeps who is in the round.

pub mod admission;
pub mod history;
pub mod host;
pub mod laws;
pub mod starvation;
pub mod stream;
pub mod tick_laws;

pub use crate::sim::entities::CrabPose;
pub use admission::{may_admit_joiner, Admission, AdmissionRefusal, JoinRequest, Refusal};
pub use host::{Server, SteppedTick, JOIN_LEAD};
pub use starvation::StarvationReport;
pub use stream::InputStream;
