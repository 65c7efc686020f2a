//! Search support: symmetry handling, the building blocks of the systematic
//! search, option scopes and the move-pattern features.
pub mod beam;
pub mod bounds;
pub mod coverage;
pub mod neural;
pub mod orbit;
pub mod nrpa;
pub mod plugin;
pub mod symmetry;
pub mod systematic;
pub mod trace;
