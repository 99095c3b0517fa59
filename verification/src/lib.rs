//! Verified core of the cTab Web Companion: the tactical protocol, the
//! companion's reconciliation state and the bridge's recovery bookkeeping.

pub mod float_bits;
pub mod text;
pub mod protocol;
pub mod reconcile;
pub mod companion;
pub mod marker_icons;
pub mod pbo;
pub mod paa;
pub mod recovery;
pub mod sorting;
pub mod bridge;
pub mod terrain;
pub mod cache;
