//! Two consensus-adjacent primitives: stake-weighted delegate selection
//! (delegated proof of stake) and a verifiable sequential event log
//! (proof of history).

pub mod dpos;
pub mod poh;
