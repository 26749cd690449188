//! Gateway and receiver logic of a power-quality metering link.
//!
//! The gateway samples a three-phase meter, keeps what is worth keeping and
//! delivers it until the receiver answers for it; the receiver decodes, judges
//! and archives what arrives.  Everything that touches a network, a disk or a
//! clock stays with the caller, which hands plain values in and carries out
//! what it is told.

pub mod binary32;
pub mod clock;
pub mod fixed_point;
pub mod gateway;
pub mod json;
pub mod receiver;
pub mod text;
pub mod thresholds;
