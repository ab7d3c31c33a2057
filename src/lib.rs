//! Core of a block-storage driver: tag sets that bound in-flight requests per
//! submission queue, a device handle with geometry and registration state, and
//! a dispatcher that validates, submits and retires request descriptors.

pub mod disk;
pub mod geometry;
pub mod request;
pub mod tagset;
