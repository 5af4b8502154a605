use vstd::prelude::*;

pub mod config;
pub mod device;
pub mod rings;
pub mod umem;

verus! {

/// Errors of the core: bad construction input, or a transient shortage.
#[derive(Copy, Clone, Debug, PartialEq, Eq, Structural)]
pub enum XdpError {
    /// A size or count outside what the device accepts.
    InvalidInput,
    /// A ring is full, a ring is empty, or no chunk is free.
    WouldBlock,
}

} // verus!
