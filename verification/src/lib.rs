//! Block-level file synchronization core.
//!
//! A local file is brought in line with a reference file while transferring
//! only the fixed-size blocks whose content fingerprints differ.  This crate
//! holds the verified core: the block-addressable store, the wire codec for
//! the four protocol commands, and the receiver/transmitter session logic.
//! Process spawning and real file handles live outside the library; the core
//! works on plain byte contents.
use vstd::prelude::*;

pub mod bdiff;
pub mod block_file;
pub mod codec;
pub mod hashes;
pub mod model;
pub mod stream;
pub mod sync;

verus! {

/// Failure taxonomy of a sync session: either the underlying byte transport
/// or store failed, or the two sides of the protocol desynchronized.
#[derive(Clone, Copy, Debug, PartialEq, Eq, Structural)]
pub enum SyncError {
    IoError,
    ProtocolViolation,
}

} // verus!
