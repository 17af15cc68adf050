//! Media transcode engine with a content-addressable result cache.
//!
//! The crate covers the three pieces of real logic in the system:
//! a reversible key codec that turns a source path into a filesystem-safe
//! artifact directory name (and embeds a duration into a marker directory
//! name), a cache index over those artifact directories that can be rebuilt
//! purely from the on-disk layout, and the transcode machinery itself: an
//! orchestrator that drives an external encoder process by scanning its
//! diagnostic output, and an in-process frame pipeline that demultiplexes,
//! transcodes or copies each elementary stream with exact timestamp
//! rescaling, and remultiplexes one interleaved output.

pub mod cache;
pub mod keycodec;
pub mod orchestrator;
pub mod pipeline;
pub mod server;
pub mod subtitle;
pub mod text;
pub mod timebase;
