//! Recursive folder scanning with extension filtering, for building playlists.
//!
//! The library decides everything about a scan; the caller performs the
//! directory reads the scan asks for and hands back what it found.
pub mod configuration;
pub mod laws;
pub mod path;
pub mod scan;
