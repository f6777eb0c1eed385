//! A linear ("bump") arena over one owned byte buffer.
//!
//! Regions are handed out by advancing a cursor through the buffer; all of
//! them are reclaimed at once by rewinding the cursor.

pub mod arena;
pub mod error;
pub mod laws;
pub mod layout;

pub use arena::{Arena, ArenaState, BUFFER_ALIGN};
pub use error::ArenaError;
pub use layout::Layout;
