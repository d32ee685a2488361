//! Splitting a file into numbered parts and putting it back together.
//!
//! - `arith`: rounded-up division and decimal digit counts.
//! - `split`: how many parts of what size, and the byte range of each.
//! - `naming`: the names of part files, and the stem a part name comes from.
//! - `discovery`: finding the parts of a file in a directory listing and
//!   checking that they run from one upwards without a gap.
//! - `budget`: the free-space check and the size of the transfer buffer.
//! - `transfer`: the chunks in which a byte range is copied.
//! - `chop` and `stick`: the plans for splitting and for rebuilding a file.
//! - `error`: what can go wrong in either direction.

pub mod arith;
pub mod budget;
pub mod chop;
pub mod discovery;
pub mod error;
pub mod naming;
pub mod split;
pub mod stick;
pub mod transfer;

pub use arith::{digits, round_up_div};
pub use budget::{max_buffer_size, sufficient_disk_space};
pub use discovery::{find_parts_in, verify_discovered_parts};
pub use error::{ChopError, StickError};
pub use naming::{get_part_path_buf, remove_chopstick_extension, EXTENSION_PREFIX};
pub use split::Split;
pub use transfer::ChunkCursor;
