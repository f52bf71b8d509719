//! Inspection of native-library build artifacts.
//!
//! Three independent components extract structured facts from the textual
//! leftovers of a build: [`LinkFlags`] parses a linker-flag string into
//! sorted, deduplicated search-path and library lists; [`MakeConf`] reads a
//! generated `key=value` configuration file into a structured record; and
//! [`LibInspect`] turns the line-oriented output of the symbol- and
//! dependency-listing tools into sorted lists with capability queries over
//! them.

pub mod conf;
pub mod error;
pub mod flags;
pub mod inspect;
pub mod order;
pub mod text;

pub use conf::MakeConf;
pub use error::Error;
pub use flags::LinkFlags;
pub use inspect::LibInspect;
pub use order::as_sorted_vec;
