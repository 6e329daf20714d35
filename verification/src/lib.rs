//! A schema-driven hierarchical data store with a self-framing binary format.
//!
//! A fixed schema of tagged definitions governs a tree of typed data nodes.
//! Both are turned into checksummed, nested records and read back from them.
//! Everything here works on bytes held in memory; reading and writing files
//! is left to the caller.

pub mod child;
pub mod codec;
pub mod data;
pub mod data_type;
pub mod definition;
pub mod error;
pub mod format;
pub mod io;
pub mod lookup;
pub mod manager;
pub mod multi_type;
pub mod path_manager;
pub mod round_trip;

pub use child::Child;
pub use data::{Data, DataRoot, Value};
pub use data_type::Type;
pub use definition::Definition;
pub use error::DbError;
pub use io::{BinaryManager, Mode};
pub use manager::Manager;
pub use multi_type::MultiType;
pub use path_manager::PathManager;
