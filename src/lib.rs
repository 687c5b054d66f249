//! Virtual paths that always use `/` and are never rooted, and a
//! filesystem contract expressed over them, with the logic of a backend
//! that confines every path below a root directory.
pub mod fs;
pub mod native;
pub mod path;

pub use fs::{
    found, found_kind, DirEntries, Error, ErrorKind, FSRead, FSReadExt, FSWrite, FileType, QPath,
    Result,
};
pub use native::Native;
pub use path::{Components, Path, PathBuf};
