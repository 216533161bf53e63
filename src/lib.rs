//! Reading and writing the `VS_VERSIONINFO` resource structure of Windows
//! executables: a nested, length-prefixed binary format holding a fixed
//! numeric version record, string tables and translation arrays.

pub mod bytes;
pub mod child;
pub mod decode;
pub mod edit;
pub mod encode;
pub mod error;
pub mod fixed;
pub mod header;
pub mod id;
pub mod round_trip;
pub mod table;
pub mod text;
pub mod version;

pub use child::{Data, StringEntry, StringTable, Var, VersionInfoChild};
pub use error::Error;
pub use fixed::{Date, FileInfo, Version};
pub use header::{DataType, Header};
pub use id::Id;
pub use version::VersionInfo;
