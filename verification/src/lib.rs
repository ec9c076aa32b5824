//! Validated, canonical absolute paths.
//!
//! An absolute path is a string that starts with exactly one `/`, never ends
//! with `/` unless it is the root, and whose pieces between separators are
//! valid segments ([`NodeName`]s). The library offers a strict parser
//! ([`AbsPath::from_str`]), a normalizer that resolves `.`, `..` and repeated
//! separators while borrowing from its input whenever it can
//! ([`AbsPath::normalize`]), and the usual structural operations (`join`,
//! `parent`, `strip_prefix`, component iteration).

pub mod abs_path;
pub mod abs_path_buf;
mod compact;
pub mod model;
pub mod node_name;
pub mod node_name_buf;
mod scan;

pub use abs_path::{
    AbsPath, AbsPathFromPathError, AbsPathNotAbsoluteError, Components, NormalizeError, PathCow,
};
pub use abs_path_buf::AbsPathBuf;
pub use node_name::{InvalidNodeNameError, NodeName};
pub use node_name_buf::NodeNameBuf;
