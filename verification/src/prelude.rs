//! The types that callers deal with.

pub use crate::options::WatchOptions;
pub use crate::path::{AbsDirPath, AbsPath, PathError, ProjectPath, RepoPath};
pub use crate::track::{TrackEvent, TrackEventError, TrackEventFile, TrackEventFileMove};
