//! Regex search over registered source repositories.
//!
//! Repositories are registered by their address and fetched into a resource
//! directory, one directory per owner and in it one per repository. That
//! layout is the catalogue. A search walks the file tree of a repository,
//! passes over what is excluded and matches a pattern against every line of
//! every file.
//!
//! Nothing here reads a disk or a network. Whoever does hands over what was
//! read: listings, contents, whether a fetch succeeded.

pub mod charclass;
pub mod filter;
pub mod identity;
pub mod lines;
pub mod matcher;
pub mod path;
pub mod project_search;
pub mod register;
pub mod registry;
pub mod relative;
pub mod text;
pub mod tree;
pub mod walk;

pub use crate::filter::in_black_list;
pub use crate::identity::Project;
pub use crate::matcher::{search_file, Content, Matcher, PatternError};
pub use crate::project_search::{ProjectWalk, SearchError, SearchResult};
pub use crate::register::{register, Outcome, Registration};
pub use crate::registry::Listing;
pub use crate::walk::{search_dir, Node, TreeWalk};
