//! Resolution core of a package manager: from a root package and the
//! dependencies it declares, find every dependency it needs, in an order in
//! which each can be installed before the packages that asked for it.

pub mod catalog;
pub mod dependency;
pub mod error;
pub mod graph;
pub mod identity;
pub mod install;
pub mod json;
pub mod manifest;
pub mod matcher;
pub mod ordered;
pub mod registry;
pub mod resolver;
pub mod semver;
pub mod state;

pub use crate::dependency::Dependency;
pub use crate::error::RegistryProblem;
pub use crate::error::ResolveError;
pub use crate::install::install_source;
pub use crate::install::select_tarball;
pub use crate::install::InstallSource;
pub use crate::install::Tarball;
pub use crate::manifest::json_to_dependencies;
pub use crate::manifest::root_dependency;
pub use crate::manifest::serde_json_value_to_dependencies;
pub use crate::matcher::match_version;
pub use crate::registry::declared_dependencies;
pub use crate::registry::fetch_matching_version_metadata;
pub use crate::registry::package_url;
pub use crate::registry::parse_registry_body;
pub use crate::registry::version_url;
pub use crate::resolver::Progress;
pub use crate::resolver::Resolver;
pub use crate::catalog::calculate_depends;
pub use crate::catalog::calculate_depends_rec;
pub use crate::catalog::Package;
pub use crate::catalog::Release;
