//! Resolution of Symfony route names to the PHP controller declarations that
//! define them, and search of route names inside editor documents.

pub mod json;
pub mod php_finder;
pub mod php_outline;
pub mod protocol;
pub mod route_index;
pub mod router;
pub mod sidecar;
pub mod text;
pub mod text_search;
