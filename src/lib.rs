//! Decides whether a package and the dependencies that its feature selection
//! activates can be built without the standard library.
pub mod cargo_build;
pub mod check;
pub mod check_source;
pub mod ext;
pub mod metadata;
pub mod text;
pub mod util;
pub mod verify;
