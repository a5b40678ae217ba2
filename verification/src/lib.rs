//! Building Android packages from a folder of HTML: the binary manifest
//! (AXML) and protobuf-manifest patchers, the JAR signature layout, the
//! validation rules of a build request and the packaging decisions.

pub mod aab;
pub mod axml;
pub mod bundle_proto;
pub mod config;
pub mod jarsign;
pub mod keyfile;
pub mod manifest_law;
pub mod package;
pub mod pool_law;
pub mod project;
pub mod replacements;
pub mod text;
pub mod typed_frame;
pub mod validate;

pub use config::{AppConfig, Orientation, OutputFormat, StorageMode};
pub use package::{build, BuildRequest};
