//! Project manifests: what each declared project is called, which bot
//! descriptors it carries, and how its container image is built.
//!
//! Reading and parsing the table documents from disk is the surrounding
//! binary's business; it hands the declared values over as plain bytes.

use vstd::prelude::*;

verus! {

/// A project built by bundling a Python entry file.
pub struct PyInstallerBuildConfig {
    pub entry_file: Vec<u8>,
}

/// A project built from a Rust crate, one binary for several targets.
pub struct RustBuildConfig {
    pub bin_name: Vec<u8>,
    pub targets: Vec<Vec<u8>>,
}

/// A project built from its own dockerfile, rendered against a
/// user-provided key-value map.
pub struct CustomBuildConfig {
    pub dockerfile: Vec<u8>,
    pub values: Vec<(Vec<u8>, Vec<u8>)>,
}

/// The tagged builder variant a project declares.
pub enum BuilderConfig {
    PyInstaller(PyInstallerBuildConfig),
    Rust(RustBuildConfig),
    Custom(CustomBuildConfig),
}

/// One declared project: its unique name, its bot descriptor paths
/// relative to the manifest, and its builder variant.
pub struct BobConfig {
    pub project_name: Vec<u8>,
    pub bot_configs: Vec<Vec<u8>>,
    pub builder_config: BuilderConfig,
}

/// A manifest file: dependency globs naming further manifests, and the
/// projects it declares itself.
pub struct RootConfig {
    pub dependencies: Vec<Vec<u8>>,
    pub configs: Vec<BobConfig>,
}

} // verus!
