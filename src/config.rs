use vstd::prelude::*;

verus! {

/// Command-line arguments: whether to keep watching, and the configuration
/// file (searched upwards from the current directory when absent).
#[derive(Debug, PartialEq, Eq)]
pub struct Args {
    pub watch: bool,
    pub config: Option<String>,
}

/// One configured triple: a schema root file, a template input directory and an
/// output directory, all canonical.
#[derive(Debug, PartialEq, Eq)]
pub struct ConfigEntry {
    pub openapi: String,
    pub input: String,
    pub output: String,
}

/// The project: its configuration file, whether to keep watching, and its entries.
#[derive(Debug, PartialEq, Eq)]
pub struct Config {
    pub file: String,
    pub watch: bool,
    pub entries: Vec<ConfigEntry>,
}

} // verus!
