//! Configuration values for the surrounding tool.
//!
//! The configuration is persisted as JSON by the (unverified) shell of the
//! application; here it is a plain record of the config file location and
//! the editor chosen by the user, held as path strings.

use vstd::prelude::*;

verus! {

/// Tool configuration: where the config file lives and which editor to use.
#[derive(Debug)]
pub struct Config {
    pub config_path: String,
    pub editor_path: Option<String>,
}

impl Config {
    /// A fresh configuration: empty config path, no editor chosen yet.
    pub fn new() -> (c: Config)
        ensures
            c.config_path@ == Seq::<char>::empty(),
            c.editor_path is None,
    {
        Config { config_path: String::new(), editor_path: None }
    }
}

} // verus!
