//! The run-time configuration: an immutable object constructed once at
//! startup and passed by reference into the compiler and the invocation
//! pipeline — never ambient global state.

use vstd::prelude::*;

use crate::parser::Settings;

verus! {

/// What the process knows after startup: the directory of a locally
/// discovered configuration file (commands run from there), and the global
/// settings from the configuration's leading settings block.
pub struct RtConf {
    pub local_conf_dir: Option<String>,
    pub settings: Settings,
}

/// Builds the run-time configuration once, at startup.
pub fn init(local_conf_dir: Option<String>, settings: Settings) -> (c: RtConf)
    ensures
        c.local_conf_dir == local_conf_dir,
        c.settings == settings,
{
    RtConf { local_conf_dir, settings }
}

/// The directory of the locally discovered configuration file, if the local
/// discovery mode found one.
pub fn local_conf_dir(conf: &RtConf) -> (r: Option<&String>)
    ensures
        match r {
            Option::Some(d) => conf.local_conf_dir == Option::Some(*d),
            Option::None => conf.local_conf_dir is None,
        },
{
    match &conf.local_conf_dir {
        Some(d) => Some(d),
        None => None,
    }
}

/// The global settings.
pub fn settings(conf: &RtConf) -> (r: &Settings)
    ensures
        *r == conf.settings,
{
    &conf.settings
}

} // verus!
