//! Configuration: the actions that a configuration file describes, the
//! defaults it falls back on, and the actions built from it.  Reading and
//! deserialising the file is the caller's part.

use vstd::prelude::*;

use crate::action::{
    is_exec, is_http, ActionRequest, ExecAction, HttpAction, HttpPostAction, PressureAction,
};

verus! {

/// An action as the configuration file describes it.
#[derive(Debug)]
pub enum ActionConfig {
    HttpPost { pressure_url: String, clear_url: String },
    Http { pressure_url: String, pressure_method: String, clear_url: String, clear_method: String },
    Exec { pressure_cmd: String, clear_cmd: String },
}

/// The method of an `http` action that names none.
pub fn default_http_method() -> (r: String)
    ensures
        r@ == "POST"@,
{
    "POST".to_owned()
}

/// The number of consecutive samples needed for a transition, when the
/// configuration names none.
pub fn default_hysteresis() -> (r: u32)
    ensures
        r == 3,
{
    3
}

/// The time between samples, in milliseconds, when the configuration names
/// none.
pub fn default_poll_interval_ms() -> (r: u64)
    ensures
        r == 2000,
{
    2000
}

/// An action built from its configuration.
pub enum ConfiguredAction {
    HttpPost(HttpPostAction),
    Http(HttpAction),
    Exec(ExecAction),
}

impl PressureAction for ConfiguredAction {
    fn on_pressure(&self) -> (r: ActionRequest)
        ensures
            match self {
                ConfiguredAction::HttpPost(a) => is_http(r, "POST"@, a.pressure_url@),
                ConfiguredAction::Http(a) => is_http(r, a.pressure_method@, a.pressure_url@),
                ConfiguredAction::Exec(a) => is_exec(r, a.pressure_cmd@),
            },
    {
        match self {
            ConfiguredAction::HttpPost(a) => a.on_pressure(),
            ConfiguredAction::Http(a) => a.on_pressure(),
            ConfiguredAction::Exec(a) => a.on_pressure(),
        }
    }

    fn on_clear(&self) -> (r: ActionRequest)
        ensures
            match self {
                ConfiguredAction::HttpPost(a) => is_http(r, "POST"@, a.clear_url@),
                ConfiguredAction::Http(a) => is_http(r, a.clear_method@, a.clear_url@),
                ConfiguredAction::Exec(a) => is_exec(r, a.clear_cmd@),
            },
    {
        match self {
            ConfiguredAction::HttpPost(a) => a.on_clear(),
            ConfiguredAction::Http(a) => a.on_clear(),
            ConfiguredAction::Exec(a) => a.on_clear(),
        }
    }
}

/// The action that a configured action stands for: each kind of
/// configuration gives the action of that kind, with the same URLs, methods
/// or commands.
pub fn action_from_config(config: ActionConfig) -> (r: ConfiguredAction)
    ensures
        match config {
            ActionConfig::HttpPost { pressure_url, clear_url } => r matches ConfiguredAction::HttpPost(a)
                && a.pressure_url == pressure_url && a.clear_url == clear_url,
            ActionConfig::Http { pressure_url, pressure_method, clear_url, clear_method } => r matches ConfiguredAction::Http(a)
                && a.pressure_url == pressure_url && a.pressure_method == pressure_method
                && a.clear_url == clear_url && a.clear_method == clear_method,
            ActionConfig::Exec { pressure_cmd, clear_cmd } => r matches ConfiguredAction::Exec(a)
                && a.pressure_cmd == pressure_cmd && a.clear_cmd == clear_cmd,
        },
{
    match config {
        ActionConfig::HttpPost { pressure_url, clear_url } => ConfiguredAction::HttpPost(
            HttpPostAction { pressure_url, clear_url },
        ),
        ActionConfig::Http { pressure_url, pressure_method, clear_url, clear_method } => {
            ConfiguredAction::Http(
                HttpAction { pressure_url, pressure_method, clear_url, clear_method },
            )
        },
        ActionConfig::Exec { pressure_cmd, clear_cmd } => ConfiguredAction::Exec(
            ExecAction { pressure_cmd, clear_cmd },
        ),
    }
}

} // verus!
