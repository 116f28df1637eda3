//! Reading a process's environment for display-related facts: which
//! display protocol the environment names, and which variables are worth
//! showing in the detailed view.

use vstd::prelude::*;
use crate::text::str_eq;

verus! {

/// Why no window can be reported for a process from its environment:
/// the display protocol named there has no lookup implemented, or no
/// display variable is present at all.
#[derive(PartialEq, Eq, Structural, Clone, Copy, Debug)]
pub enum WindowProbeError {
    X11Unsupported,
    WaylandUnsupported,
    NoDisplay,
}

pub open spec fn env_has_key(env: Seq<(String, String)>, key: Seq<char>) -> bool {
    exists|i: int| 0 <= i < env.len() && env[i].0@ == key
}

/// Whether some variable of the environment has exactly this name.
pub fn has_env_key(env: &Vec<(String, String)>, key: &str) -> (r: bool)
    ensures
        r == env_has_key(env@, key@),
{
    let mut i: usize = 0;
    while i < env.len()
        invariant
            0 <= i <= env@.len(),
            forall|j: int| 0 <= j < i ==> env@[j].0@ != key@,
        decreases env@.len() - i,
    {
        if str_eq(env[i].0.as_str(), key) {
            assert(env@[i as int].0@ == key@);
            return true;
        }
        i += 1;
    }
    false
}

/// Window lookup through a process's environment. The probe recognises
/// which display protocol the environment names but implements a lookup
/// for none of them, so it always reports an error naming that protocol;
/// the X11 check comes first.
pub fn get_window_info_for_process(_pid: u32, env_vars: &Vec<(String, String)>) -> (r: Result<
    (String, String),
    WindowProbeError,
>)
    ensures
        r == Err::<(String, String), WindowProbeError>(
            if env_has_key(env_vars@, "DISPLAY"@) {
                WindowProbeError::X11Unsupported
            } else if env_has_key(env_vars@, "WAYLAND_DISPLAY"@) {
                WindowProbeError::WaylandUnsupported
            } else {
                WindowProbeError::NoDisplay
            },
        ),
{
    if has_env_key(env_vars, "DISPLAY") {
        Err(WindowProbeError::X11Unsupported)
    } else if has_env_key(env_vars, "WAYLAND_DISPLAY") {
        Err(WindowProbeError::WaylandUnsupported)
    } else {
        Err(WindowProbeError::NoDisplay)
    }
}

/// The environment variables the detailed process view prints.
pub open spec fn spec_relevant_env_var(key: Seq<char>) -> bool {
    key == "DISPLAY"@ || key == "WAYLAND_DISPLAY"@ || key == "PWD"@ || key == "TERM"@ || key
        == "TERM_PROGRAM"@ || key == "VSCODE_PID"@ || key == "VSCODE_IPC_HOOK_CLI"@ || key
        == "WINDOWID"@ || key == "XTERM_VERSION"@
}

/// Whether a variable belongs in the detailed process view.
pub fn is_relevant_env_var(key: &str) -> (r: bool)
    ensures
        r == spec_relevant_env_var(key@),
{
    str_eq(key, "DISPLAY") || str_eq(key, "WAYLAND_DISPLAY") || str_eq(key, "PWD") || str_eq(
        key,
        "TERM",
    ) || str_eq(key, "TERM_PROGRAM") || str_eq(key, "VSCODE_PID") || str_eq(
        key,
        "VSCODE_IPC_HOOK_CLI",
    ) || str_eq(key, "WINDOWID") || str_eq(key, "XTERM_VERSION")
}

} // verus!
