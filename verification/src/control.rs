//! Choosing how to gain root access.

use vstd::prelude::*;

verus! {

/// The ways this library can re-run a program with root access.
#[derive(PartialEq, Eq, Structural, Clone, Copy, Debug)]
pub enum EscalationMethod {
    /// Re-run through `sudo`, and only when not root already.
    SudoIfNeeded,
    /// Re-run through `pkexec`, which asks through the desktop session.
    Pkexec,
}

/// The method to gain root access with: outside a desktop session (no
/// `XDG_CURRENT_DESKTOP` in the environment) `sudo` when needed, inside one
/// `pkexec`.
pub fn escalation_method(in_desktop_session: bool) -> (method: EscalationMethod)
    ensures
        method == (if in_desktop_session {
            EscalationMethod::Pkexec
        } else {
            EscalationMethod::SudoIfNeeded
        }),
{
    if !in_desktop_session {
        return EscalationMethod::SudoIfNeeded;
    }
    EscalationMethod::Pkexec
}

} // verus!
