//! Whether new results are recorded for differentiation.

use vstd::prelude::*;

verus! {

/// The mode of one thread. Recording is on at first.
#[derive(Debug, Clone, Copy, PartialEq, Eq, Structural)]
pub struct GradMode {
    pub enabled: bool,
}

/// The mode to go back to.
#[derive(Debug, Clone, Copy, PartialEq, Eq, Structural)]
pub struct GradModeGuard {
    pub previous: bool,
}

impl Default for GradMode {
    fn default() -> (mode: Self)
        ensures
            mode.enabled,
    {
        GradMode { enabled: true }
    }
}

impl GradModeGuard {
    /// Goes back to the mode before the guard was made.
    pub fn restore(self, mode: &mut GradMode)
        ensures
            final(mode).enabled == self.previous,
    {
        mode.enabled = self.previous;
    }
}

/// Whether new results are recorded.
pub fn is_grad_enabled(mode: &GradMode) -> (yes: bool)
    ensures
        yes == mode.enabled,
{
    mode.enabled
}

/// Switches recording on or off, and returns the guard that leads back.
pub fn set_grad_enabled(mode: &mut GradMode, enabled: bool) -> (guard: GradModeGuard)
    ensures
        final(mode).enabled == enabled,
        guard.previous == old(mode).enabled,
{
    let previous: bool = mode.enabled;
    mode.enabled = enabled;
    GradModeGuard { previous }
}

/// Runs `f` with recording off. Afterwards the mode is what it was before, whatever `f` made of it.
pub fn no_grad<F, R>(mode: &mut GradMode, f: F) -> (result: R) where F: FnOnce(&mut GradMode) -> R
    requires
        forall|m: &mut GradMode| !(*m).enabled ==> #[trigger] f.requires((m,)),
    ensures
        *final(mode) == *old(mode),
        exists|m: &mut GradMode| !(*m).enabled && #[trigger] f.ensures((m,), result),
{
    let guard = set_grad_enabled(mode, false);
    let result = f(mode);
    guard.restore(mode);
    result
}

} // verus!
