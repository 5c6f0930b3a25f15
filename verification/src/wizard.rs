//! The setup wizard's steps and the state its screens share.
use vstd::prelude::*;

verus! {

/// The wizard's screens, in order.
#[derive(Debug, Clone, Copy, PartialEq, Eq, Structural)]
pub enum WizardStep {
    Welcome,
    Mic,
    Asr,
    Editor,
    Hotkey,
    Test,
    Save,
    Done,
}

impl Default for WizardStep {
    fn default() -> (s: Self)
        ensures
            s == WizardStep::Welcome,
    {
        WizardStep::Welcome
    }
}

/// The values the wizard has collected.
#[derive(Debug, Clone)]
pub struct WizardState {
    pub step: WizardStep,
}

impl Default for WizardState {
    fn default() -> (s: Self)
        ensures
            s.step == WizardStep::Welcome,
    {
        WizardState::new()
    }
}

impl WizardState {
    /// A wizard on its first screen.
    pub fn new() -> (s: Self)
        ensures
            s.step == WizardStep::Welcome,
    {
        WizardState { step: WizardStep::Welcome }
    }
}

/// Hotkey screen: whether the next key press is being captured.
#[derive(Debug, Clone, Copy, Default)]
pub struct HotkeyStepState {
    pub capturing: bool,
}

/// Save screen: the outcome of the last save (the path written, or the
/// error message); `None` before the first attempt.
#[derive(Debug, Clone, Default)]
pub struct SaveStepState {
    pub last_save_result: Option<Result<String, String>>,
}

} // verus!
