//! Application-level settings persisted to `settings.yaml`.

use vstd::prelude::*;

verus! {

/// Application-level settings. Every field has a default, so a missing or
/// partial settings file is safe.
pub struct AppSettings {
    /// Global hotkey accelerator string (e.g. `"Super+Space"`).
    /// When absent the onboarding screen is shown at first launch.
    pub hotkey: Option<String>,
    /// Whether to show the context chip in the launcher bar when a context
    /// is active. Defaults to `true`.
    pub show_context_chip: bool,
    /// Whether to allow duplicate command phrases. `true` (default): every
    /// command is loaded, with no warnings. `false`: the first command read
    /// wins and each collision raises a `DuplicateWarning`.
    pub allow_duplicates: bool,
    /// Whether `script:` and `list:` fields may resolve to paths outside the
    /// command directory. Defaults to `true`.
    pub allow_external_paths: bool,
}

/// The value of a boolean setting that the settings file does not name.
pub fn default_true() -> (b: bool)
    ensures
        b,
{
    true
}

impl Default for AppSettings {
    fn default() -> (s: AppSettings)
        ensures
            s.hotkey is None,
            s.show_context_chip,
            s.allow_duplicates,
            s.allow_external_paths,
    {
        AppSettings {
            hotkey: None,
            show_context_chip: true,
            allow_duplicates: true,
            allow_external_paths: true,
        }
    }
}

impl AppSettings {
    /// Records a new global hotkey, leaving the other settings as they are.
    pub fn set_hotkey(&mut self, hotkey: String)
        ensures
            final(self).hotkey == Some(hotkey),
            final(self).show_context_chip == old(self).show_context_chip,
            final(self).allow_duplicates == old(self).allow_duplicates,
            final(self).allow_external_paths == old(self).allow_external_paths,
    {
        self.hotkey = Some(hotkey);
    }
}

} // verus!
