//! Decisions of the launcher window: the tray label, and which application
//! regains focus when the launcher goes away.

use vstd::prelude::*;

verus! {

/// The label of the tray's Show/Hide item for the window's visibility:
/// it names what choosing the item does.
pub open spec fn tray_label_spec(visible: bool) -> Seq<char> {
    if visible { "Hide"@ } else { "Show"@ }
}

/// The label of the tray's Show/Hide item (see [`tray_label_spec`]).
pub fn tray_label(visible: bool) -> (r: &'static str)
    ensures
        r@ == tray_label_spec(visible),
{
    if visible { "Hide" } else { "Show" }
}

/// Remembers the application that had focus before the launcher appeared,
/// identified by its process id.
pub struct FocusTracker {
    pub previous: Option<i32>,
}

/// What to do with the launcher window.
#[derive(Clone, Copy, PartialEq, Eq, Debug, Structural)]
pub enum LauncherAction {
    /// Record the frontmost application (see [`capture_previous_app`]),
    /// then resize, center, show and focus the window.
    Show,
    /// Hide the window and give focus back to `restore`, if any.
    Hide { restore: Option<i32> },
}

impl FocusTracker {
    /// A tracker that remembers no application.
    pub fn new() -> (t: FocusTracker)
        ensures
            t.previous is None,
    {
        FocusTracker { previous: None }
    }

    /// The application to give focus back to, which is then forgotten.
    pub fn take(&mut self) -> (r: Option<i32>)
        ensures
            r == old(self).previous,
            final(self).previous is None,
    {
        let r = self.previous;
        self.previous = None;
        r
    }

    /// The global shortcut or the tray's Show/Hide item was used: a visible
    /// launcher is hidden and focus returns to the remembered application;
    /// a hidden one is shown.
    pub fn toggle(&mut self, window_visible: bool) -> (a: LauncherAction)
        ensures
            window_visible ==> a == (LauncherAction::Hide { restore: old(self).previous })
                && final(self).previous is None,
            !window_visible ==> a == LauncherAction::Show && final(self).previous == old(
                self,
            ).previous,
    {
        if window_visible {
            LauncherAction::Hide { restore: self.take() }
        } else {
            LauncherAction::Show
        }
    }
}

/// Records the application in front before the launcher takes focus,
/// unless it is the launcher itself (`own_pid`) or unknown.
pub fn capture_previous_app(tracker: &mut FocusTracker, frontmost: Option<i32>, own_pid: i32)
    ensures
        final(tracker).previous == captured(old(tracker).previous, frontmost, own_pid),
{
    match frontmost {
        Some(pid) => {
            if pid != own_pid {
                tracker.previous = Some(pid);
            }
        },
        None => {},
    }
}

/// The remembered application after the launcher saw `frontmost` in front.
pub open spec fn captured(previous: Option<i32>, frontmost: Option<i32>, own_pid: i32) -> Option<i32> {
    match frontmost {
        Some(pid) => if pid != own_pid { Some(pid) } else { previous },
        None => previous,
    }
}

/// Focus goes back where it came from: after the launcher is shown over
/// another application and then hidden, that application is the one restored,
/// and the launcher never records itself as the application to restore.
pub proof fn focus_returns_to_captured_app(previous: Option<i32>, frontmost: i32, own_pid: i32)
    ensures
        frontmost != own_pid ==> captured(previous, Some(frontmost), own_pid) == Some(frontmost),
        captured(previous, Some(own_pid), own_pid) == previous,
        captured(previous, None, own_pid) == previous,
{
}

} // verus!
