//! Decisions of the desktop shell: the global hotkey setting, whether the
//! window shows, and the launch flag for starting hidden at login.
use crate::foreign::{has_verbatim_prefix, is_plain_component, joined, no_separator, path_join};
use crate::text::{chars_of, string_of, trim, trim_chars};
use vstd::prelude::*;

verus! {

/// The hotkey used until the user picks one.
pub const DEFAULT_HOTKEY: &'static str = "Alt+S";

/// The file, in the app data directory, that keeps the chosen hotkey.
pub const HOTKEY_FILE: &'static str = "hotkey.txt";

/// The launch argument given when the OS starts the app at login.
pub const HIDDEN_LAUNCH_FLAG: &'static str = "--hidden";

/// Where the chosen hotkey is kept inside `data_dir`.
pub fn hotkey_file_path(data_dir: &str) -> (r: String)
    ensures
        !has_verbatim_prefix(data_dir@) ==> joined(data_dir@, HOTKEY_FILE@, r@),
{
    proof {
        reveal_strlit("hotkey.txt");
        reveal_with_fuel(no_separator, 11);
        assert(HOTKEY_FILE@ == "hotkey.txt"@);
    }
    path_join(data_dir, HOTKEY_FILE)
}

/// The hotkey to register at start-up from the saved file's contents
/// (absent when it could not be read): the trimmed contents, or the default
/// when there are none.
pub fn hotkey_from_file(contents: Option<String>) -> (r: String)
    ensures
        r@ == (match contents {
            Some(c) => if trim(c@).len() > 0 { trim(c@) } else { DEFAULT_HOTKEY@ },
            None => DEFAULT_HOTKEY@,
        }),
{
    match contents {
        Some(c) => {
            let t = trim_chars(&chars_of(c.as_str()));
            if t.len() > 0 {
                string_of(&t)
            } else {
                String::from_str(DEFAULT_HOTKEY)
            }
        },
        None => String::from_str(DEFAULT_HOTKEY),
    }
}

/// The refusal text for an empty hotkey.
pub open spec fn empty_hotkey_message() -> Seq<char> {
    "Hotkey cannot be empty"@
}

/// The hotkey to register from what the user typed: trimmed, and refused
/// when nothing is left.
pub fn normalize_hotkey(hotkey: &str) -> (r: Result<String, String>)
    ensures
        trim(hotkey@).len() > 0 ==> (r matches Ok(h) && h@ == trim(hotkey@)),
        trim(hotkey@).len() == 0 ==> (r matches Err(e) && e@ == empty_hotkey_message()),
{
    let t = trim_chars(&chars_of(hotkey));
    if t.len() == 0 {
        Err(String::from_str("Hotkey cannot be empty"))
    } else {
        Ok(string_of(&t))
    }
}

/// The launch asked to start hidden in the tray.
pub open spec fn has_hidden_flag(args: Seq<Seq<char>>) -> bool {
    exists|i: int| 0 <= i < args.len() && args[i] == HIDDEN_LAUNCH_FLAG@
}

/// Whether the launch arguments ask to start hidden in the tray.
pub fn launched_hidden(args: &Vec<String>) -> (r: bool)
    ensures
        r == has_hidden_flag(args@.map_values(|a: String| a@)),
{
    let ghost av = args@.map_values(|a: String| a@);
    let flag = String::from_str(HIDDEN_LAUNCH_FLAG);
    let mut i: usize = 0;
    while i < args.len()
        invariant
            i <= args.len(),
            av == args@.map_values(|a: String| a@),
            flag@ == HIDDEN_LAUNCH_FLAG@,
            forall|j: int| 0 <= j < i ==> av[j] != HIDDEN_LAUNCH_FLAG@,
        decreases args.len() - i,
    {
        if args[i] == flag {
            assert(av[i as int] == HIDDEN_LAUNCH_FLAG@);
            return true;
        }
        i += 1;
    }
    false
}

/// What to do with the main window.
#[derive(Clone, Copy, Debug, PartialEq, Eq, Structural)]
pub enum WindowAction {
    Show,
    Hide,
}

/// The hotkey toggles the window by what the app last did to it, not by
/// asking the window system.
pub fn toggle_action(shown: bool) -> (r: WindowAction)
    ensures
        r == (if shown { WindowAction::Hide } else { WindowAction::Show }),
{
    if shown {
        WindowAction::Hide
    } else {
        WindowAction::Show
    }
}

/// Once the front end has rendered, the window shows unless the app was
/// started hidden at login.
pub fn show_when_ready(launched_hidden: bool) -> (r: bool)
    ensures
        r == !launched_hidden,
{
    !launched_hidden
}

/// Whether the window is shown after `action`.
pub open spec fn shown_after(action: WindowAction) -> bool {
    action == WindowAction::Show
}

/// Toggling twice from any state brings the window back to that state.
pub proof fn law_toggle_twice(shown: bool)
    ensures
        shown_after(if shown_after(if shown { WindowAction::Hide } else { WindowAction::Show }) {
            WindowAction::Hide
        } else {
            WindowAction::Show
        }) == shown,
{
}

} // verus!
