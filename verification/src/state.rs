//! The manager that a game session installs, held as an `Option`: `None`
//! until the session initialises the save system and after it shuts it down.
use crate::save::SaveManager;
use vstd::prelude::*;
use vstd::string::*;

verus! {

/// Installs `manager`, replacing any previous one.
pub fn set(state: &mut Option<SaveManager>, manager: SaveManager)
    ensures
        *final(state) == Some(manager),
{
    *state = Some(manager);
}

/// Calls `f` with the installed manager and returns what it returns, or
/// `None` when no manager is installed.
pub fn with<F, T>(state: &Option<SaveManager>, f: F) -> (r: Option<T>)
    where
        F: FnOnce(&SaveManager) -> T,
    requires
        state matches Some(m) ==> f.requires((&m,)),
    ensures
        state is None ==> r is None,
        state matches Some(m) ==> (r matches Some(v) && f.ensures((&m,), v)),
{
    match state {
        Some(m) => Some(f(m)),
        None => None,
    }
}

/// Drops the installed manager, if any.
pub fn clear(state: &mut Option<SaveManager>)
    ensures
        *final(state) is None,
{
    *state = None;
}

/// What a call on the installed manager reports: its value and no error
/// (the last error is cleared) when it succeeded; no value and its error
/// message when it failed; no value and `not_initialized` when no manager was
/// installed.
pub fn settle<T>(outcome: Option<core::result::Result<T, String>>, not_initialized: &str) -> (r: (Option<T>, Option<String>))
    ensures
        match outcome {
            Some(Ok(v)) => r.0 == Some(v) && r.1 is None,
            Some(Err(m)) => r.0 is None && r.1 == Some(m),
            None => r.0 is None && (r.1 matches Some(m) && m@ == not_initialized@),
        },
{
    match outcome {
        Some(Ok(v)) => (Some(v), None),
        Some(Err(m)) => (None, Some(m)),
        None => (None, Some(String::from_str(not_initialized))),
    }
}

} // verus!
