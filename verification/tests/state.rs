use gm_save_core::state::{clear, settle, with};
use gm_save_core::SaveManager;

#[test]
fn load_before_init_returns_empty_string() {
    let mut state: Option<SaveManager> = None;
    clear(&mut state);
    assert_eq!(with(&state, |m| m.save_dir().clone()), None);
}

#[test]
fn shutdown_always_returns_1() {
    let mut state: Option<SaveManager> = None;
    clear(&mut state);
    assert!(state.is_none());
    clear(&mut state);
    assert!(state.is_none());
}

#[test]
fn operations_after_shutdown_return_error_values() {
    let mut state: Option<SaveManager> = None;
    gm_save_core::state::set(&mut state, SaveManager::new("/tmp", "test-passphrase"));
    assert_eq!(with(&state, |m| m.save_dir().as_os_str().len()), Some(4));
    clear(&mut state);
    assert_eq!(with(&state, |m| m.save_dir().as_os_str().len()), None);
}

#[test]
fn set_replaces_previous_manager() {
    let mut state: Option<SaveManager> = None;
    gm_save_core::state::set(&mut state, SaveManager::new("/a", "first"));
    gm_save_core::state::set(&mut state, SaveManager::new("/b", "second"));
    assert_eq!(with(&state, |m| m.save_dir().clone()), Some(std::path::PathBuf::from("/b")));
}

#[test]
fn settle_reports_value_error_or_uninitialized() {
    assert_eq!(settle(Some(Ok::<u32, String>(5)), "not init"), (Some(5), None));
    assert_eq!(settle(Some(Err::<u32, String>("bad".to_string())), "not init"), (None, Some("bad".to_string())));
    assert_eq!(settle(None::<Result<u32, String>>, "not init"), (None, Some("not init".to_string())));
}
