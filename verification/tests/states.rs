use mini_lm::settings::{
    apply_simple_defaults, clamp, delete_api_key, load_api_key, load_settings, save_api_key,
    save_settings, KeyChange, SettingChange, Settings, SettingsUpdate,
};
use mini_lm::tasks::AppStateInner;
use std::collections::HashMap;

fn update() -> SettingsUpdate {
    SettingsUpdate {
        model: " m ".to_string(),
        thinking_enabled: true,
        reasoning_effort: "max ".to_string(),
        max_context_chars: 1,
        comprehensive_batch_chars: 99_999,
        api_key: Some(" k ".to_string()),
        clear_api_key: false,
    }
}

fn shown(change: &SettingChange) -> (String, Option<String>) {
    match change {
        SettingChange::Store(name, value) => (name.to_string(), Some(value.clone())),
        SettingChange::Delete(name) => (name.to_string(), None),
    }
}

#[test]
fn settings_have_defaults() {
    let mut settings = Settings::default();
    assert_eq!(settings.model, "deepseek-v4-flash");
    assert_eq!(settings.reasoning_effort, "high");
    assert_eq!((settings.max_context_chars, settings.comprehensive_batch_chars), (12_000, 6_000));
    assert!(settings.source_path.is_none() && settings.api_key.is_none());
    settings.model = "other".to_string();
    settings.thinking_enabled = true;
    settings.source_path = Some("/s".to_string());
    apply_simple_defaults(&mut settings);
    assert_eq!(settings.model, "deepseek-v4-flash");
    assert!(!settings.thinking_enabled);
    assert_eq!(settings.source_path, Some("/s".to_string()));
}

#[test]
fn keychain_keys_come_first() {
    let key = |k: Option<&str>, p: Option<&str>| {
        load_api_key(k.map(|s| s.to_string()), p.map(|s| s.to_string()))
    };
    assert_eq!(key(Some("a"), Some("b")), (Some("a".to_string()), "os-keychain".to_string()));
    assert_eq!(
        key(Some(" "), Some("b")),
        (Some("b".to_string()), "sqlite-plaintext-fallback".to_string())
    );
    assert_eq!(key(None, Some("")), (None, "none".to_string()));
    let settings = load_settings(Some("/s".to_string()), None, Some("b".to_string()));
    assert!(settings.api_key_saved);
    assert_eq!(settings.api_key_storage, "sqlite-plaintext-fallback");
    assert_eq!(settings.source_path, Some("/s".to_string()));
}

#[test]
fn stored_settings_are_trimmed_and_clamped() {
    let (stored, change) = save_settings(&update());
    let expected = [
        ("model", "m"),
        ("thinking_enabled", "true"),
        ("reasoning_effort", "max"),
        ("max_context_chars", "3000"),
        ("comprehensive_batch_chars", "16000"),
    ];
    let stored: Vec<(&str, &str)> = stored.iter().map(|(k, v)| (*k, v.as_str())).collect();
    assert_eq!(stored, expected);
    assert!(matches!(change, KeyChange::Save(key) if key == "k"));
    assert_eq!(clamp(5, 3, 9), 5);
}

#[test]
fn keys_are_saved_cleared_or_kept() {
    let mut cleared = update();
    cleared.clear_api_key = true;
    assert!(matches!(save_settings(&cleared).1, KeyChange::Clear));
    let mut kept = update();
    kept.api_key = Some("  ".to_string());
    assert!(matches!(save_settings(&kept).1, KeyChange::Keep));
    kept.api_key = None;
    assert!(matches!(save_settings(&kept).1, KeyChange::Keep));
}

#[test]
fn keys_in_the_keychain_leave_no_plain_text() {
    let (changes, storage) = save_api_key(&Ok(()), "k");
    assert_eq!(storage, "os-keychain");
    assert_eq!(shown(&changes[0]), ("api_key_plaintext".to_string(), None));
    let (changes, storage) = save_api_key(&Err("locked".to_string()), "k");
    assert_eq!(storage, "sqlite-plaintext-fallback");
    assert_eq!(shown(&changes[0]), ("api_key_plaintext".to_string(), Some("k".to_string())));
    assert_eq!(shown(&changes[2]), ("api_key_keychain_error".to_string(), Some("locked".to_string())));
    assert_eq!(shown(&delete_api_key()[2]), ("api_key_storage".to_string(), Some("none".to_string())));
}

fn apply(stored: &mut HashMap<String, String>, changes: &[SettingChange]) {
    for change in changes {
        match change {
            SettingChange::Store(name, value) => {
                stored.insert(name.to_string(), value.clone());
            }
            SettingChange::Delete(name) => {
                stored.remove(*name);
            }
        }
    }
}

#[test]
fn saved_keys_are_used_until_they_are_forgotten() {
    let mut stored = HashMap::new();
    let plain = |stored: &HashMap<String, String>| stored.get("api_key_plaintext").cloned();
    apply(&mut stored, &save_api_key(&Err("locked".to_string()), "k").0);
    assert_eq!(
        load_api_key(None, plain(&stored)),
        (Some("k".to_string()), "sqlite-plaintext-fallback".to_string())
    );
    apply(&mut stored, &save_api_key(&Ok(()), "n").0);
    assert_eq!(plain(&stored), None);
    assert_eq!(
        load_api_key(Some("n".to_string()), plain(&stored)),
        (Some("n".to_string()), "os-keychain".to_string())
    );
    apply(&mut stored, &delete_api_key());
    assert_eq!(load_api_key(None, plain(&stored)), (None, "none".to_string()));
}

#[test]
fn cancelling_reaches_the_active_task() {
    let mut state = AppStateInner::new("/db".to_string());
    assert_eq!(state.db_path(), "/db");
    assert!(!state.cancel_task());
    let first = state.begin_task();
    let second = state.begin_task();
    assert!(state.cancel_task());
    assert!(!state.is_cancelled(first));
    assert!(state.is_cancelled(second));
    state.clear_task(first);
    assert!(state.cancel_task());
    state.clear_task(second);
    assert!(!state.cancel_task());
    assert_eq!(state.task_count(), 2);
    let third = state.begin_task();
    assert!(!state.is_cancelled(third));
}
