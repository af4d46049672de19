use quinn_daemon::reminders::ReminderStore;
use quinn_daemon::app_classifier::{AppClassifier, AppType};
use quinn_daemon::apps::normalize;
use quinn_daemon::desktop::DesktopFile;
use quinn_daemon::service::{compose_reply, debounce_step, recognized_text, should_refresh_apps, FileEventKind};
use quinn_daemon::tools::{event_json, tool_call_source, CallSource};

#[test]
fn tool_call_source_takes_objects_and_first_elements() {
    assert_eq!(tool_call_source(r#"{"name":"open_terminal"}"#), Ok(CallSource::Whole));
    assert_eq!(
        tool_call_source(r#"[{"name":"open_terminal"},{"name":"set_volume"}]"#),
        Ok(CallSource::FirstElement)
    );
}

#[test]
fn tool_call_source_refusals() {
    assert_eq!(tool_call_source("[]"), Err("empty tool call array".to_string()));
    assert_eq!(tool_call_source("42"), Err("tool call must be an object or array".to_string()));
    assert_eq!(
        tool_call_source(r#""open""#),
        Err("tool call must be an object or array".to_string())
    );
    let invalid = tool_call_source("open the browser").unwrap_err();
    assert!(invalid.starts_with("invalid tool JSON: "), "{invalid}");
    assert!(invalid.len() > "invalid tool JSON: ".len());
}

#[test]
fn event_json_holds_name_arguments_and_result() {
    let text = event_json("set_volume", r#"{"percent":40}"#, "volume set to 40%").unwrap();
    assert_eq!(text, r#"{"arguments":{"percent":40},"name":"set_volume","result":"volume set to 40%"}"#);
    let value: serde_json::Value = serde_json::from_str(&text).unwrap();
    assert_eq!(value["name"], serde_json::Value::from("set_volume"));
}

#[test]
fn event_json_keeps_arguments_as_written() {
    let text = event_json("t", r#"{"x":0.30000000000000004,"q":"a\"b"}"#, "ok").unwrap();
    assert_eq!(text, r#"{"arguments":{"x":0.30000000000000004,"q":"a\"b"},"name":"t","result":"ok"}"#);
    assert_eq!(event_json("t", "not json", "ok"), None);
    assert_eq!(event_json("t", "{} {}", "ok"), None);
}

#[test]
fn watcher_refreshes_only_on_changes_after_the_debounce() {
    assert!(should_refresh_apps(FileEventKind::Create, 250_000_000));
    assert!(should_refresh_apps(FileEventKind::Modify, 1_000_000_000));
    assert!(should_refresh_apps(FileEventKind::Remove, 250_000_001));
    assert!(!should_refresh_apps(FileEventKind::Create, 249_999_999));
    assert!(!should_refresh_apps(FileEventKind::Other, 10_000_000_000));
}

#[test]
fn watcher_steps_keep_refreshes_apart() {
    let (refresh, last) = debounce_step(None, FileEventKind::Other, 5);
    assert!(!refresh);
    assert_eq!(last, None);
    let (refresh, last) = debounce_step(None, FileEventKind::Create, 10);
    assert!(refresh);
    assert_eq!(last, Some(10));
    let (refresh, last) = debounce_step(last, FileEventKind::Modify, 200_000_000);
    assert!(!refresh);
    assert_eq!(last, Some(10));
    let (refresh, last) = debounce_step(last, FileEventKind::Remove, 250_000_010);
    assert!(refresh);
    assert_eq!(last, Some(250_000_010));
}

#[test]
fn recognized_text_is_trimmed_or_refused() {
    assert_eq!(recognized_text("  open firefox \n"), Ok("open firefox".to_string()));
    assert_eq!(recognized_text(" \t "), Err("no speech was recognized".to_string()));
    assert_eq!(recognized_text(""), Err("no speech was recognized".to_string()));
}

fn desktop(id: &str, contents: &str) -> DesktopFile {
    DesktopFile {
        id: id.to_string(),
        path: format!("/usr/share/applications/{id}.desktop"),
        contents: contents.to_string(),
    }
}

#[test]
fn classifier_keeps_a_desktop_suffix_in_requests() {
    let c = AppClassifier::discover(&[desktop(
        "firefox",
        "[Desktop Entry]\nType=Application\nName=Firefox\nCategories=Network;WebBrowser;\n",
    )]);
    assert_eq!(c.resolve_type("Browser").map(|a| a.app_type), Some(AppType::Browser));
    assert!(c.resolve_type("browser.desktop").is_none());
    assert_eq!(c.type_candidates("browser.desktop", 5).len(), 0);
}

#[test]
fn kind_names_resolve_to_their_kind() {
    let c = AppClassifier::discover(&[
        desktop("nautilus", "[Desktop Entry]\nType=Application\nName=Files\nMimeType=inode/directory;\n"),
        desktop("vlc", "[Desktop Entry]\nType=Application\nName=VLC\nCategories=AudioVideo;\n"),
    ]);
    for kind in [AppType::FileManager, AppType::MediaPlayer] {
        let found = c.resolve_type(kind.as_str()).map(|a| a.app_type);
        assert_eq!(found, Some(kind));
    }
    assert!(c.resolve_type(AppType::Unknown.as_str()).is_none());
}

#[test]
fn normalize_ignores_ascii_case() {
    for s in ["Visual-Studio_Code.desktop", "  GNOME\tTerminal ", "Fire.Fox"] {
        assert_eq!(normalize(&s.to_ascii_uppercase()), normalize(s));
    }
}

#[test]
fn reminders_over_a_run_go_out_once_at_their_first_take() {
    let mut store = ReminderStore::from_reminders(Vec::new());
    let a = store.create_at("stretch", 100, 50).unwrap();
    let b = store.create_at("water", 130, 60).unwrap();
    let mut handed: Vec<(u64, u64)> = Vec::new();
    for now in [90, 100, 120, 150, 200] {
        for r in store.take_due_at(now) {
            handed.push((r.id, now));
        }
        if now == 120 {
            let c = store.create_at("call", 125, 120).unwrap();
            assert_eq!(c.id, 3);
        }
    }
    assert_eq!(handed, vec![(a.id, 100), (b.id, 150), (3, 150)]);
    assert!(store.reminders().is_empty());
}

#[test]
fn composed_tool_calls_are_escaped_json_strings() {
    let responses = vec!["done".to_string()];
    let executed = vec![
        "{\"name\":\"a\"}".to_string(),
        "tab\there\nback\\slash\u{1}\u{8}\u{c}\r é".to_string(),
    ];
    let (_, tool_calls) = compose_reply(&responses, &executed);
    assert_eq!(
        tool_calls,
        "[\"{\\\"name\\\":\\\"a\\\"}\",\"tab\\there\\nback\\\\slash\\u0001\\b\\f\\r é\"]"
    );
    let (_, none) = compose_reply(&responses, &Vec::new());
    assert_eq!(none, "[]");
}
