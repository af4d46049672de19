use quinn_daemon::app_classifier::{capability_score, classify, AppType, ClassifiedApp};
use quinn_daemon::apps::{normalize, score_match, AppEntry};
use quinn_daemon::commands::split_utterance;

fn app(name: &str, id: &str, aliases: &[&str]) -> AppEntry {
    AppEntry {
        id: id.to_string(),
        name: name.to_string(),
        generic_name: None,
        aliases: aliases.iter().map(|v| (*v).to_string()).collect(),
        desktop_file: format!("/tmp/{id}.desktop"),
    }
}

#[test]
fn helium_like_metadata_is_browser() {
    let result = classify(
        "Helium",
        Some("Web Browser"),
        &["Network".into(), "WebBrowser".into()],
        &[],
        &["text/html".into(), "x-scheme-handler/https".into()],
    );
    assert_eq!(result, AppType::Browser);
}

#[test]
fn browser_capability_resolves_to_browser_type() {
    let app = ClassifiedApp {
        id: "helium".into(),
        name: "Helium".into(),
        app_type: AppType::Browser,
        capabilities: vec!["web".into(), "https".into()],
        desktop_file: "/tmp/helium.desktop".into(),
    };
    assert_eq!(capability_score("browser", &app), Some(0));
    assert_eq!(capability_score("web", &app), Some(1));
}

#[test]
fn normalizes_common_desktop_names() {
    assert_eq!(
        normalize("  Visual-Studio_Code.desktop "),
        "visual studio code"
    );
}

#[test]
fn exact_alias_beats_substring() {
    let vscode = app(
        "Visual Studio Code",
        "code",
        &["visual studio code", "code"],
    );
    assert_eq!(score_match("code", &vscode), Some(0));
}

#[test]
fn prefix_beats_contains() {
    let firefox = app("Firefox", "firefox", &["firefox"]);
    assert_eq!(score_match("fire", &firefox), Some(1));
}

#[test]
fn splits_common_multi_commands() {
    assert_eq!(
        split_utterance("open Discord and Chrome + terminal"),
        vec!["open Discord", "Chrome", "terminal"]
    );
}

#[test]
fn keeps_quoted_text_together() {
    assert_eq!(
        split_utterance("open \"Visual Studio Code\" and terminal"),
        vec!["open \"Visual Studio Code\"", "terminal"]
    );
}

#[test]
fn does_not_split_embedded_words() {
    assert_eq!(split_utterance("open android studio"), vec!["open android studio"]);
}
