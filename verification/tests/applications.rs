use quinn_daemon::app_classifier::{capabilities, classify, AppClassifier, AppType};
use quinn_daemon::apps::{score_match, AppCatalog, AppEntry};
use quinn_daemon::desktop::DesktopFile;

fn desktop(id: &str, contents: &str) -> DesktopFile {
    DesktopFile {
        id: id.to_string(),
        path: format!("/usr/share/applications/{id}.desktop"),
        contents: contents.to_string(),
    }
}

fn s(v: &[&str]) -> Vec<String> {
    v.iter().map(|x| x.to_string()).collect()
}

#[test]
fn classify_follows_rule_order() {
    assert_eq!(classify("Kitty", None, &s(&["System", "TerminalEmulator"]), &[], &[]), AppType::Terminal);
    assert_eq!(classify("Gedit", Some("Text Editor"), &[], &[], &[]), AppType::Editor);
    assert_eq!(classify("Code", None, &s(&["Development", "TextEditor"]), &[], &[]), AppType::Development);
    assert_eq!(classify("Nautilus", None, &[], &[], &s(&["INODE/DIRECTORY"])), AppType::FileManager);
    assert_eq!(classify("Calculator", None, &s(&["Utility"]), &[], &[]), AppType::Unknown);
    assert_eq!(classify("Discord", None, &[], &s(&["chat", "voice"]), &[]), AppType::Chat);
}

#[test]
fn capabilities_in_fixed_order_without_repeats() {
    let caps = capabilities(
        &s(&["WebBrowser"]),
        &s(&["image/png", "x-scheme-handler/http", "x-scheme-handler/https", "TEXT/HTML", "Audio/ogg"]),
    );
    assert_eq!(caps, s(&["html", "web", "http", "https", "images", "browser"]));
    assert!(capabilities(&[], &[]).is_empty());
}

#[test]
fn as_str_names_each_kind() {
    assert_eq!(AppType::FileManager.as_str(), "file-manager");
    assert_eq!(AppType::MediaPlayer.as_str(), "media-player");
    assert_eq!(AppType::Unknown.as_str(), "unknown");
}

fn sample_files() -> Vec<DesktopFile> {
    vec![
        desktop("firefox", "[Desktop Entry]\nType=Application\nName=Firefox\nGenericName=Web Browser\nCategories=Network;WebBrowser;\nMimeType=text/html;x-scheme-handler/https;\n"),
        desktop("chromium", "[Desktop Entry]\nType=Application\nName=Chromium\nCategories=Network;WebBrowser;\n"),
        desktop("hidden", "[Desktop Entry]\nType=Application\nName=Hidden\nNoDisplay=true\n"),
        desktop("link", "[Desktop Entry]\nType=Link\nName=Website\n"),
        desktop("nautilus", "[Desktop Entry]\nType=Application\nName=Files\nMimeType=inode/directory;\n"),
        desktop("vlc", "[Desktop Entry]\nType=Application\nName=VLC\nCategories=AudioVideo;\nMimeType=video/mp4;\n"),
    ]
}

#[test]
fn classifier_reads_visible_applications() {
    let c = AppClassifier::discover(&sample_files());
    assert_eq!(c.len(), 4);
    let browsers = c.type_candidates("Web-Browser", 5);
    let names: Vec<&str> = browsers.iter().map(|a| a.name.as_str()).collect();
    assert_eq!(names, vec!["Chromium", "Firefox"]);
    assert_eq!(c.type_candidates("browser", 1).len(), 1);
    assert!(c.type_candidates("spaceship", 5).is_empty());
    assert_eq!(c.resolve_type("file manager").map(|a| a.id.as_str()), Some("nautilus"));
    assert_eq!(c.resolve_type("game").map(|a| a.id.as_str()), None);
}

#[test]
fn capability_resolution_prefers_kind_then_capability() {
    let c = AppClassifier::discover(&sample_files());
    assert_eq!(c.resolve_capability("directories").map(|a| a.id.as_str()), Some("nautilus"));
    assert_eq!(c.resolve_capability("video").map(|a| a.id.as_str()), Some("vlc"));
    assert_eq!(c.resolve_capability("html").map(|a| a.id.as_str()), Some("firefox"));
    assert_eq!(c.resolve_capability("media").map(|a| a.id.as_str()), Some("vlc"));
    assert_eq!(c.resolve_capability("   ").map(|a| a.id.as_str()), None);
    assert_eq!(c.resolve_capability("teleport").map(|a| a.id.as_str()), None);
    assert_eq!(c.resolve_capability("web browser").map(|a| a.id.as_str()), Some("chromium"));
    let firefox = c.resolve_capability("https").unwrap();
    assert_eq!(firefox.capabilities(), &s(&["html", "web", "http", "https", "browser"])[..]);
    assert_eq!(firefox.desktop_file(), "/usr/share/applications/firefox.desktop");
}

#[test]
fn refresh_replaces_the_applications() {
    let mut c = AppClassifier::discover(&sample_files());
    c.refresh(&[]);
    assert_eq!(c.len(), 0);
}

#[test]
fn catalog_resolves_aliases_then_scores() {
    let files = vec![
        desktop("code", "Name=Visual Studio Code\nGenericName=Text Editor\n"),
        desktop("firefox", "Name=Firefox\n"),
        desktop("firefox-esr", "Name=Firefox ESR\n"),
        desktop("hidden", "Name=Hidden\nHidden=true\n"),
        desktop("nameless", "GenericName=Nothing\n"),
    ];
    let catalog = AppCatalog::discover(&files);
    assert_eq!(catalog.len(), 3);
    assert_eq!(catalog.resolve("Text-Editor").map(|a| a.id.as_str()), Some("code"));
    assert_eq!(catalog.resolve("firefox").map(|a| a.id.as_str()), Some("firefox"));
    assert_eq!(catalog.resolve("fire").map(|a| a.id.as_str()), Some("firefox"));
    assert_eq!(catalog.resolve("studio").map(|a| a.id.as_str()), Some("code"));
    assert_eq!(catalog.resolve("please open firefox esr now").map(|a| a.id.as_str()), Some("firefox"));
    assert!(catalog.resolve("").is_none());
    assert!(catalog.resolve("zzz").is_none());
    assert_eq!(catalog.candidate_names("fire", 5), s(&["Firefox", "Firefox ESR"]));
    assert_eq!(catalog.candidate_names("fire", 1), s(&["Firefox"]));
    assert!(catalog.candidate_names("zzz", 3).is_empty());
}

#[test]
fn catalog_entries_keep_sorted_unique_aliases() {
    let files = vec![desktop("files", "Name=Files\nGenericName=FILES\n")];
    let mut catalog = AppCatalog::new();
    catalog.refresh(&files);
    let entry = catalog.resolve("files").unwrap();
    assert_eq!(entry.aliases, s(&["files"]));
    assert_eq!(entry.generic_name(), Some("FILES"));
    assert_eq!(entry.desktop_file(), "/usr/share/applications/files.desktop");
}

#[test]
fn score_match_levels() {
    let e = AppEntry {
        id: "org.gnome.Nautilus".into(),
        name: "Files".into(),
        generic_name: None,
        aliases: s(&["files"]),
        desktop_file: "/tmp/n.desktop".into(),
    };
    assert_eq!(score_match("files", &e), Some(0));
    assert_eq!(score_match("org gnome", &e), Some(1));
    assert_eq!(score_match("nautilus", &e), Some(2));
    assert_eq!(score_match("open files please", &e), Some(3));
    assert_eq!(score_match("", &e), None);
    assert_eq!(score_match("music", &e), None);
}
