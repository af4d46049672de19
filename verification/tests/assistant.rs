use quinn_daemon::app_classifier::AppClassifier;
use quinn_daemon::apps::AppCatalog;
use quinn_daemon::audio::{player_candidates, VoiceClip, VoicePlayer};
use quinn_daemon::desktop::DesktopFile;
use quinn_daemon::greeting::greeting_clip;
use quinn_daemon::reminders::{Reminder, ReminderStore};
use quinn_daemon::service::{
    blank_request_reply, compose_reply, fragment_reply, request_fragments, FragmentOutcome,
};
use quinn_daemon::tools::{
    open_application, plan_tool, search_files, search_summary, set_brightness, set_volume,
    terminal_candidates, terminal_message, ToolAction, ToolRequest, TOOL_SCHEMAS,
};
use quinn_daemon::updater::{
    asset_url, bundle_files, is_executable_file, progress_line, verify_sha256, ReleaseAsset,
};

fn desktop(id: &str, contents: &str) -> DesktopFile {
    DesktopFile {
        id: id.to_string(),
        path: format!("/usr/share/applications/{id}.desktop"),
        contents: contents.to_string(),
    }
}

fn request(name: &str) -> ToolRequest {
    ToolRequest { name: name.to_string(), app_name: None, percent: None, query: None }
}

fn err(r: Result<ToolAction, String>) -> String {
    match r {
        Err(e) => e,
        Ok(_) => panic!("expected an error"),
    }
}

fn launch(r: Result<ToolAction, String>) -> (String, String, String) {
    match r {
        Ok(ToolAction::Launch { id, name, message }) => (id, name, message),
        Ok(_) => panic!("expected a launch"),
        Err(e) => panic!("unexpected error: {e}"),
    }
}

fn two_browsers() -> (AppCatalog, AppClassifier) {
    let files = vec![
        desktop("firefox", "Type=Application\nName=Firefox\nCategories=WebBrowser;\n"),
        desktop("chromium", "Type=Application\nName=Chromium\nCategories=WebBrowser;\n"),
        desktop("nautilus", "Type=Application\nName=Files\nMimeType=inode/directory;\n"),
        desktop("notes", "Type=Application\nName=Notes\n"),
    ];
    (AppCatalog::discover(&files), AppClassifier::discover(&files))
}

#[test]
fn open_application_refuses_ambiguous_kind() {
    let (apps, cl) = two_browsers();
    assert_eq!(
        err(open_application("browser", &apps, &cl)),
        "multiple browser applications are installed: Chromium, Firefox; please name one explicitly"
    );
}

#[test]
fn open_application_paths() {
    let (apps, cl) = two_browsers();
    assert_eq!(
        launch(open_application("file manager", &apps, &cl)),
        ("nautilus".to_string(), "Files".to_string(), "opened Files (file-manager)".to_string())
    );
    assert_eq!(
        launch(open_application("directories", &apps, &cl)).2,
        "opened Files (file-manager)"
    );
    assert_eq!(launch(open_application("note", &apps, &cl)).2, "opened Notes");
    assert_eq!(
        err(open_application("spaceship", &apps, &cl)),
        "could not find installed application 'spaceship'"
    );
}

#[test]
fn plan_tool_errors_for_each_missing_argument() {
    let (apps, cl) = two_browsers();
    assert_eq!(err(plan_tool(&request("open_application"), &apps, &cl)), "missing application name");
    assert_eq!(err(plan_tool(&request("set_volume"), &apps, &cl)), "missing volume percent");
    assert_eq!(err(plan_tool(&request("set_brightness"), &apps, &cl)), "missing brightness percent");
    assert_eq!(err(plan_tool(&request("search_files"), &apps, &cl)), "missing file search query");
    assert_eq!(err(plan_tool(&request("fly"), &apps, &cl)), "unknown tool: fly");
    assert!(matches!(plan_tool(&request("open_terminal"), &apps, &cl), Ok(ToolAction::OpenTerminal)));
    let mut r = request("set_volume");
    r.percent = Some(55);
    match plan_tool(&r, &apps, &cl) {
        Ok(ToolAction::SetVolume { value, message }) => {
            assert_eq!(value, "55%");
            assert_eq!(message, "volume set to 55%");
        }
        _ => panic!("expected a volume action"),
    }
    let mut r = request("open_application");
    r.app_name = Some("Notes".to_string());
    assert_eq!(launch(plan_tool(&r, &apps, &cl)).0, "notes");
}

#[test]
fn volume_and_brightness_ranges() {
    assert_eq!(err(set_volume(-1)), "volume must be between 0 and 100");
    assert_eq!(err(set_volume(101)), "volume must be between 0 and 100");
    assert_eq!(err(set_brightness(250)), "brightness must be between 0 and 100");
    match set_volume(0) {
        Ok(ToolAction::SetVolume { value, .. }) => assert_eq!(value, "0%"),
        _ => panic!("expected a volume action"),
    }
    match set_brightness(100) {
        Ok(ToolAction::SetBrightness { value, message }) => {
            assert_eq!(value, "100%");
            assert_eq!(message, "brightness set to 100%");
        }
        _ => panic!("expected a brightness action"),
    }
}

#[test]
fn search_query_checks_and_summary() {
    assert_eq!(err(search_files("   ")), "file search query cannot be empty");
    assert_eq!(err(search_files(&"x".repeat(129))), "file search query is too long");
    assert_eq!(err(search_files(&"é".repeat(65))), "file search query is too long");
    match search_files("  notes ") {
        Ok(ToolAction::SearchFiles { query, pattern }) => {
            assert_eq!(query, "notes");
            assert_eq!(pattern, "*notes*");
        }
        _ => panic!("expected a search"),
    }
    assert_eq!(search_summary("q", ""), "no files matching 'q' were found");
    assert_eq!(
        search_summary("q", "/h/f\n/h/b\n/h/e\n/h/a\n/h/d\n/h/c\n"),
        "found files: /h/a; /h/b; /h/c; /h/d; /h/e"
    );
}

#[test]
fn terminals_and_schemas() {
    assert_eq!(terminal_candidates()[0], "ptyxis");
    assert_eq!(terminal_candidates().len(), 7);
    assert_eq!(terminal_message("kgx"), "opened terminal with kgx");
    assert!(TOOL_SCHEMAS.contains("\"name\":\"search_files\""));
}

#[test]
fn replies_for_each_outcome() {
    assert_eq!(
        fragment_reply(&FragmentOutcome::EngineError("boom".into())),
        "I couldn't process that command: boom"
    );
    assert_eq!(fragment_reply(&FragmentOutcome::NoToolCall), "I didn't find an action for that command.");
    assert_eq!(
        fragment_reply(&FragmentOutcome::LowConfidence),
        "I'm not confident enough to run that command."
    );
    assert_eq!(
        fragment_reply(&FragmentOutcome::BadToolCall("bad".into())),
        "I couldn't understand the tool call: bad"
    );
    assert_eq!(fragment_reply(&FragmentOutcome::Completed("ok".into())), "Done.");
    assert_eq!(fragment_reply(&FragmentOutcome::Failed("no".into())), "I couldn't complete that: no");
}

#[test]
fn requests_and_composed_replies() {
    assert_eq!(request_fragments("   "), None);
    assert_eq!(request_fragments(" open a, b "), Some(vec!["open a".to_string(), "b".to_string()]));
    let blank = blank_request_reply();
    assert_eq!(blank.0, "Tell me what you want me to do.");
    assert_eq!(blank.1, "[]");
    let (text, calls) = compose_reply(&vec!["Done.".into(), "Done.".into()], &vec![]);
    assert_eq!(text, "Done. Done.");
    assert_eq!(calls, "[]");
    let (text, calls) = compose_reply(&vec!["Done.".into()], &vec!["{\"name\":\"x\"}".into()]);
    assert_eq!(text, "Done.");
    assert_eq!(calls, "[\"{\\\"name\\\":\\\"x\\\"}\"]");
}

#[test]
fn reminders_validate_and_number() {
    let mut store = ReminderStore::from_reminders(vec![Reminder { id: 7, text: "old".into(), when_unix: 50 }]);
    assert_eq!(store.create_at("   ", 200, 100).unwrap_err(), "reminder text cannot be empty");
    assert_eq!(store.create_at(&"a".repeat(513), 200, 100).unwrap_err(), "reminder text is too long");
    assert_eq!(store.create_at("tea", 100, 100).unwrap_err(), "reminder time must be in the future");
    let r = store.create_at("  tea ", 200, 100).unwrap();
    assert_eq!((r.id, r.text.as_str(), r.when_unix), (8, "tea", 200));
    assert!(store.create_at(&"a".repeat(512), 300, 100).is_ok());
    assert_eq!(store.reminders().len(), 3);
}

#[test]
fn reminders_are_taken_when_due_once() {
    let mut store = ReminderStore::from_reminders(vec![
        Reminder { id: 1, text: "a".into(), when_unix: 10 },
        Reminder { id: 2, text: "b".into(), when_unix: 30 },
        Reminder { id: 3, text: "c".into(), when_unix: 20 },
    ]);
    let due: Vec<u64> = store.take_due_at(20).iter().map(|r| r.id).collect();
    assert_eq!(due, vec![1, 3]);
    assert!(store.take_due_at(20).is_empty());
    let left: Vec<u64> = store.reminders().iter().map(|r| r.id).collect();
    assert_eq!(left, vec![2]);
}

#[test]
fn reminders_at_the_current_time() {
    let mut store = ReminderStore::from_reminders(vec![Reminder { id: u64::MAX, text: "x".into(), when_unix: 1 }]);
    let r = store.create("later", u64::MAX).unwrap();
    assert_eq!(r.id, u64::MAX);
    assert!(store.create("past", 1).is_err());
    let due = store.take_due();
    assert_eq!(due.len(), 1);
    assert_eq!(due[0].when_unix, 1);
}

#[test]
fn updater_assets_and_checksum() {
    let assets = Some(vec![
        ReleaseAsset { name: Some("other".into()), download_url: Some("u0".into()) },
        ReleaseAsset { name: Some("want".into()), download_url: None },
        ReleaseAsset { name: Some("want".into()), download_url: Some("u2".into()) },
        ReleaseAsset { name: Some("good".into()), download_url: Some("u3".into()) },
    ]);
    assert_eq!(asset_url(&assets, "good"), Ok("u3".to_string()));
    assert_eq!(asset_url(&assets, "want"), Err("release asset not found: want".to_string()));
    assert_eq!(asset_url(&assets, "none"), Err("release asset not found: none".to_string()));
    assert_eq!(asset_url(&None, "good"), Err("release asset not found: good".to_string()));
    let abc = "ba7816bf8f01cfea414140de5dae2223b00361a396177a9cb410ff61f20015ad";
    assert_eq!(verify_sha256(b"abc", &format!("{abc}  quinn.tar.gz\n")), Ok(()));
    assert_eq!(
        verify_sha256(b"abd", &format!("{abc}  quinn.tar.gz\n")),
        Err("Quinn update checksum verification failed".to_string())
    );
    assert_eq!(verify_sha256(b"abc", " \n "), Err("checksum file is empty".to_string()));
}

#[test]
fn updater_progress_and_files() {
    assert_eq!(progress_line("Downloading Quinn", 50, Some(200)), "progress=Downloading_Quinn:25");
    assert_eq!(progress_line("Downloading checksum", 1234, None), "progress=Downloading_checksum:1234");
    assert_eq!(progress_line("x", 7, Some(0)), "progress=x:700");
    assert_eq!(progress_line("x", u64::MAX, Some(1)), format!("progress=x:{}", u64::MAX));
    assert_eq!(bundle_files(), vec!["quinn-app", "quinn-daemon", "libvosk.so"]);
    assert!(is_executable_file("quinn-app"));
    assert!(!is_executable_file("libvosk.so"));
}

#[test]
fn greetings_by_hour() {
    assert_eq!(greeting_clip(Some(5)), "Good_Morning.wav");
    assert_eq!(greeting_clip(Some(11)), "Good_Morning.wav");
    assert_eq!(greeting_clip(Some(12)), "Good_Afternoon.wav");
    assert_eq!(greeting_clip(Some(21)), "Good_Evening.wav");
    assert_eq!(greeting_clip(Some(22)), "Good_Night.wav");
    assert_eq!(greeting_clip(Some(4)), "Good_Night.wav");
    assert_eq!(greeting_clip(None), "Good_Night.wav");
}

#[test]
fn voice_clips_and_player() {
    assert_eq!(VoiceClip::TimerSet.filename(), "Timer_Set.wav");
    assert_eq!(VoiceClip::Done.filename(), "Done.wav");
    assert_eq!(player_candidates(), vec!["pw-play", "paplay", "aplay"]);
    let none = VoicePlayer::new("/v".into(), None);
    assert_eq!(none.directory_str(), "/v");
    assert_eq!(none.program_for("/v/Done.wav", false), Err("voice clip not found: /v/Done.wav".to_string()));
    assert_eq!(
        none.program_for("/v/Done.wav", true),
        Err("no supported audio player found (pw-play, paplay, or aplay)".to_string())
    );
    let some = VoicePlayer::new("/v".into(), Some("aplay".into()));
    assert_eq!(some.program_for("/v/Done.wav", true), Ok("aplay".to_string()));
}
