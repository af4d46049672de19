use quinn_daemon::apps::normalize;
use quinn_daemon::commands::split_utterance;
use quinn_daemon::desktop::{field, hidden_or_nodisplay, lines_of, list_field};

fn chars(s: &str) -> Vec<char> {
    s.chars().collect()
}

fn text(v: &[char]) -> String {
    v.iter().collect()
}

#[test]
fn normalize_collapses_separators_and_case() {
    assert_eq!(normalize("Foo__Bar--Baz.txt"), "foo bar baz txt");
    assert_eq!(normalize("   "), "");
    assert_eq!(normalize("GNOME\tTerminal"), "gnome terminal");
}

#[test]
fn normalize_drops_desktop_suffix_only_at_end() {
    assert_eq!(normalize("org.gnome.Nautilus.DESKTOP"), "org gnome nautilus");
    assert_eq!(normalize("desktop.files"), "desktop files");
}

#[test]
fn normalize_is_idempotent_on_examples() {
    for s in ["  Visual-Studio_Code.desktop ", "a.b.c", "X  Y", "Ünïcode_Name"] {
        let once = normalize(s);
        assert_eq!(normalize(&once), once);
    }
}

#[test]
fn split_handles_commas_then_and_case() {
    assert_eq!(split_utterance("a, b,c"), vec!["a", "b", "c"]);
    assert_eq!(split_utterance("open files THEN play music"), vec!["open files", "play music"]);
    assert_eq!(split_utterance("open x And  y"), vec!["open x", "y"]);
}

#[test]
fn split_without_fragments_returns_trimmed_input() {
    assert_eq!(split_utterance(""), vec![""]);
    assert_eq!(split_utterance(" ,, + "), vec![",, +"]);
    assert_eq!(split_utterance("  hello  "), vec!["hello"]);
}

#[test]
fn split_keeps_single_quotes_and_markers_inside_quotes() {
    assert_eq!(split_utterance("say 'this and that' + stop"), vec!["say 'this and that'", "stop"]);
    assert_eq!(split_utterance("open \"a, b"), vec!["open \"a, b"]);
}

#[test]
fn split_markers_need_spaces_on_both_sides() {
    assert_eq!(split_utterance("sand then"), vec!["sand then"]);
    assert_eq!(split_utterance("and then x"), vec!["and", "x"]);
    assert_eq!(split_utterance("android"), vec!["android"]);
    assert_eq!(split_utterance("a then and b"), vec!["a", "and b"]);
}

#[test]
fn lines_strip_crlf_and_final_newline() {
    let ls: Vec<String> = lines_of(&chars("a\r\nb\n\nc\r")).iter().map(|l| text(l)).collect();
    assert_eq!(ls, vec!["a", "b", "", "c\r"]);
    assert!(lines_of(&chars("")).is_empty());
}

#[test]
fn field_takes_first_line_with_a_value() {
    let c = chars("[Desktop Entry]\nName=  \nName= Files \nName=Other\n");
    assert_eq!(field(&c, "Name").map(|v| text(&v)), Some("Files".to_string()));
    assert_eq!(field(&c, "GenericName"), None);
    let c2 = chars("XName=a\nName=b");
    assert_eq!(field(&c2, "Name").map(|v| text(&v)), Some("b".to_string()));
}

#[test]
fn list_field_drops_empty_items() {
    let c = chars("Categories=Network;;WebBrowser;\n");
    let items: Vec<String> = list_field(&c, "Categories").iter().map(|v| text(v)).collect();
    assert_eq!(items, vec!["Network", "WebBrowser"]);
    assert!(list_field(&c, "MimeType").is_empty());
}

#[test]
fn hidden_entries_ignore_case() {
    assert!(hidden_or_nodisplay(&chars("Name=x\nnodisplay=TRUE\n")));
    assert!(hidden_or_nodisplay(&chars("Hidden=true")));
    assert!(!hidden_or_nodisplay(&chars("NoDisplay=false\nHidden = true")));
}
