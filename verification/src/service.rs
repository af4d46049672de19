use vstd::prelude::*;
use crate::app_classifier::{classify_all, AppClassifier};
use crate::apps::{catalog_all, AppCatalog};
use crate::commands::{split_spec, split_utterance};
use crate::desktop::{file_views, DesktopFile};
use crate::text::{
    append_chars, chars_of, join, join_chars, string_of, string_views, chars_of_strings, text, trim,
    trim_chars,
};

verus! {

/// A hexadecimal digit, lower case.
pub open spec fn hex_digit(d: int) -> char {
    if d < 10 {
        ((48 + d) as u32) as char
    } else {
        ((87 + d) as u32) as char
    }
}

/// How JSON writes one character inside a string: `"` and `\` behind a backslash,
/// backspace, tab, line feed, form feed and carriage return as `\b`, `\t`, `\n`,
/// `\f`, `\r`, the other control characters below U+0020 as `\u00` and two
/// lower-case hex digits, and every other character as it is.
pub open spec fn json_escape_char(c: char) -> Seq<char> {
    if c == '"' {
        seq!['\\', '"']
    } else if c == '\\' {
        seq!['\\', '\\']
    } else if c == '\u{8}' {
        seq!['\\', 'b']
    } else if c == '\t' {
        seq!['\\', 't']
    } else if c == '\n' {
        seq!['\\', 'n']
    } else if c == '\u{c}' {
        seq!['\\', 'f']
    } else if c == '\r' {
        seq!['\\', 'r']
    } else if (c as u32) < 0x20 {
        seq!['\\', 'u', '0', '0', hex_digit(((c as u32) / 16) as int), hex_digit(((c as u32) % 16) as int)]
    } else {
        seq![c]
    }
}

/// The characters of a text, each written as inside a JSON string.
pub open spec fn json_escaped(s: Seq<char>) -> Seq<char>
    decreases s.len(),
{
    if s.len() == 0 {
        Seq::<char>::empty()
    } else {
        json_escaped(s.drop_last()) + json_escape_char(s.last())
    }
}

/// A text as a JSON string: quoted, its characters escaped.
pub open spec fn json_string(s: Seq<char>) -> Seq<char> {
    seq!['"'] + json_escaped(s) + seq!['"']
}

/// The compact JSON text of an array of strings, as `serde_json` writes it:
/// `[`, the strings separated by `,`, `]`.
pub open spec fn json_string_array(items: Seq<Seq<char>>) -> Seq<char> {
    seq!['['] + join(items.map_values(|s: Seq<char>| json_string(s)), seq![',']) + seq![']']
}

/// `serde_json`: the array of the given strings, as compact JSON text
/// (`Value::from(Vec<String>)` written with `to_string`, which escapes strings with
/// `format_escaped_str_contents`).
#[verifier::external_body]
fn encode_json_strings(items: &Vec<String>) -> (r: String)
    ensures
        r@ == json_string_array(string_views(items@)),
{
    serde_json::Value::from(items.clone()).to_string()
}

/// How one fragment of a request went.
pub enum FragmentOutcome {
    /// The model could not run; its error.
    EngineError(String),
    /// The model answered without a tool call.
    NoToolCall,
    /// The model's confidence was under the threshold.
    LowConfidence,
    /// The tool call could not be read; why.
    BadToolCall(String),
    /// The tool ran; its report.
    Completed(String),
    /// The tool failed; why.
    Failed(String),
}

/// What the assistant answers to a fragment with this outcome.
pub open spec fn reply_spec(o: FragmentOutcome) -> Seq<char> {
    match o {
        FragmentOutcome::EngineError(e) => "I couldn't process that command: "@ + e@,
        FragmentOutcome::NoToolCall => "I didn't find an action for that command."@,
        FragmentOutcome::LowConfidence => "I'm not confident enough to run that command."@,
        FragmentOutcome::BadToolCall(e) => "I couldn't understand the tool call: "@ + e@,
        FragmentOutcome::Completed(_) => "Done."@,
        FragmentOutcome::Failed(m) => "I couldn't complete that: "@ + m@,
    }
}

fn prefixed(prefix: &str, rest: &String) -> (r: String)
    ensures
        r@ == prefix@ + rest@,
{
    let mut m = chars_of(prefix);
    append_chars(&mut m, chars_of(rest.as_str()).as_slice());
    string_of(m.as_slice())
}

/// The answer to one fragment.
pub fn fragment_reply(outcome: &FragmentOutcome) -> (r: String)
    ensures
        r@ == reply_spec(*outcome),
{
    match outcome {
        FragmentOutcome::EngineError(e) => prefixed("I couldn't process that command: ", e),
        FragmentOutcome::NoToolCall => text("I didn't find an action for that command."),
        FragmentOutcome::LowConfidence => text("I'm not confident enough to run that command."),
        FragmentOutcome::BadToolCall(e) => prefixed("I couldn't understand the tool call: ", e),
        FragmentOutcome::Completed(_) => text("Done."),
        FragmentOutcome::Failed(m) => prefixed("I couldn't complete that: ", m),
    }
}

/// The fragments that a request is run as: none for a blank request, else the
/// trimmed request split into commands.
pub fn request_fragments(query: &str) -> (r: Option<Vec<String>>)
    ensures
        match r {
            None => trim(query@).len() == 0,
            Some(fs) => trim(query@).len() > 0 && string_views(fs@) == split_spec(trim(query@)),
        },
{
    let q = trim_chars(chars_of(query).as_slice());
    if q.len() == 0 {
        return None;
    }
    let qs = string_of(q.as_slice());
    Some(split_utterance(qs.as_str()))
}

/// The answer to a blank request, and its (empty) tool call list.
pub fn blank_request_reply() -> (r: (String, String))
    ensures
        r.0@ == "Tell me what you want me to do."@,
        r.1@ == "[]"@,
{
    (text("Tell me what you want me to do."), text("[]"))
}

/// The answer to a request: the fragments' answers joined by spaces, and the JSON
/// array of the events of the tools that ran.
pub fn compose_reply(responses: &Vec<String>, executed: &Vec<String>) -> (r: (String, String))
    ensures
        r.0@ == join(string_views(responses@), " "@),
        r.1@ == json_string_array(string_views(executed@)),
{
    let parts = chars_of_strings(responses.as_slice());
    let sep = chars_of(" ");
    let joined = join_chars(&parts, sep.as_slice());
    (string_of(joined.as_slice()), encode_json_strings(executed))
}


/// Reloads the catalog and the classifier from the same desktop files; true where
/// either now holds a different number of applications.
pub fn refresh_app_intelligence(
    apps: &mut AppCatalog,
    classifier: &mut AppClassifier,
    files: &[DesktopFile],
) -> (changed: bool)
    ensures
        final(apps)@ == catalog_all(file_views(files@)),
        final(classifier)@ == classify_all(file_views(files@)),
        changed == (old(apps)@.len() != final(apps)@.len() || old(classifier)@.len()
            != final(classifier)@.len()),
{
    let old_count = apps.len();
    let old_classified = classifier.len();
    apps.refresh(files);
    classifier.refresh(files);
    old_count != apps.len() || old_classified != classifier.len()
}


/// What a change in an application directory is, as the watcher reports it.
#[derive(Debug, Clone, Copy, PartialEq, Eq, Structural)]
pub enum FileEventKind {
    Create,
    Modify,
    Remove,
    Other,
}

/// The shortest time between two refreshes of the application intelligence, in
/// nanoseconds (250 ms).
pub const APP_EVENT_DEBOUNCE_NANOS: u128 = 250_000_000;

/// Whether a watcher event refreshes the applications: it creates, changes or
/// removes a file, and the last refresh is at least `APP_EVENT_DEBOUNCE_NANOS` ago.
pub fn should_refresh_apps(kind: FileEventKind, nanos_since_last: u128) -> (r: bool)
    ensures
        r == (kind != FileEventKind::Other && nanos_since_last >= APP_EVENT_DEBOUNCE_NANOS),
{
    match kind {
        FileEventKind::Other => false,
        _ => nanos_since_last >= APP_EVENT_DEBOUNCE_NANOS,
    }
}

/// The watcher's decision on an event at time `now` (nanoseconds on a monotonic
/// clock), given the time of the last refresh, if any: whether to refresh, and the
/// time of the last refresh afterwards. The first change always refreshes.
pub open spec fn debounce_next(last: Option<u128>, kind: FileEventKind, now: u128) -> (bool, Option<u128>) {
    let accept = kind != FileEventKind::Other && match last {
        None => true,
        Some(l) => now - l >= APP_EVENT_DEBOUNCE_NANOS,
    };
    (accept, if accept { Some(now) } else { last })
}

/// One step of the watcher (see `debounce_next`).
pub fn debounce_step(last: Option<u128>, kind: FileEventKind, now: u128) -> (r: (bool, Option<u128>))
    ensures
        r == debounce_next(last, kind, now),
{
    let accept = match last {
        None => kind != FileEventKind::Other,
        Some(l) => now >= l && should_refresh_apps(kind, now - l),
    };
    (accept, if accept { Some(now) } else { last })
}

/// The time of the last refresh after the watcher has seen `events` (each its kind
/// and time), starting with none.
pub open spec fn debounce_last(events: Seq<(FileEventKind, u128)>) -> Option<u128>
    decreases events.len(),
{
    if events.len() == 0 {
        None
    } else {
        debounce_next(debounce_last(events.drop_last()), events.last().0, events.last().1).1
    }
}

/// Whether the watcher refreshes on event `i` of `events`.
pub open spec fn debounce_accepts(events: Seq<(FileEventKind, u128)>, i: int) -> bool {
    debounce_next(debounce_last(events.take(i)), events[i].0, events[i].1).0
}

/// Events in the order of their times.
pub open spec fn times_ordered(events: Seq<(FileEventKind, u128)>) -> bool {
    forall|i: int, j: int| 0 <= i <= j < events.len() ==> #[trigger] events[i].1 <= #[trigger] events[j].1
}

proof fn lemma_debounce_last_after(events: Seq<(FileEventKind, u128)>, i: int, k: int)
    requires
        times_ordered(events),
        0 <= i < k <= events.len(),
        debounce_accepts(events, i),
    ensures
        debounce_last(events.take(k)) matches Some(l) && l >= events[i].1,
    decreases k,
{
    let tk = events.take(k);
    assert(tk.drop_last() == events.take(k - 1));
    assert(tk.last() == events[k - 1]);
    if k - 1 > i {
        lemma_debounce_last_after(events, i, k - 1);
        assert(events[i].1 <= events[k - 1].1);
    }
}

/// The watcher refreshes only on creations, changes and removals, and two refreshes
/// are at least `APP_EVENT_DEBOUNCE_NANOS` apart, for events that come in the order
/// of their times.
pub proof fn lemma_debounce_spacing(events: Seq<(FileEventKind, u128)>, i: int, j: int)
    requires
        times_ordered(events),
        0 <= i < j < events.len(),
    ensures
        forall|k: int|
            0 <= k < events.len() && #[trigger] debounce_accepts(events, k) ==> events[k].0
                != FileEventKind::Other,
        debounce_accepts(events, i) && debounce_accepts(events, j) ==> events[j].1 - events[i].1
            >= APP_EVENT_DEBOUNCE_NANOS,
{
    if debounce_accepts(events, i) && debounce_accepts(events, j) {
        lemma_debounce_last_after(events, i, j);
    }
}

/// The text that speech recognition gives, trimmed; an error where nothing is left.
pub fn recognized_text(raw: &str) -> (r: Result<String, String>)
    ensures
        match r {
            Ok(t) => trim(raw@).len() > 0 && t@ == trim(raw@),
            Err(e) => trim(raw@).len() == 0 && e@ == "no speech was recognized"@,
        },
{
    let t = trim_chars(chars_of(raw).as_slice());
    if t.len() == 0 {
        Err(text("no speech was recognized"))
    } else {
        Ok(string_of(t.as_slice()))
    }
}

} // verus!
