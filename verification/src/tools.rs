use vstd::prelude::*;
use vstd::utf8::encode_utf8;
use crate::app_classifier::{
    is_best_capability, kind_name, normalize_words, capability_score_spec, type_candidates_spec, AppClassifier, AppView, ClassifiedApp,
};
use crate::apps::{
    is_best_match, matching, normalize_spec, score_match_spec, AppCatalog, EntryView,
};
use crate::desktop::{
    lines, lines_of,
};
use crate::order::{
    lemma_insert_sorted_at, sort_by, take_upto,
};
use crate::text::{
    append_chars, chars_of, compare_chars, decimal, decimal_chars, join, join_chars, lex_lt, string_of, string_views, text, text_is, trim, trim_chars, utf8_longer_than, views, Cmp3,
};

verus! {

/// The tools that the model may call, as the JSON schema list it is given.
pub const TOOL_SCHEMAS: &'static str = r#"[
{"name":"open_application","description":"Open an installed desktop application by name or a generic type such as browser, chat, terminal, file manager, editor, media player, or game","parameters":{"type":"object","properties":{"name":{"type":"string"}},"required":["name"]}},
{"name":"open_terminal","description":"Open the user's installed terminal application","parameters":{"type":"object","properties":{},"required":[]}},
{"name":"set_volume","description":"Set the default audio output volume to an integer percentage from 0 to 100","parameters":{"type":"object","properties":{"percent":{"type":"integer","minimum":0,"maximum":100}},"required":["percent"]}},
{"name":"set_brightness","description":"Set the display brightness to an integer percentage from 0 to 100","parameters":{"type":"object","properties":{"percent":{"type":"integer","minimum":0,"maximum":100}},"required":["percent"]}},
{"name":"search_files","description":"Search the user's home directory for files whose names contain a query; returns up to five deterministic matching paths","parameters":{"type":"object","properties":{"query":{"type":"string"}},"required":["query"]}}
]"#;

/// The longest file search query, in UTF-8 bytes.
pub const MAX_QUERY_BYTES: usize = 128;

/// A tool call of the model, with the arguments that the tools read: `name`
/// (a string), `percent` (an integer) and `query` (a string), where present.
pub struct ToolRequest {
    pub name: String,
    pub app_name: Option<String>,
    pub percent: Option<i64>,
    pub query: Option<String>,
}

/// What a tool call comes to, for the caller to carry out.
pub enum ToolAction {
    /// Launch the desktop entry `id`; report `message` once it is started.
    Launch { id: String, name: String, message: String },
    /// Open the first terminal of `terminal_candidates` that starts.
    OpenTerminal,
    /// Set the output volume to `value` (such as `"40%"`); report `message`.
    SetVolume { value: String, message: String },
    /// Set the display brightness to `value`; report `message`.
    SetBrightness { value: String, message: String },
    /// Search the home directory for file names that match `pattern`.
    SearchFiles { query: String, pattern: String },
}

/// A planned action as the contracts see it.
pub enum ActionView {
    Launch { id: Seq<char>, name: Seq<char>, message: Seq<char> },
    OpenTerminal,
    SetVolume { value: Seq<char>, message: Seq<char> },
    SetBrightness { value: Seq<char>, message: Seq<char> },
    SearchFiles { query: Seq<char>, pattern: Seq<char> },
}

impl View for ToolAction {
    type V = ActionView;

    open spec fn view(&self) -> ActionView {
        match self {
            ToolAction::Launch { id, name, message } => ActionView::Launch {
                id: id@,
                name: name@,
                message: message@,
            },
            ToolAction::OpenTerminal => ActionView::OpenTerminal,
            ToolAction::SetVolume { value, message } => ActionView::SetVolume {
                value: value@,
                message: message@,
            },
            ToolAction::SetBrightness { value, message } => ActionView::SetBrightness {
                value: value@,
                message: message@,
            },
            ToolAction::SearchFiles { query, pattern } => ActionView::SearchFiles {
                query: query@,
                pattern: pattern@,
            },
        }
    }
}

/// A planned tool call as views.
pub open spec fn plan_view(r: Result<ToolAction, String>) -> Result<ActionView, Seq<char>> {
    match r {
        Ok(a) => Ok(a@),
        Err(e) => Err(e@),
    }
}

// ---------------------------------------------------------------------------
// open_application
// ---------------------------------------------------------------------------

/// Launching a classified application.
pub open spec fn launch_classified(a: AppView) -> ActionView {
    ActionView::Launch {
        id: a.id,
        name: a.name,
        message: "opened "@ + a.name + " ("@ + kind_name(a.app_type) + ")"@,
    }
}

/// Launching a catalog entry.
pub open spec fn launch_entry(e: EntryView) -> ActionView {
    ActionView::Launch { id: e.id, name: e.name, message: "opened "@ + e.name }
}

/// The names of the applications at the given positions.
pub open spec fn names_at(cl: Seq<AppView>, idx: Seq<usize>) -> Seq<Seq<char>> {
    idx.map_values(|i: usize| cl[i as int].name)
}

/// What opening `requested` comes to. A request that names a kind opens the one
/// installed application of that kind, and is refused where there are several;
/// else the application that best offers the capability; else the best catalog
/// match; else nothing is found.
pub open spec fn open_app_result(
    requested: Seq<char>,
    apps: Seq<EntryView>,
    cl: Seq<AppView>,
    r: Result<ActionView, Seq<char>>,
) -> bool {
    let tc1 = type_candidates_spec(cl, requested, 1);
    let tc2 = type_candidates_spec(cl, requested, 2);
    let rc = normalize_words(requested);
    let rn = normalize_spec(requested);
    if tc1.len() > 0 {
        if tc2.len() > 1 {
            r == Err::<ActionView, Seq<char>>(
                "multiple "@ + kind_name(cl[tc2[0] as int].app_type)
                    + " applications are installed: "@ + join(names_at(cl, tc2), ", "@)
                    + "; please name one explicitly"@,
            )
        } else {
            r == Ok::<ActionView, Seq<char>>(launch_classified(cl[tc1[0] as int]))
        }
    } else if rc.len() > 0 && exists|j: int|
        0 <= j < cl.len() && #[trigger] capability_score_spec(rc, cl[j]) is Some {
        exists|i: int| is_best_capability(cl, rc, i) && r == Ok::<ActionView, Seq<char>>(#[trigger] launch_classified(cl[i]))
    } else if exists|j: int| 0 <= j < apps.len() && #[trigger] score_match_spec(rn, apps[j]) is Some {
        exists|i: int| is_best_match(apps, rn, i) && r == Ok::<ActionView, Seq<char>>(#[trigger] launch_entry(apps[i]))
    } else {
        r == Err::<ActionView, Seq<char>>(
            "could not find installed application '"@ + requested + "'"@,
        )
    }
}

fn launch_of_classified(a: &ClassifiedApp) -> (r: ToolAction)
    ensures
        r@ == launch_classified(a@),
{
    let mut m = chars_of("opened ");
    append_chars(&mut m, chars_of(a.name.as_str()).as_slice());
    append_chars(&mut m, chars_of(" (").as_slice());
    append_chars(&mut m, chars_of(a.app_type.as_str()).as_slice());
    append_chars(&mut m, chars_of(")").as_slice());
    ToolAction::Launch { id: a.id.clone(), name: a.name.clone(), message: string_of(m.as_slice()) }
}

fn launch_of_entry(e: &crate::apps::AppEntry) -> (r: ToolAction)
    ensures
        r@ == launch_entry(e@),
{
    let mut m = chars_of("opened ");
    append_chars(&mut m, chars_of(e.name.as_str()).as_slice());
    ToolAction::Launch { id: e.id.clone(), name: e.name.clone(), message: string_of(m.as_slice()) }
}

proof fn lemma_matching_empty(apps: Seq<EntryView>, r: Seq<char>)
    requires
        forall|j: int| 0 <= j < apps.len() ==> #[trigger] score_match_spec(r, apps[j]) is None,
    ensures
        matching(apps, r).len() == 0,
    decreases apps.len(),
{
    if apps.len() > 0 {
        let t = apps.drop_last();
        assert forall|j: int| 0 <= j < t.len() implies #[trigger] score_match_spec(r, t[j]) is None by {
            assert(t[j] == apps[j]);
        }
        assert(score_match_spec(r, apps[apps.len() - 1]) is None);
        lemma_matching_empty(t, r);
    }
}

/// Decides which application `requested` opens (see `open_app_result`).
pub fn open_application(requested: &str, apps: &AppCatalog, classifier: &AppClassifier) -> (r: Result<
    ToolAction,
    String,
>)
    ensures
        open_app_result(requested@, apps@, classifier@, plan_view(r)),
{
    let ghost cl = classifier@;
    let ghost tc2 = type_candidates_spec(cl, requested@, 2);
    match classifier.resolve_type(requested) {
        Some(classified) => {
            let candidates = classifier.type_candidates(requested, 2);
            if candidates.len() > 1 {
                proof {
                    // both limits take from the same sorted list
                    assert(type_candidates_spec(cl, requested@, 1)[0] == tc2[0]);
                }
                let mut names: Vec<Vec<char>> = Vec::new();
                let mut k: usize = 0;
                while k < candidates.len()
                    invariant
                        k <= candidates.len(),
                        candidates@.len() == tc2.len(),
                        forall|j: int| 0 <= j < candidates@.len() ==> (#[trigger] candidates@[j])@ == cl[tc2[j] as int],
                        views(names@) == names_at(cl, tc2).take(k as int),
                    decreases candidates.len() - k,
                {
                    names.push(chars_of(candidates[k].name.as_str()));
                    proof {
                        assert(candidates@[k as int]@ == cl[tc2[k as int] as int]);
                        assert(names_at(cl, tc2).take(k + 1) == names_at(cl, tc2).take(k as int).push(cl[tc2[k as int] as int].name));
                    }
                    k += 1;
                }
                assert(names_at(cl, tc2).take(candidates.len() as int) == names_at(cl, tc2));
                let sep = chars_of(", ");
                let joined = join_chars(&names, sep.as_slice());
                let mut m = chars_of("multiple ");
                append_chars(&mut m, chars_of(candidates[0].app_type.as_str()).as_slice());
                append_chars(&mut m, chars_of(" applications are installed: ").as_slice());
                append_chars(&mut m, joined.as_slice());
                append_chars(&mut m, chars_of("; please name one explicitly").as_slice());
                assert(candidates@[0]@ == cl[tc2[0] as int]);
                return Err(string_of(m.as_slice()));
            }
            proof {
                assert(type_candidates_spec(cl, requested@, 1).len() > 0);
                assert(type_candidates_spec(cl, requested@, 1)[0] == tc2[0]);
            }
            return Ok(launch_of_classified(classified));
        },
        None => {},
    }
    match classifier.resolve_capability(requested) {
        Some(capable) => {
            let r = launch_of_classified(capable);
            proof {
                let rc = normalize_words(requested@);
                let i = choose|i: int| is_best_capability(cl, rc, i) && #[trigger] cl[i] == capable@;
                assert(capability_score_spec(rc, cl[i]) is Some);
                assert(launch_classified(cl[i]) == r@);
            }
            return Ok(r);
        },
        None => {},
    }
    match apps.resolve(requested) {
        Some(entry) => {
            let r = launch_of_entry(entry);
            proof {
                let rn = normalize_spec(requested@);
                let i = choose|i: int| is_best_match(apps@, rn, i) && #[trigger] apps@[i] == entry@;
                assert(score_match_spec(rn, apps@[i]) is Some);
                assert(launch_entry(apps@[i]) == r@);
            }
            Ok(r)
        },
        None => {
            let candidates = apps.candidate_names(requested, 3);
            proof {
                let rn = normalize_spec(requested@);
                lemma_matching_empty(apps@, rn);
            }
            assert(candidates.len() == 0);
            let mut m = chars_of("could not find installed application '");
            append_chars(&mut m, chars_of(requested).as_slice());
            append_chars(&mut m, chars_of("'").as_slice());
            Err(string_of(m.as_slice()))
        },
    }
}


// ---------------------------------------------------------------------------
// Volume, brightness, file search
// ---------------------------------------------------------------------------

/// A percentage as the tools write it, such as `"40%"`.
pub open spec fn percent_text(p: int) -> Seq<char> {
    decimal(p as nat).push('%')
}

/// Setting the volume to `p` percent: refused outside 0 to 100.
pub open spec fn volume_result(p: i64) -> Result<ActionView, Seq<char>> {
    if 0 <= p <= 100 {
        Ok(
            ActionView::SetVolume {
                value: percent_text(p as int),
                message: "volume set to "@ + percent_text(p as int),
            },
        )
    } else {
        Err("volume must be between 0 and 100"@)
    }
}

/// Setting the brightness to `p` percent: refused outside 0 to 100.
pub open spec fn brightness_result(p: i64) -> Result<ActionView, Seq<char>> {
    if 0 <= p <= 100 {
        Ok(
            ActionView::SetBrightness {
                value: percent_text(p as int),
                message: "brightness set to "@ + percent_text(p as int),
            },
        )
    } else {
        Err("brightness must be between 0 and 100"@)
    }
}

/// Searching for `query` (trimmed): refused where it is blank or longer than 128
/// UTF-8 bytes; the pattern is `*query*`.
pub open spec fn search_result(query: Seq<char>) -> Result<ActionView, Seq<char>> {
    let q = trim(query);
    if q.len() == 0 {
        Err("file search query cannot be empty"@)
    } else if encode_utf8(q).len() > MAX_QUERY_BYTES {
        Err("file search query is too long"@)
    } else {
        Ok(ActionView::SearchFiles { query: q, pattern: seq!['*'] + q + seq!['*'] })
    }
}

fn percent_chars(p: i64) -> (r: Vec<char>)
    requires
        0 <= p <= 100,
    ensures
        r@ == percent_text(p as int),
{
    let mut v = decimal_chars(p as u64);
    v.push('%');
    v
}

/// Decides how to set the volume to `percent`.
pub fn set_volume(percent: i64) -> (r: Result<ToolAction, String>)
    ensures
        plan_view(r) == volume_result(percent),
{
    if !(0 <= percent && percent <= 100) {
        return Err(text("volume must be between 0 and 100"));
    }
    let value = percent_chars(percent);
    let mut m = chars_of("volume set to ");
    append_chars(&mut m, value.as_slice());
    Ok(ToolAction::SetVolume { value: string_of(value.as_slice()), message: string_of(m.as_slice()) })
}

/// Decides how to set the brightness to `percent`.
pub fn set_brightness(percent: i64) -> (r: Result<ToolAction, String>)
    ensures
        plan_view(r) == brightness_result(percent),
{
    if !(0 <= percent && percent <= 100) {
        return Err(text("brightness must be between 0 and 100"));
    }
    let value = percent_chars(percent);
    let mut m = chars_of("brightness set to ");
    append_chars(&mut m, value.as_slice());
    Ok(
        ToolAction::SetBrightness {
            value: string_of(value.as_slice()),
            message: string_of(m.as_slice()),
        },
    )
}

/// Decides how to search for `query`.
pub fn search_files(query: &str) -> (r: Result<ToolAction, String>)
    ensures
        plan_view(r) == search_result(query@),
{
    let q = trim_chars(chars_of(query).as_slice());
    if q.len() == 0 {
        return Err(text("file search query cannot be empty"));
    }
    if utf8_longer_than(q.as_slice(), MAX_QUERY_BYTES) {
        return Err(text("file search query is too long"));
    }
    let mut pattern = vec!['*'];
    append_chars(&mut pattern, q.as_slice());
    pattern.push('*');
    assert(pattern@ =~= seq!['*'] + q@ + seq!['*']);
    Ok(ToolAction::SearchFiles { query: string_of(q.as_slice()), pattern: string_of(pattern.as_slice()) })
}

/// The order of line positions by their text.
pub open spec fn line_order(ls: Seq<Seq<char>>) -> spec_fn(usize, usize) -> bool {
    |a: usize, b: usize| !lex_lt(ls[b as int], ls[a as int])
}

/// The positions `0..n`.
pub open spec fn upto(n: nat) -> Seq<usize> {
    Seq::new(n, |i: int| i as usize)
}

/// The found paths that the search reports: the output's lines, sorted, at most five.
pub open spec fn found_paths(output: Seq<char>) -> Seq<Seq<char>> {
    let ls = lines(output);
    take_upto(sort_by(upto(ls.len()), line_order(ls)), 5).map_values(|i: usize| ls[i as int])
}

/// What a search reports, from the paths that `find` printed.
pub open spec fn search_summary_spec(query: Seq<char>, output: Seq<char>) -> Seq<char> {
    let found = found_paths(output);
    if found.len() == 0 {
        "no files matching '"@ + query + "' were found"@
    } else {
        "found files: "@ + join(found, "; "@)
    }
}

/// The report of a file search for `query`, from the output of `find` (one path a line).
pub fn search_summary(query: &str, output: &str) -> (r: String)
    ensures
        r@ == search_summary_spec(query@, output@),
{
    let ls = lines_of(chars_of(output).as_slice());
    let ghost lv = views(ls@);
    let ghost ord = line_order(lv);
    let mut sorted: Vec<usize> = Vec::new();
    let mut p: usize = 0;
    while p < ls.len()
        invariant
            p <= ls.len(),
            lv == views(ls@),
            ord == line_order(lv),
            sorted@ == sort_by(upto(lv.len()).take(p as int), ord),
            forall|k: int| 0 <= k < sorted.len() ==> #[trigger] sorted@[k] < ls.len(),
        decreases ls.len() - p,
    {
        let mut j: usize = sorted.len();
        loop
            invariant
                j <= sorted.len(),
                p < ls.len(),
                lv == views(ls@),
                ord == line_order(lv),
                forall|k: int| 0 <= k < sorted.len() ==> #[trigger] sorted@[k] < ls.len(),
                forall|k: int| j <= k < sorted.len() ==> !ord(#[trigger] sorted@[k], p),
            ensures
                j <= sorted.len(),
                forall|k: int| j <= k < sorted.len() ==> !ord(#[trigger] sorted@[k], p),
                j == 0 || ord(sorted@[j - 1], p),
            decreases j,
        {
            if j == 0 {
                break;
            }
            let y = sorted[j - 1];
            assert(lv[y as int] == ls@[y as int]@);
            assert(lv[p as int] == ls@[p as int]@);
            let le = match compare_chars(ls[p].as_slice(), ls[y].as_slice()) {
                Cmp3::Less => false,
                _ => true,
            };
            if le {
                break;
            }
            j -= 1;
        }
        proof {
            lemma_insert_sorted_at(sorted@, p, ord, j as int);
            assert(upto(lv.len()).take(p + 1).drop_last() == upto(lv.len()).take(p as int));
            assert(upto(lv.len()).take(p + 1).last() == p);
        }
        sorted.insert(j, p);
        p += 1;
    }
    assert(upto(lv.len()).take(ls.len() as int) == upto(lv.len()));
    sorted.truncate(5);
    let ghost found = found_paths(output@);
    let mut paths: Vec<Vec<char>> = Vec::new();
    let mut k: usize = 0;
    while k < sorted.len()
        invariant
            k <= sorted.len(),
            lv == views(ls@),
            lv == lines(output@),
            forall|m: int| 0 <= m < sorted.len() ==> #[trigger] sorted@[m] < ls.len(),
            found == sorted@.map_values(|i: usize| lv[i as int]),
            views(paths@) == found.take(k as int),
        decreases sorted.len() - k,
    {
        let mut v: Vec<char> = Vec::new();
        append_chars(&mut v, ls[sorted[k]].as_slice());
        assert(v@ == lv[sorted@[k as int] as int]);
        paths.push(v);
        k += 1;
        assert(found.take(k as int) == found.take(k - 1).push(found[k - 1]));
    }
    assert(found.take(sorted.len() as int) == found);
    if paths.len() == 0 {
        let mut m = chars_of("no files matching '");
        append_chars(&mut m, chars_of(query).as_slice());
        append_chars(&mut m, chars_of("' were found").as_slice());
        string_of(m.as_slice())
    } else {
        let sep = chars_of("; ");
        let joined = join_chars(&paths, sep.as_slice());
        let mut m = chars_of("found files: ");
        append_chars(&mut m, joined.as_slice());
        string_of(m.as_slice())
    }
}

/// The terminals that `open_terminal` tries, in order.
pub open spec fn terminals() -> Seq<Seq<char>> {
    seq![
        "ptyxis"@,
        "kgx"@,
        "gnome-terminal"@,
        "kitty"@,
        "alacritty"@,
        "konsole"@,
        "x-terminal-emulator"@,
    ]
}

/// The terminal programs to try, in order.
pub fn terminal_candidates() -> (r: Vec<String>)
    ensures
        string_views(r@) == terminals(),
{
    let mut r: Vec<String> = Vec::new();
    r.push(text("ptyxis"));
    r.push(text("kgx"));
    r.push(text("gnome-terminal"));
    r.push(text("kitty"));
    r.push(text("alacritty"));
    r.push(text("konsole"));
    r.push(text("x-terminal-emulator"));
    assert(string_views(r@) =~= terminals());
    r
}

/// The report of a terminal opened with `program`.
pub fn terminal_message(program: &str) -> (r: String)
    ensures
        r@ == "opened terminal with "@ + program@,
{
    let mut m = chars_of("opened terminal with ");
    append_chars(&mut m, chars_of(program).as_slice());
    string_of(m.as_slice())
}

// ---------------------------------------------------------------------------
// Dispatch
// ---------------------------------------------------------------------------

/// A tool request as the contracts see it.
pub struct RequestView {
    pub name: Seq<char>,
    pub app_name: Option<Seq<char>>,
    pub percent: Option<i64>,
    pub query: Option<Seq<char>>,
}

impl View for ToolRequest {
    type V = RequestView;

    open spec fn view(&self) -> RequestView {
        RequestView {
            name: self.name@,
            app_name: match self.app_name {
                Some(n) => Some(n@),
                None => None,
            },
            percent: self.percent,
            query: match self.query {
                Some(q) => Some(q@),
                None => None,
            },
        }
    }
}

/// What a tool call comes to: by the tool's name, the argument it needs (an error
/// where it is missing), and that tool's decision.
pub open spec fn plan_result(
    req: RequestView,
    apps: Seq<EntryView>,
    cl: Seq<AppView>,
    r: Result<ActionView, Seq<char>>,
) -> bool {
    if req.name == "open_application"@ {
        match req.app_name {
            None => r == Err::<ActionView, Seq<char>>("missing application name"@),
            Some(n) => open_app_result(n, apps, cl, r),
        }
    } else if req.name == "open_terminal"@ {
        r == Ok::<ActionView, Seq<char>>(ActionView::OpenTerminal)
    } else if req.name == "set_volume"@ {
        match req.percent {
            None => r == Err::<ActionView, Seq<char>>("missing volume percent"@),
            Some(p) => r == volume_result(p),
        }
    } else if req.name == "set_brightness"@ {
        match req.percent {
            None => r == Err::<ActionView, Seq<char>>("missing brightness percent"@),
            Some(p) => r == brightness_result(p),
        }
    } else if req.name == "search_files"@ {
        match req.query {
            None => r == Err::<ActionView, Seq<char>>("missing file search query"@),
            Some(q) => r == search_result(q),
        }
    } else {
        r == Err::<ActionView, Seq<char>>("unknown tool: "@ + req.name)
    }
}

/// Decides what a tool call does (see `plan_result`); the caller carries it out.
pub fn plan_tool(request: &ToolRequest, apps: &AppCatalog, classifier: &AppClassifier) -> (r: Result<
    ToolAction,
    String,
>)
    ensures
        plan_result(request@, apps@, classifier@, plan_view(r)),
{
    let name = chars_of(request.name.as_str());
    if text_is(name.as_slice(), "open_application") {
        match &request.app_name {
            None => Err(text("missing application name")),
            Some(n) => open_application(n.as_str(), apps, classifier),
        }
    } else if text_is(name.as_slice(), "open_terminal") {
        Ok(ToolAction::OpenTerminal)
    } else if text_is(name.as_slice(), "set_volume") {
        match request.percent {
            None => Err(text("missing volume percent")),
            Some(p) => set_volume(p),
        }
    } else if text_is(name.as_slice(), "set_brightness") {
        match request.percent {
            None => Err(text("missing brightness percent")),
            Some(p) => set_brightness(p),
        }
    } else if text_is(name.as_slice(), "search_files") {
        match &request.query {
            None => Err(text("missing file search query")),
            Some(q) => search_files(q.as_str()),
        }
    } else {
        let mut m = chars_of("unknown tool: ");
        append_chars(&mut m, name.as_slice());
        Err(string_of(m.as_slice()))
    }
}


// ---------------------------------------------------------------------------
// The model's tool-call text
// ---------------------------------------------------------------------------

/// What the model's raw tool-call text is, read as JSON: not JSON (with the
/// parser's message), an object, an array (and whether it has a first element),
/// or another value.
pub enum ToolJson {
    Invalid { error: String },
    Object,
    Array { has_first: bool },
    Other,
}

/// `ToolJson` as the contracts see it.
pub enum ToolJsonView {
    Invalid { error: Seq<char> },
    Object,
    Array { has_first: bool },
    Other,
}

impl View for ToolJson {
    type V = ToolJsonView;

    open spec fn view(&self) -> ToolJsonView {
        match self {
            ToolJson::Invalid { error } => ToolJsonView::Invalid { error: error@ },
            ToolJson::Object => ToolJsonView::Object,
            ToolJson::Array { has_first } => ToolJsonView::Array { has_first: *has_first },
            ToolJson::Other => ToolJsonView::Other,
        }
    }
}

/// What `serde_json` reads a text as (see `ToolJson`).
pub uninterp spec fn tool_json_of(raw: Seq<char>) -> ToolJsonView;

/// `serde_json::from_str::<Value>`: reads `raw` as JSON and reports what kind of
/// value it is, or the parser's error message (`Display` of `serde_json::Error`).
/// What the parser accepts and the words of its message are left to `serde_json`.
#[verifier::external_body]
fn read_tool_json(raw: &str) -> (r: ToolJson)
    ensures
        r@ == tool_json_of(raw@),
{
    match serde_json::from_str::<serde_json::Value>(raw) {
        Err(e) => ToolJson::Invalid { error: e.to_string() },
        Ok(serde_json::Value::Object(_)) => ToolJson::Object,
        Ok(serde_json::Value::Array(items)) => ToolJson::Array { has_first: !items.is_empty() },
        Ok(_) => ToolJson::Other,
    }
}

/// Which value of the raw text is the tool call: the whole value, or the first
/// element of an array.
#[derive(Debug, Clone, Copy, PartialEq, Eq, Structural)]
pub enum CallSource {
    Whole,
    FirstElement,
}

/// Where a tool call stands in text read as `json`, or why there is none.
pub open spec fn call_source_spec(json: ToolJsonView) -> Result<CallSource, Seq<char>> {
    match json {
        ToolJsonView::Invalid { error } => Err("invalid tool JSON: "@ + error),
        ToolJsonView::Object => Ok(CallSource::Whole),
        ToolJsonView::Array { has_first } => if has_first {
            Ok(CallSource::FirstElement)
        } else {
            Err("empty tool call array"@)
        },
        ToolJsonView::Other => Err("tool call must be an object or array"@),
    }
}

/// The error of a source, taken as a text.
pub open spec fn source_view(r: Result<CallSource, String>) -> Result<CallSource, Seq<char>> {
    match r {
        Ok(s) => Ok(s),
        Err(e) => Err(e@),
    }
}

/// Where the tool call stands in text that was read as `json`: an object is the
/// call, an array's first element is; an empty array, another value, or text that
/// is not JSON is refused.
pub fn call_source_of(json: ToolJson) -> (r: Result<CallSource, String>)
    ensures
        source_view(r) == call_source_spec(json@),
{
    match json {
        ToolJson::Invalid { error } => {
            let mut msg = chars_of("invalid tool JSON: ");
            let e = chars_of(error.as_str());
            append_chars(&mut msg, e.as_slice());
            proof {
                reveal_strlit("invalid tool JSON: ");
            }
            Err(string_of(msg.as_slice()))
        },
        ToolJson::Object => Ok(CallSource::Whole),
        ToolJson::Array { has_first } => if has_first {
            Ok(CallSource::FirstElement)
        } else {
            Err(text("empty tool call array"))
        },
        ToolJson::Other => Err(text("tool call must be an object or array")),
    }
}

/// Reads the model's raw tool-call text and says which value in it is the call;
/// the caller deserializes that value.
pub fn tool_call_source(raw: &str) -> (r: Result<CallSource, String>)
    ensures
        source_view(r) == call_source_spec(tool_json_of(raw@)),
{
    call_source_of(read_tool_json(raw))
}

/// The JSON text of the event of a tool that ran, as `serde_json` writes it, where
/// `arguments_json` is one JSON value.
pub uninterp spec fn tool_event_json(name: Seq<char>, arguments_json: Seq<char>, result: Seq<char>) -> Option<Seq<char>>;

/// `serde_json`: the compact JSON text of the object with the keys `arguments`,
/// `name` and `result`, in that (sorted) order, as serde_json writes its maps:
/// `arguments_json` is checked to be one JSON value and written as it is (no
/// number in it is read and written again), `name` and `result` are written as
/// JSON strings. `None` where `arguments_json` is not one JSON value. The exact
/// text is left to `serde_json`.
#[verifier::external_body]
pub fn event_json(name: &str, arguments_json: &str, result: &str) -> (r: Option<String>)
    ensures
        match r {
            Some(t) => tool_event_json(name@, arguments_json@, result@) == Some(t@),
            None => tool_event_json(name@, arguments_json@, result@) is None,
        },
{
    let arguments = serde_json::value::RawValue::from_string(arguments_json.to_string()).ok()?;
    let name = serde_json::value::to_raw_value(name).ok()?;
    let result = serde_json::value::to_raw_value(result).ok()?;
    let event = std::collections::BTreeMap::from([("arguments", arguments), ("name", name), ("result", result)]);
    serde_json::to_string(&event).ok()
}


/// A file search reports at most five paths, in sorted order.
pub proof fn lemma_found_paths_sorted(output: Seq<char>)
    ensures
        found_paths(output).len() <= 5,
        forall|i: int, j: int|
            0 <= i < j < found_paths(output).len() ==> !lex_lt(
                #[trigger] found_paths(output)[j],
                #[trigger] found_paths(output)[i],
            ),
{
    let ls = lines(output);
    let le = line_order(ls);
    assert forall|a: usize, b: usize| #[trigger] le(a, b) || le(b, a) by {
        crate::order::lemma_lex_asymmetric(ls[a as int], ls[b as int]);
    }
    assert forall|a: usize, b: usize, c: usize| #[trigger] le(a, b) && #[trigger] le(b, c) implies le(a, c) by {
        let x = ls[a as int];
        let y = ls[b as int];
        let z = ls[c as int];
        if lex_lt(z, x) {
            crate::order::lemma_lex_total(x, y);
            if lex_lt(x, y) {
                crate::order::lemma_lex_transitive(z, x, y);
            }
        }
    }
    let u = upto(ls.len());
    crate::order::lemma_sort_by_sorted(u, le);
    crate::order::lemma_take_upto_sorted(sort_by(u, le), 5, le);
    let t = take_upto(sort_by(u, le), 5);
    let f = found_paths(output);
    assert forall|i: int, j: int| 0 <= i < j < f.len() implies !lex_lt(#[trigger] f[j], #[trigger] f[i]) by {
        assert(le(t[i], t[j]));
    }
}

} // verus!
