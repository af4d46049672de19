use vstd::prelude::*;
use crate::desktop::{
    field, field_spec, file_views, hidden_or_nodisplay, hidden_spec, list_field, list_field_spec, DesktopFile, DesktopFileView,
};
use crate::order::{
    lemma_insert_sorted_at, lemma_lex_asymmetric, lemma_lex_irreflexive, lemma_lex_total, lemma_lex_transitive, sort_by, take_upto,
};
use crate::text::{
    append_chars, chars_eq, chars_of, chars_of_strings, compare_chars, contains, contains_chars, eq_ignore_case, eq_ignore_case_chars, join, join_chars, lex_lt, starts_with, starts_with_chars, string_of, string_views, text, text_is, views, Cmp3, Delim, lower_chars, lower_seq, nonempty, nonempty_pieces, split_by, split_chars, trim, trim_chars,
    lemma_join_chars, lemma_nonempty_all, lemma_split_join, lemma_trim_end_take, lemma_trim_start_skip, lemma_split_by_whole, lower, upper_seq, lemma_trim_lower_ignores_upper,
};

verus! {

/// The kind of an installed application.
#[derive(Debug, Clone, Copy, PartialEq, Eq, Structural)]
pub enum AppType {
    Browser,
    Chat,
    Editor,
    Terminal,
    FileManager,
    MediaPlayer,
    ImageViewer,
    Game,
    Development,
    Office,
    Unknown,
}

/// The name of each kind, as `AppType::as_str` gives it.
pub open spec fn kind_name(t: AppType) -> Seq<char> {
    match t {
        AppType::Browser => "browser"@,
        AppType::Chat => "chat"@,
        AppType::Editor => "editor"@,
        AppType::Terminal => "terminal"@,
        AppType::FileManager => "file-manager"@,
        AppType::MediaPlayer => "media-player"@,
        AppType::ImageViewer => "image-viewer"@,
        AppType::Game => "game"@,
        AppType::Development => "development"@,
        AppType::Office => "office"@,
        AppType::Unknown => "unknown"@,
    }
}

impl AppType {
    /// The kind's name, as tools and replies write it.
    pub fn as_str(self) -> (r: &'static str)
        ensures
            r@ == kind_name(self),
    {
        match self {
            AppType::Browser => "browser",
            AppType::Chat => "chat",
            AppType::Editor => "editor",
            AppType::Terminal => "terminal",
            AppType::FileManager => "file-manager",
            AppType::MediaPlayer => "media-player",
            AppType::ImageViewer => "image-viewer",
            AppType::Game => "game",
            AppType::Development => "development",
            AppType::Office => "office",
            AppType::Unknown => "unknown",
        }
    }
}

/// An installed application with the kind and capabilities read from its desktop file.
#[derive(Debug, Clone)]
pub struct ClassifiedApp {
    pub id: String,
    pub name: String,
    pub app_type: AppType,
    pub capabilities: Vec<String>,
    pub desktop_file: String,
}

/// A classified application as the contracts see it.
pub struct AppView {
    pub id: Seq<char>,
    pub name: Seq<char>,
    pub app_type: AppType,
    pub capabilities: Seq<Seq<char>>,
    pub desktop_file: Seq<char>,
}

impl View for ClassifiedApp {
    type V = AppView;

    open spec fn view(&self) -> AppView {
        AppView {
            id: self.id@,
            name: self.name@,
            app_type: self.app_type,
            capabilities: string_views(self.capabilities@),
            desktop_file: self.desktop_file@,
        }
    }
}

impl ClassifiedApp {
    /// The capabilities of the application, in a fixed order, none twice.
    pub fn capabilities(&self) -> (r: &[String])
        ensures
            r@ == self.capabilities@,
    {
        self.capabilities.as_slice()
    }

    /// The path of the application's desktop file.
    pub fn desktop_file(&self) -> (r: &str)
        ensures
            r@ == self.desktop_file@,
    {
        self.desktop_file.as_str()
    }
}

// ---------------------------------------------------------------------------
// Normalization
// ---------------------------------------------------------------------------

/// What the classifier makes of a text before comparing it: trimmed and
/// lower-cased (ASCII), its words joined by one space, where words are split at
/// whitespace, `'_'`, `'-'` and `'.'`. A final `.desktop` is kept, as a word.
pub open spec fn normalize_words(s: Seq<char>) -> Seq<char> {
    join(nonempty(split_by(lower_seq(trim(s)), Delim::WordBreak)), seq![' '])
}

/// `normalize_words` on characters.
fn normalize_words_chars(v: &[char]) -> (r: Vec<char>)
    ensures
        r@ == normalize_words(v@),
{
    let trimmed = trim_chars(v);
    let lowered = lower_chars(trimmed.as_slice());
    let parts = split_chars(lowered.as_slice(), Delim::WordBreak);
    let words = nonempty_pieces(&parts);
    let sep = vec![' '];
    assert(sep@ =~= seq![' ']);
    join_chars(&words, sep.as_slice())
}

// ---------------------------------------------------------------------------
// Classification rules
// ---------------------------------------------------------------------------

/// Some category normalizes to `s`.
pub open spec fn has_category(cats: Seq<Seq<char>>, s: Seq<char>) -> bool {
    exists|i: int| 0 <= i < cats.len() && normalize_words(#[trigger] cats[i]) == s
}

/// Some MIME type equals `s`, ignoring ASCII case.
pub open spec fn has_mime(mimes: Seq<Seq<char>>, s: Seq<char>) -> bool {
    exists|i: int| 0 <= i < mimes.len() && eq_ignore_case(#[trigger] mimes[i], s)
}

/// Some MIME type begins with `p`.
pub open spec fn has_mime_prefix(mimes: Seq<Seq<char>>, p: Seq<char>) -> bool {
    exists|i: int| 0 <= i < mimes.len() && starts_with(#[trigger] mimes[i], p)
}

/// The normalized text that the name, generic name, categories and keywords make together.
pub open spec fn haystack(
    name: Seq<char>,
    generic: Option<Seq<char>>,
    cats: Seq<Seq<char>>,
    kws: Seq<Seq<char>>,
) -> Seq<char> {
    let g = match generic {
        Some(g) => g,
        None => Seq::<char>::empty(),
    };
    normalize_words(
        name + seq![' '] + g + seq![' '] + join(cats, seq![' ']) + seq![' '] + join(kws, seq![' ']),
    )
}

/// The kind of an application: the first rule, in this order, that its metadata meets.
pub open spec fn classify_spec(
    name: Seq<char>,
    generic: Option<Seq<char>>,
    cats: Seq<Seq<char>>,
    kws: Seq<Seq<char>>,
    mimes: Seq<Seq<char>>,
) -> AppType {
    let hay = haystack(name, generic, cats, kws);
    if has_category(cats, "webbrowser"@) || has_mime(mimes, "x-scheme-handler/http"@) || has_mime(
        mimes,
        "x-scheme-handler/https"@,
    ) || has_mime(mimes, "text/html"@) || contains(hay, "web browser"@) || contains(
        hay,
        "browser"@,
    ) {
        AppType::Browser
    } else if has_category(cats, "chat"@) || has_category(cats, "instantmessaging"@) || contains(
        hay,
        "messenger"@,
    ) || contains(hay, "chat"@) {
        AppType::Chat
    } else if has_category(cats, "development"@) || has_category(cats, "ide"@) || contains(
        hay,
        "code editor"@,
    ) || contains(hay, "developer"@) {
        AppType::Development
    } else if has_category(cats, "texteditor"@) || contains(hay, "text editor"@) || contains(
        hay,
        "editor"@,
    ) {
        AppType::Editor
    } else if has_category(cats, "filemanager"@) || contains(hay, "file manager"@) || has_mime(
        mimes,
        "inode/directory"@,
    ) {
        AppType::FileManager
    } else if has_category(cats, "audiovideo"@) || contains(hay, "media player"@) {
        AppType::MediaPlayer
    } else if has_category(cats, "graphics"@) || contains(hay, "image viewer"@) || contains(
        hay,
        "photo viewer"@,
    ) {
        AppType::ImageViewer
    } else if has_category(cats, "game"@) || contains(hay, "game"@) {
        AppType::Game
    } else if has_category(cats, "office"@) || contains(hay, "office"@) || contains(
        hay,
        "spreadsheet"@,
    ) || contains(hay, "word processor"@) {
        AppType::Office
    } else if has_category(cats, "terminalemulator"@) || contains(hay, "terminal"@) {
        AppType::Terminal
    } else {
        AppType::Unknown
    }
}

/// `v` added at the end, unless it is there already.
pub open spec fn add_capability(out: Seq<Seq<char>>, v: Seq<char>) -> Seq<Seq<char>> {
    if out.contains(v) {
        out
    } else {
        out.push(v)
    }
}

/// The capabilities that the given findings give, each added once, in this order:
/// `html`; `web`, `http`, `https`; `directories`; `audio`; `video`; `images`; `browser`.
pub open spec fn capabilities_of(
    html: bool,
    web: bool,
    dirs: bool,
    audio: bool,
    video: bool,
    images: bool,
    browser: bool,
) -> Seq<Seq<char>> {
    let s1 = if html {
        add_capability(Seq::<Seq<char>>::empty(), "html"@)
    } else {
        Seq::<Seq<char>>::empty()
    };
    let s2 = if web {
        add_capability(add_capability(add_capability(s1, "web"@), "http"@), "https"@)
    } else {
        s1
    };
    let s3 = if dirs {
        add_capability(s2, "directories"@)
    } else {
        s2
    };
    let s4 = if audio {
        add_capability(s3, "audio"@)
    } else {
        s3
    };
    let s5 = if video {
        add_capability(s4, "video"@)
    } else {
        s4
    };
    let s6 = if images {
        add_capability(s5, "images"@)
    } else {
        s5
    };
    if browser {
        add_capability(s6, "browser"@)
    } else {
        s6
    }
}

/// The capabilities of an application: `html` for HTML documents, `web`, `http`
/// and `https` for web links, `directories` for folders, `audio`, `video` and
/// `images` for those MIME families, `browser` for the web browser category.
pub open spec fn capabilities_spec(cats: Seq<Seq<char>>, mimes: Seq<Seq<char>>) -> Seq<Seq<char>> {
    capabilities_of(
        has_mime(mimes, "text/html"@),
        has_mime(mimes, "x-scheme-handler/http"@) || has_mime(mimes, "x-scheme-handler/https"@),
        has_mime(mimes, "inode/directory"@),
        has_mime_prefix(mimes, "audio/"@),
        has_mime_prefix(mimes, "video/"@),
        has_mime_prefix(mimes, "image/"@),
        has_category(cats, "webbrowser"@),
    )
}

/// The capability or kind that a request names, with its common synonyms resolved.
pub open spec fn capability_alias(r: Seq<char>) -> Seq<char> {
    if r == "web browser"@ || r == "webbrowser"@ {
        "browser"@
    } else if r == "file manager"@ || r == "filemanager"@ {
        "file-manager"@
    } else if r == "media"@ {
        "media-player"@
    } else if r == "photo viewer"@ {
        "image-viewer"@
    } else if r == "terminal emulator"@ {
        "terminal"@
    } else if r == "developer tools"@ || r == "ide"@ || r == "code editor"@ {
        "development"@
    } else {
        r
    }
}

/// How well an application offers what is requested: 0 for its kind, 1 for one of
/// its capabilities, 2 for a capability that contains the request; none otherwise.
pub open spec fn capability_score_spec(requested: Seq<char>, app: AppView) -> Option<u8> {
    let r = capability_alias(requested);
    if kind_name(app.app_type) == r {
        Some(0u8)
    } else if exists|i: int| 0 <= i < app.capabilities.len() && #[trigger] app.capabilities[i] == r {
        Some(1u8)
    } else if exists|i: int|
        0 <= i < app.capabilities.len() && contains(#[trigger] app.capabilities[i], r) {
        Some(2u8)
    } else {
        None
    }
}

/// The kind that a (normalized) request names, if any.
pub open spec fn parse_type_spec(s: Seq<char>) -> Option<AppType> {
    if s == "browser"@ || s == "web browser"@ || s == "webbrowser"@ {
        Some(AppType::Browser)
    } else if s == "chat"@ || s == "messenger"@ || s == "messaging"@ {
        Some(AppType::Chat)
    } else if s == "editor"@ || s == "text editor"@ {
        Some(AppType::Editor)
    } else if s == "terminal"@ || s == "terminal emulator"@ {
        Some(AppType::Terminal)
    } else if s == "file manager"@ || s == "filemanager"@ {
        Some(AppType::FileManager)
    } else if s == "media player"@ || s == "media"@ {
        Some(AppType::MediaPlayer)
    } else if s == "image viewer"@ || s == "photo viewer"@ {
        Some(AppType::ImageViewer)
    } else if s == "game"@ {
        Some(AppType::Game)
    } else if s == "development"@ || s == "developer tools"@ || s == "ide"@ || s == "code editor"@ {
        Some(AppType::Development)
    } else if s == "office"@ {
        Some(AppType::Office)
    } else {
        None
    }
}

fn any_normalized_is(vs: &Vec<Vec<char>>, s: &str) -> (b: bool)
    ensures
        b == has_category(views(vs@), s@),
{
    let mut i: usize = 0;
    while i < vs.len()
        invariant
            i <= vs.len(),
            forall|j: int| 0 <= j < i ==> normalize_words(#[trigger] views(vs@)[j]) != s@,
        decreases vs.len() - i,
    {
        let n = normalize_words_chars(vs[i].as_slice());
        assert(views(vs@)[i as int] == vs@[i as int]@);
        if text_is(n.as_slice(), s) {
            return true;
        }
        i += 1;
    }
    false
}

fn any_eq_ignore_case(vs: &Vec<Vec<char>>, s: &str) -> (b: bool)
    ensures
        b == has_mime(views(vs@), s@),
{
    let sv = chars_of(s);
    let mut i: usize = 0;
    while i < vs.len()
        invariant
            i <= vs.len(),
            sv@ == s@,
            forall|j: int| 0 <= j < i ==> !eq_ignore_case(#[trigger] views(vs@)[j], s@),
        decreases vs.len() - i,
    {
        assert(views(vs@)[i as int] == vs@[i as int]@);
        if eq_ignore_case_chars(vs[i].as_slice(), sv.as_slice()) {
            return true;
        }
        i += 1;
    }
    false
}

fn any_starts_with(vs: &Vec<Vec<char>>, p: &str) -> (b: bool)
    ensures
        b == has_mime_prefix(views(vs@), p@),
{
    let pv = chars_of(p);
    let mut i: usize = 0;
    while i < vs.len()
        invariant
            i <= vs.len(),
            pv@ == p@,
            forall|j: int| 0 <= j < i ==> !starts_with(#[trigger] views(vs@)[j], p@),
        decreases vs.len() - i,
    {
        assert(views(vs@)[i as int] == vs@[i as int]@);
        if starts_with_chars(vs[i].as_slice(), pv.as_slice()) {
            return true;
        }
        i += 1;
    }
    false
}

fn has(hay: &Vec<char>, s: &str) -> (b: bool)
    ensures
        b == contains(hay@, s@),
{
    let sv = chars_of(s);
    contains_chars(hay.as_slice(), sv.as_slice())
}

fn classify_chars(
    name: &[char],
    generic: Option<&[char]>,
    cats: &Vec<Vec<char>>,
    kws: &Vec<Vec<char>>,
    mimes: &Vec<Vec<char>>,
) -> (r: AppType)
    ensures
        r == classify_spec(
            name@,
            match generic {
                Some(g) => Some(g@),
                None => None,
            },
            views(cats@),
            views(kws@),
            views(mimes@),
        ),
{
    let ghost g = match generic {
        Some(g) => g@,
        None => Seq::<char>::empty(),
    };
    let mut all: Vec<char> = Vec::new();
    append_chars(&mut all, name);
    all.push(' ');
    match generic {
        Some(gen) => append_chars(&mut all, gen),
        None => {},
    }
    all.push(' ');
    let sep = vec![' '];
    assert(sep@ == seq![' ']);
    let cj = join_chars(cats, sep.as_slice());
    append_chars(&mut all, cj.as_slice());
    all.push(' ');
    let kj = join_chars(kws, sep.as_slice());
    append_chars(&mut all, kj.as_slice());
    assert(all@ == name@ + seq![' '] + g + seq![' '] + join(views(cats@), seq![' ']) + seq![' ']
        + join(views(kws@), seq![' ']));
    let hay = normalize_words_chars(all.as_slice());
    if any_normalized_is(cats, "webbrowser") || any_eq_ignore_case(mimes, "x-scheme-handler/http")
        || any_eq_ignore_case(mimes, "x-scheme-handler/https") || any_eq_ignore_case(
        mimes,
        "text/html",
    ) || has(&hay, "web browser") || has(&hay, "browser") {
        return AppType::Browser;
    }
    if any_normalized_is(cats, "chat") || any_normalized_is(cats, "instantmessaging") || has(
        &hay,
        "messenger",
    ) || has(&hay, "chat") {
        return AppType::Chat;
    }
    if any_normalized_is(cats, "development") || any_normalized_is(cats, "ide") || has(
        &hay,
        "code editor",
    ) || has(&hay, "developer") {
        return AppType::Development;
    }
    if any_normalized_is(cats, "texteditor") || has(&hay, "text editor") || has(&hay, "editor") {
        return AppType::Editor;
    }
    if any_normalized_is(cats, "filemanager") || has(&hay, "file manager") || any_eq_ignore_case(
        mimes,
        "inode/directory",
    ) {
        return AppType::FileManager;
    }
    if any_normalized_is(cats, "audiovideo") || has(&hay, "media player") {
        return AppType::MediaPlayer;
    }
    if any_normalized_is(cats, "graphics") || has(&hay, "image viewer") || has(&hay, "photo viewer") {
        return AppType::ImageViewer;
    }
    if any_normalized_is(cats, "game") || has(&hay, "game") {
        return AppType::Game;
    }
    if any_normalized_is(cats, "office") || has(&hay, "office") || has(&hay, "spreadsheet") || has(
        &hay,
        "word processor",
    ) {
        return AppType::Office;
    }
    if any_normalized_is(cats, "terminalemulator") || has(&hay, "terminal") {
        return AppType::Terminal;
    }
    AppType::Unknown
}

/// The kind of an application, from its name, generic name, categories, keywords
/// and MIME types.
pub fn classify(
    name: &str,
    generic: Option<&str>,
    categories: &[String],
    keywords: &[String],
    mime_types: &[String],
) -> (r: AppType)
    ensures
        r == classify_spec(
            name@,
            match generic {
                Some(g) => Some(g@),
                None => None,
            },
            string_views(categories@),
            string_views(keywords@),
            string_views(mime_types@),
        ),
{
    let n = chars_of(name);
    let cats = chars_of_strings(categories);
    let kws = chars_of_strings(keywords);
    let mimes = chars_of_strings(mime_types);
    match generic {
        Some(g) => {
            let gv = chars_of(g);
            classify_chars(n.as_slice(), Some(gv.as_slice()), &cats, &kws, &mimes)
        },
        None => classify_chars(n.as_slice(), None, &cats, &kws, &mimes),
    }
}

fn push_text(out: &mut Vec<String>, lit: &str)
    ensures
        string_views(final(out)@) == add_capability(string_views(old(out)@), lit@),
{
    let v = chars_of(lit);
    let mut i: usize = 0;
    while i < out.len()
        invariant
            i <= out.len(),
            v@ == lit@,
            forall|j: int| 0 <= j < i ==> #[trigger] string_views(out@)[j] != lit@,
        decreases out.len() - i,
    {
        assert(string_views(out@)[i as int] == out@[i as int]@);
        if chars_eq(chars_of(out[i].as_str()).as_slice(), v.as_slice()) {
            assert(string_views(out@).contains(lit@));
            return;
        }
        i += 1;
    }
    out.push(text(lit));
    assert(string_views(out@) =~= string_views(old(out)@).push(lit@));
}

fn capabilities_chars(cats: &Vec<Vec<char>>, mimes: &Vec<Vec<char>>) -> (r: Vec<String>)
    ensures
        string_views(r@) == capabilities_spec(views(cats@), views(mimes@)),
{
    let html = any_eq_ignore_case(mimes, "text/html");
    let web = any_eq_ignore_case(mimes, "x-scheme-handler/http") || any_eq_ignore_case(
        mimes,
        "x-scheme-handler/https",
    );
    let dirs = any_eq_ignore_case(mimes, "inode/directory");
    let audio = any_starts_with(mimes, "audio/");
    let video = any_starts_with(mimes, "video/");
    let images = any_starts_with(mimes, "image/");
    let browser = any_normalized_is(cats, "webbrowser");
    let mut out: Vec<String> = Vec::new();
    assert(string_views(out@) =~= Seq::<Seq<char>>::empty());
    // Each value is added only where it is not there yet.
    if html {
        push_text(&mut out, "html");
    }
    if web {
        push_text(&mut out, "web");
        push_text(&mut out, "http");
        push_text(&mut out, "https");
    }
    if dirs {
        push_text(&mut out, "directories");
    }
    if audio {
        push_text(&mut out, "audio");
    }
    if video {
        push_text(&mut out, "video");
    }
    if images {
        push_text(&mut out, "images");
    }
    if browser {
        push_text(&mut out, "browser");
    }
    out
}

/// The capabilities of an application, from its categories and MIME types, each
/// added once.
pub fn capabilities(categories: &[String], mime_types: &[String]) -> (r: Vec<String>)
    ensures
        string_views(r@) == capabilities_spec(string_views(categories@), string_views(mime_types@)),
{
    let cats = chars_of_strings(categories);
    let mimes = chars_of_strings(mime_types);
    capabilities_chars(&cats, &mimes)
}

fn capability_alias_chars(r: &Vec<char>) -> (a: Vec<char>)
    ensures
        a@ == capability_alias(r@),
{
    if text_is(r.as_slice(), "web browser") || text_is(r.as_slice(), "webbrowser") {
        chars_of("browser")
    } else if text_is(r.as_slice(), "file manager") || text_is(r.as_slice(), "filemanager") {
        chars_of("file-manager")
    } else if text_is(r.as_slice(), "media") {
        chars_of("media-player")
    } else if text_is(r.as_slice(), "photo viewer") {
        chars_of("image-viewer")
    } else if text_is(r.as_slice(), "terminal emulator") {
        chars_of("terminal")
    } else if text_is(r.as_slice(), "developer tools") || text_is(r.as_slice(), "ide") || text_is(
        r.as_slice(),
        "code editor",
    ) {
        chars_of("development")
    } else {
        let mut a: Vec<char> = Vec::new();
        append_chars(&mut a, r.as_slice());
        assert(a@ == r@);
        a
    }
}

fn capability_score_chars(requested: &Vec<char>, app: &ClassifiedApp) -> (s: Option<u8>)
    ensures
        s == capability_score_spec(requested@, app@),
{
    let r = capability_alias_chars(requested);
    let t = chars_of(app.app_type.as_str());
    if chars_eq(t.as_slice(), r.as_slice()) {
        return Some(0);
    }
    let caps = chars_of_strings(app.capabilities.as_slice());
    let ghost cv = app@.capabilities;
    assert(views(caps@) == cv);
    let mut i: usize = 0;
    while i < caps.len()
        invariant
            i <= caps.len(),
            views(caps@) == cv,
            cv == app@.capabilities,
            r@ == capability_alias(requested@),
            kind_name(app.app_type) != r@,
            forall|j: int| 0 <= j < i ==> #[trigger] cv[j] != r@,
        decreases caps.len() - i,
    {
        assert(cv[i as int] == caps@[i as int]@);
        if chars_eq(caps[i].as_slice(), r.as_slice()) {
            assert(cv[i as int] == capability_alias(requested@));
            return Some(1);
        }
        i += 1;
    }
    let mut i: usize = 0;
    while i < caps.len()
        invariant
            i <= caps.len(),
            views(caps@) == cv,
            cv == app@.capabilities,
            r@ == capability_alias(requested@),
            kind_name(app.app_type) != r@,
            forall|j: int| 0 <= j < cv.len() ==> #[trigger] cv[j] != r@,
            forall|j: int| 0 <= j < i ==> !contains(#[trigger] cv[j], r@),
        decreases caps.len() - i,
    {
        assert(cv[i as int] == caps@[i as int]@);
        if contains_chars(caps[i].as_slice(), r.as_slice()) {
            assert(contains(cv[i as int], capability_alias(requested@)));
            return Some(2);
        }
        i += 1;
    }
    None
}

/// How well `app` offers what `requested` names (see `capability_score_spec`).
pub fn capability_score(requested: &str, app: &ClassifiedApp) -> (s: Option<u8>)
    ensures
        s == capability_score_spec(requested@, app@),
{
    let r = chars_of(requested);
    capability_score_chars(&r, app)
}

/// The kind that a normalized request names.
pub fn parse_type(input: &[char]) -> (r: Option<AppType>)
    ensures
        r == parse_type_spec(input@),
{
    if text_is(input, "browser") || text_is(input, "web browser") || text_is(input, "webbrowser") {
        Some(AppType::Browser)
    } else if text_is(input, "chat") || text_is(input, "messenger") || text_is(input, "messaging") {
        Some(AppType::Chat)
    } else if text_is(input, "editor") || text_is(input, "text editor") {
        Some(AppType::Editor)
    } else if text_is(input, "terminal") || text_is(input, "terminal emulator") {
        Some(AppType::Terminal)
    } else if text_is(input, "file manager") || text_is(input, "filemanager") {
        Some(AppType::FileManager)
    } else if text_is(input, "media player") || text_is(input, "media") {
        Some(AppType::MediaPlayer)
    } else if text_is(input, "image viewer") || text_is(input, "photo viewer") {
        Some(AppType::ImageViewer)
    } else if text_is(input, "game") {
        Some(AppType::Game)
    } else if text_is(input, "development") || text_is(input, "developer tools") || text_is(
        input,
        "ide",
    ) || text_is(input, "code editor") {
        Some(AppType::Development)
    } else if text_is(input, "office") {
        Some(AppType::Office)
    } else {
        None
    }
}


// ---------------------------------------------------------------------------
// Reading desktop files
// ---------------------------------------------------------------------------

/// The application that a desktop file describes, if it is a visible
/// `Type=Application` entry with a name.
pub open spec fn classified_entry(f: DesktopFileView) -> Option<AppView> {
    let c = f.contents;
    if hidden_spec(c) || field_spec(c, "Type"@) != Some("Application"@) {
        None
    } else {
        match field_spec(c, "Name"@) {
            None => None,
            Some(name) => {
                let cats = list_field_spec(c, "Categories"@);
                let mimes = list_field_spec(c, "MimeType"@);
                Some(
                    AppView {
                        id: f.id,
                        name,
                        app_type: classify_spec(
                            name,
                            field_spec(c, "GenericName"@),
                            cats,
                            list_field_spec(c, "Keywords"@),
                            mimes,
                        ),
                        capabilities: capabilities_spec(cats, mimes),
                        desktop_file: f.path,
                    },
                )
            },
        }
    }
}

/// The applications of a list of desktop files, in the same order.
pub open spec fn classify_all(files: Seq<DesktopFileView>) -> Seq<AppView>
    decreases files.len(),
{
    if files.len() == 0 {
        Seq::<AppView>::empty()
    } else {
        let rest = classify_all(files.drop_last());
        match classified_entry(files.last()) {
            Some(a) => rest.push(a),
            None => rest,
        }
    }
}

fn classify_entry(f: &DesktopFile) -> (r: Option<ClassifiedApp>)
    ensures
        match r {
            Some(a) => classified_entry(f@) == Some(a@),
            None => classified_entry(f@) is None,
        },
{
    let c = chars_of(f.contents.as_str());
    if hidden_or_nodisplay(c.as_slice()) {
        return None;
    }
    match field(c.as_slice(), "Type") {
        Some(t) => {
            if !text_is(t.as_slice(), "Application") {
                return None;
            }
        },
        None => {
            return None;
        },
    }
    let name = match field(c.as_slice(), "Name") {
        Some(n) => n,
        None => {
            return None;
        },
    };
    let generic = field(c.as_slice(), "GenericName");
    let cats = list_field(c.as_slice(), "Categories");
    let kws = list_field(c.as_slice(), "Keywords");
    let mimes = list_field(c.as_slice(), "MimeType");
    let app_type = match &generic {
        Some(g) => classify_chars(name.as_slice(), Some(g.as_slice()), &cats, &kws, &mimes),
        None => classify_chars(name.as_slice(), None, &cats, &kws, &mimes),
    };
    let caps = capabilities_chars(&cats, &mimes);
    let app = ClassifiedApp {
        id: f.id.clone(),
        name: string_of(name.as_slice()),
        app_type,
        capabilities: caps,
        desktop_file: f.path.clone(),
    };
    Some(app)
}

/// The applications found on this machine, with their kinds and capabilities.
pub struct AppClassifier {
    apps: Vec<ClassifiedApp>,
}

/// The views of a sequence of applications.
pub open spec fn app_views(apps: Seq<ClassifiedApp>) -> Seq<AppView> {
    apps.map_values(|a: ClassifiedApp| a@)
}

impl View for AppClassifier {
    type V = Seq<AppView>;

    closed spec fn view(&self) -> Seq<AppView> {
        app_views(self.apps@)
    }
}

/// The positions of the applications of kind `k`, in order.
pub open spec fn of_kind(apps: Seq<AppView>, k: AppType) -> Seq<usize>
    decreases apps.len(),
{
    if apps.len() == 0 {
        Seq::<usize>::empty()
    } else {
        let rest = of_kind(apps.drop_last(), k);
        if apps.last().app_type == k {
            rest.push((apps.len() - 1) as usize)
        } else {
            rest
        }
    }
}

/// `a` is ordered before or with `b`: by name, then by id.
pub open spec fn name_id_le(a: AppView, b: AppView) -> bool {
    lex_lt(a.name, b.name) || (a.name == b.name && !lex_lt(b.id, a.id))
}

/// The order of positions by the applications' names, then ids.
pub open spec fn name_id_order(apps: Seq<AppView>) -> spec_fn(usize, usize) -> bool {
    |a: usize, b: usize| name_id_le(apps[a as int], apps[b as int])
}

/// The positions of what `type_candidates(requested, limit)` returns: the
/// applications of the kind that the request names, by name then id (a stable
/// sort), at most `limit` of them.
pub open spec fn type_candidates_spec(apps: Seq<AppView>, requested: Seq<char>, limit: int) -> Seq<
    usize,
> {
    match parse_type_spec(normalize_words(requested)) {
        None => Seq::<usize>::empty(),
        Some(k) => take_upto(sort_by(of_kind(apps, k), name_id_order(apps)), limit),
    }
}

/// `a` ranks strictly before `b` by (score, name, id).
pub open spec fn capability_key_lt(sa: u8, a: AppView, sb: u8, b: AppView) -> bool {
    sa < sb || (sa == sb && (lex_lt(a.name, b.name) || (a.name == b.name && lex_lt(a.id, b.id))))
}

/// Position `i` holds the application that `resolve_capability` picks for the
/// normalized request `r`: it has a score, none ranks before it, and every earlier
/// one with a score ranks after it (the first of the best).
pub open spec fn is_best_capability(apps: Seq<AppView>, r: Seq<char>, i: int) -> bool {
    &&& 0 <= i < apps.len()
    &&& capability_score_spec(r, apps[i]) is Some
    &&& forall|j: int|
        0 <= j < apps.len() && #[trigger] capability_score_spec(r, apps[j]) is Some ==> {
            &&& !capability_key_lt(
                capability_score_spec(r, apps[j])->0,
                apps[j],
                capability_score_spec(r, apps[i])->0,
                apps[i],
            )
            &&& (j < i ==> capability_key_lt(
                capability_score_spec(r, apps[i])->0,
                apps[i],
                capability_score_spec(r, apps[j])->0,
                apps[j],
            ))
        }
}

fn name_id_le_exec(a: &ClassifiedApp, b: &ClassifiedApp) -> (r: bool)
    ensures
        r == name_id_le(a@, b@),
{
    let an = chars_of(a.name.as_str());
    let bn = chars_of(b.name.as_str());
    match compare_chars(an.as_slice(), bn.as_slice()) {
        Cmp3::Less => true,
        Cmp3::Greater => {
            proof {
                lemma_lex_asymmetric(a@.name, b@.name);
            }
            false
        },
        Cmp3::Same => {
            let ai = chars_of(a.id.as_str());
            let bi = chars_of(b.id.as_str());
            proof {
                lemma_lex_irreflexive(a@.name);
            }
            match compare_chars(bi.as_slice(), ai.as_slice()) {
                Cmp3::Less => false,
                _ => true,
            }
        },
    }
}

fn capability_key_lt_exec(sa: u8, a: &ClassifiedApp, sb: u8, b: &ClassifiedApp) -> (r: bool)
    ensures
        r == capability_key_lt(sa, a@, sb, b@),
{
    if sa != sb {
        return sa < sb;
    }
    let an = chars_of(a.name.as_str());
    let bn = chars_of(b.name.as_str());
    match compare_chars(an.as_slice(), bn.as_slice()) {
        Cmp3::Less => true,
        Cmp3::Greater => {
            proof {
                lemma_lex_asymmetric(a@.name, b@.name);
            }
            false
        },
        Cmp3::Same => {
            let ai = chars_of(a.id.as_str());
            let bi = chars_of(b.id.as_str());
            proof {
                lemma_lex_irreflexive(a@.name);
            }
            match compare_chars(ai.as_slice(), bi.as_slice()) {
                Cmp3::Less => true,
                _ => false,
            }
        },
    }
}

proof fn lemma_capability_key_order(sa: u8, a: AppView, sb: u8, b: AppView, sc: u8, c: AppView)
    ensures
        !capability_key_lt(sa, a, sa, a),
        capability_key_lt(sa, a, sb, b) ==> !capability_key_lt(sb, b, sa, a),
        capability_key_lt(sa, a, sb, b) && capability_key_lt(sb, b, sc, c) ==> capability_key_lt(
            sa,
            a,
            sc,
            c,
        ),
        capability_key_lt(sa, a, sb, b) && !capability_key_lt(sc, c, sb, b) ==> capability_key_lt(
            sa,
            a,
            sc,
            c,
        ),
{
    lemma_lex_irreflexive(a.name);
    lemma_lex_irreflexive(a.id);
    lemma_lex_asymmetric(a.name, b.name);
    lemma_lex_asymmetric(a.id, b.id);
    lemma_lex_total(b.name, c.name);
    lemma_lex_total(b.id, c.id);
    if lex_lt(a.name, b.name) && lex_lt(b.name, c.name) {
        lemma_lex_transitive(a.name, b.name, c.name);
    }
    if lex_lt(a.id, b.id) && lex_lt(b.id, c.id) {
        lemma_lex_transitive(a.id, b.id, c.id);
    }
}

impl AppClassifier {
    /// A classifier that knows no application.
    pub fn new() -> (r: Self)
        ensures
            r@ == Seq::<AppView>::empty(),
    {
        let r = AppClassifier { apps: Vec::new() };
        assert(r@ =~= Seq::<AppView>::empty());
        r
    }

    /// The classifier for the given desktop files.
    pub fn discover(files: &[DesktopFile]) -> (r: Self)
        ensures
            r@ == classify_all(file_views(files@)),
    {
        let mut classifier = Self::new();
        classifier.refresh(files);
        classifier
    }

    /// Replaces what the classifier knows by the applications of the given desktop files.
    pub fn refresh(&mut self, files: &[DesktopFile])
        ensures
            final(self)@ == classify_all(file_views(files@)),
    {
        let mut apps: Vec<ClassifiedApp> = Vec::new();
        let mut i: usize = 0;
        while i < files.len()
            invariant
                i <= files.len(),
                app_views(apps@) == classify_all(file_views(files@).take(i as int)),
            decreases files.len() - i,
        {
            let entry = classify_entry(&files[i]);
            proof {
                let t = file_views(files@).take(i + 1);
                assert(t.drop_last() == file_views(files@).take(i as int));
                assert(t.last() == files@[i as int]@);
            }
            match entry {
                Some(app) => {
                    apps.push(app);
                    assert(app_views(apps@) =~= classify_all(file_views(files@).take(i as int)).push(apps@.last()@));
                },
                None => {},
            }
            i += 1;
        }
        assert(file_views(files@).take(files.len() as int) == file_views(files@));
        self.apps = apps;
    }

    /// How many applications are classified.
    pub fn len(&self) -> (n: usize)
        ensures
            n == self@.len(),
    {
        self.apps.len()
    }

    /// Stable insertion sort of positions by name, then id.
    fn sort_by_name_id(&self, idx: &Vec<usize>) -> (r: Vec<usize>)
        requires
            forall|k: int| 0 <= k < idx.len() ==> #[trigger] idx@[k] < self.apps.len(),
        ensures
            r@ == sort_by(idx@, name_id_order(self@)),
            forall|k: int| 0 <= k < r.len() ==> #[trigger] r@[k] < self.apps.len(),
    {
        let ghost ord = name_id_order(self@);
        let mut r: Vec<usize> = Vec::new();
        let mut i: usize = 0;
        while i < idx.len()
            invariant
                i <= idx.len(),
                ord == name_id_order(self@),
                forall|k: int| 0 <= k < idx.len() ==> #[trigger] idx@[k] < self.apps.len(),
                r@ == sort_by(idx@.take(i as int), ord),
                forall|k: int| 0 <= k < r.len() ==> #[trigger] r@[k] < self.apps.len(),
            decreases idx.len() - i,
        {
            let x = idx[i];
            let mut j: usize = r.len();
            while j > 0 && !name_id_le_exec(&self.apps[r[j - 1]], &self.apps[x])
                invariant
                    j <= r.len(),
                    x < self.apps.len(),
                    ord == name_id_order(self@),
                    forall|k: int| 0 <= k < r.len() ==> #[trigger] r@[k] < self.apps.len(),
                    forall|k: int| j <= k < r.len() ==> !ord(#[trigger] r@[k], x),
                decreases j,
            {
                assert(self@[r@[j - 1] as int] == self.apps@[r@[j - 1] as int]@);
                assert(self@[x as int] == self.apps@[x as int]@);
                j -= 1;
            }
            proof {
                if j > 0 {
                    assert(self@[r@[j - 1] as int] == self.apps@[r@[j - 1] as int]@);
                    assert(self@[x as int] == self.apps@[x as int]@);
                }
                lemma_insert_sorted_at(r@, x, ord, j as int);
                assert(idx@.take(i + 1).drop_last() == idx@.take(i as int));
                assert(idx@.take(i + 1).last() == x);
            }
            r.insert(j, x);
            i += 1;
        }
        assert(idx@.take(idx.len() as int) == idx@);
        r
    }

    /// The positions of the applications of kind `k`, in order.
    fn positions_of_kind(&self, k: AppType) -> (r: Vec<usize>)
        ensures
            r@ == of_kind(self@, k),
            forall|j: int| 0 <= j < r.len() ==> #[trigger] r@[j] < self.apps.len(),
    {
        let mut r: Vec<usize> = Vec::new();
        let mut i: usize = 0;
        while i < self.apps.len()
            invariant
                i <= self.apps.len(),
                r@ == of_kind(self@.take(i as int), k),
                forall|j: int| 0 <= j < r.len() ==> #[trigger] r@[j] < i,
            decreases self.apps.len() - i,
        {
            proof {
                let t = self@.take(i + 1);
                assert(t.drop_last() == self@.take(i as int));
                assert(t.last() == self.apps@[i as int]@);
            }
            if self.apps[i].app_type == k {
                r.push(i);
            }
            i += 1;
        }
        assert(self@.take(self.apps.len() as int) == self@);
        r
    }

    /// The installed applications of the kind that `requested` names, by name and
    /// then id, at most `limit` of them.
    pub fn type_candidates(&self, requested: &str, limit: usize) -> (r: Vec<&ClassifiedApp>)
        ensures
            r@.len() == type_candidates_spec(self@, requested@, limit as int).len(),
            forall|j: int|
                0 <= j < r@.len() ==> (#[trigger] r@[j])@ == self@[type_candidates_spec(
                    self@,
                    requested@,
                    limit as int,
                )[j] as int],
    {
        let requested = normalize_words_chars(chars_of(requested).as_slice());
        let kind = match parse_type(requested.as_slice()) {
            Some(k) => k,
            None => {
                return Vec::new();
            },
        };
        let positions = self.positions_of_kind(kind);
        let mut sorted = self.sort_by_name_id(&positions);
        sorted.truncate(limit);
        let mut r: Vec<&ClassifiedApp> = Vec::new();
        let mut j: usize = 0;
        while j < sorted.len()
            invariant
                j <= sorted.len(),
                forall|k: int| 0 <= k < sorted.len() ==> #[trigger] sorted@[k] < self.apps.len(),
                r@.len() == j,
                forall|k: int| 0 <= k < j ==> (#[trigger] r@[k])@ == self@[sorted@[k] as int],
            decreases sorted.len() - j,
        {
            r.push(&self.apps[sorted[j]]);
            j += 1;
        }
        r
    }

    /// The first application, by name then id, of the kind that `requested` names.
    pub fn resolve_type(&self, requested: &str) -> (r: Option<&ClassifiedApp>)
        ensures
            match r {
                Some(a) => type_candidates_spec(self@, requested@, 1).len() > 0 && a@ == self@[type_candidates_spec(
                    self@,
                    requested@,
                    1,
                )[0] as int],
                None => type_candidates_spec(self@, requested@, 1).len() == 0,
            },
    {
        let candidates = self.type_candidates(requested, 1);
        if candidates.len() > 0 {
            Some(candidates[0])
        } else {
            None
        }
    }

    /// The application that best offers what `requested` names: the lowest
    /// capability score, then name, then id; the first of equals.
    pub fn resolve_capability(&self, requested: &str) -> (r: Option<&ClassifiedApp>)
        ensures
            match r {
                Some(a) => normalize_words(requested@).len() > 0 && exists|i: int|
                    is_best_capability(self@, normalize_words(requested@), i) && #[trigger] self@[i] == a@,
                None => normalize_words(requested@).len() == 0 || forall|j: int|
                    0 <= j < self@.len() ==> #[trigger] capability_score_spec(
                        normalize_words(requested@),
                        self@[j],
                    ) is None,
            },
    {
        let requested = normalize_words_chars(chars_of(requested).as_slice());
        if requested.len() == 0 {
            return None;
        }
        let ghost rq = requested@;
        let ghost apps = self@;
        let mut best: Option<(usize, u8)> = None;
        let mut i: usize = 0;
        while i < self.apps.len()
            invariant
                i <= self.apps.len(),
                apps == self@,
                rq == requested@,
                match best {
                    None => forall|j: int|
                        0 <= j < i ==> #[trigger] capability_score_spec(rq, apps[j]) is None,
                    Some((b, sb)) => {
                        &&& b < i
                        &&& capability_score_spec(rq, apps[b as int]) == Some(sb)
                        &&& forall|j: int|
                            0 <= j < i && #[trigger] capability_score_spec(rq, apps[j]) is Some ==> {
                                &&& !capability_key_lt(
                                    capability_score_spec(rq, apps[j])->0,
                                    apps[j],
                                    sb,
                                    apps[b as int],
                                )
                                &&& (j < b ==> capability_key_lt(
                                    sb,
                                    apps[b as int],
                                    capability_score_spec(rq, apps[j])->0,
                                    apps[j],
                                ))
                            }
                    },
                },
            decreases self.apps.len() - i,
        {
            assert(apps[i as int] == self.apps@[i as int]@);
            match capability_score_chars(&requested, &self.apps[i]) {
                None => {},
                Some(s) => {
                    match best {
                        None => {
                            proof {
                                lemma_capability_key_order(s, apps[i as int], s, apps[i as int], s, apps[i as int]);
                            }
                            best = Some((i, s));
                        },
                        Some((b, sb)) => {
                            assert(apps[b as int] == self.apps@[b as int]@);
                            if capability_key_lt_exec(s, &self.apps[i], sb, &self.apps[b]) {
                                proof {
                                    assert forall|j: int|
                                        0 <= j < i + 1 && #[trigger] capability_score_spec(rq, apps[j]) is Some implies {
                                            &&& !capability_key_lt(
                                                capability_score_spec(rq, apps[j])->0,
                                                apps[j],
                                                s,
                                                apps[i as int],
                                            )
                                            &&& (j < i ==> capability_key_lt(
                                                s,
                                                apps[i as int],
                                                capability_score_spec(rq, apps[j])->0,
                                                apps[j],
                                            ))
                                        } by {
                                        let sj = capability_score_spec(rq, apps[j])->0;
                                        lemma_capability_key_order(s, apps[i as int], sb, apps[b as int], sj, apps[j]);
                                        lemma_capability_key_order(sj, apps[j], s, apps[i as int], sb, apps[b as int]);
                                        lemma_capability_key_order(s, apps[i as int], s, apps[i as int], s, apps[i as int]);
                                    }
                                }
                                best = Some((i, s));
                            }
                        },
                    }
                },
            }
            i += 1;
        }
        match best {
            None => None,
            Some((b, sb)) => {
                assert(is_best_capability(apps, rq, b as int));
                assert(apps[b as int] == self.apps@[b as int]@);
                Some(&self.apps[b])
            },
        }
    }
}


// ---------------------------------------------------------------------------
// Laws
// ---------------------------------------------------------------------------

proof fn lemma_of_kind_elements(apps: Seq<AppView>, k: AppType)
    requires
        apps.len() <= usize::MAX,
    ensures
        forall|j: int|
            0 <= j < of_kind(apps, k).len() ==> #[trigger] of_kind(apps, k)[j] < apps.len()
                && apps[of_kind(apps, k)[j] as int].app_type == k,
    decreases apps.len(),
{
    if apps.len() > 0 {
        let t = apps.drop_last();
        lemma_of_kind_elements(t, k);
        let o = of_kind(apps, k);
        let ot = of_kind(t, k);
        assert forall|j: int| 0 <= j < o.len() implies #[trigger] o[j] < apps.len()
            && apps[o[j] as int].app_type == k by {
            if j < ot.len() {
                assert(o[j] == ot[j]);
                assert(t[ot[j] as int] == apps[ot[j] as int]);
            } else {
                assert(apps.last().app_type == k);
                assert(o[j] == (apps.len() - 1) as usize);
            }
        }
    }
}

/// Every application that `type_candidates` offers is of the kind that the request
/// names, and there are at most `limit` of them.
pub proof fn lemma_type_candidates_of_kind(apps: Seq<AppView>, requested: Seq<char>, limit: int)
    requires
        limit >= 0,
        apps.len() <= usize::MAX,
    ensures
        type_candidates_spec(apps, requested, limit).len() <= limit,
        forall|j: int|
            0 <= j < type_candidates_spec(apps, requested, limit).len() ==> {
                let i = #[trigger] type_candidates_spec(apps, requested, limit)[j];
                &&& i < apps.len()
                &&& parse_type_spec(normalize_words(requested)) == Some(apps[i as int].app_type)
            },
{
    match parse_type_spec(normalize_words(requested)) {
        None => {},
        Some(k) => {
            let o = of_kind(apps, k);
            let s = sort_by(o, name_id_order(apps));
            lemma_of_kind_elements(apps, k);
            crate::order::lemma_sort_by_elements(o, name_id_order(apps));
            let tc = type_candidates_spec(apps, requested, limit);
            assert forall|j: int| 0 <= j < tc.len() implies {
                let i = #[trigger] tc[j];
                &&& i < apps.len()
                &&& parse_type_spec(normalize_words(requested)) == Some(apps[i as int].app_type)
            } by {
                assert(tc[j] == s[j]);
                let m = choose|m: int| 0 <= m < o.len() && o[m] == s[j];
            }
        },
    }
}

proof fn lemma_name_id_order_props(apps: Seq<AppView>)
    ensures
        crate::order::total(name_id_order(apps)),
        crate::order::transitive(name_id_order(apps)),
{
    let le = name_id_order(apps);
    assert forall|a: usize, b: usize| #[trigger] le(a, b) || le(b, a) by {
        let x = apps[a as int];
        let y = apps[b as int];
        lemma_lex_total(x.name, y.name);
        lemma_lex_asymmetric(x.id, y.id);
    }
    assert forall|a: usize, b: usize, c: usize| #[trigger] le(a, b) && #[trigger] le(b, c) implies le(a, c) by {
        let x = apps[a as int];
        let y = apps[b as int];
        let z = apps[c as int];
        if lex_lt(x.name, y.name) && lex_lt(y.name, z.name) {
            lemma_lex_transitive(x.name, y.name, z.name);
        }
        if x.name == y.name && y.name == z.name && lex_lt(z.id, x.id) {
            lemma_lex_total(x.id, y.id);
            if lex_lt(x.id, y.id) {
                lemma_lex_transitive(z.id, x.id, y.id);
            }
        }
    }
}

/// The applications that `type_candidates` offers come in order of name, then id.
pub proof fn lemma_type_candidates_sorted(apps: Seq<AppView>, requested: Seq<char>, limit: int)
    requires
        limit >= 0,
    ensures
        forall|i: int, j: int|
            0 <= i < j < type_candidates_spec(apps, requested, limit).len() ==> name_id_le(
                apps[#[trigger] type_candidates_spec(apps, requested, limit)[i] as int],
                apps[#[trigger] type_candidates_spec(apps, requested, limit)[j] as int],
            ),
{
    match parse_type_spec(normalize_words(requested)) {
        None => {},
        Some(k) => {
            let le = name_id_order(apps);
            lemma_name_id_order_props(apps);
            crate::order::lemma_sort_by_sorted(of_kind(apps, k), le);
            crate::order::lemma_take_upto_sorted(sort_by(of_kind(apps, k), le), limit, le);
            let tc = type_candidates_spec(apps, requested, limit);
            assert forall|i: int, j: int| 0 <= i < j < tc.len() implies name_id_le(
                apps[#[trigger] tc[i] as int],
                apps[#[trigger] tc[j] as int],
            ) by {
                assert(le(tc[i], tc[j]));
            }
        },
    }
}

/// A request for a capability that is also the kind of some application is answered
/// by an application of that kind.
pub proof fn lemma_capability_prefers_kind(apps: Seq<AppView>, r: Seq<char>, i: int, j: int)
    requires
        is_best_capability(apps, r, i),
        0 <= j < apps.len(),
        kind_name(apps[j].app_type) == capability_alias(r),
    ensures
        kind_name(apps[i].app_type) == capability_alias(r),
{
    assert(capability_score_spec(r, apps[j]) == Some(0u8));
}


/// The classifier's normalization ignores ASCII case.
pub proof fn lemma_normalize_words_ignores_case(s: Seq<char>)
    ensures
        normalize_words(upper_seq(s)) == normalize_words(s),
{
    lemma_trim_lower_ignores_upper(s);
}

/// Lower-case words joined by `'-'` normalize to the same words joined by spaces.
proof fn lemma_normalize_dashed(ws: Seq<Seq<char>>)
    requires
        ws.len() >= 1,
        forall|k: int| 0 <= k < ws.len() ==> (#[trigger] ws[k]).len() > 0,
        forall|k: int, i: int| 0 <= k < ws.len() && 0 <= i < ws[k].len() ==> 'a' <= #[trigger] ws[k][i] <= 'z',
    ensures
        normalize_words(join(ws, seq!['-'])) == join(ws, seq![' ']),
{
    let s = join(ws, seq!['-']);
    let p = |c: char| ('a' <= c && c <= 'z') || c == '-';
    assert forall|k: int, i: int| 0 <= k < ws.len() && 0 <= i < ws[k].len() implies p(#[trigger] ws[k][i]) by {}
    lemma_join_chars(ws, '-', p);
    assert(p(s[0]));
    assert(p(s[s.len() - 1]));
    lemma_trim_start_skip(s, 0);
    assert(s.skip(0) == s);
    lemma_trim_end_take(s, s.len() as int);
    assert(s.take(s.len() as int) == s);
    assert forall|i: int| 0 <= i < s.len() implies lower_seq(s)[i] == s[i] by {
        assert(p(s[i]));
    }
    assert(lower_seq(trim(s)) =~= s);
    assert forall|k: int, i: int| 0 <= k < ws.len() && 0 <= i < ws[k].len() implies !crate::text::is_delim(
        Delim::WordBreak,
        #[trigger] ws[k][i],
    ) by {}
    lemma_split_join(ws, '-', Delim::WordBreak);
    lemma_nonempty_all(ws);
}

/// Two lower-case words joined by a separator.
proof fn lemma_join_two(a: Seq<char>, b: Seq<char>, sep: char)
    ensures
        join(seq![a, b], seq![sep]) == a + seq![sep] + b,
{
    let ws = seq![a, b];
    assert(ws.drop_last() =~= seq![a]);
    assert(join(seq![a], seq![sep]) == a);
    assert(ws.last() == b);
}

/// The name of every kind but `Unknown` reads back as that kind; `Unknown` names
/// no kind.
pub proof fn lemma_kind_name_parses(k: AppType)
    ensures
        parse_type_spec(normalize_words(kind_name(k))) == (if k == AppType::Unknown {
            None
        } else {
            Some(k)
        }),
{
    reveal_strlit("browser");
    reveal_strlit("web browser");
    reveal_strlit("webbrowser");
    reveal_strlit("chat");
    reveal_strlit("messenger");
    reveal_strlit("messaging");
    reveal_strlit("editor");
    reveal_strlit("text editor");
    reveal_strlit("terminal");
    reveal_strlit("terminal emulator");
    reveal_strlit("file manager");
    reveal_strlit("filemanager");
    reveal_strlit("media player");
    reveal_strlit("media");
    reveal_strlit("image viewer");
    reveal_strlit("photo viewer");
    reveal_strlit("game");
    reveal_strlit("development");
    reveal_strlit("developer tools");
    reveal_strlit("ide");
    reveal_strlit("code editor");
    reveal_strlit("office");
    reveal_strlit("unknown");
    reveal_strlit("file-manager");
    reveal_strlit("media-player");
    reveal_strlit("image-viewer");
    reveal_strlit("file");
    reveal_strlit("manager");
    reveal_strlit("player");
    reveal_strlit("image");
    reveal_strlit("viewer");
    let w = kind_name(k);
    match k {
        AppType::FileManager => {
            lemma_join_two("file"@, "manager"@, '-');
            lemma_join_two("file"@, "manager"@, ' ');
            assert(w =~= "file"@ + seq!['-'] + "manager"@);
            lemma_normalize_dashed(seq!["file"@, "manager"@]);
            assert(normalize_words(w) =~= "file manager"@);
        },
        AppType::MediaPlayer => {
            lemma_join_two("media"@, "player"@, '-');
            lemma_join_two("media"@, "player"@, ' ');
            assert(w =~= "media"@ + seq!['-'] + "player"@);
            lemma_normalize_dashed(seq!["media"@, "player"@]);
            assert(normalize_words(w) =~= "media player"@);
        },
        AppType::ImageViewer => {
            lemma_join_two("image"@, "viewer"@, '-');
            lemma_join_two("image"@, "viewer"@, ' ');
            assert(w =~= "image"@ + seq!['-'] + "viewer"@);
            lemma_normalize_dashed(seq!["image"@, "viewer"@]);
            assert(normalize_words(w) =~= "image viewer"@);
        },
        _ => {
            lemma_normalize_dashed(seq![w]);
            assert(normalize_words(w) == w);
        },
    }
    let n = normalize_words(w);
    // names of one length differ in their first character
    let first = n[0];
    assert(parse_type_spec(n) == (if k == AppType::Unknown { None } else { Some(k) }));
}


// ---------------------------------------------------------------------------
// Laws of classification
// ---------------------------------------------------------------------------

/// A word of ASCII letters normalizes to its lower case.
proof fn lemma_normalize_letters(w: Seq<char>)
    requires
        w.len() > 0,
        forall|j: int| 0 <= j < w.len() ==> 'a' <= #[trigger] lower(w[j]) <= 'z',
    ensures
        normalize_words(w) == lower_seq(w),
{
    assert(!crate::text::is_ws(w[0])) by {
        assert('a' <= lower(w[0]) <= 'z');
    }
    assert(!crate::text::is_ws(w[w.len() - 1])) by {
        assert('a' <= lower(w[w.len() - 1]) <= 'z');
    }
    lemma_trim_start_skip(w, 0);
    assert(w.skip(0) == w);
    lemma_trim_end_take(w, w.len() as int);
    assert(w.take(w.len() as int) == w);
    let l = lower_seq(w);
    assert forall|j: int| 0 <= j < l.len() implies !crate::text::is_delim(Delim::WordBreak, #[trigger] l[j]) by {
        assert('a' <= lower(w[j]) <= 'z');
    }
    lemma_split_by_whole(l, Delim::WordBreak);
    assert forall|k: int| 0 <= k < seq![l].len() implies (#[trigger] seq![l][k]).len() > 0 by {}
    lemma_nonempty_all(seq![l]);
}

/// The rank of a kind in the order in which `classify` tries its rules: a browser
/// first, then chat, development, editor, file manager, media player, image viewer,
/// game, office, terminal; unknown last.
pub open spec fn kind_rank(k: AppType) -> int {
    match k {
        AppType::Browser => 0,
        AppType::Chat => 1,
        AppType::Development => 2,
        AppType::Editor => 3,
        AppType::FileManager => 4,
        AppType::MediaPlayer => 5,
        AppType::ImageViewer => 6,
        AppType::Game => 7,
        AppType::Office => 8,
        AppType::Terminal => 9,
        AppType::Unknown => 10,
    }
}

/// The desktop categories (in lower case) that mark an application as of kind `k`,
/// as the freedesktop menu specification names them.
pub open spec fn kind_categories(k: AppType) -> Seq<Seq<char>> {
    match k {
        AppType::Browser => seq!["webbrowser"@],
        AppType::Chat => seq!["chat"@, "instantmessaging"@],
        AppType::Development => seq!["development"@, "ide"@],
        AppType::Editor => seq!["texteditor"@],
        AppType::FileManager => seq!["filemanager"@],
        AppType::MediaPlayer => seq!["audiovideo"@],
        AppType::ImageViewer => seq!["graphics"@],
        AppType::Game => seq!["game"@],
        AppType::Office => seq!["office"@],
        AppType::Terminal => seq!["terminalemulator"@],
        AppType::Unknown => Seq::<Seq<char>>::empty(),
    }
}

/// An application with a category of kind `k` (in any ASCII case, such as
/// `Office`) is classified as `k` or as a kind whose rule comes before; it is never
/// left unknown.
pub proof fn lemma_category_decides_kind(
    name: Seq<char>,
    generic: Option<Seq<char>>,
    cats: Seq<Seq<char>>,
    kws: Seq<Seq<char>>,
    mimes: Seq<Seq<char>>,
    i: int,
    k: AppType,
    m: int,
)
    requires
        0 <= i < cats.len(),
        0 <= m < kind_categories(k).len(),
        lower_seq(cats[i]) == kind_categories(k)[m],
    ensures
        kind_rank(classify_spec(name, generic, cats, kws, mimes)) <= kind_rank(k),
        classify_spec(name, generic, cats, kws, mimes) != AppType::Unknown,
{
    let c = kind_categories(k)[m];
    reveal_strlit("webbrowser");
    reveal_strlit("chat");
    reveal_strlit("instantmessaging");
    reveal_strlit("development");
    reveal_strlit("ide");
    reveal_strlit("texteditor");
    reveal_strlit("filemanager");
    reveal_strlit("audiovideo");
    reveal_strlit("graphics");
    reveal_strlit("game");
    reveal_strlit("office");
    reveal_strlit("terminalemulator");
    let w = cats[i];
    assert(w.len() == c.len());
    assert forall|j: int| 0 <= j < w.len() implies 'a' <= #[trigger] lower(w[j]) <= 'z' by {
        assert(lower_seq(w)[j] == c[j]);
    }
    lemma_normalize_letters(w);
    assert(normalize_words(cats[i]) == c);
    assert(has_category(cats, c));
}


proof fn lemma_add_capability_contains(out: Seq<Seq<char>>, v: Seq<char>, x: Seq<char>)
    ensures
        add_capability(out, v).contains(x) <==> (out.contains(x) || x == v),
{
    if !out.contains(v) {
        let r = out.push(v);
        if out.contains(x) {
            let j = choose|j: int| 0 <= j < out.len() && out[j] == x;
            assert(r[j] == x);
        }
        if r.contains(x) && x != v {
            let j = choose|j: int| 0 <= j < r.len() && r[j] == x;
            assert(j < out.len());
            assert(out[j] == x);
        }
        assert(r[out.len() as int] == v);
    }
}

proof fn lemma_capabilities_of_contains(
    html: bool,
    web: bool,
    dirs: bool,
    audio: bool,
    video: bool,
    images: bool,
    browser: bool,
    x: Seq<char>,
)
    ensures
        capabilities_of(html, web, dirs, audio, video, images, browser).contains(x) <==> (
        (html && x == "html"@) || (web && (x == "web"@ || x == "http"@ || x == "https"@)) || (dirs
            && x == "directories"@) || (audio && x == "audio"@) || (video && x == "video"@) || (images
            && x == "images"@) || (browser && x == "browser"@)),
{
    let e = Seq::<Seq<char>>::empty();
    lemma_add_capability_contains(e, "html"@, x);
    let s1 = if html { add_capability(e, "html"@) } else { e };
    lemma_add_capability_contains(s1, "web"@, x);
    lemma_add_capability_contains(add_capability(s1, "web"@), "http"@, x);
    lemma_add_capability_contains(add_capability(add_capability(s1, "web"@), "http"@), "https"@, x);
    let s2 = if web { add_capability(add_capability(add_capability(s1, "web"@), "http"@), "https"@) } else { s1 };
    lemma_add_capability_contains(s2, "directories"@, x);
    let s3 = if dirs { add_capability(s2, "directories"@) } else { s2 };
    lemma_add_capability_contains(s3, "audio"@, x);
    let s4 = if audio { add_capability(s3, "audio"@) } else { s3 };
    lemma_add_capability_contains(s4, "video"@, x);
    let s5 = if video { add_capability(s4, "video"@) } else { s4 };
    lemma_add_capability_contains(s5, "images"@, x);
    let s6 = if images { add_capability(s5, "images"@) } else { s5 };
    lemma_add_capability_contains(s6, "browser"@, x);
}

/// Each capability comes from its own evidence, and from nothing else: `audio`
/// exactly when some MIME type begins with `audio/`, `video` with `video/`,
/// `images` with `image/`; `html` exactly when some MIME type is `text/html`,
/// `directories` when one is `inode/directory`, `web`, `http` and `https` when one
/// is a handler of `http` or `https` links (ASCII case ignored); `browser` exactly
/// when some category is the web-browser one.
pub proof fn lemma_capabilities_evidence(cats: Seq<Seq<char>>, mimes: Seq<Seq<char>>)
    ensures
        capabilities_spec(cats, mimes).contains("audio"@) <==> exists|i: int|
            0 <= i < mimes.len() && starts_with(#[trigger] mimes[i], "audio/"@),
        capabilities_spec(cats, mimes).contains("video"@) <==> exists|i: int|
            0 <= i < mimes.len() && starts_with(#[trigger] mimes[i], "video/"@),
        capabilities_spec(cats, mimes).contains("images"@) <==> exists|i: int|
            0 <= i < mimes.len() && starts_with(#[trigger] mimes[i], "image/"@),
        capabilities_spec(cats, mimes).contains("html"@) <==> exists|i: int|
            0 <= i < mimes.len() && eq_ignore_case(#[trigger] mimes[i], "text/html"@),
        capabilities_spec(cats, mimes).contains("directories"@) <==> exists|i: int|
            0 <= i < mimes.len() && eq_ignore_case(#[trigger] mimes[i], "inode/directory"@),
        capabilities_spec(cats, mimes).contains("https"@) <==> exists|i: int|
            0 <= i < mimes.len() && (eq_ignore_case(#[trigger] mimes[i], "x-scheme-handler/http"@)
                || eq_ignore_case(mimes[i], "x-scheme-handler/https"@)),
        capabilities_spec(cats, mimes).contains("browser"@) <==> exists|i: int|
            0 <= i < cats.len() && normalize_words(#[trigger] cats[i]) == "webbrowser"@,
        forall|j: int| 0 <= j < capabilities_spec(cats, mimes).len() ==> {
            let c = #[trigger] capabilities_spec(cats, mimes)[j];
            c == "html"@ || c == "web"@ || c == "http"@ || c == "https"@ || c == "directories"@
                || c == "audio"@ || c == "video"@ || c == "images"@ || c == "browser"@
        },
{
    reveal_strlit("html");
    reveal_strlit("web");
    reveal_strlit("http");
    reveal_strlit("https");
    reveal_strlit("directories");
    reveal_strlit("audio");
    reveal_strlit("video");
    reveal_strlit("images");
    reveal_strlit("browser");
    let html = has_mime(mimes, "text/html"@);
    let web = has_mime(mimes, "x-scheme-handler/http"@) || has_mime(mimes, "x-scheme-handler/https"@);
    let dirs = has_mime(mimes, "inode/directory"@);
    let audio = has_mime_prefix(mimes, "audio/"@);
    let video = has_mime_prefix(mimes, "video/"@);
    let images = has_mime_prefix(mimes, "image/"@);
    let browser = has_category(cats, "webbrowser"@);
    let caps = capabilities_spec(cats, mimes);
    let names = seq!["html"@, "web"@, "http"@, "https"@, "directories"@, "audio"@, "video"@, "images"@, "browser"@];
    assert forall|a: int, b: int| 0 <= a < b < names.len() implies #[trigger] names[a] != #[trigger] names[b] by {
        let x = names[a];
        let y = names[b];
        if x.len() == y.len() {
            assert(x[0] != y[0] || x[2] != y[2]);
        }
    }
    lemma_capabilities_of_contains(html, web, dirs, audio, video, images, browser, "audio"@);
    lemma_capabilities_of_contains(html, web, dirs, audio, video, images, browser, "video"@);
    lemma_capabilities_of_contains(html, web, dirs, audio, video, images, browser, "images"@);
    lemma_capabilities_of_contains(html, web, dirs, audio, video, images, browser, "html"@);
    lemma_capabilities_of_contains(html, web, dirs, audio, video, images, browser, "directories"@);
    lemma_capabilities_of_contains(html, web, dirs, audio, video, images, browser, "https"@);
    lemma_capabilities_of_contains(html, web, dirs, audio, video, images, browser, "browser"@);
    assert(names[5] != names[0] && names[5] != names[1] && names[5] != names[2] && names[5] != names[3]);
    assert(names[6] != names[0] && names[6] != names[1] && names[6] != names[2] && names[6] != names[3]);
    assert forall|j: int| 0 <= j < caps.len() implies {
        let c = #[trigger] caps[j];
        c == "html"@ || c == "web"@ || c == "http"@ || c == "https"@ || c == "directories"@
            || c == "audio"@ || c == "video"@ || c == "images"@ || c == "browser"@
    } by {
        lemma_capabilities_of_contains(html, web, dirs, audio, video, images, browser, caps[j]);
        assert(caps.contains(caps[j]));
    }
}


/// The words that request a kind, as a user says them (after normalization):
/// a kind's name and its common synonyms.
pub open spec fn kind_words(k: AppType) -> Seq<Seq<char>> {
    match k {
        AppType::Browser => seq!["browser"@, "web browser"@, "webbrowser"@],
        AppType::Chat => seq!["chat"@, "messenger"@, "messaging"@],
        AppType::Editor => seq!["editor"@, "text editor"@],
        AppType::Terminal => seq!["terminal"@, "terminal emulator"@],
        AppType::FileManager => seq!["file manager"@, "filemanager"@],
        AppType::MediaPlayer => seq!["media player"@, "media"@],
        AppType::ImageViewer => seq!["image viewer"@, "photo viewer"@],
        AppType::Game => seq!["game"@],
        AppType::Development => seq!["development"@, "developer tools"@, "ide"@, "code editor"@],
        AppType::Office => seq!["office"@],
        AppType::Unknown => Seq::<Seq<char>>::empty(),
    }
}

/// A request that is one of a kind's words (in any case and spacing, such as
/// `Messaging` or `file-manager`) names that kind, and the applications offered for
/// it are all of that kind: at least one, where the classifier knows one.
pub proof fn lemma_kind_words_name_kind(
    apps: Seq<AppView>,
    requested: Seq<char>,
    k: AppType,
    m: int,
    limit: int,
    i: int,
)
    requires
        0 <= m < kind_words(k).len(),
        normalize_words(requested) == kind_words(k)[m],
        apps.len() <= usize::MAX,
        limit >= 1,
        0 <= i < apps.len(),
        apps[i].app_type == k,
    ensures
        parse_type_spec(normalize_words(requested)) == Some(k),
        type_candidates_spec(apps, requested, limit).len() >= 1,
        forall|j: int|
            0 <= j < type_candidates_spec(apps, requested, limit).len() ==> apps[
                #[trigger] type_candidates_spec(apps, requested, limit)[j] as int
            ].app_type == k,
{
    reveal_strlit("browser");
    reveal_strlit("web browser");
    reveal_strlit("webbrowser");
    reveal_strlit("chat");
    reveal_strlit("messenger");
    reveal_strlit("messaging");
    reveal_strlit("editor");
    reveal_strlit("text editor");
    reveal_strlit("terminal");
    reveal_strlit("terminal emulator");
    reveal_strlit("file manager");
    reveal_strlit("filemanager");
    reveal_strlit("media player");
    reveal_strlit("media");
    reveal_strlit("image viewer");
    reveal_strlit("photo viewer");
    reveal_strlit("game");
    reveal_strlit("development");
    reveal_strlit("developer tools");
    reveal_strlit("ide");
    reveal_strlit("code editor");
    reveal_strlit("office");
    let n = normalize_words(requested);
    // words of one length differ in their first or fifth character
    let first = n[0];
    if n.len() > 4 {
        let fifth = n[4];
    }
    assert(parse_type_spec(n) == Some(k));
    lemma_type_candidates_of_kind(apps, requested, limit);
    let o = of_kind(apps, k);
    lemma_of_kind_has(apps, k, i);
    crate::order::lemma_sort_by_elements(o, name_id_order(apps));
}

proof fn lemma_of_kind_has(apps: Seq<AppView>, k: AppType, i: int)
    requires
        0 <= i < apps.len(),
        apps[i].app_type == k,
    ensures
        of_kind(apps, k).len() >= 1,
    decreases apps.len(),
{
    if i < apps.len() - 1 {
        assert(apps.drop_last()[i] == apps[i]);
        lemma_of_kind_has(apps.drop_last(), k, i);
    }
}


/// What in an application's metadata speaks for kind `k`: one of the kind's
/// categories, one of its words in the text of the name, generic name, categories
/// and keywords, or one of its MIME types.
pub open spec fn kind_evidence(
    k: AppType,
    hay: Seq<char>,
    cats: Seq<Seq<char>>,
    mimes: Seq<Seq<char>>,
) -> bool {
    (exists|j: int| 0 <= j < kind_categories(k).len() && has_category(cats, #[trigger] kind_categories(k)[j]))
        || match k {
        AppType::Browser => contains(hay, "web browser"@) || contains(hay, "browser"@) || has_mime(mimes, "x-scheme-handler/http"@)
            || has_mime(mimes, "x-scheme-handler/https"@) || has_mime(mimes, "text/html"@),
        AppType::Chat => contains(hay, "messenger"@) || contains(hay, "chat"@),
        AppType::Development => contains(hay, "code editor"@) || contains(hay, "developer"@),
        AppType::Editor => contains(hay, "text editor"@) || contains(hay, "editor"@),
        AppType::FileManager => contains(hay, "file manager"@) || has_mime(mimes, "inode/directory"@),
        AppType::MediaPlayer => contains(hay, "media player"@),
        AppType::ImageViewer => contains(hay, "image viewer"@) || contains(hay, "photo viewer"@),
        AppType::Game => contains(hay, "game"@),
        AppType::Office => contains(hay, "office"@) || contains(hay, "spreadsheet"@) || contains(
            hay,
            "word processor"@,
        ),
        AppType::Terminal => contains(hay, "terminal"@),
        AppType::Unknown => false,
    }
}

/// The kind an application gets is the first kind, in rule order (`kind_rank`), that
/// its metadata speaks for; an application that nothing speaks for is unknown.
pub proof fn lemma_classify_first_evidence(
    name: Seq<char>,
    generic: Option<Seq<char>>,
    cats: Seq<Seq<char>>,
    kws: Seq<Seq<char>>,
    mimes: Seq<Seq<char>>,
    k: AppType,
)
    ensures
        ({
            let r = classify_spec(name, generic, cats, kws, mimes);
            let hay = haystack(name, generic, cats, kws);
            &&& r != AppType::Unknown ==> kind_evidence(r, hay, cats, mimes)
            &&& kind_rank(k) < kind_rank(r) ==> !kind_evidence(k, hay, cats, mimes)
        }),
{
    let r = classify_spec(name, generic, cats, kws, mimes);
    let hay = haystack(name, generic, cats, kws);
    let rc = kind_categories(r);
    if r != AppType::Unknown {
        // the category that decided, where one did, is among the kind's first two
        if has_category(cats, rc[0]) {
            assert(kind_evidence(r, hay, cats, mimes));
        }
        if rc.len() > 1 && has_category(cats, rc[1]) {
            assert(kind_evidence(r, hay, cats, mimes));
        }
        assert(kind_evidence(r, hay, cats, mimes));
    }
}

} // verus!
