use vstd::prelude::*;
use crate::text::{
    chars_of, eq_ignore_case, eq_ignore_case_chars, lemma_split_by_len, nonempty, nonempty_pieces,
    slice_chars, split_by, split_chars, starts_with, starts_with_chars, trim, trim_chars, views,
    Delim,
};

verus! {

/// One `.desktop` file of an applications directory: its id (the file name
/// without `.desktop`), its path and its contents.
pub struct DesktopFile {
    pub id: String,
    pub path: String,
    pub contents: String,
}

/// A desktop file as the contracts see it.
pub struct DesktopFileView {
    pub id: Seq<char>,
    pub path: Seq<char>,
    pub contents: Seq<char>,
}

impl View for DesktopFile {
    type V = DesktopFileView;

    open spec fn view(&self) -> DesktopFileView {
        DesktopFileView { id: self.id@, path: self.path@, contents: self.contents@ }
    }
}

/// The views of a sequence of desktop files.
pub open spec fn file_views(fs: Seq<DesktopFile>) -> Seq<DesktopFileView> {
    fs.map_values(|f: DesktopFile| f@)
}

/// A line without the `'\r'` that ended it, if any.
pub open spec fn strip_cr(l: Seq<char>) -> Seq<char> {
    if l.len() > 0 && l.last() == '\r' {
        l.drop_last()
    } else {
        l
    }
}

/// `str::lines`: the text split at `'\n'`, a final empty piece dropped, and the
/// `'\r'` of each `"\r\n"` ending removed.
pub open spec fn lines(s: Seq<char>) -> Seq<Seq<char>> {
    let parts = split_by(s, Delim::Newline);
    let kept = if parts.last().len() == 0 {
        parts.drop_last()
    } else {
        parts
    };
    Seq::new(
        kept.len(),
        |i: int|
            if i < parts.len() - 1 {
                strip_cr(kept[i])
            } else {
                kept[i]
            },
    )
}

/// A line without its final carriage return.
pub fn strip_cr_chars(l: &Vec<char>) -> (r: Vec<char>)
    ensures
        r@ == strip_cr(l@),
{
    if l.len() > 0 && l[l.len() - 1] == '\r' {
        slice_chars(l.as_slice(), 0, l.len() - 1)
    } else {
        slice_chars(l.as_slice(), 0, l.len())
    }
}

/// The lines of a text, as `str::lines` gives them.
pub fn lines_of(v: &[char]) -> (r: Vec<Vec<char>>)
    ensures
        views(r@) == lines(v@),
{
    let parts = split_chars(v, Delim::Newline);
    proof {
        lemma_split_by_len(v@, Delim::Newline);
    }
    let n = parts.len();
    let kept = if parts[n - 1].len() == 0 {
        n - 1
    } else {
        n
    };
    let mut r: Vec<Vec<char>> = Vec::new();
    let mut i: usize = 0;
    while i < kept
        invariant
            kept <= n == parts@.len(),
            views(parts@) == split_by(v@, Delim::Newline),
            kept == (if parts@[n - 1]@.len() == 0 { n - 1 } else { n as int }),
            i <= kept,
            r@.len() == i,
            forall|j: int| 0 <= j < i ==> (#[trigger] r@[j])@ == lines(v@)[j],
        decreases kept - i,
    {
        let l = if i < n - 1 {
            strip_cr_chars(&parts[i])
        } else {
            slice_chars(parts[i].as_slice(), 0, parts[i].len())
        };
        r.push(l);
        i += 1;
    }
    assert(views(r@) =~= lines(v@));
    r
}

/// The value of a key in a desktop file line: the rest of a line that begins with
/// `prefix`, trimmed, where that is not empty.
pub open spec fn line_value(line: Seq<char>, prefix: Seq<char>) -> Option<Seq<char>> {
    if starts_with(line, prefix) && trim(line.skip(prefix.len() as int)).len() > 0 {
        Some(trim(line.skip(prefix.len() as int)))
    } else {
        None
    }
}

/// The first line, in order, that holds a value for `prefix`.
pub open spec fn first_value(ls: Seq<Seq<char>>, prefix: Seq<char>) -> Option<Seq<char>>
    decreases ls.len(),
{
    if ls.len() == 0 {
        None
    } else if line_value(ls[0], prefix) is Some {
        line_value(ls[0], prefix)
    } else {
        first_value(ls.drop_first(), prefix)
    }
}

/// What `field(contents, key)` returns: the value of the first `key=` line that has one.
pub open spec fn field_spec(contents: Seq<char>, key: Seq<char>) -> Option<Seq<char>> {
    first_value(lines(contents), key.push('='))
}

/// What `list_field(contents, key)` returns: the field's value split at `';'`,
/// empty items left out.
pub open spec fn list_field_spec(contents: Seq<char>, key: Seq<char>) -> Seq<Seq<char>> {
    match field_spec(contents, key) {
        Some(v) => nonempty(split_by(v, Delim::Semicolon)),
        None => Seq::<Seq<char>>::empty(),
    }
}

/// Whether some line is `NoDisplay=true` or `Hidden=true`, ignoring ASCII case.
pub open spec fn hidden_spec(contents: Seq<char>) -> bool {
    exists|i: int|
        0 <= i < lines(contents).len() && (eq_ignore_case(#[trigger] lines(contents)[i], "NoDisplay=true"@)
            || eq_ignore_case(lines(contents)[i], "Hidden=true"@))
}

proof fn lemma_first_value_skip(ls: Seq<Seq<char>>, prefix: Seq<char>, i: int)
    requires
        0 <= i <= ls.len(),
        forall|j: int| 0 <= j < i ==> line_value(#[trigger] ls[j], prefix) is None,
    ensures
        first_value(ls, prefix) == first_value(ls.skip(i), prefix),
    decreases i,
{
    if i > 0 {
        let t = ls.drop_first();
        assert forall|j: int| 0 <= j < i - 1 implies line_value(#[trigger] t[j], prefix) is None by {
            assert(t[j] == ls[j + 1]);
        }
        assert(line_value(ls[0], prefix) is None);
        lemma_first_value_skip(t, prefix, i - 1);
        assert(t.skip(i - 1) == ls.skip(i));
    } else {
        assert(ls.skip(0) == ls);
    }
}

/// The value of `line` for `prefix`, if it has one.
fn line_value_of(line: &Vec<char>, prefix: &Vec<char>) -> (r: Option<Vec<char>>)
    ensures
        match r {
            Some(v) => line_value(line@, prefix@) == Some(v@),
            None => line_value(line@, prefix@) is None,
        },
{
    if !starts_with_chars(line.as_slice(), prefix.as_slice()) {
        return None;
    }
    let rest = slice_chars(line.as_slice(), prefix.len(), line.len());
    assert(rest@ == line@.skip(prefix@.len() as int));
    let value = trim_chars(rest.as_slice());
    if value.len() > 0 {
        Some(value)
    } else {
        None
    }
}

/// The value of the first line `key=value` whose trimmed value is not empty.
pub fn field(contents: &[char], key: &str) -> (r: Option<Vec<char>>)
    ensures
        match r {
            Some(v) => field_spec(contents@, key@) == Some(v@),
            None => field_spec(contents@, key@) is None,
        },
{
    let mut prefix = chars_of(key);
    prefix.push('=');
    let ls = lines_of(contents);
    let ghost all = views(ls@);
    let mut i: usize = 0;
    while i < ls.len()
        invariant
            i <= ls.len(),
            all == views(ls@),
            all == lines(contents@),
            prefix@ == key@.push('='),
            forall|j: int| 0 <= j < i ==> line_value(#[trigger] all[j], prefix@) is None,
        decreases ls.len() - i,
    {
        let v = line_value_of(&ls[i], &prefix);
        assert(all[i as int] == ls@[i as int]@);
        if v.is_some() {
            proof {
                lemma_first_value_skip(all, prefix@, i as int);
                assert(all.skip(i as int)[0] == all[i as int]);
            }
            return v;
        }
        i += 1;
    }
    proof {
        lemma_first_value_skip(all, prefix@, i as int);
    }
    None
}

/// The items of a `;`-separated field, empty items left out.
pub fn list_field(contents: &[char], key: &str) -> (r: Vec<Vec<char>>)
    ensures
        views(r@) == list_field_spec(contents@, key@),
{
    match field(contents, key) {
        Some(v) => {
            let parts = split_chars(v.as_slice(), Delim::Semicolon);
            nonempty_pieces(&parts)
        },
        None => Vec::new(),
    }
}

/// Whether the desktop file hides itself (`NoDisplay=true` or `Hidden=true`).
pub fn hidden_or_nodisplay(contents: &[char]) -> (r: bool)
    ensures
        r == hidden_spec(contents@),
{
    let no_display = chars_of("NoDisplay=true");
    let hidden = chars_of("Hidden=true");
    let ls = lines_of(contents);
    let ghost all = views(ls@);
    let mut i: usize = 0;
    while i < ls.len()
        invariant
            i <= ls.len(),
            all == views(ls@),
            all == lines(contents@),
            no_display@ == "NoDisplay=true"@,
            hidden@ == "Hidden=true"@,
            forall|j: int|
                0 <= j < i ==> !eq_ignore_case(#[trigger] all[j], "NoDisplay=true"@) && !eq_ignore_case(
                    all[j],
                    "Hidden=true"@,
                ),
        decreases ls.len() - i,
    {
        assert(all[i as int] == ls@[i as int]@);
        if eq_ignore_case_chars(ls[i].as_slice(), no_display.as_slice())
            || eq_ignore_case_chars(ls[i].as_slice(), hidden.as_slice()) {
            return true;
        }
        i += 1;
    }
    false
}

} // verus!
