use vstd::prelude::*;
use crate::desktop::{
    field, field_spec, file_views, hidden_or_nodisplay, hidden_spec, DesktopFile, DesktopFileView,
};
use crate::order::{
    insert_unique, lemma_insert_sorted_at, lemma_insert_unique_at, lemma_lex_asymmetric, sort_by, sort_unique, take_upto,
};
use crate::text::{
    chars_eq, chars_of, compare_chars, contains, contains_chars, join, join_chars, lex_lt, lower_chars, lower_seq, nonempty, nonempty_pieces, split_by, split_chars, starts_with, starts_with_chars, string_of, string_views, strings_of, views, Cmp3, Delim, lemma_nonempty_elements, matches_at, slice_chars, trim, trim_chars, is_delim, is_ws, lower, lemma_split_by_pieces, lemma_join_chars, lemma_split_join, lemma_nonempty_all, trim_start, trim_end, upper_seq, lemma_trim_lower_ignores_upper,
};

verus! {

/// A text without a final `.desktop`, if it has one.
pub open spec fn strip_desktop(t: Seq<char>) -> Seq<char> {
    if t.len() >= 8 && t.subrange(t.len() - 8, t.len() as int) == ".desktop"@ {
        t.take(t.len() - 8)
    } else {
        t
    }
}

/// What `normalize` makes of a text: trimmed and lower-cased (ASCII), without a
/// final `.desktop`, its words joined by one space, where words are split at
/// whitespace, `'_'`, `'-'` and `'.'`.
pub open spec fn normalize_spec(s: Seq<char>) -> Seq<char> {
    join(nonempty(split_by(strip_desktop(lower_seq(trim(s))), Delim::WordBreak)), seq![' '])
}

/// `normalize` on characters.
pub fn normalize_chars(v: &[char]) -> (r: Vec<char>)
    ensures
        r@ == normalize_spec(v@),
{
    let trimmed = trim_chars(v);
    let lowered = lower_chars(trimmed.as_slice());
    let suffix = chars_of(".desktop");
    proof {
        reveal_strlit(".desktop");
    }
    let base = if lowered.len() >= 8 && matches_at(lowered.as_slice(), lowered.len() - 8, suffix.as_slice()) {
        slice_chars(lowered.as_slice(), 0, lowered.len() - 8)
    } else {
        slice_chars(lowered.as_slice(), 0, lowered.len())
    };
    assert(base@ == strip_desktop(lowered@));
    let parts = split_chars(base.as_slice(), Delim::WordBreak);
    let words = nonempty_pieces(&parts);
    let sep = vec![' '];
    assert(sep@ =~= seq![' ']);
    join_chars(&words, sep.as_slice())
}

/// Normalizes an application name or request for matching: trimmed, lower-case,
/// without a final `.desktop`, with `_`, `-`, `.` and runs of whitespace turned
/// into single spaces.
pub fn normalize(input: &str) -> (r: String)
    ensures
        r@ == normalize_spec(input@),
{
    let v = chars_of(input);
    let n = normalize_chars(v.as_slice());
    string_of(n.as_slice())
}


// ---------------------------------------------------------------------------
// Entries
// ---------------------------------------------------------------------------

/// An installed application as the launcher knows it.
#[derive(Debug, Clone)]
pub struct AppEntry {
    pub id: String,
    pub name: String,
    pub generic_name: Option<String>,
    pub aliases: Vec<String>,
    pub desktop_file: String,
}

/// A catalog entry as the contracts see it.
pub struct EntryView {
    pub id: Seq<char>,
    pub name: Seq<char>,
    pub generic_name: Option<Seq<char>>,
    pub aliases: Seq<Seq<char>>,
    pub desktop_file: Seq<char>,
}

impl View for AppEntry {
    type V = EntryView;

    open spec fn view(&self) -> EntryView {
        EntryView {
            id: self.id@,
            name: self.name@,
            generic_name: match self.generic_name {
                Some(g) => Some(g@),
                None => None,
            },
            aliases: string_views(self.aliases@),
            desktop_file: self.desktop_file@,
        }
    }
}

impl AppEntry {
    /// The generic name of the application (`GenericName=`), if it has one.
    pub fn generic_name(&self) -> (r: Option<&str>)
        ensures
            match r {
                Some(g) => self@.generic_name == Some(g@),
                None => self@.generic_name is None,
            },
    {
        match &self.generic_name {
            Some(g) => Some(g.as_str()),
            None => None,
        }
    }

    /// The path of the application's desktop file.
    pub fn desktop_file(&self) -> (r: &str)
        ensures
            r@ == self.desktop_file@,
    {
        self.desktop_file.as_str()
    }
}

/// How well an entry matches a normalized request: 0 for one of its aliases,
/// 1 where its name or id begins with the request, 2 where either contains it,
/// 3 where the request contains either; none for an empty request or otherwise.
pub open spec fn score_match_spec(requested: Seq<char>, app: EntryView) -> Option<u8> {
    let name = normalize_spec(app.name);
    let id = normalize_spec(app.id);
    if requested.len() == 0 {
        None
    } else if exists|i: int| 0 <= i < app.aliases.len() && #[trigger] app.aliases[i] == requested {
        Some(0u8)
    } else if starts_with(name, requested) || starts_with(id, requested) {
        Some(1u8)
    } else if contains(name, requested) || contains(id, requested) {
        Some(2u8)
    } else if contains(requested, name) || contains(requested, id) {
        Some(3u8)
    } else {
        None
    }
}

fn has_alias(app: &AppEntry, requested: &[char]) -> (b: bool)
    ensures
        b == exists|i: int|
            0 <= i < app@.aliases.len() && #[trigger] app@.aliases[i] == requested@,
{
    let mut i: usize = 0;
    while i < app.aliases.len()
        invariant
            i <= app.aliases.len(),
            forall|j: int| 0 <= j < i ==> #[trigger] app@.aliases[j] != requested@,
        decreases app.aliases.len() - i,
    {
        let a = chars_of(app.aliases[i].as_str());
        assert(app@.aliases[i as int] == app.aliases@[i as int]@);
        if chars_eq(a.as_slice(), requested) {
            return true;
        }
        i += 1;
    }
    false
}

fn score_match_chars(requested: &[char], app: &AppEntry) -> (s: Option<u8>)
    ensures
        s == score_match_spec(requested@, app@),
{
    if requested.len() == 0 {
        return None;
    }
    if has_alias(app, requested) {
        return Some(0);
    }
    let name = normalize_chars(chars_of(app.name.as_str()).as_slice());
    let id = normalize_chars(chars_of(app.id.as_str()).as_slice());
    if starts_with_chars(name.as_slice(), requested) || starts_with_chars(id.as_slice(), requested) {
        return Some(1);
    }
    if contains_chars(name.as_slice(), requested) || contains_chars(id.as_slice(), requested) {
        return Some(2);
    }
    if contains_chars(requested, name.as_slice()) || contains_chars(requested, id.as_slice()) {
        return Some(3);
    }
    None
}

/// How well `app` matches `requested`, which is compared as given (see `score_match_spec`).
pub fn score_match(requested: &str, app: &AppEntry) -> (s: Option<u8>)
    ensures
        s == score_match_spec(requested@, app@),
{
    let r = chars_of(requested);
    score_match_chars(r.as_slice(), app)
}

/// The aliases that a desktop file gives before sorting: the normalized id, name
/// and generic name.
pub open spec fn alias_candidates(
    id: Seq<char>,
    name: Seq<char>,
    generic: Option<Seq<char>>,
) -> Seq<Seq<char>> {
    seq![normalize_spec(id), normalize_spec(name)] + match generic {
        Some(g) => seq![normalize_spec(g)],
        None => Seq::<Seq<char>>::empty(),
    }
}

/// The entry that a desktop file gives, if it is visible and has a name.
pub open spec fn catalog_entry(f: DesktopFileView) -> Option<EntryView> {
    let c = f.contents;
    if hidden_spec(c) {
        None
    } else {
        match field_spec(c, "Name"@) {
            None => None,
            Some(name) => {
                let generic = field_spec(c, "GenericName"@);
                Some(
                    EntryView {
                        id: f.id,
                        name,
                        generic_name: generic,
                        aliases: sort_unique(nonempty(alias_candidates(f.id, name, generic))),
                        desktop_file: f.path,
                    },
                )
            },
        }
    }
}

/// The entries of a list of desktop files, in the same order.
pub open spec fn catalog_all(files: Seq<DesktopFileView>) -> Seq<EntryView>
    decreases files.len(),
{
    if files.len() == 0 {
        Seq::<EntryView>::empty()
    } else {
        let rest = catalog_all(files.drop_last());
        match catalog_entry(files.last()) {
            Some(e) => rest.push(e),
            None => rest,
        }
    }
}

/// Adds `x` to the strictly sorted `v`, unless it is there.
fn insert_alias(v: &mut Vec<Vec<char>>, x: Vec<char>)
    ensures
        views(final(v)@) == insert_unique(views(old(v)@), x@),
{
    let ghost s = views(v@);
    let mut j: usize = v.len();
    loop
        invariant
            j <= v.len(),
            s == views(v@),
            forall|k: int| j <= k < s.len() ==> #[trigger] s[k] != x@ && !lex_lt(s[k], x@),
        ensures
            j <= v.len(),
            s == views(v@),
            forall|k: int| j <= k < s.len() ==> #[trigger] s[k] != x@ && !lex_lt(s[k], x@),
            j == 0 || s[j - 1] == x@ || lex_lt(s[j - 1], x@),
        decreases j,
    {
        if j == 0 {
            break;
        }
        assert(s[j - 1] == v@[j - 1]@);
        if chars_eq(v[j - 1].as_slice(), x.as_slice()) {
            break;
        }
        match compare_chars(v[j - 1].as_slice(), x.as_slice()) {
            Cmp3::Less => {
                break;
            },
            _ => {},
        }
        j -= 1;
    }
    proof {
        if j > 0 {
            assert(s[j - 1] == v@[j - 1]@);
        }
        lemma_insert_unique_at(s, x@, j as int);
    }
    if j > 0 && chars_eq(v[j - 1].as_slice(), x.as_slice()) {
        return;
    }
    v.insert(j, x);
    assert(views(v@) =~= s.insert(j as int, x@));
}

fn sort_unique_chars(ws: Vec<Vec<char>>) -> (r: Vec<Vec<char>>)
    ensures
        views(r@) == sort_unique(views(ws@)),
{
    let ghost all = views(ws@);
    let mut r: Vec<Vec<char>> = Vec::new();
    let mut rest = ws;
    let mut taken: Vec<Vec<char>> = Vec::new();
    let mut i: usize = 0;
    let n = rest.len();
    while i < n
        invariant
            n == all.len(),
            i <= n,
            views(rest@) == all,
            views(r@) == sort_unique(all.take(i as int)),
        decreases n - i,
    {
        let x = slice_all(&rest[i]);
        proof {
            assert(x@ == all[i as int]);
            assert(all.take(i + 1).drop_last() == all.take(i as int));
            assert(all.take(i + 1).last() == all[i as int]);
        }
        insert_alias(&mut r, x);
        i += 1;
    }
    assert(all.take(n as int) == all);
    r
}

fn slice_all(v: &Vec<char>) -> (r: Vec<char>)
    ensures
        r@ == v@,
{
    let mut r: Vec<char> = Vec::new();
    crate::text::append_chars(&mut r, v.as_slice());
    assert(r@ == v@);
    r
}

fn catalog_entry_of(f: &DesktopFile) -> (r: Option<AppEntry>)
    ensures
        match r {
            Some(e) => catalog_entry(f@) == Some(e@),
            None => catalog_entry(f@) is None,
        },
{
    let c = chars_of(f.contents.as_str());
    if hidden_or_nodisplay(c.as_slice()) {
        return None;
    }
    let name = match field(c.as_slice(), "Name") {
        Some(n) => n,
        None => {
            return None;
        },
    };
    let generic = field(c.as_slice(), "GenericName");
    let mut cands: Vec<Vec<char>> = Vec::new();
    cands.push(normalize_chars(chars_of(f.id.as_str()).as_slice()));
    cands.push(normalize_chars(name.as_slice()));
    let generic_name = match &generic {
        Some(g) => {
            cands.push(normalize_chars(g.as_slice()));
            Some(string_of(g.as_slice()))
        },
        None => None,
    };
    let ghost gv = match generic {
        Some(g) => Some(g@),
        None => None::<Seq<char>>,
    };
    assert(views(cands@) =~= alias_candidates(f.id@, name@, gv));
    let kept = nonempty_pieces(&cands);
    let aliases = sort_unique_chars(kept);
    let entry = AppEntry {
        id: f.id.clone(),
        name: string_of(name.as_slice()),
        generic_name,
        aliases: strings_of(&aliases),
        desktop_file: f.path.clone(),
    };
    Some(entry)
}

// ---------------------------------------------------------------------------
// The catalog
// ---------------------------------------------------------------------------

/// The installed applications, with an index from each alias to the first entry
/// that has it.
pub struct AppCatalog {
    apps: Vec<AppEntry>,
    aliases: Vec<(Vec<char>, usize)>,
}

/// The views of a sequence of entries.
pub open spec fn entry_views(apps: Seq<AppEntry>) -> Seq<EntryView> {
    apps.map_values(|a: AppEntry| a@)
}

/// Entry `i` has alias `a`.
pub open spec fn has_alias_at(apps: Seq<EntryView>, i: int, a: Seq<char>) -> bool {
    exists|k: int| 0 <= k < apps[i].aliases.len() && #[trigger] apps[i].aliases[k] == a
}

/// The index maps each alias to the first entry that has it, and holds every alias;
/// no alias is empty.
pub open spec fn alias_index_ok(apps: Seq<EntryView>, index: Seq<(Seq<char>, usize)>) -> bool {
    &&& forall|k: int|
        0 <= k < index.len() ==> {
            &&& (#[trigger] index[k]).1 < apps.len()
            &&& has_alias_at(apps, index[k].1 as int, index[k].0)
            &&& forall|j: int| 0 <= j < index[k].1 ==> !has_alias_at(apps, j, index[k].0)
        }
    &&& forall|i: int, a: Seq<char>|
        0 <= i < apps.len() && #[trigger] has_alias_at(apps, i, a) ==> a.len() > 0 && exists|k: int|
            0 <= k < index.len() && #[trigger] index[k].0 == a
}

/// The alias index with each alias taken as a text.
pub open spec fn index_views(index: Seq<(Vec<char>, usize)>) -> Seq<(Seq<char>, usize)> {
    index.map_values(|p: (Vec<char>, usize)| (p.0@, p.1))
}

impl View for AppCatalog {
    type V = Seq<EntryView>;

    closed spec fn view(&self) -> Seq<EntryView> {
        entry_views(self.apps@)
    }
}

impl AppCatalog {
    #[verifier::type_invariant]
    closed spec fn index_ok(self) -> bool {
        alias_index_ok(entry_views(self.apps@), index_views(self.aliases@))
    }

    /// The alias index: each alias with the position of the first entry that has it.
    pub closed spec fn alias_index(self) -> Seq<(Seq<char>, usize)> {
        index_views(self.aliases@)
    }
}


/// The entry that `resolve` picks for the normalized request `r`: it has a score,
/// no entry scores lower, and every earlier entry with a score scores higher.
pub open spec fn is_best_match(apps: Seq<EntryView>, r: Seq<char>, i: int) -> bool {
    &&& 0 <= i < apps.len()
    &&& score_match_spec(r, apps[i]) is Some
    &&& forall|j: int|
        0 <= j < apps.len() && #[trigger] score_match_spec(r, apps[j]) is Some ==> {
            &&& score_match_spec(r, apps[i])->0 <= score_match_spec(r, apps[j])->0
            &&& (j < i ==> score_match_spec(r, apps[i])->0 < score_match_spec(r, apps[j])->0)
        }
}

/// The positions of the entries that match `r` at all, in order.
pub open spec fn matching(apps: Seq<EntryView>, r: Seq<char>) -> Seq<usize>
    decreases apps.len(),
{
    if apps.len() == 0 {
        Seq::<usize>::empty()
    } else {
        let rest = matching(apps.drop_last(), r);
        if score_match_spec(r, apps.last()) is Some {
            rest.push((apps.len() - 1) as usize)
        } else {
            rest
        }
    }
}

/// Position `a` ranks before or with `b`: by score, then by name.
pub open spec fn score_name_order(apps: Seq<EntryView>, r: Seq<char>) -> spec_fn(usize, usize) -> bool {
    |a: usize, b: usize|
        {
            let sa = score_match_spec(r, apps[a as int])->0;
            let sb = score_match_spec(r, apps[b as int])->0;
            sa < sb || (sa == sb && !lex_lt(apps[b as int].name, apps[a as int].name))
        }
}

/// The positions whose names `candidate_names` returns: the matching entries by
/// score then name (a stable sort), at most `limit` of them.
pub open spec fn candidates_spec(apps: Seq<EntryView>, requested: Seq<char>, limit: int) -> Seq<usize> {
    let r = normalize_spec(requested);
    take_upto(sort_by(matching(apps, r), score_name_order(apps, r)), limit)
}

fn index_lookup(index: &Vec<(Vec<char>, usize)>, a: &[char]) -> (r: Option<usize>)
    ensures
        match r {
            Some(i) => exists|k: int| 0 <= k < index.len() && #[trigger] index_views(index@)[k] == (a@, i),
            None => forall|k: int| 0 <= k < index.len() ==> (#[trigger] index_views(index@)[k]).0 != a@,
        },
{
    let mut k: usize = 0;
    while k < index.len()
        invariant
            k <= index.len(),
            forall|m: int| 0 <= m < k ==> (#[trigger] index_views(index@)[m]).0 != a@,
        decreases index.len() - k,
    {
        assert(index_views(index@)[k as int] == (index@[k as int].0@, index@[k as int].1));
        if chars_eq(index[k].0.as_slice(), a) {
            return Some(index[k].1);
        }
        k += 1;
    }
    None
}

fn build_catalog(files: &[DesktopFile]) -> (r: (Vec<AppEntry>, Vec<(Vec<char>, usize)>))
    ensures
        entry_views(r.0@) == catalog_all(file_views(files@)),
        alias_index_ok(entry_views(r.0@), index_views(r.1@)),
{
    let mut apps: Vec<AppEntry> = Vec::new();
    let mut index: Vec<(Vec<char>, usize)> = Vec::new();
    let mut i: usize = 0;
    assert(index_views(index@) =~= Seq::<(Seq<char>, usize)>::empty());
    while i < files.len()
        invariant
            i <= files.len(),
            entry_views(apps@) == catalog_all(file_views(files@).take(i as int)),
            alias_index_ok(entry_views(apps@), index_views(index@)),
        decreases files.len() - i,
    {
        let entry = catalog_entry_of(&files[i]);
        proof {
            let t = file_views(files@).take(i + 1);
            assert(t.drop_last() == file_views(files@).take(i as int));
            assert(t.last() == files@[i as int]@);
        }
        match entry {
            Some(e) => {
                let ghost old_apps = entry_views(apps@);
                let ghost old_index = index_views(index@);
                let ghost f = files@[i as int]@;
                let ghost name = field_spec(f.contents, "Name"@)->0;
                let ghost cands = nonempty(
                    alias_candidates(f.id, name, field_spec(f.contents, "GenericName"@)),
                );
                proof {
                    lemma_nonempty_elements(
                        alias_candidates(f.id, name, field_spec(f.contents, "GenericName"@)),
                    );
                    crate::order::lemma_sort_unique_elements(cands);
                    assert(e@.aliases == sort_unique(cands));
                    assert forall|m: int| 0 <= m < e@.aliases.len() implies (#[trigger] e@.aliases[m]).len() > 0 by {
                        let q = choose|q: int| 0 <= q < cands.len() && cands[q] == e@.aliases[m];
                    }
                }
                let n = apps.len();
                let na = e.aliases.len();
                let keys = crate::text::chars_of_strings(e.aliases.as_slice());
                apps.push(e);
                let ghost av = entry_views(apps@);
                proof {
                    assert(av == old_apps.push(apps@[n as int]@));
                    assert forall|ii: int, a: Seq<char>| 0 <= ii < n implies has_alias_at(av, ii, a) == has_alias_at(old_apps, ii, a) by {
                        assert(av[ii] == old_apps[ii]);
                    }
                }
                let mut j: usize = 0;
                while j < na
                    invariant
                        n == old_apps.len(),
                        av == old_apps.push(av[n as int]),
                        av == entry_views(apps@),
                        na == av[n as int].aliases.len(),
                        views(keys@) == av[n as int].aliases,
                        forall|m: int| 0 <= m < na ==> (#[trigger] av[n as int].aliases[m]).len() > 0,
                        alias_index_ok(old_apps, old_index),
                        forall|ii: int, a: Seq<char>|
                            0 <= ii < n ==> has_alias_at(av, ii, a) == has_alias_at(old_apps, ii, a),
                        j <= na,
                        forall|k: int|
                            0 <= k < index.len() ==> {
                                &&& (#[trigger] index_views(index@)[k]).1 < av.len()
                                &&& has_alias_at(av, index_views(index@)[k].1 as int, index_views(index@)[k].0)
                                &&& forall|jj: int|
                                    0 <= jj < index_views(index@)[k].1 ==> !has_alias_at(
                                        av,
                                        jj,
                                        index_views(index@)[k].0,
                                    )
                            },
                        forall|ii: int, a: Seq<char>|
                            0 <= ii < n && #[trigger] has_alias_at(old_apps, ii, a) ==> exists|k: int|
                                0 <= k < index.len() && #[trigger] index_views(index@)[k].0 == a,
                        forall|m: int|
                            #![trigger av[n as int].aliases[m]]
                            0 <= m < j ==> exists|k: int|
                                0 <= k < index.len() && #[trigger] index_views(index@)[k].0
                                    == av[n as int].aliases[m],
                    decreases na - j,
                {
                    let ghost a = av[n as int].aliases[j as int];
                    assert(keys@[j as int]@ == a);
                    let found = index_lookup(&index, keys[j].as_slice());
                    if found.is_none() {
                        let ghost before = index_views(index@);
                        let key = slice_all(&keys[j]);
                        index.push((key, n));
                        proof {
                            assert(index_views(index@) == before.push((a, n)));
                            assert(has_alias_at(av, n as int, a)) by {
                                assert(av[n as int].aliases[j as int] == a);
                            }
                            assert forall|jj: int| 0 <= jj < n implies !has_alias_at(av, jj, a) by {
                                if has_alias_at(old_apps, jj, a) {
                                    let k = choose|k: int|
                                        0 <= k < before.len() && #[trigger] before[k].0 == a;
                                }
                            }
                            assert forall|m: int| #![trigger av[n as int].aliases[m]] 0 <= m < j + 1 implies exists|k: int|
                                0 <= k < index.len() && #[trigger] index_views(index@)[k].0
                                    == av[n as int].aliases[m] by {
                                if m < j {
                                    let k = choose|k: int|
                                        0 <= k < before.len() && #[trigger] before[k].0
                                            == av[n as int].aliases[m];
                                    assert(index_views(index@)[k] == before[k]);
                                } else {
                                    assert(index_views(index@)[before.len() as int].0 == a);
                                }
                            }
                            assert forall|ii: int, b: Seq<char>|
                                0 <= ii < n && #[trigger] has_alias_at(old_apps, ii, b) implies exists|k: int|
                                    0 <= k < index.len() && #[trigger] index_views(index@)[k].0 == b by {
                                let k = choose|k: int| 0 <= k < before.len() && #[trigger] before[k].0 == b;
                                assert(index_views(index@)[k] == before[k]);
                            }
                        }
                    } else {
                        proof {
                            let k = choose|k: int|
                                0 <= k < index.len() && #[trigger] index_views(index@)[k] == (
                                    a,
                                    found->0,
                                );
                            assert(index_views(index@)[k].0 == av[n as int].aliases[j as int]);
                        }
                    }
                    j += 1;
                }
                proof {
                    assert(entry_views(apps@) == catalog_all(file_views(files@).take(i + 1)));
                    assert forall|ii: int, a: Seq<char>|
                        0 <= ii < av.len() && #[trigger] has_alias_at(av, ii, a) implies a.len() > 0
                            && exists|k: int|
                            0 <= k < index.len() && #[trigger] index_views(index@)[k].0 == a by {
                        if ii < n {
                            assert(has_alias_at(old_apps, ii, a));
                        } else {
                            let m = choose|m: int|
                                0 <= m < av[ii].aliases.len() && #[trigger] av[ii].aliases[m] == a;
                        }
                    }
                }
            },
            None => {},
        }
        i += 1;
    }
    assert(file_views(files@).take(files.len() as int) == file_views(files@));
    (apps, index)
}

impl AppCatalog {
    /// A catalog without entries.
    pub fn new() -> (r: Self)
        ensures
            r@ == Seq::<EntryView>::empty(),
            r.alias_index() == Seq::<(Seq<char>, usize)>::empty(),
    {
        let r = AppCatalog { apps: Vec::new(), aliases: Vec::new() };
        assert(entry_views(r.apps@) =~= Seq::<EntryView>::empty());
        assert(index_views(r.aliases@) =~= Seq::<(Seq<char>, usize)>::empty());
        r
    }

    /// The catalog of the given desktop files.
    pub fn discover(files: &[DesktopFile]) -> (r: Self)
        ensures
            r@ == catalog_all(file_views(files@)),
            alias_index_ok(r@, r.alias_index()),
    {
        let (apps, aliases) = build_catalog(files);
        let r = AppCatalog { apps, aliases };
        proof {
            use_type_invariant(&r);
        }
        r
    }

    /// Replaces the catalog by that of the given desktop files.
    pub fn refresh(&mut self, files: &[DesktopFile])
        ensures
            final(self)@ == catalog_all(file_views(files@)),
            alias_index_ok(final(self)@, final(self).alias_index()),
    {
        *self = Self::discover(files);
    }

    /// How many applications the catalog holds.
    pub fn len(&self) -> (n: usize)
        ensures
            n == self@.len(),
    {
        self.apps.len()
    }

    /// The entry that best matches `requested`: an entry with the normalized request
    /// as an alias, else the lowest score, the first of equals.
    pub fn resolve(&self, requested: &str) -> (r: Option<&AppEntry>)
        ensures
            match r {
                Some(a) => exists|i: int|
                    is_best_match(self@, normalize_spec(requested@), i) && #[trigger] self@[i] == a@,
                None => forall|j: int|
                    0 <= j < self@.len() ==> #[trigger] score_match_spec(
                        normalize_spec(requested@),
                        self@[j],
                    ) is None,
            },
    {
        proof {
            use_type_invariant(self);
        }
        let normalized = normalize_chars(chars_of(requested).as_slice());
        let ghost rq = normalized@;
        let ghost apps = self@;
        match index_lookup(&self.aliases, normalized.as_slice()) {
            Some(i) => {
                proof {
                    let k = choose|k: int|
                        0 <= k < self.aliases.len() && #[trigger] index_views(self.aliases@)[k] == (
                            rq,
                            i,
                        );
                    assert(has_alias_at(apps, i as int, rq));
                    let m = choose|m: int|
                        0 <= m < apps[i as int].aliases.len() && #[trigger] apps[i as int].aliases[m] == rq;
                    assert(rq.len() > 0);
                    assert(score_match_spec(rq, apps[i as int]) == Some(0u8));
                    assert forall|j: int|
                        0 <= j < apps.len() && #[trigger] score_match_spec(rq, apps[j]) is Some implies {
                            &&& score_match_spec(rq, apps[i as int])->0 <= score_match_spec(rq, apps[j])->0
                            &&& (j < i ==> score_match_spec(rq, apps[i as int])->0 < score_match_spec(
                                rq,
                                apps[j],
                            )->0)
                        } by {
                        if j < i {
                            assert(!has_alias_at(apps, j, rq));
                        }
                    }
                    assert(is_best_match(apps, rq, i as int));
                    assert(apps[i as int] == self.apps@[i as int]@);
                }
                return Some(&self.apps[i]);
            },
            None => {},
        }
        let mut best: Option<(usize, u8)> = None;
        let mut i: usize = 0;
        while i < self.apps.len()
            invariant
                i <= self.apps.len(),
                apps == self@,
                rq == normalized@,
                match best {
                    None => forall|j: int| 0 <= j < i ==> #[trigger] score_match_spec(rq, apps[j]) is None,
                    Some((b, sb)) => {
                        &&& b < i
                        &&& score_match_spec(rq, apps[b as int]) == Some(sb)
                        &&& forall|j: int|
                            0 <= j < i && #[trigger] score_match_spec(rq, apps[j]) is Some ==> {
                                &&& sb <= score_match_spec(rq, apps[j])->0
                                &&& (j < b ==> sb < score_match_spec(rq, apps[j])->0)
                            }
                    },
                },
            decreases self.apps.len() - i,
        {
            assert(apps[i as int] == self.apps@[i as int]@);
            match score_match_chars(normalized.as_slice(), &self.apps[i]) {
                None => {},
                Some(s) => {
                    match best {
                        None => {
                            best = Some((i, s));
                        },
                        Some((b, sb)) => {
                            if s < sb {
                                best = Some((i, s));
                            }
                        },
                    }
                },
            }
            i += 1;
        }
        match best {
            None => None,
            Some((b, sb)) => {
                assert(is_best_match(apps, rq, b as int));
                assert(apps[b as int] == self.apps@[b as int]@);
                Some(&self.apps[b])
            },
        }
    }

    /// The names of the entries that match `requested`, best first (by score, then
    /// name), at most `limit` of them.
    pub fn candidate_names(&self, requested: &str, limit: usize) -> (r: Vec<String>)
        ensures
            r@.len() == candidates_spec(self@, requested@, limit as int).len(),
            forall|k: int|
                0 <= k < r@.len() ==> (#[trigger] r@[k])@ == self@[candidates_spec(
                    self@,
                    requested@,
                    limit as int,
                )[k] as int].name,
    {
        let normalized = normalize_chars(chars_of(requested).as_slice());
        let ghost rq = normalized@;
        let ghost apps = self@;
        let ghost ord = score_name_order(apps, rq);
        // scores and matching positions
        let mut scores: Vec<u8> = Vec::new();
        let mut positions: Vec<usize> = Vec::new();
        let mut i: usize = 0;
        while i < self.apps.len()
            invariant
                i <= self.apps.len(),
                apps == self@,
                rq == normalized@,
                scores@.len() == i,
                positions@ == matching(apps.take(i as int), rq),
                forall|k: int| 0 <= k < positions.len() ==> #[trigger] positions@[k] < i,
                forall|k: int|
                    0 <= k < positions.len() ==> score_match_spec(rq, apps[#[trigger] positions@[k] as int])
                        == Some(scores@[positions@[k] as int]),
            decreases self.apps.len() - i,
        {
            proof {
                let t = apps.take(i + 1);
                assert(t.drop_last() == apps.take(i as int));
                assert(t.last() == self.apps@[i as int]@);
            }
            let s = score_match_chars(normalized.as_slice(), &self.apps[i]);
            match s {
                Some(v) => {
                    scores.push(v);
                    positions.push(i);
                },
                None => {
                    scores.push(0);
                },
            }
            i += 1;
        }
        assert(apps.take(self.apps.len() as int) == apps);
        // stable insertion sort by (score, name)
        let mut sorted: Vec<usize> = Vec::new();
        let mut p: usize = 0;
        while p < positions.len()
            invariant
                p <= positions.len(),
                apps == self@,
                scores@.len() == apps.len(),
                ord == score_name_order(apps, rq),
                forall|k: int| 0 <= k < positions.len() ==> #[trigger] positions@[k] < apps.len(),
                forall|k: int|
                    0 <= k < positions.len() ==> score_match_spec(rq, apps[#[trigger] positions@[k] as int])
                        == Some(scores@[positions@[k] as int]),
                sorted@ == sort_by(positions@.take(p as int), ord),
                forall|k: int| 0 <= k < sorted.len() ==> #[trigger] sorted@[k] < apps.len(),
                forall|k: int|
                    0 <= k < sorted.len() ==> score_match_spec(rq, apps[#[trigger] sorted@[k] as int])
                        == Some(scores@[sorted@[k] as int]),
            decreases positions.len() - p,
        {
            let x = positions[p];
            let mut j: usize = sorted.len();
            loop
                invariant
                    j <= sorted.len(),
                    x < apps.len(),
                    score_match_spec(rq, apps[x as int]) == Some(scores@[x as int]),
                    apps == self@,
                    scores@.len() == apps.len(),
                    ord == score_name_order(apps, rq),
                    forall|k: int| 0 <= k < sorted.len() ==> #[trigger] sorted@[k] < apps.len(),
                    forall|k: int|
                        0 <= k < sorted.len() ==> score_match_spec(rq, apps[#[trigger] sorted@[k] as int])
                            == Some(scores@[sorted@[k] as int]),
                    forall|k: int| j <= k < sorted.len() ==> !ord(#[trigger] sorted@[k], x),
                ensures
                    j <= sorted.len(),
                    forall|k: int| j <= k < sorted.len() ==> !ord(#[trigger] sorted@[k], x),
                    j == 0 || ord(sorted@[j - 1], x),
                decreases j,
            {
                if j == 0 {
                    break;
                }
                let y = sorted[j - 1];
                let sy = scores[y];
                let sx = scores[x];
                let le = if sy < sx {
                    true
                } else if sy > sx {
                    false
                } else {
                    let yn = chars_of(self.apps[y].name.as_str());
                    let xn = chars_of(self.apps[x].name.as_str());
                    assert(apps[y as int] == self.apps@[y as int]@);
                    assert(apps[x as int] == self.apps@[x as int]@);
                    match compare_chars(xn.as_slice(), yn.as_slice()) {
                        Cmp3::Less => false,
                        _ => true,
                    }
                };
                if le {
                    break;
                }
                j -= 1;
            }
            proof {
                lemma_insert_sorted_at(sorted@, x, ord, j as int);
                assert(positions@.take(p + 1).drop_last() == positions@.take(p as int));
                assert(positions@.take(p + 1).last() == x);
            }
            sorted.insert(j, x);
            p += 1;
        }
        assert(positions@.take(positions.len() as int) == positions@);
        sorted.truncate(limit);
        let mut r: Vec<String> = Vec::new();
        let mut k: usize = 0;
        while k < sorted.len()
            invariant
                k <= sorted.len(),
                apps == self@,
                forall|m: int| 0 <= m < sorted.len() ==> #[trigger] sorted@[m] < apps.len(),
                r@.len() == k,
                forall|m: int| 0 <= m < k ==> (#[trigger] r@[m])@ == apps[sorted@[m] as int].name,
            decreases sorted.len() - k,
        {
            assert(apps[sorted@[k as int] as int] == self.apps@[sorted@[k as int] as int]@);
            r.push(self.apps[sorted[k]].name.clone());
            k += 1;
        }
        r
    }
}


// ---------------------------------------------------------------------------
// Laws
// ---------------------------------------------------------------------------

/// A character that a normalized text may hold: a space, or a lower-case
/// (ASCII) character that is not a word break.
pub open spec fn normal_char(c: char) -> bool {
    (c == ' ' || !is_delim(Delim::WordBreak, c)) && lower(c) == c
}

/// Normalizing a normalized text changes nothing, so aliases and requests that are
/// both normalized compare as the texts they came from.
pub proof fn lemma_normalize_idempotent(s: Seq<char>)
    ensures
        normalize_spec(normalize_spec(s)) == normalize_spec(s),
{
    let l = lower_seq(trim(s));
    let t = strip_desktop(l);
    let pieces = split_by(t, Delim::WordBreak);
    let ws = nonempty(pieces);
    let n = join(ws, seq![' ']);
    assert(n == normalize_spec(s));
    let lc = |c: char| lower(c) == c;
    assert forall|i: int| 0 <= i < t.len() implies lc(#[trigger] t[i]) by {
        assert(t[i] == l[i]);
    }
    lemma_split_by_pieces(t, Delim::WordBreak, lc);
    lemma_nonempty_elements(pieces);
    assert forall|k: int, i: int| 0 <= k < ws.len() && 0 <= i < ws[k].len() implies !is_delim(
        Delim::WordBreak,
        #[trigger] ws[k][i],
    ) && lower(ws[k][i]) == ws[k][i] by {
        let m = choose|m: int| 0 <= m < pieces.len() && pieces[m] == ws[k];
        assert(pieces[m][i] == ws[k][i]);
    }
    if ws.len() == 0 {
        assert(n == Seq::<char>::empty());
        assert(trim(n) == n);
        assert(lower_seq(n) =~= n);
        assert(strip_desktop(n) == n);
        assert(split_by(n, Delim::WordBreak) == seq![Seq::<char>::empty()]);
        let x = seq![Seq::<char>::empty()];
        assert(x.len() == 1);
        assert(x.last().len() == 0);
        assert(x.drop_last() =~= Seq::<Seq<char>>::empty());
        assert(nonempty(x.drop_last()) == x.drop_last());
        assert(nonempty(x) == nonempty(x.drop_last()));
    } else {
        let nc = |c: char| normal_char(c);
        assert forall|k: int, i: int| 0 <= k < ws.len() && 0 <= i < ws[k].len() implies nc(#[trigger] ws[k][i]) by {}
        lemma_join_chars(ws, ' ', nc);
        assert(!is_ws(n[0])) by {
            assert(ws[0][0] == n[0]);
            assert(!is_delim(Delim::WordBreak, ws[0][0]));
        }
        assert(!is_ws(n.last())) by {
            let w = ws[ws.len() - 1];
            assert(!is_delim(Delim::WordBreak, w[w.len() - 1]));
        }
        assert(trim_start(n) == n);
        assert(trim_end(n) == n);
        assert(trim(n) == n);
        assert(lower_seq(n) =~= n) by {
            assert forall|i: int| 0 <= i < n.len() implies lower_seq(n)[i] == n[i] by {
                assert(nc(n[i]));
            }
        }
        assert(strip_desktop(n) == n) by {
            reveal_strlit(".desktop");
            if n.len() >= 8 && n.subrange(n.len() - 8, n.len() as int) == ".desktop"@ {
                assert(n.subrange(n.len() - 8, n.len() as int)[0] == '.');
                assert(nc(n[n.len() - 8]));
            }
        }
        lemma_split_join(ws, ' ', Delim::WordBreak);
        lemma_nonempty_all(ws);
    }
}

/// Reading desktop files in two batches, one after the other, gives the entries of
/// the first batch followed by those of the second: earlier entries stay where they are.
pub proof fn lemma_catalog_all_append(a: Seq<DesktopFileView>, b: Seq<DesktopFileView>)
    ensures
        catalog_all(a + b) == catalog_all(a) + catalog_all(b),
    decreases b.len(),
{
    if b.len() == 0 {
        assert(a + b =~= a);
        assert(catalog_all(a) + catalog_all(b) =~= catalog_all(a));
    } else {
        lemma_catalog_all_append(a, b.drop_last());
        assert((a + b).drop_last() =~= a + b.drop_last());
        assert((a + b).last() == b.last());
        match catalog_entry(b.last()) {
            Some(e) => {
                assert(catalog_all(a) + catalog_all(b.drop_last()).push(e) =~= (catalog_all(a)
                    + catalog_all(b.drop_last())).push(e));
            },
            None => {},
        }
    }
}

/// Every entry of a catalog is the entry of one of its desktop files, so its aliases
/// are that file's normalized id, name and generic name, non-empty, sorted and
/// none twice.
pub proof fn lemma_catalog_entries(files: Seq<DesktopFileView>, i: int)
    requires
        0 <= i < catalog_all(files).len(),
    ensures
        exists|j: int| 0 <= j < files.len() && #[trigger] catalog_entry(files[j]) == Some(catalog_all(files)[i]),
    decreases files.len(),
{
    let rest = catalog_all(files.drop_last());
    if i < rest.len() {
        lemma_catalog_entries(files.drop_last(), i);
        let j = choose|j: int| 0 <= j < files.drop_last().len() && #[trigger] catalog_entry(files.drop_last()[j]) == Some(rest[i]);
        assert(files[j] == files.drop_last()[j]);
    } else {
        assert(catalog_entry(files[files.len() - 1]) == Some(catalog_all(files)[i]));
    }
}

/// The index holds the pair `p`.
pub open spec fn index_holds(index: Seq<(Seq<char>, usize)>, p: (Seq<char>, usize)) -> bool {
    exists|m: int| 0 <= m < index.len() && #[trigger] index[m] == p
}

/// Where a catalog grows by more entries, every alias it already indexed keeps its
/// position: the index of the larger catalog holds each old pair.
pub proof fn lemma_index_keeps_old(
    old_apps: Seq<EntryView>,
    old_index: Seq<(Seq<char>, usize)>,
    more: Seq<EntryView>,
    new_index: Seq<(Seq<char>, usize)>,
)
    requires
        alias_index_ok(old_apps, old_index),
        alias_index_ok(old_apps + more, new_index),
    ensures
        forall|k: int| 0 <= k < old_index.len() ==> index_holds(new_index, #[trigger] old_index[k]),
{
    let all = old_apps + more;
    assert forall|k: int| 0 <= k < old_index.len() implies index_holds(new_index, #[trigger] old_index[k]) by {
        let (a, i) = old_index[k];
        assert(has_alias_at(old_apps, i as int, a));
        assert(all[i as int] == old_apps[i as int]);
        assert(has_alias_at(all, i as int, a));
        let m = choose|m: int| 0 <= m < new_index.len() && #[trigger] new_index[m].0 == a;
        let j = new_index[m].1;
        if (j as int) < (i as int) {
            assert(all[j as int] == old_apps[j as int]);
            assert(has_alias_at(old_apps, j as int, a));
        } else if (j as int) > (i as int) {
            assert(!has_alias_at(all, i as int, a));
        }
        assert(new_index[m] == old_index[k]);
    }
}

/// An entry's score is the best that its evidence earns, and no better: a
/// non-empty request that is one of its aliases scores 0; one that begins its
/// normalized name or id scores at most 1; one found inside either at most 2; one
/// that holds either scores at most 3; and each score comes only with its
/// evidence. So an entry whose normalized id or name the request holds, as
/// "vs code" holds "code", is always a match.
pub proof fn lemma_score_bounds(requested: Seq<char>, app: EntryView)
    requires
        requested.len() > 0,
    ensures
        app.aliases.contains(requested) ==> score_match_spec(requested, app) == Some(0u8),
        (starts_with(normalize_spec(app.name), requested) || starts_with(normalize_spec(app.id), requested))
            ==> (score_match_spec(requested, app) matches Some(s) && s <= 1),
        (contains(normalize_spec(app.name), requested) || contains(normalize_spec(app.id), requested))
            ==> (score_match_spec(requested, app) matches Some(s) && s <= 2),
        (contains(requested, normalize_spec(app.name)) || contains(requested, normalize_spec(app.id)))
            ==> (score_match_spec(requested, app) matches Some(s) && s <= 3),
        score_match_spec(requested, app) == Some(0u8) ==> app.aliases.contains(requested),
        score_match_spec(requested, app) == Some(1u8) ==> (starts_with(normalize_spec(app.name), requested)
            || starts_with(normalize_spec(app.id), requested)),
        score_match_spec(requested, app) == Some(2u8) ==> (contains(normalize_spec(app.name), requested)
            || contains(normalize_spec(app.id), requested)),
        score_match_spec(requested, app) == Some(3u8) ==> (contains(requested, normalize_spec(app.name))
            || contains(requested, normalize_spec(app.id))),
        score_match_spec(requested, app) matches Some(s) ==> s <= 3,
{
    if app.aliases.contains(requested) {
        let k = choose|k: int| 0 <= k < app.aliases.len() && app.aliases[k] == requested;
        assert(app.aliases[k] == requested);
    }
}

/// Normalizing ignores ASCII case: an upper-cased text normalizes as the text does.
pub proof fn lemma_normalize_ignores_case(s: Seq<char>)
    ensures
        normalize_spec(upper_seq(s)) == normalize_spec(s),
{
    lemma_trim_lower_ignores_upper(s);
}

/// An exact alias beats every other kind of match: where some entry has the
/// (non-empty) normalized request as an alias, the entry that `resolve` picks has it too.
pub proof fn lemma_alias_wins(apps: Seq<EntryView>, r: Seq<char>, i: int, j: int)
    requires
        is_best_match(apps, r, i),
        r.len() > 0,
        0 <= j < apps.len(),
        has_alias_at(apps, j, r),
    ensures
        has_alias_at(apps, i, r),
{
    let k = choose|k: int| 0 <= k < apps[j].aliases.len() && #[trigger] apps[j].aliases[k] == r;
    assert(score_match_spec(r, apps[j]) == Some(0u8));
    if !has_alias_at(apps, i, r) {
        assert(score_match_spec(r, apps[i])->0 > 0);
    }
}

/// The aliases of a catalog entry are strictly increasing: sorted, none twice.
pub proof fn lemma_entry_aliases_sorted(f: DesktopFileView)
    requires
        catalog_entry(f) is Some,
    ensures
        crate::order::strictly_sorted(catalog_entry(f)->0.aliases),
{
    let c = f.contents;
    let name = field_spec(c, "Name"@)->0;
    crate::order::lemma_sort_unique_sorted(
        nonempty(alias_candidates(f.id, name, field_spec(c, "GenericName"@))),
    );
}

proof fn lemma_score_name_order_props(apps: Seq<EntryView>, r: Seq<char>)
    ensures
        crate::order::total(score_name_order(apps, r)),
        crate::order::transitive(score_name_order(apps, r)),
{
    let le = score_name_order(apps, r);
    assert forall|a: usize, b: usize| #[trigger] le(a, b) || le(b, a) by {
        lemma_lex_asymmetric(apps[a as int].name, apps[b as int].name);
    }
    assert forall|a: usize, b: usize, c: usize| #[trigger] le(a, b) && #[trigger] le(b, c) implies le(a, c) by {
        let x = apps[a as int].name;
        let y = apps[b as int].name;
        let z = apps[c as int].name;
        if lex_lt(z, x) {
            crate::order::lemma_lex_total(x, y);
            if lex_lt(x, y) {
                crate::order::lemma_lex_transitive(z, x, y);
            }
        }
    }
}

/// The names that `candidate_names` returns come best first: by score, then name.
pub proof fn lemma_candidates_sorted(apps: Seq<EntryView>, requested: Seq<char>, limit: int)
    requires
        limit >= 0,
    ensures
        forall|i: int, j: int|
            0 <= i < j < candidates_spec(apps, requested, limit).len() ==> score_name_order(
                apps,
                normalize_spec(requested),
            )(
                #[trigger] candidates_spec(apps, requested, limit)[i],
                #[trigger] candidates_spec(apps, requested, limit)[j],
            ),
{
    let r = normalize_spec(requested);
    let le = score_name_order(apps, r);
    lemma_score_name_order_props(apps, r);
    crate::order::lemma_sort_by_sorted(matching(apps, r), le);
    crate::order::lemma_take_upto_sorted(sort_by(matching(apps, r), le), limit, le);
}

/// A name that begins with the request beats one that only contains it: both match,
/// and the first scores lower.
pub proof fn lemma_prefix_beats_contains(r: Seq<char>, a: EntryView, b: EntryView)
    requires
        r.len() > 0,
        forall|k: int| 0 <= k < a.aliases.len() ==> #[trigger] a.aliases[k] != r,
        forall|k: int| 0 <= k < b.aliases.len() ==> #[trigger] b.aliases[k] != r,
        starts_with(normalize_spec(a.name), r),
        !starts_with(normalize_spec(b.name), r),
        !starts_with(normalize_spec(b.id), r),
        contains(normalize_spec(b.name), r),
    ensures
        score_match_spec(r, a) == Some(1u8),
        score_match_spec(r, b) == Some(2u8),
{
}

} // verus!
