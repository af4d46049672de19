use vstd::prelude::*;

verus! {

/// The Unicode `White_Space` characters, the set that `char::is_whitespace` tests.
pub open spec fn is_ws(c: char) -> bool {
    ||| ('\t' <= c && c <= '\r')
    ||| c == ' '
    ||| c == '\u{85}'
    ||| c == '\u{a0}'
    ||| c == '\u{1680}'
    ||| ('\u{2000}' <= c && c <= '\u{200a}')
    ||| c == '\u{2028}'
    ||| c == '\u{2029}'
    ||| c == '\u{202f}'
    ||| c == '\u{205f}'
    ||| c == '\u{3000}'
}

/// Whether a character is Unicode whitespace.
pub fn is_whitespace(c: char) -> (b: bool)
    ensures
        b == is_ws(c),
{
    ('\t' <= c && c <= '\r') || c == ' ' || c == '\u{85}' || c == '\u{a0}' || c == '\u{1680}'
        || ('\u{2000}' <= c && c <= '\u{200a}') || c == '\u{2028}' || c == '\u{2029}'
        || c == '\u{202f}' || c == '\u{205f}' || c == '\u{3000}'
}

/// ASCII lower-casing of one character; every other character is kept.
pub open spec fn lower(c: char) -> char {
    if 'A' <= c && c <= 'Z' {
        ((c as u32) + 32) as char
    } else {
        c
    }
}

/// ASCII lower-casing of a whole text, as `str::to_ascii_lowercase` does it.
pub open spec fn lower_seq(s: Seq<char>) -> Seq<char> {
    s.map_values(|c: char| lower(c))
}

/// ASCII upper-casing of a character, as `char::to_ascii_uppercase` does it.
pub open spec fn upper(c: char) -> char {
    if 'a' <= c && c <= 'z' {
        ((c as u32) - 32) as char
    } else {
        c
    }
}

/// ASCII upper-casing of a whole text, as `str::to_ascii_uppercase` does it.
pub open spec fn upper_seq(s: Seq<char>) -> Seq<char> {
    s.map_values(|c: char| upper(c))
}

/// The ASCII lower case of a character.
pub fn to_lower(c: char) -> (r: char)
    ensures
        r == lower(c),
{
    if 'A' <= c && c <= 'Z' {
        ((c as u32) + 32) as u8 as char
    } else {
        c
    }
}

/// The characters of a text, in order.
pub fn chars_of(s: &str) -> (v: Vec<char>)
    ensures
        v@ == s@,
{
    let mut v: Vec<char> = Vec::new();
    for c in it: s.chars()
        invariant
            v@ == it.seq().take(it.index() as int),
    {
        v.push(c);
    }
    v
}

/// `String::push`: appends one character.
#[verifier::external_body]
pub(crate) fn push_char(s: &mut String, c: char)
    ensures
        final(s)@ == old(s)@.push(c),
{
    s.push(c);
}

/// A text made of the given characters.
pub fn string_of(v: &[char]) -> (s: String)
    ensures
        s@ == v@,
{
    let mut s = String::new();
    let mut i: usize = 0;
    while i < v.len()
        invariant
            i <= v.len(),
            s@ == v@.take(i as int),
        decreases v.len() - i,
    {
        push_char(&mut s, v[i]);
        i += 1;
        assert(v@.take(i as int) == v@.take(i - 1).push(v@[i - 1]));
    }
    assert(v@.take(v.len() as int) == v@);
    s
}

/// The ASCII lower case of each character.
pub fn lower_chars(v: &[char]) -> (r: Vec<char>)
    ensures
        r@ == lower_seq(v@),
{
    let mut r: Vec<char> = Vec::new();
    let mut i: usize = 0;
    while i < v.len()
        invariant
            i <= v.len(),
            r@ == lower_seq(v@.take(i as int)),
        decreases v.len() - i,
    {
        r.push(to_lower(v[i]));
        i += 1;
        assert(lower_seq(v@.take(i as int)) == lower_seq(v@.take(i - 1)).push(lower(v@[i - 1])));
    }
    assert(v@.take(v.len() as int) == v@);
    r
}

// ---------------------------------------------------------------------------
// Trimming
// ---------------------------------------------------------------------------

/// The text without its leading whitespace.
pub open spec fn trim_start(s: Seq<char>) -> Seq<char>
    decreases s.len(),
{
    if s.len() > 0 && is_ws(s[0]) {
        trim_start(s.drop_first())
    } else {
        s
    }
}

/// The text without its trailing whitespace.
pub open spec fn trim_end(s: Seq<char>) -> Seq<char>
    decreases s.len(),
{
    if s.len() > 0 && is_ws(s.last()) {
        trim_end(s.drop_last())
    } else {
        s
    }
}

/// `str::trim`: the text without leading and trailing whitespace.
pub open spec fn trim(s: Seq<char>) -> Seq<char> {
    trim_end(trim_start(s))
}

/// Where the first `k` characters are whitespace and the next is not, dropping
/// leading whitespace drops exactly those `k`.
pub proof fn lemma_trim_start_skip(s: Seq<char>, k: int)
    requires
        0 <= k <= s.len(),
        forall|j: int| 0 <= j < k ==> is_ws(#[trigger] s[j]),
        k == s.len() || !is_ws(s[k]),
    ensures
        trim_start(s) == s.skip(k),
    decreases k,
{
    if k == 0 {
        assert(s.skip(0) == s);
    } else {
        let t = s.drop_first();
        assert forall|j: int| 0 <= j < k - 1 implies is_ws(#[trigger] t[j]) by {
            assert(t[j] == s[j + 1]);
        }
        lemma_trim_start_skip(t, k - 1);
        assert(t.skip(k - 1) == s.skip(k));
    }
}

/// Where the characters from `k` on are whitespace and the one before is not,
/// dropping trailing whitespace keeps exactly the first `k`.
pub proof fn lemma_trim_end_take(s: Seq<char>, k: int)
    requires
        0 <= k <= s.len(),
        forall|j: int| k <= j < s.len() ==> is_ws(#[trigger] s[j]),
        k == 0 || !is_ws(s[k - 1]),
    ensures
        trim_end(s) == s.take(k),
    decreases s.len() - k,
{
    if k == s.len() {
        assert(s.take(k) == s);
    } else {
        let t = s.drop_last();
        assert forall|j: int| k <= j < t.len() implies is_ws(#[trigger] t[j]) by {
            assert(t[j] == s[j]);
        }
        assert(is_ws(s[s.len() - 1]));
        lemma_trim_end_take(t, k);
        assert(t.take(k) == s.take(k));
    }
}

/// Bounds `(start, end)` such that `v[start..end]` is `trim(v)`.
pub fn trim_bounds(v: &[char]) -> (r: (usize, usize))
    ensures
        r.0 <= r.1 <= v.len(),
        v@.subrange(r.0 as int, r.1 as int) == trim(v@),
{
    let mut start: usize = 0;
    while start < v.len() && is_whitespace(v[start])
        invariant
            start <= v.len(),
            forall|j: int| 0 <= j < start ==> is_ws(#[trigger] v@[j]),
        decreases v.len() - start,
    {
        start += 1;
    }
    proof {
        lemma_trim_start_skip(v@, start as int);
    }
    let mut end: usize = v.len();
    while end > start && is_whitespace(v[end - 1])
        invariant
            start <= end <= v.len(),
            forall|j: int| end <= j < v.len() ==> is_ws(#[trigger] v@[j]),
        decreases end,
    {
        end -= 1;
    }
    proof {
        let t = v@.skip(start as int);
        let k = end - start;
        assert forall|j: int| k <= j < t.len() implies is_ws(#[trigger] t[j]) by {
            assert(t[j] == v@[j + start]);
        }
        if k > 0 {
            assert(t[k - 1] == v@[end - 1]);
        }
        lemma_trim_end_take(t, k as int);
        assert(t.take(k as int) == v@.subrange(start as int, end as int));
    }
    (start, end)
}

/// `trim` on characters.
pub fn trim_chars(v: &[char]) -> (r: Vec<char>)
    ensures
        r@ == trim(v@),
{
    let (start, end) = trim_bounds(v);
    slice_chars(v, start, end)
}

/// `v[start..end]` as a vector.
pub fn slice_chars(v: &[char], start: usize, end: usize) -> (r: Vec<char>)
    requires
        start <= end <= v.len(),
    ensures
        r@ == v@.subrange(start as int, end as int),
{
    let mut r: Vec<char> = Vec::new();
    let mut i: usize = start;
    while i < end
        invariant
            start <= i <= end <= v.len(),
            r@ == v@.subrange(start as int, i as int),
        decreases end - i,
    {
        r.push(v[i]);
        i += 1;
        assert(v@.subrange(start as int, i as int) == v@.subrange(start as int, i - 1).push(
            v@[i - 1],
        ));
    }
    r
}


// ---------------------------------------------------------------------------
// Splitting and joining
// ---------------------------------------------------------------------------

/// The characters at which a text is split.
#[derive(Clone, Copy, PartialEq, Eq)]
pub enum Delim {
    /// `'\n'`
    Newline,
    /// `';'`
    Semicolon,
    /// Unicode whitespace
    Whitespace,
    /// Unicode whitespace, `'_'`, `'-'` and `'.'`
    WordBreak,
}

/// Whether `c` separates pieces under `d`.
pub open spec fn is_delim(d: Delim, c: char) -> bool {
    match d {
        Delim::Newline => c == '\n',
        Delim::Semicolon => c == ';',
        Delim::Whitespace => is_ws(c),
        Delim::WordBreak => is_ws(c) || c == '_' || c == '-' || c == '.',
    }
}

/// Whether `c` separates pieces under `d`.
pub fn delim_at(d: Delim, c: char) -> (b: bool)
    ensures
        b == is_delim(d, c),
{
    match d {
        Delim::Newline => c == '\n',
        Delim::Semicolon => c == ';',
        Delim::Whitespace => is_whitespace(c),
        Delim::WordBreak => is_whitespace(c) || c == '_' || c == '-' || c == '.',
    }
}

/// `str::split` with a character predicate: the pieces between delimiters,
/// empty pieces included, so that there is always one piece more than delimiters.
pub open spec fn split_by(s: Seq<char>, d: Delim) -> Seq<Seq<char>>
    decreases s.len(),
{
    if s.len() == 0 {
        seq![Seq::<char>::empty()]
    } else {
        let p = split_by(s.drop_last(), d);
        if is_delim(d, s.last()) {
            p.push(Seq::<char>::empty())
        } else {
            p.update(p.len() - 1, p.last().push(s.last()))
        }
    }
}

/// A split always has at least one piece.
pub proof fn lemma_split_by_len(s: Seq<char>, d: Delim)
    ensures
        split_by(s, d).len() >= 1,
    decreases s.len(),
{
    if s.len() > 0 {
        lemma_split_by_len(s.drop_last(), d);
    }
}

/// The pieces that are not empty, in order.
pub open spec fn nonempty(ws: Seq<Seq<char>>) -> Seq<Seq<char>>
    decreases ws.len(),
{
    if ws.len() == 0 {
        ws
    } else {
        let p = nonempty(ws.drop_last());
        if ws.last().len() > 0 {
            p.push(ws.last())
        } else {
            p
        }
    }
}

/// The pieces joined, with `sep` between each two of them.
pub open spec fn join(ws: Seq<Seq<char>>, sep: Seq<char>) -> Seq<char>
    decreases ws.len(),
{
    if ws.len() == 0 {
        Seq::<char>::empty()
    } else if ws.len() == 1 {
        ws[0]
    } else {
        join(ws.drop_last(), sep) + sep + ws.last()
    }
}

/// The views of a sequence of character vectors.
pub open spec fn views(vs: Seq<Vec<char>>) -> Seq<Seq<char>> {
    vs.map_values(|v: Vec<char>| v@)
}

/// The views of a sequence of strings.
pub open spec fn string_views(vs: Seq<String>) -> Seq<Seq<char>> {
    vs.map_values(|v: String| v@)
}

/// `split_by` on characters.
pub fn split_chars(v: &[char], d: Delim) -> (r: Vec<Vec<char>>)
    ensures
        views(r@) == split_by(v@, d),
{
    let mut pieces: Vec<Vec<char>> = Vec::new();
    let mut cur: Vec<char> = Vec::new();
    let mut i: usize = 0;
    while i < v.len()
        invariant
            i <= v.len(),
            views(pieces@).push(cur@) == split_by(v@.take(i as int), d),
        decreases v.len() - i,
    {
        let c = v[i];
        let ghost before = views(pieces@).push(cur@);
        proof {
            assert(v@.take(i + 1).drop_last() == v@.take(i as int));
            assert(v@.take(i + 1).last() == c);
        }
        if delim_at(d, c) {
            let finished = cur;
            cur = Vec::new();
            pieces.push(finished);
            assert(views(pieces@).push(cur@) == before.push(Seq::<char>::empty()));
        } else {
            cur.push(c);
            assert(views(pieces@).push(cur@) == before.update(before.len() - 1, before.last().push(c)));
        }
        i += 1;
    }
    pieces.push(cur);
    assert(v@.take(v.len() as int) == v@);
    pieces
}

/// The pieces that are not empty, in order.
pub fn nonempty_pieces(ws: &Vec<Vec<char>>) -> (r: Vec<Vec<char>>)
    ensures
        views(r@) == nonempty(views(ws@)),
{
    let mut r: Vec<Vec<char>> = Vec::new();
    let mut j: usize = 0;
    while j < ws.len()
        invariant
            j <= ws.len(),
            views(r@) == nonempty(views(ws@).take(j as int)),
        decreases ws.len() - j,
    {
        proof {
            let t = views(ws@).take(j + 1);
            assert(t.drop_last() == views(ws@).take(j as int));
            assert(t.last() == ws@[j as int]@);
        }
        if ws[j].len() > 0 {
            let w = slice_chars(ws[j].as_slice(), 0, ws[j].len());
            assert(w@ == ws@[j as int]@);
            r.push(w);
        }
        j += 1;
    }
    assert(views(ws@).take(ws.len() as int) == views(ws@));
    r
}

/// The pieces joined by `sep`.
pub fn join_chars(ws: &Vec<Vec<char>>, sep: &[char]) -> (r: Vec<char>)
    ensures
        r@ == join(views(ws@), sep@),
{
    let mut r: Vec<char> = Vec::new();
    let mut i: usize = 0;
    while i < ws.len()
        invariant
            i <= ws.len(),
            r@ == join(views(ws@).take(i as int), sep@),
        decreases ws.len() - i,
    {
        let ghost prev = r@;
        if i > 0 {
            append_chars(&mut r, sep);
        }
        append_chars(&mut r, ws[i].as_slice());
        i += 1;
        proof {
            let t = views(ws@).take(i as int);
            assert(t.drop_last() == views(ws@).take(i - 1));
            assert(t.last() == ws@[i - 1]@);
            if i == 1 {
                assert(prev == Seq::<char>::empty());
                assert(r@ == ws@[0]@);
            }
        }
    }
    assert(views(ws@).take(ws.len() as int) == views(ws@));
    r
}

/// Appends `s` to `r`.
pub fn append_chars(r: &mut Vec<char>, s: &[char])
    ensures
        final(r)@ == old(r)@ + s@,
{
    let mut i: usize = 0;
    while i < s.len()
        invariant
            i <= s.len(),
            r@ == old(r)@ + s@.take(i as int),
        decreases s.len() - i,
    {
        r.push(s[i]);
        i += 1;
        assert(old(r)@ + s@.take(i as int) == (old(r)@ + s@.take(i - 1)).push(s@[i - 1]));
    }
    assert(s@.take(s.len() as int) == s@);
}


// ---------------------------------------------------------------------------
// Comparing
// ---------------------------------------------------------------------------

/// `str::starts_with`.
pub open spec fn starts_with(s: Seq<char>, p: Seq<char>) -> bool {
    p.len() <= s.len() && s.take(p.len() as int) == p
}

/// `str::contains` with a text pattern.
pub open spec fn contains(s: Seq<char>, p: Seq<char>) -> bool {
    exists|i: int| 0 <= i && i + p.len() <= s.len() && #[trigger] s.subrange(i, i + p.len()) == p
}

/// `str::eq_ignore_ascii_case`.
pub open spec fn eq_ignore_case(a: Seq<char>, b: Seq<char>) -> bool {
    lower_seq(a) == lower_seq(b)
}

/// The order of `String`'s `Ord`: byte-wise on UTF-8, which is the
/// lexicographic order of the characters' code points.
pub open spec fn lex_lt(a: Seq<char>, b: Seq<char>) -> bool
    decreases a.len(),
{
    if b.len() == 0 {
        false
    } else if a.len() == 0 {
        true
    } else if a[0] != b[0] {
        a[0] < b[0]
    } else {
        lex_lt(a.drop_first(), b.drop_first())
    }
}

/// Whether two texts are equal.
pub fn chars_eq(a: &[char], b: &[char]) -> (r: bool)
    ensures
        r == (a@ == b@),
{
    if a.len() != b.len() {
        return false;
    }
    let mut i: usize = 0;
    while i < a.len()
        invariant
            a.len() == b.len(),
            i <= a.len(),
            a@.take(i as int) == b@.take(i as int),
        decreases a.len() - i,
    {
        if a[i] != b[i] {
            assert(a@[i as int] != b@[i as int]);
            return false;
        }
        i += 1;
        assert(a@.take(i as int) == a@.take(i - 1).push(a@[i - 1]));
        assert(b@.take(i as int) == b@.take(i - 1).push(b@[i - 1]));
    }
    assert(a@.take(a.len() as int) == a@);
    assert(b@.take(b.len() as int) == b@);
    true
}

/// Whether `s[at..]` begins with `p`.
pub fn matches_at(s: &[char], at: usize, p: &[char]) -> (r: bool)
    requires
        at <= s.len(),
    ensures
        r == (at + p.len() <= s.len() && s@.subrange(at as int, at + p.len()) == p@),
{
    if p.len() > s.len() - at {
        return false;
    }
    let mut i: usize = 0;
    while i < p.len()
        invariant
            at + p.len() <= s.len(),
            i <= p.len(),
            s@.subrange(at as int, at + i) == p@.take(i as int),
        decreases p.len() - i,
    {
        if s[at + i] != p[i] {
            assert(s@.subrange(at as int, at + p.len())[i as int] != p@[i as int]);
            return false;
        }
        i += 1;
        assert(s@.subrange(at as int, at + i) == s@.subrange(at as int, at + i - 1).push(s@[at + i - 1]));
        assert(p@.take(i as int) == p@.take(i - 1).push(p@[i - 1]));
    }
    assert(p@.take(p.len() as int) == p@);
    true
}

/// Whether `s` begins with `p`.
pub fn starts_with_chars(s: &[char], p: &[char]) -> (r: bool)
    ensures
        r == starts_with(s@, p@),
{
    let r = matches_at(s, 0, p);
    proof {
        if p.len() <= s.len() {
            assert(s@.subrange(0, p.len() as int) == s@.take(p.len() as int));
        }
    }
    r
}

/// Whether `p` occurs in `s`.
pub fn contains_chars(s: &[char], p: &[char]) -> (r: bool)
    ensures
        r == contains(s@, p@),
{
    if p.len() == 0 {
        assert(s@.subrange(0int, 0int + p@.len()) =~= p@);
        return true;
    }
    if p.len() > s.len() {
        return false;
    }
    let last = s.len() - p.len();
    let mut i: usize = 0;
    while i <= last
        invariant
            last + p.len() == s.len(),
            p.len() > 0,
            i <= last + 1,
            forall|j: int| 0 <= j < i ==> #[trigger] s@.subrange(j, j + p.len()) != p@,
        decreases last + 1 - i,
    {
        if matches_at(s, i, p) {
            return true;
        }
        i += 1;
    }
    false
}

/// Whether two texts are equal up to ASCII case.
pub fn eq_ignore_case_chars(a: &[char], b: &[char]) -> (r: bool)
    ensures
        r == eq_ignore_case(a@, b@),
{
    if a.len() != b.len() {
        assert(lower_seq(a@).len() == a@.len());
        assert(lower_seq(b@).len() == b@.len());
        return false;
    }
    let mut i: usize = 0;
    while i < a.len()
        invariant
            a.len() == b.len(),
            i <= a.len(),
            lower_seq(a@.take(i as int)) == lower_seq(b@.take(i as int)),
        decreases a.len() - i,
    {
        if to_lower(a[i]) != to_lower(b[i]) {
            assert(lower_seq(a@)[i as int] != lower_seq(b@)[i as int]);
            return false;
        }
        i += 1;
        assert(lower_seq(a@.take(i as int)) == lower_seq(a@.take(i - 1)).push(lower(a@[i - 1])));
        assert(lower_seq(b@.take(i as int)) == lower_seq(b@.take(i - 1)).push(lower(b@[i - 1])));
    }
    assert(a@.take(a.len() as int) == a@);
    assert(b@.take(b.len() as int) == b@);
    true
}

/// The three outcomes of comparing two texts.
#[derive(Clone, Copy, PartialEq, Eq)]
pub enum Cmp3 {
    Less,
    Same,
    Greater,
}

proof fn lemma_lex_lt_skip(a: Seq<char>, b: Seq<char>, i: int)
    requires
        0 <= i <= a.len(),
        i <= b.len(),
        a.take(i) == b.take(i),
    ensures
        lex_lt(a, b) == lex_lt(a.skip(i), b.skip(i)),
    decreases i,
{
    if i > 0 {
        assert(a[0] == a.take(i)[0]);
        assert(b[0] == b.take(i)[0]);
        assert(a.drop_first().take(i - 1) == a.take(i).drop_first());
        assert(b.drop_first().take(i - 1) == b.take(i).drop_first());
        lemma_lex_lt_skip(a.drop_first(), b.drop_first(), i - 1);
        assert(a.drop_first().skip(i - 1) == a.skip(i));
        assert(b.drop_first().skip(i - 1) == b.skip(i));
    } else {
        assert(a.skip(0) == a);
        assert(b.skip(0) == b);
    }
}

/// Compares two texts character by character.
pub fn compare_chars(a: &[char], b: &[char]) -> (r: Cmp3)
    ensures
        r == Cmp3::Less <==> lex_lt(a@, b@),
        r == Cmp3::Greater <==> lex_lt(b@, a@),
        r == Cmp3::Same <==> a@ == b@,
{
    let mut i: usize = 0;
    while i < a.len() && i < b.len()
        invariant
            i <= a.len(),
            i <= b.len(),
            a@.take(i as int) == b@.take(i as int),
        decreases a.len() - i,
    {
        if a[i] != b[i] {
            proof {
                lemma_lex_lt_skip(a@, b@, i as int);
                lemma_lex_lt_skip(b@, a@, i as int);
                assert(a@.skip(i as int)[0] == a@[i as int]);
                assert(b@.skip(i as int)[0] == b@[i as int]);
                assert(a@[i as int] != b@[i as int]);
            }
            if a[i] < b[i] {
                return Cmp3::Less;
            } else {
                return Cmp3::Greater;
            }
        }
        i += 1;
        assert(a@.take(i as int) == a@.take(i - 1).push(a@[i - 1]));
        assert(b@.take(i as int) == b@.take(i - 1).push(b@[i - 1]));
    }
    proof {
        lemma_lex_lt_skip(a@, b@, i as int);
        lemma_lex_lt_skip(b@, a@, i as int);
        if i == a.len() {
            assert(a@.take(i as int) == a@);
        }
        if i == b.len() {
            assert(b@.take(i as int) == b@);
        }
    }
    if a.len() == b.len() {
        Cmp3::Same
    } else if a.len() < b.len() {
        Cmp3::Less
    } else {
        Cmp3::Greater
    }
}


// ---------------------------------------------------------------------------
// Strings
// ---------------------------------------------------------------------------

/// An owned copy of a text.
pub fn text(lit: &str) -> (s: String)
    ensures
        s@ == lit@,
{
    lit.to_owned()
}

/// Whether the characters are exactly the text `lit`.
pub fn text_is(v: &[char], lit: &str) -> (r: bool)
    ensures
        r == (v@ == lit@),
{
    let l = chars_of(lit);
    chars_eq(v, l.as_slice())
}

/// The characters of each string.
pub fn chars_of_strings(v: &[String]) -> (r: Vec<Vec<char>>)
    ensures
        views(r@) == string_views(v@),
{
    let mut r: Vec<Vec<char>> = Vec::new();
    let mut i: usize = 0;
    while i < v.len()
        invariant
            i <= v.len(),
            views(r@) == string_views(v@).take(i as int),
        decreases v.len() - i,
    {
        r.push(chars_of(v[i].as_str()));
        i += 1;
        assert(string_views(v@).take(i as int) == string_views(v@).take(i - 1).push(v@[i - 1]@));
    }
    assert(string_views(v@).take(v.len() as int) == string_views(v@));
    r
}

/// A string of each run of characters.
pub fn strings_of(v: &Vec<Vec<char>>) -> (r: Vec<String>)
    ensures
        string_views(r@) == views(v@),
{
    let mut r: Vec<String> = Vec::new();
    let mut i: usize = 0;
    while i < v.len()
        invariant
            i <= v.len(),
            string_views(r@) == views(v@).take(i as int),
        decreases v.len() - i,
    {
        r.push(string_of(v[i].as_slice()));
        i += 1;
        assert(views(v@).take(i as int) == views(v@).take(i - 1).push(v@[i - 1]@));
    }
    assert(views(v@).take(v.len() as int) == views(v@));
    r
}


/// Every piece that `nonempty` keeps is one of the pieces, and is not empty.
pub proof fn lemma_nonempty_elements(ws: Seq<Seq<char>>)
    ensures
        forall|k: int| 0 <= k < nonempty(ws).len() ==> (#[trigger] nonempty(ws)[k]).len() > 0,
        forall|k: int| 0 <= k < nonempty(ws).len() ==> ws.contains(#[trigger] nonempty(ws)[k]),
    decreases ws.len(),
{
    if ws.len() > 0 {
        let t = ws.drop_last();
        lemma_nonempty_elements(t);
        let n = nonempty(ws);
        let nt = nonempty(t);
        assert forall|k: int| 0 <= k < n.len() implies ws.contains(#[trigger] n[k]) by {
            if k < nt.len() {
                assert(n[k] == nt[k]);
                let m = choose|m: int| 0 <= m < t.len() && t[m] == nt[k];
                assert(ws[m] == n[k]);
            } else {
                assert(ws[ws.len() - 1] == n[k]);
            }
        }
        assert forall|k: int| 0 <= k < n.len() implies (#[trigger] n[k]).len() > 0 by {
            if k < nt.len() {
                assert(n[k] == nt[k]);
            }
        }
    }
}


/// Whether the UTF-8 encoding of the characters is longer than `limit` bytes.
pub fn utf8_longer_than(v: &[char], limit: usize) -> (r: bool)
    ensures
        r == (vstd::utf8::encode_utf8(v@).len() > limit),
{
    let mut i: usize = v.len();
    let mut count: usize = 0;
    assert(v@.skip(v.len() as int) =~= Seq::<char>::empty());
    while i > 0
        invariant
            i <= v.len(),
            count <= limit,
            count == vstd::utf8::encode_utf8(v@.skip(i as int)).len(),
        decreases i,
    {
        let c = v[i - 1];
        let u = c as u32;
        let w: usize = if u <= 0x7f {
            1
        } else if u <= 0x7ff {
            2
        } else if u <= 0xffff {
            3
        } else {
            4
        };
        proof {
            let t = v@.skip(i - 1);
            assert(t[0] == c);
            assert(t.drop_first() == v@.skip(i as int));
            vstd::utf8::char_is_scalar(c);
            assert(vstd::utf8::encode_scalar(u).len() == w);
        }
        i -= 1;
        if w > limit - count {
            proof {
                lemma_utf8_len_grows(v@, i as int);
            }
            return true;
        }
        count = count + w;
    }
    assert(v@.skip(0) == v@);
    false
}

/// Encoding more characters never gives fewer bytes.
pub proof fn lemma_utf8_len_grows(s: Seq<char>, i: int)
    requires
        0 <= i <= s.len(),
    ensures
        vstd::utf8::encode_utf8(s).len() >= vstd::utf8::encode_utf8(s.skip(i)).len(),
    decreases i,
{
    if i > 0 {
        lemma_utf8_len_grows(s.drop_first(), i - 1);
        assert(s.drop_first().skip(i - 1) == s.skip(i));
    } else {
        assert(s.skip(0) == s);
    }
}


// ---------------------------------------------------------------------------
// Numbers
// ---------------------------------------------------------------------------

/// The character of a decimal digit.
pub open spec fn digit_char(d: nat) -> char {
    ((d + 48) as u32) as char
}

/// The decimal digits of `n`, without leading zeros (as `Display` writes integers).
pub open spec fn decimal(n: nat) -> Seq<char>
    decreases n,
{
    if n < 10 {
        seq![digit_char(n)]
    } else {
        decimal(n / 10).push(digit_char(n % 10))
    }
}

/// The decimal digits of `n`.
pub fn decimal_chars(n: u64) -> (r: Vec<char>)
    ensures
        r@ == decimal(n as nat),
    decreases n,
{
    let d = (n % 10) as u8;
    let c = (d + 48) as char;
    assert(c == digit_char((n % 10) as nat));
    if n < 10 {
        let v = vec![c];
        assert(v@ == seq![c]);
        v
    } else {
        let mut v = decimal_chars(n / 10);
        v.push(c);
        v
    }
}


proof fn lemma_trim_start_first(x: Seq<char>)
    ensures
        trim_start(x).len() == 0 || !is_ws(trim_start(x)[0]),
    decreases x.len(),
{
    if x.len() > 0 && is_ws(x[0]) {
        lemma_trim_start_first(x.drop_first());
    }
}

proof fn lemma_trim_end_prefix(y: Seq<char>)
    ensures
        trim_end(y).len() <= y.len(),
        trim_end(y) == y.take(trim_end(y).len() as int),
        trim_end(y).len() == 0 || !is_ws(trim_end(y).last()),
    decreases y.len(),
{
    if y.len() > 0 && is_ws(y.last()) {
        let t = y.drop_last();
        lemma_trim_end_prefix(t);
        assert(t.take(trim_end(t).len() as int) == y.take(trim_end(t).len() as int));
    } else {
        assert(y.take(y.len() as int) == y);
    }
}

/// Upper-casing keeps whitespace and other characters apart, and lower-casing an
/// upper-cased character gives the lower case of the character.
pub proof fn lemma_upper_char(c: char)
    ensures
        is_ws(upper(c)) == is_ws(c),
        lower(upper(c)) == lower(c),
{
}

proof fn lemma_trim_start_upper(s: Seq<char>)
    ensures
        trim_start(upper_seq(s)) == upper_seq(trim_start(s)),
    decreases s.len(),
{
    if s.len() > 0 {
        lemma_upper_char(s[0]);
        assert(upper_seq(s)[0] == upper(s[0]));
        if is_ws(s[0]) {
            assert(upper_seq(s).drop_first() =~= upper_seq(s.drop_first()));
            lemma_trim_start_upper(s.drop_first());
        }
    }
}

proof fn lemma_trim_end_upper(s: Seq<char>)
    ensures
        trim_end(upper_seq(s)) == upper_seq(trim_end(s)),
    decreases s.len(),
{
    if s.len() > 0 {
        lemma_upper_char(s.last());
        assert(upper_seq(s).last() == upper(s.last()));
        if is_ws(s.last()) {
            assert(upper_seq(s).drop_last() =~= upper_seq(s.drop_last()));
            lemma_trim_end_upper(s.drop_last());
        }
    }
}

/// Upper-casing a text and then trimming and lower-casing it gives the same as
/// trimming and lower-casing the text itself.
pub proof fn lemma_trim_lower_ignores_upper(s: Seq<char>)
    ensures
        lower_seq(trim(upper_seq(s))) == lower_seq(trim(s)),
{
    lemma_trim_start_upper(s);
    lemma_trim_end_upper(trim_start(s));
    let t = trim(s);
    assert forall|i: int| 0 <= i < t.len() implies lower_seq(upper_seq(t))[i] == lower_seq(t)[i] by {
        lemma_upper_char(t[i]);
    }
    assert(lower_seq(upper_seq(t)) =~= lower_seq(t));
}

/// Trimming a trimmed text changes nothing.
pub proof fn lemma_trim_idempotent(x: Seq<char>)
    ensures
        trim(trim(x)) == trim(x),
{
    let y = trim_start(x);
    let e = trim_end(y);
    lemma_trim_start_first(x);
    lemma_trim_end_prefix(y);
    if e.len() > 0 {
        assert(e[0] == y[0]);
    }
    assert(trim_start(e) == e);
    assert(trim_end(e) == e);
}


// ---------------------------------------------------------------------------
// Facts about splitting and joining
// ---------------------------------------------------------------------------

/// The characters of the pieces of a split are characters of the text, and none is
/// a delimiter.
pub proof fn lemma_split_by_pieces(x: Seq<char>, d: Delim, p: spec_fn(char) -> bool)
    requires
        forall|i: int| 0 <= i < x.len() ==> p(#[trigger] x[i]),
    ensures
        forall|k: int, i: int|
            0 <= k < split_by(x, d).len() && 0 <= i < split_by(x, d)[k].len() ==> !is_delim(
                d,
                #[trigger] split_by(x, d)[k][i],
            ) && p(split_by(x, d)[k][i]),
    decreases x.len(),
{
    lemma_split_by_len(x, d);
    if x.len() > 0 {
        let t = x.drop_last();
        assert forall|i: int| 0 <= i < t.len() implies p(#[trigger] t[i]) by {
            assert(t[i] == x[i]);
        }
        lemma_split_by_pieces(t, d, p);
        lemma_split_by_len(t, d);
        let q = split_by(t, d);
        let r = split_by(x, d);
        assert(p(x[x.len() - 1]));
        assert forall|k: int, i: int| 0 <= k < r.len() && 0 <= i < r[k].len() implies !is_delim(
            d,
            #[trigger] r[k][i],
        ) && p(r[k][i]) by {
            if is_delim(d, x.last()) {
                if k < q.len() {
                    assert(r[k] == q[k]);
                }
            } else {
                if k < q.len() - 1 {
                    assert(r[k] == q[k]);
                } else {
                    assert(r[k] == q.last().push(x.last()));
                    if i < q.last().len() {
                        assert(r[k][i] == q[q.len() - 1][i]);
                    }
                }
            }
        }
    }
}

/// A text without delimiters is a single piece.
pub proof fn lemma_split_by_whole(w: Seq<char>, d: Delim)
    requires
        forall|i: int| 0 <= i < w.len() ==> !is_delim(d, #[trigger] w[i]),
    ensures
        split_by(w, d) == seq![w],
    decreases w.len(),
{
    if w.len() > 0 {
        let t = w.drop_last();
        assert forall|i: int| 0 <= i < t.len() implies !is_delim(d, #[trigger] t[i]) by {
            assert(t[i] == w[i]);
        }
        lemma_split_by_whole(t, d);
        assert(!is_delim(d, w[w.len() - 1]));
        assert(t.push(w.last()) == w);
    } else {
        assert(w == Seq::<char>::empty());
    }
}

/// Appending a text without delimiters extends the last piece.
pub proof fn lemma_split_by_extend(a: Seq<char>, b: Seq<char>, d: Delim)
    requires
        forall|i: int| 0 <= i < b.len() ==> !is_delim(d, #[trigger] b[i]),
    ensures
        split_by(a + b, d) == split_by(a, d).update(
            split_by(a, d).len() - 1,
            split_by(a, d).last() + b,
        ),
    decreases b.len(),
{
    lemma_split_by_len(a, d);
    if b.len() == 0 {
        assert(a + b == a);
        assert(split_by(a, d).last() + b == split_by(a, d).last());
        assert(split_by(a, d).update(split_by(a, d).len() - 1, split_by(a, d).last()) == split_by(a, d));
    } else {
        let bt = b.drop_last();
        assert forall|i: int| 0 <= i < bt.len() implies !is_delim(d, #[trigger] bt[i]) by {
            assert(bt[i] == b[i]);
        }
        lemma_split_by_extend(a, bt, d);
        assert((a + b).drop_last() == a + bt);
        assert((a + b).last() == b.last());
        assert(!is_delim(d, b[b.len() - 1]));
        let sa = split_by(a, d);
        let q = split_by(a + bt, d);
        assert(q.len() == sa.len());
        assert(q.last() == sa.last() + bt);
        assert((sa.last() + bt).push(b.last()) == sa.last() + b);
        assert(split_by(a + b, d) == q.update(q.len() - 1, q.last().push(b.last())));
        assert(q.update(q.len() - 1, q.last().push(b.last())) =~= sa.update(sa.len() - 1, sa.last() + b));
    }
}

/// Splitting the words joined by a delimiter gives the words back.
pub proof fn lemma_split_join(ws: Seq<Seq<char>>, sep: char, d: Delim)
    requires
        ws.len() >= 1,
        is_delim(d, sep),
        forall|k: int, i: int| 0 <= k < ws.len() && 0 <= i < ws[k].len() ==> !is_delim(d, #[trigger] ws[k][i]),
    ensures
        split_by(join(ws, seq![sep]), d) == ws,
    decreases ws.len(),
{
    if ws.len() == 1 {
        assert forall|i: int| 0 <= i < ws[0].len() implies !is_delim(d, #[trigger] ws[0][i]) by {}
        lemma_split_by_whole(ws[0], d);
    } else {
        let t = ws.drop_last();
        assert forall|k: int, i: int| 0 <= k < t.len() && 0 <= i < t[k].len() implies !is_delim(d, #[trigger] t[k][i]) by {
            assert(t[k] == ws[k]);
        }
        lemma_split_join(t, sep, d);
        let j = join(t, seq![sep]);
        let b = ws.last();
        assert forall|i: int| 0 <= i < b.len() implies !is_delim(d, #[trigger] b[i]) by {
            assert(b[i] == ws[ws.len() - 1][i]);
        }
        assert((j + seq![sep]).drop_last() == j);
        assert((j + seq![sep]).last() == sep);
        lemma_split_by_extend(j + seq![sep], b, d);
        assert(join(ws, seq![sep]) == (j + seq![sep]) + b);
        assert(split_by(j + seq![sep], d) == t.push(Seq::<char>::empty()));
        assert(Seq::<char>::empty() + b == b);
        assert(t.push(Seq::<char>::empty()).update(t.len() as int, b) == ws);
    }
}

/// Pieces that are all non-empty are kept as they are.
pub proof fn lemma_nonempty_all(ws: Seq<Seq<char>>)
    requires
        forall|k: int| 0 <= k < ws.len() ==> (#[trigger] ws[k]).len() > 0,
    ensures
        nonempty(ws) == ws,
    decreases ws.len(),
{
    if ws.len() > 0 {
        let t = ws.drop_last();
        assert forall|k: int| 0 <= k < t.len() implies (#[trigger] t[k]).len() > 0 by {
            assert(t[k] == ws[k]);
        }
        lemma_nonempty_all(t);
        assert(ws[ws.len() - 1].len() > 0);
        assert(t.push(ws.last()) == ws);
    }
}

/// Joined non-empty words begin with the first word's first character, end with
/// the last word's last character, and hold only characters of the words and the
/// separator.
pub proof fn lemma_join_chars(ws: Seq<Seq<char>>, sep: char, p: spec_fn(char) -> bool)
    requires
        ws.len() >= 1,
        forall|k: int| 0 <= k < ws.len() ==> (#[trigger] ws[k]).len() > 0,
        p(sep),
        forall|k: int, i: int| 0 <= k < ws.len() && 0 <= i < ws[k].len() ==> p(#[trigger] ws[k][i]),
    ensures
        join(ws, seq![sep]).len() > 0,
        join(ws, seq![sep])[0] == ws[0][0],
        join(ws, seq![sep]).last() == ws.last().last(),
        forall|i: int| 0 <= i < join(ws, seq![sep]).len() ==> p(#[trigger] join(ws, seq![sep])[i]),
    decreases ws.len(),
{
    let n = join(ws, seq![sep]);
    if ws.len() == 1 {
        assert(ws[0].len() > 0);
        assert forall|i: int| 0 <= i < n.len() implies p(#[trigger] n[i]) by {
            assert(n[i] == ws[0][i]);
        }
    } else {
        let t = ws.drop_last();
        assert forall|k: int| 0 <= k < t.len() implies (#[trigger] t[k]).len() > 0 by {
            assert(t[k] == ws[k]);
        }
        assert forall|k: int, i: int| 0 <= k < t.len() && 0 <= i < t[k].len() implies p(#[trigger] t[k][i]) by {
            assert(t[k] == ws[k]);
        }
        lemma_join_chars(t, sep, p);
        let j = join(t, seq![sep]);
        let b = ws.last();
        assert(b.len() > 0) by {
            assert(ws[ws.len() - 1].len() > 0);
        }
        assert(n == j + seq![sep] + b);
        assert(n[0] == j[0]);
        assert(t[0] == ws[0]);
        assert(n.last() == b.last());
        assert forall|i: int| 0 <= i < n.len() implies p(#[trigger] n[i]) by {
            if i < j.len() {
                assert(n[i] == j[i]);
            } else if i == j.len() {
                assert(n[i] == sep);
            } else {
                assert(n[i] == b[i - j.len() - 1]);
                assert(b[i - j.len() - 1] == ws[ws.len() - 1][i - j.len() - 1]);
            }
        }
    }
}

} // verus!
