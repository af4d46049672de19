use vstd::prelude::*;
use crate::text::{
    chars_of, is_whitespace, is_ws, lemma_trim_idempotent, lemma_trim_start_skip, lower,
    lower_seq, string_of, string_views, to_lower, trim, trim_chars, trim_start, views,
};

verus! {

/// `" and "`, the first marker that ends a command.
pub open spec fn and_marker() -> Seq<char> {
    seq![' ', 'a', 'n', 'd', ' ']
}

/// `" then "`, the second marker that ends a command.
pub open spec fn then_marker() -> Seq<char> {
    seq![' ', 't', 'h', 'e', 'n', ' ']
}

/// The length of the marker that `s` begins with (ASCII case ignored), or 0.
pub open spec fn marker_len(s: Seq<char>) -> int {
    if s.len() >= 5 && lower_seq(s.take(5)) == and_marker() {
        5
    } else if s.len() >= 6 && lower_seq(s.take(6)) == then_marker() {
        6
    } else {
        0
    }
}

/// The finished fragments after the current one is closed: it is kept, trimmed,
/// unless it is blank.
pub open spec fn flush(out: Seq<Seq<char>>, cur: Seq<char>) -> Seq<Seq<char>> {
    if trim(cur).len() > 0 {
        out.push(trim(cur))
    } else {
        out
    }
}

/// Dropping leading whitespace never makes a text longer.
pub proof fn lemma_trim_start_len(s: Seq<char>)
    ensures
        trim_start(s).len() <= s.len(),
    decreases s.len(),
{
    if s.len() > 0 && is_ws(s[0]) {
        lemma_trim_start_len(s.drop_first());
    }
}

/// The fragments of the rest `s` of an utterance, given the quote that is open,
/// the fragment read so far and the fragments finished before.
///
/// Outside quotes, `'+'` and `','` end a fragment, and so does a marker
/// (`" and "`, `" then "`), after which whitespace is skipped. A `'` or `"` opens
/// a quote that the same character closes; inside it nothing ends a fragment.
pub open spec fn scan(s: Seq<char>, quote: Option<char>, cur: Seq<char>, out: Seq<Seq<char>>) -> Seq<
    Seq<char>,
>
    decreases s.len(),
{
    if s.len() == 0 {
        flush(out, cur)
    } else {
        match quote {
            Some(q) => scan(
                s.drop_first(),
                if s[0] == q {
                    None
                } else {
                    Some(q)
                },
                cur.push(s[0]),
                out,
            ),
            None => if s[0] == '\'' || s[0] == '"' {
                scan(s.drop_first(), Some(s[0]), cur.push(s[0]), out)
            } else if s[0] == '+' || s[0] == ',' {
                scan(s.drop_first(), None, Seq::<char>::empty(), flush(out, cur))
            } else if marker_len(s) > 0 {
                proof {
                    lemma_trim_start_len(s.skip(marker_len(s)));
                }
                scan(trim_start(s.skip(marker_len(s))), None, Seq::<char>::empty(), flush(out, cur))
            } else {
                scan(s.drop_first(), None, cur.push(s[0]), out)
            },
        }
    }
}

/// What `split_utterance` returns: the fragments, or, where there are none, the
/// whole input trimmed.
pub open spec fn split_spec(s: Seq<char>) -> Seq<Seq<char>> {
    let out = scan(s, None, Seq::<char>::empty(), Seq::<Seq<char>>::empty());
    if out.len() == 0 {
        seq![trim(s)]
    } else {
        out
    }
}

/// Whether `s[at..]` begins with `p`, ignoring ASCII case in `s`.
fn lower_matches_at(s: &[char], at: usize, p: &[char]) -> (r: bool)
    requires
        at <= s.len(),
    ensures
        r == (at + p.len() <= s.len() && lower_seq(s@.subrange(at as int, at + p.len())) == p@),
{
    if p.len() > s.len() - at {
        return false;
    }
    let ghost w = s@.subrange(at as int, at + p.len());
    let mut i: usize = 0;
    while i < p.len()
        invariant
            at + p.len() <= s.len(),
            w == s@.subrange(at as int, at + p.len()),
            i <= p.len(),
            lower_seq(w).take(i as int) == p@.take(i as int),
        decreases p.len() - i,
    {
        if to_lower(s[at + i]) != p[i] {
            assert(lower_seq(w)[i as int] == lower(s@[at + i]));
            return false;
        }
        i += 1;
        assert(lower_seq(w).take(i as int) == lower_seq(w).take(i - 1).push(lower_seq(w)[i - 1]));
        assert(p@.take(i as int) == p@.take(i - 1).push(p@[i - 1]));
    }
    assert(lower_seq(w).take(p.len() as int) == lower_seq(w));
    assert(p@.take(p.len() as int) == p@);
    true
}

/// The marker length at `v[i..]`.
fn marker_at(v: &[char], i: usize) -> (m: usize)
    requires
        i <= v.len(),
    ensures
        m == marker_len(v@.skip(i as int)),
{
    let and_m = vec![' ', 'a', 'n', 'd', ' '];
    let then_m = vec![' ', 't', 'h', 'e', 'n', ' '];
    assert(and_m@ == and_marker());
    assert(then_m@ == then_marker());
    let ghost s = v@.skip(i as int);
    if lower_matches_at(v, i, and_m.as_slice()) {
        assert(s.take(5) == v@.subrange(i as int, i + 5));
        5
    } else if lower_matches_at(v, i, then_m.as_slice()) {
        assert(s.take(6) == v@.subrange(i as int, i + 6));
        assert(!(s.len() >= 5 && lower_seq(s.take(5)) == and_marker())) by {
            if s.len() >= 5 {
                assert(s.take(5) == v@.subrange(i as int, i + 5));
            }
        }
        6
    } else {
        proof {
            if s.len() >= 5 {
                assert(s.take(5) == v@.subrange(i as int, i + 5));
            }
            if s.len() >= 6 {
                assert(s.take(6) == v@.subrange(i as int, i + 6));
            }
        }
        0
    }
}

/// Closes the current fragment: keeps it, trimmed, unless blank, and empties it.
fn push_fragment(out: &mut Vec<Vec<char>>, current: &mut Vec<char>)
    ensures
        views(final(out)@) == flush(views(old(out)@), old(current)@),
        final(current)@ == Seq::<char>::empty(),
{
    let fragment = trim_chars(current.as_slice());
    if fragment.len() > 0 {
        out.push(fragment);
        assert(views(out@) == views(old(out)@).push(trim(old(current)@)));
    }
    *current = Vec::new();
}

/// Split a short command sentence into independent model requests.
///
/// Only command separators are handled, not natural language: `'+'`, `','`, and
/// the words `and` and `then` between spaces, outside quotes. Each fragment is
/// trimmed and blank ones are dropped; where nothing is left, the result is the
/// whole input trimmed.
pub fn split_utterance(input: &str) -> (r: Vec<String>)
    ensures
        string_views(r@) == split_spec(input@),
{
    let v = chars_of(input);
    let mut out: Vec<Vec<char>> = Vec::new();
    let mut current: Vec<char> = Vec::new();
    let mut quote: Option<char> = None;
    let mut i: usize = 0;
    let ghost total = scan(v@, None, Seq::<char>::empty(), Seq::<Seq<char>>::empty());
    assert(v@.skip(0) == v@);
    assert(views(out@) =~= Seq::<Seq<char>>::empty());
    assert(current@ =~= Seq::<char>::empty());
    while i < v.len()
        invariant
            i <= v.len(),
            v@ == input@,
            scan(v@.skip(i as int), quote, current@, views(out@)) == total,
        decreases v.len() - i,
    {
        let ghost rest = v@.skip(i as int);
        let ch = v[i];
        assert(rest[0] == ch);
        assert(rest.drop_first() == v@.skip(i + 1));
        match quote {
            Some(q) => {
                current.push(ch);
                if ch == q {
                    quote = None;
                }
                i += 1;
            },
            None => {
                if ch == '\'' || ch == '"' {
                    quote = Some(ch);
                    current.push(ch);
                    i += 1;
                } else if ch == '+' || ch == ',' {
                    push_fragment(&mut out, &mut current);
                    i += 1;
                } else {
                    let m = marker_at(v.as_slice(), i);
                    if m > 0 {
                        push_fragment(&mut out, &mut current);
                        let mut j = i + m;
                        while j < v.len() && is_whitespace(v[j])
                            invariant
                                i + m <= j <= v.len(),
                                forall|k: int| i + m <= k < j ==> is_ws(#[trigger] v@[k]),
                            decreases v.len() - j,
                        {
                            j += 1;
                        }
                        proof {
                            let t = rest.skip(m as int);
                            assert(t == v@.skip(i + m));
                            assert forall|k: int| 0 <= k < j - (i + m) implies is_ws(#[trigger] t[k]) by {
                                assert(t[k] == v@[k + i + m]);
                            }
                            if j < v.len() {
                                assert(t[j - (i + m)] == v@[j as int]);
                            }
                            lemma_trim_start_skip(t, j - (i + m));
                            assert(t.skip(j - (i + m)) == v@.skip(j as int));
                        }
                        i = j;
                    } else {
                        current.push(ch);
                        i += 1;
                    }
                }
            },
        }
    }
    push_fragment(&mut out, &mut current);
    assert(v@.skip(v.len() as int) == Seq::<char>::empty());
    if out.len() == 0 {
        let t = trim_chars(v.as_slice());
        let mut r: Vec<String> = Vec::new();
        r.push(string_of(t.as_slice()));
        assert(string_views(r@) == seq![trim(input@)]);
        r
    } else {
        let mut r: Vec<String> = Vec::new();
        let mut k: usize = 0;
        while k < out.len()
            invariant
                k <= out.len(),
                views(out@) == total,
                string_views(r@) == total.take(k as int),
            decreases out.len() - k,
        {
            r.push(string_of(out[k].as_slice()));
            k += 1;
            assert(total.take(k as int) == total.take(k - 1).push(total[k - 1]));
        }
        assert(total.take(out.len() as int) == total);
        r
    }
}


// ---------------------------------------------------------------------------
// Laws
// ---------------------------------------------------------------------------

/// Fragments that are all non-empty and trimmed.
pub open spec fn clean(fs: Seq<Seq<char>>) -> bool {
    forall|k: int| 0 <= k < fs.len() ==> (#[trigger] fs[k]).len() > 0 && trim(fs[k]) == fs[k]
}

proof fn lemma_flush_clean(out: Seq<Seq<char>>, cur: Seq<char>)
    requires
        clean(out),
    ensures
        clean(flush(out, cur)),
{
    lemma_trim_idempotent(cur);
    let f = flush(out, cur);
    assert forall|k: int| 0 <= k < f.len() implies (#[trigger] f[k]).len() > 0 && trim(f[k]) == f[k] by {
        if k < out.len() {
            assert(f[k] == out[k]);
        }
    }
}

proof fn lemma_scan_clean(s: Seq<char>, quote: Option<char>, cur: Seq<char>, out: Seq<Seq<char>>)
    requires
        clean(out),
    ensures
        clean(scan(s, quote, cur, out)),
    decreases s.len(),
{
    if s.len() == 0 {
        lemma_flush_clean(out, cur);
    } else {
        match quote {
            Some(q) => {
                lemma_scan_clean(
                    s.drop_first(),
                    if s[0] == q {
                        None
                    } else {
                        Some(q)
                    },
                    cur.push(s[0]),
                    out,
                );
            },
            None => {
                if s[0] == '\'' || s[0] == '"' {
                    lemma_scan_clean(s.drop_first(), Some(s[0]), cur.push(s[0]), out);
                } else if s[0] == '+' || s[0] == ',' {
                    lemma_flush_clean(out, cur);
                    lemma_scan_clean(s.drop_first(), None, Seq::<char>::empty(), flush(out, cur));
                } else if marker_len(s) > 0 {
                    lemma_flush_clean(out, cur);
                    lemma_trim_start_len(s.skip(marker_len(s)));
                    lemma_scan_clean(
                        trim_start(s.skip(marker_len(s))),
                        None,
                        Seq::<char>::empty(),
                        flush(out, cur),
                    );
                } else {
                    lemma_scan_clean(s.drop_first(), None, cur.push(s[0]), out);
                }
            },
        }
    }
}

/// `split_utterance` always gives at least one fragment, each trimmed; and each is
/// non-empty unless the whole (blank or separator-only) input came back trimmed.
pub proof fn lemma_split_fragments_trimmed(s: Seq<char>)
    ensures
        split_spec(s).len() >= 1,
        forall|k: int| 0 <= k < split_spec(s).len() ==> trim(#[trigger] split_spec(s)[k]) == split_spec(s)[k],
        clean(split_spec(s)) || split_spec(s) == seq![trim(s)],
{
    lemma_scan_clean(s, None, Seq::<char>::empty(), Seq::<Seq<char>>::empty());
    lemma_trim_idempotent(s);
    let r = split_spec(s);
    assert forall|k: int| 0 <= k < r.len() implies trim(#[trigger] r[k]) == r[k] by {
        if scan(s, None, Seq::<char>::empty(), Seq::<Seq<char>>::empty()).len() == 0 {
            assert(r[k] == trim(s));
        }
    }
}

/// No separator in `s` at or after `i`: no `+`, `,`, quote, or marker.
pub open spec fn no_separator_from(s: Seq<char>, i: int) -> bool {
    forall|j: int|
        i <= j < s.len() ==> #[trigger] s[j] != '+' && s[j] != ',' && s[j] != '\'' && s[j] != '"'
            && marker_len(s.skip(j)) == 0
}

proof fn lemma_scan_no_separator(s: Seq<char>, i: int)
    requires
        0 <= i <= s.len(),
        no_separator_from(s, i),
    ensures
        scan(s.skip(i), None, s.take(i), Seq::<Seq<char>>::empty()) == flush(
            Seq::<Seq<char>>::empty(),
            s,
        ),
    decreases s.len() - i,
{
    if i == s.len() {
        assert(s.take(i) == s);
        assert(s.skip(i).len() == 0);
    } else {
        let r = s.skip(i);
        assert(r[0] == s[i]);
        assert(r.drop_first() == s.skip(i + 1));
        assert(s.take(i).push(s[i]) == s.take(i + 1));
        assert(s[i] != '+' && s[i] != ',' && s[i] != '\'' && s[i] != '"' && marker_len(s.skip(i)) == 0);
        lemma_scan_no_separator(s, i + 1);
    }
}

/// An utterance without separators (no `+`, `,`, quote, `and` or `then` between
/// spaces) is one command: the whole utterance, trimmed.
pub proof fn lemma_no_separator_one_command(s: Seq<char>)
    requires
        no_separator_from(s, 0),
    ensures
        split_spec(s) == seq![trim(s)],
{
    lemma_scan_no_separator(s, 0);
    assert(s.skip(0) == s);
    assert(s.take(0) == Seq::<char>::empty());
}


/// An open quote runs to the next occurrence of the same quote character: every
/// character before it joins the fragment as it is, other quote characters,
/// separators and markers included, and after it the text is read outside quotes.
/// So in `open "Bob's Burgers" and terminal` the apostrophe neither closes nor
/// opens a quote, and the `and` after the closing `"` still splits.
pub proof fn lemma_quote_closed_by_same_char(
    x: Seq<char>,
    q: char,
    rest: Seq<char>,
    cur: Seq<char>,
    out: Seq<Seq<char>>,
)
    requires
        forall|i: int| 0 <= i < x.len() ==> #[trigger] x[i] != q,
    ensures
        scan(x + seq![q] + rest, Some(q), cur, out) == scan(rest, None, cur + x + seq![q], out),
    decreases x.len(),
{
    let s = x + seq![q] + rest;
    if x.len() == 0 {
        assert(s.drop_first() =~= rest);
        assert(cur.push(q) =~= cur + x + seq![q]);
    } else {
        assert(s[0] == x[0]);
        let x2 = x.drop_first();
        assert forall|i: int| 0 <= i < x2.len() implies #[trigger] x2[i] != q by {
            assert(x2[i] == x[i + 1]);
        }
        assert(s.drop_first() =~= x2 + seq![q] + rest);
        lemma_quote_closed_by_same_char(x2, q, rest, cur.push(x[0]), out);
        assert(cur.push(x[0]) + x2 + seq![q] =~= cur + x + seq![q]);
    }
}


/// A quoted span outside quotes, from a `'` or `"` to the next same character,
/// joins the fragment whole, whatever it holds in between.
pub proof fn lemma_quoted_span_kept(
    q: char,
    x: Seq<char>,
    rest: Seq<char>,
    cur: Seq<char>,
    out: Seq<Seq<char>>,
)
    requires
        q == '\'' || q == '"',
        forall|i: int| 0 <= i < x.len() ==> #[trigger] x[i] != q,
    ensures
        scan(seq![q] + x + seq![q] + rest, None, cur, out) == scan(rest, None, cur.push(q) + x + seq![q], out),
{
    let s = seq![q] + x + seq![q] + rest;
    assert(s[0] == q);
    assert(s.drop_first() =~= x + seq![q] + rest);
    lemma_quote_closed_by_same_char(x, q, rest, cur.push(q), out);
}

/// Outside quotes, a `+` or `,` ends the fragment read so far.
pub proof fn lemma_separator_ends_fragment(c: char, rest: Seq<char>, cur: Seq<char>, out: Seq<Seq<char>>)
    requires
        c == '+' || c == ',',
    ensures
        scan(seq![c] + rest, None, cur, out) == scan(rest, None, Seq::<char>::empty(), flush(out, cur)),
{
    let s = seq![c] + rest;
    assert(s[0] == c);
    assert(s.drop_first() =~= rest);
}

/// Outside quotes, ` and ` or ` then ` (in any ASCII case) ends the fragment read
/// so far, and the whitespace after it is skipped.
pub proof fn lemma_marker_ends_fragment(m: Seq<char>, rest: Seq<char>, cur: Seq<char>, out: Seq<Seq<char>>)
    requires
        lower_seq(m) == and_marker() || lower_seq(m) == then_marker(),
    ensures
        scan(m + rest, None, cur, out) == scan(trim_start(rest), None, Seq::<char>::empty(), flush(out, cur)),
{
    let s = m + rest;
    assert(lower_seq(m).len() == m.len());
    assert(m.len() >= 5);
    assert(lower_seq(m)[0] == lower(m[0]));
    assert(m[0] == ' ');
    assert(s[0] == m[0]);
    if lower_seq(m) == and_marker() {
        assert(s.take(5) =~= m);
        assert(marker_len(s) == 5);
    } else {
        assert(lower_seq(m)[1] == 't');
        assert(lower_seq(s.take(5))[1] == lower(m[1]));
        assert(s.take(6) =~= m);
        assert(marker_len(s) == 6);
    }
    assert(s.skip(marker_len(s)) =~= rest);
}

} // verus!
