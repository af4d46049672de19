use vstd::prelude::*;
use crate::text::{
    append_chars, chars_eq, chars_of, decimal, decimal_chars, nonempty, nonempty_pieces, split_by,
    split_chars, string_of, string_views, text, Delim,
};

verus! {

/// The release the updater asks for.
pub const API: &'static str = "https://api.github.com/repos/2moresym/Quinn/releases/latest";

/// The archive of a release.
pub const ASSET: &'static str = "quinn-v0.1.0-beta.1-linux-x86_64.tar.gz";

/// The checksum file of the archive.
pub const CHECKSUM_ASSET: &'static str = "quinn-v0.1.0-beta.1-linux-x86_64.tar.gz.sha256";

/// An asset of a release: its name and download URL, where they are strings.
pub struct ReleaseAsset {
    pub name: Option<String>,
    pub download_url: Option<String>,
}

/// An optional string taken as an optional text.
pub open spec fn opt_view(o: Option<String>) -> Option<Seq<char>> {
    match o {
        Some(s) => Some(s@),
        None => None,
    }
}

/// The position of the first asset named `wanted`, if any.
pub open spec fn first_named(assets: Seq<ReleaseAsset>, wanted: Seq<char>) -> Option<int>
    decreases assets.len(),
{
    if assets.len() == 0 {
        None
    } else if opt_view(assets[0].name) == Some(wanted) {
        Some(0)
    } else {
        match first_named(assets.drop_first(), wanted) {
            Some(i) => Some(i + 1),
            None => None,
        }
    }
}

/// The download URL of the first asset named `wanted`; an error where the release
/// has no asset list, no such asset, or that asset has no URL.
pub open spec fn asset_url_spec(assets: Option<Seq<ReleaseAsset>>, wanted: Seq<char>) -> Result<
    Seq<char>,
    Seq<char>,
> {
    let missing = "release asset not found: "@ + wanted;
    match assets {
        None => Err(missing),
        Some(a) => match first_named(a, wanted) {
            None => Err(missing),
            Some(i) => match opt_view(a[i].download_url) {
                Some(u) => Ok(u),
                None => Err(missing),
            },
        },
    }
}

proof fn lemma_first_named_skip(a: Seq<ReleaseAsset>, wanted: Seq<char>, i: int)
    requires
        0 <= i <= a.len(),
        forall|j: int| 0 <= j < i ==> opt_view(#[trigger] a[j].name) != Some(wanted),
    ensures
        first_named(a, wanted) == match first_named(a.skip(i), wanted) {
            Some(k) => Some(k + i),
            None => None::<int>,
        },
    decreases i,
{
    if i == 0 {
        assert(a.skip(0) == a);
    } else {
        let t = a.drop_first();
        assert forall|j: int| 0 <= j < i - 1 implies opt_view(#[trigger] t[j].name) != Some(wanted) by {
            assert(t[j] == a[j + 1]);
        }
        assert(opt_view(a[0].name) != Some(wanted));
        lemma_first_named_skip(t, wanted, i - 1);
        assert(t.skip(i - 1) == a.skip(i));
    }
}

/// A result of texts as views.
pub open spec fn result_view(r: Result<String, String>) -> Result<Seq<char>, Seq<char>> {
    match r {
        Ok(u) => Ok(u@),
        Err(e) => Err(e@),
    }
}

/// The download URL of the asset named `wanted` (see `asset_url_spec`).
pub fn asset_url(assets: &Option<Vec<ReleaseAsset>>, wanted: &str) -> (r: Result<String, String>)
    ensures
        result_view(r) == asset_url_spec(
            match assets {
                Some(a) => Some(a@),
                None => None,
            },
            wanted@,
        ),
{
    let w = chars_of(wanted);
    let mut missing = chars_of("release asset not found: ");
    append_chars(&mut missing, w.as_slice());
    let list = match assets {
        None => {
            return Err(string_of(missing.as_slice()));
        },
        Some(a) => a,
    };
    let mut i: usize = 0;
    while i < list.len()
        invariant
            i <= list.len(),
            w@ == wanted@,
            missing@ == "release asset not found: "@ + wanted@,
            match assets {
                Some(a) => a@ == list@,
                None => false,
            },
            forall|j: int| 0 <= j < i ==> opt_view(#[trigger] list@[j].name) != Some(wanted@),
        decreases list.len() - i,
    {
        let named = match &list[i].name {
            Some(n) => chars_eq(chars_of(n.as_str()).as_slice(), w.as_slice()),
            None => false,
        };
        if named {
            proof {
                lemma_first_named_skip(list@, wanted@, i as int);
                assert(list@.skip(i as int)[0] == list@[i as int]);
                assert(opt_view(list@[i as int].name) == Some(wanted@));
                assert(first_named(list@.skip(i as int), wanted@) == Some(0int));
                assert(first_named(list@, wanted@) == Some(i as int));
            }
            match &list[i].download_url {
                Some(u) => {
                    let url = u.clone();
                    assert(opt_view(list@[i as int].download_url) == Some(url@));
                    assert(asset_url_spec(Some(list@), wanted@) == Ok::<Seq<char>, Seq<char>>(url@));
                    return Ok(url);
                },
                None => {
                    assert(opt_view(list@[i as int].download_url) is None);
                    let e = string_of(missing.as_slice());
                    assert(asset_url_spec(Some(list@), wanted@) == Err::<Seq<char>, Seq<char>>(e@));
                    return Err(e);
                },
            }
        }
        i += 1;
    }
    proof {
        lemma_first_named_skip(list@, wanted@, i as int);
        assert(list@.skip(i as int).len() == 0);
    }
    Err(string_of(missing.as_slice()))
}

/// The SHA-256 digest of some bytes, as lower-case hexadecimal.
pub uninterp spec fn sha256_hex_of(data: Seq<u8>) -> Seq<char>;

/// `sha2::Sha256::digest`, written with `{:x}`: the digest of `data` in lower-case
/// hexadecimal. The digest itself is left to `sha2`.
#[verifier::external_body]
fn sha256_hex(data: &[u8]) -> (r: String)
    ensures
        r@ == sha256_hex_of(data@),
{
    format!("{:x}", <sha2::Sha256 as sha2::Digest>::digest(data))
}

/// The expected digest that a checksum file gives: its first word.
pub open spec fn expected_digest(checksum: Seq<char>) -> Option<Seq<char>> {
    let words = nonempty(split_by(checksum, Delim::Whitespace));
    if words.len() == 0 {
        None
    } else {
        Some(words[0])
    }
}

/// Checks downloaded bytes against a checksum file (`<hex digest>  <name>`): an
/// error where the file has no word, or the digest differs.
pub fn verify_sha256(data: &[u8], checksum: &str) -> (r: Result<(), String>)
    ensures
        match expected_digest(checksum@) {
            None => r matches Err(e) && e@ == "checksum file is empty"@,
            Some(d) => if sha256_hex_of(data@) == d {
                r is Ok
            } else {
                r matches Err(e) && e@ == "Quinn update checksum verification failed"@
            },
        },
{
    let words = nonempty_pieces(&split_chars(chars_of(checksum).as_slice(), Delim::Whitespace));
    if words.len() == 0 {
        return Err(text("checksum file is empty"));
    }
    let actual = sha256_hex(data);
    if !chars_eq(chars_of(actual.as_str()).as_slice(), words[0].as_slice()) {
        return Err(text("Quinn update checksum verification failed"));
    }
    Ok(())
}

/// A label with its spaces turned into underscores.
pub open spec fn underscored(label: Seq<char>) -> Seq<char> {
    label.map_values(|c: char| if c == ' ' { '_' } else { c })
}

/// The progress line of a download: `progress=<label>:<percent>` where the total
/// size is known (the percentage saturating, the total taken as at least 1), else
/// `progress=<label>:<bytes done>`.
pub open spec fn progress_spec(label: Seq<char>, done: u64, total: Option<u64>) -> Seq<char> {
    let amount = match total {
        Some(t) => {
            let scaled = if done * 100 > u64::MAX { u64::MAX as int } else { done * 100 };
            let divisor = if t > 1 { t as int } else { 1 };
            scaled / divisor
        },
        None => done as int,
    };
    "progress="@ + underscored(label) + seq![':'] + decimal(amount as nat)
}

/// The progress line of a download (see `progress_spec`).
pub fn progress_line(label: &str, done: u64, total: Option<u64>) -> (r: String)
    ensures
        r@ == progress_spec(label@, done, total),
{
    let l = chars_of(label);
    let mut u: Vec<char> = Vec::new();
    let mut i: usize = 0;
    while i < l.len()
        invariant
            i <= l.len(),
            u@ == underscored(l@).take(i as int),
        decreases l.len() - i,
    {
        u.push(if l[i] == ' ' { '_' } else { l[i] });
        i += 1;
        assert(underscored(l@).take(i as int) == underscored(l@).take(i - 1).push(underscored(l@)[i - 1]));
    }
    assert(underscored(l@).take(l.len() as int) == underscored(l@));
    let amount: u64 = match total {
        Some(t) => {
            let divisor = if t > 1 { t } else { 1 };
            let scaled = match done.checked_mul(100) {
                Some(v) => v,
                None => u64::MAX,
            };
            scaled / divisor
        },
        None => done,
    };
    let mut m = chars_of("progress=");
    append_chars(&mut m, u.as_slice());
    m.push(':');
    append_chars(&mut m, decimal_chars(amount).as_slice());
    assert(m@ =~= progress_spec(label@, done, total));
    string_of(m.as_slice())
}

/// The files of a release bundle that are installed, in order.
pub open spec fn bundle_files_spec() -> Seq<Seq<char>> {
    seq!["quinn-app"@, "quinn-daemon"@, "libvosk.so"@]
}

/// The files that an update bundle holds.
pub fn bundle_files() -> (r: Vec<String>)
    ensures
        string_views(r@) == bundle_files_spec(),
{
    let mut r: Vec<String> = Vec::new();
    r.push(text("quinn-app"));
    r.push(text("quinn-daemon"));
    r.push(text("libvosk.so"));
    assert(string_views(r@) =~= bundle_files_spec());
    r
}

/// Whether an installed bundle file is made executable: all but the library.
pub fn is_executable_file(name: &str) -> (r: bool)
    ensures
        r == (name@ != "libvosk.so"@),
{
    !crate::text::text_is(chars_of(name).as_slice(), "libvosk.so")
}

} // verus!
