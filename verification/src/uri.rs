//! URIs of documents, archive entries and assets.

use percent_encoding::percent_decode_str;
use tower_lsp::lsp_types::Url;
use vstd::prelude::*;
use vstd::string::*;

use crate::names::{last_index, rsplit_once, string_from};
use crate::text::{blen, cat3, chars_of, first_char, same};

verus! {

/// URIs longer than this, in bytes, are out of range of the URI parser's
/// offsets once percent-encoded.
pub const MAX_URI_BYTES: usize = 0x1000_0000;

/// The parts of a URI that `Url::parse` makes of a text: its scheme, its path
/// and its serialization.
pub uninterp spec fn parsed_uri(uri: Seq<char>) -> Option<(Seq<char>, Seq<char>, Seq<char>)>;

/// The URI that `Url::set_path` makes of a base URI and a path.
pub uninterp spec fn uri_with_path(base: Seq<char>, path: Seq<char>) -> Option<Seq<char>>;

/// The text that `percent_decode_str` makes of a percent-encoded one.
pub uninterp spec fn percent_decoded(text: Seq<char>) -> Seq<char>;

/// What comes back on a platform, whose paths `platform` stands for, when a URI is
/// made a path by `Url::to_file_path` and a URI again by `Url::from_file_path`.
pub uninterp spec fn file_trip(uri: Seq<char>, platform: int) -> Option<Seq<char>>;

/// A parsed URI.
#[derive(Debug)]
pub struct UriParts {
    pub scheme: String,
    pub path: String,
    pub text: String,
}

/// `Url::parse`, with `Url::scheme`, `Url::path` and the serialization read off.
/// How texts are parsed is left to the name.
#[verifier::external_body]
pub(crate) fn parse_uri(uri: &str) -> (out: Option<UriParts>)
    ensures
        match out {
            Some(parts) => parsed_uri(uri@) == Some((parts.scheme@, parts.path@, parts.text@)),
            None => parsed_uri(uri@) is None,
        },
{
    Url::parse(uri).ok().map(
        |url| UriParts {
            scheme: url.scheme().to_string(),
            path: url.path().to_string(),
            text: url.to_string(),
        },
    )
}

/// A path that keeps its segments as they are in a URI: it holds no `%`, tab or
/// line break, does not start with `?` or `#`, and has no segment `.` or `..`.
pub open spec fn plain_path(path: Seq<char>) -> bool {
    &&& path.len() > 0
    &&& path[0] != '?' && path[0] != '#'
    &&& forall|i: int|
        0 <= i < path.len() ==> #[trigger] path[i] != '%' && path[i] != '\t' && path[i] != '\n'
            && path[i] != '\r'
    &&& forall|i: int| 0 <= i < path.len() ==> !#[trigger] dots_at(path, i)
}

/// A segment `.` or `..` starts at `i`.
pub open spec fn dots_at(path: Seq<char>, i: int) -> bool {
    &&& i == 0 || path[i - 1] == '/'
    &&& path[i] == '.'
    &&& i + 1 == path.len() || path[i + 1] == '/' || (path[i + 1] == '.' && (i + 2 == path.len()
        || path[i + 2] == '/'))
}

/// A path with `/` in front.
pub open spec fn rooted(path: Seq<char>) -> Seq<char> {
    if path.len() > 0 && path[0] == '/' {
        path
    } else {
        seq!['/'] + path
    }
}

/// `Url::set_path` on a parsed base, serialized. What is percent-encoded and how
/// dot segments are resolved is left to the name. Of the base `big:///` and a
/// plain path it is claimed that the result parses back, to that scheme, to
/// itself, and to a path that decodes to the one that was set.
#[verifier::external_body]
fn set_path(base: &str, path: &str) -> (out: Option<String>)
    requires
        blen(base@) <= MAX_URI_BYTES,
        blen(path@) <= MAX_URI_BYTES,
    ensures
        match out {
            Some(uri) => uri_with_path(base@, path@) == Some(uri@),
            None => uri_with_path(base@, path@) is None,
        },
        base@ == "big:///"@ && plain_path(path@) ==> out is Some && match parsed_uri(out->0@) {
            Some((scheme, encoded, text)) => scheme == "big"@ && text == out->0@
                && percent_decoded(encoded) == rooted(path@),
            None => false,
        },
{
    let mut url = Url::parse(base).ok()?;
    url.set_path(path);
    Some(url.to_string())
}

/// `percent_decode_str`, decoded lossily as UTF-8. What each sequence decodes to
/// is left to the name; without a `%` there is nothing to decode.
#[verifier::external_body]
fn percent_decode(text: &str) -> (out: String)
    ensures
        out@ == percent_decoded(text@),
        !text@.contains('%') ==> out@ == text@,
{
    percent_decode_str(text).decode_utf8_lossy().into_owned()
}

/// `Url::to_file_path` and then `Url::from_file_path`: a URI through the path that
/// it names, serialized. Paths differ between platforms, so what comes back is what
/// the name gives for the URI and some platform; which one is left open. Whatever
/// the platform, it is a `file` URI.
#[verifier::external_body]
fn file_round_trip(uri: &str) -> (out: Option<String>)
    requires
        blen(uri@) <= MAX_URI_BYTES,
    ensures
        exists|platform: int| #[trigger] file_trip(uri@, platform) == opt_text(out),
        out is Some ==> is_file_uri(out->0@),
{
    let path = Url::parse(uri).ok()?.to_file_path().ok()?;
    Url::from_file_path(path).ok().map(|url| url.to_string())
}

pub open spec fn opt_text(text: Option<String>) -> Option<Seq<char>> {
    match text {
        Some(text) => Some(text@),
        None => None,
    }
}

/// Whether a URI is one of a `file`, in the form that starts with `file://`.
pub open spec fn is_file_uri(uri: Seq<char>) -> bool {
    uri.len() >= "file://"@.len() && uri.take("file://"@.len() as int) == "file://"@
}

/// The URI that a client's URI stands for: one of a `file` that survives the
/// round trip through its path is what comes back; any other stays as it is.
pub open spec fn canonical(uri: Seq<char>, scheme: Seq<char>, trip: Option<Seq<char>>) -> Seq<
    char,
> {
    match trip {
        Some(back) => if scheme == "file"@ {
            back
        } else {
            uri
        },
        None => uri,
    }
}

/// The URI that a client's URI stands for, given what a `file` URI comes back as
/// from the round trip through its path.
pub fn canonical_of(uri: &str, scheme: &str, trip: Option<String>) -> (out: String)
    ensures
        out@ == canonical(uri@, scheme@, opt_text(trip)),
{
    match trip {
        Some(back) => {
            if same(scheme, "file") {
                back
            } else {
                uri.to_string()
            }
        },
        None => uri.to_string(),
    }
}

/// The canonical forms that a `file` URI can have: for some platform, what comes
/// back from the round trip through its path, or else the URI as the parser writes
/// it.
pub open spec fn file_form(uri: Seq<char>, text: Seq<char>, form: Seq<char>) -> bool {
    exists|platform: int|
        form == canonical(text, "file"@, #[trigger] file_trip(uri, platform)) && (file_trip(
            uri,
            platform,
        ) is Some ==> is_file_uri(form))
}

/// The URI that a client's URI stands for. Clients write the URI of one file in
/// several ways (percent-encoded colons, drive letters in lower case); the round
/// trip through the file's path leaves one. A URI of another scheme stays as the
/// URI parser writes it. `None` if it is no URI. Which platform's paths a `file`
/// goes through is not said here.
pub fn canonical_uri(uri: &str) -> (out: Option<String>)
    requires
        blen(uri@) <= MAX_URI_BYTES,
    ensures
        match parsed_uri(uri@) {
            None => out is None,
            Some((scheme, _, text)) => out is Some && if scheme == "file"@ {
                file_form(uri@, text, out->0@)
            } else {
                out->0@ == text
            },
        },
{
    match parse_uri(uri) {
        None => None,
        Some(parts) => {
            if same(&parts.scheme, "file") {
                let trip = file_round_trip(uri);
                Some(canonical_of(&parts.text, &parts.scheme, trip))
            } else {
                Some(parts.text)
            }
        },
    }
}

/// The path of an archive entry: the archive, `!/` and the entry.
pub open spec fn entry_path(archive: Seq<char>, entry: Seq<char>) -> Seq<char> {
    archive + "!/"@ + entry
}

/// A URI leads to an entry of an archive.
pub open spec fn leads_to(uri: Seq<char>, archive: Seq<char>, entry: Seq<char>) -> bool {
    match parsed_uri(uri) {
        Some((scheme, path, _)) => scheme == "big"@ && split_entry(percent_decoded(path)) == Some(
            (archive, entry),
        ),
        None => false,
    }
}

/// The URI of an archive entry. `archive` is the path of the archive with `/`
/// between its segments. The URI leads back to the archive and the entry, as long
/// as their path is a plain one and the archive's own path holds no `!/`.
pub fn big_uri(archive: &str, entry: &str) -> (out: Option<String>)
    requires
        blen(entry_path(archive@, entry@)) <= MAX_URI_BYTES,
    ensures
        match out {
            Some(uri) => uri_with_path("big:///"@, entry_path(archive@, entry@)) == Some(uri@),
            None => uri_with_path("big:///"@, entry_path(archive@, entry@)) is None,
        },
        plain_path(entry_path(archive@, entry@)) && no_bang(archive@) ==> out is Some && leads_to(
            out->0@,
            rooted(archive@),
            entry@,
        ),
{
    let path = cat3(archive, "!/", entry);
    proof {
        reveal_strlit("big:///");
        crate::text::lemma_blen_bound("big:///"@);
        lemma_short("big:///"@);
        lemma_rooted_entry(archive@, entry@);
    }
    set_path("big:///", &path)
}

proof fn lemma_rooted_entry(archive: Seq<char>, entry: Seq<char>)
    ensures
        rooted(entry_path(archive, entry)) == entry_path(rooted(archive), entry),
        no_bang(archive) ==> split_entry(entry_path(rooted(archive), entry)) == Some(
            (rooted(archive), entry),
        ),
{
    reveal_strlit("!/");
    let path = entry_path(archive, entry);
    if archive.len() > 0 {
        assert(path[0] == archive[0]);
    } else {
        assert(path[0] == '!');
    }
    assert(rooted(path) =~= entry_path(rooted(archive), entry));
    if no_bang(archive) {
        let root = rooted(archive);
        assert forall|k: int| 0 <= k < root.len() - 1 implies #[trigger] root[k] != '!' || root[k
            + 1] != '/' by {
            if root.len() > archive.len() && k > 0 {
                assert(root[k] == archive[k - 1]);
                assert(root[k + 1] == archive[k]);
            }
        }
        entry_path_splits_back(root, entry);
    }
}

proof fn lemma_short(s: Seq<char>)
    ensures
        blen(s) <= 4 * s.len(),
    decreases s.len(),
{
    if s.len() > 0 {
        lemma_short(s.drop_last());
        assert(s =~= s.drop_last() + seq![s.last()]);
        crate::text::lemma_encode_concat(s.drop_last(), seq![s.last()]);
        crate::text::lemma_blen_one(s.last());
        crate::text::lemma_clen(s.last());
    }
}

// ---------------------------------------------------------------------------
// Assets
// ---------------------------------------------------------------------------
/// Where the first `!/` of a text stands from `i` on, or its length.
pub open spec fn find_bang(s: Seq<char>, i: int) -> int
    decreases s.len() - i,
{
    if i + 1 >= s.len() {
        s.len() as int
    } else if s[i] == '!' && s[i + 1] == '/' {
        i
    } else {
        find_bang(s, i + 1)
    }
}

/// The archive and the entry that an entry's path names.
pub open spec fn split_entry(path: Seq<char>) -> Option<(Seq<char>, Seq<char>)> {
    let i = find_bang(path, 0);
    if i < path.len() {
        Some((path.take(i), path.skip(i + 2)))
    } else {
        None
    }
}

/// The path of an archive as the platform writes it: on Windows, `/` in front of
/// a drive goes.
pub open spec fn archive_path(archive: Seq<char>, windows: bool) -> Seq<char> {
    if windows && archive.len() > 2 && archive[0] == '/' && archive[2] == ':' && (archive[1] as u32)
        < 0x80 {
        archive.drop_first()
    } else {
        archive
    }
}

/// Where an asset lies.
#[derive(Debug)]
pub enum AssetPlace {
    /// In a file of its own.
    File,
    /// In an entry of an archive.
    Archive { archive: String, entry: String },
}

/// Why an asset's URI leads nowhere.
#[derive(Debug)]
pub enum AssetError {
    /// It is no URI.
    Invalid,
    /// Its scheme is neither `file` nor `big`.
    Scheme(String),
    /// It names no entry of an archive.
    NoEntry,
}

/// Where an asset lies, given the scheme of its URI and its decoded path.
pub open spec fn placed(scheme: Seq<char>, path: Seq<char>, windows: bool, place: AssetPlace) -> bool {
    match place {
        AssetPlace::File => scheme == "file"@,
        AssetPlace::Archive { archive, entry } => {
            &&& scheme == "big"@
            &&& split_entry(path) matches Some((a, e)) && archive@ == archive_path(a, windows)
                && entry@ == e
        },
    }
}

fn split_path(path: &str) -> (out: Option<(String, String)>)
    ensures
        match out {
            Some((archive, entry)) => split_entry(path@) == Some((archive@, entry@)),
            None => split_entry(path@) is None,
        },
{
    let chars = chars_of(path);
    let len = chars.len();
    let mut i: usize = 0;
    while i < len && len - i >= 2
        invariant
            i <= len,
            len == chars.len(),
            chars@ == path@,
            find_bang(path@, 0) == find_bang(path@, i as int),
        decreases len - i,
    {
        if chars[i] == '!' && chars[i + 1] == '/' {
            let archive = string_from(&chars, 0, i);
            let entry = string_from(&chars, i + 2, len);
            assert(archive@ =~= path@.take(i as int));
            assert(entry@ =~= path@.skip(i + 2));
            return Some((archive, entry));
        }
        i += 1;
    }
    None
}

fn platform_path(archive: &str, windows: bool) -> (out: String)
    ensures
        out@ == archive_path(archive@, windows),
{
    let chars = chars_of(archive);
    let len = chars.len();
    if windows && len > 2 && chars[0] == '/' && chars[2] == ':' && (chars[1] as u32) < 0x80 {
        let out = string_from(&chars, 1, len);
        assert(out@ =~= archive@.drop_first());
        out
    } else {
        archive.to_string()
    }
}

/// Where an asset lies, given the scheme of its URI and its decoded path.
pub fn place_asset(scheme: &str, path: &str, windows: bool) -> (out: Result<AssetPlace, AssetError>)
    ensures
        match out {
            Ok(place) => placed(scheme@, path@, windows, place),
            Err(AssetError::Invalid) => false,
            Err(AssetError::Scheme(named)) => named@ == scheme@ && scheme@ != "file"@ && scheme@
                != "big"@,
            Err(AssetError::NoEntry) => scheme@ == "big"@ && scheme@ != "file"@ && split_entry(
                path@,
            ) is None,
        },
{
    if same(scheme, "file") {
        return Ok(AssetPlace::File);
    }
    if !same(scheme, "big") {
        return Err(AssetError::Scheme(scheme.to_string()));
    }
    match split_path(path) {
        Some((archive, entry)) => Ok(
            AssetPlace::Archive { archive: platform_path(&archive, windows), entry },
        ),
        None => Err(AssetError::NoEntry),
    }
}

/// Where the asset of a URI lies.
pub fn locate_asset(uri: &str, windows: bool) -> (out: Result<AssetPlace, AssetError>)
    ensures
        match parsed_uri(uri@) {
            None => out matches Err(AssetError::Invalid),
            Some((scheme, path, _)) => match out {
                Ok(place) => placed(scheme, percent_decoded(path), windows, place),
                Err(AssetError::Invalid) => false,
                Err(AssetError::Scheme(named)) => named@ == scheme && scheme != "file"@ && scheme
                    != "big"@,
                Err(AssetError::NoEntry) => scheme == "big"@ && scheme != "file"@ && split_entry(
                    percent_decoded(path),
                ) is None,
            },
        },
{
    match parse_uri(uri) {
        None => Err(AssetError::Invalid),
        Some(parts) => place_asset(&parts.scheme, &percent_decode(&parts.path), windows),
    }
}

/// The last segment of a URI's path; `base` for a URI without segments.
pub open spec fn short_name(path: Seq<char>) -> Seq<char> {
    if path.len() > 0 && path[0] == '/' {
        path.skip(last_index(path, '/') + 1)
    } else {
        "base"@
    }
}

/// The last segment of a URI's path.
pub fn path_name(path: &str) -> (out: String)
    ensures
        out@ == short_name(path@),
{
    match first_char(path) {
        Some('/') => match rsplit_once(path, '/') {
            Some((_, name)) => name,
            None => {
                proof {
                    lemma_has_index(path@, '/', 0);
                }
                "base".to_string()
            },
        },
        _ => "base".to_string(),
    }
}

proof fn lemma_has_index(s: Seq<char>, c: char, i: int)
    requires
        0 <= i < s.len(),
        s[i] == c,
    ensures
        last_index(s, c) >= i,
    decreases s.len(),
{
    if s.last() != c {
        lemma_has_index(s.drop_last(), c, i);
    }
}

// ---------------------------------------------------------------------------
// Laws
// ---------------------------------------------------------------------------
/// No `!/` stands in a text.
pub open spec fn no_bang(s: Seq<char>) -> bool {
    forall|k: int| 0 <= k < s.len() - 1 ==> #[trigger] s[k] != '!' || s[k + 1] != '/'
}

proof fn lemma_bang_after(archive: Seq<char>, entry: Seq<char>, i: int)
    requires
        0 <= i <= archive.len(),
        no_bang(archive),
    ensures
        find_bang(archive + seq!['!', '/'] + entry, i) == archive.len(),
    decreases archive.len() - i,
{
    let s = archive + seq!['!', '/'] + entry;
    if i < archive.len() {
        assert(s[i] == archive[i]);
        if i + 1 < archive.len() {
            assert(s[i + 1] == archive[i + 1]);
        } else {
            assert(s[i + 1] == '!');
        }
        lemma_bang_after(archive, entry, i + 1);
    } else {
        assert(s[i] == '!' && s[i + 1] == '/');
    }
}

/// Law: the path of an archive entry names its archive and its entry, as long as
/// the archive's own path holds no `!/`.
pub proof fn entry_path_splits_back(archive: Seq<char>, entry: Seq<char>)
    requires
        no_bang(archive),
    ensures
        split_entry(entry_path(archive, entry)) == Some((archive, entry)),
{
    reveal_strlit("!/");
    let s = archive + seq!['!', '/'] + entry;
    assert("!/"@ =~= seq!['!', '/']);
    lemma_bang_after(archive, entry, 0);
    assert(s.take(archive.len() as int) =~= archive);
    assert(s.skip(archive.len() as int + 2) =~= entry);
}

/// Law: a URI that is not one of a `file` is its own canonical form.
pub proof fn other_schemes_pass_through(
    uri: Seq<char>,
    scheme: Seq<char>,
    trip: Option<Seq<char>>,
)
    requires
        scheme != "file"@,
    ensures
        canonical(uri, scheme, trip) == uri,
{
}

} // verus!
