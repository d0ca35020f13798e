use vstd::prelude::*;
use crate::text::contains_char;
use crate::text::index_of_first;
use crate::text::lemma_index_of_first;
use crate::text::split_chars;
use crate::text::split_on;
use crate::text::views;
use crate::RhqError;

verus! {

/// The components of an absolute URL, held as plain strings.
///
/// `serialization` is the whole URL as the URL parser writes it back out;
/// the other fields are its parts.
pub struct UrlParts {
    pub scheme: String,
    pub username: String,
    pub host: Option<String>,
    pub path: String,
    pub serialization: String,
}

/// The mathematical value of a `UrlParts`.
#[verifier::ext_equal]
pub struct UrlPartsV {
    pub scheme: Seq<char>,
    pub username: Seq<char>,
    pub host: Option<Seq<char>>,
    pub path: Seq<char>,
    pub serialization: Seq<char>,
}

impl View for UrlParts {
    type V = UrlPartsV;

    open spec fn view(&self) -> UrlPartsV {
        UrlPartsV {
            scheme: self.scheme@,
            username: self.username@,
            host: match self.host {
                Some(h) => Some(h@),
                None => None,
            },
            path: self.path@,
            serialization: self.serialization@,
        }
    }
}

/// The `user@host:path` shorthand for an SSH remote.
pub struct ScpPath {
    pub username: String,
    pub host: String,
    pub path: String,
}

/// The mathematical value of a `ScpPath`.
#[verifier::ext_equal]
pub struct ScpPathV {
    pub username: Seq<char>,
    pub host: Seq<char>,
    pub path: Seq<char>,
}

impl View for ScpPath {
    type V = ScpPathV;

    open spec fn view(&self) -> ScpPathV {
        ScpPathV { username: self.username@, host: self.host@, path: self.path@ }
    }
}

/// A parsed repository reference: a full URL, an SCP shorthand, or a bare
/// sequence of path segments.
pub enum Query {
    Url(UrlParts),
    Scp(ScpPath),
    Path(Vec<String>),
}

/// The mathematical value of a `Query`.
#[verifier::ext_equal]
pub enum QueryV {
    Url(UrlPartsV),
    Scp(ScpPathV),
    Path(Seq<Seq<char>>),
}

impl View for Query {
    type V = QueryV;

    open spec fn view(&self) -> QueryV {
        match self {
            Query::Url(p) => QueryV::Url(p@),
            Query::Scp(p) => QueryV::Scp(p@),
            Query::Path(segs) => QueryV::Path(views(segs@)),
        }
    }
}

pub uninterp spec fn url_accepts(s: Seq<char>) -> bool;

pub uninterp spec fn url_scheme_of(s: Seq<char>) -> Seq<char>;

pub uninterp spec fn url_username_of(s: Seq<char>) -> Seq<char>;

pub uninterp spec fn url_host_of(s: Seq<char>) -> Option<Seq<char>>;

pub uninterp spec fn url_path_of(s: Seq<char>) -> Seq<char>;

pub uninterp spec fn url_serialization_of(s: Seq<char>) -> Seq<char>;

/// Relies on `url::Url::parse` and the accessors `Url::scheme`,
/// `Url::username`, `Url::host_str`, `Url::path` and `Url::as_str`: whether a
/// string parses as an absolute URL, and every component of the parsed
/// result, depend on the string alone.
#[verifier::external_body]
fn parse_url_parts(s: &str) -> (r: Option<UrlParts>)
    ensures
        r is Some <==> url_accepts(s@),
        r matches Some(p) ==> p@.scheme == url_scheme_of(s@)
            && p@.username == url_username_of(s@)
            && p@.host == url_host_of(s@)
            && p@.path == url_path_of(s@)
            && p@.serialization == url_serialization_of(s@),
{
    match url::Url::parse(s) {
        Ok(u) => Some(UrlParts {
            scheme: u.scheme().to_string(),
            username: u.username().to_string(),
            host: u.host_str().map(|h| h.to_string()),
            path: u.path().to_string(),
            serialization: u.as_str().to_string(),
        }),
        Err(_) => None,
    }
}

/// An ASCII letter.
pub open spec fn is_alpha(c: char) -> bool {
    (('a' as u32) <= (c as u32) && (c as u32) <= ('z' as u32)) || (('A' as u32) <= (c as u32)
        && (c as u32) <= ('Z' as u32))
}

/// A character allowed in a URL scheme.
pub open spec fn is_scheme_char(c: char) -> bool {
    is_alpha(c) || (('0' as u32) <= (c as u32) && (c as u32) <= ('9' as u32)) || c == '+'
        || c == '-' || c == '.'
}

/// A string that syntactically carries an explicit URL scheme: a letter,
/// then scheme characters, up to a first `:`.
pub open spec fn url_candidate(s: Seq<char>) -> bool {
    let k = index_of_first(s, ':');
    1 <= k && is_alpha(s[0]) && (forall|j: int| 0 <= j < k ==> is_scheme_char(#[trigger] s[j]))
}

fn is_alpha_exec(c: char) -> (r: bool)
    ensures
        r == is_alpha(c),
{
    let u = c as u32;
    (97 <= u && u <= 122) || (65 <= u && u <= 90)
}

fn is_scheme_char_exec(c: char) -> (r: bool)
    ensures
        r == is_scheme_char(c),
{
    let u = c as u32;
    is_alpha_exec(c) || (48 <= u && u <= 57) || c == '+' || c == '-' || c == '.'
}

fn is_url_candidate(s: &str) -> (r: bool)
    ensures
        r == url_candidate(s@),
{
    proof {
        lemma_index_of_first(s@, ':');
    }
    match crate::text::find_char(s, ':') {
        None => false,
        Some(k) => {
            if k < 1 {
                return false;
            }
            if !is_alpha_exec(s.get_char(0)) {
                return false;
            }
            let mut j: usize = 0;
            while j < k
                invariant
                    k == index_of_first(s@, ':'),
                    1 <= k < s@.len(),
                    0 <= j <= k,
                    is_alpha(s@[0]),
                    forall|t: int| 0 <= t < j ==> is_scheme_char(#[trigger] s@[t]),
                decreases k - j,
            {
                if !is_scheme_char_exec(s.get_char(j)) {
                    return false;
                }
                j = j + 1;
            }
            true
        },
    }
}

/// The SCP shorthand grammar: a non-empty username, then `@`, then a
/// non-empty host, then the first `:`, then a non-empty path; the `@` is
/// the first one and stands before the `:`.
pub open spec fn scp_form(s: Seq<char>) -> bool {
    let a = index_of_first(s, '@');
    let c = index_of_first(s, ':');
    1 <= a && a + 1 < c && c + 1 < s.len()
}

pub open spec fn scp_username(s: Seq<char>) -> Seq<char> {
    s.take(index_of_first(s, '@'))
}

pub open spec fn scp_host(s: Seq<char>) -> Seq<char> {
    s.subrange(index_of_first(s, '@') + 1, index_of_first(s, ':'))
}

pub open spec fn scp_path(s: Seq<char>) -> Seq<char> {
    s.skip(index_of_first(s, ':') + 1)
}

/// Bare path segments are valid when there is at least one and none is
/// empty.
pub open spec fn valid_path_segments(parts: Seq<Seq<char>>) -> bool {
    parts.len() >= 1 && (forall|i: int| 0 <= i < parts.len() ==> (#[trigger] parts[i]).len() > 0)
}

/// What parsing a raw reference string returns, by the ordered precedence:
/// an explicit-scheme URL that the URL parser accepts, else the SCP
/// shorthand, else a bare path with non-empty segments.
pub open spec fn spec_parse(s: Seq<char>) -> Result<QueryV, RhqError> {
    if url_candidate(s) && url_accepts(s) {
        Ok(QueryV::Url(UrlPartsV {
            scheme: url_scheme_of(s),
            username: url_username_of(s),
            host: url_host_of(s),
            path: url_path_of(s),
            serialization: url_serialization_of(s),
        }))
    } else if scp_form(s) {
        Ok(QueryV::Scp(ScpPathV {
            username: scp_username(s),
            host: scp_host(s),
            path: scp_path(s),
        }))
    } else if valid_path_segments(split_chars(s, '/')) {
        Ok(QueryV::Path(split_chars(s, '/')))
    } else {
        Err(RhqError::InvalidReference)
    }
}

impl Query {
    /// Classify a raw reference string, with the URL form taking
    /// precedence over the SCP shorthand, and the SCP shorthand over a
    /// bare path.
    pub fn parse(s: &str) -> (r: Result<Query, RhqError>)
        ensures
            match r {
                Ok(q) => spec_parse(s@) == Ok::<QueryV, RhqError>(q@),
                Err(e) => spec_parse(s@) == Err::<QueryV, RhqError>(e),
            },
    {
        if is_url_candidate(s) {
            match parse_url_parts(s) {
                Some(p) => {
                    return Ok(Query::Url(p));
                },
                None => {},
            }
        }
        proof {
            lemma_index_of_first(s@, '@');
            lemma_index_of_first(s@, ':');
        }
        let at = crate::text::find_char(s, '@');
        let colon = crate::text::find_char(s, ':');
        if let (Some(a), Some(c)) = (at, colon) {
            let n = s.unicode_len();
            if 1 <= a && a + 1 < c && c + 1 < n {
                let username = s.substring_char(0, a).to_owned();
                let host = s.substring_char(a + 1, c).to_owned();
                let path = s.substring_char(c + 1, n).to_owned();
                return Ok(Query::Scp(ScpPath { username, host, path }));
            }
        }
        proof {
            assert(!(url_candidate(s@) && url_accepts(s@)));
            assert(!scp_form(s@));
        }
        let parts = split_on(s, '/');
        let mut i: usize = 0;
        while i < parts.len()
            invariant
                views(parts@) == split_chars(s@, '/'),
                !(url_candidate(s@) && url_accepts(s@)),
                !scp_form(s@),
                0 <= i <= parts.len(),
                forall|t: int| 0 <= t < i ==> (#[trigger] views(parts@)[t]).len() > 0,
            decreases parts.len() - i,
        {
            if parts[i].as_str().is_empty() {
                proof {
                    assert(views(parts@)[i as int] == parts@[i as int]@);
                    assert(!valid_path_segments(split_chars(s@, '/')));
                }
                return Err(RhqError::InvalidReference);
            }
            i = i + 1;
        }
        Ok(Query::Path(parts))
    }
}

} // verus!
