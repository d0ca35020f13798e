use vstd::prelude::*;
use crate::query::Query;
use crate::query::QueryV;
use crate::query::ScpPath;
use crate::query::ScpPathV;
use crate::query::UrlParts;
use crate::query::UrlPartsV;
use crate::query::spec_parse;
use crate::query::url_candidate;
use crate::text::contains_char;
use crate::text::join_chars;
use crate::text::join_with;
use crate::text::lemma_index_of_first;
use crate::text::lemma_split_concat;
use crate::text::lemma_split_nosep;
use crate::text::split_chars;
use crate::text::str_eq;
use crate::text::strip_leading;
use crate::text::strip_leading_chars;
use crate::text::views;
use crate::RhqError;

verus! {

/// A canonical connection string for a remote repository: either a URL the
/// URL parser wrote out, or an SCP-style `user@host:path`.
pub struct Remote {
    url: String,
}

impl View for Remote {
    type V = Seq<char>;

    closed spec fn view(&self) -> Seq<char> {
        self.url@
    }
}

/// `user@` when the username is present, nothing when it is empty.
pub open spec fn user_prefix(u: Seq<char>) -> Seq<char> {
    if u.len() == 0 {
        Seq::<char>::empty()
    } else {
        u + seq!['@']
    }
}

/// The URL schemes the resolver canonicalizes.
pub open spec fn supported_scheme(sch: Seq<char>) -> bool {
    sch == "http"@ || sch == "https"@ || sch == "git"@ || sch == "ssh"@
}

/// What resolving a full URL returns: the `ssh` scheme is rewritten to the
/// SCP shorthand (dropping `user@` when there is no username and the
/// leading slashes of the path), every other supported scheme passes the
/// URL through unchanged, and an `ssh` URL without a host is refused.
pub open spec fn spec_resolve_url(p: UrlPartsV) -> Result<Seq<char>, RhqError> {
    if p.scheme == "ssh"@ {
        match p.host {
            Some(h) => if h.len() == 0 {
                Err(RhqError::InvalidReference)
            } else {
                Ok(user_prefix(p.username) + h + seq![':'] + strip_leading(p.path, '/'))
            },
            None => Err(RhqError::InvalidReference),
        }
    } else if supported_scheme(p.scheme) {
        Ok(p.serialization)
    } else {
        Err(RhqError::UnsupportedScheme)
    }
}

/// What resolving the SCP shorthand returns: it passes through unchanged.
pub open spec fn spec_resolve_scp(p: ScpPathV) -> Seq<char> {
    p.username + seq!['@'] + p.host + seq![':'] + p.path
}

/// When a bare path has at least two segments and the first contains a
/// dot, that first segment is taken as the host.
pub open spec fn path_has_host(segs: Seq<Seq<char>>) -> bool {
    segs.len() >= 2 && contains_char(segs[0], '.')
}

/// The URL a bare path stands for, before canonicalization.
pub open spec fn path_parts(segs: Seq<Seq<char>>, is_ssh: bool, host: Seq<char>) -> UrlPartsV {
    let h = if path_has_host(segs) {
        segs[0]
    } else {
        host
    };
    let rest = if path_has_host(segs) {
        segs.skip(1)
    } else {
        segs
    };
    let joined = join_chars(rest, "/"@);
    if is_ssh {
        UrlPartsV {
            scheme: "ssh"@,
            username: "git"@,
            host: Some(h),
            path: "/"@ + joined + ".git"@,
            serialization: "ssh://git@"@ + h + "/"@ + joined + ".git"@,
        }
    } else {
        UrlPartsV {
            scheme: "https"@,
            username: Seq::<char>::empty(),
            host: Some(h),
            path: "/"@ + joined + ".git"@,
            serialization: "https://"@ + h + "/"@ + joined + ".git"@,
        }
    }
}

/// What resolving a bare path returns: the host (given, or taken from the
/// first segment) and the joined segments, as an SSH or HTTPS remote.
pub open spec fn spec_resolve_path(segs: Seq<Seq<char>>, is_ssh: bool, host: Seq<char>)
    -> Result<Seq<char>, RhqError> {
    let h = if path_has_host(segs) {
        segs[0]
    } else {
        host
    };
    let rest = if path_has_host(segs) {
        segs.skip(1)
    } else {
        segs
    };
    if rest.len() == 0 || h.len() == 0 {
        Err(RhqError::InvalidReference)
    } else {
        spec_resolve_url(path_parts(segs, is_ssh, host))
    }
}

/// What resolving any parsed reference returns.
pub open spec fn spec_resolve_query(q: QueryV, is_ssh: bool, host: Seq<char>)
    -> Result<Seq<char>, RhqError> {
    match q {
        QueryV::Url(p) => spec_resolve_url(p),
        QueryV::Scp(p) => Ok(spec_resolve_scp(p)),
        QueryV::Path(segs) => spec_resolve_path(segs, is_ssh, host),
    }
}

/// For every bare reference `owner/name` (no slashes, colons or URL scheme
/// inside the two segments, and no dot in the owner), parsing classifies it
/// as a bare path, and resolving that path against a host yields
/// `https://{host}/{owner}/{name}.git`, or `git@{host}:{owner}/{name}.git`
/// over SSH.
pub proof fn lemma_bare_path_resolution(owner: Seq<char>, name: Seq<char>, host: Seq<char>)
    requires
        owner.len() > 0,
        name.len() > 0,
        host.len() > 0,
        !contains_char(owner, '/'),
        !contains_char(name, '/'),
        !contains_char(owner, ':'),
        !contains_char(name, ':'),
        !contains_char(owner, '.'),
    ensures
        spec_parse(owner + seq!['/'] + name) == Ok::<QueryV, RhqError>(
            QueryV::Path(seq![owner, name]),
        ),
        spec_resolve_query(QueryV::Path(seq![owner, name]), false, host) == Ok::<
            Seq<char>,
            RhqError,
        >("https://"@ + host + "/"@ + owner + "/"@ + name + ".git"@),
        spec_resolve_query(QueryV::Path(seq![owner, name]), true, host) == Ok::<
            Seq<char>,
            RhqError,
        >("git@"@ + host + ":"@ + owner + "/"@ + name + ".git"@),
{
    let raw = owner + seq!['/'] + name;
    assert(!contains_char(raw, ':')) by {
        if contains_char(raw, ':') {
            let i = choose|i: int| 0 <= i < raw.len() && raw[i] == ':';
            if i < owner.len() {
                assert(owner[i] == ':');
            } else if i == owner.len() {
                assert(raw[i] == '/');
            } else {
                assert(name[i - owner.len() - 1] == ':');
            }
        }
    }
    lemma_index_of_first(raw, ':');
    lemma_index_of_first(raw, '@');
    assert(!url_candidate(raw));
    assert(!crate::query::scp_form(raw));
    lemma_split_concat(owner, '/', name);
    lemma_split_nosep(name, '/');
    assert(split_chars(raw, '/') =~~= seq![owner, name]);
    assert(crate::query::valid_path_segments(seq![owner, name]));
    let segs = seq![owner, name];
    assert(!path_has_host(segs)) by {
        assert(segs[0] == owner);
    }
    let joined = join_chars(segs, "/"@);
    assert(segs.skip(1) =~~= seq![name]);
    assert(segs[0] == owner);
    assert(join_chars(segs.skip(1), "/"@) == segs.skip(1)[0]);
    assert(segs.skip(1)[0] == name);
    assert(joined =~= owner + "/"@ + name);
    reveal_strlit("/");
    reveal_strlit("ssh");
    reveal_strlit("https");
    reveal_strlit("git");
    reveal_strlit("git@");
    reveal_strlit("@");
    reveal_strlit(":");
    // The HTTPS form passes the built URL through unchanged.
    let ph = path_parts(segs, false, host);
    assert(("https"@).len() == 5);
    assert(("ssh"@).len() == 3);
    assert(ph.scheme != "ssh"@);
    assert(supported_scheme(ph.scheme));
    assert(ph.serialization =~= "https://"@ + host + "/"@ + owner + "/"@ + name + ".git"@);
    // The SSH form is rewritten to the SCP shorthand.
    let ps = path_parts(segs, true, host);
    assert(ps.scheme == "ssh"@);
    assert(ps.path[0] == '/');
    assert(ps.path.skip(1) =~= owner + "/"@ + name + ".git"@);
    assert(ps.path.skip(1)[0] == owner[0]);
    assert(owner[0] != '/');
    assert(strip_leading(ps.path, '/') == strip_leading(ps.path.skip(1), '/'));
    assert(strip_leading(ps.path.skip(1), '/') == ps.path.skip(1));
    assert(user_prefix("git"@) =~= "git@"@);
    assert(user_prefix(ps.username) + host + seq![':'] + strip_leading(ps.path, '/')
        =~= "git@"@ + host + ":"@ + owner + "/"@ + name + ".git"@);
}

/// Resolution is deterministic: two results of resolving the same
/// reference with the same protocol preference and default host are equal.
pub proof fn lemma_resolve_deterministic(
    q: QueryV,
    is_ssh: bool,
    host: Seq<char>,
    r1: Result<Seq<char>, RhqError>,
    r2: Result<Seq<char>, RhqError>,
)
    requires
        r1 == spec_resolve_query(q, is_ssh, host),
        r2 == spec_resolve_query(q, is_ssh, host),
    ensures
        r1 == r2,
{
}

impl Remote {
    /// Wrap an already-canonical connection string.
    pub fn new(url: String) -> (r: Remote)
        ensures
            r@ == url@,
    {
        Remote { url }
    }

    /// The connection string.
    pub fn url(&self) -> (r: &str)
        ensures
            r@ == self@,
    {
        self.url.as_str()
    }

    /// Canonicalize a full URL.
    pub fn from_url(p: &UrlParts) -> (r: Result<Remote, RhqError>)
        ensures
            match r {
                Ok(rem) => spec_resolve_url(p@) == Ok::<Seq<char>, RhqError>(rem@),
                Err(e) => spec_resolve_url(p@) == Err::<Seq<char>, RhqError>(e),
            },
    {
        if str_eq(p.scheme.as_str(), "ssh") {
            match &p.host {
                Some(h) => {
                    if h.as_str().is_empty() {
                        Err(RhqError::InvalidReference)
                    } else {
                        let mut out = String::new();
                        if !p.username.as_str().is_empty() {
                            out.append(p.username.as_str());
                            out.append("@");
                        }
                        out.append(h.as_str());
                        out.append(":");
                        let stripped = strip_leading_chars(p.path.as_str(), '/');
                        out.append(stripped.as_str());
                        proof {
                            reveal_strlit("@");
                            reveal_strlit(":");
                            assert(out@ =~= user_prefix(p@.username) + h@ + seq![':']
                                + strip_leading(p@.path, '/'));
                        }
                        Ok(Remote { url: out })
                    }
                },
                None => Err(RhqError::InvalidReference),
            }
        } else if str_eq(p.scheme.as_str(), "http") || str_eq(p.scheme.as_str(), "https")
            || str_eq(p.scheme.as_str(), "git") {
            Ok(Remote { url: p.serialization.clone() })
        } else {
            Err(RhqError::UnsupportedScheme)
        }
    }

    /// Write the SCP shorthand back out.
    pub fn from_scp(p: &ScpPath) -> (r: Remote)
        ensures
            r@ == spec_resolve_scp(p@),
    {
        let mut out = String::new();
        out.append(p.username.as_str());
        out.append("@");
        out.append(p.host.as_str());
        out.append(":");
        out.append(p.path.as_str());
        proof {
            reveal_strlit("@");
            reveal_strlit(":");
            assert(out@ =~= spec_resolve_scp(p@));
        }
        Remote { url: out }
    }

    /// Resolve a bare path against a default host.
    pub fn from_path(path: &Vec<String>, is_ssh: bool, host: &str) -> (r: Result<Remote, RhqError>)
        ensures
            match r {
                Ok(rem) => spec_resolve_path(views(path@), is_ssh, host@)
                    == Ok::<Seq<char>, RhqError>(rem@),
                Err(e) => spec_resolve_path(views(path@), is_ssh, host@)
                    == Err::<Seq<char>, RhqError>(e),
            },
    {
        let ghost segs = views(path@);
        let has_host = path.len() >= 2 && crate::text::find_char(path[0].as_str(), '.').is_some();
        proof {
            if path@.len() >= 2 {
                assert(views(path@)[0] == path@[0]@);
                lemma_index_of_first(views(path@)[0], '.');
            }
            assert(has_host == path_has_host(segs));
        }
        let mut eff_host: String = String::new();
        let mut rest: Vec<String> = Vec::new();
        if has_host {
            eff_host = path[0].clone();
            let mut i: usize = 1;
            while i < path.len()
                invariant
                    1 <= i <= path@.len(),
                    views(rest@) == views(path@).skip(1).take(i - 1),
                decreases path@.len() - i,
            {
                proof {
                    assert(views(path@).skip(1).take(i as int) =~= views(path@).skip(1).take(
                        i - 1,
                    ).push(views(path@)[i as int]));
                }
                rest.push(path[i].clone());
                i = i + 1;
            }
            proof {
                assert(views(rest@) =~= segs.skip(1));
            }
        } else {
            eff_host = String::from_str(host);
            let mut i: usize = 0;
            while i < path.len()
                invariant
                    0 <= i <= path@.len(),
                    views(rest@) == views(path@).take(i as int),
                decreases path@.len() - i,
            {
                proof {
                    assert(views(path@).take(i as int + 1) =~= views(path@).take(i as int).push(
                        views(path@)[i as int],
                    ));
                }
                rest.push(path[i].clone());
                i = i + 1;
            }
            proof {
                assert(views(rest@) =~= segs);
            }
        }
        if rest.len() == 0 || eff_host.as_str().is_empty() {
            return Err(RhqError::InvalidReference);
        }
        let joined = join_with(&rest, "/");
        let mut ser = String::new();
        let scheme: String;
        let username: String;
        if is_ssh {
            scheme = String::from_str("ssh");
            username = String::from_str("git");
            ser.append("ssh://git@");
        } else {
            scheme = String::from_str("https");
            username = String::new();
            ser.append("https://");
        }
        ser.append(eff_host.as_str());
        ser.append("/");
        ser.append(joined.as_str());
        ser.append(".git");
        let mut pth = String::new();
        pth.append("/");
        pth.append(joined.as_str());
        pth.append(".git");
        let parts = UrlParts {
            scheme,
            username,
            host: Some(eff_host),
            path: pth,
            serialization: ser,
        };
        proof {
            assert(parts@ =~= path_parts(segs, is_ssh, host@));
        }
        Self::from_url(&parts)
    }

    /// Resolve any parsed reference.
    pub fn from_query(query: &Query, is_ssh: bool, host: &str) -> (r: Result<Remote, RhqError>)
        ensures
            match r {
                Ok(rem) => spec_resolve_query(query@, is_ssh, host@)
                    == Ok::<Seq<char>, RhqError>(rem@),
                Err(e) => spec_resolve_query(query@, is_ssh, host@)
                    == Err::<Seq<char>, RhqError>(e),
            },
    {
        match query {
            Query::Url(p) => Self::from_url(p),
            Query::Scp(p) => Ok(Self::from_scp(p)),
            Query::Path(segs) => Self::from_path(segs, is_ssh, host),
        }
    }
}

} // verus!
