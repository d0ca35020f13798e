use rhq::ops::{ListFormat, Vcs};
use rhq::query::{Query, UrlParts};
use rhq::remote::Remote;
use rhq::RhqError;

#[test]
fn path_https() {
    let s = "ubnt-intrepid/rhq";
    let query = Query::parse(s).unwrap();
    let remote = Remote::from_query(&query, false, "github.com").unwrap();
    assert_eq!(remote.url(), "https://github.com/ubnt-intrepid/rhq.git");
}

#[test]
fn path_scp() {
    let s = "ubnt-intrepid/rhq";
    let query = Query::parse(s).unwrap();
    let remote = Remote::from_query(&query, true, "github.com").unwrap();
    assert_eq!(remote.url(), "git@github.com:ubnt-intrepid/rhq.git");
}

#[test]
fn resolve_is_deterministic() {
    let query = Query::parse("ubnt-intrepid/rhq").unwrap();
    let first = Remote::from_query(&query, false, "github.com").unwrap();
    let second = Remote::from_query(&query, false, "github.com").unwrap();
    assert_eq!(first.url(), second.url());
}

#[test]
fn url_reference_passes_through() {
    let query = Query::parse("https://github.com/ubnt-intrepid/rhq.git").unwrap();
    assert!(matches!(query, Query::Url(_)));
    let remote = Remote::from_query(&query, false, "example.org").unwrap();
    assert_eq!(remote.url(), "https://github.com/ubnt-intrepid/rhq.git");
}

#[test]
fn ssh_url_rewritten_to_scp_form() {
    let query = Query::parse("ssh://git@github.com/foo/bar.git").unwrap();
    let remote = Remote::from_query(&query, false, "example.org").unwrap();
    assert_eq!(remote.url(), "git@github.com:foo/bar.git");
}

#[test]
fn scp_reference_passes_through() {
    let query = Query::parse("git@github.com:foo/bar.git").unwrap();
    assert!(matches!(query, Query::Scp(_)));
    let remote = Remote::from_query(&query, true, "example.org").unwrap();
    assert_eq!(remote.url(), "git@github.com:foo/bar.git");
}

#[test]
fn host_prefix_in_bare_path_wins_over_default() {
    let query = Query::parse("gitlab.com/a/b").unwrap();
    let remote = Remote::from_query(&query, false, "github.com").unwrap();
    assert_eq!(remote.url(), "https://gitlab.com/a/b.git");
}

#[test]
fn single_segment_uses_default_host() {
    let query = Query::parse("rhq").unwrap();
    let remote = Remote::from_query(&query, false, "github.com").unwrap();
    assert_eq!(remote.url(), "https://github.com/rhq.git");
}

#[test]
fn empty_reference_is_invalid() {
    assert!(matches!(Query::parse(""), Err(RhqError::InvalidReference)));
}

#[test]
fn empty_segment_is_invalid() {
    assert!(matches!(Query::parse("a//b"), Err(RhqError::InvalidReference)));
}

#[test]
fn unsupported_scheme_is_refused() {
    let query = Query::parse("ftp://example.com/thing").unwrap();
    assert!(matches!(query, Query::Url(_)));
    let r = Remote::from_query(&query, false, "github.com");
    assert!(matches!(r, Err(RhqError::UnsupportedScheme)));
}

#[test]
fn ssh_url_without_host_is_invalid() {
    let parts = UrlParts {
        scheme: String::from("ssh"),
        username: String::from("git"),
        host: None,
        path: String::from("/x"),
        serialization: String::from("ssh:/x"),
    };
    assert!(matches!(Remote::from_url(&parts), Err(RhqError::InvalidReference)));
}

#[test]
fn ssh_rewrite_strips_leading_slashes_and_empty_user() {
    let parts = UrlParts {
        scheme: String::from("ssh"),
        username: String::new(),
        host: Some(String::from("host.example")),
        path: String::from("//deep/path"),
        serialization: String::from("ssh://host.example//deep/path"),
    };
    let remote = Remote::from_url(&parts).unwrap();
    assert_eq!(remote.url(), "host.example:deep/path");
}

#[test]
fn remote_new_keeps_its_url() {
    let remote = Remote::new(String::from("https://github.com/a/b.git"));
    assert_eq!(remote.url(), "https://github.com/a/b.git");
}

#[test]
fn list_format_spellings() {
    assert_eq!(ListFormat::from_str("name"), Ok(ListFormat::Name));
    assert_eq!(ListFormat::from_str("fullpath"), Ok(ListFormat::FullPath));
    assert_eq!(ListFormat::from_str("other"), Err(()));
}

#[test]
fn vcs_spellings() {
    assert_eq!(Vcs::from_str("git"), Ok(Vcs::Git));
    assert_eq!(Vcs::from_str("hg"), Ok(Vcs::Hg));
    assert_eq!(Vcs::from_str("darcs"), Ok(Vcs::Darcs));
    assert_eq!(Vcs::from_str("pijul"), Ok(Vcs::Pijul));
    assert_eq!(Vcs::from_str("svn"), Err(()));
}

#[test]
fn upstream_name_strips_branch() {
    assert_eq!(rhq::workspace::upstream_remote_name("origin/main", "main"), "origin");
    assert_eq!(rhq::workspace::upstream_remote_name("origin", "main"), "origin");
}

#[test]
fn single_dotted_segment_keeps_default_host() {
    let query = Query::parse("foo.bar").unwrap();
    let remote = Remote::from_query(&query, false, "github.com").unwrap();
    assert_eq!(remote.url(), "https://github.com/foo.bar.git");
}

#[test]
fn host_prefix_with_ssh_gives_scp_form() {
    let query = Query::parse("gitlab.com/a/b").unwrap();
    let remote = Remote::from_query(&query, true, "github.com").unwrap();
    assert_eq!(remote.url(), "git@gitlab.com:a/b.git");
}
