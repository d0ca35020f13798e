use vstd::prelude::*;
use crate::RhqError;
use crate::cache::save_registry;
use crate::cache::spec_save;
use crate::fspath::canonicalize_path;
use crate::fspath::spec_canon;
use crate::fspath::spec_leaf;
use crate::query::Query;
use crate::query::QueryV;
use crate::registry::Registry;
use crate::registry::RepoV;
use crate::registry::Repository;
use crate::registry::has_path;
use crate::registry::spec_add;
use crate::registry::spec_drop;
use crate::registry::spec_import;
use crate::registry::sorted_by_path;
use crate::remote::path_has_host;
use crate::text::join_chars;
use crate::text::join_with;
use crate::text::str_eq;
use crate::text::views;

verus! {

/// Read-only settings an invocation runs under.
pub struct Config {
    pub default_host: String,
    pub default_use_ssh: bool,
    pub include_dirs: Vec<String>,
    pub exclude_patterns: Vec<String>,
    pub root_dir: String,
}

/// The record a path canonicalized against a base becomes.
pub open spec fn canon_repo(base: Seq<char>, path: Seq<char>) -> RepoV {
    RepoV { path: spec_canon(base, path), name: spec_leaf(base, path), remote: None }
}

/// The records a batch of scanned paths becomes.
pub open spec fn canon_repos(base: Seq<char>, paths: Seq<Seq<char>>) -> Seq<RepoV> {
    paths.map_values(|p: Seq<char>| canon_repo(base, p))
}

/// `s` with a final `.git` removed, when it carries one.
pub open spec fn strip_git(s: Seq<char>) -> Seq<char> {
    if s.len() >= 4 && s.skip(s.len() - 4) == ".git"@ {
        s.take(s.len() - 4)
    } else {
        s
    }
}

/// The local destination a reference is cloned to, under a root: the
/// host, then the reference's path with any `.git` suffix removed.
pub open spec fn spec_dest(q: QueryV, root: Seq<char>, default_host: Seq<char>) -> Result<
    Seq<char>,
    RhqError,
> {
    match q {
        QueryV::Url(p) => match p.host {
            Some(h) => if h.len() == 0 {
                Err(RhqError::InvalidReference)
            } else {
                Ok(root + seq!['/'] + h + strip_git(p.path))
            },
            None => Err(RhqError::InvalidReference),
        },
        QueryV::Scp(p) => Ok(root + seq!['/'] + p.host + seq!['/'] + strip_git(p.path)),
        QueryV::Path(segs) => {
            let h = if path_has_host(segs) {
                segs[0]
            } else {
                default_host
            };
            let rest = if path_has_host(segs) {
                segs.skip(1)
            } else {
                segs
            };
            if rest.len() == 0 || h.len() == 0 {
                Err(RhqError::InvalidReference)
            } else {
                Ok(root + seq!['/'] + h + seq!['/'] + join_chars(rest, "/"@))
            }
        },
    }
}

fn strip_git_exec(s: &str) -> (r: String)
    ensures
        r@ == strip_git(s@),
{
    let n = s.unicode_len();
    if n >= 4 {
        let tail = s.substring_char(n - 4, n);
        proof {
            assert(s@.subrange(n as int - 4, n as int) =~= s@.skip(n as int - 4));
        }
        if str_eq(tail, ".git") {
            let r = s.substring_char(0, n - 4).to_owned();
            proof {
                assert(s@.subrange(0, n as int - 4) =~= s@.take(n as int - 4));
            }
            return r;
        }
    }
    s.to_owned()
}

/// The façade composing the registry, the configuration, the resolver,
/// and the version-control collaborator the caller drives.
pub struct Workspace {
    pub registry: Registry,
    pub config: Config,
    pub verbose: bool,
}

impl Workspace {
    /// A workspace over an already loaded registry.
    pub fn from_parts(config: Config, registry: Registry) -> (w: Workspace)
        requires
            registry.wf(),
        ensures
            w.registry@ == registry@,
            w.registry.wf(),
            w.config == config,
            w.verbose == false,
    {
        Workspace { registry, config, verbose: false }
    }

    /// Choose verbose reporting.
    pub fn verbose_output(self, verbose: bool) -> (w: Workspace)
        ensures
            w.registry == self.registry,
            w.config == self.config,
            w.verbose == verbose,
    {
        Workspace { registry: self.registry, config: self.config, verbose }
    }

    /// The host a bare reference resolves against.
    pub fn default_host(&self) -> (r: &str)
        ensures
            r@ == self.config.default_host@,
    {
        self.config.default_host.as_str()
    }

    /// Change the root new clones go under.
    pub fn set_root_dir(&mut self, root: String)
        ensures
            final(self).config.root_dir@ == root@,
            final(self).registry == old(self).registry,
    {
        self.config.root_dir = root;
    }

    /// Track the repository at `path` (resolved against `cwd`) if the
    /// version-control collaborator recognized one there; refuse it with
    /// `NotARepository` otherwise. Reports whether the registry grew; a
    /// path tracked already is a successful no-op.
    pub fn add_repository(&mut self, cwd: &str, path: &str, is_repository: bool) -> (r: Result<
        bool,
        RhqError,
    >)
        requires
            old(self).registry.wf(),
        ensures
            final(self).registry.wf(),
            is_repository ==> final(self).registry@ == spec_add(
                old(self).registry@,
                canon_repo(cwd@, path@),
            ) && r == Ok::<bool, RhqError>(
                !has_path(old(self).registry@, spec_canon(cwd@, path@)),
            ),
            !is_repository ==> final(self).registry@ == old(self).registry@ && r == Err::<
                bool,
                RhqError,
            >(RhqError::NotARepository),
    {
        if !is_repository {
            return Err(RhqError::NotARepository);
        }
        let (canon, name) = canonicalize_path(cwd, path);
        let repo = Repository::new(canon, name, None);
        let added = self.registry.add_repository(repo);
        Ok(added)
    }

    /// Record a batch of scanned repository roots, resolved against
    /// `cwd`, deduplicating by canonical path; reports how many were new.
    pub fn import_paths(&mut self, cwd: &str, roots: &Vec<String>) -> (added: usize)
        requires
            old(self).registry.wf(),
        ensures
            final(self).registry.wf(),
            final(self).registry@ == spec_import(
                old(self).registry@,
                canon_repos(cwd@, views(roots@)),
            ),
            added == final(self).registry@.len() - old(self).registry@.len(),
    {
        let ghost goal = canon_repos(cwd@, views(roots@));
        let mut candidates: Vec<Repository> = Vec::new();
        let mut i: usize = 0;
        proof {
            assert(crate::registry::repo_views(candidates@) =~~= goal.take(0));
        }
        while i < roots.len()
            invariant
                goal == canon_repos(cwd@, views(roots@)),
                0 <= i <= roots@.len(),
                crate::registry::repo_views(candidates@) == goal.take(i as int),
            decreases roots@.len() - i,
        {
            proof {
                assert(views(roots@)[i as int] == roots@[i as int]@);
                assert(goal[i as int] == canon_repo(cwd@, views(roots@)[i as int]));
            }
            let (canon, name) = canonicalize_path(cwd, roots[i].as_str());
            let repo = Repository::new(canon, name, None);
            proof {
                assert(repo@.remote == None::<Seq<char>>);
                assert(repo@ =~= goal[i as int]);
            }
            candidates.push(repo);
            proof {
                assert(goal.take(i as int + 1) =~= goal.take(i as int).push(goal[i as int]));
                assert(crate::registry::repo_views(candidates@) =~~= goal.take(i as int + 1));
            }
            i = i + 1;
        }
        proof {
            assert(goal.take(roots@.len() as int) =~~= goal);
        }
        self.registry.import_candidates(&candidates)
    }

    /// Drop the entries whose paths are not among the live ones or are
    /// excluded by configuration; reports how many went.
    pub fn drop_invalid_repositories(&mut self, alive: &Vec<String>) -> (removed: usize)
        requires
            old(self).registry.wf(),
        ensures
            final(self).registry.wf(),
            final(self).registry@ == spec_drop(
                old(self).registry@,
                views(alive@),
                views(old(self).config.exclude_patterns@),
            ),
            removed == old(self).registry@.len() - final(self).registry@.len(),
    {
        self.registry.drop_invalid(alive, &self.config.exclude_patterns)
    }

    /// Sort the registry by canonical path.
    pub fn sort_repositories(&mut self)
        requires
            old(self).registry.wf(),
        ensures
            final(self).registry.wf(),
            sorted_by_path(final(self).registry@),
            final(self).registry@.to_multiset() == old(self).registry@.to_multiset(),
    {
        self.registry.sort_repositories()
    }

    /// The cache text to persist; the caller writes it out whole.
    pub fn save_cache(&self) -> (r: String)
        ensures
            r@ == spec_save(self.registry@),
    {
        save_registry(&self.registry)
    }

    /// The destination a reference is cloned to under the configured
    /// root.
    pub fn resolve_query(&self, query: &Query) -> (r: Result<String, RhqError>)
        ensures
            match r {
                Ok(d) => spec_dest(query@, self.config.root_dir@, self.config.default_host@)
                    == Ok::<Seq<char>, RhqError>(d@),
                Err(e) => spec_dest(query@, self.config.root_dir@, self.config.default_host@)
                    == Err::<Seq<char>, RhqError>(e),
            },
    {
        let root = self.config.root_dir.as_str();
        match query {
            Query::Url(p) => {
                match &p.host {
                    Some(h) => {
                        if h.as_str().is_empty() {
                            Err(RhqError::InvalidReference)
                        } else {
                            let mut out = String::new();
                            out.append(root);
                            out.append("/");
                            out.append(h.as_str());
                            let stripped = strip_git_exec(p.path.as_str());
                            out.append(stripped.as_str());
                            proof {
                                reveal_strlit("/");
                                assert(out@ =~= self.config.root_dir@ + seq!['/'] + h@
                                    + strip_git(p@.path));
                            }
                            Ok(out)
                        }
                    },
                    None => Err(RhqError::InvalidReference),
                }
            },
            Query::Scp(p) => {
                let mut out = String::new();
                out.append(root);
                out.append("/");
                out.append(p.host.as_str());
                out.append("/");
                let stripped = strip_git_exec(p.path.as_str());
                out.append(stripped.as_str());
                proof {
                    reveal_strlit("/");
                    assert(out@ =~= self.config.root_dir@ + seq!['/'] + p@.host + seq!['/']
                        + strip_git(p@.path));
                }
                Ok(out)
            },
            Query::Path(segs) => {
                let ghost sv = views(segs@);
                let has_host = segs.len() >= 2 && crate::text::find_char(
                    segs[0].as_str(),
                    '.',
                ).is_some();
                proof {
                    if segs@.len() >= 2 {
                        assert(views(segs@)[0] == segs@[0]@);
                        crate::text::lemma_index_of_first(views(segs@)[0], '.');
                    }
                    assert(has_host == path_has_host(sv));
                }
                let mut eff_host: String = String::new();
                let mut rest: Vec<String> = Vec::new();
                if has_host {
                    eff_host = segs[0].clone();
                    let mut i: usize = 1;
                    while i < segs.len()
                        invariant
                            1 <= i <= segs@.len(),
                            views(rest@) == views(segs@).skip(1).take(i - 1),
                        decreases segs@.len() - i,
                    {
                        proof {
                            assert(views(segs@).skip(1).take(i as int) =~= views(
                                segs@,
                            ).skip(1).take(i - 1).push(views(segs@)[i as int]));
                        }
                        rest.push(segs[i].clone());
                        i = i + 1;
                    }
                    proof {
                        assert(views(rest@) =~= sv.skip(1));
                    }
                } else {
                    let mut i: usize = 0;
                    while i < segs.len()
                        invariant
                            0 <= i <= segs@.len(),
                            views(rest@) == views(segs@).take(i as int),
                        decreases segs@.len() - i,
                    {
                        proof {
                            assert(views(segs@).take(i as int + 1) =~= views(segs@).take(
                                i as int,
                            ).push(views(segs@)[i as int]));
                        }
                        rest.push(segs[i].clone());
                        i = i + 1;
                    }
                    proof {
                        assert(views(rest@) =~= sv);
                    }
                    eff_host = self.config.default_host.clone();
                }
                if rest.len() == 0 || eff_host.as_str().is_empty() {
                    return Err(RhqError::InvalidReference);
                }
                let joined = join_with(&rest, "/");
                let mut out = String::new();
                out.append(root);
                out.append("/");
                out.append(eff_host.as_str());
                out.append("/");
                out.append(joined.as_str());
                proof {
                    reveal_strlit("/");
                    assert(out@ =~= self.config.root_dir@ + seq!['/']
                        + (if path_has_host(sv) { sv[0] } else { self.config.default_host@ })
                        + seq!['/'] + join_chars(
                        (if path_has_host(sv) { sv.skip(1) } else { sv }),
                        "/"@,
                    ));
                }
                Ok(out)
            },
        }
    }

    /// Record a finished clone at its destination (resolved against
    /// `cwd`): the new entry is added, deduplicating by path, only when
    /// the collaborator's clone succeeded; a failed clone changes
    /// nothing and surfaces `VcsError`.
    pub fn register_clone(&mut self, cwd: &str, dest: &str, clone_succeeded: bool) -> (r: Result<
        bool,
        RhqError,
    >)
        requires
            old(self).registry.wf(),
        ensures
            final(self).registry.wf(),
            clone_succeeded ==> final(self).registry@ == spec_add(
                old(self).registry@,
                canon_repo(cwd@, dest@),
            ) && r == Ok::<bool, RhqError>(
                !has_path(old(self).registry@, spec_canon(cwd@, dest@)),
            ),
            !clone_succeeded ==> final(self).registry@ == old(self).registry@ && r == Err::<
                bool,
                RhqError,
            >(RhqError::VcsError),
    {
        if !clone_succeeded {
            return Err(RhqError::VcsError);
        }
        let (canon, name) = canonicalize_path(cwd, dest);
        let repo = Repository::new(canon, name, None);
        Ok(self.registry.add_repository(repo))
    }
}

/// The name of the remote an upstream ref names: the upstream with its
/// final `/{branch}` removed, or unchanged when it does not end so.
pub fn upstream_remote_name(upstream: &str, branch: &str) -> (r: String)
    ensures
        ({
            let u = upstream@;
            let b = branch@;
            if u.len() > b.len() + 1 && u.skip(u.len() - b.len()) == b && u[u.len() - b.len()
                - 1] == '/' {
                r@ == u.take(u.len() - b.len() - 1)
            } else {
                r@ == u
            }
        }),
{
    let nu = upstream.unicode_len();
    let nb = branch.unicode_len();
    if nb < nu && nu - nb > 1 {
        let tail = upstream.substring_char(nu - nb, nu);
        proof {
            assert(upstream@.subrange(nu as int - nb, nu as int) =~= upstream@.skip(
                nu as int - nb,
            ));
        }
        if str_eq(tail, branch) && upstream.get_char(nu - nb - 1) == '/' {
            let r = upstream.substring_char(0, nu - nb - 1).to_owned();
            proof {
                assert(upstream@.subrange(0, nu as int - nb - 1) =~= upstream@.take(
                    nu as int - nb - 1,
                ));
            }
            return r;
        }
    }
    upstream.to_owned()
}

} // verus!
