use vstd::prelude::*;
use crate::RhqError;
use crate::query::Query;
use crate::registry::RepoV;
use crate::registry::sorted_by_path;
use crate::registry::spec_drop;
use crate::remote::Remote;
use crate::remote::spec_resolve_query;
use crate::text::str_eq;
use crate::text::views;
use crate::workspace::Config;
use crate::workspace::Workspace;
use crate::workspace::spec_dest;

verus! {

/// How the list operation prints an entry.
#[derive(Clone, Copy, Debug, PartialEq, Eq, Structural)]
pub enum ListFormat {
    Name,
    FullPath,
}

impl ListFormat {
    /// The two accepted spellings.
    pub fn from_str(s: &str) -> (r: Result<ListFormat, ()>)
        ensures
            s@ == "name"@ ==> r == Ok::<ListFormat, ()>(ListFormat::Name),
            s@ == "fullpath"@ ==> r == Ok::<ListFormat, ()>(ListFormat::FullPath),
            s@ != "name"@ && s@ != "fullpath"@ ==> r == Err::<ListFormat, ()>(()),
    {
        proof {
            reveal_strlit("name");
            reveal_strlit("fullpath");
            assert(("name"@).len() == 4);
            assert(("fullpath"@).len() == 8);
        }
        if str_eq(s, "name") {
            Ok(ListFormat::Name)
        } else if str_eq(s, "fullpath") {
            Ok(ListFormat::FullPath)
        } else {
            Err(())
        }
    }
}

/// The version-control systems a clone can ask for.
#[derive(Clone, Copy, Debug, PartialEq, Eq, Structural)]
pub enum Vcs {
    Git,
    Hg,
    Darcs,
    Pijul,
}

impl Vcs {
    /// The accepted spellings.
    pub fn from_str(s: &str) -> (r: Result<Vcs, ()>)
        ensures
            s@ == "git"@ ==> r == Ok::<Vcs, ()>(Vcs::Git),
            s@ == "hg"@ ==> r == Ok::<Vcs, ()>(Vcs::Hg),
            s@ == "darcs"@ ==> r == Ok::<Vcs, ()>(Vcs::Darcs),
            s@ == "pijul"@ ==> r == Ok::<Vcs, ()>(Vcs::Pijul),
            s@ != "git"@ && s@ != "hg"@ && s@ != "darcs"@ && s@ != "pijul"@ ==> r == Err::<
                Vcs,
                (),
            >(()),
    {
        proof {
            reveal_strlit("git");
            reveal_strlit("hg");
            reveal_strlit("darcs");
            reveal_strlit("pijul");
            assert(("git"@).len() == 3);
            assert(("hg"@).len() == 2);
            assert(("darcs"@).len() == 5);
            assert(("pijul"@).len() == 5);
            assert(("darcs"@) != ("pijul"@)) by {
                assert(("darcs"@)[0] == 'd');
                assert(("pijul"@)[0] == 'p');
            }
        }
        if str_eq(s, "git") {
            Ok(Vcs::Git)
        } else if str_eq(s, "hg") {
            Ok(Vcs::Hg)
        } else if str_eq(s, "darcs") {
            Ok(Vcs::Darcs)
        } else if str_eq(s, "pijul") {
            Ok(Vcs::Pijul)
        } else {
            Err(())
        }
    }
}

/// Copy a vector of strings.
pub fn clone_strings(v: &Vec<String>) -> (r: Vec<String>)
    ensures
        views(r@) == views(v@),
{
    let mut out: Vec<String> = Vec::new();
    let mut i: usize = 0;
    proof {
        assert(views(out@) =~~= views(v@).take(0));
    }
    while i < v.len()
        invariant
            0 <= i <= v@.len(),
            views(out@) == views(v@).take(i as int),
        decreases v@.len() - i,
    {
        proof {
            assert(views(v@).take(i as int + 1) =~= views(v@).take(i as int).push(
                views(v@)[i as int],
            ));
        }
        out.push(v[i].clone());
        i = i + 1;
    }
    proof {
        assert(views(v@).take(v@.len() as int) =~= views(v@));
    }
    out
}

/// Track existing repositories given by path, the current directory when
/// none are given.
pub struct AddCommand {
    pub paths: Option<Vec<String>>,
    pub verbose: bool,
}

impl AddCommand {
    /// The paths the operation works on: those given, else the current
    /// directory alone.
    pub fn paths_or_default(&self, cwd: &str) -> (r: Vec<String>)
        ensures
            self.paths matches Some(ps) ==> views(r@) == views(ps@),
            self.paths is None ==> views(r@) =~= seq![cwd@],
    {
        match &self.paths {
            Some(ps) => clone_strings(ps),
            None => {
                let mut out: Vec<String> = Vec::new();
                out.push(cwd.to_owned());
                proof {
                    assert(views(out@) =~= seq![cwd@]);
                }
                out
            },
        }
    }
}

/// Clone a remote repository and then track it.
pub struct CloneCommand {
    pub query: Query,
    pub dest: Option<String>,
    pub root: Option<String>,
    pub ssh: bool,
    pub vcs: Vcs,
    pub verbose: bool,
}

impl CloneCommand {
    /// Resolve the reference to the remote to clone and the local
    /// destination: the explicit destination when one was given, the one
    /// derived under the configured root otherwise.
    pub fn plan(&self, ws: &Workspace) -> (r: Result<(Remote, String), RhqError>)
        ensures
            match r {
                Ok(p) => spec_resolve_query(
                    self.query@,
                    self.ssh,
                    ws.config.default_host@,
                ) == Ok::<Seq<char>, RhqError>(p.0@) && (match self.dest {
                    Some(d) => p.1@ == d@,
                    None => spec_dest(self.query@, ws.config.root_dir@, ws.config.default_host@)
                        == Ok::<Seq<char>, RhqError>(p.1@),
                }),
                Err(e) => spec_resolve_query(self.query@, self.ssh, ws.config.default_host@)
                    == Err::<Seq<char>, RhqError>(e) || (self.dest is None && spec_dest(
                    self.query@,
                    ws.config.root_dir@,
                    ws.config.default_host@,
                ) == Err::<Seq<char>, RhqError>(e)),
            },
    {
        let remote = match Remote::from_query(&self.query, self.ssh, ws.default_host()) {
            Ok(rem) => rem,
            Err(e) => {
                return Err(e);
            },
        };
        let dest = match &self.dest {
            Some(d) => d.clone(),
            None => match ws.resolve_query(&self.query) {
                Ok(d) => d,
                Err(e) => {
                    return Err(e);
                },
            },
        };
        Ok((remote, dest))
    }
}

/// Scan directory roots and track every repository found.
pub struct ImportCommand {
    pub roots: Option<Vec<String>>,
    pub depth: Option<usize>,
    pub verbose: bool,
}

impl ImportCommand {
    /// The roots the scan starts from: those given, else the configured
    /// ones.
    pub fn effective_roots(&self, config: &Config) -> (r: Vec<String>)
        ensures
            self.roots matches Some(rs) ==> views(r@) == views(rs@),
            self.roots is None ==> views(r@) == views(config.include_dirs@),
    {
        match &self.roots {
            Some(rs) => clone_strings(rs),
            None => clone_strings(&config.include_dirs),
        }
    }
}

/// What the list operation prints per entry.
pub open spec fn spec_list(rs: Seq<RepoV>, format: ListFormat) -> Seq<Seq<char>> {
    rs.map_values(
        |r: RepoV|
            match format {
                ListFormat::Name => r.name,
                ListFormat::FullPath => r.path,
            },
    )
}

/// Print the tracked repositories, as names or full paths.
pub struct ListCommand {
    pub format: ListFormat,
}

impl ListCommand {
    /// The lines to print, in registry order.
    pub fn lines(&self, ws: &Workspace) -> (r: Vec<String>)
        ensures
            views(r@) == spec_list(ws.registry@, self.format),
    {
        let ghost goal = spec_list(ws.registry@, self.format);
        let mut out: Vec<String> = Vec::new();
        let mut i: usize = 0;
        proof {
            assert(views(out@) =~~= goal.take(0));
        }
        while i < ws.registry.len()
            invariant
                goal == spec_list(ws.registry@, self.format),
                0 <= i <= ws.registry@.len(),
                views(out@) == goal.take(i as int),
            decreases ws.registry@.len() - i,
        {
            let repo = ws.registry.get(i);
            let line = match self.format {
                ListFormat::Name => repo.name().to_owned(),
                ListFormat::FullPath => repo.path_string().to_owned(),
            };
            out.push(line);
            proof {
                assert(goal.take(i as int + 1) =~= goal.take(i as int).push(goal[i as int]));
                assert(views(out@) =~~= goal.take(i as int + 1));
            }
            i = i + 1;
        }
        proof {
            assert(goal.take(ws.registry@.len() as int) =~= goal);
        }
        out
    }
}

/// Drop entries that vanished or are excluded, optionally sorting.
pub struct RefreshCommand {
    pub verbose: bool,
    pub sort: bool,
}

impl RefreshCommand {
    /// Run the refresh over the live paths the caller collected: invalid
    /// entries go, and with `sort` set the rest are ordered by path.
    pub fn apply(&self, ws: &mut Workspace, alive: &Vec<String>) -> (removed: usize)
        requires
            old(ws).registry.wf(),
        ensures
            final(ws).registry.wf(),
            removed == old(ws).registry@.len() - spec_drop(
                old(ws).registry@,
                views(alive@),
                views(old(ws).config.exclude_patterns@),
            ).len(),
            !self.sort ==> final(ws).registry@ == spec_drop(
                old(ws).registry@,
                views(alive@),
                views(old(ws).config.exclude_patterns@),
            ),
            self.sort ==> sorted_by_path(final(ws).registry@)
                && final(ws).registry@.to_multiset() == spec_drop(
                old(ws).registry@,
                views(alive@),
                views(old(ws).config.exclude_patterns@),
            ).to_multiset(),
        {
        let removed = ws.drop_invalid_repositories(alive);
        if self.sort {
            ws.sort_repositories();
        }
        removed
    }
}

} // verus!
