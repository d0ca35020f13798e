use vstd::prelude::*;
use crate::order::lex_le;
use crate::order::lex_le_str;
use crate::order::lemma_lex_antisym;
use crate::order::lemma_lex_total;
use crate::order::lemma_lex_trans;
use crate::text::str_eq;
use crate::text::views;

verus! {

/// One tracked local clone: its canonical path, its display name, and the
/// remote it is known to come from, when that is known.
pub struct Repository {
    pub path: String,
    pub name: String,
    pub remote: Option<String>,
}

/// The mathematical value of a `Repository`.
#[verifier::ext_equal]
pub struct RepoV {
    pub path: Seq<char>,
    pub name: Seq<char>,
    pub remote: Option<Seq<char>>,
}

impl View for Repository {
    type V = RepoV;

    open spec fn view(&self) -> RepoV {
        RepoV {
            path: self.path@,
            name: self.name@,
            remote: match self.remote {
                Some(r) => Some(r@),
                None => None,
            },
        }
    }
}

impl Repository {
    /// A fresh record.
    pub fn new(path: String, name: String, remote: Option<String>) -> (r: Repository)
        ensures
            r@.path == path@,
            r@.name == name@,
            remote matches Some(s) ==> r@.remote == Some(s@),
            remote is None ==> r@.remote is None,
    {
        Repository { path, name, remote }
    }

    /// The display name.
    pub fn name(&self) -> (r: &str)
        ensures
            r@ == self@.name,
    {
        self.name.as_str()
    }

    /// The canonical local path.
    pub fn path_string(&self) -> (r: &str)
        ensures
            r@ == self@.path,
    {
        self.path.as_str()
    }

    /// A copy with the same value.
    pub fn duplicate(&self) -> (r: Repository)
        ensures
            r@ == self@,
    {
        let remote = match &self.remote {
            Some(s) => Some(s.clone()),
            None => None,
        };
        Repository { path: self.path.clone(), name: self.name.clone(), remote }
    }
}

/// The views of a vector of repositories.
pub open spec fn repo_views(rs: Seq<Repository>) -> Seq<RepoV> {
    rs.map_values(|r: Repository| r@)
}

/// Whether some entry holds the given canonical path.
pub open spec fn has_path(rs: Seq<RepoV>, p: Seq<char>) -> bool {
    exists|i: int| 0 <= i < rs.len() && rs[i].path == p
}

/// No two entries share a canonical path.
pub open spec fn unique_paths(rs: Seq<RepoV>) -> bool {
    forall|i: int, j: int| 0 <= i < j < rs.len() ==> rs[i].path != rs[j].path
}

/// What adding one record does: nothing when its path is tracked already,
/// an append at the end otherwise.
pub open spec fn spec_add(rs: Seq<RepoV>, r: RepoV) -> Seq<RepoV> {
    if has_path(rs, r.path) {
        rs
    } else {
        rs.push(r)
    }
}

/// What importing a batch does: each candidate in order, by the rule of
/// `spec_add`.
pub open spec fn spec_import(rs: Seq<RepoV>, cs: Seq<RepoV>) -> Seq<RepoV>
    decreases cs.len(),
{
    if cs.len() == 0 {
        rs
    } else {
        spec_import(spec_add(rs, cs[0]), cs.skip(1))
    }
}

/// A pattern excludes a path when it equals it or names one of its
/// ancestor directories.
pub open spec fn pattern_matches(pat: Seq<char>, p: Seq<char>) -> bool {
    pat == p || (pat.len() < p.len() && p.take(pat.len() as int) == pat && p[pat.len() as int]
        == '/')
}

/// An entry survives a refresh when its path is among the live ones and no
/// exclusion pattern matches it.
pub open spec fn keep_entry(r: RepoV, alive: Seq<Seq<char>>, excludes: Seq<Seq<char>>) -> bool {
    alive.contains(r.path) && !(exists|i: int|
        0 <= i < excludes.len() && pattern_matches(#[trigger] excludes[i], r.path))
}

/// What dropping invalid entries does: it keeps, in order, exactly the
/// entries that survive.
pub open spec fn spec_drop(rs: Seq<RepoV>, alive: Seq<Seq<char>>, excludes: Seq<Seq<char>>)
    -> Seq<RepoV>
    decreases rs.len(),
{
    if rs.len() == 0 {
        rs
    } else {
        let rest = spec_drop(rs.drop_last(), alive, excludes);
        if keep_entry(rs.last(), alive, excludes) {
            rest.push(rs.last())
        } else {
            rest
        }
    }
}

/// Adding a path twice changes nothing the second time: the registry, and
/// with it its length, stays as it was after the first addition.
pub proof fn lemma_add_idempotent(rs: Seq<RepoV>, r: RepoV)
    ensures
        spec_add(spec_add(rs, r), r) == spec_add(rs, r),
        spec_add(spec_add(rs, r), r).len() == spec_add(rs, r).len(),
{
    if !has_path(rs, r.path) {
        assert(rs.push(r)[rs.len() as int].path == r.path);
        assert(has_path(rs.push(r), r.path));
    }
}

/// Membership after an addition.
pub proof fn lemma_add_has_path(rs: Seq<RepoV>, r: RepoV, p: Seq<char>)
    ensures
        has_path(spec_add(rs, r), p) <==> has_path(rs, p) || r.path == p,
{
    if !has_path(rs, r.path) {
        assert(rs.push(r)[rs.len() as int] == r);
        if has_path(rs, p) {
            let i = choose|i: int| 0 <= i < rs.len() && rs[i].path == p;
            assert(rs.push(r)[i].path == p);
        }
        if has_path(rs.push(r), p) {
            let i = choose|i: int| 0 <= i < rs.push(r).len() && rs.push(r)[i].path == p;
            if i < rs.len() {
                assert(rs[i].path == p);
            }
        }
    }
}

/// An addition keeps paths unique.
pub proof fn lemma_add_unique(rs: Seq<RepoV>, r: RepoV)
    requires
        unique_paths(rs),
    ensures
        unique_paths(spec_add(rs, r)),
{
    if !has_path(rs, r.path) {
        let out = rs.push(r);
        assert forall|i: int, j: int| 0 <= i < j < out.len() implies out[i].path != out[j].path by {
            if j == rs.len() {
                assert(out[i] == rs[i]);
                assert(!(rs[i].path == r.path)) by {
                    if rs[i].path == r.path {
                        assert(has_path(rs, r.path));
                    }
                }
            } else {
                assert(out[i] == rs[i] && out[j] == rs[j]);
            }
        }
    }
}

/// An import keeps paths unique, and tracks a path exactly when it was
/// tracked before or some candidate carries it: a repository reachable
/// through two overlapping scan roots ends up tracked exactly once.
pub proof fn lemma_import_unique(rs: Seq<RepoV>, cs: Seq<RepoV>)
    requires
        unique_paths(rs),
    ensures
        unique_paths(spec_import(rs, cs)),
        forall|p: Seq<char>| #[trigger]
            has_path(spec_import(rs, cs), p) <==> has_path(rs, p) || has_path(cs, p),
    decreases cs.len(),
{
    if cs.len() == 0 {
        assert forall|p: Seq<char>| #[trigger]
            has_path(spec_import(rs, cs), p) <==> has_path(rs, p) || has_path(cs, p) by {
            if has_path(cs, p) {
                let i = choose|i: int| 0 <= i < cs.len() && cs[i].path == p;
            }
        }
    } else {
        lemma_add_unique(rs, cs[0]);
        lemma_import_unique(spec_add(rs, cs[0]), cs.skip(1));
        assert forall|p: Seq<char>| #[trigger]
            has_path(spec_import(rs, cs), p) <==> has_path(rs, p) || has_path(cs, p) by {
            lemma_add_has_path(rs, cs[0], p);
            if has_path(cs.skip(1), p) {
                let i = choose|i: int| 0 <= i < cs.skip(1).len() && cs.skip(1)[i].path == p;
                assert(cs[i + 1].path == p);
            }
            if has_path(cs, p) {
                let i = choose|i: int| 0 <= i < cs.len() && cs[i].path == p;
                if i > 0 {
                    assert(cs.skip(1)[i - 1].path == p);
                }
            }
        }
    }
}

/// A batch whose paths are all tracked already changes nothing.
proof fn lemma_import_absorbed(rs: Seq<RepoV>, cs: Seq<RepoV>)
    requires
        forall|i: int| 0 <= i < cs.len() ==> has_path(rs, (#[trigger] cs[i]).path),
    ensures
        spec_import(rs, cs) == rs,
    decreases cs.len(),
{
    if cs.len() > 0 {
        assert(has_path(rs, cs[0].path));
        assert(spec_add(rs, cs[0]) == rs);
        assert forall|i: int| 0 <= i < cs.skip(1).len() implies has_path(
            rs,
            (#[trigger] cs.skip(1)[i]).path,
        ) by {
            assert(cs.skip(1)[i] == cs[i + 1]);
        }
        lemma_import_absorbed(rs, cs.skip(1));
    }
}

/// Importing the same batch a second time changes nothing: every
/// repository it names is tracked already, each exactly once.
pub proof fn lemma_import_idempotent(rs: Seq<RepoV>, cs: Seq<RepoV>)
    requires
        unique_paths(rs),
    ensures
        spec_import(spec_import(rs, cs), cs) == spec_import(rs, cs),
{
    lemma_import_unique(rs, cs);
    let once = spec_import(rs, cs);
    assert forall|i: int| 0 <= i < cs.len() implies has_path(
        once,
        (#[trigger] cs[i]).path,
    ) by {
        assert(has_path(cs, cs[i].path));
    }
    lemma_import_absorbed(once, cs);
}

/// Every entry surviving a refresh does satisfy the survival rule.
pub proof fn lemma_drop_keeps(rs: Seq<RepoV>, alive: Seq<Seq<char>>, excludes: Seq<Seq<char>>)
    ensures
        forall|i: int| 0 <= i < spec_drop(rs, alive, excludes).len() ==> keep_entry(
            #[trigger] spec_drop(rs, alive, excludes)[i],
            alive,
            excludes,
        ),
    decreases rs.len(),
{
    if rs.len() > 0 {
        lemma_drop_keeps(rs.drop_last(), alive, excludes);
        let rest = spec_drop(rs.drop_last(), alive, excludes);
        if keep_entry(rs.last(), alive, excludes) {
            assert forall|i: int| 0 <= i < rest.push(rs.last()).len() implies keep_entry(
                rest.push(rs.last())[i],
                alive,
                excludes,
            ) by {
                if i < rest.len() {
                    assert(rest.push(rs.last())[i] == rest[i]);
                }
            }
        }
    }
}

/// A refresh that finds nothing to drop changes nothing.
pub proof fn lemma_drop_all_kept(rs: Seq<RepoV>, alive: Seq<Seq<char>>, excludes: Seq<Seq<char>>)
    requires
        forall|i: int| 0 <= i < rs.len() ==> keep_entry(#[trigger] rs[i], alive, excludes),
    ensures
        spec_drop(rs, alive, excludes) == rs,
    decreases rs.len(),
{
    if rs.len() > 0 {
        assert(forall|i: int| 0 <= i < rs.drop_last().len() ==> keep_entry(
            #[trigger] rs.drop_last()[i],
            alive,
            excludes,
        ));
        lemma_drop_all_kept(rs.drop_last(), alive, excludes);
        assert(rs.last() == rs[rs.len() - 1]);
        assert(spec_drop(rs, alive, excludes) =~= rs.drop_last().push(rs.last()));
        assert(rs.drop_last().push(rs.last()) =~= rs);
    }
}

/// Dropping invalid entries twice, with nothing changed in between, drops
/// nothing the second time.
pub proof fn lemma_drop_idempotent(rs: Seq<RepoV>, alive: Seq<Seq<char>>, excludes: Seq<Seq<char>>)
    ensures
        spec_drop(spec_drop(rs, alive, excludes), alive, excludes) == spec_drop(
            rs,
            alive,
            excludes,
        ),
{
    lemma_drop_keeps(rs, alive, excludes);
    lemma_drop_all_kept(spec_drop(rs, alive, excludes), alive, excludes);
}

/// Dropping entries keeps paths unique.
pub proof fn lemma_drop_unique(rs: Seq<RepoV>, alive: Seq<Seq<char>>, excludes: Seq<Seq<char>>)
    requires
        unique_paths(rs),
    ensures
        unique_paths(spec_drop(rs, alive, excludes)),
        forall|p: Seq<char>| has_path(#[trigger] spec_drop(rs, alive, excludes), p) ==> has_path(
            rs,
            p,
        ),
    decreases rs.len(),
{
    if rs.len() > 0 {
        assert(unique_paths(rs.drop_last()));
        lemma_drop_unique(rs.drop_last(), alive, excludes);
        let rest = spec_drop(rs.drop_last(), alive, excludes);
        assert forall|p: Seq<char>| has_path(#[trigger] spec_drop(rs, alive, excludes), p)
            implies has_path(rs, p) by {
            let out = spec_drop(rs, alive, excludes);
            let i = choose|i: int| 0 <= i < out.len() && out[i].path == p;
            if keep_entry(rs.last(), alive, excludes) && i == rest.len() {
                assert(rs[rs.len() - 1].path == p);
            } else {
                assert(out[i] == rest[i]);
                assert(has_path(rest, p));
                if has_path(rs.drop_last(), p) {
                    let j = choose|j: int| 0 <= j < rs.drop_last().len()
                        && rs.drop_last()[j].path == p;
                    assert(rs[j].path == p);
                }
            }
        }
        if keep_entry(rs.last(), alive, excludes) {
            let out = rest.push(rs.last());
            assert forall|i: int, j: int| 0 <= i < j < out.len() implies out[i].path
                != out[j].path by {
                if j == rest.len() {
                    assert(out[i] == rest[i]);
                    if rest[i].path == rs.last().path {
                        assert(has_path(rest, rs.last().path));
                        assert(has_path(rs.drop_last(), rs.last().path));
                        let k = choose|k: int| 0 <= k < rs.drop_last().len()
                            && rs.drop_last()[k].path == rs.last().path;
                        assert(rs.drop_last()[k] == rs[k]);
                        assert(rs[k].path == rs[rs.len() - 1].path);
                        assert(false);
                    }
                } else {
                    assert(out[i] == rest[i] && out[j] == rest[j]);
                }
            }
        }
    }
}

/// The ordered, deduplicated set of tracked repositories.
pub struct Registry {
    repos: Vec<Repository>,
}

impl View for Registry {
    type V = Seq<RepoV>;

    closed spec fn view(&self) -> Seq<RepoV> {
        repo_views(self.repos@)
    }
}

impl Registry {
    /// The registry is well formed when no two entries share a path.
    pub open spec fn wf(&self) -> bool {
        unique_paths(self@)
    }

    /// An empty registry.
    pub fn new() -> (r: Registry)
        ensures
            r@ == Seq::<RepoV>::empty(),
            r.wf(),
    {
        let r = Registry { repos: Vec::new() };
        proof {
            assert(r@ =~~= Seq::<RepoV>::empty());
        }
        r
    }

    /// How many repositories are tracked.
    pub fn len(&self) -> (n: usize)
        ensures
            n == self@.len(),
    {
        self.repos.len()
    }

    /// The entry at a position.
    pub fn get(&self, i: usize) -> (r: &Repository)
        requires
            i < self@.len(),
        ensures
            r@ == self@[i as int],
    {
        &self.repos[i]
    }

    /// Whether a canonical path is already tracked.
    pub fn contains_path(&self, p: &str) -> (r: bool)
        ensures
            r == has_path(self@, p@),
    {
        let mut i: usize = 0;
        while i < self.repos.len()
            invariant
                0 <= i <= self.repos@.len(),
                self@ == repo_views(self.repos@),
                forall|j: int| 0 <= j < i ==> self@[j].path != p@,
            decreases self.repos@.len() - i,
        {
            if str_eq(self.repos[i].path.as_str(), p) {
                proof {
                    assert(self@[i as int].path == p@);
                }
                return true;
            }
            i = i + 1;
        }
        false
    }

    /// Add one record: a no-op when its path is tracked already, an append
    /// otherwise; reports whether the registry grew.
    pub fn add_repository(&mut self, repo: Repository) -> (added: bool)
        requires
            old(self).wf(),
        ensures
            final(self)@ == spec_add(old(self)@, repo@),
            added == !has_path(old(self)@, repo@.path),
            final(self).wf(),
    {
        proof {
            lemma_add_unique(self@, repo@);
        }
        if self.contains_path(repo.path.as_str()) {
            false
        } else {
            self.repos.push(repo);
            proof {
                assert(self@ =~~= spec_add(old(self)@, repo@));
            }
            true
        }
    }

    /// Import a batch of candidate records in order, deduplicating by
    /// path; reports how many were new.
    pub fn import_candidates(&mut self, candidates: &Vec<Repository>) -> (added: usize)
        requires
            old(self).wf(),
        ensures
            final(self)@ == spec_import(old(self)@, repo_views(candidates@)),
            final(self).wf(),
            added == final(self)@.len() - old(self)@.len(),
    {
        let ghost cs = repo_views(candidates@);
        let base_len = self.len();
        let mut i: usize = 0;
        proof {
            assert(cs.skip(0) =~~= cs);
        }
        while i < candidates.len()
            invariant
                cs == repo_views(candidates@),
                0 <= i <= candidates@.len(),
                self.wf(),
                base_len <= self@.len(),
                spec_import(old(self)@, cs) == spec_import(self@, cs.skip(i as int)),
            decreases candidates@.len() - i,
        {
            proof {
                assert(cs.skip(i as int)[0] == cs[i as int]);
                assert(cs.skip(i as int).skip(1) =~~= cs.skip(i as int + 1));
                assert(cs[i as int] == candidates@[i as int]@);
            }
            let c = candidates[i].duplicate();
            self.add_repository(c);
            i = i + 1;
        }
        proof {
            assert(cs.skip(candidates@.len() as int) =~~= Seq::<RepoV>::empty());
        }
        self.len() - base_len
    }

    /// Whether an entry survives a refresh against the live paths and the
    /// exclusion patterns.
    fn is_kept(repo: &Repository, alive: &Vec<String>, excludes: &Vec<String>) -> (r: bool)
        ensures
            r == keep_entry(repo@, views(alive@), views(excludes@)),
    {
        let mut found = false;
        let mut i: usize = 0;
        while i < alive.len()
            invariant
                0 <= i <= alive@.len(),
                found == (exists|j: int| 0 <= j < i && views(alive@)[j] == repo@.path),
            decreases alive@.len() - i,
        {
            if str_eq(alive[i].as_str(), repo.path.as_str()) {
                proof {
                    assert(views(alive@)[i as int] == repo@.path);
                }
                found = true;
            }
            i = i + 1;
        }
        proof {
            if found {
                let j = choose|j: int| 0 <= j < alive@.len() && views(alive@)[j] == repo@.path;
                assert(views(alive@).contains(repo@.path));
            }
            if views(alive@).contains(repo@.path) {
                let j = choose|j: int| 0 <= j < views(alive@).len() && views(alive@)[j]
                    == repo@.path;
            }
        }
        if !found {
            return false;
        }
        let mut k: usize = 0;
        while k < excludes.len()
            invariant
                0 <= k <= excludes@.len(),
                forall|j: int| 0 <= j < k ==> !pattern_matches(
                    #[trigger] views(excludes@)[j],
                    repo@.path,
                ),
            decreases excludes@.len() - k,
        {
            if Self::matches_exec(excludes[k].as_str(), repo.path.as_str()) {
                proof {
                    assert(pattern_matches(views(excludes@)[k as int], repo@.path));
                }
                return false;
            }
            k = k + 1;
        }
        true
    }

    /// Whether one pattern excludes one path.
    fn matches_exec(pat: &str, p: &str) -> (r: bool)
        ensures
            r == pattern_matches(pat@, p@),
    {
        let np = pat.unicode_len();
        let n = p.unicode_len();
        if np == n {
            str_eq(pat, p)
        } else if np < n {
            let prefix = p.substring_char(0, np);
            proof {
                assert(p@.subrange(0, np as int) =~= p@.take(np as int));
            }
            str_eq(prefix, pat) && p.get_char(np) == '/'
        } else {
            false
        }
    }

    /// Drop every entry whose path is no longer live or is excluded;
    /// reports how many were dropped.
    pub fn drop_invalid(&mut self, alive: &Vec<String>, excludes: &Vec<String>) -> (removed: usize)
        requires
            old(self).wf(),
        ensures
            final(self)@ == spec_drop(old(self)@, views(alive@), views(excludes@)),
            final(self).wf(),
            removed == old(self)@.len() - final(self)@.len(),
    {
        proof {
            lemma_drop_unique(self@, views(alive@), views(excludes@));
        }
        let before = self.repos.len();
        let mut kept: Vec<Repository> = Vec::new();
        let mut i: usize = 0;
        proof {
            assert(repo_views(kept@) =~~= spec_drop(
                self@.take(0),
                views(alive@),
                views(excludes@),
            ));
        }
        while i < self.repos.len()
            invariant
                0 <= i <= self.repos@.len(),
                self@ == repo_views(self.repos@),
                repo_views(kept@) == spec_drop(self@.take(i as int), views(alive@), views(excludes@)),
                kept@.len() <= i,
            decreases self.repos@.len() - i,
        {
            proof {
                assert(self@.take(i as int + 1).drop_last() =~~= self@.take(i as int));
                assert(self@.take(i as int + 1).last() == self@[i as int]);
                assert(self@[i as int] == self.repos@[i as int]@);
            }
            if Self::is_kept(&self.repos[i], alive, excludes) {
                kept.push(self.repos[i].duplicate());
                proof {
                    assert(repo_views(kept@) =~~= spec_drop(
                        self@.take(i as int + 1),
                        views(alive@),
                        views(excludes@),
                    ));
                }
            } else {
                proof {
                    assert(repo_views(kept@) =~~= spec_drop(
                        self@.take(i as int + 1),
                        views(alive@),
                        views(excludes@),
                    ));
                }
            }
            i = i + 1;
        }
        proof {
            assert(self@.take(self.repos@.len() as int) =~~= self@);
        }
        let after = kept.len();
        self.repos = kept;
        proof {
            assert(spec_drop(old(self)@, views(alive@), views(excludes@)).len() <= old(
                self,
            )@.len()) by {
                lemma_drop_len(old(self)@, views(alive@), views(excludes@));
            }
        }
        before - after
    }
}

/// Entries in ascending lexicographic order of canonical path.
pub open spec fn sorted_by_path(rs: Seq<RepoV>) -> bool {
    forall|i: int, j: int| 0 <= i < j < rs.len() ==> lex_le(
        #[trigger] rs[i].path,
        #[trigger] rs[j].path,
    )
}

/// Two registries in sorted order, with no shared path inside either and
/// the same entries, are identical: with unique keys a sort has exactly
/// one possible output, so sorting is stable and sorting a second time
/// changes nothing.
pub proof fn lemma_sorted_unique_paths_equal(a: Seq<RepoV>, b: Seq<RepoV>)
    requires
        sorted_by_path(a),
        sorted_by_path(b),
        unique_paths(a),
        unique_paths(b),
        a.to_multiset() == b.to_multiset(),
    ensures
        a == b,
    decreases a.len(),
{
    broadcast use vstd::seq_lib::group_to_multiset_ensures;

    assert(a.to_multiset().len() == a.len());
    assert(b.to_multiset().len() == b.len());
    assert(a.len() == b.len());
    if a.len() == 0 {
        assert(a =~~= b);
    } else {
        assert(a.contains(a[0]));
        assert(a.to_multiset().count(a[0]) > 0);
        assert(b.to_multiset().count(a[0]) > 0);
        assert(b.contains(a[0]));
        let j = choose|j: int| 0 <= j < b.len() && b[j] == a[0];
        assert(b.contains(b[0]));
        assert(b.to_multiset().count(b[0]) > 0);
        assert(a.to_multiset().count(b[0]) > 0);
        assert(a.contains(b[0]));
        let k = choose|k: int| 0 <= k < a.len() && a[k] == b[0];
        assert(lex_le(b[0].path, a[0].path)) by {
            if j > 0 {
                assert(lex_le(b[0].path, b[j].path));
            } else {
                lemma_lex_total(b[0].path, a[0].path);
            }
        }
        assert(lex_le(a[0].path, b[0].path)) by {
            if k > 0 {
                assert(lex_le(a[0].path, a[k].path));
            } else {
                lemma_lex_total(a[0].path, b[0].path);
            }
        }
        lemma_lex_antisym(a[0].path, b[0].path);
        assert(a[0].path == b[0].path);
        assert(a[0] == b[0]) by {
            if k != 0 {
                assert(a[k].path == b[0].path);
                assert(a[0].path != a[k].path);
            }
            assert(a[0] == b[0] || k == 0);
        }
        let ta = a.remove(0);
        let tb = b.remove(0);
        assert(ta.to_multiset() =~~= a.to_multiset().remove(a[0]));
        assert(tb.to_multiset() =~~= b.to_multiset().remove(b[0]));
        assert(ta.to_multiset() == tb.to_multiset());
        assert(sorted_by_path(ta)) by {
            assert forall|x: int, y: int| 0 <= x < y < ta.len() implies lex_le(
                ta[x].path,
                ta[y].path,
            ) by {
                assert(ta[x] == a[x + 1] && ta[y] == a[y + 1]);
            }
        }
        assert(sorted_by_path(tb)) by {
            assert forall|x: int, y: int| 0 <= x < y < tb.len() implies lex_le(
                tb[x].path,
                tb[y].path,
            ) by {
                assert(tb[x] == b[x + 1] && tb[y] == b[y + 1]);
            }
        }
        assert(unique_paths(ta)) by {
            assert forall|x: int, y: int| 0 <= x < y < ta.len() implies ta[x].path
                != ta[y].path by {
                assert(ta[x] == a[x + 1] && ta[y] == a[y + 1]);
            }
        }
        assert(unique_paths(tb)) by {
            assert forall|x: int, y: int| 0 <= x < y < tb.len() implies tb[x].path
                != tb[y].path by {
                assert(tb[x] == b[x + 1] && tb[y] == b[y + 1]);
            }
        }
        lemma_sorted_unique_paths_equal(ta, tb);
        assert forall|i: int| 0 <= i < a.len() implies a[i] == b[i] by {
            if i > 0 {
                assert(ta[i - 1] == a[i] && tb[i - 1] == b[i]);
            }
        }
        assert(a =~~= b);
    }
}

/// Sorting an already sorted registry gives it back unchanged.
pub proof fn lemma_sort_idempotent(once: Seq<RepoV>, twice: Seq<RepoV>)
    requires
        sorted_by_path(once),
        unique_paths(once),
        sorted_by_path(twice),
        unique_paths(twice),
        twice.to_multiset() == once.to_multiset(),
    ensures
        twice == once,
{
    lemma_sorted_unique_paths_equal(once, twice);
}

impl Registry {
    /// Reorder entries by canonical path, ascending and lexicographic;
    /// with paths unique this is the one sorted arrangement, so the sort
    /// is stable and a second sort changes nothing.
    pub fn sort_repositories(&mut self)
        requires
            old(self).wf(),
        ensures
            final(self).wf(),
            sorted_by_path(final(self)@),
            final(self)@.to_multiset() == old(self)@.to_multiset(),
    {
        broadcast use vstd::seq_lib::group_to_multiset_ensures;

        let mut out: Vec<Repository> = Vec::new();
        proof {
            assert(repo_views(out@) =~~= Seq::<RepoV>::empty());
            assert(repo_views(out@).to_multiset().add(repo_views(self.repos@).to_multiset())
                =~= old(self)@.to_multiset());
        }
        while self.repos.len() > 0
            invariant
                repo_views(out@).to_multiset().add(repo_views(self.repos@).to_multiset())
                    == old(self)@.to_multiset(),
                sorted_by_path(repo_views(out@)),
                unique_paths(repo_views(out@)),
                unique_paths(repo_views(self.repos@)),
                forall|x: int, y: int|
                    0 <= x < out@.len() && 0 <= y < self.repos@.len() ==> (#[trigger] repo_views(
                        out@,
                    )[x]).path != (#[trigger] repo_views(self.repos@)[y]).path,
                forall|x: int, y: int|
                    0 <= x < out@.len() && 0 <= y < self.repos@.len() ==> lex_le(
                        (#[trigger] repo_views(out@)[x]).path,
                        (#[trigger] repo_views(self.repos@)[y]).path,
                    ),
            decreases self.repos@.len(),
        {
            let ghost work = repo_views(self.repos@);
            let ghost pre_out = repo_views(out@);
            let mut m: usize = 0;
            let mut k: usize = 1;
            proof {
                lemma_lex_total(work[0].path, work[0].path);
            }
            while k < self.repos.len()
                invariant
                    work == repo_views(self.repos@),
                    self.repos@.len() > 0,
                    0 <= m < self.repos@.len(),
                    1 <= k <= self.repos@.len(),
                    forall|t: int|
                        0 <= t < k ==> lex_le(work[m as int].path, (#[trigger] work[t]).path),
                decreases self.repos@.len() - k,
            {
                proof {
                    assert(work[k as int] == self.repos@[k as int]@);
                    assert(work[m as int] == self.repos@[m as int]@);
                }
                if lex_le_str(self.repos[k].path.as_str(), self.repos[m].path.as_str()) {
                    proof {
                        assert forall|t: int| 0 <= t < k + 1 implies lex_le(
                            work[k as int].path,
                            (#[trigger] work[t]).path,
                        ) by {
                            if t < k {
                                lemma_lex_trans(
                                    work[k as int].path,
                                    work[m as int].path,
                                    work[t].path,
                                );
                            } else {
                                lemma_lex_total(work[k as int].path, work[k as int].path);
                            }
                        }
                    }
                    m = k;
                } else {
                    proof {
                        lemma_lex_total(work[m as int].path, work[k as int].path);
                    }
                }
                k = k + 1;
            }
            let ghost e = work[m as int];
            let picked = self.repos.remove(m);
            out.push(picked);
            proof {
                work.to_multiset_ensures();
                pre_out.to_multiset_ensures();
                work.remove(m as int).to_multiset_ensures();
                repo_views(out@).to_multiset_ensures();
                assert(picked@ == e);
                assert(repo_views(self.repos@) =~~= work.remove(m as int)) by {
                    assert forall|t: int| 0 <= t < repo_views(self.repos@).len() implies
                        repo_views(self.repos@)[t] == work.remove(m as int)[t] by {
                        if t < m {
                            assert(work.remove(m as int)[t] == work[t]);
                        } else {
                            assert(work.remove(m as int)[t] == work[t + 1]);
                        }
                    }
                }
                assert(repo_views(out@) =~~= pre_out.push(e));
                assert(work.contains(e));
                assert(work.to_multiset().count(e) > 0);
                assert(work.remove(m as int).to_multiset() =~= work.to_multiset().remove(e));
                assert(repo_views(out@).to_multiset() =~= pre_out.to_multiset().insert(e));
                assert(repo_views(out@).to_multiset().add(repo_views(self.repos@).to_multiset())
                    =~= pre_out.to_multiset().add(work.to_multiset()));
                assert forall|x: int, y: int|
                    0 <= x < out@.len() && 0 <= y < self.repos@.len() implies (#[trigger] repo_views(
                    out@,
                )[x]).path != (#[trigger] repo_views(self.repos@)[y]).path by {
                    let wy = if y < m { work[y] } else { work[y + 1] };
                    assert(repo_views(self.repos@)[y] == wy);
                    if x < pre_out.len() {
                        assert(repo_views(out@)[x] == pre_out[x]);
                    } else {
                        assert(repo_views(out@)[x] == e);
                    }
                }
                assert forall|x: int, y: int|
                    0 <= x < out@.len() && 0 <= y < self.repos@.len() implies lex_le(
                    (#[trigger] repo_views(out@)[x]).path,
                    (#[trigger] repo_views(self.repos@)[y]).path,
                ) by {
                    let wy = if y < m { work[y] } else { work[y + 1] };
                    assert(repo_views(self.repos@)[y] == wy);
                    if x < pre_out.len() {
                        assert(repo_views(out@)[x] == pre_out[x]);
                    } else {
                        assert(repo_views(out@)[x] == e);
                    }
                }
                assert(sorted_by_path(repo_views(out@))) by {
                    assert forall|i: int, j: int| 0 <= i < j < repo_views(out@).len() implies
                        lex_le(repo_views(out@)[i].path, repo_views(out@)[j].path) by {
                        if j == pre_out.len() {
                            assert(repo_views(out@)[i] == pre_out[i]);
                            assert(repo_views(out@)[j] == e);
                        } else {
                            assert(repo_views(out@)[i] == pre_out[i]);
                            assert(repo_views(out@)[j] == pre_out[j]);
                        }
                    }
                }
                assert(unique_paths(repo_views(out@))) by {
                    assert forall|i: int, j: int| 0 <= i < j < repo_views(out@).len() implies
                        repo_views(out@)[i].path != repo_views(out@)[j].path by {
                        if j == pre_out.len() {
                            assert(repo_views(out@)[i] == pre_out[i]);
                            assert(repo_views(out@)[j] == e);
                        } else {
                            assert(repo_views(out@)[i] == pre_out[i]);
                            assert(repo_views(out@)[j] == pre_out[j]);
                        }
                    }
                }
                assert(unique_paths(repo_views(self.repos@))) by {
                    assert forall|i: int, j: int| 0 <= i < j < repo_views(self.repos@).len()
                        implies repo_views(self.repos@)[i].path
                        != repo_views(self.repos@)[j].path by {
                        let wi = if i < m { work[i] } else { work[i + 1] };
                        let wj = if j < m { work[j] } else { work[j + 1] };
                        assert(repo_views(self.repos@)[i] == wi);
                        assert(repo_views(self.repos@)[j] == wj);
                    }
                }
            }
        }
        proof {
            assert(repo_views(self.repos@) =~~= Seq::<RepoV>::empty());
            assert(repo_views(out@).to_multiset().add(repo_views(self.repos@).to_multiset())
                =~= repo_views(out@).to_multiset());
        }
        self.repos = out;
    }
}

/// A refresh never grows the registry.
pub proof fn lemma_drop_len(rs: Seq<RepoV>, alive: Seq<Seq<char>>, excludes: Seq<Seq<char>>)
    ensures
        spec_drop(rs, alive, excludes).len() <= rs.len(),
    decreases rs.len(),
{
    if rs.len() > 0 {
        lemma_drop_len(rs.drop_last(), alive, excludes);
    }
}

} // verus!
