use vstd::prelude::*;
use crate::registry::Registry;
use crate::registry::RepoV;
use crate::registry::Repository;
use crate::registry::has_path;
use crate::registry::spec_add;
use crate::registry::unique_paths;
use crate::text::contains_char;
use crate::text::find_char;
use crate::text::index_of_first;
use crate::text::lemma_index_of_first;
use crate::text::lemma_split_concat;
use crate::text::split_chars;
use crate::text::split_on;
use crate::text::views;

verus! {

/// One persisted record: the path, a tab, the name, a newline.
pub open spec fn record_line(r: RepoV) -> Seq<char> {
    r.path + seq!['\t'] + r.name + seq!['\n']
}

/// The whole persisted cache: the records in registry order.
pub open spec fn spec_save(rs: Seq<RepoV>) -> Seq<char>
    decreases rs.len(),
{
    if rs.len() == 0 {
        Seq::<char>::empty()
    } else {
        record_line(rs[0]) + spec_save(rs.skip(1))
    }
}

/// Reading one cache line back: everything before the first tab is the
/// path, the rest the name; a line without a tab, or with nothing before
/// it, is malformed and skipped.
pub open spec fn parse_line(l: Seq<char>) -> Option<RepoV> {
    let k = index_of_first(l, '\t');
    if k <= 0 {
        None
    } else {
        Some(RepoV { path: l.take(k), name: l.skip(k + 1), remote: None })
    }
}

/// Reading the cache back line by line: malformed lines are skipped, and
/// a line whose path is already present is ignored.
pub open spec fn spec_load_lines(lines: Seq<Seq<char>>, acc: Seq<RepoV>) -> Seq<RepoV>
    decreases lines.len(),
{
    if lines.len() == 0 {
        acc
    } else {
        match parse_line(lines[0]) {
            None => spec_load_lines(lines.skip(1), acc),
            Some(r) => spec_load_lines(lines.skip(1), spec_add(acc, r)),
        }
    }
}

/// What loading a cache text yields.
pub open spec fn spec_load(text: Seq<char>) -> Seq<RepoV> {
    spec_load_lines(split_chars(text, '\n'), Seq::<RepoV>::empty())
}

/// The same record without its remote; the cache does not persist remotes.
pub open spec fn strip_remote(r: RepoV) -> RepoV {
    RepoV { path: r.path, name: r.name, remote: None }
}

/// Records the cache format can carry exactly: non-empty paths without
/// tabs or newlines, names without newlines.
pub open spec fn clean_records(rs: Seq<RepoV>) -> bool {
    forall|i: int| 0 <= i < rs.len() ==> (#[trigger] rs[i]).path.len() > 0 && !contains_char(
        rs[i].path,
        '\t',
    ) && !contains_char(rs[i].path, '\n') && !contains_char(rs[i].name, '\n')
}

/// Write the registry out as cache text.
pub fn save_registry(reg: &Registry) -> (r: String)
    ensures
        r@ == spec_save(reg@),
{
    let mut out = String::new();
    let mut i: usize = 0;
    proof {
        assert(reg@.skip(0) =~~= reg@);
    }
    while i < reg.len()
        invariant
            0 <= i <= reg@.len(),
            spec_save(reg@) == out@ + spec_save(reg@.skip(i as int)),
        decreases reg@.len() - i,
    {
        proof {
            assert(reg@.skip(i as int)[0] == reg@[i as int]);
            assert(reg@.skip(i as int).skip(1) =~~= reg@.skip(i as int + 1));
        }
        let ghost pre = out@;
        let repo = reg.get(i);
        out.append(repo.path_string());
        out.append("\t");
        out.append(repo.name());
        out.append("\n");
        proof {
            reveal_strlit("\t");
            reveal_strlit("\n");
            assert("\t"@ =~= seq!['\t']);
            assert("\n"@ =~= seq!['\n']);
            assert(out@ =~= pre + record_line(reg@[i as int]));
            assert(spec_save(reg@) =~= out@ + spec_save(reg@.skip(i as int + 1)));
        }
        i = i + 1;
    }
    proof {
        assert(reg@.skip(reg@.len() as int) =~~= Seq::<RepoV>::empty());
        assert(spec_save(reg@) =~= out@);
    }
    out
}

/// Read cache text back into a registry, skipping malformed lines and
/// duplicate paths.
pub fn load_registry(text: &str) -> (r: Registry)
    ensures
        r@ == spec_load(text@),
        r.wf(),
{
    let lines = split_on(text, '\n');
    let ghost ls = views(lines@);
    let mut reg = Registry::new();
    let mut i: usize = 0;
    proof {
        assert(ls.skip(0) =~~= ls);
    }
    while i < lines.len()
        invariant
            ls == views(lines@),
            0 <= i <= lines@.len(),
            reg.wf(),
            spec_load_lines(ls, Seq::<RepoV>::empty()) == spec_load_lines(
                ls.skip(i as int),
                reg@,
            ),
        decreases lines@.len() - i,
    {
        proof {
            assert(ls.skip(i as int)[0] == ls[i as int]);
            assert(ls.skip(i as int).skip(1) =~~= ls.skip(i as int + 1));
            assert(ls[i as int] == lines@[i as int]@);
            lemma_index_of_first(ls[i as int], '\t');
        }
        let line = &lines[i];
        let n = line.as_str().unicode_len();
        let parsed = find_char(line.as_str(), '\t');
        match parsed {
            Some(k) => {
                if k >= 1 {
                    let path = line.as_str().substring_char(0, k).to_owned();
                    let name = line.as_str().substring_char(k + 1, n).to_owned();
                    let repo = Repository::new(path, name, None);
                    proof {
                        assert(line@.subrange(0, k as int) =~= ls[i as int].take(k as int));
                        assert(line@.subrange(k as int + 1, n as int) =~= ls[i as int].skip(
                            k as int + 1,
                        ));
                        assert(repo@ =~= parse_line(ls[i as int]).unwrap());
                    }
                    reg.add_repository(repo);
                }
            },
            None => {},
        }
        i = i + 1;
    }
    proof {
        assert(ls.skip(lines@.len() as int) =~~= Seq::<Seq<char>>::empty());
    }
    reg
}

/// Loading what was saved reproduces the registry: the same paths and
/// names in the same order, with only the unpersisted remotes gone.
pub proof fn lemma_save_load_roundtrip(rs: Seq<RepoV>)
    requires
        clean_records(rs),
        unique_paths(rs),
    ensures
        spec_load(spec_save(rs)) == rs.map_values(|r: RepoV| strip_remote(r)),
{
    lemma_roundtrip_lines(rs, Seq::<RepoV>::empty());
    assert(Seq::<RepoV>::empty() + rs.map_values(|r: RepoV| strip_remote(r)) =~~= rs.map_values(
        |r: RepoV| strip_remote(r),
    ));
}

proof fn lemma_roundtrip_lines(rs: Seq<RepoV>, acc: Seq<RepoV>)
    requires
        clean_records(rs),
        unique_paths(rs),
        forall|i: int| 0 <= i < rs.len() ==> !has_path(acc, (#[trigger] rs[i]).path),
    ensures
        spec_load_lines(split_chars(spec_save(rs), '\n'), acc) == acc + rs.map_values(
            |r: RepoV| strip_remote(r),
        ),
    decreases rs.len(),
{
    if rs.len() == 0 {
        lemma_index_of_first(Seq::<char>::empty(), '\t');
        assert(split_chars(Seq::<char>::empty(), '\n') =~~= seq![Seq::<char>::empty()]);
        assert(seq![Seq::<char>::empty()].skip(1) =~~= Seq::<Seq<char>>::empty());
        assert(parse_line(Seq::<char>::empty()) is None);
        assert(seq![Seq::<char>::empty()][0] == Seq::<char>::empty());
        assert(spec_load_lines(seq![Seq::<char>::empty()], acc) == spec_load_lines(
            seq![Seq::<char>::empty()].skip(1),
            acc,
        ));
        assert(spec_load_lines(Seq::<Seq<char>>::empty(), acc) == acc);
        assert(spec_load_lines(split_chars(spec_save(rs), '\n'), acc) == acc);
        assert(acc + rs.map_values(|r: RepoV| strip_remote(r)) =~~= acc);
    } else {
        let r0 = rs[0];
        let body = r0.path + seq!['\t'] + r0.name;
        assert(!contains_char(body, '\n')) by {
            if contains_char(body, '\n') {
                let w = choose|w: int| 0 <= w < body.len() && body[w] == '\n';
                if w < r0.path.len() {
                    assert(r0.path[w] == '\n');
                } else if w == r0.path.len() {
                    assert(body[w] == '\t');
                } else {
                    assert(r0.name[w - r0.path.len() - 1] == '\n');
                }
            }
        }
        assert(spec_save(rs) =~= body + seq!['\n'] + spec_save(rs.skip(1)));
        lemma_split_concat(body, '\n', spec_save(rs.skip(1)));
        let tail_lines = split_chars(spec_save(rs.skip(1)), '\n');
        assert(split_chars(spec_save(rs), '\n') == seq![body] + tail_lines);
        assert((seq![body] + tail_lines)[0] == body);
        assert((seq![body] + tail_lines).skip(1) =~~= tail_lines);
        // The first tab of the line stands exactly after the path.
        lemma_index_of_first(body, '\t');
        assert(body[r0.path.len() as int] == '\t');
        assert forall|j: int| 0 <= j < r0.path.len() implies body[j] != '\t' by {
            assert(body[j] == r0.path[j]);
            if r0.path[j] == '\t' {
                assert(contains_char(r0.path, '\t'));
            }
        }
        let k = index_of_first(body, '\t');
        assert(0 <= k < body.len());
        assert(k == r0.path.len()) by {
            if k < r0.path.len() {
                assert(body[k] != '\t');
            }
            if k > r0.path.len() {
                assert(body[r0.path.len() as int] != '\t');
            }
        }
        assert(body.take(k) =~= r0.path);
        assert(body.skip(k + 1) =~= r0.name);
        assert(parse_line(body) == Some(strip_remote(r0))) by {
            assert(parse_line(body).unwrap() =~= strip_remote(r0));
        }
        assert(!has_path(acc, r0.path));
        assert(spec_add(acc, strip_remote(r0)) == acc.push(strip_remote(r0)));
        let acc2 = acc.push(strip_remote(r0));
        assert forall|i: int| 0 <= i < rs.skip(1).len() implies !has_path(
            acc2,
            (#[trigger] rs.skip(1)[i]).path,
        ) by {
            assert(rs.skip(1)[i] == rs[i + 1]);
            if has_path(acc2, rs[i + 1].path) {
                let w = choose|w: int| 0 <= w < acc2.len() && acc2[w].path == rs[i + 1].path;
                if w < acc.len() {
                    assert(acc[w].path == rs[i + 1].path);
                    assert(has_path(acc, rs[i + 1].path));
                } else {
                    assert(acc2[w] == strip_remote(r0));
                    assert(rs[0].path == rs[i + 1].path);
                }
            }
        }
        assert(clean_records(rs.skip(1))) by {
            assert forall|i: int| 0 <= i < rs.skip(1).len() implies (#[trigger] rs.skip(
                1,
            )[i]).path.len() > 0 && !contains_char(rs.skip(1)[i].path, '\t') && !contains_char(
                rs.skip(1)[i].path,
                '\n',
            ) && !contains_char(rs.skip(1)[i].name, '\n') by {
                assert(rs.skip(1)[i] == rs[i + 1]);
            }
        }
        assert(unique_paths(rs.skip(1))) by {
            assert forall|i: int, j: int| 0 <= i < j < rs.skip(1).len() implies rs.skip(
                1,
            )[i].path != rs.skip(1)[j].path by {
                assert(rs.skip(1)[i] == rs[i + 1]);
                assert(rs.skip(1)[j] == rs[j + 1]);
            }
        }
        lemma_roundtrip_lines(rs.skip(1), acc2);
        assert(spec_load_lines(split_chars(spec_save(rs), '\n'), acc) == spec_load_lines(
            tail_lines,
            acc2,
        ));
        assert(acc2 + rs.skip(1).map_values(|r: RepoV| strip_remote(r)) =~~= acc + rs.map_values(
            |r: RepoV| strip_remote(r),
        ));
    }
}

} // verus!
