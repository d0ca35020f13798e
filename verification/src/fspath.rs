use vstd::prelude::*;
use crate::text::join_chars;
use crate::text::join_with;
use crate::text::split_chars;
use crate::text::split_on;
use crate::text::str_eq;
use crate::text::views;

verus! {

/// One step of lexical path normalization: empty and `.` segments vanish,
/// `..` pops the segment before it (or nothing at the root), anything else
/// is kept.
pub open spec fn canon_step(acc: Seq<Seq<char>>, p: Seq<char>) -> Seq<Seq<char>> {
    if p.len() == 0 || p == seq!['.'] {
        acc
    } else if p == seq!['.', '.'] {
        if acc.len() > 0 {
            acc.drop_last()
        } else {
            acc
        }
    } else {
        acc.push(p)
    }
}

/// Folding normalization over all segments.
pub open spec fn canon_fold(parts: Seq<Seq<char>>, acc: Seq<Seq<char>>) -> Seq<Seq<char>>
    decreases parts.len(),
{
    if parts.len() == 0 {
        acc
    } else {
        canon_fold(parts.skip(1), canon_step(acc, parts[0]))
    }
}

/// The canonical segments of a path interpreted against an absolute base:
/// an absolute path stands alone, a relative one is appended to the base.
pub open spec fn canon_segments(base: Seq<char>, path: Seq<char>) -> Seq<Seq<char>> {
    let full = if path.len() > 0 && path[0] == '/' {
        path
    } else {
        base + seq!['/'] + path
    };
    canon_fold(split_chars(full, '/'), Seq::<Seq<char>>::empty())
}

/// The canonical form itself: `/` followed by the segments, `/` alone for
/// the root.
pub open spec fn spec_canon(base: Seq<char>, path: Seq<char>) -> Seq<char> {
    seq!['/'] + join_chars(canon_segments(base, path), seq!['/'])
}

/// The display name a canonical path gives a repository: its last segment.
pub open spec fn spec_leaf(base: Seq<char>, path: Seq<char>) -> Seq<char> {
    let segs = canon_segments(base, path);
    if segs.len() == 0 {
        Seq::<char>::empty()
    } else {
        segs.last()
    }
}

/// Canonicalize `path` against the absolute `base`, returning the
/// canonical path and the derived display name.
pub fn canonicalize_path(base: &str, path: &str) -> (r: (String, String))
    ensures
        r.0@ == spec_canon(base@, path@),
        r.1@ == spec_leaf(base@, path@),
{
    let mut full = String::new();
    if path.unicode_len() > 0 && path.get_char(0) == '/' {
        full.append(path);
    } else {
        full.append(base);
        full.append("/");
        full.append(path);
    }
    proof {
        reveal_strlit("/");
        if !(path@.len() > 0 && path@[0] == '/') {
            assert(full@ =~= base@ + seq!['/'] + path@);
        }
    }
    let parts = split_on(full.as_str(), '/');
    let ghost all = views(parts@);
    let mut stack: Vec<String> = Vec::new();
    let mut i: usize = 0;
    proof {
        assert(all.skip(0) =~~= all);
        assert(views(stack@) =~~= Seq::<Seq<char>>::empty());
        assert(canon_fold(all.skip(0), views(stack@)) == canon_fold(all, Seq::<Seq<char>>::empty()));
    }
    while i < parts.len()
        invariant
            all == views(parts@),
            0 <= i <= parts.len(),
            canon_fold(all, Seq::<Seq<char>>::empty()) == canon_fold(
                all.skip(i as int),
                views(stack@),
            ),
        decreases parts.len() - i,
    {
        proof {
            assert(all.skip(i as int)[0] == all[i as int]);
            assert(all.skip(i as int).skip(1) =~~= all.skip(i as int + 1));
            assert(all[i as int] == parts@[i as int]@);
        }
        let ghost pre = views(stack@);
        let ghost p_spec = all[i as int];
        let p = &parts[i];
        if p.as_str().is_empty() || str_eq(p.as_str(), ".") {
            proof {
                reveal_strlit(".");
                assert("."@ =~= seq!['.']);
                assert(canon_step(pre, p_spec) =~~= pre);
            }
        } else if str_eq(p.as_str(), "..") {
            if stack.len() > 0 {
                stack.pop();
            }
            proof {
                reveal_strlit(".");
                reveal_strlit("..");
                assert("."@ =~= seq!['.']);
                assert(".."@ =~= seq!['.', '.']);
                assert(p_spec == seq!['.', '.']);
                assert(p_spec != seq!['.']);
                if pre.len() > 0 {
                    assert(views(stack@) =~~= pre.drop_last());
                    assert(canon_step(pre, p_spec) =~~= pre.drop_last());
                } else {
                    assert(canon_step(pre, p_spec) =~~= pre);
                }
            }
        } else {
            stack.push(p.clone());
            proof {
                reveal_strlit(".");
                reveal_strlit("..");
                assert("."@ =~= seq!['.']);
                assert(".."@ =~= seq!['.', '.']);
                assert(p_spec != seq!['.'] && p_spec != seq!['.', '.'] && p_spec.len() > 0);
                assert(views(stack@) =~~= pre.push(p_spec));
                assert(canon_step(pre, p_spec) =~~= pre.push(p_spec));
            }
        }
        proof {
            assert(views(stack@) =~~= canon_step(pre, p_spec));
        }
        i = i + 1;
    }
    proof {
        assert(all.skip(parts@.len() as int) =~~= Seq::<Seq<char>>::empty());
    }
    let joined = join_with(&stack, "/");
    let mut out = String::new();
    out.append("/");
    out.append(joined.as_str());
    proof {
        reveal_strlit("/");
        assert("/"@ =~= seq!['/']);
        assert(canon_fold(all, Seq::<Seq<char>>::empty()) == views(stack@));
        assert(all == split_chars(full@, '/'));
        assert(canon_segments(base@, path@) == views(stack@));
        assert(out@ =~= spec_canon(base@, path@));
    }
    let name = if stack.len() == 0 {
        String::new()
    } else {
        stack[stack.len() - 1].clone()
    };
    proof {
        if views(stack@).len() > 0 {
            assert(views(stack@).last() == stack@[stack@.len() - 1]@);
        }
    }
    (out, name)
}

} // verus!
