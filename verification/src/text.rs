use vstd::prelude::*;

verus! {

/// True when `c` occurs somewhere in `s`.
pub open spec fn contains_char(s: Seq<char>, c: char) -> bool {
    exists|i: int| 0 <= i < s.len() && s[i] == c
}

/// Smallest index at which `c` occurs in `s`, or -1 when it does not occur.
pub open spec fn index_of_first(s: Seq<char>, c: char) -> int
    decreases s.len(),
{
    if s.len() == 0 {
        -1
    } else if s[0] == c {
        0
    } else if index_of_first(s.skip(1), c) == -1 {
        -1
    } else {
        index_of_first(s.skip(1), c) + 1
    }
}

pub proof fn lemma_index_of_first(s: Seq<char>, c: char)
    ensures
        contains_char(s, c) <==> 0 <= index_of_first(s, c) < s.len(),
        !contains_char(s, c) <==> index_of_first(s, c) == -1,
        0 <= index_of_first(s, c) ==> s[index_of_first(s, c)] == c,
        forall|j: int| 0 <= j < index_of_first(s, c) ==> s[j] != c,
    decreases s.len(),
{
    if s.len() == 0 {
    } else if s[0] == c {
    } else {
        lemma_index_of_first(s.skip(1), c);
        assert forall|i: int| 0 <= i < s.len() && s[i] == c implies
            0 <= index_of_first(s, c) < s.len() by {
            assert(s.skip(1)[i - 1] == s[i]);
        }
        if contains_char(s.skip(1), c) {
            let w = choose|i: int| 0 <= i < s.skip(1).len() && s.skip(1)[i] == c;
            assert(s[w + 1] == c);
        }
        assert forall|j: int| 0 <= j < index_of_first(s, c) implies s[j] != c by {
            if j > 0 {
                assert(s.skip(1)[j - 1] == s[j]);
            }
        }
    }
}

/// Splitting a character sequence on a separator; the result always has at
/// least one part, and parts never contain the separator.
pub open spec fn split_chars(s: Seq<char>, sep: char) -> Seq<Seq<char>>
    decreases s.len(),
{
    if s.len() == 0 {
        seq![Seq::<char>::empty()]
    } else if s[0] == sep {
        seq![Seq::<char>::empty()] + split_chars(s.skip(1), sep)
    } else {
        let rest = split_chars(s.skip(1), sep);
        seq![seq![s[0]] + rest[0]] + rest.skip(1)
    }
}

pub proof fn lemma_split_len(s: Seq<char>, sep: char)
    ensures
        split_chars(s, sep).len() >= 1,
    decreases s.len(),
{
    if s.len() != 0 {
        lemma_split_len(s.skip(1), sep);
    }
}

/// Joining parts with a separator sequence.
pub open spec fn join_chars(parts: Seq<Seq<char>>, sep: Seq<char>) -> Seq<char>
    decreases parts.len(),
{
    if parts.len() == 0 {
        Seq::<char>::empty()
    } else if parts.len() == 1 {
        parts[0]
    } else {
        parts[0] + sep + join_chars(parts.skip(1), sep)
    }
}

/// How a split changes when one character is appended at the end.
pub proof fn lemma_split_push(s: Seq<char>, sep: char, c: char)
    ensures
        c == sep ==> split_chars(s.push(c), sep)
            == split_chars(s, sep).push(Seq::<char>::empty()),
        c != sep ==> split_chars(s.push(c), sep) == split_chars(s, sep).update(
            split_chars(s, sep).len() - 1,
            split_chars(s, sep).last().push(c),
        ),
    decreases s.len(),
{
    lemma_split_len(s, sep);
    if s.len() == 0 {
        assert(s.push(c)[0] == c);
        assert(s.push(c).skip(1) =~= Seq::<char>::empty());
        if c == sep {
            assert(split_chars(Seq::<char>::empty(), sep)
                =~~= seq![Seq::<char>::empty()]);
            assert(split_chars(s.push(c), sep) =~~= seq![Seq::<char>::empty()]
                + split_chars(s.push(c).skip(1), sep));
            assert(split_chars(s.push(c), sep)
                =~~= split_chars(s, sep).push(Seq::<char>::empty()));
        } else {
            assert(seq![c] + split_chars(Seq::<char>::empty(), sep)[0]
                =~= Seq::<char>::empty().push(c));
            assert(split_chars(s.push(c), sep) =~~= split_chars(s, sep).update(
                0,
                split_chars(s, sep).last().push(c),
            ));
        }
    } else {
        lemma_split_push(s.skip(1), sep, c);
        lemma_split_len(s.skip(1), sep);
        assert(s.push(c)[0] == s[0]);
        assert(s.push(c).skip(1) =~= s.skip(1).push(c));
        let rest = split_chars(s.skip(1), sep);
        let rest2 = split_chars(s.skip(1).push(c), sep);
        if s[0] == sep {
            if c == sep {
                assert(split_chars(s.push(c), sep)
                    =~~= split_chars(s, sep).push(Seq::<char>::empty()));
            } else {
                assert(split_chars(s.push(c), sep) =~~= split_chars(s, sep).update(
                    split_chars(s, sep).len() - 1,
                    split_chars(s, sep).last().push(c),
                ));
            }
        } else {
            if c == sep {
                assert(rest2[0] == rest[0]);
                assert(rest2.skip(1) =~~= rest.skip(1).push(Seq::<char>::empty()));
                assert(split_chars(s.push(c), sep)
                    =~~= split_chars(s, sep).push(Seq::<char>::empty()));
            } else {
                if rest.len() == 1 {
                    assert(rest2[0] == rest.last().push(c));
                    assert(split_chars(s.push(c), sep) =~~= split_chars(s, sep).update(
                        split_chars(s, sep).len() - 1,
                        split_chars(s, sep).last().push(c),
                    ));
                } else {
                    assert(rest2[0] == rest[0]);
                    assert(rest2.skip(1) =~~= rest.skip(1).update(
                        rest.skip(1).len() - 1,
                        rest.skip(1).last().push(c),
                    ));
                    assert(split_chars(s.push(c), sep) =~~= split_chars(s, sep).update(
                        split_chars(s, sep).len() - 1,
                        split_chars(s, sep).last().push(c),
                    ));
                }
            }
        }
    }
}

/// How a join changes when one part is appended at the end.
pub proof fn lemma_join_push(parts: Seq<Seq<char>>, sep: Seq<char>, p: Seq<char>)
    ensures
        parts.len() == 0 ==> join_chars(parts.push(p), sep) == p,
        parts.len() > 0 ==> join_chars(parts.push(p), sep)
            == join_chars(parts, sep) + sep + p,
    decreases parts.len(),
{
    if parts.len() == 0 {
        assert(join_chars(parts.push(p), sep) == parts.push(p)[0]);
        assert(parts.push(p)[0] == p);
    } else {
        lemma_join_push(parts.skip(1), sep, p);
        assert(parts.push(p).skip(1) =~= parts.skip(1).push(p));
        assert(parts.push(p)[0] == parts[0]);
        if parts.len() == 1 {
            assert(join_chars(parts.push(p), sep) =~= join_chars(parts, sep) + sep + p);
        } else {
            assert(join_chars(parts.push(p), sep) =~= join_chars(parts, sep) + sep + p);
        }
    }
}

/// Splitting a concatenation whose first half is free of the separator
/// peels off exactly that half.
pub proof fn lemma_split_concat(a: Seq<char>, sep: char, b: Seq<char>)
    requires
        !contains_char(a, sep),
    ensures
        split_chars(a + seq![sep] + b, sep) == seq![a] + split_chars(b, sep),
    decreases a.len(),
{
    let s = a + seq![sep] + b;
    if a.len() == 0 {
        assert(s[0] == sep);
        assert(s.skip(1) =~= b);
        assert(split_chars(s, sep) =~~= seq![a] + split_chars(b, sep));
    } else {
        assert(s[0] == a[0]);
        assert(a[0] != sep) by {
            assert(contains_char(a, sep) ==> false);
        }
        assert(s.skip(1) =~= a.skip(1) + seq![sep] + b);
        assert(!contains_char(a.skip(1), sep)) by {
            if contains_char(a.skip(1), sep) {
                let w = choose|i: int|
                    0 <= i < a.skip(1).len() && a.skip(1)[i] == sep;
                assert(a[w + 1] == sep);
            }
        }
        lemma_split_concat(a.skip(1), sep, b);
        lemma_split_len(b, sep);
        let rest = split_chars(a.skip(1) + seq![sep] + b, sep);
        assert(rest[0] == a.skip(1));
        assert(seq![a[0]] + rest[0] =~= a);
        assert(rest.skip(1) =~~= split_chars(b, sep));
        assert(split_chars(s, sep) =~~= seq![a] + split_chars(b, sep));
    }
}

/// A sequence free of the separator splits into itself alone.
pub proof fn lemma_split_nosep(s: Seq<char>, sep: char)
    requires
        !contains_char(s, sep),
    ensures
        split_chars(s, sep) == seq![s],
    decreases s.len(),
{
    if s.len() == 0 {
        assert(split_chars(s, sep) =~~= seq![s]);
    } else {
        assert(s[0] != sep) by {
            assert(contains_char(s, sep) ==> false);
        }
        assert(!contains_char(s.skip(1), sep)) by {
            if contains_char(s.skip(1), sep) {
                let w = choose|i: int|
                    0 <= i < s.skip(1).len() && s.skip(1)[i] == sep;
                assert(s[w + 1] == sep);
            }
        }
        lemma_split_nosep(s.skip(1), sep);
        assert(seq![s[0]] + s.skip(1) =~= s);
        assert(split_chars(s, sep) =~~= seq![s]);
    }
}

/// `s` with every leading occurrence of `c` removed.
pub open spec fn strip_leading(s: Seq<char>, c: char) -> Seq<char>
    decreases s.len(),
{
    if s.len() > 0 && s[0] == c {
        strip_leading(s.skip(1), c)
    } else {
        s
    }
}

pub proof fn lemma_strip_prefix(s: Seq<char>, c: char, i: int)
    requires
        0 <= i <= s.len(),
        forall|j: int| 0 <= j < i ==> s[j] == c,
    ensures
        strip_leading(s, c) == strip_leading(s.skip(i), c),
    decreases i,
{
    if i == 0 {
        assert(s.skip(0) =~= s);
    } else {
        assert(s.len() > 0 && s[0] == c);
        assert(forall|j: int| 0 <= j < i - 1 ==> s.skip(1)[j] == c);
        lemma_strip_prefix(s.skip(1), c, i - 1);
        assert(s.skip(1).skip(i - 1) =~= s.skip(i));
    }
}

/// The views of a vector of strings.
pub open spec fn views(parts: Seq<String>) -> Seq<Seq<char>> {
    parts.map_values(|p: String| p@)
}

/// Whether two strings hold the same characters.
pub fn str_eq(a: &str, b: &str) -> (r: bool)
    ensures
        r == (a@ == b@),
{
    let sa: String = a.to_owned();
    let sb: String = b.to_owned();
    sa == sb
}

/// First occurrence of `c` in `s`, as an index.
pub fn find_char(s: &str, c: char) -> (r: Option<usize>)
    ensures
        match r {
            Some(k) => k == index_of_first(s@, c),
            None => index_of_first(s@, c) == -1,
        },
{
    let n = s.unicode_len();
    let mut i: usize = 0;
    while i < n
        invariant
            n == s@.len(),
            0 <= i <= n,
            forall|j: int| 0 <= j < i ==> s@[j] != c,
        decreases n - i,
    {
        if s.get_char(i) == c {
            proof {
                lemma_index_of_first(s@, c);
            }
            return Some(i);
        }
        i = i + 1;
    }
    proof {
        lemma_index_of_first(s@, c);
    }
    None
}

/// Split a string on a separator character.
pub fn split_on(s: &str, sep: char) -> (parts: Vec<String>)
    ensures
        views(parts@) == split_chars(s@, sep),
{
    let n = s.unicode_len();
    let mut parts: Vec<String> = Vec::new();
    let mut start: usize = 0;
    let mut i: usize = 0;
    proof {
        assert(views(parts@).push(s@.subrange(0, 0))
            =~~= split_chars(s@.take(0), sep));
    }
    while i < n
        invariant
            n == s@.len(),
            0 <= start <= i <= n,
            views(parts@).push(s@.subrange(start as int, i as int))
                == split_chars(s@.take(i as int), sep),
        decreases n - i,
    {
        proof {
            assert(s@.take(i as int + 1) =~= s@.take(i as int).push(s@[i as int]));
            lemma_split_push(s@.take(i as int), sep, s@[i as int]);
            lemma_split_len(s@.take(i as int), sep);
        }
        if s.get_char(i) == sep {
            let piece = s.substring_char(start, i).to_owned();
            parts.push(piece);
            start = i + 1;
            proof {
                assert(views(parts@).push(s@.subrange(start as int, i as int + 1))
                    =~~= split_chars(s@.take(i as int + 1), sep));
            }
        } else {
            proof {
                assert(s@.subrange(start as int, i as int).push(s@[i as int])
                    =~= s@.subrange(start as int, i as int + 1));
                assert(views(parts@).push(s@.subrange(start as int, i as int + 1))
                    =~~= split_chars(s@.take(i as int + 1), sep));
            }
        }
        i = i + 1;
    }
    let last = s.substring_char(start, n).to_owned();
    parts.push(last);
    proof {
        assert(s@.take(n as int) =~= s@);
        assert(views(parts@) =~~= split_chars(s@, sep));
    }
    parts
}

/// Copy of `s` without its leading occurrences of `c`.
pub fn strip_leading_chars(s: &str, c: char) -> (r: String)
    ensures
        r@ == strip_leading(s@, c),
{
    let n = s.unicode_len();
    let mut i: usize = 0;
    while i < n && s.get_char(i) == c
        invariant
            n == s@.len(),
            0 <= i <= n,
            forall|j: int| 0 <= j < i ==> s@[j] == c,
        decreases n - i,
    {
        i = i + 1;
    }
    proof {
        lemma_strip_prefix(s@, c, i as int);
    }
    let r = s.substring_char(i, n).to_owned();
    proof {
        assert(s@.subrange(i as int, n as int) =~= s@.skip(i as int));
    }
    r
}

/// Join strings with a separator string.
pub fn join_with(parts: &Vec<String>, sep: &str) -> (r: String)
    ensures
        r@ == join_chars(views(parts@), sep@),
{
    let ghost ps = views(parts@);
    let mut r = String::new();
    let mut i: usize = 0;
    while i < parts.len()
        invariant
            ps == views(parts@),
            0 <= i <= parts.len(),
            r@ == join_chars(ps.take(i as int), sep@),
        decreases parts.len() - i,
    {
        proof {
            assert(ps.take(i as int + 1) =~= ps.take(i as int).push(ps[i as int]));
            lemma_join_push(ps.take(i as int), sep@, ps[i as int]);
        }
        if i > 0 {
            r.append(sep);
        }
        r.append(parts[i].as_str());
        i = i + 1;
    }
    proof {
        assert(ps.take(parts@.len() as int) =~= ps);
    }
    r
}

} // verus!
