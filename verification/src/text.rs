//! Character-level helpers shared by the diff parser and the classifier:
//! finding a character, splitting text into lines, and trimming
//! whitespace.

use vstd::prelude::*;

verus! {

/// Index of the first occurrence of `c` in `s` at or after `from`,
/// or `s.len()` if there is none.
pub open spec fn find_from(s: Seq<char>, c: char, from: int) -> int
    decreases s.len() - from,
{
    if from < 0 {
        find_from(s, c, 0)
    } else if from >= s.len() {
        s.len() as int
    } else if s[from] == c {
        from
    } else {
        find_from(s, c, from + 1)
    }
}

/// `find_from` returns an index between `from` and `s.len()`; it points at
/// `c` when it is below `s.len()`, and no earlier position at or after
/// `from` holds `c`.
pub proof fn lemma_find_from(s: Seq<char>, c: char, from: int)
    requires
        0 <= from <= s.len(),
    ensures
        from <= find_from(s, c, from) <= s.len(),
        find_from(s, c, from) < s.len() ==> s[find_from(s, c, from)] == c,
        forall|i: int| from <= i < find_from(s, c, from) ==> s[i] != c,
    decreases s.len() - from,
{
    if from < s.len() && s[from] != c {
        lemma_find_from(s, c, from + 1);
    }
}

/// A line's trailing carriage return, left over from a `\r\n` line ending,
/// is not part of the line.
pub open spec fn strip_cr(t: Seq<char>) -> Seq<char> {
    if t.len() > 0 && t.last() == '\r' {
        t.drop_last()
    } else {
        t
    }
}

/// The lines of `s` starting at position `i`: segments separated by `\n`,
/// each with a trailing `\r` removed, the final segment kept only when it
/// is non-empty (a trailing line ending opens no further line).
pub open spec fn lines_from(s: Seq<char>, i: int) -> Seq<Seq<char>>
    decreases s.len() - i,
    via lines_from_decreases
{
    if i < 0 || i >= s.len() {
        Seq::empty()
    } else {
        let n = find_from(s, '\n', i);
        if n >= s.len() {
            seq![s.subrange(i, s.len() as int)]
        } else {
            seq![strip_cr(s.subrange(i, n))] + lines_from(s, n + 1)
        }
    }
}

#[via_fn]
proof fn lines_from_decreases(s: Seq<char>, i: int) {
    if 0 <= i < s.len() {
        lemma_find_from(s, '\n', i);
    }
}

/// The lines of the whole of `s`.
pub open spec fn spec_lines(s: Seq<char>) -> Seq<Seq<char>> {
    lines_from(s, 0)
}

/// Splits text into lines at `\n`, removing a trailing `\r` from each line.
pub fn split_lines(text: &str) -> (r: Vec<String>)
    ensures
        r.deep_view() == spec_lines(text@),
{
    let n: usize = text.unicode_len();
    let mut r: Vec<String> = Vec::new();
    let mut i: usize = 0;
    while i < n
        invariant
            i <= n,
            n == text@.len(),
            spec_lines(text@) =~= r.deep_view() + lines_from(text@, i as int),
        decreases n - i,
    {
        let ghost prev = r.deep_view();
        let j = find_char(text, '\n', i);
        if j == n {
            let seg = text.substring_char(i, n);
            r.push(seg.to_owned());
            proof {
                assert(lines_from(text@, i as int) =~= seq![text@.subrange(i as int, n as int)]);
                assert(r.deep_view() =~= prev + seq![seg@]);
            }
            i = n;
        } else {
            let end: usize = if j > i && text.get_char(j - 1) == '\r' {
                j - 1
            } else {
                j
            };
            let seg = text.substring_char(i, end);
            r.push(seg.to_owned());
            proof {
                assert(text@.subrange(i as int, j as int).len() == j - i);
                if j > i && text@[j - 1] == '\r' {
                    assert(text@.subrange(i as int, j as int).last() == text@[j - 1]);
                    assert(text@.subrange(i as int, j as int).drop_last() =~= text@.subrange(
                        i as int,
                        j - 1,
                    ));
                } else if j > i {
                    assert(text@.subrange(i as int, j as int).last() == text@[j - 1]);
                }
                assert(strip_cr(text@.subrange(i as int, j as int)) =~= text@.subrange(
                    i as int,
                    end as int,
                ));
                assert(r.deep_view() =~= prev + seq![seg@]);
                assert(prev + lines_from(text@, i as int) =~= (prev + seq![seg@]) + lines_from(
                    text@,
                    j + 1,
                ));
            }
            i = j + 1;
        }
    }
    proof {
        assert(lines_from(text@, i as int) =~= Seq::<Seq<char>>::empty());
        assert(r.deep_view() + Seq::<Seq<char>>::empty() =~= r.deep_view());
    }
    r
}

/// Whitespace that trimming removes at the ends of a category name.
pub open spec fn is_ws(c: char) -> bool {
    c == ' ' || c == '\t'
}

/// `t` without its leading whitespace.
pub open spec fn trim_start(t: Seq<char>) -> Seq<char>
    decreases t.len(),
{
    if t.len() > 0 && is_ws(t[0]) {
        trim_start(t.drop_first())
    } else {
        t
    }
}

/// `t` without its trailing whitespace.
pub open spec fn trim_end(t: Seq<char>) -> Seq<char>
    decreases t.len(),
{
    if t.len() > 0 && is_ws(t.last()) {
        trim_end(t.drop_last())
    } else {
        t
    }
}

/// `t` without leading and trailing whitespace.
pub open spec fn trim_ws(t: Seq<char>) -> Seq<char> {
    trim_end(trim_start(t))
}

/// Removes leading and trailing spaces and tabs.
pub fn trim(s: &str) -> (r: &str)
    ensures
        r@ == trim_ws(s@),
{
    let n: usize = s.unicode_len();
    let mut a: usize = 0;
    proof {
        assert(s@.skip(0) =~= s@);
    }
    while a < n && (s.get_char(a) == ' ' || s.get_char(a) == '\t')
        invariant
            a <= n,
            n == s@.len(),
            trim_start(s@) == trim_start(s@.skip(a as int)),
        decreases n - a,
    {
        proof {
            assert(s@.skip(a as int).drop_first() =~= s@.skip(a + 1));
        }
        a = a + 1;
    }
    let ghost u = s@.skip(a as int);
    proof {
        assert(trim_start(s@) == u);
    }
    let mut b: usize = n;
    while b > a && (s.get_char(b - 1) == ' ' || s.get_char(b - 1) == '\t')
        invariant
            a <= b <= n,
            n == s@.len(),
            u == s@.skip(a as int),
            trim_end(u) == trim_end(s@.subrange(a as int, b as int)),
        decreases b,
    {
        proof {
            let t = s@.subrange(a as int, b as int);
            assert(t.last() == s@[b - 1]);
            assert(t.drop_last() =~= s@.subrange(a as int, b - 1));
        }
        b = b - 1;
    }
    proof {
        let t = s@.subrange(a as int, b as int);
        if b > a {
            assert(t.last() == s@[b - 1]);
        }
        assert(trim_end(t) == t);
    }
    let r = s.substring_char(a, b);
    proof {
        assert(u.take(b - a) =~= s@.subrange(a as int, b as int));
    }
    r
}

/// Executable counterpart of `find_from`.
pub fn find_char(s: &str, c: char, from: usize) -> (r: usize)
    requires
        from <= s@.len(),
    ensures
        r == find_from(s@, c, from as int),
        from <= r <= s@.len(),
        r < s@.len() ==> s@[r as int] == c,
{
    let n: usize = s.unicode_len();
    let mut i: usize = from;
    while i < n
        invariant
            from <= i <= n,
            n == s@.len(),
            find_from(s@, c, from as int) == find_from(s@, c, i as int),
        decreases n - i,
    {
        if s.get_char(i) == c {
            return i;
        }
        i = i + 1;
    }
    i
}

} // verus!
