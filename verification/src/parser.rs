//! The unified-diff hunk parser.
//!
//! The parser walks the lines of a patch for a single file and keeps a
//! 0-indexed cursor into the *target* (post-change) file.  A hunk header
//! (`@@ -a,b +c,d @@ ...`) resets the cursor to `c - 1` and opens a new
//! hunk; an addition line (`+...`) records `(cursor, text)` and advances
//! the cursor; a context line advances the cursor; a removal line
//! (`-...`) describes a line that does not exist in the target file, so
//! it leaves the cursor where it is.

use vstd::prelude::*;

use crate::text::{find_from, lemma_find_from, find_char, spec_lines, split_lines};

verus! {

/// Why a patch was rejected.
#[derive(Clone, Copy, Debug, PartialEq, Eq, Structural)]
pub enum ParseError {
    /// A hunk header holds no `+`.
    MissingPlus,
    /// A hunk header holds no `,` after its `+`.
    MissingComma,
    /// The target start between `+` and `,` is empty, not a decimal
    /// number, zero, or too large for this machine.
    BadStart,
    /// The target cursor ran past the machine's largest line index.
    CursorOverflow,
}

/// One contiguous block of changes: the added lines it contributes,
/// each as a (0-indexed target line number, text) pair.
#[derive(Debug, PartialEq, Eq)]
pub struct Hunk {
    pub added_lines: Vec<(usize, String)>,
}

/// The mathematical content of a sequence of (line number, text) pairs.
pub open spec fn pairs_view(ps: Seq<(usize, String)>) -> Seq<(int, Seq<char>)> {
    ps.map_values(|p: (usize, String)| (p.0 as int, p.1@))
}

impl View for Hunk {
    type V = Seq<(int, Seq<char>)>;

    open spec fn view(&self) -> Seq<(int, Seq<char>)> {
        pairs_view(self.added_lines@)
    }
}

/// The mathematical content of a sequence of hunks.
pub open spec fn hunks_view(hs: Seq<Hunk>) -> Seq<Seq<(int, Seq<char>)>> {
    hs.map_values(|h: Hunk| h@)
}

/// A line that opens a hunk: it starts with `@@ `.
pub open spec fn is_hunk_header(l: Seq<char>) -> bool {
    l.len() >= 3 && l[0] == '@' && l[1] == '@' && l[2] == ' '
}

/// A line recording an addition to the target file.
pub open spec fn is_addition(l: Seq<char>) -> bool {
    l.len() >= 1 && l[0] == '+'
}

/// A line recording a removal from the source file; it has no position
/// in the target file.
pub open spec fn is_removal(l: Seq<char>) -> bool {
    l.len() >= 1 && l[0] == '-'
}

/// A decimal digit.
pub open spec fn is_digit(c: char) -> bool {
    48 <= c as u32 <= 57
}

pub open spec fn all_digits(s: Seq<char>) -> bool {
    forall|i: int| 0 <= i < s.len() ==> is_digit(#[trigger] s[i])
}

/// The value of a string of decimal digits.
pub open spec fn digits_val(s: Seq<char>) -> int
    decreases s.len(),
{
    if s.len() == 0 {
        0
    } else {
        digits_val(s.drop_last()) * 10 + (s.last() as u32 - 48)
    }
}

/// The 1-indexed target start a hunk header carries: the decimal number
/// between the header's first `+` and the first `,` after it.
pub open spec fn header_start(l: Seq<char>) -> Result<int, ParseError> {
    let p = find_from(l, '+', 0);
    if p >= l.len() {
        Err(ParseError::MissingPlus)
    } else {
        let q = find_from(l, ',', p + 1);
        if q >= l.len() {
            Err(ParseError::MissingComma)
        } else {
            let num = l.subrange(p + 1, q);
            if num.len() > 0 && all_digits(num) && 1 <= digits_val(num) <= usize::MAX {
                Ok(digits_val(num))
            } else {
                Err(ParseError::BadStart)
            }
        }
    }
}

/// The parser's state between two lines of the patch.
#[verifier::ext_equal]
pub ghost struct ParseState {
    /// 0-indexed position in the target file of the next line that
    /// exists there.
    pub cursor: int,
    /// Whether a hunk header has been seen and its hunk is still open.
    pub in_hunk: bool,
    /// The added lines of the open hunk.
    pub cur: Seq<(int, Seq<char>)>,
    /// The hunks already closed, in patch order.
    pub hunks: Seq<Seq<(int, Seq<char>)>>,
}

pub open spec fn initial_state() -> ParseState {
    ParseState { cursor: 0, in_hunk: false, cur: Seq::empty(), hunks: Seq::empty() }
}

/// How one line of the patch transforms the parser's state.
pub open spec fn parse_step(st: ParseState, l: Seq<char>) -> Result<ParseState, ParseError> {
    if is_hunk_header(l) {
        match header_start(l) {
            Ok(c) => Ok(
                ParseState {
                    cursor: c - 1,
                    in_hunk: true,
                    cur: Seq::empty(),
                    hunks: if st.in_hunk {
                        st.hunks.push(st.cur)
                    } else {
                        st.hunks
                    },
                },
            ),
            Err(e) => Err(e),
        }
    } else if is_addition(l) {
        if st.cursor >= usize::MAX {
            Err(ParseError::CursorOverflow)
        } else {
            Ok(
                ParseState {
                    cursor: st.cursor + 1,
                    in_hunk: st.in_hunk,
                    cur: if st.in_hunk {
                        st.cur.push((st.cursor, l.drop_first()))
                    } else {
                        st.cur
                    },
                    hunks: st.hunks,
                },
            )
        }
    } else if is_removal(l) {
        Ok(st)
    } else {
        if st.cursor >= usize::MAX {
            Err(ParseError::CursorOverflow)
        } else {
            Ok(
                ParseState {
                    cursor: st.cursor + 1,
                    in_hunk: st.in_hunk,
                    cur: st.cur,
                    hunks: st.hunks,
                },
            )
        }
    }
}

/// The parser run over a sequence of patch lines, from a given state.
pub open spec fn run_from(st: ParseState, ls: Seq<Seq<char>>) -> Result<ParseState, ParseError>
    decreases ls.len(),
{
    if ls.len() == 0 {
        Ok(st)
    } else {
        match parse_step(st, ls[0]) {
            Ok(st2) => run_from(st2, ls.drop_first()),
            Err(e) => Err(e),
        }
    }
}

/// At end of input the open hunk, if any, is closed.
pub open spec fn finish(st: ParseState) -> Seq<Seq<(int, Seq<char>)>> {
    if st.in_hunk {
        st.hunks.push(st.cur)
    } else {
        st.hunks
    }
}

/// What `parse_hunks` returns, stated over the text of the patch.
pub open spec fn spec_parse_hunks(s: Seq<char>) -> Result<Seq<Seq<(int, Seq<char>)>>, ParseError> {
    match run_from(initial_state(), spec_lines(s)) {
        Ok(st) => Ok(finish(st)),
        Err(e) => Err(e),
    }
}

/// All hunks' added lines, concatenated in patch order.
pub open spec fn flatten_hunks(hs: Seq<Seq<(int, Seq<char>)>>) -> Seq<(int, Seq<char>)>
    decreases hs.len(),
{
    if hs.len() == 0 {
        Seq::empty()
    } else {
        hs[0] + flatten_hunks(hs.drop_first())
    }
}

/// Concatenation distributes over closing one more hunk.
pub proof fn lemma_flatten_push(hs: Seq<Seq<(int, Seq<char>)>>, h: Seq<(int, Seq<char>)>)
    ensures
        flatten_hunks(hs.push(h)) =~= flatten_hunks(hs) + h,
    decreases hs.len(),
{
    if hs.len() == 0 {
        assert(hs.push(h)[0] =~= h);
        assert(hs.push(h).drop_first() =~= Seq::<Seq<(int, Seq<char>)>>::empty());
        assert(flatten_hunks(Seq::<Seq<(int, Seq<char>)>>::empty())
            == Seq::<(int, Seq<char>)>::empty());
        assert(flatten_hunks(hs.push(h)) =~= h);
        assert(flatten_hunks(hs) + h =~= h);
    } else {
        assert(hs.push(h).drop_first() =~= hs.drop_first().push(h));
        lemma_flatten_push(hs.drop_first(), h);
        assert(flatten_hunks(hs.push(h)) == hs[0] + flatten_hunks(hs.drop_first().push(h)));
    }
}

/// Flattening one hunk more extends the flat list by that hunk.
pub proof fn lemma_flatten_take_succ(hs: Seq<Seq<(int, Seq<char>)>>, i: int)
    requires
        0 <= i < hs.len(),
    ensures
        flatten_hunks(hs.take(i + 1)) =~= flatten_hunks(hs.take(i)) + hs[i],
{
    assert(hs.take(i + 1) =~= hs.take(i).push(hs[i]));
    lemma_flatten_push(hs.take(i), hs[i]);
}

/// Flattens the hunks of a parse into the full list of added lines, in
/// patch order: each pair holds the 0-indexed target line number and the
/// text after the `+` marker.
pub fn added_lines(hunks: &Vec<Hunk>) -> (r: Vec<(usize, String)>)
    ensures
        pairs_view(r@) == flatten_hunks(hunks_view(hunks@)),
{
    let ghost hv = hunks_view(hunks@);
    let mut r: Vec<(usize, String)> = Vec::new();
    let mut i: usize = 0;
    proof {
        assert(pairs_view(r@) =~= flatten_hunks(hv.take(0)));
    }
    while i < hunks.len()
        invariant
            i <= hunks.len(),
            hv == hunks_view(hunks@),
            pairs_view(r@) == flatten_hunks(hv.take(i as int)),
        decreases hunks.len() - i,
    {
        let ghost pre = pairs_view(r@);
        let h: &Hunk = &hunks[i];
        proof {
            assert(h@ == hv[i as int]);
        }
        let mut j: usize = 0;
        proof {
            assert(pairs_view(r@) =~= pre + h@.take(0));
        }
        while j < h.added_lines.len()
            invariant
                j <= h.added_lines.len(),
                h@ == hv[i as int],
                pre == flatten_hunks(hv.take(i as int)),
                pairs_view(r@) == pre + h@.take(j as int),
            decreases h.added_lines.len() - j,
        {
            let p: &(usize, String) = &h.added_lines[j];
            let num: usize = p.0;
            let text: String = p.1.clone();
            let ghost gt = text@;
            let ghost rv = r@;
            r.push((num, text));
            proof {
                assert(h.added_lines@[j as int].0 == num);
                assert(h.added_lines@[j as int].1@ == gt);
                assert(j <= h.added_lines@.len());
                assert(h@.len() == h.added_lines@.len());
                assert(h@.take(j as int).len() == j);
                assert(pairs_view(rv).len() == rv.len());
                assert(pairs_view(rv) == pre + h@.take(j as int));
                assert(pre.len() + j == rv.len());
                assert forall|k: int| 0 <= k < r@.len() implies #[trigger] pairs_view(r@)[k] == (
                pre + h@.take(j + 1))[k] by {
                    assert(pairs_view(r@)[k] == (r@[k].0 as int, r@[k].1@));
                    if k < rv.len() {
                        assert(r@[k] == rv[k]);
                        assert(pairs_view(rv)[k] == (rv[k].0 as int, rv[k].1@));
                        assert(pairs_view(rv)[k] == (pre + h@.take(j as int))[k]);
                        if k >= pre.len() {
                            assert((pre + h@.take(j as int))[k] == h@[k - pre.len()]);
                            assert((pre + h@.take(j + 1))[k] == h@[k - pre.len()]);
                        }
                    } else {
                        assert(r@[k].0 == num && r@[k].1@ == gt);
                        assert((pre + h@.take(j + 1))[k] == h@[j as int]);
                        assert(h@[j as int] == (num as int, gt));
                    }
                }
                assert(pairs_view(r@) =~= pre + h@.take(j + 1));
            }
            j = j + 1;
        }
        proof {
            assert(h@.take(h.added_lines@.len() as int) =~= h@);
            lemma_flatten_take_succ(hv, i as int);
            assert(pairs_view(r@) == flatten_hunks(hv.take(i + 1)));
        }
        i = i + 1;
    }
    proof {
        assert(hv.take(hunks@.len() as int) =~= hv);
    }
    r
}

/// All added lines a state has recorded: those of the closed hunks,
/// then those of the open one.
pub open spec fn all_added(st: ParseState) -> Seq<(int, Seq<char>)> {
    flatten_hunks(st.hunks) + st.cur
}

/// Positions strictly increase through the list of added lines.
pub open spec fn strictly_increasing(adds: Seq<(int, Seq<char>)>) -> bool {
    forall|a: int, b: int|
        0 <= a < b < adds.len() ==> (#[trigger] adds[a]).0 < (#[trigger] adds[b]).0
}

/// A parser state in good standing: recorded positions strictly
/// increase, all lie below the cursor, and with no hunk open nothing is
/// pending.
pub open spec fn state_inv(st: ParseState) -> bool {
    &&& strictly_increasing(all_added(st))
    &&& forall|k: int| 0 <= k < all_added(st).len() ==> (#[trigger] all_added(st)[k]).0 < st.cursor
    &&& (!st.in_hunk ==> st.cur.len() == 0)
}

/// A patch whose hunk headers never step backwards: each header carries
/// a target start at or past the cursor the parser brings to it.  Any
/// well-formed unified diff is of this shape, since its hunks cover
/// disjoint target ranges in ascending order.
pub open spec fn headers_ordered_from(st: ParseState, ls: Seq<Seq<char>>) -> bool
    decreases ls.len(),
{
    ls.len() == 0 || {
        &&& (is_hunk_header(ls[0]) ==> (header_start(ls[0]) matches Ok(c) && c - 1 >= st.cursor))
        &&& (match parse_step(st, ls[0]) {
            Ok(st2) => headers_ordered_from(st2, ls.drop_first()),
            Err(_) => true,
        })
    }
}

proof fn lemma_run_keeps_inv(st: ParseState, ls: Seq<Seq<char>>)
    requires
        state_inv(st),
        headers_ordered_from(st, ls),
    ensures
        run_from(st, ls) matches Ok(st2) ==> state_inv(st2),
    decreases ls.len(),
{
    if ls.len() > 0 {
        let l = ls[0];
        match parse_step(st, l) {
            Ok(st2) => {
                if is_hunk_header(l) {
                    if st.in_hunk {
                        lemma_flatten_push(st.hunks, st.cur);
                        assert(all_added(st2) =~= all_added(st));
                    } else {
                        assert(st.cur =~= Seq::<(int, Seq<char>)>::empty());
                        assert(all_added(st2) =~= all_added(st));
                    }
                } else if is_addition(l) {
                    if st.in_hunk {
                        assert(all_added(st2) =~= all_added(st).push((st.cursor, l.drop_first())));
                    } else {
                        assert(all_added(st2) =~= all_added(st));
                    }
                } else {
                    assert(all_added(st2) =~= all_added(st));
                }
                assert(state_inv(st2));
                lemma_run_keeps_inv(st2, ls.drop_first());
            },
            Err(_) => {},
        }
    }
}

/// LAW: over a patch whose hunk headers never step backwards — the shape
/// of every well-formed unified diff — the added-line positions of a
/// successful parse are strictly increasing across the whole patch: no
/// duplicates and no inversions.
pub proof fn lemma_added_positions_strictly_increase(ls: Seq<Seq<char>>)
    requires
        headers_ordered_from(initial_state(), ls),
    ensures
        run_from(initial_state(), ls) matches Ok(st) ==> strictly_increasing(
            flatten_hunks(finish(st)),
        ),
{
    let st0 = initial_state();
    assert(all_added(st0) =~= Seq::<(int, Seq<char>)>::empty());
    assert(state_inv(st0));
    lemma_run_keeps_inv(st0, ls);
    let r = run_from(st0, ls);
    if r is Ok {
        let st = r->Ok_0;
        if st.in_hunk {
            lemma_flatten_push(st.hunks, st.cur);
            assert(flatten_hunks(finish(st)) =~= all_added(st));
        } else {
            assert(st.cur.len() == 0);
            assert(flatten_hunks(finish(st)) =~= all_added(st));
        }
    }
}

/// Every hunk of a state is internally ordered, and the open hunk's
/// positions all lie below the cursor.
spec fn hunks_ordered(st: ParseState) -> bool {
    &&& forall|h: int| 0 <= h < st.hunks.len() ==> strictly_increasing(#[trigger] st.hunks[h])
    &&& strictly_increasing(st.cur)
    &&& forall|k: int| 0 <= k < st.cur.len() ==> (#[trigger] st.cur[k]).0 < st.cursor
}

proof fn lemma_run_keeps_hunks_ordered(st: ParseState, ls: Seq<Seq<char>>)
    requires
        hunks_ordered(st),
    ensures
        run_from(st, ls) matches Ok(st2) ==> hunks_ordered(st2),
    decreases ls.len(),
{
    if ls.len() > 0 {
        let l = ls[0];
        match parse_step(st, l) {
            Ok(st2) => {
                if is_hunk_header(l) && st.in_hunk {
                    assert(forall|h: int|
                        0 <= h < st.hunks.len() ==> st.hunks.push(st.cur)[h] == #[trigger] st
                            .hunks[h]);
                    assert(st.hunks.push(st.cur).last() == st.cur);
                }
                assert(hunks_ordered(st2));
                lemma_run_keeps_hunks_ordered(st2, ls.drop_first());
            },
            Err(_) => {},
        }
    }
}

/// LAW: whatever the patch, each hunk of a successful parse records its
/// added lines at strictly increasing target positions.
pub proof fn lemma_each_hunk_strictly_increases(ls: Seq<Seq<char>>)
    ensures
        run_from(initial_state(), ls) matches Ok(st) ==> forall|h: int|
            0 <= h < finish(st).len() ==> strictly_increasing(#[trigger] finish(st)[h]),
{
    let st0 = initial_state();
    assert(hunks_ordered(st0));
    lemma_run_keeps_hunks_ordered(st0, ls);
    let r = run_from(st0, ls);
    if r is Ok {
        let st = r->Ok_0;
        if st.in_hunk {
            assert(forall|h: int|
                0 <= h < st.hunks.len() ==> finish(st)[h] == #[trigger] st.hunks[h]);
            assert(finish(st).last() == st.cur);
        }
    }
}

/// Running the parser over concatenated line lists runs it over the
/// first, then over the second from where the first left off.
pub proof fn lemma_run_append(st: ParseState, a: Seq<Seq<char>>, b: Seq<Seq<char>>)
    ensures
        run_from(st, a + b) == (match run_from(st, a) {
            Ok(m) => run_from(m, b),
            Err(e) => Err(e),
        }),
    decreases a.len(),
{
    if a.len() == 0 {
        assert(a + b =~= b);
    } else {
        assert((a + b)[0] == a[0]);
        match parse_step(st, a[0]) {
            Ok(st2) => {
                assert((a + b).drop_first() =~= a.drop_first() + b);
                lemma_run_append(st2, a.drop_first(), b);
            },
            Err(_) => {
                assert((a + b).len() > 0);
            },
        }
    }
}

/// Lines that open no hunk only move the cursor forward, by at most one
/// position each.
proof fn lemma_run_prefix(st: ParseState, ls: Seq<Seq<char>>)
    requires
        !st.in_hunk,
        forall|k: int| 0 <= k < ls.len() ==> !is_hunk_header(#[trigger] ls[k]),
        0 <= st.cursor,
        st.cursor + ls.len() <= usize::MAX,
    ensures
        run_from(st, ls) matches Ok(st2) && !st2.in_hunk && st2.cur == st.cur && st2.hunks
            == st.hunks && st.cursor <= st2.cursor <= st.cursor + ls.len(),
    decreases ls.len(),
{
    if ls.len() > 0 {
        let stepped = parse_step(st, ls[0]);
        assert(stepped is Ok);
        lemma_run_prefix(stepped->Ok_0, ls.drop_first());
    }
}

/// Inside a hunk whose body holds only context and addition lines, the
/// run succeeds and every line it records lies within the body's target
/// range.
proof fn lemma_run_body(st: ParseState, ls: Seq<Seq<char>>)
    requires
        st.in_hunk,
        forall|k: int|
            0 <= k < ls.len() ==> !is_hunk_header(#[trigger] ls[k]) && !is_removal(ls[k]),
        0 <= st.cursor,
        st.cursor + ls.len() <= usize::MAX,
    ensures
        run_from(st, ls) matches Ok(st2) && st2.in_hunk && st2.hunks == st.hunks && st.cursor
            <= st2.cursor <= st.cursor + ls.len() && st2.cur.len() >= st.cur.len() && (forall|
            k: int,
        |
            0 <= k < st.cur.len() ==> #[trigger] st2.cur[k] == st.cur[k]) && forall|k: int|
            st.cur.len() <= k < st2.cur.len() ==> st.cursor <= (#[trigger] st2.cur[k]).0
                <= st.cursor + ls.len() - 1,
    decreases ls.len(),
{
    if ls.len() > 0 {
        let stepped = parse_step(st, ls[0]);
        assert(stepped is Ok);
        let stm = stepped->Ok_0;
        lemma_run_body(stm, ls.drop_first());
        let st2 = run_from(stm, ls.drop_first())->Ok_0;
        if is_addition(ls[0]) {
            assert(stm.cur == st.cur.push((st.cursor, ls[0].drop_first())));
            assert(stm.cur[st.cur.len() as int].0 == st.cursor);
            assert(forall|k: int|
                st.cur.len() <= k < st2.cur.len() ==> st.cursor <= (#[trigger] st2.cur[k]).0
                    <= st.cursor + ls.len() - 1);
        }
    }
}

/// LAW: in a patch made of one hunk header `@@ -a,b +c,d @@` followed by
/// its body of context and addition lines, the first added line the
/// parser reports (if any) has a 0-indexed target position at least
/// `c - 1` and at most `c - 1` plus one less than the body's length.
pub proof fn lemma_single_hunk_added_bounds(ls: Seq<Seq<char>>, h: int, c: int, d: int)
    requires
        0 <= h < ls.len(),
        ls.len() == h + 1 + d,
        is_hunk_header(ls[h]),
        header_start(ls[h]) == Ok::<int, ParseError>(c),
        forall|k: int| 0 <= k < h ==> !is_hunk_header(#[trigger] ls[k]),
        forall|k: int|
            h < k < ls.len() ==> !is_hunk_header(#[trigger] ls[k]) && !is_removal(ls[k]),
        h <= usize::MAX,
        c - 1 + d <= usize::MAX,
    ensures
        run_from(initial_state(), ls) matches Ok(st) && {
            let adds = flatten_hunks(finish(st));
            adds.len() > 0 ==> c - 1 <= adds[0].0 <= c - 1 + d - 1
        },
{
    let st0 = initial_state();
    let pre = ls.take(h);
    let rest = ls.skip(h);
    let body = ls.skip(h + 1);
    assert(ls =~= pre + rest);
    lemma_run_append(st0, pre, rest);
    lemma_run_prefix(st0, pre);
    let st1 = run_from(st0, pre)->Ok_0;
    assert(rest[0] == ls[h]);
    assert(c >= 1);
    let st2 = parse_step(st1, ls[h])->Ok_0;
    assert(st2.cursor == c - 1 && st2.in_hunk && st2.cur.len() == 0 && st2.hunks == st1.hunks);
    assert(rest.drop_first() =~= body);
    assert(run_from(st0, ls) == run_from(st2, body));
    assert(forall|k: int|
        0 <= k < body.len() ==> !is_hunk_header(#[trigger] body[k]) && !is_removal(body[k]));
    lemma_run_body(st2, body);
    let st3 = run_from(st2, body)->Ok_0;
    assert(st3.hunks == st1.hunks && st1.hunks == st0.hunks);
    assert(st3.in_hunk);
    lemma_flatten_push(st3.hunks, st3.cur);
    assert(flatten_hunks(st3.hunks) =~= Seq::<(int, Seq<char>)>::empty());
    assert(flatten_hunks(finish(st3)) =~= st3.cur);
}

/// Digit strings grow with their prefixes: dropping trailing digits
/// cannot increase the value.
proof fn lemma_digits_val_take(s: Seq<char>, k: int)
    requires
        0 <= k <= s.len(),
        all_digits(s),
    ensures
        0 <= digits_val(s.take(k)) <= digits_val(s),
    decreases s.len() - k,
{
    if k == s.len() {
        assert(s.take(k) =~= s);
        lemma_digits_val_nonneg(s);
    } else {
        lemma_digits_val_take(s, k + 1);
        let t = s.take(k + 1);
        assert(t.drop_last() =~= s.take(k));
        assert(is_digit(s[k]));
        assert(digits_val(t) == digits_val(s.take(k)) * 10 + (s[k] as u32 - 48));
        lemma_digits_val_nonneg(s.take(k));
    }
}

proof fn lemma_digits_val_nonneg(s: Seq<char>)
    requires
        all_digits(s),
    ensures
        digits_val(s) >= 0,
    decreases s.len(),
{
    if s.len() > 0 {
        assert(all_digits(s.drop_last())) by {
            assert(forall|i: int|
                0 <= i < s.len() - 1 ==> #[trigger] s.drop_last()[i] == s[i]);
        }
        lemma_digits_val_nonneg(s.drop_last());
        assert(is_digit(s.last()));
    }
}

/// Reads the target start out of a hunk header line.
fn parse_header_value(l: &str) -> (r: Result<usize, ParseError>)
    ensures
        match r {
            Ok(v) => header_start(l@) == Ok::<int, ParseError>(v as int) && v >= 1,
            Err(e) => header_start(l@) == Err::<int, ParseError>(e),
        },
{
    let n: usize = l.unicode_len();
    let p = find_char(l, '+', 0);
    proof {
        lemma_find_from(l@, '+', 0);
    }
    if p == n {
        return Err(ParseError::MissingPlus);
    }
    let q = find_char(l, ',', p + 1);
    proof {
        lemma_find_from(l@, ',', p + 1);
    }
    if q == n {
        return Err(ParseError::MissingComma);
    }
    let ghost num = l@.subrange(p + 1, q as int);
    if q == p + 1 {
        return Err(ParseError::BadStart);
    }
    let mut acc: u128 = 0;
    let mut i: usize = p + 1;
    while i < q
        invariant
            p + 1 <= i <= q <= n,
            p + 1 < q < n,
            n == l@.len(),
            num == l@.subrange(p + 1, q as int),
            p == find_from(l@, '+', 0),
            q == find_from(l@, ',', p + 1),
            all_digits(l@.subrange(p + 1, i as int)),
            acc == digits_val(l@.subrange(p + 1, i as int)),
            acc <= usize::MAX,
        decreases q - i,
    {
        let c = l.get_char(i);
        let cv = c as u32;
        if cv < 48 || cv > 57 {
            proof {
                assert(num[i - (p + 1)] == l@[i as int]);
                assert(!all_digits(num));
            }
            return Err(ParseError::BadStart);
        }
        let ghost pre = l@.subrange(p + 1, i as int);
        let ghost ext = l@.subrange(p + 1, i + 1);
        proof {
            assert(ext.drop_last() =~= pre);
            assert(ext.last() == l@[i as int]);
            assert(forall|k: int| 0 <= k < ext.len() ==> #[trigger] ext[k] == l@[p + 1 + k]);
        }
        acc = acc * 10 + ((cv - 48) as u128);
        if acc > (usize::MAX as u128) {
            proof {
                if all_digits(num) {
                    assert(num.take(i + 1 - (p + 1)) =~= ext);
                    lemma_digits_val_take(num, i + 1 - (p + 1));
                    assert(digits_val(num) > usize::MAX);
                }
            }
            return Err(ParseError::BadStart);
        }
        i = i + 1;
    }
    proof {
        assert(l@.subrange(p + 1, i as int) =~= num);
    }
    if acc == 0 {
        return Err(ParseError::BadStart);
    }
    Ok(acc as usize)
}

/// A hunk header starts with `@@ `.
fn is_header_line(l: &str) -> (b: bool)
    ensures
        b == is_hunk_header(l@),
{
    l.unicode_len() >= 3 && l.get_char(0) == '@' && l.get_char(1) == '@' && l.get_char(2) == ' '
}

/// Checks for a one-character line prefix.
fn first_char_is(l: &str, c: char) -> (b: bool)
    ensures
        b == (l@.len() >= 1 && l@[0] == c),
{
    l.unicode_len() >= 1 && l.get_char(0) == c
}

/// The spec state an exec parser state stands for.
pub open spec fn abs_state(cursor: usize, in_hunk: bool, cur: Seq<(usize, String)>, hunks: Seq<
    Hunk,
>) -> ParseState {
    ParseState {
        cursor: cursor as int,
        in_hunk: in_hunk,
        cur: pairs_view(cur),
        hunks: hunks_view(hunks),
    }
}

/// Parses the raw text of a unified diff restricted to one file into its
/// hunks, in patch order.  Each added line is recorded with its 0-indexed
/// position in the post-change file.  A malformed hunk header, or a
/// position past the machine's range, is a fatal parse error.
pub fn parse_hunks(patch: &str) -> (r: Result<Vec<Hunk>, ParseError>)
    ensures
        match r {
            Ok(hs) => spec_parse_hunks(patch@) == Ok::<_, ParseError>(hunks_view(hs@)),
            Err(e) => spec_parse_hunks(patch@) == Err::<Seq<Seq<(int, Seq<char>)>>, _>(e),
        },
{
    let lines = split_lines(patch);
    let ghost ls = lines.deep_view();
    let mut cursor: usize = 0;
    let mut in_hunk: bool = false;
    let mut cur: Vec<(usize, String)> = Vec::new();
    let mut hunks: Vec<Hunk> = Vec::new();
    let mut i: usize = 0;
    proof {
        assert(pairs_view(cur@) =~= Seq::<(int, Seq<char>)>::empty());
        assert(hunks_view(hunks@) =~= Seq::<Seq<(int, Seq<char>)>>::empty());
        assert(ls.skip(0) =~= ls);
    }
    while i < lines.len()
        invariant
            i <= lines.len(),
            ls == lines.deep_view(),
            ls == spec_lines(patch@),
            !in_hunk ==> cur@.len() == 0,
            run_from(initial_state(), ls) == run_from(
                abs_state(cursor, in_hunk, cur@, hunks@),
                ls.skip(i as int),
            ),
        decreases lines.len() - i,
    {
        let ghost st = abs_state(cursor, in_hunk, cur@, hunks@);
        let ghost l = ls[i as int];
        proof {
            assert(ls.skip(i as int)[0] == l);
            assert(ls.skip(i as int).drop_first() =~= ls.skip(i + 1));
        }
        let line: &String = &lines[i];
        proof {
            assert(line@ == l);
        }
        if is_header_line(line.as_str()) {
            match parse_header_value(line.as_str()) {
                Err(e) => {
                    proof {
                        assert(parse_step(st, l) == Err::<ParseState, ParseError>(e));
                    }
                    return Err(e);
                },
                Ok(c) => {
                    if in_hunk {
                        hunks.push(Hunk { added_lines: cur });
                        cur = Vec::new();
                        proof {
                            assert(hunks_view(hunks@) =~= st.hunks.push(st.cur));
                            assert(pairs_view(cur@) =~= Seq::<(int, Seq<char>)>::empty());
                        }
                    }
                    cursor = c - 1;
                    in_hunk = true;
                    proof {
                        assert(pairs_view(cur@) =~= Seq::<(int, Seq<char>)>::empty());
                        assert(parse_step(st, l) matches Ok(st2) && st2 =~= abs_state(
                            cursor,
                            in_hunk,
                            cur@,
                            hunks@,
                        ));
                        assert(parse_step(st, l) == Ok::<ParseState, ParseError>(
                            abs_state(cursor, in_hunk, cur@, hunks@),
                        ));
                    }
                },
            }
        } else if first_char_is(line.as_str(), '+') {
            if cursor == usize::MAX {
                proof {
                    assert(parse_step(st, l) == Err::<ParseState, ParseError>(
                        ParseError::CursorOverflow,
                    ));
                }
                return Err(ParseError::CursorOverflow);
            }
            if in_hunk {
                let n = line.as_str().unicode_len();
                let text = line.as_str().substring_char(1, n).to_owned();
                cur.push((cursor, text));
                proof {
                    assert(l.subrange(1, l.len() as int) =~= l.drop_first());
                    assert(pairs_view(cur@) =~= st.cur.push((st.cursor, l.drop_first())));
                }
            }
            cursor = cursor + 1;
            proof {
                assert(parse_step(st, l) matches Ok(st2) && st2 =~= abs_state(
                    cursor,
                    in_hunk,
                    cur@,
                    hunks@,
                ));
                assert(parse_step(st, l) == Ok::<ParseState, ParseError>(
                    abs_state(cursor, in_hunk, cur@, hunks@),
                ));
            }
        } else if first_char_is(line.as_str(), '-') {
            proof {
                assert(parse_step(st, l) matches Ok(st2) && st2 =~= abs_state(
                    cursor,
                    in_hunk,
                    cur@,
                    hunks@,
                ));
                assert(parse_step(st, l) == Ok::<ParseState, ParseError>(
                    abs_state(cursor, in_hunk, cur@, hunks@),
                ));
            }
        } else {
            if cursor == usize::MAX {
                proof {
                    assert(parse_step(st, l) == Err::<ParseState, ParseError>(
                        ParseError::CursorOverflow,
                    ));
                }
                return Err(ParseError::CursorOverflow);
            }
            cursor = cursor + 1;
            proof {
                assert(parse_step(st, l) matches Ok(st2) && st2 =~= abs_state(
                    cursor,
                    in_hunk,
                    cur@,
                    hunks@,
                ));
                assert(parse_step(st, l) == Ok::<ParseState, ParseError>(
                    abs_state(cursor, in_hunk, cur@, hunks@),
                ));
            }
        }
        i = i + 1;
    }
    proof {
        assert(ls.skip(i as int) =~= Seq::<Seq<char>>::empty());
    }
    if in_hunk {
        let ghost st = abs_state(cursor, in_hunk, cur@, hunks@);
        hunks.push(Hunk { added_lines: cur });
        proof {
            assert(hunks_view(hunks@) =~= st.hunks.push(st.cur));
            assert(finish(st) == hunks_view(hunks@));
        }
    }
    Ok(hunks)
}

} // verus!
