//! The section classifier.
//!
//! Given the final (post-change) file as a sequence of lines and the
//! added-line records of the diff parser, it resolves each added line to
//! the nearest preceding section heading: a line starting with `## `.
//! An added line before the first heading produces no entry.

use vstd::prelude::*;

use crate::text::{trim, trim_ws};

verus! {

/// One added changelog entry, resolved to its section.
#[derive(Clone, Debug, PartialEq, Eq)]
pub struct AddedEntry {
    /// Category the entry was added under, e.g. "Unversioned" or "2.4.5":
    /// the nearest preceding heading with its `## ` marker stripped and
    /// surrounding whitespace trimmed.
    pub category: String,
    /// The full text entry (e.g. - Added cool feature. (#4770))
    pub text: String,
    /// The 1-indexed line number of this new entry in the modified
    /// changelog file.
    pub line_number: usize,
}

/// The mathematical content of an `AddedEntry`.
#[verifier::ext_equal]
pub ghost struct EntryModel {
    pub category: Seq<char>,
    pub text: Seq<char>,
    pub line_number: int,
}

impl View for AddedEntry {
    type V = EntryModel;

    open spec fn view(&self) -> EntryModel {
        EntryModel { category: self.category@, text: self.text@, line_number: self.line_number as int }
    }
}

/// The mathematical content of a list of entries.
pub open spec fn entries_view(es: Seq<AddedEntry>) -> Seq<EntryModel> {
    es.map_values(|e: AddedEntry| e@)
}

/// A section heading: a line starting with `## `.
pub open spec fn is_heading(l: Seq<char>) -> bool {
    l.len() >= 3 && l[0] == '#' && l[1] == '#' && l[2] == ' '
}

/// The position of the nearest heading strictly before line `i`, if any.
pub open spec fn nearest_heading(lines: Seq<Seq<char>>, i: int) -> Option<int>
    decreases i,
{
    if i <= 0 {
        None
    } else if is_heading(lines[i - 1]) {
        Some(i - 1)
    } else {
        nearest_heading(lines, i - 1)
    }
}

/// What `nearest_heading` finds is the nearest preceding heading: it lies
/// before `i`, it is a heading, and no heading stands between it and `i`;
/// when it finds none, no line before `i` is a heading.
pub proof fn lemma_nearest_heading_is_nearest(lines: Seq<Seq<char>>, i: int)
    ensures
        match nearest_heading(lines, i) {
            Some(j) => 0 <= j < i && is_heading(lines[j]) && forall|k: int|
                j < k < i ==> !is_heading(#[trigger] lines[k]),
            None => forall|k: int| 0 <= k < i ==> !is_heading(#[trigger] lines[k]),
        },
    decreases i,
{
    if i > 0 && !is_heading(lines[i - 1]) {
        lemma_nearest_heading_is_nearest(lines, i - 1);
    }
}

/// A heading line's marker, stripped as often as it occurs.
pub open spec fn strip_marker(l: Seq<char>) -> Seq<char>
    decreases l.len(),
{
    if is_heading(l) {
        strip_marker(l.skip(3))
    } else {
        l
    }
}

/// The category a heading line names: the text after its `## ` marker,
/// with surrounding whitespace trimmed.
pub open spec fn category_of(l: Seq<char>) -> Seq<char> {
    trim_ws(strip_marker(l))
}

/// One entry per added line that has a preceding heading, in input order.
/// Line numbers are 1-indexed in the final file.
pub open spec fn spec_classify(lines: Seq<Seq<char>>, adds: Seq<(int, Seq<char>)>) -> Seq<
    EntryModel,
>
    decreases adds.len(),
{
    if adds.len() == 0 {
        Seq::empty()
    } else {
        let rest = spec_classify(lines, adds.drop_first());
        match nearest_heading(lines, adds[0].0) {
            Some(j) => seq![
                EntryModel {
                    category: category_of(lines[j]),
                    text: adds[0].1,
                    line_number: adds[0].0 + 1,
                },
            ] + rest,
            None => rest,
        }
    }
}

/// LAW: classification treats each added line on its own: the entries
/// for concatenated addition lists are the concatenated entries.
pub proof fn lemma_classify_append(
    lines: Seq<Seq<char>>,
    a: Seq<(int, Seq<char>)>,
    b: Seq<(int, Seq<char>)>,
)
    ensures
        spec_classify(lines, a + b) == spec_classify(lines, a) + spec_classify(lines, b),
    decreases a.len(),
{
    if a.len() == 0 {
        assert(a + b =~= b);
        assert(spec_classify(lines, a) + spec_classify(lines, b) =~= spec_classify(lines, b));
    } else {
        assert((a + b)[0] == a[0]);
        assert((a + b).drop_first() =~= a.drop_first() + b);
        lemma_classify_append(lines, a.drop_first(), b);
        match nearest_heading(lines, a[0].0) {
            Some(j) => {
                let e = EntryModel {
                    category: category_of(lines[j]),
                    text: a[0].1,
                    line_number: a[0].0 + 1,
                };
                assert(seq![e] + (spec_classify(lines, a.drop_first()) + spec_classify(lines, b))
                    =~= (seq![e] + spec_classify(lines, a.drop_first())) + spec_classify(
                    lines,
                    b,
                ));
            },
            None => {},
        }
    }
}

/// LAW: one added line with a preceding heading yields exactly one
/// entry, whose category is that of the nearest preceding heading line
/// — before the added line, itself a heading, with no heading between —
/// and whose line number is the added line's 1-indexed position; an
/// added line with no preceding heading yields no entry.
pub proof fn lemma_classify_single(lines: Seq<Seq<char>>, add: (int, Seq<char>))
    ensures
        match nearest_heading(lines, add.0) {
            Some(j) => 0 <= j < add.0 && is_heading(lines[j]) && (forall|k: int|
                j < k < add.0 ==> !is_heading(#[trigger] lines[k])) && spec_classify(
                lines,
                seq![add],
            ) == seq![
                EntryModel {
                    category: category_of(lines[j]),
                    text: add.1,
                    line_number: add.0 + 1,
                },
            ],
            None => (forall|k: int| 0 <= k < add.0 ==> !is_heading(#[trigger] lines[k]))
                && spec_classify(lines, seq![add]) == Seq::<EntryModel>::empty(),
        },
{
    lemma_nearest_heading_is_nearest(lines, add.0);
    let s = seq![add];
    assert(s[0] == add);
    assert(s.drop_first() =~= Seq::<(int, Seq<char>)>::empty());
    assert(spec_classify(lines, s.drop_first()) =~= Seq::<EntryModel>::empty());
    match nearest_heading(lines, add.0) {
        Some(j) => {
            let e = EntryModel {
                category: category_of(lines[j]),
                text: add.1,
                line_number: add.0 + 1,
            };
            assert(seq![e] + Seq::<EntryModel>::empty() =~= seq![e]);
        },
        None => {},
    }
}

/// LAW: classification is a function of its input alone: two runs on
/// the same lines and added-line records return the same entries.
pub proof fn lemma_classify_deterministic(
    lines: Seq<Seq<char>>,
    adds: Seq<(int, Seq<char>)>,
    r1: Seq<EntryModel>,
    r2: Seq<EntryModel>,
)
    requires
        r1 == spec_classify(lines, adds),
        r2 == spec_classify(lines, adds),
    ensures
        r1 == r2,
{
}

/// Finds the nearest heading strictly before line `i` of the file.
fn find_heading_before(lines: &Vec<String>, i: usize) -> (r: Option<usize>)
    requires
        i <= lines@.len(),
    ensures
        match r {
            Some(j) => j < i && nearest_heading(lines.deep_view(), i as int) == Some(j as int),
            None => nearest_heading(lines.deep_view(), i as int) is None,
        },
{
    let ghost lv = lines.deep_view();
    let mut j: usize = i;
    while j > 0
        invariant
            j <= i <= lines@.len(),
            lv == lines.deep_view(),
            nearest_heading(lv, i as int) == nearest_heading(lv, j as int),
        decreases j,
    {
        if is_heading_line(lines[j - 1].as_str()) {
            return Some(j - 1);
        }
        j = j - 1;
    }
    None
}

/// A heading starts with `## `.
fn is_heading_line(l: &str) -> (b: bool)
    ensures
        b == is_heading(l@),
{
    l.unicode_len() >= 3 && l.get_char(0) == '#' && l.get_char(1) == '#' && l.get_char(2) == ' '
}

/// The category a heading line names.
fn category_line(l: &str) -> (r: String)
    ensures
        r@ == category_of(l@),
{
    let n: usize = l.unicode_len();
    let mut a: usize = 0;
    proof {
        assert(l@.skip(0) =~= l@);
    }
    while n - a >= 3 && l.get_char(a) == '#' && l.get_char(a + 1) == '#' && l.get_char(a + 2) == ' '
        invariant
            a <= n,
            n == l@.len(),
            strip_marker(l@) == strip_marker(l@.skip(a as int)),
        decreases n - a,
    {
        proof {
            let u = l@.skip(a as int);
            assert(u[0] == l@[a as int]);
            assert(u[1] == l@[a + 1]);
            assert(u[2] == l@[a + 2]);
            assert(is_heading(u));
            assert(u.skip(3) =~= l@.skip(a + 3));
        }
        a = a + 3;
    }
    proof {
        let u = l@.skip(a as int);
        if u.len() >= 3 {
            assert(u[0] == l@[a as int]);
            assert(u[1] == l@[a + 1]);
            assert(u[2] == l@[a + 2]);
        }
        assert(!is_heading(u));
        assert(strip_marker(l@) == u);
    }
    let tail = l.substring_char(a, n);
    proof {
        assert(tail@ =~= l@.skip(a as int));
    }
    let t = trim(tail);
    t.to_owned()
}

/// Resolves each added line to the nearest preceding `## ` heading of the
/// final file.  `additions` holds (0-indexed line number, text) pairs that
/// refer to positions in `lines`; each one with a preceding heading yields
/// an entry with the heading's category and the 1-indexed line number.
/// Added lines before any heading are dropped.
pub fn classify_additions(lines: &Vec<String>, additions: &Vec<(usize, String)>) -> (r: Vec<
    AddedEntry,
>)
    requires
        forall|k: int|
            0 <= k < additions@.len() ==> (#[trigger] additions@[k]).0 <= lines@.len()
                && additions@[k].0 < usize::MAX,
    ensures
        entries_view(r@) == spec_classify(
            lines.deep_view(),
            crate::parser::pairs_view(additions@),
        ),
{
    let ghost lv = lines.deep_view();
    let ghost av = crate::parser::pairs_view(additions@);
    let mut r: Vec<AddedEntry> = Vec::new();
    let mut i: usize = 0;
    proof {
        assert(av.skip(0) =~= av);
        assert(entries_view(r@) =~= Seq::<EntryModel>::empty());
        assert(Seq::<EntryModel>::empty() + spec_classify(lv, av) =~= spec_classify(lv, av));
    }
    while i < additions.len()
        invariant
            i <= additions.len(),
            lv == lines.deep_view(),
            lv.len() == lines@.len(),
            av == crate::parser::pairs_view(additions@),
            forall|k: int|
                0 <= k < additions@.len() ==> (#[trigger] additions@[k]).0 <= lines@.len()
                    && additions@[k].0 < usize::MAX,
            spec_classify(lv, av) == entries_view(r@) + spec_classify(lv, av.skip(i as int)),
        decreases additions.len() - i,
    {
        let ghost pre = entries_view(r@);
        let p: &(usize, String) = &additions[i];
        let line_no: usize = p.0;
        proof {
            assert(av.skip(i as int)[0] == av[i as int]);
            assert(av[i as int] == (additions@[i as int].0 as int, additions@[i as int].1@));
            assert(av.skip(i as int).drop_first() =~= av.skip(i + 1));
        }
        match find_heading_before(lines, line_no) {
            Some(j) => {
                proof {
                    assert(additions@[i as int].0 <= lines@.len());
                    assert(j < line_no <= lines@.len());
                    assert(lv[j as int] == lines@[j as int]@);
                }
                let category = category_line(lines[j].as_str());
                let text = p.1.clone();
                let ghost gcat = category@;
                let ghost gtext = text@;
                let entry = AddedEntry { category, text, line_number: line_no + 1 };
                let ghost ge = entry@;
                r.push(entry);
                proof {
                    assert(ge.category == gcat && ge.text == gtext && ge.line_number == line_no
                        + 1);
                    assert(ge =~= EntryModel {
                        category: category_of(lv[j as int]),
                        text: av[i as int].1,
                        line_number: av[i as int].0 + 1,
                    });
                    assert(entries_view(r@) =~= pre.push(ge));
                    assert(spec_classify(lv, av.skip(i as int)) == seq![ge] + spec_classify(
                        lv,
                        av.skip(i + 1),
                    ));
                    assert(pre + spec_classify(lv, av.skip(i as int)) =~= (pre.push(ge))
                        + spec_classify(lv, av.skip(i + 1)));
                }
            },
            None => {
                proof {
                    assert(spec_classify(lv, av.skip(i as int)) == spec_classify(
                        lv,
                        av.skip(i + 1),
                    ));
                }
            },
        }
        i = i + 1;
    }
    proof {
        assert(av.skip(i as int) =~= Seq::<(int, Seq<char>)>::empty());
        assert(spec_classify(lv, av.skip(i as int)) =~= Seq::<EntryModel>::empty());
        assert(entries_view(r@) + Seq::<EntryModel>::empty() =~= entries_view(r@));
    }
    r
}

/// Whether `cat` is one of the category names in `cats`.
pub fn category_is_listed(cats: &Vec<String>, cat: &String) -> (r: bool)
    ensures
        r == cats.deep_view().contains(cat@),
{
    let mut i: usize = 0;
    while i < cats.len()
        invariant
            i <= cats.len(),
            forall|k: int| 0 <= k < i ==> cats.deep_view()[k] != cat@,
        decreases cats.len() - i,
    {
        if cats[i].eq(cat) {
            proof {
                assert(cats.deep_view()[i as int] == cat@);
            }
            return true;
        }
        i = i + 1;
    }
    proof {
        assert(forall|k: int| 0 <= k < cats.deep_view().len() ==> cats.deep_view()[k] != cat@);
    }
    false
}

/// Whether any entry was added under a category outside the unreleased
/// set: the condition under which strict mode fails the check.
pub fn strict_failure(entries: &Vec<AddedEntry>, unreleased: &Vec<String>) -> (r: bool)
    ensures
        r == exists|k: int|
            0 <= k < entries@.len() && !unreleased.deep_view().contains(
                (#[trigger] entries@[k])@.category,
            ),
{
    let mut i: usize = 0;
    while i < entries.len()
        invariant
            i <= entries.len(),
            forall|k: int|
                0 <= k < i ==> unreleased.deep_view().contains((#[trigger] entries@[k])@.category),
        decreases entries.len() - i,
    {
        if !category_is_listed(unreleased, &entries[i].category) {
            proof {
                assert(!unreleased.deep_view().contains(entries@[i as int]@.category));
            }
            return true;
        }
        i = i + 1;
    }
    false
}

} // verus!
