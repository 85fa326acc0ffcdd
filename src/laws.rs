//! What holds of every traversal, stated over the walk's models.
use vstd::prelude::*;
use crate::order::{is_sorted_by_name, lemma_lt_distinct, lemma_sorted_order, name_lt};
use crate::render::{Glyph, row_glyphs};
use crate::walk::{
    Entry, Ftype, LineView, children_count, children_lines, entry_count, entry_lines, error_lines,
    is_hidden_top, names_of, sibling_order,
};

verus! {

/// How many entry rows of kind `k` the lines `ls` hold.
pub open spec fn rows_of_kind(ls: Seq<LineView>, k: Ftype) -> nat
    decreases ls.len(),
{
    if ls.len() == 0 {
        0
    } else {
        let own: nat = match ls.last() {
            LineView::Row { ftype, .. } => if ftype == k { 1 } else { 0 },
            LineView::Failure { .. } => 0,
        };
        rows_of_kind(ls.drop_last(), k) + own
    }
}

/// How many of the top-level siblings `children`, from the `j`-th in name
/// order on, are hidden directories.
pub open spec fn hidden_top_count(children: Seq<Entry>, j: int) -> nat
    decreases children.len() - j,
{
    if j < 0 || j >= children.len() {
        0
    } else {
        let i = sibling_order(children)[j] as int;
        let own: nat = if 0 <= i < children.len() && children[i].ftype == Ftype::Directory
            && is_hidden_top(true, children[i].name@) {
            1
        } else {
            0
        };
        own + hidden_top_count(children, j + 1)
    }
}

/// The ancestor columns of line `l` follow `finished`: a row has a column for
/// every ancestor level and one of its own, and at each ancestor level draws a
/// blank where that level's directory has reached its last child and a bar
/// where it has not.
pub open spec fn columns_follow(l: LineView, finished: Seq<bool>) -> bool {
    match l {
        LineView::Row { glyphs, .. } => glyphs.len() > finished.len() && forall|i: int|
            0 <= i < finished.len() ==> #[trigger] glyphs[i] == (if finished[i] {
                Glyph::Blank
            } else {
                Glyph::Bar
            }),
        LineView::Failure { .. } => true,
    }
}

/// Every line of `ls` follows `finished`.
pub open spec fn all_follow(ls: Seq<LineView>, finished: Seq<bool>) -> bool {
    forall|m: int| 0 <= m < ls.len() ==> columns_follow(#[trigger] ls[m], finished)
}

proof fn lemma_rows_concat(a: Seq<LineView>, b: Seq<LineView>, k: Ftype)
    ensures
        rows_of_kind(a + b, k) == rows_of_kind(a, k) + rows_of_kind(b, k),
    decreases b.len(),
{
    if b.len() > 0 {
        lemma_rows_concat(a, b.drop_last(), k);
        assert((a + b).drop_last() =~= a + b.drop_last());
    }
}

proof fn lemma_rows_single(l: LineView, k: Ftype)
    ensures
        rows_of_kind(seq![l], k) == (if l matches LineView::Row { ftype, .. } && ftype == k {
            1nat
        } else {
            0nat
        }),
{
    reveal_with_fuel(rows_of_kind, 2);
    assert(seq![l].drop_last() =~= Seq::<LineView>::empty());
}

proof fn lemma_rows_errors(error: Option<String>, k: Ftype)
    ensures
        rows_of_kind(error_lines(error), k) == 0,
{
    match error {
        Some(m) => lemma_rows_single(LineView::Failure { message: m@ }, k),
        None => {},
    }
}

proof fn lemma_rows_entry(e: Entry, finished: Seq<bool>, is_last: bool, k: Ftype)
    ensures
        rows_of_kind(entry_lines(e, finished, is_last), k) + (if k == Ftype::Directory && e.ftype
            == Ftype::Directory && is_hidden_top(finished.len() == 0, e.name@) {
            1nat
        } else {
            0nat
        }) == entry_count(e, finished.len() == 0, k),
    decreases e, 0int,
{
    let row = LineView::Row { glyphs: row_glyphs(finished, is_last), name: e.name@, ftype: e.ftype };
    lemma_rows_single(row, k);
    if e.ftype == Ftype::Directory && !is_hidden_top(finished.len() == 0, e.name@) {
        let inner = children_lines(e.children@, 0, finished.push(is_last));
        lemma_rows_children(e.children@, 0, finished.push(is_last), k);
        lemma_rows_concat(seq![row], inner, k);
        lemma_rows_concat(seq![row] + inner, error_lines(e.error), k);
        lemma_rows_errors(e.error, k);
    } else if e.ftype == Ftype::Directory {
        assert(rows_of_kind(Seq::<LineView>::empty(), k) == 0);
    }
}

proof fn lemma_rows_children(children: Seq<Entry>, j: int, finished: Seq<bool>, k: Ftype)
    ensures
        rows_of_kind(children_lines(children, j, finished), k) + (if k == Ftype::Directory
            && finished.len() == 0 {
            hidden_top_count(children, j)
        } else {
            0nat
        }) == children_count(children, j, finished.len() == 0, k),
    decreases children, children.len() - j,
{
    lemma_sorted_order(names_of(children), children.len());
    if 0 <= j < children.len() {
        let i = sibling_order(children)[j] as int;
        assert(sibling_order(children)[j] < children.len());
        if 0 <= i < children.len() {
            lemma_rows_entry(children[i], finished, j == children.len() - 1, k);
            lemma_rows_children(children, j + 1, finished, k);
            lemma_rows_concat(
                entry_lines(children[i], finished, j == children.len() - 1),
                children_lines(children, j + 1, finished),
                k,
            );
        } else {
            assert(rows_of_kind(Seq::<LineView>::empty(), k) == 0);
        }
    } else {
        assert(rows_of_kind(Seq::<LineView>::empty(), k) == 0);
    }
}

/// Every entry counted is drawn exactly once, but for the hidden top-level
/// directories: the file and symlink rows drawn for a tree are as many as the
/// files and symlinks counted, and the directory rows together with the
/// hidden top-level directories are as many as the directories counted.
pub proof fn lemma_rows_match_counts(root: Entry, k: Ftype)
    ensures
        rows_of_kind(children_lines(root.children@, 0, Seq::empty()) + error_lines(root.error), k)
            + (if k == Ftype::Directory {
            hidden_top_count(root.children@, 0)
        } else {
            0nat
        }) == children_count(root.children@, 0, true, k),
{
    let ls = children_lines(root.children@, 0, Seq::empty());
    lemma_rows_children(root.children@, 0, Seq::empty(), k);
    lemma_rows_concat(ls, error_lines(root.error), k);
    lemma_rows_errors(root.error, k);
}

/// Siblings are visited by name: the visiting order takes each position of
/// `children` exactly once, never puts a name after one that sorts later, and
/// where the names are distinct, as they are within a directory, puts them in
/// strictly increasing order.
pub proof fn lemma_siblings_by_name(children: Seq<Entry>)
    requires
        children.len() <= usize::MAX,
    ensures
        sibling_order(children).len() == children.len(),
        sibling_order(children).to_multiset() =~= Seq::new(
            children.len(),
            |i: int| i as usize,
        ).to_multiset(),
        sibling_order(children).no_duplicates(),
        is_sorted_by_name(names_of(children), sibling_order(children)),
        names_of(children).no_duplicates() ==> forall|j: int, k: int|
            0 <= j < k < children.len() ==> name_lt(
                #[trigger] names_of(children)[sibling_order(children)[j] as int],
                #[trigger] names_of(children)[sibling_order(children)[k] as int],
            ),
{
    let names = names_of(children);
    let s = sibling_order(children);
    lemma_sorted_order(names, children.len());
    if names.no_duplicates() {
        assert forall|j: int, k: int| 0 <= j < k < children.len() implies name_lt(
            #[trigger] names[s[j] as int],
            #[trigger] names[s[k] as int],
        ) by {
            assert(s[j] != s[k]);
            assert(s[j] < children.len() && s[k] < children.len());
            assert(names[s[j] as int] != names[s[k] as int]);
            lemma_lt_distinct(names[s[j] as int], names[s[k] as int]);
        }
    }
}

/// The row of a directory's last child, in name order, ends in the last-child
/// corner, and the row of every earlier child in the branch corner.
pub proof fn lemma_last_child_corner(children: Seq<Entry>, k: int, finished: Seq<bool>)
    requires
        0 <= k < children.len(),
    ensures
        ({
            let i = sibling_order(children)[k] as int;
            let ls = entry_lines(children[i], finished, k == children.len() - 1);
            ls.len() > 0 ==> (ls[0] matches LineView::Row { glyphs, .. } && glyphs.len()
                == finished.len() + 1 && glyphs[finished.len() as int] == (if k == children.len()
                - 1 {
                Glyph::Last
            } else {
                Glyph::Branch
            }))
        }),
{
}

proof fn lemma_follow_concat(a: Seq<LineView>, b: Seq<LineView>, finished: Seq<bool>)
    requires
        all_follow(a, finished),
        all_follow(b, finished),
    ensures
        all_follow(a + b, finished),
{
    assert forall|m: int| 0 <= m < (a + b).len() implies columns_follow(#[trigger] (a + b)[m], finished) by {
        if m < a.len() {
            assert((a + b)[m] == a[m]);
        } else {
            assert((a + b)[m] == b[m - a.len()]);
        }
    }
}

proof fn lemma_follow_deeper(ls: Seq<LineView>, finished: Seq<bool>, is_last: bool)
    requires
        all_follow(ls, finished.push(is_last)),
    ensures
        all_follow(ls, finished),
{
    assert forall|m: int| 0 <= m < ls.len() implies columns_follow(#[trigger] ls[m], finished) by {
        match ls[m] {
            LineView::Row { glyphs, .. } => {
                assert forall|i: int| 0 <= i < finished.len() implies #[trigger] glyphs[i] == (if finished[i] {
                    Glyph::Blank
                } else {
                    Glyph::Bar
                }) by {
                    assert(finished.push(is_last)[i] == finished[i]);
                    assert(columns_follow(ls[m], finished.push(is_last)));
                }
            },
            LineView::Failure { .. } => {},
        }
    }
}

/// Every line drawn for entry `e` and what lies below it follows the flags of
/// `e`'s ancestor levels.
pub proof fn lemma_entry_columns(e: Entry, finished: Seq<bool>, is_last: bool)
    ensures
        all_follow(entry_lines(e, finished, is_last), finished),
    decreases e, 0int,
{
    let row = LineView::Row { glyphs: row_glyphs(finished, is_last), name: e.name@, ftype: e.ftype };
    assert(all_follow(seq![row], finished)) by {
        assert(columns_follow(seq![row][0], finished));
    }
    if e.ftype == Ftype::Directory && !is_hidden_top(finished.len() == 0, e.name@) {
        let inner = children_lines(e.children@, 0, finished.push(is_last));
        lemma_children_columns(e.children@, 0, finished.push(is_last));
        lemma_follow_deeper(inner, finished, is_last);
        lemma_follow_concat(seq![row], inner, finished);
        assert(all_follow(error_lines(e.error), finished));
        lemma_follow_concat(seq![row] + inner, error_lines(e.error), finished);
    }
}

/// Every line drawn for the siblings `children`, from the `j`-th in name
/// order on, follows the flags of their ancestor levels.
pub proof fn lemma_children_columns(children: Seq<Entry>, j: int, finished: Seq<bool>)
    ensures
        all_follow(children_lines(children, j, finished), finished),
    decreases children, children.len() - j,
{
    if 0 <= j < children.len() {
        let i = sibling_order(children)[j] as int;
        if 0 <= i < children.len() {
            lemma_entry_columns(children[i], finished, j == children.len() - 1);
            lemma_children_columns(children, j + 1, finished);
            lemma_follow_concat(
                entry_lines(children[i], finished, j == children.len() - 1),
                children_lines(children, j + 1, finished),
                finished,
            );
        }
    }
}

/// Once a directory's last child has been drawn, no row below that child
/// draws a bar at the directory's level: every line drawn for the contents of
/// a last child follows its ancestors' flags with that level finished.
pub proof fn lemma_no_bar_after_last(e: Entry, finished: Seq<bool>)
    requires
        e.ftype == Ftype::Directory,
        !is_hidden_top(finished.len() == 0, e.name@),
    ensures
        all_follow(children_lines(e.children@, 0, finished.push(true)), finished.push(true)),
        forall|m: int|
            1 <= m < entry_lines(e, finished, true).len() ==> (#[trigger] entry_lines(e, finished, true)[m]
                matches LineView::Row { glyphs, .. } ==> glyphs[finished.len() as int] == Glyph::Blank),
{
    let inner = children_lines(e.children@, 0, finished.push(true));
    lemma_children_columns(e.children@, 0, finished.push(true));
    let ls = entry_lines(e, finished, true);
    let row = LineView::Row { glyphs: row_glyphs(finished, true), name: e.name@, ftype: e.ftype };
    assert(ls == seq![row] + inner + error_lines(e.error));
    assert forall|m: int| 1 <= m < ls.len() implies (#[trigger] ls[m] matches LineView::Row { glyphs, .. }
        ==> glyphs[finished.len() as int] == Glyph::Blank) by {
        if m < 1 + inner.len() {
            assert(ls[m] == inner[m - 1]);
            assert(columns_follow(inner[m - 1], finished.push(true)));
            assert(finished.push(true)[finished.len() as int]);
        } else {
            assert(ls[m] == error_lines(e.error)[m - 1 - inner.len()]);
        }
    }
}

/// A hidden directory at the top level is counted as one directory, and
/// neither it nor anything below it is drawn or counted further.
pub proof fn lemma_hidden_top(e: Entry, is_last: bool)
    requires
        e.ftype == Ftype::Directory,
        e.name@.len() > 0,
        e.name@[0] == '.',
    ensures
        entry_lines(e, Seq::empty(), is_last) == Seq::<LineView>::empty(),
        entry_count(e, true, Ftype::Directory) == 1,
        entry_count(e, true, Ftype::File) == 0,
        entry_count(e, true, Ftype::Symlink) == 0,
{
}

} // verus!
