//! The traversal: classification, counting, sibling order and the rows drawn
//! for a directory tree that has been read into memory.
use vstd::prelude::*;
use crate::order::{name_less, name_lt, insert_by_name, sorted_order, lemma_sorted_order};
use crate::render::{Glyph, row_glyphs, prefix_chars, prefix_text};

verus! {

/// The kind of a directory entry.
#[derive(Clone, Copy, Debug, PartialEq, Eq, Structural)]
pub enum Ftype {
    File,
    Symlink,
    Directory,
}

/// One entry of a directory tree as it was read: its base name, its kind, and
/// for a directory the children that could be listed and, where listing
/// failed, the reason.
pub struct Entry {
    pub name: String,
    pub ftype: Ftype,
    pub children: Vec<Entry>,
    pub error: Option<String>,
}

/// What a line of output holds, as mathematical values.
pub enum LineView {
    Row { glyphs: Seq<Glyph>, name: Seq<char>, ftype: Ftype },
    Failure { message: Seq<char> },
}

/// One line of output: an entry drawn after its prefix glyphs, or the report
/// of a directory that could not be read.
pub enum Line {
    Row { glyphs: Vec<Glyph>, name: String, ftype: Ftype },
    Failure { message: String },
}

impl View for Line {
    type V = LineView;

    open spec fn view(&self) -> LineView {
        match self {
            Line::Row { glyphs, name, ftype } => LineView::Row {
                glyphs: glyphs@,
                name: name@,
                ftype: *ftype,
            },
            Line::Failure { message } => LineView::Failure { message: message@ },
        }
    }
}

/// The text of a line: a row's prefix, one space and the entry's name; or
/// the report of a failed listing.
pub open spec fn line_chars(l: LineView) -> Seq<char> {
    match l {
        LineView::Row { glyphs, name, .. } => prefix_chars(glyphs, glyphs.len() as int) + seq![' ']
            + name,
        LineView::Failure { message } => seq!['E', 'r', 'r', 'o', 'r', ':', ' '] + message,
    }
}

impl Line {
    /// The text of this line, without colour.
    pub fn text(&self) -> (r: String)
        ensures
            r@ == line_chars(self@),
    {
        match self {
            Line::Row { glyphs, name, .. } => {
                let mut out = prefix_text(glyphs);
                out.append(" ");
                out.append(name.as_str());
                proof {
                    reveal_strlit(" ");
                }
                out
            },
            Line::Failure { message } => {
                let mut out = String::from_str("Error: ");
                out.append(message.as_str());
                proof {
                    reveal_strlit("Error: ");
                }
                out
            },
        }
    }
}

/// The views of a sequence of lines.
pub open spec fn lines_view(ls: Seq<Line>) -> Seq<LineView> {
    ls.map_values(|l: Line| l@)
}

/// The base names of a sequence of entries.
pub open spec fn names_of(children: Seq<Entry>) -> Seq<Seq<char>> {
    children.map_values(|e: Entry| e.name@)
}

/// The positions of `children` in the order they are visited: by name.
pub open spec fn sibling_order(children: Seq<Entry>) -> Seq<usize> {
    sorted_order(names_of(children), children.len())
}

/// A directory at the top level whose name starts with a dot: it is counted
/// but neither drawn nor descended into.
pub open spec fn is_hidden_top(top: bool, name: Seq<char>) -> bool {
    top && name.len() > 0 && name[0] == '.'
}

/// The line reporting a failed listing, if there was one.
pub open spec fn error_lines(error: Option<String>) -> Seq<LineView> {
    match error {
        Some(m) => seq![LineView::Failure { message: m@ }],
        None => Seq::empty(),
    }
}

/// The lines drawn for entry `e` and what lies below it, where `finished`
/// holds the "last child" flags of its ancestors' levels and `is_last` says
/// whether `e` is the last of its siblings.
pub open spec fn entry_lines(e: Entry, finished: Seq<bool>, is_last: bool) -> Seq<LineView>
    decreases e, 0int,
{
    let row = LineView::Row { glyphs: row_glyphs(finished, is_last), name: e.name@, ftype: e.ftype };
    if e.ftype != Ftype::Directory {
        seq![row]
    } else if is_hidden_top(finished.len() == 0, e.name@) {
        Seq::empty()
    } else {
        seq![row] + children_lines(e.children@, 0, finished.push(is_last)) + error_lines(e.error)
    }
}

/// The lines drawn for the siblings `children` from the `k`-th in name order
/// on.
pub open spec fn children_lines(children: Seq<Entry>, k: int, finished: Seq<bool>) -> Seq<LineView>
    decreases children, children.len() - k,
{
    if k < 0 || k >= children.len() {
        Seq::empty()
    } else {
        let i = sibling_order(children)[k] as int;
        // the order only holds positions of `children`
        if 0 <= i < children.len() {
            entry_lines(children[i], finished, k == children.len() - 1) + children_lines(
                children,
                k + 1,
                finished,
            )
        } else {
            Seq::empty()
        }
    }
}

/// How many entries of kind `k` are counted for `e` and what lies below it;
/// `top` says whether `e` is at the top level.
pub open spec fn entry_count(e: Entry, top: bool, k: Ftype) -> nat
    decreases e, 0int,
{
    let own: nat = if e.ftype == k { 1 } else { 0 };
    if e.ftype == Ftype::Directory && !is_hidden_top(top, e.name@) {
        own + children_count(e.children@, 0, false, k)
    } else {
        own
    }
}

/// How many entries of kind `k` are counted for the siblings `children` from
/// the `j`-th in name order on.
pub open spec fn children_count(children: Seq<Entry>, j: int, top: bool, k: Ftype) -> nat
    decreases children, children.len() - j,
{
    if j < 0 || j >= children.len() {
        0
    } else {
        let i = sibling_order(children)[j] as int;
        if 0 <= i < children.len() {
            entry_count(children[i], top, k) + children_count(children, j + 1, top, k)
        } else {
            0
        }
    }
}

/// The kind of an entry from what its metadata says: a regular file that is
/// not a symbolic link is a file, any symbolic link is a symlink, and
/// everything else is taken for a directory.
pub open spec fn kind_of(is_file: bool, is_symlink: bool) -> Ftype {
    if is_file && !is_symlink {
        Ftype::File
    } else if is_symlink {
        Ftype::Symlink
    } else {
        Ftype::Directory
    }
}

/// Whether the `n`-th character of `p` (counting from one) can be dropped from
/// the end of a path: a slash, or a `.` that forms a segment of its own.
pub open spec fn is_trailing_filler(p: Seq<char>, n: int) -> bool {
    0 < n <= p.len() && (p[n - 1] == '/' || (p[n - 1] == '.' && (n == 1 || p[n - 2] == '/')))
}

/// The end of `p`'s first `n` characters once trailing slashes and trailing
/// `.` segments are dropped.
pub open spec fn trimmed_end(p: Seq<char>, n: int) -> int
    decreases n,
{
    if n > 0 && is_trailing_filler(p, n) {
        trimmed_end(p, n - 1)
    } else {
        n
    }
}

/// The start of the last segment of `p`'s first `n` characters.
pub open spec fn segment_start(p: Seq<char>, n: int) -> int
    decreases n,
{
    if n > 0 && p[n - 1] != '/' {
        segment_start(p, n - 1)
    } else {
        n
    }
}

/// The last segment of path `p`, trailing slashes and `.` segments ignored;
/// none where no segment is left or it is `..`.
pub open spec fn base_name(p: Seq<char>) -> Option<Seq<char>> {
    let end = trimmed_end(p, p.len() as int);
    let seg = p.subrange(segment_start(p, end), end);
    if seg.len() == 0 || seg == seq!['.', '.'] {
        None
    } else {
        Some(seg)
    }
}

/// The state of one traversal: counts of what was seen so far, and for each
/// level from the top down to the one being listed, whether that level's
/// directory has reached its last child.
pub struct Traverser {
    pub start_dir: String,
    pub num_files: usize,
    pub num_dirs: usize,
    pub num_symlinks: usize,
    pub finished_dirs: Vec<bool>,
}

/// The final counts of a traversal.
#[derive(Clone, Copy, Debug, PartialEq, Eq, Structural)]
pub struct Stats {
    pub dirs: usize,
    pub files: usize,
    pub symlinks: usize,
}

/// The counters of `t` could take the counts of `children` (at the level that
/// `t` is at) without overflow.
pub open spec fn counts_fit(t: Traverser, children: Seq<Entry>) -> bool {
    let top = t.finished_dirs@.len() == 0;
    &&& t.num_files + children_count(children, 0, top, Ftype::File) <= usize::MAX
    &&& t.num_dirs + children_count(children, 0, top, Ftype::Directory) <= usize::MAX
    &&& t.num_symlinks + children_count(children, 0, top, Ftype::Symlink) <= usize::MAX
}

/// The counters of `t` could take the counts of `e` without overflow.
pub open spec fn entry_fits(t: Traverser, e: Entry) -> bool {
    let top = t.finished_dirs@.len() == 0;
    &&& t.num_files + entry_count(e, top, Ftype::File) <= usize::MAX
    &&& t.num_dirs + entry_count(e, top, Ftype::Directory) <= usize::MAX
    &&& t.num_symlinks + entry_count(e, top, Ftype::Symlink) <= usize::MAX
}

/// The order in which `children` are visited: their positions sorted by name,
/// equal names keeping their places.
pub fn sort_by_name(children: &Vec<Entry>) -> (order: Vec<usize>)
    ensures
        order@ == sibling_order(children@),
{
    let ghost names = names_of(children@);
    let mut order: Vec<usize> = Vec::new();
    let mut x: usize = 0;
    while x < children.len()
        invariant
            names == names_of(children@),
            x <= children@.len(),
            order@ == sorted_order(names, x as nat),
        decreases children@.len() - x,
    {
        proof {
            lemma_sorted_order(names, x as nat);
        }
        let mut j: usize = order.len();
        assert(order@.take(j as int) =~= order@);
        assert(order@.skip(j as int) =~= Seq::<usize>::empty());
        while j > 0 && name_less(children[x].name.as_str(), children[order[j - 1]].name.as_str())
            invariant
                names == names_of(children@),
                x < children@.len(),
                order@ == sorted_order(names, x as nat),
                order@.len() == x,
                forall|k: int| 0 <= k < x ==> #[trigger] order@[k] < x,
                j <= order@.len(),
                insert_by_name(names, order@, x) == insert_by_name(names, order@.take(j as int), x)
                    + order@.skip(j as int),
            decreases j,
        {
            proof {
                let t = order@.take(j as int);
                assert(t.drop_last() =~= order@.take(j - 1));
                assert(t.last() == order@[j - 1]);
                assert(insert_by_name(names, t, x) == insert_by_name(names, order@.take(j - 1), x).push(
                    order@[j - 1],
                ));
                assert(insert_by_name(names, t, x) + order@.skip(j as int) =~= insert_by_name(
                    names,
                    order@.take(j - 1),
                    x,
                ) + order@.skip(j - 1));
            }
            j = j - 1;
        }
        proof {
            let t = order@.take(j as int);
            if j > 0 {
                assert(t.last() == order@[j - 1]);
                assert(!name_lt(names[x as int], names[t.last() as int]));
                assert(insert_by_name(names, t, x) == t.push(x));
            } else {
                assert(insert_by_name(names, t, x) == seq![x]);
            }
            assert(insert_by_name(names, order@, x) =~= order@.insert(j as int, x));
        }
        order.insert(j, x);
        x = x + 1;
    }
    order
}

impl Traverser {
    /// A traversal of the tree rooted at `start`, with nothing counted yet.
    pub fn new(start: String) -> (t: Traverser)
        ensures
            t.start_dir@ == start@,
            t.num_files == 0,
            t.num_dirs == 0,
            t.num_symlinks == 0,
            t.finished_dirs@.len() == 0,
    {
        Traverser { start_dir: start, num_files: 0, num_dirs: 0, num_symlinks: 0, finished_dirs: Vec::new() }
    }

    /// The kind of an entry whose metadata says whether it is a regular file
    /// (following links) and whether it is a symbolic link.
    pub fn get_ftype(is_file: bool, is_symlink: bool) -> (r: Ftype)
        ensures
            r == kind_of(is_file, is_symlink),
    {
        if is_file && !is_symlink {
            Ftype::File
        } else if is_symlink {
            Ftype::Symlink
        } else {
            Ftype::Directory
        }
    }

    /// The last segment of a path, trailing slashes and `.` segments ignored
    /// (`x/.//` gives `x`); `None` where no segment is left (`.`, `./`, `/`,
    /// the empty path) or the last one is `..`.
    pub fn basename(path: &str) -> (r: Option<String>)
        ensures
            r matches Some(s) ==> base_name(path@) == Some(s@),
            r is None ==> base_name(path@) is None,
    {
        let n = path.unicode_len();
        let mut end: usize = n;
        while end > 0 && trailing_filler(path, end)
            invariant
                end <= n == path@.len(),
                trimmed_end(path@, n as int) == trimmed_end(path@, end as int),
            decreases end,
        {
            end = end - 1;
        }
        assert(trimmed_end(path@, end as int) == end);
        let mut start: usize = end;
        while start > 0 && path.get_char(start - 1) != '/'
            invariant
                start <= end <= n == path@.len(),
                end == trimmed_end(path@, n as int),
                segment_start(path@, end as int) == segment_start(path@, start as int),
            decreases start,
        {
            start = start - 1;
        }
        assert(segment_start(path@, start as int) == start);
        let seg = path.substring_char(start, end);
        let len = end - start;
        if len == 0 || (len == 2 && seg.get_char(0) == '.' && seg.get_char(1) == '.') {
            proof {
                if len == 2 {
                    assert(seg@ =~= seq!['.', '.']);
                }
            }
            None
        } else {
            proof {
                if seg@ == seq!['.', '.'] {
                    assert(seg@[0] == '.' && seg@[1] == '.');
                }
            }
            Some(String::from_str(seg))
        }
    }

    /// The glyphs drawn before an entry of the level being listed: for each
    /// ancestor level a bar, or a blank once that level's directory has reached
    /// its last child; then the entry's own corner.
    pub fn ascii_row(&self, is_last: bool) -> (r: Vec<Glyph>)
        ensures
            r@ == row_glyphs(self.finished_dirs@, is_last),
    {
        let ghost want = row_glyphs(self.finished_dirs@, is_last);
        let mut r: Vec<Glyph> = Vec::new();
        let mut i: usize = 0;
        while i < self.finished_dirs.len()
            invariant
                i <= self.finished_dirs@.len(),
                want == row_glyphs(self.finished_dirs@, is_last),
                r@ =~= want.take(i as int),
            decreases self.finished_dirs@.len() - i,
        {
            if self.finished_dirs[i] {
                r.push(Glyph::Blank);
            } else {
                r.push(Glyph::Bar);
            }
            i = i + 1;
            assert(r@ =~= want.take(i as int));
        }
        if is_last {
            r.push(Glyph::Last);
        } else {
            r.push(Glyph::Branch);
        }
        assert(r@ =~= want);
        r
    }

    /// Counts `e` and what lies below it, and appends the lines drawn for
    /// them to `out`.
    fn visit(&mut self, e: &Entry, is_last: bool, out: &mut Vec<Line>)
        requires
            entry_fits(*old(self), *e),
        ensures
            lines_view(final(out)@) == lines_view(old(out)@) + entry_lines(
                *e,
                old(self).finished_dirs@,
                is_last,
            ),
            final(self).finished_dirs@ == old(self).finished_dirs@,
            final(self).start_dir == old(self).start_dir,
            final(self).num_files == old(self).num_files + entry_count(
                *e,
                old(self).finished_dirs@.len() == 0,
                Ftype::File,
            ),
            final(self).num_dirs == old(self).num_dirs + entry_count(
                *e,
                old(self).finished_dirs@.len() == 0,
                Ftype::Directory,
            ),
            final(self).num_symlinks == old(self).num_symlinks + entry_count(
                *e,
                old(self).finished_dirs@.len() == 0,
                Ftype::Symlink,
            ),
        decreases *e, 0int,
    {
        let top = self.finished_dirs.len() == 0;
        match e.ftype {
            Ftype::File => self.num_files = self.num_files + 1,
            Ftype::Symlink => self.num_symlinks = self.num_symlinks + 1,
            Ftype::Directory => self.num_dirs = self.num_dirs + 1,
        }
        let glyphs = self.ascii_row(is_last);
        let ghost before = out@;
        if e.ftype == Ftype::Directory {
            if is_hidden_top_dir(&e.name, top) {
                return;
            }
            out.push(Line::Row { glyphs, name: e.name.clone(), ftype: e.ftype });
            assert(lines_view(out@) =~= lines_view(before).push(out@.last()@));
            let ghost mid = out@;
            self.finished_dirs.push(is_last);
            self.walk_children(&e.children, out);
            self.finished_dirs.pop();
            assert(self.finished_dirs@ =~= old(self).finished_dirs@);
            let ghost after = out@;
            match &e.error {
                Some(m) => {
                    out.push(Line::Failure { message: m.clone() });
                    assert(lines_view(out@) =~= lines_view(after).push(out@.last()@));
                },
                None => {},
            }
            assert(lines_view(out@) =~= lines_view(before) + entry_lines(
                *e,
                old(self).finished_dirs@,
                is_last,
            ));
        } else {
            out.push(Line::Row { glyphs, name: e.name.clone(), ftype: e.ftype });
            assert(lines_view(out@) =~= lines_view(before).push(out@.last()@));
        }
    }

    /// Counts the siblings `children` and what lies below them, and appends
    /// the lines drawn for them, in name order, to `out`.
    fn walk_children(&mut self, children: &Vec<Entry>, out: &mut Vec<Line>)
        requires
            counts_fit(*old(self), children@),
        ensures
            lines_view(final(out)@) == lines_view(old(out)@) + children_lines(
                children@,
                0,
                old(self).finished_dirs@,
            ),
            final(self).finished_dirs@ == old(self).finished_dirs@,
            final(self).start_dir == old(self).start_dir,
            final(self).num_files == old(self).num_files + children_count(
                children@,
                0,
                old(self).finished_dirs@.len() == 0,
                Ftype::File,
            ),
            final(self).num_dirs == old(self).num_dirs + children_count(
                children@,
                0,
                old(self).finished_dirs@.len() == 0,
                Ftype::Directory,
            ),
            final(self).num_symlinks == old(self).num_symlinks + children_count(
                children@,
                0,
                old(self).finished_dirs@.len() == 0,
                Ftype::Symlink,
            ),
        decreases children@, 1int,
    {
        let ghost fin = self.finished_dirs@;
        let ghost top = fin.len() == 0;
        let order = sort_by_name(children);
        proof {
            lemma_sorted_order(names_of(children@), children@.len());
        }
        let n = children.len();
        let mut k: usize = 0;
        while k < n
            invariant
                n == children@.len(),
                k <= n,
                order@ == sibling_order(children@),
                order@.len() == n,
                forall|m: int| 0 <= m < n ==> #[trigger] order@[m] < n,
                fin == old(self).finished_dirs@,
                top == (fin.len() == 0),
                self.finished_dirs@ == fin,
                self.start_dir == old(self).start_dir,
                counts_fit(*old(self), children@),
                lines_view(out@) + children_lines(children@, k as int, fin) == lines_view(old(out)@)
                    + children_lines(children@, 0, fin),
                self.num_files + children_count(children@, k as int, top, Ftype::File)
                    == old(self).num_files + children_count(children@, 0, top, Ftype::File),
                self.num_dirs + children_count(children@, k as int, top, Ftype::Directory)
                    == old(self).num_dirs + children_count(children@, 0, top, Ftype::Directory),
                self.num_symlinks + children_count(children@, k as int, top, Ftype::Symlink)
                    == old(self).num_symlinks + children_count(children@, 0, top, Ftype::Symlink),
            decreases n - k,
        {
            let i = order[k];
            let ghost before = out@;
            let ghost e = children@[i as int];
            assert(children_lines(children@, k as int, fin) == entry_lines(e, fin, k == n - 1)
                + children_lines(children@, k + 1, fin));
            assert(children_count(children@, k as int, top, Ftype::File) == entry_count(e, top, Ftype::File)
                + children_count(children@, k + 1, top, Ftype::File));
            assert(children_count(children@, k as int, top, Ftype::Directory) == entry_count(
                e,
                top,
                Ftype::Directory,
            ) + children_count(children@, k + 1, top, Ftype::Directory));
            assert(children_count(children@, k as int, top, Ftype::Symlink) == entry_count(
                e,
                top,
                Ftype::Symlink,
            ) + children_count(children@, k + 1, top, Ftype::Symlink));
            self.visit(&children[i], k + 1 == n, out);
            assert(lines_view(out@) + children_lines(children@, k + 1, fin) =~= lines_view(before)
                + children_lines(children@, k as int, fin));
            k = k + 1;
        }
        assert(children_lines(children@, n as int, fin) =~= Seq::<LineView>::empty());
        assert(lines_view(out@) + children_lines(children@, n as int, fin) =~= lines_view(out@));
    }

    /// Walks the tree below `root` from a fresh state: counts every entry and
    /// returns the lines drawn for it, followed by the report of a failed
    /// listing of the root itself.
    pub fn traverse(&mut self, root: &Entry) -> (lines: Vec<Line>)
        requires
            old(self).finished_dirs@.len() == 0,
            counts_fit(*old(self), root.children@),
        ensures
            lines_view(lines@) == children_lines(root.children@, 0, Seq::empty()) + error_lines(
                root.error,
            ),
            final(self).finished_dirs@.len() == 0,
            final(self).start_dir == old(self).start_dir,
            final(self).num_files == old(self).num_files + children_count(
                root.children@,
                0,
                true,
                Ftype::File,
            ),
            final(self).num_dirs == old(self).num_dirs + children_count(
                root.children@,
                0,
                true,
                Ftype::Directory,
            ),
            final(self).num_symlinks == old(self).num_symlinks + children_count(
                root.children@,
                0,
                true,
                Ftype::Symlink,
            ),
    {
        let mut out: Vec<Line> = Vec::new();
        assert(lines_view(out@) =~= Seq::<LineView>::empty());
        self.walk_children(&root.children, &mut out);
        assert(self.finished_dirs@ =~= Seq::<bool>::empty());
        let ghost after = out@;
        match &root.error {
            Some(m) => {
                out.push(Line::Failure { message: m.clone() });
                assert(lines_view(out@) =~= lines_view(after).push(out@.last()@));
            },
            None => {},
        }
        assert(lines_view(out@) =~= children_lines(root.children@, 0, Seq::empty()) + error_lines(
            root.error,
        ));
        out
    }

    /// The counts gathered so far.
    pub fn stats(&self) -> (r: Stats)
        ensures
            r == (Stats { dirs: self.num_dirs, files: self.num_files, symlinks: self.num_symlinks }),
    {
        Stats { dirs: self.num_dirs, files: self.num_files, symlinks: self.num_symlinks }
    }
}

/// The number of entries of kind `k` counted for `e` and what lies below it,
/// or `None` where that number exceeds `usize::MAX`.
fn tally_entry(e: &Entry, top: bool, k: Ftype) -> (r: Option<usize>)
    ensures
        r == (if entry_count(*e, top, k) <= usize::MAX {
            Some(entry_count(*e, top, k) as usize)
        } else {
            None
        }),
    decreases *e, 0int,
{
    let own: usize = if e.ftype == k { 1 } else { 0 };
    if e.ftype == Ftype::Directory && !is_hidden_top_dir(&e.name, top) {
        match tally_children(&e.children, false, k) {
            Some(c) => c.checked_add(own),
            None => None,
        }
    } else {
        Some(own)
    }
}

/// The number of entries of kind `k` counted for the siblings `children` and
/// what lies below them, or `None` where that number exceeds `usize::MAX`.
fn tally_children(children: &Vec<Entry>, top: bool, k: Ftype) -> (r: Option<usize>)
    ensures
        r == (if children_count(children@, 0, top, k) <= usize::MAX {
            Some(children_count(children@, 0, top, k) as usize)
        } else {
            None
        }),
    decreases children@, 1int,
{
    let order = sort_by_name(children);
    proof {
        lemma_sorted_order(names_of(children@), children@.len());
    }
    let n = children.len();
    let mut acc: usize = 0;
    let mut j: usize = 0;
    while j < n
        invariant
            n == children@.len(),
            j <= n,
            order@ == sibling_order(children@),
            order@.len() == n,
            forall|m: int| 0 <= m < n ==> #[trigger] order@[m] < n,
            acc + children_count(children@, j as int, top, k) == children_count(children@, 0, top, k),
        decreases n - j,
    {
        let i = order[j];
        assert(children_count(children@, j as int, top, k) == entry_count(children@[i as int], top, k)
            + children_count(children@, j + 1, top, k));
        match tally_entry(&children[i], top, k) {
            Some(c) => match acc.checked_add(c) {
                Some(sum) => acc = sum,
                None => return None,
            },
            None => return None,
        }
        j = j + 1;
    }
    Some(acc)
}

/// The counts of a walk of the tree below `root`, or `None` where one of them
/// would exceed `usize::MAX`; a fresh [`Traverser`] can walk the tree exactly
/// when this is `Some`.
pub fn count_entries(root: &Entry) -> (r: Option<Stats>)
    ensures
        r is Some <==> children_count(root.children@, 0, true, Ftype::File) <= usize::MAX
            && children_count(root.children@, 0, true, Ftype::Directory) <= usize::MAX
            && children_count(root.children@, 0, true, Ftype::Symlink) <= usize::MAX,
        r matches Some(s) ==> s.files == children_count(root.children@, 0, true, Ftype::File)
            && s.dirs == children_count(root.children@, 0, true, Ftype::Directory) && s.symlinks
            == children_count(root.children@, 0, true, Ftype::Symlink),
{
    let files = tally_children(&root.children, true, Ftype::File);
    let dirs = tally_children(&root.children, true, Ftype::Directory);
    let symlinks = tally_children(&root.children, true, Ftype::Symlink);
    match (files, dirs, symlinks) {
        (Some(files), Some(dirs), Some(symlinks)) => Some(Stats { dirs, files, symlinks }),
        _ => None,
    }
}

/// Whether the `end`-th character of `path` can be dropped from the end.
fn trailing_filler(path: &str, end: usize) -> (r: bool)
    requires
        0 < end <= path@.len(),
    ensures
        r == is_trailing_filler(path@, end as int),
{
    let c = path.get_char(end - 1);
    c == '/' || (c == '.' && (end == 1 || path.get_char(end - 2) == '/'))
}

/// Whether a directory named `name` is one that is counted but neither drawn
/// nor descended into: one at the top level whose name starts with a dot.
pub fn is_hidden_top_dir(name: &String, top: bool) -> (r: bool)
    ensures
        r == is_hidden_top(top, name@),
{
    let s = name.as_str();
    top && s.unicode_len() > 0 && s.get_char(0) == '.'
}

} // verus!
