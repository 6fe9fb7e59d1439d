//! Drawing the cached tree as text.
//!
//! The tree is laid out as rows, one per shown node, in the order of a
//! depth-first walk that visits the children of each directory in
//! ascending order of their names. The walk stops descending at the depth
//! limit, and never goes deeper than the number of entries, which bounds
//! every chain of distinct paths.

use vstd::prelude::*;
use vstd::string::*;
use crate::cache::{display_name, DiskCache, DiskCacheView};
use crate::entry::DirEntryView;
use crate::order::{lemma_sorted_names, sorted_copy, sorted_names};
use crate::path::{join, path_join};
use crate::text::texts;

verus! {

/// One row of the drawn tree.
#[derive(Debug)]
pub struct TreeRow {
    /// How far below the root the node stands; the root's children have 1.
    pub depth: usize,
    /// What is drawn before the branch.
    pub prefix: String,
    /// Whether the node is the last child of its directory.
    pub is_last: bool,
    /// The node's name with its marks.
    pub label: String,
}

/// What a `TreeRow` holds, as plain values.
pub struct TreeRowView {
    pub depth: nat,
    pub prefix: Seq<char>,
    pub is_last: bool,
    pub label: Seq<char>,
}

impl View for TreeRow {
    type V = TreeRowView;

    open spec fn view(&self) -> TreeRowView {
        TreeRowView { depth: self.depth as nat, prefix: self.prefix@, is_last: self.is_last, label: self.label@ }
    }
}

/// The rows of a list, as plain values.
pub open spec fn row_views(rows: Seq<TreeRow>) -> Seq<TreeRowView> {
    Seq::new(rows.len(), |i: int| rows[i]@)
}

/// What a row shows for the child `name` at `child_path`: the name with
/// its link target if the child is a symbolic link, else the name with the
/// hidden mark where that applies; the bare name if the child has no entry.
pub open spec fn row_label(
    entries: Map<Seq<char>, DirEntryView>,
    show_hidden: bool,
    name: Seq<char>,
    child_path: Seq<char>,
) -> Seq<char> {
    if entries.dom().contains(child_path) {
        match entries[child_path].symlink_target {
            Some(target) => name + " (→ "@ + target + ")"@,
            None => display_name(entries, name, child_path, show_hidden),
        }
    } else {
        name
    }
}

/// What is drawn before the rows below a node.
pub open spec fn deeper_prefix(prefix: Seq<char>, is_last: bool) -> Seq<char> {
    if is_last {
        prefix + "    "@
    } else {
        prefix + "│   "@
    }
}

/// Whether the walk stops at `depth`.
pub open spec fn at_limit(depth: nat, max_depth: Option<usize>) -> bool {
    max_depth is Some && depth >= max_depth->0
}

/// The rows below the node at `path`, each drawn behind `prefix`.
/// `budget` bounds how much deeper the walk may go.
pub open spec fn rows_below(
    entries: Map<Seq<char>, DirEntryView>,
    show_hidden: bool,
    path: Seq<char>,
    prefix: Seq<char>,
    depth: nat,
    max_depth: Option<usize>,
    budget: nat,
) -> Seq<TreeRowView>
    decreases budget, 1nat, 0nat,
{
    if budget == 0 || at_limit(depth, max_depth) || !entries.dom().contains(path) {
        Seq::empty()
    } else {
        rows_of_children(
            entries,
            show_hidden,
            path,
            prefix,
            sorted_names(entries[path].children),
            0,
            depth,
            max_depth,
            budget,
        )
    }
}

/// The rows of the children `names[from..]` of the node at `path`, each
/// followed by the rows below it. What stands below a child is drawn
/// behind a bar where further children follow the child, and behind
/// blanks below the last child.
pub open spec fn rows_of_children(
    entries: Map<Seq<char>, DirEntryView>,
    show_hidden: bool,
    path: Seq<char>,
    prefix: Seq<char>,
    names: Seq<Seq<char>>,
    from: nat,
    depth: nat,
    max_depth: Option<usize>,
    budget: nat,
) -> Seq<TreeRowView>
    decreases budget, 0nat, names.len() - from,
{
    if from >= names.len() || budget == 0 {
        Seq::empty()
    } else {
        let name = names[from as int];
        let child_path = path_join(path, name);
        let child_last = from == names.len() - 1;
        let row = TreeRowView {
            depth: depth + 1,
            prefix,
            is_last: child_last,
            label: row_label(entries, show_hidden, name, child_path),
        };
        seq![row] + rows_below(
            entries,
            show_hidden,
            child_path,
            deeper_prefix(prefix, child_last),
            depth + 1,
            max_depth,
            (budget - 1) as nat,
        ) + rows_of_children(
            entries,
            show_hidden,
            path,
            prefix,
            names,
            from + 1,
            depth,
            max_depth,
            budget,
        )
    }
}

/// All rows of the tree of a cache.
pub open spec fn tree_rows(c: DiskCacheView, max_depth: Option<usize>) -> Seq<TreeRowView> {
    rows_below(c.entries, c.show_hidden, c.root, Seq::empty(), 0, max_depth, c.entries.dom().len())
}

/// Every row stands deeper than `depth` and, where a limit is given, no
/// deeper than the limit.
pub open spec fn rows_within(rows: Seq<TreeRowView>, depth: nat, max_depth: Option<usize>) -> bool {
    forall|i: int|
        0 <= i < rows.len() ==> (#[trigger] rows[i]).depth > depth && (max_depth is Some ==> rows[i].depth
            <= max_depth->0)
}

/// The rows below a node stand deeper than the node and within the
/// depth limit.
pub proof fn lemma_rows_below_within(
    entries: Map<Seq<char>, DirEntryView>,
    show_hidden: bool,
    path: Seq<char>,
    prefix: Seq<char>,
    depth: nat,
    max_depth: Option<usize>,
    budget: nat,
)
    ensures
        rows_within(rows_below(entries, show_hidden, path, prefix, depth, max_depth, budget), depth, max_depth),
    decreases budget, 1nat, 0nat,
{
    if budget == 0 || at_limit(depth, max_depth) || !entries.dom().contains(path) {
    } else {
        lemma_rows_of_children_within(
            entries,
            show_hidden,
            path,
            prefix,
            sorted_names(entries[path].children),
            0,
            depth,
            max_depth,
            budget,
        );
    }
}

/// The rows of the children of a node, and those below them, stand
/// deeper than the node and within the depth limit.
pub proof fn lemma_rows_of_children_within(
    entries: Map<Seq<char>, DirEntryView>,
    show_hidden: bool,
    path: Seq<char>,
    prefix: Seq<char>,
    names: Seq<Seq<char>>,
    from: nat,
    depth: nat,
    max_depth: Option<usize>,
    budget: nat,
)
    requires
        !at_limit(depth, max_depth),
    ensures
        rows_within(
            rows_of_children(entries, show_hidden, path, prefix, names, from, depth, max_depth, budget),
            depth,
            max_depth,
        ),
    decreases budget, 0nat, names.len() - from,
{
    if from >= names.len() || budget == 0 {
    } else {
        let name = names[from as int];
        let child_path = path_join(path, name);
        let child_last = from == names.len() - 1;
        let below = rows_below(
            entries,
            show_hidden,
            child_path,
            deeper_prefix(prefix, child_last),
            depth + 1,
            max_depth,
            (budget - 1) as nat,
        );
        let rest = rows_of_children(entries, show_hidden, path, prefix, names, from + 1, depth, max_depth, budget);
        lemma_rows_below_within(
            entries,
            show_hidden,
            child_path,
            deeper_prefix(prefix, child_last),
            depth + 1,
            max_depth,
            (budget - 1) as nat,
        );
        lemma_rows_of_children_within(entries, show_hidden, path, prefix, names, from + 1, depth, max_depth, budget);
        let all = rows_of_children(entries, show_hidden, path, prefix, names, from, depth, max_depth, budget);
        assert forall|i: int| 0 <= i < all.len() implies (#[trigger] all[i]).depth > depth && (max_depth is Some
            ==> all[i].depth <= max_depth->0) by {
            if i == 0 {
            } else if i < 1 + below.len() {
                assert(all[i] == below[i - 1]);
            } else {
                assert(all[i] == rest[i - 1 - below.len()]);
            }
        }
    }
}

/// With a depth limit, no row of the tree stands deeper below the root
/// than the limit.
pub proof fn lemma_tree_rows_within_limit(c: DiskCacheView, max_depth: usize)
    ensures
        forall|i: int|
            0 <= i < tree_rows(c, Some(max_depth)).len() ==> (#[trigger] tree_rows(c, Some(max_depth))[i]).depth
                <= max_depth,
{
    lemma_rows_below_within(
        c.entries,
        c.show_hidden,
        c.root,
        Seq::empty(),
        0,
        Some(max_depth),
        c.entries.dom().len(),
    );
}

/// The branch drawn in front of a node.
pub open spec fn branch_text(is_last: bool) -> Seq<char> {
    if is_last {
        "└── "@
    } else {
        "├── "@
    }
}

/// A row as a line of plain text.
pub open spec fn row_text(r: TreeRowView) -> Seq<char> {
    r.prefix + branch_text(r.is_last) + r.label + "\n"@
}

/// The rows as lines of plain text, one after the other.
pub open spec fn rows_text(rows: Seq<TreeRowView>) -> Seq<char>
    decreases rows.len(),
{
    if rows.len() == 0 {
        Seq::empty()
    } else {
        rows_text(rows.drop_last()) + row_text(rows.last())
    }
}

/// The plain drawing of a cache: a fixed line when it holds no entry,
/// else the root path on a line of its own and then the rows.
pub open spec fn plain_tree(c: DiskCacheView, max_depth: Option<usize>) -> Seq<char> {
    if c.entries.dom().len() == 0 {
        "(empty)\n"@
    } else {
        c.root + "\n"@ + rows_text(tree_rows(c, max_depth))
    }
}

/// The node at `path` has no rows below it where its entry names no
/// children.
pub proof fn lemma_childless_node_has_no_rows(
    entries: Map<Seq<char>, DirEntryView>,
    show_hidden: bool,
    path: Seq<char>,
    prefix: Seq<char>,
    depth: nat,
    max_depth: Option<usize>,
    budget: nat,
)
    requires
        entries.dom().contains(path) ==> entries[path].children.len() == 0,
    ensures
        rows_below(entries, show_hidden, path, prefix, depth, max_depth, budget).len() == 0,
{
    if entries.dom().contains(path) {
        lemma_sorted_names(entries[path].children);
    }
}

/// A tree without children draws as its root: where the cache holds
/// entries and the root names no children, the plain drawing is the root
/// path on a line of its own.
pub proof fn lemma_childless_root_draws_alone(c: DiskCacheView, max_depth: Option<usize>)
    requires
        c.entries.dom().len() != 0,
        c.entries.dom().contains(c.root) ==> c.entries[c.root].children.len() == 0,
    ensures
        plain_tree(c, max_depth) == c.root + "\n"@,
{
    lemma_childless_node_has_no_rows(
        c.entries,
        c.show_hidden,
        c.root,
        Seq::empty(),
        0,
        max_depth,
        c.entries.dom().len(),
    );
    assert(tree_rows(c, max_depth) =~= Seq::empty());
    assert(c.root + "\n"@ + rows_text(tree_rows(c, max_depth)) =~= c.root + "\n"@);
}

/// A root with a single child that has no children, is no symbolic link
/// and is not marked hidden draws as the root path and one line with a
/// corner and the child's name, unless the depth limit is zero.
pub proof fn lemma_single_child_draws_with_a_corner(c: DiskCacheView, max_depth: Option<usize>, name: Seq<char>)
    requires
        c.entries.dom().len() != 0,
        !at_limit(0, max_depth),
        c.entries.dom().contains(c.root),
        c.entries[c.root].children == seq![name],
        c.entries.dom().contains(path_join(c.root, name)),
        path_join(c.root, name) != c.root,
        c.entries[path_join(c.root, name)].children.len() == 0,
        c.entries[path_join(c.root, name)].symlink_target is None,
        !(c.show_hidden && c.entries[path_join(c.root, name)].is_hidden),
    ensures
        plain_tree(c, max_depth) == c.root + "\n"@ + "└── "@ + name + "\n"@,
{
    let names = sorted_names(c.entries[c.root].children);
    let budget = c.entries.dom().len();
    let child = path_join(c.root, name);
    lemma_sorted_names(seq![name]);
    assert(names =~= seq![name]) by {
        seq![name].to_multiset_ensures();
        names.to_multiset_ensures();
        assert(names.to_multiset().count(names[0]) > 0);
        assert(seq![name].contains(names[0]));
    }
    lemma_childless_node_has_no_rows(
        c.entries,
        c.show_hidden,
        child,
        deeper_prefix(Seq::empty(), true),
        1,
        max_depth,
        (budget - 1) as nat,
    );
    let row = TreeRowView {
        depth: 1,
        prefix: Seq::empty(),
        is_last: true,
        label: row_label(c.entries, c.show_hidden, name, child),
    };
    let below = rows_below(c.entries, c.show_hidden, child, deeper_prefix(Seq::empty(), true), 1, max_depth, (budget - 1) as nat);
    let rest = rows_of_children(c.entries, c.show_hidden, c.root, Seq::empty(), names, 1, 0, max_depth, budget);
    assert(rest =~= Seq::empty());
    assert(below =~= Seq::empty());
    let rows = tree_rows(c, max_depth);
    assert(rows == rows_of_children(c.entries, c.show_hidden, c.root, Seq::empty(), names, 0, 0, max_depth, budget));
    assert(rows =~= seq![row]);
    assert(rows.drop_last() =~= Seq::empty());
    assert(rows_text(rows) =~= row_text(row)) by {
        reveal_with_fuel(rows_text, 2);
    }
    assert(row.label == name);
    assert(plain_tree(c, max_depth) =~= c.root + "\n"@ + "└── "@ + name + "\n"@);
}

/// The label of the child `name` at `child_path`.
fn label_of(cache: &DiskCache, name: &str, child_path: &str) -> (r: String)
    ensures
        r@ == row_label(cache@.entries, cache@.show_hidden, name@, child_path@),
{
    match cache.get_entry(child_path) {
        Some(entry) => {
            match &entry.symlink_target {
                Some(target) => {
                    let mut r = String::from_str(name);
                    r.append(" (→ ");
                    r.append(target.as_str());
                    r.append(")");
                    r
                },
                None => cache.format_name(name, child_path, cache.show_hidden),
            }
        },
        None => String::from_str(name),
    }
}

/// Appends to `rows` the rows below the node at `path`.
fn print_tree(
    cache: &DiskCache,
    rows: &mut Vec<TreeRow>,
    path: &str,
    prefix: &str,
    current_depth: usize,
    max_depth: Option<usize>,
    budget: usize,
    parallel_sort: bool,
)
    requires
        current_depth + budget <= usize::MAX,
    ensures
        row_views(final(rows)@) == row_views(old(rows)@) + rows_below(
            cache@.entries,
            cache@.show_hidden,
            path@,
            prefix@,
            current_depth as nat,
            max_depth,
            budget as nat,
        ),
    decreases budget,
{
    let ghost start = row_views(rows@);
    if budget == 0 {
        assert(row_views(rows@) =~= start + Seq::<TreeRowView>::empty());
        return ;
    }
    if let Some(max) = max_depth {
        if current_depth >= max {
            assert(row_views(rows@) =~= start + Seq::<TreeRowView>::empty());
            return ;
        }
    }
    match cache.get_entry(path) {
        None => {
            assert(row_views(rows@) =~= start + Seq::<TreeRowView>::empty());
        },
        Some(entry) => {
            let children = sorted_copy(&entry.children, parallel_sort);
            let ghost names = texts(children@);
            let ghost entries = cache@.entries;
            let ghost show = cache@.show_hidden;
            let n = children.len();
            let mut i: usize = 0;
            assert(row_views(rows@) =~= start + Seq::<TreeRowView>::empty());
            while i < n
                invariant
                    i <= n,
                    n == children@.len(),
                    names == texts(children@),
                    entries == cache@.entries,
                    show == cache@.show_hidden,
                    budget > 0,
                    current_depth + budget <= usize::MAX,
                    row_views(rows@) + rows_of_children(
                        entries,
                        show,
                        path@,
                        prefix@,
                        names,
                        i as nat,
                        current_depth as nat,
                        max_depth,
                        budget as nat,
                    ) == start + rows_of_children(
                        entries,
                        show,
                        path@,
                        prefix@,
                        names,
                        0,
                        current_depth as nat,
                        max_depth,
                        budget as nat,
                    ),
                decreases n - i,
            {
                let name = &children[i];
                let child_last = i == n - 1;
                let deeper = if child_last {
                    String::from_str(prefix).concat("    ")
                } else {
                    String::from_str(prefix).concat("│   ")
                };
                let child_path = join(path, name.as_str());
                let label = label_of(cache, name.as_str(), child_path.as_str());
                let ghost before = row_views(rows@);
                let row = TreeRow { depth: current_depth + 1, prefix: String::from_str(prefix), is_last: child_last, label };
                let ghost row_view = row@;
                rows.push(row);
                assert(row_views(rows@) =~= before + seq![row_view]);
                let ghost mid = row_views(rows@);
                print_tree(
                    cache,
                    rows,
                    child_path.as_str(),
                    deeper.as_str(),
                    current_depth + 1,
                    max_depth,
                    budget - 1,
                    parallel_sort,
                );
                proof {
                    let below = rows_below(
                        entries,
                        show,
                        child_path@,
                        deeper@,
                        (current_depth + 1) as nat,
                        max_depth,
                        (budget - 1) as nat,
                    );
                    let rest = rows_of_children(
                        entries,
                        show,
                        path@,
                        prefix@,
                        names,
                        (i + 1) as nat,
                        current_depth as nat,
                        max_depth,
                        budget as nat,
                    );
                    assert(names[i as int] == name@);
                    assert(row_views(rows@) == before + seq![row_view] + below);
                    assert(before + (seq![row_view] + below + rest) =~= (before + seq![row_view] + below) + rest);
                }
                i += 1;
            }
        },
    }
}

/// The rows as lines of plain text.
pub fn rows_to_text(rows: &Vec<TreeRow>) -> (text: String)
    ensures
        text@ == rows_text(row_views(rows@)),
{
    let mut text = String::new();
    let ghost all = row_views(rows@);
    let mut i: usize = 0;
    assert(all.take(0) =~= Seq::<TreeRowView>::empty());
    while i < rows.len()
        invariant
            i <= rows@.len(),
            all == row_views(rows@),
            text@ == rows_text(all.take(i as int)),
        decreases rows@.len() - i,
    {
        let row = &rows[i];
        let ghost head = text@;
        text.append(row.prefix.as_str());
        if row.is_last {
            text.append("└── ");
        } else {
            text.append("├── ");
        }
        text.append(row.label.as_str());
        text.append("\n");
        proof {
            assert(all.take(i + 1).drop_last() =~= all.take(i as int));
            assert(all.take(i + 1).last() == all[i as int]);
            assert(all[i as int] == rows@[i as int]@);
            assert(text@ =~= head + row_text(all[i as int]));
        }
        i += 1;
    }
    assert(all.take(i as int) =~= all);
    text
}

impl DiskCache {
    /// The rows of the tree, down to `max_depth` levels below the root
    /// where a limit is given.
    pub fn build_tree_rows(&self, max_depth: Option<usize>, parallel_sort: bool) -> (rows: Vec<TreeRow>)
        ensures
            row_views(rows@) == tree_rows(self@, max_depth),
    {
        let mut rows: Vec<TreeRow> = Vec::new();
        let budget = self.entries.len();
        assert(row_views(rows@) =~= Seq::<TreeRowView>::empty());
        print_tree(self, &mut rows, self.root.as_str(), "", 0, max_depth, budget, parallel_sort);
        proof {
            reveal_strlit("");
            assert(""@ =~= Seq::<char>::empty());
            assert(Seq::<TreeRowView>::empty() + tree_rows(self@, max_depth) =~= tree_rows(self@, max_depth));
        }
        rows
    }

    /// The plain drawing of the tree, down to `max_depth` levels below the
    /// root where a limit is given.
    pub fn build_tree_output_with_depth(&self, max_depth: Option<usize>) -> (text: String)
        ensures
            text@ == plain_tree(self@, max_depth),
    {
        if self.entries.is_empty() {
            return String::from_str("(empty)\n");
        }
        let rows = self.build_tree_rows(max_depth, false);
        let mut text = self.root.clone();
        text.append("\n");
        let body = rows_to_text(&rows);
        text.append(body.as_str());
        text
    }

    /// The plain drawing of the whole tree.
    pub fn build_tree_output(&self) -> (text: String)
        ensures
            text@ == plain_tree(self@, None),
    {
        self.build_tree_output_with_depth(None)
    }
}

/// One row of the coloured tree: the prefix as it is, the branch and the
/// label as the terminal styling returned them.
#[derive(Debug)]
pub struct PaintedRow {
    /// What is drawn before the branch.
    pub prefix: String,
    /// The branch, styled.
    pub branch: String,
    /// The label, styled.
    pub label: String,
}

/// What a `PaintedRow` holds, as plain values.
pub struct PaintedRowView {
    pub prefix: Seq<char>,
    pub branch: Seq<char>,
    pub label: Seq<char>,
}

impl View for PaintedRow {
    type V = PaintedRowView;

    open spec fn view(&self) -> PaintedRowView {
        PaintedRowView { prefix: self.prefix@, branch: self.branch@, label: self.label@ }
    }
}

/// The painted rows of a list, as plain values.
pub open spec fn painted_views(rows: Seq<PaintedRow>) -> Seq<PaintedRowView> {
    Seq::new(rows.len(), |i: int| rows[i]@)
}

/// The painted rows as lines of text, one after the other.
pub open spec fn painted_text(rows: Seq<PaintedRowView>) -> Seq<char>
    decreases rows.len(),
{
    if rows.len() == 0 {
        Seq::empty()
    } else {
        painted_text(rows.drop_last()) + (rows.last().prefix + rows.last().branch + rows.last().label + "\n"@)
    }
}

/// The coloured drawing made of a styled root and painted rows.
pub open spec fn colored_text(root: Seq<char>, rows: Seq<PaintedRowView>) -> Seq<char> {
    root + "\n"@ + painted_text(rows)
}

/// What a styled text of colored holds: the text, the codes of its
/// styles joined by `;`, the code of its background and the code of its
/// colour; a code is empty where nothing is set.
pub struct ColoredModel {
    pub input: Seq<char>,
    pub styles: Seq<char>,
    pub back: Seq<char>,
    pub fore: Seq<char>,
}

/// What the styled text holds.
pub uninterp spec fn colored_model(s: colored::ColoredString) -> ColoredModel;

/// Two lists of codes as one, with `;` between them where both hold
/// something.
pub open spec fn codes_joined(a: Seq<char>, b: Seq<char>) -> Seq<char> {
    if a.len() > 0 && b.len() > 0 {
        a + ";"@ + b
    } else {
        a + b
    }
}

/// The escape sequence that switches a terminal to the given styles,
/// background and colour.
pub open spec fn style_code(styles: Seq<char>, back: Seq<char>, fore: Seq<char>) -> Seq<char> {
    "\u{1b}["@ + codes_joined(codes_joined(styles, back), fore) + "m"@
}

/// The escape sequence that switches a terminal back to its defaults.
pub open spec fn reset_code() -> Seq<char> {
    "\u{1b}[0m"@
}

/// A text that holds no escape character.
pub open spec fn free_of_escapes(text: Seq<char>) -> bool {
    !text.contains('\u{1b}')
}

/// `out` is `text` as a process may write it in the style with the
/// escape sequence `code`: between `code` and the reset where the process
/// colours its output, as it is where not, and followed by the reset alone
/// where colouring is switched off while the text is written.
pub open spec fn styled(out: Seq<char>, text: Seq<char>, code: Seq<char>) -> bool {
    out == text || out == code + text + reset_code() || out == text + reset_code()
}

/// The escape sequence of cyan.
pub open spec fn cyan_code() -> Seq<char> {
    style_code(Seq::empty(), Seq::empty(), "36"@)
}

/// The escape sequence of bright blue.
pub open spec fn bright_blue_code() -> Seq<char> {
    style_code(Seq::empty(), Seq::empty(), "94"@)
}

/// The escape sequence of bold blue.
pub open spec fn bold_blue_code() -> Seq<char> {
    style_code("1"@, Seq::empty(), "34"@)
}

/// The painted rows stand for the rows `rows`: as many, with the same
/// prefixes, each branch styled in cyan and each label that holds no
/// escape character styled in bright blue.
pub open spec fn paints(painted: Seq<PaintedRowView>, rows: Seq<TreeRowView>) -> bool {
    painted.len() == rows.len() && forall|i: int|
        0 <= i < rows.len() ==> {
            &&& (#[trigger] painted[i]).prefix == rows[i].prefix
            &&& styled(painted[i].branch, branch_text(rows[i].is_last), cyan_code())
            &&& free_of_escapes(rows[i].label) ==> styled(painted[i].label, rows[i].label, bright_blue_code())
        }
}

/// A text with its terminal style, of colored.
#[verifier::external_type_specification]
#[verifier::external_body]
pub struct ExColoredString(colored::ColoredString);

/// `Colorize::blue` of colored gives the text with the colour blue,
/// code 34, and nothing else set.
#[verifier::external_body]
fn blue(s: &str) -> (r: colored::ColoredString)
    ensures
        colored_model(r) == (ColoredModel { input: s@, styles: Seq::empty(), back: Seq::empty(), fore: "34"@ }),
{
    colored::Colorize::blue(s)
}

/// `Colorize::cyan` of colored gives the text with the colour cyan,
/// code 36, and nothing else set.
#[verifier::external_body]
fn cyan(s: &str) -> (r: colored::ColoredString)
    ensures
        colored_model(r) == (ColoredModel { input: s@, styles: Seq::empty(), back: Seq::empty(), fore: "36"@ }),
{
    colored::Colorize::cyan(s)
}

/// `Colorize::bright_blue` of colored gives the text with the colour
/// bright blue, code 94, and nothing else set.
#[verifier::external_body]
fn bright_blue(s: &str) -> (r: colored::ColoredString)
    ensures
        colored_model(r) == (ColoredModel { input: s@, styles: Seq::empty(), back: Seq::empty(), fore: "94"@ }),
{
    colored::Colorize::bright_blue(s)
}

/// `Colorize::bold` of colored adds bold, code 1, to the styles of the
/// text; where no style was set before, bold is then the only one.
#[verifier::external_body]
fn bold(s: colored::ColoredString) -> (r: colored::ColoredString)
    ensures
        colored_model(s).styles.len() == 0 ==> colored_model(r) == (ColoredModel { styles: "1"@, ..colored_model(s) }),
{
    colored::Colorize::bold(s)
}

/// `ToString::to_string` on a `ColoredString` writes a text that holds
/// no escape character between the escape sequence of its style and the
/// reset where the process colours its output, and as it is where not.
/// Which of the two depends on the environment, call by call.
#[verifier::external_body]
fn written(s: &colored::ColoredString) -> (r: String)
    ensures
        free_of_escapes(colored_model(*s).input) ==> styled(
            r@,
            colored_model(*s).input,
            style_code(colored_model(*s).styles, colored_model(*s).back, colored_model(*s).fore),
        ),
{
    s.to_string()
}

/// The branch glyphs hold no escape character.
proof fn lemma_branches_free_of_escapes()
    ensures
        free_of_escapes(branch_text(true)),
        free_of_escapes(branch_text(false)),
{
    reveal_strlit("└── ");
    reveal_strlit("├── ");
    let last = "└── "@;
    let inner = "├── "@;
    assert forall|i: int| 0 <= i < last.len() implies last[i] != '\u{1b}' by {}
    assert forall|i: int| 0 <= i < inner.len() implies inner[i] != '\u{1b}' by {}
}

/// Styles the branch of every row in cyan and its label in bright blue.
pub fn paint_rows(rows: &Vec<TreeRow>) -> (painted: Vec<PaintedRow>)
    ensures
        paints(painted_views(painted@), row_views(rows@)),
{
    let mut painted: Vec<PaintedRow> = Vec::new();
    let mut i: usize = 0;
    proof {
        lemma_branches_free_of_escapes();
    }
    while i < rows.len()
        invariant
            i <= rows@.len(),
            painted@.len() == i,
            free_of_escapes(branch_text(true)),
            free_of_escapes(branch_text(false)),
            forall|j: int|
                0 <= j < i ==> {
                    &&& (#[trigger] painted@[j]).prefix@ == rows@[j].prefix@
                    &&& styled(painted@[j].branch@, branch_text(rows@[j].is_last), cyan_code())
                    &&& free_of_escapes(rows@[j].label@) ==> styled(
                        painted@[j].label@,
                        rows@[j].label@,
                        bright_blue_code(),
                    )
                },
        decreases rows@.len() - i,
    {
        let row = &rows[i];
        let branch = if row.is_last {
            written(&cyan("└── "))
        } else {
            written(&cyan("├── "))
        };
        let label = written(&bright_blue(row.label.as_str()));
        painted.push(PaintedRow { prefix: row.prefix.clone(), branch, label });
        i += 1;
    }
    painted
}

/// Styles the root path in bold blue.
pub fn paint_root(root: &str) -> (painted: String)
    ensures
        free_of_escapes(root@) ==> styled(painted@, root@, bold_blue_code()),
{
    written(&bold(blue(root)))
}

/// Puts a coloured drawing together from its styled parts.
pub fn assemble_colored(root: &str, painted: &Vec<PaintedRow>) -> (text: String)
    ensures
        text@ == colored_text(root@, painted_views(painted@)),
{
    let mut body = String::new();
    let ghost all = painted_views(painted@);
    let mut i: usize = 0;
    assert(all.take(0) =~= Seq::<PaintedRowView>::empty());
    while i < painted.len()
        invariant
            i <= painted@.len(),
            all == painted_views(painted@),
            body@ == painted_text(all.take(i as int)),
        decreases painted@.len() - i,
    {
        let row = &painted[i];
        let ghost head = body@;
        body.append(row.prefix.as_str());
        body.append(row.branch.as_str());
        body.append(row.label.as_str());
        body.append("\n");
        proof {
            assert(all.take(i + 1).drop_last() =~= all.take(i as int));
            assert(all.take(i + 1).last() == all[i as int]);
            assert(all[i as int] == painted@[i as int]@);
            assert(body@ =~= head + (all[i as int].prefix + all[i as int].branch + all[i as int].label + "\n"@));
        }
        i += 1;
    }
    assert(all.take(i as int) =~= all);
    let mut text = String::from_str(root);
    text.append("\n");
    text.append(body.as_str());
    text
}

impl DiskCache {
    /// The coloured drawing of the tree, down to `max_depth` levels below
    /// the root where a limit is given. It has the layout of the plain
    /// drawing; the root is styled bold blue, the branches cyan and the
    /// labels bright blue, as far as the process colours its output at all.
    pub fn build_colored_tree_output_with_depth(&self, max_depth: Option<usize>) -> (text: String)
        ensures
            self@.entries.dom().len() == 0 ==> text@ == "(empty)\n"@,
            self@.entries.dom().len() != 0 ==> exists|root: Seq<char>, painted: Seq<PaintedRowView>|
                {
                    &&& free_of_escapes(self@.root) ==> styled(root, self@.root, bold_blue_code())
                    &&& paints(painted, tree_rows(self@, max_depth))
                    &&& text@ == colored_text(root, painted)
                },
    {
        if self.entries.is_empty() {
            return String::from_str("(empty)\n");
        }
        let rows = self.build_tree_rows(max_depth, true);
        let painted = paint_rows(&rows);
        let root = paint_root(self.root.as_str());
        let text = assemble_colored(root.as_str(), &painted);
        assert({
            &&& free_of_escapes(self@.root) ==> styled(root@, self@.root, bold_blue_code())
            &&& paints(painted_views(painted@), tree_rows(self@, max_depth))
            &&& text@ == colored_text(root@, painted_views(painted@))
        });
        text
    }

    /// The coloured drawing of the whole tree.
    pub fn build_colored_tree_output(&self) -> (text: String)
        ensures
            self@.entries.dom().len() == 0 ==> text@ == "(empty)\n"@,
            self@.entries.dom().len() != 0 ==> exists|root: Seq<char>, painted: Seq<PaintedRowView>|
                {
                    &&& free_of_escapes(self@.root) ==> styled(root, self@.root, bold_blue_code())
                    &&& paints(painted, tree_rows(self@, None))
                    &&& text@ == colored_text(root, painted)
                },
    {
        self.build_colored_tree_output_with_depth(None)
    }
}

} // verus!
