use vstd::prelude::*;

use crate::list_files::is_exe_name;
use crate::tree::{node_dirs, node_direct_files, node_direct_size, node_file_size, node_files,
    node_name, node_total_files, node_total_size, TreeNode};
use crate::FileStats;

verus! {

// ---------------------------------------------------------------------------
// Tree prefixes
// ---------------------------------------------------------------------------

/// The connector segments rendered for the ancestor levels: blank where the
/// ancestor was the last of its siblings, a vertical connector otherwise.
pub open spec fn prefix_levels(flags: Seq<bool>) -> Seq<char>
    decreases flags.len(),
{
    if flags.len() == 0 {
        Seq::empty()
    } else {
        prefix_levels(flags.drop_last()) + (if flags.last() {
            "    "@
        } else {
            "│   "@
        })
    }
}

/// The whole prefix of one tree line: the ancestor segments, then a corner
/// connector for a last sibling or a tee connector otherwise. The root,
/// with no ancestors, has no prefix.
pub open spec fn tree_prefix_spec(flags: Seq<bool>) -> Seq<char> {
    if flags.len() == 0 {
        Seq::empty()
    } else {
        prefix_levels(flags.drop_last()) + (if flags.last() {
            "└── "@
        } else {
            "├── "@
        })
    }
}

/// Render the prefix for a line whose ancestor chain has the given
/// is-last-sibling flags, the entry's own flag last.
pub fn generate_tree_prefix(is_last_items: &Vec<bool>) -> (r: String)
    ensures
        r@ == tree_prefix_spec(is_last_items@),
{
    let mut s = String::new();
    let n = is_last_items.len();
    if n == 0 {
        return s;
    }
    let mut k: usize = 0;
    proof {
        assert(is_last_items@.subrange(0, 0) =~= Seq::<bool>::empty());
    }
    while k < n - 1
        invariant
            k <= n - 1,
            n == is_last_items@.len(),
            n >= 1,
            s@ == prefix_levels(is_last_items@.subrange(0, k as int)),
        decreases n - 1 - k,
    {
        if is_last_items[k] {
            s.append("    ");
        } else {
            s.append("│   ");
        }
        proof {
            assert(is_last_items@.subrange(0, k + 1).drop_last() =~= is_last_items@.subrange(
                0,
                k as int,
            ));
            assert(is_last_items@.subrange(0, k + 1).last() == is_last_items@[k as int]);
        }
        k = k + 1;
    }
    if is_last_items[n - 1] {
        s.append("└── ");
    } else {
        s.append("├── ");
    }
    proof {
        assert(is_last_items@.subrange(0, n - 1 as int) =~= is_last_items@.drop_last());
        assert(is_last_items@.last() == is_last_items@[n - 1 as int]);
    }
    s
}

/// A flag vector extended by one entry's own is-last flag.
pub fn push_flag(flags: &Vec<bool>, b: bool) -> (r: Vec<bool>)
    ensures
        r@ == flags@.push(b),
{
    let mut v: Vec<bool> = Vec::new();
    let mut k: usize = 0;
    while k < flags.len()
        invariant
            k <= flags@.len(),
            v@ =~= flags@.subrange(0, k as int),
        decreases flags@.len() - k,
    {
        v.push(flags[k]);
        k = k + 1;
    }
    proof {
        assert(v@ =~= flags@);
    }
    v.push(b);
    v
}

// ---------------------------------------------------------------------------
// Rendered lines
// ---------------------------------------------------------------------------

/// One line of rendered output, ready to print: the connector prefix, the
/// entry's name, and what is shown after it. `root` marks the root line,
/// which is announced instead of connected.
pub enum TreeLine {
    /// Stats-only mode: a directory with its file count and byte total;
    /// the counts are shown only when `show` is set (some file was kept).
    DirStats { prefix: String, name: String, root: bool, files: usize, size: u64, show: bool },
    /// Full mode: a directory with its cumulative byte total.
    DirFull { prefix: String, name: String, root: bool, size: u64 },
    /// Full mode: a file with its size; `exe` marks executables for
    /// highlighting.
    FileFull { prefix: String, name: String, size: u64, exe: bool },
}

pub open spec fn shown_files(node: TreeNode, include_children: bool) -> usize {
    if include_children {
        node_total_files(node)
    } else {
        node_direct_files(node)
    }
}

pub open spec fn shown_size(node: TreeNode, include_children: bool) -> u64 {
    if include_children {
        node_total_size(node)
    } else {
        node_direct_size(node)
    }
}

pub open spec fn line_for_dir_stats(l: TreeLine, node: TreeNode, flags: Seq<bool>, include_children: bool) -> bool {
    l matches TreeLine::DirStats { prefix, name, root, files, size, show } && {
        &&& prefix@ == tree_prefix_spec(flags)
        &&& name@ == node_name(node)
        &&& root == (flags.len() == 0)
        &&& files == shown_files(node, include_children)
        &&& size == shown_size(node, include_children)
        &&& show == (shown_files(node, include_children) > 0)
    }
}

pub open spec fn line_for_dir_full(l: TreeLine, node: TreeNode, flags: Seq<bool>) -> bool {
    l matches TreeLine::DirFull { prefix, name, root, size } && {
        &&& prefix@ == tree_prefix_spec(flags)
        &&& name@ == node_name(node)
        &&& root == (flags.len() == 0)
        &&& size == node_total_size(node)
    }
}

pub open spec fn line_for_file(l: TreeLine, node: TreeNode, flags: Seq<bool>) -> bool {
    l matches TreeLine::FileFull { prefix, name, size, exe } && {
        &&& prefix@ == tree_prefix_spec(flags)
        &&& name@ == node_name(node)
        &&& size == node_file_size(node)
        &&& exe == is_exe_name(node_name(node))
    }
}

// ---------------------------------------------------------------------------
// What the statistics pass accumulates
// ---------------------------------------------------------------------------

/// Directories visited below (and including) a node: every directory, since
/// both modes walk the whole surviving tree.
pub open spec fn stats_dirs_count(node: TreeNode) -> int
    decreases node, 1int,
{
    match node {
        TreeNode::File { .. } => 0,
        TreeNode::Directory { dirs, .. } => 1 + stats_dirs_count_seq(dirs@),
    }
}

pub open spec fn stats_dirs_count_seq(dirs: Seq<TreeNode>) -> int
    decreases dirs, 0int,
{
    if dirs.len() == 0 {
        0
    } else {
        stats_dirs_count_seq(dirs.drop_last()) + stats_dirs_count(dirs.last())
    }
}

/// Files counted by the stats-only pass: each visited directory adds its
/// direct file children.
pub open spec fn stats_num_files(node: TreeNode) -> int
    decreases node, 1int,
{
    match node {
        TreeNode::File { .. } => 0,
        TreeNode::Directory { files, dirs, .. } => files@.len() + stats_num_files_seq(dirs@),
    }
}

pub open spec fn stats_num_files_seq(dirs: Seq<TreeNode>) -> int
    decreases dirs, 0int,
{
    if dirs.len() == 0 {
        0
    } else {
        stats_num_files_seq(dirs.drop_last()) + stats_num_files(dirs.last())
    }
}

/// Bytes counted by the stats-only pass: each visited directory adds its
/// direct bytes only, so every kept byte is counted exactly once and the
/// run total equals the root's cumulative total.
pub open spec fn stats_num_bytes(node: TreeNode) -> int
    decreases node, 1int,
{
    match node {
        TreeNode::File { .. } => 0,
        TreeNode::Directory { dirs, direct_size, .. } => direct_size + stats_num_bytes_seq(dirs@),
    }
}

pub open spec fn stats_num_bytes_seq(dirs: Seq<TreeNode>) -> int
    decreases dirs, 0int,
{
    if dirs.len() == 0 {
        0
    } else {
        stats_num_bytes_seq(dirs.drop_last()) + stats_num_bytes(dirs.last())
    }
}

/// Files counted by the full pass: one per file line printed.
pub open spec fn stats_full_files(node: TreeNode) -> int
    decreases node, 1int,
{
    match node {
        TreeNode::File { .. } => 1,
        TreeNode::Directory { files, dirs, .. } => stats_full_files_seq(files@)
            + stats_full_files_seq(dirs@),
    }
}

pub open spec fn stats_full_files_seq(dirs: Seq<TreeNode>) -> int
    decreases dirs, 0int,
{
    if dirs.len() == 0 {
        0
    } else {
        stats_full_files_seq(dirs.drop_last()) + stats_full_files(dirs.last())
    }
}

/// Bytes counted by the full pass: each printed file adds its own size and
/// nothing else counts, so every kept byte is counted exactly once.
pub open spec fn stats_full_bytes(node: TreeNode) -> int
    decreases node, 1int,
{
    match node {
        TreeNode::File { size, .. } => size as int,
        TreeNode::Directory { files, dirs, .. } => stats_full_bytes_seq(files@)
            + stats_full_bytes_seq(dirs@),
    }
}

pub open spec fn stats_full_bytes_seq(dirs: Seq<TreeNode>) -> int
    decreases dirs, 0int,
{
    if dirs.len() == 0 {
        0
    } else {
        stats_full_bytes_seq(dirs.drop_last()) + stats_full_bytes(dirs.last())
    }
}

/// Addition that stops at a ceiling.
pub open spec fn sat(a: int, m: int) -> int {
    if a > m {
        m
    } else {
        a
    }
}

fn sat_add_usize(a: usize, b: usize) -> (r: usize)
    ensures
        r as int == sat(a + b, usize::MAX as int),
{
    if a > usize::MAX - b {
        usize::MAX
    } else {
        a + b
    }
}

fn sat_add_u64(a: u64, b: u64) -> (r: u64)
    ensures
        r as int == sat(a + b, u64::MAX as int),
{
    if a > u64::MAX - b {
        u64::MAX
    } else {
        a + b
    }
}

impl FileStats {
    /// Fold another accumulator's counters into these, stopping at the
    /// maxima rather than overflowing — for merging one starting
    /// directory's totals into the whole run's.
    pub fn absorb(&mut self, other: &FileStats)
        ensures
            final(self).total_files as int == sat(
                old(self).total_files + other.total_files,
                usize::MAX as int,
            ),
            final(self).total_dirs as int == sat(
                old(self).total_dirs + other.total_dirs,
                usize::MAX as int,
            ),
            final(self).total_bytes as int == sat(
                old(self).total_bytes + other.total_bytes,
                u64::MAX as int,
            ),
    {
        self.total_files = sat_add_usize(self.total_files, other.total_files);
        self.total_dirs = sat_add_usize(self.total_dirs, other.total_dirs);
        self.total_bytes = sat_add_u64(self.total_bytes, other.total_bytes);
    }
}

proof fn lemma_stats_nonneg(node: TreeNode)
    ensures
        stats_dirs_count(node) >= 0,
        stats_num_files(node) >= 0,
        stats_num_bytes(node) >= 0,
        stats_full_files(node) >= 0,
        stats_full_bytes(node) >= 0,
    decreases node, 1int,
{
    match node {
        TreeNode::File { .. } => (),
        TreeNode::Directory { files, dirs, .. } => {
            lemma_stats_seq_nonneg(dirs@);
            lemma_stats_seq_nonneg(files@);
        },
    }
}

proof fn lemma_stats_seq_nonneg(dirs: Seq<TreeNode>)
    ensures
        stats_dirs_count_seq(dirs) >= 0,
        stats_num_files_seq(dirs) >= 0,
        stats_num_bytes_seq(dirs) >= 0,
        stats_full_files_seq(dirs) >= 0,
        stats_full_bytes_seq(dirs) >= 0,
    decreases dirs, 0int,
{
    if dirs.len() > 0 {
        lemma_stats_seq_nonneg(dirs.drop_last());
        lemma_stats_nonneg(dirs.last());
    }
}

// ---------------------------------------------------------------------------
// What a rendering pass emits
// ---------------------------------------------------------------------------

/// The lines of the stats-only mode for one node: nothing for a file, and
/// for a directory its own line followed by the lines of each child
/// directory in order, the child's is-last flag appended to the chain.
pub open spec fn renders_num(node: TreeNode, flags: Seq<bool>, include_children: bool, lines: Seq<TreeLine>) -> bool
    decreases node, 1int, 0int,
{
    match node {
        TreeNode::File { .. } => lines.len() == 0,
        TreeNode::Directory { .. } => lines.len() >= 1 && line_for_dir_stats(
            lines[0],
            node,
            flags,
            include_children,
        ) && renders_num_from(node, 0, flags, include_children, lines.drop_first()),
    }
}

pub open spec fn renders_num_from(node: TreeNode, j: int, flags: Seq<bool>, include_children: bool, lines: Seq<TreeLine>) -> bool
    decreases node, 0int, node_dirs(node).len() - j,
{
    if j < 0 || j >= node_dirs(node).len() {
        lines.len() == 0
    } else {
        exists|m: int|
            0 <= m <= lines.len() && renders_num(
                node_dirs(node)[j],
                flags.push(j == node_dirs(node).len() - 1),
                include_children,
                #[trigger] lines.subrange(0, m),
            ) && renders_num_from(node, j + 1, flags, include_children, lines.subrange(m, lines.len() as int))
    }
}

/// The lines of the full mode for one node: a file renders one line of its
/// own; a directory renders its own line, then every file child and every
/// subdirectory in order, files first, with is-last flags counted over the
/// combined child list.
pub open spec fn renders_file(node: TreeNode, flags: Seq<bool>, lines: Seq<TreeLine>) -> bool
    decreases node, 1int, 0int,
{
    match node {
        TreeNode::File { .. } => lines.len() == 1 && line_for_file(lines[0], node, flags),
        TreeNode::Directory { .. } => lines.len() >= 1 && line_for_dir_full(lines[0], node, flags)
            && renders_file_from(node, 0, flags, lines.drop_first()),
    }
}

pub open spec fn combined_child(node: TreeNode, j: int) -> TreeNode {
    if j < node_files(node).len() {
        node_files(node)[j]
    } else {
        node_dirs(node)[j - node_files(node).len()]
    }
}

pub open spec fn renders_file_from(node: TreeNode, j: int, flags: Seq<bool>, lines: Seq<TreeLine>) -> bool
    decreases node, 0int, node_files(node).len() + node_dirs(node).len() - j,
{
    let total = node_files(node).len() + node_dirs(node).len();
    if j < 0 || j >= total {
        lines.len() == 0
    } else {
        exists|m: int|
            0 <= m <= lines.len() && renders_file(
                combined_child(node, j),
                flags.push(j == total - 1),
                #[trigger] lines.subrange(0, m),
            ) && renders_file_from(node, j + 1, flags, lines.subrange(m, lines.len() as int))
    }
}

pub open spec fn concat_lines(pieces: Seq<Seq<TreeLine>>) -> Seq<TreeLine>
    decreases pieces.len(),
{
    if pieces.len() == 0 {
        Seq::empty()
    } else {
        pieces.first() + concat_lines(pieces.drop_first())
    }
}

proof fn lemma_concat_push(pieces: Seq<Seq<TreeLine>>, x: Seq<TreeLine>)
    ensures
        concat_lines(pieces.push(x)) == concat_lines(pieces) + x,
    decreases pieces.len(),
{
    if pieces.len() == 0 {
        assert(pieces.push(x).drop_first() =~= Seq::<Seq<TreeLine>>::empty());
        assert(pieces.push(x).first() == x);
        assert(concat_lines(Seq::<Seq<TreeLine>>::empty()) == Seq::<TreeLine>::empty());
        assert(concat_lines(pieces.push(x)) == x + Seq::<TreeLine>::empty());
        assert(concat_lines(pieces) == Seq::<TreeLine>::empty());
        assert(x + Seq::<TreeLine>::empty() =~= Seq::<TreeLine>::empty() + x);
    } else {
        assert(pieces.push(x).drop_first() =~= pieces.drop_first().push(x));
        assert(pieces.push(x).first() == pieces.first());
        lemma_concat_push(pieces.drop_first(), x);
        assert(concat_lines(pieces.push(x)) == pieces.first() + concat_lines(
            pieces.drop_first().push(x),
        ));
        assert(concat_lines(pieces.push(x)) == pieces.first() + (concat_lines(pieces.drop_first())
            + x));
        assert(concat_lines(pieces) == pieces.first() + concat_lines(pieces.drop_first()));
        assert(pieces.first() + (concat_lines(pieces.drop_first()) + x) =~= (pieces.first()
            + concat_lines(pieces.drop_first())) + x);
    }
}

proof fn lemma_assemble_num(
    node: TreeNode,
    j: int,
    flags: Seq<bool>,
    include_children: bool,
    pieces: Seq<Seq<TreeLine>>,
)
    requires
        node is Directory,
        0 <= j <= node_dirs(node).len(),
        pieces.len() == node_dirs(node).len() - j,
        forall|t: int|
            0 <= t < pieces.len() ==> renders_num(
                node_dirs(node)[j + t],
                flags.push(j + t == node_dirs(node).len() - 1),
                include_children,
                #[trigger] pieces[t],
            ),
    ensures
        renders_num_from(node, j, flags, include_children, concat_lines(pieces)),
    decreases pieces.len(),
{
    if pieces.len() > 0 {
        assert forall|t: int| 0 <= t < pieces.drop_first().len() implies renders_num(
            node_dirs(node)[j + 1 + t],
            flags.push(j + 1 + t == node_dirs(node).len() - 1),
            include_children,
            #[trigger] pieces.drop_first()[t],
        ) by {
            assert(pieces.drop_first()[t] == pieces[t + 1]);
        }
        lemma_assemble_num(node, j + 1, flags, include_children, pieces.drop_first());
        let all = concat_lines(pieces);
        let m = pieces.first().len() as int;
        assert(all == pieces.first() + concat_lines(pieces.drop_first()));
        assert(all.subrange(0, m) =~= pieces.first());
        assert(all.subrange(m, all.len() as int) =~= concat_lines(pieces.drop_first()));
        assert(renders_num(
            node_dirs(node)[j],
            flags.push(j == node_dirs(node).len() - 1),
            include_children,
            all.subrange(0, m),
        )) by {
            assert(pieces[0] == pieces.first());
        }
    }
}

/// Does this line describe the tree rooted at `node`: the root itself, or
/// a directory reached through the `dirs` lists (which always has at least
/// one kept file)?
pub open spec fn line_from_tree(l: TreeLine, node: TreeNode, include_children: bool) -> bool {
    exists|d: TreeNode, f: Seq<bool>|
        #[trigger] line_for_dir_stats(l, d, f, include_children) && (d == node || (
        crate::tree::dir_in_tree(node, d) && node_total_files(d) > 0))
}

/// Law: the stats rendering lists only directories of the tree. Every
/// emitted line describes either the root or a directory reached through
/// the `dirs` lists — and every directory below the root has at least one
/// kept file — so a pruned directory, which the builder never attaches, is
/// never rendered.
pub proof fn lemma_rendered_dirs_in_tree(
    node: TreeNode,
    flags: Seq<bool>,
    include_children: bool,
    lines: Seq<TreeLine>,
)
    requires
        crate::tree::wf_node(node),
        renders_num(node, flags, include_children, lines),
    ensures
        forall|i: int|
            0 <= i < lines.len() ==> line_from_tree(#[trigger] lines[i], node, include_children),
    decreases node, 1int, 0int,
{
    match node {
        TreeNode::File { .. } => {
            assert(lines.len() == 0);
        },
        TreeNode::Directory { .. } => {
            assert(lines.len() >= 1 && line_for_dir_stats(lines[0], node, flags, include_children)
                && renders_num_from(node, 0, flags, include_children, lines.drop_first()));
            let rest = lines.drop_first();
            lemma_rendered_dirs_in_tree_from(node, 0, flags, include_children, rest);
            assert forall|i: int| 0 <= i < lines.len() implies line_from_tree(
                #[trigger] lines[i],
                node,
                include_children,
            ) by {
                if i == 0 {
                    assert(line_for_dir_stats(lines[0], node, flags, include_children));
                } else {
                    assert(lines[i] == rest[i - 1]);
                    assert(line_from_tree(rest[i - 1], node, include_children));
                }
            }
        },
    }
}

proof fn lemma_rendered_dirs_in_tree_from(
    node: TreeNode,
    j: int,
    flags: Seq<bool>,
    include_children: bool,
    lines: Seq<TreeLine>,
)
    requires
        crate::tree::wf_node(node),
        node is Directory,
        renders_num_from(node, j, flags, include_children, lines),
    ensures
        forall|i: int|
            0 <= i < lines.len() ==> line_from_tree(#[trigger] lines[i], node, include_children),
    decreases node, 0int, node_dirs(node).len() - j,
{
    if j < 0 || j >= node_dirs(node).len() {
        assert(lines.len() == 0);
    } else {
        let m = choose|m: int|
            0 <= m <= lines.len() && renders_num(
                node_dirs(node)[j],
                flags.push(j == node_dirs(node).len() - 1),
                include_children,
                #[trigger] lines.subrange(0, m),
            ) && renders_num_from(
                node,
                j + 1,
                flags,
                include_children,
                lines.subrange(m, lines.len() as int),
            );
        let child = node_dirs(node)[j];
        let cflags = flags.push(j == node_dirs(node).len() - 1);
        let head = lines.subrange(0, m);
        let tail = lines.subrange(m, lines.len() as int);
        assert(child is Directory && crate::tree::wf_node(child) && node_total_files(child) > 0);
        lemma_rendered_dirs_in_tree(child, cflags, include_children, head);
        lemma_rendered_dirs_in_tree_from(node, j + 1, flags, include_children, tail);
        assert forall|i: int| 0 <= i < lines.len() implies line_from_tree(
            #[trigger] lines[i],
            node,
            include_children,
        ) by {
            if i < m {
                assert(lines[i] == head[i]);
                assert(line_from_tree(head[i], child, include_children));
                let (d, f) = choose|d: TreeNode, f: Seq<bool>|
                    #[trigger] line_for_dir_stats(head[i], d, f, include_children) && (d == child
                        || (crate::tree::dir_in_tree(child, d) && node_total_files(d) > 0));
                assert(crate::tree::dir_in_tree(node, d)) by {
                    assert(node_dirs(node)[j] == child);
                    assert(child == d || crate::tree::dir_in_tree(child, d));
                }
                if d != child {
                    crate::tree::lemma_subdirs_nonempty(child, d);
                }
                assert(line_for_dir_stats(lines[i], d, f, include_children));
            } else {
                assert(lines[i] == tail[i - m]);
                assert(line_from_tree(tail[i - m], node, include_children));
            }
        }
    }
}

/// Render the stats-only view of a tree: one line per surviving directory,
/// depth first, carrying either the direct or the cumulative statistics.
/// The run's counters take one directory, its direct file children and its
/// direct bytes per directory visited — each kept file and byte counted
/// once; they stop at their maximum rather than overflowing.
pub fn render_tree_num(
    node: &TreeNode,
    is_last_items: &Vec<bool>,
    stats: &mut FileStats,
    include_children: bool,
    out: &mut Vec<TreeLine>,
)
    requires
        crate::tree::wf_node(*node),
    ensures
        final(out)@.len() >= old(out)@.len(),
        final(out)@.subrange(0, old(out)@.len() as int) == old(out)@,
        renders_num(
            *node,
            is_last_items@,
            include_children,
            final(out)@.subrange(old(out)@.len() as int, final(out)@.len() as int),
        ),
        final(stats).total_dirs as int == sat(
            old(stats).total_dirs + stats_dirs_count(*node),
            usize::MAX as int,
        ),
        final(stats).total_files as int == sat(
            old(stats).total_files + stats_num_files(*node),
            usize::MAX as int,
        ),
        final(stats).total_bytes as int == sat(
            old(stats).total_bytes + stats_num_bytes(*node),
            u64::MAX as int,
        ),
    decreases *node,
{
    match node {
        TreeNode::File { .. } => {
            proof {
                assert(out@.subrange(out@.len() as int, out@.len() as int) =~= Seq::<
                    TreeLine,
                >::empty());
                assert(out@.subrange(0, out@.len() as int) =~= out@);
            }
        },
        TreeNode::Directory {
            name,
            files,
            dirs,
            direct_files,
            direct_size,
            total_files,
            total_size,
            ..
        } => {
            let shown_f = if include_children {
                *total_files
            } else {
                *direct_files
            };
            let shown_s = if include_children {
                *total_size
            } else {
                *direct_size
            };
            let prefix = generate_tree_prefix(is_last_items);
            let line = TreeLine::DirStats {
                prefix,
                name: name.clone(),
                root: is_last_items.len() == 0,
                files: shown_f,
                size: shown_s,
                show: shown_f > 0,
            };
            let ghost line0 = line;
            out.push(line);
            stats.total_dirs = sat_add_usize(stats.total_dirs, 1);
            stats.total_files = sat_add_usize(stats.total_files, files.len());
            stats.total_bytes = sat_add_u64(stats.total_bytes, *direct_size);
            let ghost base = old(out)@;
            let ghost mut pieces: Seq<Seq<TreeLine>> = Seq::empty();
            let mut j: usize = 0;
            proof {
                assert(dirs@.subrange(0, 0) =~= Seq::<TreeNode>::empty());
                assert(out@ =~= base + seq![line0] + concat_lines(pieces));
            }
            while j < dirs.len()
                invariant
                    j <= dirs@.len(),
                    crate::tree::wf_node(*node),
                    node_dirs(*node) == dirs@,
                    line_for_dir_stats(line0, *node, is_last_items@, include_children),
                    stats_dirs_count(*node) == 1 + stats_dirs_count_seq(dirs@),
                    stats_num_files(*node) == node_files(*node).len() + stats_num_files_seq(dirs@),
                    stats_num_bytes(*node) == node_direct_size(*node) + stats_num_bytes_seq(dirs@),
                    out@ == base + seq![line0] + concat_lines(pieces),
                    pieces.len() == j,
                    forall|t: int|
                        0 <= t < j ==> renders_num(
                            dirs@[t],
                            is_last_items@.push(t == dirs@.len() - 1),
                            include_children,
                            #[trigger] pieces[t],
                        ),
                    stats.total_dirs as int == sat(
                        old(stats).total_dirs + 1 + stats_dirs_count_seq(
                            dirs@.subrange(0, j as int),
                        ),
                        usize::MAX as int,
                    ),
                    stats.total_files as int == sat(
                        old(stats).total_files + node_files(*node).len() + stats_num_files_seq(
                            dirs@.subrange(0, j as int),
                        ),
                        usize::MAX as int,
                    ),
                    stats.total_bytes as int == sat(
                        old(stats).total_bytes + node_direct_size(*node) + stats_num_bytes_seq(
                            dirs@.subrange(0, j as int),
                        ),
                        u64::MAX as int,
                    ),
                decreases dirs@.len() - j,
            {
                let fl = push_flag(is_last_items, j == dirs.len() - 1);
                let ghost out_snap = out@;
                let ghost stats_snap = *stats;
                let ghost pre = dirs@.subrange(0, j as int);
                let ghost post = dirs@.subrange(0, j + 1 as int);
                render_tree_num(&dirs[j], &fl, stats, include_children, out);
                proof {
                    let piece = out@.subrange(out_snap.len() as int, out@.len() as int);
                    assert(out@.subrange(0, out_snap.len() as int) == out_snap);
                    lemma_concat_push(pieces, piece);
                    assert(out@ =~= out_snap + piece);
                    assert(out@ =~= base + seq![line0] + concat_lines(pieces.push(piece)));
                    pieces = pieces.push(piece);
                    assert(post.drop_last() =~= pre);
                    assert(post.last() == dirs@[j as int]);
                    lemma_stats_nonneg(dirs@[j as int]);
                    lemma_stats_seq_nonneg(pre);
                }
                j = j + 1;
            }
            proof {
                assert(dirs@.subrange(0, j as int) =~= dirs@);
                lemma_assemble_num(*node, 0, is_last_items@, include_children, pieces);
                let emitted = out@.subrange(base.len() as int, out@.len() as int);
                assert(emitted =~= seq![line0] + concat_lines(pieces));
                assert(emitted[0] == line0);
                assert(emitted.drop_first() =~= concat_lines(pieces));
                assert(out@.subrange(0, base.len() as int) =~= base);
            }
        },
    }
}

proof fn lemma_assemble_file(node: TreeNode, j: int, flags: Seq<bool>, pieces: Seq<Seq<TreeLine>>)
    requires
        node is Directory,
        0 <= j <= node_files(node).len() + node_dirs(node).len(),
        pieces.len() == node_files(node).len() + node_dirs(node).len() - j,
        forall|t: int|
            0 <= t < pieces.len() ==> renders_file(
                combined_child(node, j + t),
                flags.push(j + t == node_files(node).len() + node_dirs(node).len() - 1),
                #[trigger] pieces[t],
            ),
    ensures
        renders_file_from(node, j, flags, concat_lines(pieces)),
    decreases pieces.len(),
{
    if pieces.len() > 0 {
        assert forall|t: int| 0 <= t < pieces.drop_first().len() implies renders_file(
            combined_child(node, j + 1 + t),
            flags.push(j + 1 + t == node_files(node).len() + node_dirs(node).len() - 1),
            #[trigger] pieces.drop_first()[t],
        ) by {
            assert(pieces.drop_first()[t] == pieces[t + 1]);
        }
        lemma_assemble_file(node, j + 1, flags, pieces.drop_first());
        let all = concat_lines(pieces);
        let m = pieces.first().len() as int;
        assert(all == pieces.first() + concat_lines(pieces.drop_first()));
        assert(all.subrange(0, m) =~= pieces.first());
        assert(all.subrange(m, all.len() as int) =~= concat_lines(pieces.drop_first()));
        assert(renders_file(
            combined_child(node, j),
            flags.push(j == node_files(node).len() + node_dirs(node).len() - 1),
            all.subrange(0, m),
        )) by {
            assert(pieces[0] == pieces.first());
        }
    }
}

proof fn lemma_file_seq_no_dirs(files: Seq<TreeNode>)
    requires
        forall|t: int| 0 <= t < files.len() ==> (#[trigger] files[t]) is File,
    ensures
        stats_dirs_count_seq(files) == 0,
        stats_num_files_seq(files) == 0,
        stats_num_bytes_seq(files) == 0,
        stats_full_files_seq(files) == files.len(),
        stats_full_bytes_seq(files) == crate::tree::sum_file_sizes(files),
    decreases files.len(),
{
    if files.len() > 0 {
        assert(files[files.len() - 1] is File);
        assert(files.last() == files[files.len() - 1]);
        assert(stats_dirs_count(files.last()) == 0);
        assert(stats_num_files(files.last()) == 0);
        assert(stats_num_bytes(files.last()) == 0);
        assert(stats_full_files(files.last()) == 1);
        assert(stats_full_bytes(files.last()) == node_file_size(files.last()));
        assert(forall|t: int|
            0 <= t < files.drop_last().len() ==> (#[trigger] files.drop_last()[t]) == files[t]);
        lemma_file_seq_no_dirs(files.drop_last());
    }
}

/// Law: over a well-formed tree, both rendering passes count every kept
/// file and every kept byte exactly once: the run's counters grow by the
/// root's cumulative totals, and by one directory per surviving directory.
pub proof fn lemma_render_counts_once(node: TreeNode)
    requires
        crate::tree::wf_node(node),
        node is Directory,
    ensures
        stats_num_files(node) == node_total_files(node),
        stats_num_bytes(node) == node_total_size(node),
        stats_full_files(node) == node_total_files(node),
        stats_full_bytes(node) == node_total_size(node),
    decreases node, 1int,
{
    match node {
        TreeNode::File { .. } => (),
        TreeNode::Directory { files, dirs, .. } => {
            lemma_file_seq_no_dirs(files@);
            lemma_render_counts_once_seq(dirs@);
        },
    }
}

proof fn lemma_render_counts_once_seq(dirs: Seq<TreeNode>)
    requires
        forall|t: int|
            0 <= t < dirs.len() ==> (#[trigger] dirs[t]) is Directory && crate::tree::wf_node(
                dirs[t],
            ),
    ensures
        stats_num_files_seq(dirs) == crate::tree::sum_total_files(dirs),
        stats_num_bytes_seq(dirs) == crate::tree::sum_total_sizes(dirs),
        stats_full_files_seq(dirs) == crate::tree::sum_total_files(dirs),
        stats_full_bytes_seq(dirs) == crate::tree::sum_total_sizes(dirs),
    decreases dirs, 0int,
{
    if dirs.len() > 0 {
        assert(dirs[dirs.len() - 1] is Directory && crate::tree::wf_node(dirs[dirs.len() - 1]));
        assert(dirs.last() == dirs[dirs.len() - 1]);
        lemma_render_counts_once(dirs.last());
        assert(forall|t: int|
            0 <= t < dirs.drop_last().len() ==> (#[trigger] dirs.drop_last()[t]) == dirs[t]);
        lemma_render_counts_once_seq(dirs.drop_last());
    }
}

/// Render the full view of a tree: every surviving directory and file as
/// its own line, files listed before subdirectories at each level, the
/// is-last flags counted over the combined child list. The run's counters
/// take one directory per directory line and one file with its size per
/// file line — each kept file and byte counted once; they stop at their
/// maximum rather than overflowing.
pub fn render_tree_file(
    node: &TreeNode,
    is_last_items: &Vec<bool>,
    stats: &mut FileStats,
    out: &mut Vec<TreeLine>,
)
    requires
        crate::tree::wf_node(*node),
    ensures
        final(out)@.len() >= old(out)@.len(),
        final(out)@.subrange(0, old(out)@.len() as int) == old(out)@,
        renders_file(
            *node,
            is_last_items@,
            final(out)@.subrange(old(out)@.len() as int, final(out)@.len() as int),
        ),
        final(stats).total_dirs as int == sat(
            old(stats).total_dirs + stats_dirs_count(*node),
            usize::MAX as int,
        ),
        final(stats).total_files as int == sat(
            old(stats).total_files + stats_full_files(*node),
            usize::MAX as int,
        ),
        final(stats).total_bytes as int == sat(
            old(stats).total_bytes + stats_full_bytes(*node),
            u64::MAX as int,
        ),
    decreases *node,
{
    match node {
        TreeNode::File { name, size, .. } => {
            let prefix = generate_tree_prefix(is_last_items);
            let exe = crate::list_files::name_is_exe(name.as_str());
            let line = TreeLine::FileFull { prefix, name: name.clone(), size: *size, exe };
            let ghost line0 = line;
            let ghost base = old(out)@;
            out.push(line);
            stats.total_files = sat_add_usize(stats.total_files, 1);
            stats.total_bytes = sat_add_u64(stats.total_bytes, *size);
            proof {
                let emitted = out@.subrange(base.len() as int, out@.len() as int);
                assert(emitted =~= seq![line0]);
                assert(out@.subrange(0, base.len() as int) =~= base);
            }
        },
        TreeNode::Directory { name, files, dirs, total_size, .. } => {
            let prefix = generate_tree_prefix(is_last_items);
            let line = TreeLine::DirFull {
                prefix,
                name: name.clone(),
                root: is_last_items.len() == 0,
                size: *total_size,
            };
            let ghost line0 = line;
            let ghost base = old(out)@;
            out.push(line);
            stats.total_dirs = sat_add_usize(stats.total_dirs, 1);
            let ghost total: int = files@.len() as int + dirs@.len() as int;
            let ghost mut pieces: Seq<Seq<TreeLine>> = Seq::empty();
            let mut j: usize = 0;
            proof {
                assert(files@.subrange(0, 0) =~= Seq::<TreeNode>::empty());
                assert(out@ =~= base + seq![line0] + concat_lines(pieces));
            }
            while j < files.len()
                invariant
                    j <= files@.len(),
                    crate::tree::wf_node(*node),
                    node_files(*node) == files@,
                    node_dirs(*node) == dirs@,
                    total == files@.len() + dirs@.len(),
                    line_for_dir_full(line0, *node, is_last_items@),
                    out@ == base + seq![line0] + concat_lines(pieces),
                    pieces.len() == j,
                    forall|t: int|
                        0 <= t < j ==> renders_file(
                            combined_child(*node, t),
                            is_last_items@.push(t == total - 1),
                            #[trigger] pieces[t],
                        ),
                    stats.total_dirs as int == sat(
                        old(stats).total_dirs + 1 + stats_dirs_count_seq(
                            files@.subrange(0, j as int),
                        ),
                        usize::MAX as int,
                    ),
                    stats.total_files as int == sat(
                        old(stats).total_files + stats_full_files_seq(
                            files@.subrange(0, j as int),
                        ),
                        usize::MAX as int,
                    ),
                    stats.total_bytes as int == sat(
                        old(stats).total_bytes + stats_full_bytes_seq(
                            files@.subrange(0, j as int),
                        ),
                        u64::MAX as int,
                    ),
                decreases files@.len() - j,
            {
                let flag = dirs.len() == 0 && j == files.len() - 1;
                proof {
                    assert(flag == (j as int == total - 1));
                }
                let fl = push_flag(is_last_items, flag);
                let ghost out_snap = out@;
                let ghost pre = files@.subrange(0, j as int);
                let ghost post = files@.subrange(0, j + 1 as int);
                render_tree_file(&files[j], &fl, stats, out);
                proof {
                    let piece = out@.subrange(out_snap.len() as int, out@.len() as int);
                    assert(out@.subrange(0, out_snap.len() as int) == out_snap);
                    lemma_concat_push(pieces, piece);
                    assert(out@ =~= out_snap + piece);
                    assert(out@ =~= base + seq![line0] + concat_lines(pieces.push(piece)));
                    pieces = pieces.push(piece);
                    assert(post.drop_last() =~= pre);
                    assert(post.last() == files@[j as int]);
                    assert(combined_child(*node, j as int) == files@[j as int]);
                    lemma_stats_nonneg(files@[j as int]);
                    lemma_stats_seq_nonneg(pre);
                }
                j = j + 1;
            }
            proof {
                assert(files@.subrange(0, j as int) =~= files@);
                assert(dirs@.subrange(0, 0) =~= Seq::<TreeNode>::empty());
            }
            let mut k: usize = 0;
            while k < dirs.len()
                invariant
                    k <= dirs@.len(),
                    j == files@.len(),
                    crate::tree::wf_node(*node),
                    node_files(*node) == files@,
                    node_dirs(*node) == dirs@,
                    total == files@.len() + dirs@.len(),
                    line_for_dir_full(line0, *node, is_last_items@),
                    out@ == base + seq![line0] + concat_lines(pieces),
                    pieces.len() == files@.len() + k,
                    forall|t: int|
                        0 <= t < pieces.len() ==> renders_file(
                            combined_child(*node, t),
                            is_last_items@.push(t == total - 1),
                            #[trigger] pieces[t],
                        ),
                    stats.total_dirs as int == sat(
                        old(stats).total_dirs + 1 + stats_dirs_count_seq(files@)
                            + stats_dirs_count_seq(dirs@.subrange(0, k as int)),
                        usize::MAX as int,
                    ),
                    stats.total_files as int == sat(
                        old(stats).total_files + stats_full_files_seq(files@)
                            + stats_full_files_seq(dirs@.subrange(0, k as int)),
                        usize::MAX as int,
                    ),
                    stats.total_bytes as int == sat(
                        old(stats).total_bytes + stats_full_bytes_seq(files@)
                            + stats_full_bytes_seq(dirs@.subrange(0, k as int)),
                        u64::MAX as int,
                    ),
                decreases dirs@.len() - k,
            {
                let flag = k == dirs.len() - 1;
                proof {
                    assert(flag == (files@.len() + k == total - 1));
                }
                let fl = push_flag(is_last_items, flag);
                let ghost out_snap = out@;
                let ghost pre = dirs@.subrange(0, k as int);
                let ghost post = dirs@.subrange(0, k + 1 as int);
                render_tree_file(&dirs[k], &fl, stats, out);
                proof {
                    let piece = out@.subrange(out_snap.len() as int, out@.len() as int);
                    assert(out@.subrange(0, out_snap.len() as int) == out_snap);
                    lemma_concat_push(pieces, piece);
                    assert(out@ =~= out_snap + piece);
                    assert(out@ =~= base + seq![line0] + concat_lines(pieces.push(piece)));
                    pieces = pieces.push(piece);
                    assert(post.drop_last() =~= pre);
                    assert(post.last() == dirs@[k as int]);
                    assert(combined_child(*node, files@.len() + k) == dirs@[k as int]);
                    lemma_stats_nonneg(dirs@[k as int]);
                    lemma_stats_seq_nonneg(pre);
                }
                k = k + 1;
            }
            proof {
                assert(dirs@.subrange(0, k as int) =~= dirs@);
                lemma_file_seq_no_dirs(files@);
                lemma_assemble_file(*node, 0, is_last_items@, pieces);
                let emitted = out@.subrange(base.len() as int, out@.len() as int);
                assert(emitted =~= seq![line0] + concat_lines(pieces));
                assert(emitted[0] == line0);
                assert(emitted.drop_first() =~= concat_lines(pieces));
                assert(out@.subrange(0, base.len() as int) =~= base);
            }
        },
    }
}

} // verus!
