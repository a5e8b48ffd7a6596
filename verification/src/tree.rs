use vstd::prelude::*;

use crate::text::{chars_to_string, lemma_seq_le_connected, lemma_seq_le_trans, seq_le, str_le,
    str_to_chars};

verus! {

// ---------------------------------------------------------------------------
// The tree that a census run produces
// ---------------------------------------------------------------------------

/// One node of the census tree: a kept file, or a directory together with
/// its kept children and its statistics.
///
/// In a `Directory`, `files` and `dirs` hold only kept children, each sorted
/// by name. `direct_files` and `direct_size` count the immediate file
/// children only; `total_files` and `total_size` add every retained
/// descendant directory's totals, recursively.
pub enum TreeNode {
    File { name: String, path: String, size: u64 },
    Directory {
        name: String,
        path: String,
        files: Vec<TreeNode>,
        dirs: Vec<TreeNode>,
        direct_files: usize,
        direct_size: u64,
        total_files: usize,
        total_size: u64,
    },
}

pub open spec fn node_name(n: TreeNode) -> Seq<char> {
    match n {
        TreeNode::File { name, .. } => name@,
        TreeNode::Directory { name, .. } => name@,
    }
}

pub open spec fn node_path(n: TreeNode) -> Seq<char> {
    match n {
        TreeNode::File { path, .. } => path@,
        TreeNode::Directory { path, .. } => path@,
    }
}

pub open spec fn node_file_size(n: TreeNode) -> u64 {
    match n {
        TreeNode::File { size, .. } => size,
        TreeNode::Directory { .. } => 0,
    }
}

pub open spec fn node_files(n: TreeNode) -> Seq<TreeNode> {
    match n {
        TreeNode::File { .. } => Seq::empty(),
        TreeNode::Directory { files, .. } => files@,
    }
}

pub open spec fn node_dirs(n: TreeNode) -> Seq<TreeNode> {
    match n {
        TreeNode::File { .. } => Seq::empty(),
        TreeNode::Directory { dirs, .. } => dirs@,
    }
}

pub open spec fn node_direct_files(n: TreeNode) -> usize {
    match n {
        TreeNode::File { .. } => 0,
        TreeNode::Directory { direct_files, .. } => direct_files,
    }
}

pub open spec fn node_direct_size(n: TreeNode) -> u64 {
    match n {
        TreeNode::File { .. } => 0,
        TreeNode::Directory { direct_size, .. } => direct_size,
    }
}

pub open spec fn node_total_files(n: TreeNode) -> usize {
    match n {
        TreeNode::File { .. } => 0,
        TreeNode::Directory { total_files, .. } => total_files,
    }
}

pub open spec fn node_total_size(n: TreeNode) -> u64 {
    match n {
        TreeNode::File { .. } => 0,
        TreeNode::Directory { total_size, .. } => total_size,
    }
}

/// Order on nodes: by name, ascending.
pub open spec fn node_le(a: TreeNode, b: TreeNode) -> bool {
    seq_le(node_name(a), node_name(b))
}

/// A node list sorted by name, ascending.
pub open spec fn sorted_nodes(s: Seq<TreeNode>) -> bool {
    forall|i: int, j: int| 0 <= i < j < s.len() ==> node_le(#[trigger] s[i], #[trigger] s[j])
}

// ---------------------------------------------------------------------------
// Sums over children
// ---------------------------------------------------------------------------

pub open spec fn sum_file_sizes(files: Seq<TreeNode>) -> int
    decreases files.len(),
{
    if files.len() == 0 {
        0
    } else {
        sum_file_sizes(files.drop_last()) + node_file_size(files.last())
    }
}

pub open spec fn sum_total_files(dirs: Seq<TreeNode>) -> int
    decreases dirs.len(),
{
    if dirs.len() == 0 {
        0
    } else {
        sum_total_files(dirs.drop_last()) + node_total_files(dirs.last())
    }
}

pub open spec fn sum_total_sizes(dirs: Seq<TreeNode>) -> int
    decreases dirs.len(),
{
    if dirs.len() == 0 {
        0
    } else {
        sum_total_sizes(dirs.drop_last()) + node_total_size(dirs.last())
    }
}

// ---------------------------------------------------------------------------
// Well-formedness
// ---------------------------------------------------------------------------

/// A well-formed census tree:
/// - `files` holds only file nodes and `dirs` only directory nodes, each
///   list sorted by name ascending;
/// - every directory in a `dirs` list has `total_files > 0` (a directory
///   with no kept file anywhere in its subtree is pruned, never attached);
/// - `direct_files`/`direct_size` count exactly the immediate file children;
/// - `total_files = direct_files + sum of the children's total_files`, and
///   the same for sizes.
pub open spec fn wf_node(n: TreeNode) -> bool
    decreases n,
{
    match n {
        TreeNode::File { .. } => true,
        TreeNode::Directory {
            files,
            dirs,
            direct_files,
            direct_size,
            total_files,
            total_size,
            ..
        } => {
            &&& forall|i: int| 0 <= i < files@.len() ==> (#[trigger] files@[i]) is File
            &&& forall|i: int|
                0 <= i < dirs@.len() ==> (#[trigger] dirs@[i]) is Directory && wf_node(dirs@[i])
                    && node_total_files(dirs@[i]) > 0
            &&& sorted_nodes(files@)
            &&& sorted_nodes(dirs@)
            &&& direct_files as int == files@.len()
            &&& direct_size as int == sum_file_sizes(files@)
            &&& total_files as int == direct_files as int + sum_total_files(dirs@)
            &&& total_size as int == direct_size as int + sum_total_sizes(dirs@)
        },
    }
}

/// Is `d` a directory node somewhere below `n` (reached through `dirs`
/// lists only)?
pub open spec fn dir_in_tree(n: TreeNode, d: TreeNode) -> bool
    decreases n,
{
    exists|i: int|
        0 <= i < node_dirs(n).len() && ((#[trigger] node_dirs(n)[i]) == d || dir_in_tree(
            node_dirs(n)[i],
            d,
        ))
}

/// Law: in a well-formed tree, every directory below the root is itself
/// well-formed and has at least one kept file in its subtree. A directory
/// whose subtree kept no file never appears in any `dirs` list.
pub proof fn lemma_subdirs_nonempty(n: TreeNode, d: TreeNode)
    requires
        wf_node(n),
        dir_in_tree(n, d),
    ensures
        d is Directory,
        wf_node(d),
        node_total_files(d) > 0,
    decreases n,
{
    let i = choose|i: int|
        0 <= i < node_dirs(n).len() && ((#[trigger] node_dirs(n)[i]) == d || dir_in_tree(
            node_dirs(n)[i],
            d,
        ));
    if node_dirs(n)[i] != d {
        lemma_subdirs_nonempty(node_dirs(n)[i], d);
    }
}

/// Law: in a well-formed tree, the root and every directory below it
/// satisfy `total_files = direct_files + sum of children's total_files`,
/// and the same relation for sizes.
pub proof fn lemma_tree_totals(n: TreeNode, d: TreeNode)
    requires
        wf_node(n),
        d == n || dir_in_tree(n, d),
    ensures
        node_total_files(d) as int == node_direct_files(d) as int + sum_total_files(node_dirs(d)),
        node_total_size(d) as int == node_direct_size(d) as int + sum_total_sizes(node_dirs(d)),
{
    if d != n {
        lemma_subdirs_nonempty(n, d);
    }
}

// ---------------------------------------------------------------------------
// Deriving a node's name from its path
// ---------------------------------------------------------------------------

pub open spec fn strip_trailing_slashes(p: Seq<char>) -> Seq<char>
    decreases p.len(),
{
    if p.len() > 0 && p.last() == '/' {
        strip_trailing_slashes(p.drop_last())
    } else {
        p
    }
}

pub open spec fn after_last_slash(p: Seq<char>) -> Seq<char>
    decreases p.len(),
{
    if p.len() == 0 {
        p
    } else if p.last() == '/' {
        Seq::empty()
    } else {
        after_last_slash(p.drop_last()).push(p.last())
    }
}

/// The displayed name of an entry at a path: the last path component
/// (trailing separators ignored), or the whole path where no component can
/// be split off or the path ends in the parent-directory marker.
pub open spec fn name_of_path(p: Seq<char>) -> Seq<char> {
    let t = strip_trailing_slashes(p);
    let n = after_last_slash(t);
    if n.len() == 0 || n == seq!['.', '.'] {
        p
    } else {
        n
    }
}

pub proof fn lemma_after_last_slash_at(t: Seq<char>, j: int)
    requires
        0 <= j <= t.len(),
        forall|k: int| j <= k < t.len() ==> t[k] != '/',
        j > 0 ==> t[j - 1] == '/',
    ensures
        after_last_slash(t) == t.skip(j),
    decreases t.len(),
{
    if t.len() == 0 {
        assert(t.skip(j) =~= t);
    } else if t.last() == '/' {
        assert(j == t.len());
        assert(t.skip(j) =~= Seq::<char>::empty());
    } else {
        assert(j < t.len());
        lemma_after_last_slash_at(t.drop_last(), j);
        assert(after_last_slash(t) =~= t.skip(j));
    }
}

/// Compute the displayed name for a path.
pub fn name_of_path_exec(path: &str) -> (r: String)
    ensures
        r@ == name_of_path(path@),
{
    let mut t = str_to_chars(path);
    while t.len() > 0 && t[t.len() - 1] == '/'
        invariant
            strip_trailing_slashes(t@) == strip_trailing_slashes(path@),
        decreases t@.len(),
    {
        proof {
            assert(t@.drop_last() =~= t@.subrange(0, t@.len() - 1));
        }
        t.pop();
    }
    let mut j: usize = t.len();
    while j > 0 && t[j - 1] != '/'
        invariant
            j <= t@.len(),
            forall|k: int| j <= k < t@.len() ==> t@[k] != '/',
        decreases j,
    {
        j = j - 1;
    }
    proof {
        lemma_after_last_slash_at(t@, j as int);
    }
    if t.len() == 0 || j == t.len() {
        proof {
            assert(after_last_slash(t@).len() == 0);
        }
        return path.to_owned();
    }
    if t.len() - j == 2 && t[j] == '.' && t[j + 1] == '.' {
        proof {
            assert(after_last_slash(t@) =~= seq!['.', '.']);
        }
        return path.to_owned();
    }
    proof {
        let n = after_last_slash(t@);
        if n.len() == 2 {
            assert(n[0] == t@[j as int] && n[1] == t@[j + 1]);
            assert(n != seq!['.', '.']);
        } else {
            assert(n != seq!['.', '.']);
        }
    }
    let mut name_chars: Vec<char> = Vec::new();
    let mut k = j;
    while k < t.len()
        invariant
            j <= k <= t@.len(),
            name_chars@ =~= t@.subrange(j as int, k as int),
        decreases t@.len() - k,
    {
        name_chars.push(t[k]);
        k = k + 1;
    }
    proof {
        assert(name_chars@ =~= t@.skip(j as int));
        assert(after_last_slash(t@).len() > 0);
    }
    chars_to_string(&name_chars)
}

/// The name of a node, for reading and comparing.
pub fn node_name_ref(n: &TreeNode) -> (r: &String)
    ensures
        r@ == node_name(*n),
{
    match n {
        TreeNode::File { name, .. } => name,
        TreeNode::Directory { name, .. } => name,
    }
}

/// The cumulative statistics of a node (zero for a file leaf).
pub fn node_totals(n: &TreeNode) -> (r: (usize, u64))
    ensures
        r.0 == node_total_files(*n),
        r.1 == node_total_size(*n),
{
    match n {
        TreeNode::Directory { total_files, total_size, .. } => (*total_files, *total_size),
        TreeNode::File { .. } => (0, 0),
    }
}

// ---------------------------------------------------------------------------
// Pairs and names of node lists, and how the sums behave under insertion
// ---------------------------------------------------------------------------

pub open spec fn node_file_pair(n: TreeNode) -> (String, u64) {
    match n {
        TreeNode::File { name, size, .. } => (name, size),
        TreeNode::Directory { name, .. } => (name, 0),
    }
}

/// The (name, size) pairs of a node list, in order.
pub open spec fn file_pairs_of(nodes: Seq<TreeNode>) -> Seq<(String, u64)>
    decreases nodes.len(),
{
    if nodes.len() == 0 {
        Seq::empty()
    } else {
        file_pairs_of(nodes.drop_last()).push(node_file_pair(nodes.last()))
    }
}

/// The names of a node list, in order.
pub open spec fn names_of(nodes: Seq<TreeNode>) -> Seq<Seq<char>>
    decreases nodes.len(),
{
    if nodes.len() == 0 {
        Seq::empty()
    } else {
        names_of(nodes.drop_last()).push(node_name(nodes.last()))
    }
}

pub proof fn lemma_sum_file_sizes_nonneg(s: Seq<TreeNode>)
    ensures
        sum_file_sizes(s) >= 0,
    decreases s.len(),
{
    if s.len() > 0 {
        lemma_sum_file_sizes_nonneg(s.drop_last());
    }
}

pub proof fn lemma_sum_file_sizes_insert(s: Seq<TreeNode>, p: int, x: TreeNode)
    requires
        0 <= p <= s.len(),
    ensures
        sum_file_sizes(s.insert(p, x)) == sum_file_sizes(s) + node_file_size(x),
    decreases s.len(),
{
    if p == s.len() {
        assert(s.insert(p, x).drop_last() =~= s);
        assert(s.insert(p, x).last() == x);
    } else {
        assert(s.insert(p, x).drop_last() =~= s.drop_last().insert(p, x));
        assert(s.insert(p, x).last() == s.last());
        lemma_sum_file_sizes_insert(s.drop_last(), p, x);
    }
}

pub proof fn lemma_sum_totals_insert(s: Seq<TreeNode>, p: int, x: TreeNode)
    requires
        0 <= p <= s.len(),
    ensures
        sum_total_files(s.insert(p, x)) == sum_total_files(s) + node_total_files(x),
        sum_total_sizes(s.insert(p, x)) == sum_total_sizes(s) + node_total_size(x),
    decreases s.len(),
{
    if p == s.len() {
        assert(s.insert(p, x).drop_last() =~= s);
        assert(s.insert(p, x).last() == x);
    } else {
        assert(s.insert(p, x).drop_last() =~= s.drop_last().insert(p, x));
        assert(s.insert(p, x).last() == s.last());
        lemma_sum_totals_insert(s.drop_last(), p, x);
    }
}

pub proof fn lemma_file_pairs_len(s: Seq<TreeNode>)
    ensures
        file_pairs_of(s).len() == s.len(),
    decreases s.len(),
{
    if s.len() > 0 {
        lemma_file_pairs_len(s.drop_last());
    }
}

pub proof fn lemma_names_len(s: Seq<TreeNode>)
    ensures
        names_of(s).len() == s.len(),
    decreases s.len(),
{
    if s.len() > 0 {
        lemma_names_len(s.drop_last());
    }
}

pub proof fn lemma_file_pairs_insert(s: Seq<TreeNode>, p: int, x: TreeNode)
    requires
        0 <= p <= s.len(),
    ensures
        file_pairs_of(s.insert(p, x)) == file_pairs_of(s).insert(p, node_file_pair(x)),
    decreases s.len(),
{
    lemma_file_pairs_len(s);
    if p == s.len() {
        assert(s.insert(p, x).drop_last() =~= s);
        assert(s.insert(p, x).last() == x);
        assert(file_pairs_of(s).insert(p, node_file_pair(x)) =~= file_pairs_of(s).push(
            node_file_pair(x),
        ));
        assert(file_pairs_of(s.insert(p, x)) =~= file_pairs_of(s).insert(p, node_file_pair(x)));
    } else {
        assert(s.insert(p, x).drop_last() =~= s.drop_last().insert(p, x));
        assert(s.insert(p, x).last() == s.last());
        lemma_file_pairs_insert(s.drop_last(), p, x);
        lemma_file_pairs_len(s.drop_last());
        lemma_file_pairs_len(s.insert(p, x));
        assert(file_pairs_of(s.insert(p, x)) =~= file_pairs_of(s).insert(p, node_file_pair(x)));
    }
}

pub proof fn lemma_names_insert(s: Seq<TreeNode>, p: int, x: TreeNode)
    requires
        0 <= p <= s.len(),
    ensures
        names_of(s.insert(p, x)) == names_of(s).insert(p, node_name(x)),
    decreases s.len(),
{
    lemma_names_len(s);
    if p == s.len() {
        assert(s.insert(p, x).drop_last() =~= s);
        assert(s.insert(p, x).last() == x);
        assert(names_of(s).insert(p, node_name(x)) =~= names_of(s).push(node_name(x)));
        assert(names_of(s.insert(p, x)) =~= names_of(s).insert(p, node_name(x)));
    } else {
        assert(s.insert(p, x).drop_last() =~= s.drop_last().insert(p, x));
        assert(s.insert(p, x).last() == s.last());
        lemma_names_insert(s.drop_last(), p, x);
        lemma_names_len(s.drop_last());
        lemma_names_len(s.insert(p, x));
        assert(names_of(s.insert(p, x)) =~= names_of(s).insert(p, node_name(x)));
    }
}

/// Insert a node into a list kept sorted by name; equal names go after
/// their equals, so insertion order is preserved among them.
pub fn insert_node_sorted(v: &mut Vec<TreeNode>, node: TreeNode) -> (p: Ghost<int>)
    requires
        sorted_nodes(old(v)@),
    ensures
        sorted_nodes(final(v)@),
        0 <= p@ <= old(v)@.len(),
        final(v)@ == old(v)@.insert(p@, node),
{
    let ghost nname = node_name(node);
    let mut p: usize = 0;
    loop
        invariant
            p <= v@.len(),
            v@ == old(v)@,
            sorted_nodes(v@),
            forall|k: int| 0 <= k < p ==> seq_le(node_name(#[trigger] v@[k]), nname),
            nname == node_name(node),
        ensures
            p <= v@.len(),
            v@ == old(v)@,
            forall|k: int| 0 <= k < p ==> seq_le(node_name(#[trigger] v@[k]), nname),
            p == v@.len() || !seq_le(node_name(v@[p as int]), nname),
        decreases v@.len() - p,
    {
        if p == v.len() {
            break;
        }
        let le = {
            let a = node_name_ref(&v[p]);
            let b = node_name_ref(&node);
            str_le(a.as_str(), b.as_str())
        };
        if !le {
            break;
        }
        p = p + 1;
    }
    let ghost s = v@;
    v.insert(p, node);
    proof {
        let t = s.insert(p as int, node);
        s.insert_ensures(p as int, node);
        assert forall|i: int, j: int| 0 <= i < j < t.len() implies node_le(t[i], t[j]) by {
            if j < p {
                assert(t[i] == s[i] && t[j] == s[j]);
            } else if j == p {
                assert(t[i] == s[i]);
                assert(seq_le(node_name(s[i]), nname));
            } else if i == p {
                // t[i] is the new node, t[j] == s[j - 1] with j - 1 >= p
                lemma_seq_le_connected(node_name(s[p as int]), nname);
                assert(seq_le(nname, node_name(s[p as int])));
                if j - 1 > p {
                    assert(node_le(s[p as int], s[j - 1]));
                    lemma_seq_le_trans(nname, node_name(s[p as int]), node_name(s[j - 1]));
                }
            } else if i < p {
                // t[j] == s[j - 1] with j - 1 >= p > i
                assert(t[i] == s[i] && t[j] == s[j - 1]);
                if j - 1 == p {
                    assert(node_le(s[i], s[p as int]));
                } else {
                    assert(node_le(s[i], s[j - 1]));
                }
            } else {
                assert(t[i] == s[i - 1] && t[j] == s[j - 1]);
                assert(node_le(s[i - 1], s[j - 1]));
            }
        }
    }
    Ghost(p as int)
}

impl TreeNode {
    /// A leaf for one kept file.
    pub fn new_file(path: String, size: u64) -> (r: TreeNode)
        ensures
            r is File,
            node_name(r) == name_of_path(path@),
            node_path(r) == path@,
            node_file_size(r) == size,
    {
        let name = name_of_path_exec(path.as_str());
        TreeNode::File { name, path, size }
    }

    /// An empty directory node; children and statistics are attached by the
    /// tree builder.
    pub fn new_directory(path: String) -> (r: TreeNode)
        ensures
            r is Directory,
            node_name(r) == name_of_path(path@),
            node_path(r) == path@,
            node_files(r).len() == 0,
            node_dirs(r).len() == 0,
            node_direct_files(r) == 0,
            node_direct_size(r) == 0,
            node_total_files(r) == 0,
            node_total_size(r) == 0,
    {
        let name = name_of_path_exec(path.as_str());
        TreeNode::Directory {
            name,
            path,
            files: Vec::new(),
            dirs: Vec::new(),
            direct_files: 0,
            direct_size: 0,
            total_files: 0,
            total_size: 0,
        }
    }
}

} // verus!
