use vstd::prelude::*;

use crate::glob::{glob_matches, glob_within};
use crate::text::{str_concat, str_eq, str_to_chars};
use crate::tree::{after_last_slash, file_pairs_of, insert_node_sorted, lemma_file_pairs_insert,
    lemma_names_insert, lemma_sum_file_sizes_insert, lemma_sum_totals_insert, name_of_path,
    name_of_path_exec, names_of, node_dirs, node_direct_files, node_direct_size, node_file_pair,
    node_files, node_name, node_path, node_total_files, node_total_size, node_totals,
    sorted_nodes, strip_trailing_slashes, sum_file_sizes, sum_total_files, sum_total_sizes,
    wf_node, TreeNode};

verus! {

broadcast use vstd::seq_lib::group_to_multiset_ensures, vstd::seq_lib::to_multiset_insert, vstd::seq_lib::lemma_multiset_commutative, vstd::multiset::group_multiset_axioms;

// ---------------------------------------------------------------------------
// The raw input: one directory listing, as plain values
// ---------------------------------------------------------------------------

/// A directory entry as the filesystem reports it, before any filtering:
/// a file with its size, or a directory with its own entries. The caller
/// reads the filesystem and hands the tree builder one of these per entry;
/// an entry whose metadata could not be read is simply left out (it would
/// be rejected anyway).
pub enum FsEntry {
    File { name: String, size: u64 },
    Dir { name: String, entries: Vec<FsEntry> },
}

pub open spec fn entry_name(e: FsEntry) -> Seq<char> {
    match e {
        FsEntry::File { name, .. } => name@,
        FsEntry::Dir { name, .. } => name@,
    }
}

pub open spec fn entry_name_string(e: FsEntry) -> String {
    match e {
        FsEntry::File { name, .. } => name,
        FsEntry::Dir { name, .. } => name,
    }
}

pub open spec fn child_entries(e: FsEntry) -> Seq<FsEntry> {
    match e {
        FsEntry::File { .. } => Seq::empty(),
        FsEntry::Dir { entries, .. } => entries@,
    }
}

// ---------------------------------------------------------------------------
// The filter configuration
// ---------------------------------------------------------------------------

/// The filters of one census run, built once from the command line and
/// read-only afterwards.
///
/// `ext` keeps only files with exactly that extension (no leading dot,
/// case-sensitive); `ignore_dirs` names directories that are skipped
/// entirely; `min_size`/`max_size` bound kept file sizes (inclusive);
/// `pattern` keeps only file names in which the pattern is found (`*` any
/// sequence, `?` one character); `max_depth` limits how many directory
/// levels below the root are entered, 0 meaning unlimited.
pub struct FilterConfig {
    pub ext: Option<String>,
    pub ignore_dirs: Vec<String>,
    pub min_size: u64,
    pub max_size: u64,
    pub pattern: Option<String>,
    pub max_depth: usize,
}

/// A hidden entry: the name starts with a dot.
pub open spec fn is_hidden(name: Seq<char>) -> bool {
    name.len() > 0 && name[0] == '.'
}

/// Is the name in the ignored-directory list?
pub open spec fn is_ignored(name: Seq<char>, cfg: FilterConfig) -> bool {
    exists|i: int| 0 <= i < cfg.ignore_dirs@.len() && (#[trigger] cfg.ignore_dirs@[i])@ == name
}

/// The extension of a file name: what follows the last dot, provided that
/// dot is not the leading character (so ".env" has no extension).
pub open spec fn ext_of(name: Seq<char>) -> Option<Seq<char>>
    decreases name.len(),
{
    if name.len() == 0 {
        None
    } else if name.last() == '.' {
        if name.len() >= 2 {
            Some(Seq::empty())
        } else {
            None
        }
    } else {
        match ext_of(name.drop_last()) {
            Some(e) => Some(e.push(name.last())),
            None => None,
        }
    }
}

/// Does a file with this name and size survive every file filter?
/// Hidden names are rejected first, then size bounds, extension, pattern.
pub open spec fn file_kept(name: Seq<char>, size: u64, cfg: FilterConfig) -> bool {
    &&& !is_hidden(name)
    &&& cfg.min_size <= size <= cfg.max_size
    &&& (cfg.ext matches Some(e) ==> ext_of(name) == Some(e@))
    &&& (cfg.pattern matches Some(p) ==> glob_within(p@, name))
}

/// Does a directory with this name survive the directory filters?
pub open spec fn dir_kept(name: Seq<char>, cfg: FilterConfig) -> bool {
    !is_hidden(name) && !is_ignored(name, cfg)
}

// ---------------------------------------------------------------------------
// Classifying one entry
// ---------------------------------------------------------------------------

/// What becomes of one directory entry: kept as a file with its size, kept
/// as a directory (subject to later pruning), or rejected.
pub enum Classification {
    KeepFile { size: u64 },
    KeepDir,
    Reject,
}

/// The classification rules, applied in a fixed order, first match wins:
/// hidden names are rejected before any other filter is consulted; then an
/// ignored directory is rejected; a surviving directory is kept; a file is
/// held to the size bounds, the extension filter and the pattern in turn.
pub open spec fn classify_spec(name: Seq<char>, is_dir: bool, size: u64, cfg: FilterConfig) -> Classification {
    if is_hidden(name) {
        Classification::Reject
    } else if is_dir && is_ignored(name, cfg) {
        Classification::Reject
    } else if is_dir {
        Classification::KeepDir
    } else if size < cfg.min_size {
        Classification::Reject
    } else if size > cfg.max_size {
        Classification::Reject
    } else if cfg.ext matches Some(e) && ext_of(name) != Some(e@) {
        Classification::Reject
    } else if cfg.pattern matches Some(p) && !glob_within(p@, name) {
        Classification::Reject
    } else {
        Classification::KeepFile { size }
    }
}

proof fn lemma_ext_of_at(name: Seq<char>, j: int)
    requires
        1 <= j < name.len(),
        name[j] == '.',
        forall|k: int| j < k < name.len() ==> name[k] != '.',
    ensures
        ext_of(name) == Some(name.skip(j + 1)),
    decreases name.len(),
{
    if j == name.len() - 1 {
        assert(name.last() == '.');
        assert(name.skip(j + 1) =~= Seq::<char>::empty());
    } else {
        assert(name.last() != '.');
        lemma_ext_of_at(name.drop_last(), j);
        assert(name.drop_last().skip(j + 1).push(name.last()) =~= name.skip(j + 1));
    }
}

proof fn lemma_ext_of_none(name: Seq<char>)
    requires
        forall|k: int| 1 <= k < name.len() ==> name[k] != '.',
    ensures
        ext_of(name) is None,
    decreases name.len(),
{
    if name.len() == 0 {
    } else if name.len() == 1 {
        assert(name.drop_last() =~= Seq::<char>::empty());
        assert(ext_of(Seq::<char>::empty()) is None);
    } else {
        assert(name.last() != '.');
        lemma_ext_of_none(name.drop_last());
    }
}

/// Does the file name have exactly the extension `e`?
fn ext_matches(name: &str, e: &str) -> (r: bool)
    ensures
        r == (ext_of(name@) == Some(e@)),
{
    let chars = str_to_chars(name);
    let mut j: usize = chars.len();
    while j > 0 && chars[j - 1] != '.'
        invariant
            j <= chars@.len(),
            chars@ == name@,
            forall|k: int| j <= k < chars@.len() ==> chars@[k] != '.',
        decreases j,
    {
        j = j - 1;
    }
    if j <= 1 {
        // no dot after the first character: no extension
        proof {
            if j == 1 && chars@[0] == '.' {
                lemma_ext_of_none(name@);
            } else {
                assert(forall|k: int| 1 <= k < name@.len() ==> name@[k] != '.');
                lemma_ext_of_none(name@);
            }
        }
        return false;
    }
    proof {
        lemma_ext_of_at(name@, j - 1);
    }
    // compare name[j ..] with e
    let elen = e.unicode_len();
    let clen = chars.len();
    if clen - j != elen {
        proof {
            assert(name@.skip(j as int).len() != e@.len());
        }
        return false;
    }
    let mut k: usize = 0;
    while k < elen
        invariant
            k <= elen,
            j + elen == clen,
            clen == chars@.len(),
            j >= 1,
            chars@ == name@,
            elen == e@.len(),
            ext_of(name@) == Some(name@.skip(j as int)),
            forall|t: int| 0 <= t < k ==> chars@[j + t] == e@[t],
        decreases elen - k,
    {
        if chars[j + k] != e.get_char(k) {
            proof {
                assert(name@.skip(j as int)[k as int] != e@[k as int]);
                assert(name@.skip(j as int) != e@);
            }
            return false;
        }
        k = k + 1;
    }
    proof {
        assert(name@.skip(j as int) =~= e@);
    }
    true
}

/// Does the name carry the extension "exe", compared without regard to
/// ASCII case?
pub open spec fn is_exe_name(name: Seq<char>) -> bool {
    match ext_of(name) {
        Some(e) => e.len() == 3 && crate::text::lower_char(e[0]) == 'e' && crate::text::lower_char(
            e[1],
        ) == 'x' && crate::text::lower_char(e[2]) == 'e',
        None => false,
    }
}

/// Decide whether a file name names an executable (extension "exe", any
/// ASCII case).
pub fn name_is_exe(name: &str) -> (r: bool)
    ensures
        r == is_exe_name(name@),
{
    let chars = str_to_chars(name);
    let mut j: usize = chars.len();
    while j > 0 && chars[j - 1] != '.'
        invariant
            j <= chars@.len(),
            chars@ == name@,
            forall|k: int| j <= k < chars@.len() ==> chars@[k] != '.',
        decreases j,
    {
        j = j - 1;
    }
    if j <= 1 {
        proof {
            if j == 1 && chars@[0] == '.' {
                lemma_ext_of_none(name@);
            } else {
                assert(forall|k: int| 1 <= k < name@.len() ==> name@[k] != '.');
                lemma_ext_of_none(name@);
            }
        }
        return false;
    }
    proof {
        lemma_ext_of_at(name@, j - 1);
    }
    let clen = chars.len();
    if clen - j != 3 {
        proof {
            assert(name@.skip(j as int).len() != 3);
        }
        return false;
    }
    let c0 = chars[j];
    let c1 = chars[j + 1];
    let c2 = chars[j + 2];
    proof {
        assert(name@.skip(j as int)[0] == c0);
        assert(name@.skip(j as int)[1] == c1);
        assert(name@.skip(j as int)[2] == c2);
    }
    crate::text::eq_lower(c0, 'e') && crate::text::eq_lower(c1, 'x') && crate::text::eq_lower(
        c2,
        'e',
    )
}

/// Is the name one of the ignored directory names?
fn name_is_ignored(name: &str, cfg: &FilterConfig) -> (r: bool)
    ensures
        r == is_ignored(name@, *cfg),
{
    let mut i: usize = 0;
    while i < cfg.ignore_dirs.len()
        invariant
            i <= cfg.ignore_dirs@.len(),
            forall|k: int| 0 <= k < i ==> (#[trigger] cfg.ignore_dirs@[k])@ != name@,
        decreases cfg.ignore_dirs@.len() - i,
    {
        if str_eq(cfg.ignore_dirs[i].as_str(), name) {
            return true;
        }
        i = i + 1;
    }
    false
}

/// Does the name start with a dot?
fn name_is_hidden(name: &str) -> (r: bool)
    ensures
        r == is_hidden(name@),
{
    name.unicode_len() > 0 && name.get_char(0) == '.'
}

// ---------------------------------------------------------------------------
// What one level, and one whole subtree, keeps
// ---------------------------------------------------------------------------

/// The kept files of one directory listing, in entry order: each surviving
/// file's name and size.
pub open spec fn kept_files_of(entries: Seq<FsEntry>, cfg: FilterConfig) -> Seq<(String, u64)>
    decreases entries.len(),
{
    if entries.len() == 0 {
        Seq::empty()
    } else {
        let rest = kept_files_of(entries.drop_last(), cfg);
        match entries.last() {
            FsEntry::File { name, size } => if file_kept(name@, size, cfg) {
                rest.push((name, size))
            } else {
                rest
            },
            FsEntry::Dir { .. } => rest,
        }
    }
}

/// The kept directories of one directory listing, in entry order: each
/// surviving directory's name and its index among the entries.
pub open spec fn kept_dirs_of(entries: Seq<FsEntry>, cfg: FilterConfig) -> Seq<(String, usize)>
    decreases entries.len(),
{
    if entries.len() == 0 {
        Seq::empty()
    } else {
        let rest = kept_dirs_of(entries.drop_last(), cfg);
        match entries.last() {
            FsEntry::Dir { name, .. } => if dir_kept(name@, cfg) {
                rest.push((name, (entries.len() - 1) as usize))
            } else {
                rest
            },
            FsEntry::File { .. } => rest,
        }
    }
}

/// The byte total of a list of kept files.
pub open spec fn kept_sizes_sum(pairs: Seq<(String, u64)>) -> int
    decreases pairs.len(),
{
    if pairs.len() == 0 {
        0
    } else {
        kept_sizes_sum(pairs.drop_last()) + pairs.last().1
    }
}

/// May a directory at this depth be entered? Depth counts directory levels
/// below the root; a limit of 0 means unlimited.
pub open spec fn may_recurse(cfg: FilterConfig, depth: nat) -> bool {
    cfg.max_depth == 0 || depth < cfg.max_depth
}

/// The depth handed to a child directory's build. With no depth limit the
/// depth value is never consulted, so it is pinned to zero.
pub open spec fn next_depth(cfg: FilterConfig, depth: nat) -> nat {
    if cfg.max_depth == 0 {
        0
    } else {
        depth + 1
    }
}

/// How many files a listing holds in total, filters and depth ignored.
pub open spec fn raw_file_count(entries: Seq<FsEntry>) -> int
    decreases entries,
{
    if entries.len() == 0 {
        0
    } else {
        raw_file_count(entries.drop_last()) + match entries.last() {
            FsEntry::File { .. } => 1int,
            FsEntry::Dir { entries: sub, .. } => raw_file_count(sub@),
        }
    }
}

/// How many bytes a listing holds in total, filters and depth ignored.
pub open spec fn raw_size_sum(entries: Seq<FsEntry>) -> int
    decreases entries,
{
    if entries.len() == 0 {
        0
    } else {
        raw_size_sum(entries.drop_last()) + match entries.last() {
            FsEntry::File { size, .. } => size as int,
            FsEntry::Dir { entries: sub, .. } => raw_size_sum(sub@),
        }
    }
}

/// How many files the census keeps below a directory at `depth` whose
/// listing is `entries`: the kept files of this level, plus — where the
/// depth limit allows entering them — the kept files below each kept
/// subdirectory.
pub open spec fn total_kept_files(entries: Seq<FsEntry>, cfg: FilterConfig, depth: nat) -> int
    decreases entries,
{
    if entries.len() == 0 {
        0
    } else {
        total_kept_files(entries.drop_last(), cfg, depth) + match entries.last() {
            FsEntry::File { name, size } => if file_kept(name@, size, cfg) {
                1int
            } else {
                0
            },
            FsEntry::Dir { name, entries: sub } => if dir_kept(name@, cfg) && may_recurse(
                cfg,
                depth,
            ) {
                total_kept_files(sub@, cfg, next_depth(cfg, depth))
            } else {
                0
            },
        }
    }
}

/// The byte total of the kept files counted by `total_kept_files`.
pub open spec fn total_kept_size(entries: Seq<FsEntry>, cfg: FilterConfig, depth: nat) -> int
    decreases entries,
{
    if entries.len() == 0 {
        0
    } else {
        total_kept_size(entries.drop_last(), cfg, depth) + match entries.last() {
            FsEntry::File { name, size } => if file_kept(name@, size, cfg) {
                size as int
            } else {
                0
            },
            FsEntry::Dir { name, entries: sub } => if dir_kept(name@, cfg) && may_recurse(
                cfg,
                depth,
            ) {
                total_kept_size(sub@, cfg, next_depth(cfg, depth))
            } else {
                0
            },
        }
    }
}

// ---------------------------------------------------------------------------
// Bounds: everything kept fits inside the raw totals
// ---------------------------------------------------------------------------

pub proof fn lemma_raw_nonneg(entries: Seq<FsEntry>)
    ensures
        raw_file_count(entries) >= 0,
        raw_size_sum(entries) >= 0,
    decreases entries,
{
    if entries.len() > 0 {
        lemma_raw_nonneg(entries.drop_last());
        match entries.last() {
            FsEntry::Dir { entries: sub, .. } => lemma_raw_nonneg(sub@),
            FsEntry::File { .. } => (),
        }
    }
}

pub proof fn lemma_total_bounds(entries: Seq<FsEntry>, cfg: FilterConfig, depth: nat)
    ensures
        0 <= total_kept_files(entries, cfg, depth) <= raw_file_count(entries),
        0 <= total_kept_size(entries, cfg, depth) <= raw_size_sum(entries),
    decreases entries,
{
    if entries.len() > 0 {
        lemma_total_bounds(entries.drop_last(), cfg, depth);
        match entries.last() {
            FsEntry::Dir { entries: sub, .. } => {
                lemma_total_bounds(sub@, cfg, next_depth(cfg, depth));
                lemma_raw_nonneg(sub@);
            },
            FsEntry::File { .. } => (),
        }
    }
}

pub proof fn lemma_kept_level_bounds(entries: Seq<FsEntry>, cfg: FilterConfig)
    ensures
        0 <= kept_files_of(entries, cfg).len() <= raw_file_count(entries),
        0 <= kept_sizes_sum(kept_files_of(entries, cfg)) <= raw_size_sum(entries),
    decreases entries,
{
    if entries.len() > 0 {
        lemma_kept_level_bounds(entries.drop_last(), cfg);
        match entries.last() {
            FsEntry::Dir { entries: sub, .. } => {
                lemma_raw_nonneg(sub@);
            },
            FsEntry::File { name, size } => {
                if file_kept(name@, size, cfg) {
                    let rest = kept_files_of(entries.drop_last(), cfg);
                    assert(kept_files_of(entries, cfg) == rest.push((name, size)));
                    assert(rest.push((name, size)).drop_last() =~= rest);
                    assert(rest.push((name, size)).last() == (name, size));
                }
            },
        }
    }
}

pub proof fn lemma_raw_prefix_le(entries: Seq<FsEntry>, i: int)
    requires
        0 <= i <= entries.len(),
    ensures
        raw_file_count(entries.subrange(0, i)) <= raw_file_count(entries),
        raw_size_sum(entries.subrange(0, i)) <= raw_size_sum(entries),
    decreases entries.len() - i,
{
    if i == entries.len() {
        assert(entries.subrange(0, i) =~= entries);
    } else {
        assert(entries.subrange(0, i) =~= entries.subrange(0, i + 1).drop_last());
        assert(entries.subrange(0, i + 1).last() == entries[i]);
        match entries[i] {
            FsEntry::Dir { entries: sub, .. } => {
                lemma_raw_nonneg(sub@);
            },
            FsEntry::File { .. } => (),
        }
        lemma_raw_prefix_le(entries, i + 1);
    }
}

pub proof fn lemma_child_raw_le(entries: Seq<FsEntry>, i: int)
    requires
        0 <= i < entries.len(),
        entries[i] is Dir,
    ensures
        raw_file_count(child_entries(entries[i])) <= raw_file_count(entries),
        raw_size_sum(child_entries(entries[i])) <= raw_size_sum(entries),
    decreases entries.len(),
{
    if i == entries.len() - 1 {
        lemma_raw_nonneg(entries.drop_last());
    } else {
        lemma_child_raw_le(entries.drop_last(), i);
        match entries.last() {
            FsEntry::Dir { entries: sub, .. } => {
                lemma_raw_nonneg(sub@);
            },
            FsEntry::File { .. } => (),
        }
    }
}

/// Classify one directory entry against the filters. A hidden entry is
/// rejected whatever the other filters would say of it.
pub fn classify_entry(name: &str, is_dir: bool, size: u64, cfg: &FilterConfig) -> (c: Classification)
    ensures
        c == classify_spec(name@, is_dir, size, *cfg),
        is_hidden(name@) ==> c is Reject,
{
    if name_is_hidden(name) {
        return Classification::Reject;
    }
    if is_dir {
        if name_is_ignored(name, cfg) {
            return Classification::Reject;
        }
        return Classification::KeepDir;
    }
    if size < cfg.min_size {
        return Classification::Reject;
    }
    if size > cfg.max_size {
        return Classification::Reject;
    }
    match &cfg.ext {
        Some(e) => {
            if !ext_matches(name, e.as_str()) {
                return Classification::Reject;
            }
        },
        None => {},
    }
    match &cfg.pattern {
        Some(p) => {
            if !glob_matches(p.as_str(), name) {
                return Classification::Reject;
            }
        },
        None => {},
    }
    Classification::KeepFile { size }
}

// ---------------------------------------------------------------------------
// Joining paths
// ---------------------------------------------------------------------------

/// A path joined with an entry name: a separator is added unless one is
/// already there.
pub open spec fn path_join_spec(p: Seq<char>, n: Seq<char>) -> Seq<char> {
    if p.len() > 0 && p.last() == '/' {
        p + n
    } else {
        p + seq!['/'] + n
    }
}

pub fn path_join(p: &str, n: &str) -> (r: String)
    ensures
        r@ == path_join_spec(p@, n@),
{
    let plen = p.unicode_len();
    if plen > 0 && p.get_char(plen - 1) == '/' {
        str_concat(p, n)
    } else {
        let mut s = p.to_owned();
        s.append("/");
        s.append(n);
        proof {
            reveal_strlit("/");
            assert(s@ =~= p@ + seq!['/'] + n@);
        }
        s
    }
}

/// An entry name as a directory listing hands them out: nonempty, without
/// a path separator, and not the parent-directory marker.
pub open spec fn plain_name(n: Seq<char>) -> bool {
    &&& n.len() > 0
    &&& n != seq!['.', '.']
    &&& forall|i: int| 0 <= i < n.len() ==> n[i] != '/'
}

/// Every entry name in the listing, recursively, is a plain name. True of
/// every listing the operating system produces.
pub open spec fn valid_names(entries: Seq<FsEntry>) -> bool
    decreases entries,
{
    forall|i: int|
        0 <= i < entries.len() ==> {
            &&& plain_name(entry_name(#[trigger] entries[i]))
            &&& (entries[i] is Dir ==> valid_names(child_entries(entries[i])))
        }
}

proof fn lemma_after_last_slash_append(q: Seq<char>, n: Seq<char>)
    requires
        q.len() > 0,
        q.last() == '/',
        n.len() > 0,
        forall|i: int| 0 <= i < n.len() ==> n[i] != '/',
    ensures
        after_last_slash(q + n) == n,
    decreases n.len(),
{
    if n.len() == 1 {
        assert(n[0] != '/');
        assert((q + n).last() == n[0]);
        assert((q + n).drop_last() =~= q);
        assert(after_last_slash(q) == Seq::<char>::empty());
        assert(after_last_slash(q + n) == after_last_slash(q).push(n[0]));
        assert(after_last_slash(q + n) =~= n);
    } else {
        assert((q + n).last() == n.last());
        assert((q + n).drop_last() =~= q + n.drop_last());
        lemma_after_last_slash_append(q, n.drop_last());
        assert(after_last_slash(q + n) =~= n);
    }
}

/// Joining a plain entry name onto a directory path and reading the name
/// back from the joined path yields the entry name again.
pub proof fn lemma_name_of_join(p: Seq<char>, n: Seq<char>)
    requires
        plain_name(n),
    ensures
        name_of_path(path_join_spec(p, n)) == n,
{
    let j = path_join_spec(p, n);
    let q = if p.len() > 0 && p.last() == '/' {
        p
    } else {
        p + seq!['/']
    };
    assert(j =~= q + n);
    assert(q.last() == '/');
    assert(j.last() == n.last());
    assert(j.last() != '/');
    assert(strip_trailing_slashes(j) == j);
    lemma_after_last_slash_append(q, n);
}

// ---------------------------------------------------------------------------
// What a correctly built tree looks like
// ---------------------------------------------------------------------------

/// The file children of a built directory: one `File` node per kept file
/// (same names and sizes, as a multiset), each holding its joined path.
/// Their order is fixed by well-formedness (sorted by name).
pub open spec fn files_ok(nodes: Seq<TreeNode>, kept: Seq<(String, u64)>, parent: Seq<char>) -> bool {
    &&& file_pairs_of(nodes).to_multiset() == kept.to_multiset()
    &&& forall|i: int|
        0 <= i < nodes.len() ==> {
            &&& (#[trigger] nodes[i]) is File
            &&& node_path(nodes[i]) == path_join_spec(parent, node_name(nodes[i]))
        }
}

/// Is the kept directory `p` retained: may it be entered at this depth, and
/// does its subtree keep at least one file?
pub open spec fn dir_retained(entries: Seq<FsEntry>, cfg: FilterConfig, depth: nat, p: (String, usize)) -> bool {
    &&& may_recurse(cfg, depth)
    &&& 0 <= p.1 < entries.len()
    &&& entries[p.1 as int] is Dir
    &&& total_kept_files(child_entries(entries[p.1 as int]), cfg, next_depth(cfg, depth)) > 0
}

/// The names of the retained directories among `pairs`, in order.
pub open spec fn retained_names_of(
    pairs: Seq<(String, usize)>,
    entries: Seq<FsEntry>,
    cfg: FilterConfig,
    depth: nat,
) -> Seq<Seq<char>>
    decreases pairs.len(),
{
    if pairs.len() == 0 {
        Seq::empty()
    } else {
        let rest = retained_names_of(pairs.drop_last(), entries, cfg, depth);
        if dir_retained(entries, cfg, depth, pairs.last()) {
            rest.push(pairs.last().0@)
        } else {
            rest
        }
    }
}

/// The names of the retained directories of a listing, read off the
/// entries themselves, in order.
pub open spec fn retained_names_ents(ents: Seq<FsEntry>, cfg: FilterConfig, depth: nat) -> Seq<
    Seq<char>,
>
    decreases ents,
{
    if ents.len() == 0 {
        Seq::empty()
    } else {
        let rest = retained_names_ents(ents.drop_last(), cfg, depth);
        match ents.last() {
            FsEntry::Dir { name, entries: sub } => if dir_kept(name@, cfg) && may_recurse(
                cfg,
                depth,
            ) && total_kept_files(sub@, cfg, next_depth(cfg, depth)) > 0 {
                rest.push(name@)
            } else {
                rest
            },
            FsEntry::File { .. } => rest,
        }
    }
}

/// Is `d` the correctly built subtree of the kept directory `p`?
pub open spec fn child_pair_ok(
    parent: Seq<char>,
    entries: Seq<FsEntry>,
    cfg: FilterConfig,
    depth: nat,
    p: (String, usize),
    d: TreeNode,
) -> bool
    decreases entries, 0int,
{
    &&& 0 <= p.1 < entries.len()
    &&& entries[p.1 as int] is Dir
    &&& node_name(d) == p.0@
    &&& build_ok(
        path_join_spec(parent, p.0@),
        child_entries(entries[p.1 as int]),
        cfg,
        next_depth(cfg, depth),
        Some(d),
    )
}

/// The whole contract of building a directory node at `depth` from the
/// listing `entries` of the directory at `path`:
/// - nothing is returned exactly when the subtree keeps no file;
/// - otherwise the node is a well-formed directory carrying its path and
///   name, whose file children are exactly the kept files of this level,
///   whose statistics equal the specified direct and cumulative totals, and
///   whose directory children are exactly the retained kept subdirectories
///   (by name, as a multiset), each itself a correctly built subtree.
pub open spec fn build_ok(
    path: Seq<char>,
    entries: Seq<FsEntry>,
    cfg: FilterConfig,
    depth: nat,
    r: Option<TreeNode>,
) -> bool
    decreases entries, 1int,
{
    match r {
        Option::None => total_kept_files(entries, cfg, depth) == 0,
        Option::Some(node) => {
            &&& total_kept_files(entries, cfg, depth) > 0
            &&& node is Directory
            &&& wf_node(node)
            &&& node_path(node) == path
            &&& node_name(node) == name_of_path(path)
            &&& node_direct_files(node) as int == kept_files_of(entries, cfg).len() as int
            &&& node_direct_size(node) as int == kept_sizes_sum(kept_files_of(entries, cfg))
            &&& node_total_files(node) as int == total_kept_files(entries, cfg, depth)
            &&& node_total_size(node) as int == total_kept_size(entries, cfg, depth)
            &&& files_ok(node_files(node), kept_files_of(entries, cfg), path)
            &&& names_of(node_dirs(node)).to_multiset() == retained_names_of(
                kept_dirs_of(entries, cfg),
                entries,
                cfg,
                depth,
            ).to_multiset()
            &&& forall|t: int|
                0 <= t < node_dirs(node).len() ==> exists|k: int|
                    0 <= k < kept_dirs_of(entries, cfg).len() && child_pair_ok(
                        path,
                        entries,
                        cfg,
                        depth,
                        kept_dirs_of(entries, cfg)[k],
                        #[trigger] node_dirs(node)[t],
                    )
        },
    }
}

// ---------------------------------------------------------------------------
// Building the tree
// ---------------------------------------------------------------------------

/// Build the census tree for the directory at `path` whose listing is
/// `entries`, a directory at `depth` levels below the root of the run.
/// Classifies each entry, keeps both child lists sorted by name, builds the
/// retained subdirectories recursively, prunes subtrees without kept files,
/// and computes the direct and cumulative statistics.
///
/// Returns `None` exactly when the subtree keeps no file at all; at the
/// root that means there is nothing to show.
pub fn build_directory_tree(
    path: String,
    entries: &Vec<FsEntry>,
    cfg: &FilterConfig,
    depth: usize,
) -> (r: Option<TreeNode>)
    requires
        valid_names(entries@),
        raw_file_count(entries@) <= usize::MAX,
        raw_size_sum(entries@) <= u64::MAX,
    ensures
        build_ok(path@, entries@, *cfg, depth as nat, r),
    decreases entries@,
{
    let ghost es = entries@;
    let recurse_ok = cfg.max_depth == 0 || depth < cfg.max_depth;
    let child_depth: usize = if cfg.max_depth == 0 {
        0
    } else if depth < cfg.max_depth {
        depth + 1
    } else {
        0
    };
    let mut files: Vec<TreeNode> = Vec::new();
    let mut child_nodes: Vec<TreeNode> = Vec::new();
    let mut direct_size: u64 = 0;
    let mut total_files: usize = 0;
    let mut total_size: u64 = 0;
    let mut i: usize = 0;
    proof {
        assert(es.subrange(0, 0) =~= Seq::<FsEntry>::empty());
    }
    while i < entries.len()
        invariant
            i <= es.len(),
            entries@ == es,
            valid_names(es),
            raw_file_count(es) <= usize::MAX,
            raw_size_sum(es) <= u64::MAX,
            recurse_ok == may_recurse(*cfg, depth as nat),
            recurse_ok ==> child_depth as nat == next_depth(*cfg, depth as nat),
            sorted_nodes(files@),
            file_pairs_of(files@).to_multiset() == kept_files_of(es.subrange(0, i as int), *cfg).to_multiset(),
            files@.len() == kept_files_of(es.subrange(0, i as int), *cfg).len(),
            forall|t: int|
                0 <= t < files@.len() ==> (#[trigger] files@[t]) is File && node_path(files@[t])
                    == path_join_spec(path@, node_name(files@[t])),
            sum_file_sizes(files@) == kept_sizes_sum(kept_files_of(es.subrange(0, i as int), *cfg)),
            direct_size as int == kept_sizes_sum(kept_files_of(es.subrange(0, i as int), *cfg)),
            total_files as int == total_kept_files(es.subrange(0, i as int), *cfg, depth as nat),
            total_size as int == total_kept_size(es.subrange(0, i as int), *cfg, depth as nat),
            sorted_nodes(child_nodes@),
            forall|t: int|
                0 <= t < child_nodes@.len() ==> (#[trigger] child_nodes@[t]) is Directory
                    && wf_node(child_nodes@[t]) && node_total_files(child_nodes@[t]) > 0,
            sum_total_files(child_nodes@) == total_kept_files(es.subrange(0, i as int), *cfg, depth as nat)
                - kept_files_of(es.subrange(0, i as int), *cfg).len(),
            sum_total_sizes(child_nodes@) == total_kept_size(es.subrange(0, i as int), *cfg, depth as nat)
                - kept_sizes_sum(kept_files_of(es.subrange(0, i as int), *cfg)),
            names_of(child_nodes@).to_multiset() == retained_names_of(
                kept_dirs_of(es.subrange(0, i as int), *cfg),
                es,
                *cfg,
                depth as nat,
            ).to_multiset(),
            forall|t: int|
                0 <= t < child_nodes@.len() ==> exists|k: int|
                    0 <= k < kept_dirs_of(es.subrange(0, i as int), *cfg).len() && child_pair_ok(
                        path@,
                        es,
                        *cfg,
                        depth as nat,
                        kept_dirs_of(es.subrange(0, i as int), *cfg)[k],
                        #[trigger] child_nodes@[t],
                    ),
        decreases es.len() - i,
    {
        let ghost pre = es.subrange(0, i as int);
        let ghost post = es.subrange(0, i + 1 as int);
        proof {
            assert(post.drop_last() =~= pre);
            assert(post.last() == es[i as int]);
        }
        match &entries[i] {
            FsEntry::File { name, size } => {
                let c = classify_entry(name.as_str(), false, *size, cfg);
                match c {
                    Classification::KeepFile { .. } => {
                        proof {
                            assert(file_kept(name@, *size, *cfg));
                            assert(kept_files_of(post, *cfg) == kept_files_of(pre, *cfg).push(
                                (*name, *size),
                            ));
                            assert(kept_files_of(pre, *cfg).push((*name, *size)).drop_last()
                                =~= kept_files_of(pre, *cfg));
                            // bounds for the additions below
                            lemma_kept_level_bounds(post, *cfg);
                            lemma_total_bounds(post, *cfg, depth as nat);
                            lemma_raw_prefix_le(es, i + 1);
                        }
                        let fpath = path_join(path.as_str(), name.as_str());
                        let fnode = TreeNode::File { name: name.clone(), path: fpath, size: *size };
                        let ghost old_files = files@;
                        let pos = insert_node_sorted(&mut files, fnode);
                        direct_size = direct_size + *size;
                        total_files = total_files + 1;
                        total_size = total_size + *size;
                        proof {
                            lemma_file_pairs_insert(old_files, pos@, fnode);
                            lemma_sum_file_sizes_insert(old_files, pos@, fnode);
                            old_files.insert_ensures(pos@, fnode);
                            assert(node_file_pair(fnode) == (*name, *size));
                            crate::tree::lemma_file_pairs_len(old_files);
                            assert(file_pairs_of(files@).to_multiset() == file_pairs_of(
                                old_files,
                            ).to_multiset().insert(node_file_pair(fnode)));
                            assert(kept_files_of(post, *cfg).to_multiset() == kept_files_of(
                                pre,
                                *cfg,
                            ).to_multiset().insert((*name, *size)));
                            assert(kept_dirs_of(post, *cfg) == kept_dirs_of(pre, *cfg));
                            assert forall|t: int| 0 <= t < files@.len() implies (
                                #[trigger] files@[t]) is File && node_path(files@[t])
                                == path_join_spec(path@, node_name(files@[t])) by {
                                if t < pos@ {
                                    assert(files@[t] == old_files[t]);
                                } else if t == pos@ {
                                    assert(files@[t] == fnode);
                                } else {
                                    assert(files@[t] == old_files[t - 1]);
                                }
                            }
                        }
                    },
                    _ => {
                        proof {
                            assert(!file_kept(name@, *size, *cfg));
                            assert(kept_files_of(post, *cfg) == kept_files_of(pre, *cfg));
                            assert(kept_dirs_of(post, *cfg) == kept_dirs_of(pre, *cfg));
                        }
                    },
                }
            },
            FsEntry::Dir { name, entries: sub } => {
                let c = classify_entry(name.as_str(), true, 0, cfg);
                match c {
                    Classification::KeepDir => {
                        proof {
                            assert(dir_kept(name@, *cfg));
                            assert(kept_files_of(post, *cfg) == kept_files_of(pre, *cfg));
                            assert(kept_dirs_of(post, *cfg) == kept_dirs_of(pre, *cfg).push(
                                (*name, i),
                            ));
                            assert(kept_dirs_of(pre, *cfg).push((*name, i)).drop_last()
                                =~= kept_dirs_of(pre, *cfg));
                        }
                        if recurse_ok {
                            proof {
                                lemma_child_raw_le(es, i as int);
                                lemma_raw_nonneg(sub@);
                                assert(valid_names(es));
                                assert(plain_name(entry_name(es[i as int])));
                                assert(valid_names(child_entries(es[i as int])));
                                assert(child_entries(es[i as int]) == sub@);
                                lemma_total_bounds(sub@, *cfg, next_depth(*cfg, depth as nat));
                            }
                            let child_path = path_join(path.as_str(), name.as_str());
                            let r = build_directory_tree(child_path, sub, cfg, child_depth);
                            match r {
                                Some(child) => {
                                    proof {
                                        assert(build_ok(
                                            path_join_spec(path@, name@),
                                            sub@,
                                            *cfg,
                                            next_depth(*cfg, depth as nat),
                                            Some(child),
                                        ));
                                        lemma_name_of_join(path@, name@);
                                        assert(node_name(child) == name@);
                                        assert(dir_retained(es, *cfg, depth as nat, (*name, i)));
                                        lemma_total_bounds(post, *cfg, depth as nat);
                                        lemma_raw_prefix_le(es, i + 1);
                                    }
                                    let (ctf, cts) = node_totals(&child);
                                    total_files = total_files + ctf;
                                    total_size = total_size + cts;
                                    let ghost old_children = child_nodes@;
                                    let ghost old_kept_dirs = kept_dirs_of(pre, *cfg);
                                    let pos = insert_node_sorted(&mut child_nodes, child);
                                    proof {
                                        lemma_names_insert(old_children, pos@, child);
                                        lemma_sum_totals_insert(old_children, pos@, child);
                                        old_children.insert_ensures(pos@, child);
                                        crate::tree::lemma_names_len(old_children);
                                        assert(names_of(child_nodes@).to_multiset() == names_of(
                                            old_children,
                                        ).to_multiset().insert(node_name(child)));
                                        assert(retained_names_of(
                                            kept_dirs_of(post, *cfg),
                                            es,
                                            *cfg,
                                            depth as nat,
                                        ) == retained_names_of(old_kept_dirs, es, *cfg, depth as nat).push(name@));
                                        assert(retained_names_of(
                                            kept_dirs_of(post, *cfg),
                                            es,
                                            *cfg,
                                            depth as nat,
                                        ).to_multiset() == retained_names_of(
                                            old_kept_dirs,
                                            es,
                                            *cfg,
                                            depth as nat,
                                        ).to_multiset().insert(name@));
                                        assert forall|t: int| 0 <= t < child_nodes@.len() implies (
                                            #[trigger] child_nodes@[t]) is Directory && wf_node(
                                            child_nodes@[t],
                                        ) && node_total_files(child_nodes@[t]) > 0 by {
                                            if t < pos@ {
                                                assert(child_nodes@[t] == old_children[t]);
                                            } else if t == pos@ {
                                                assert(child_nodes@[t] == child);
                                            } else {
                                                assert(child_nodes@[t] == old_children[t - 1]);
                                            }
                                        }
                                        assert forall|t: int| 0 <= t < child_nodes@.len() implies exists|k: int|
                                            0 <= k < kept_dirs_of(post, *cfg).len() && child_pair_ok(
                                                path@,
                                                es,
                                                *cfg,
                                                depth as nat,
                                                kept_dirs_of(post, *cfg)[k],
                                                #[trigger] child_nodes@[t],
                                            ) by {
                                            let newlen = kept_dirs_of(post, *cfg).len();
                                            assert(newlen == old_kept_dirs.len() + 1);
                                            assert(forall|k: int|
                                                0 <= k < old_kept_dirs.len() ==> kept_dirs_of(
                                                    post,
                                                    *cfg,
                                                )[k] == old_kept_dirs[k]);
                                            if t == pos@ {
                                                assert(kept_dirs_of(post, *cfg)[newlen - 1]
                                                    == (*name, i));
                                                assert(child_pair_ok(
                                                    path@,
                                                    es,
                                                    *cfg,
                                                    depth as nat,
                                                    (*name, i),
                                                    child,
                                                ));
                                            } else {
                                                let tt = if t < pos@ {
                                                    t
                                                } else {
                                                    t - 1
                                                };
                                                assert(child_nodes@[t] == old_children[tt]);
                                                let k = choose|k: int|
                                                    0 <= k < old_kept_dirs.len() && child_pair_ok(
                                                        path@,
                                                        es,
                                                        *cfg,
                                                        depth as nat,
                                                        old_kept_dirs[k],
                                                        old_children[tt],
                                                    );
                                                assert(child_pair_ok(
                                                    path@,
                                                    es,
                                                    *cfg,
                                                    depth as nat,
                                                    kept_dirs_of(post, *cfg)[k],
                                                    child_nodes@[t],
                                                ));
                                            }
                                        }
                                    }
                                },
                                None => {
                                    proof {
                                        assert(total_kept_files(
                                            sub@,
                                            *cfg,
                                            next_depth(*cfg, depth as nat),
                                        ) == 0);
                                        assert(!dir_retained(es, *cfg, depth as nat, (*name, i)));
                                        assert(retained_names_of(
                                            kept_dirs_of(post, *cfg),
                                            es,
                                            *cfg,
                                            depth as nat,
                                        ) == retained_names_of(
                                            kept_dirs_of(pre, *cfg),
                                            es,
                                            *cfg,
                                            depth as nat,
                                        ));
                                        // the subtree keeps nothing: totals unchanged
                                        assert(total_kept_size(
                                            sub@,
                                            *cfg,
                                            next_depth(*cfg, depth as nat),
                                        ) == 0) by {
                                            lemma_total_size_zero(
                                                sub@,
                                                *cfg,
                                                next_depth(*cfg, depth as nat),
                                            );
                                        }
                                    }
                                },
                            }
                        } else {
                            proof {
                                assert(!may_recurse(*cfg, depth as nat));
                                assert(!dir_retained(es, *cfg, depth as nat, (*name, i)));
                                assert(retained_names_of(
                                    kept_dirs_of(post, *cfg),
                                    es,
                                    *cfg,
                                    depth as nat,
                                ) == retained_names_of(
                                    kept_dirs_of(pre, *cfg),
                                    es,
                                    *cfg,
                                    depth as nat,
                                ));
                            }
                        }
                    },
                    _ => {
                        proof {
                            assert(!dir_kept(name@, *cfg));
                            assert(kept_files_of(post, *cfg) == kept_files_of(pre, *cfg));
                            assert(kept_dirs_of(post, *cfg) == kept_dirs_of(pre, *cfg));
                        }
                    },
                }
            },
        }
        i = i + 1;
    }
    proof {
        assert(es.subrange(0, i as int) =~= es);
    }
    let direct_files = files.len();
    let name = name_of_path_exec(path.as_str());
    if total_files > 0 {
        let node = TreeNode::Directory {
            name,
            path,
            files,
            dirs: child_nodes,
            direct_files,
            direct_size,
            total_files,
            total_size,
        };
        proof {
            assert(wf_node(node));
        }
        Some(node)
    } else {
        None
    }
}

/// Law: at or beyond the depth limit, a directory is scanned for its direct
/// files but never entered: its subtree keeps exactly this level's kept
/// files, and nothing below any subdirectory is counted. Files are
/// therefore kept only when their directory lies within the limit.
pub proof fn lemma_depth_cutoff(entries: Seq<FsEntry>, cfg: FilterConfig, depth: nat)
    requires
        cfg.max_depth > 0,
        depth >= cfg.max_depth,
    ensures
        total_kept_files(entries, cfg, depth) == kept_files_of(entries, cfg).len(),
        total_kept_size(entries, cfg, depth) == kept_sizes_sum(kept_files_of(entries, cfg)),
    decreases entries,
{
    if entries.len() > 0 {
        lemma_depth_cutoff(entries.drop_last(), cfg, depth);
        match entries.last() {
            FsEntry::File { name, size } => {
                if file_kept(name@, size, cfg) {
                    let rest = kept_files_of(entries.drop_last(), cfg);
                    assert(kept_files_of(entries, cfg) == rest.push((name, size)));
                    assert(rest.push((name, size)).drop_last() =~= rest);
                    assert(rest.push((name, size)).last() == (name, size));
                }
            },
            FsEntry::Dir { .. } => {
                assert(!may_recurse(cfg, depth));
            },
        }
    }
}

/// Law: a limit of zero is no limit: the depth value never changes what is
/// kept.
pub proof fn lemma_unlimited_depth(entries: Seq<FsEntry>, cfg: FilterConfig, d1: nat, d2: nat)
    requires
        cfg.max_depth == 0,
    ensures
        total_kept_files(entries, cfg, d1) == total_kept_files(entries, cfg, d2),
        total_kept_size(entries, cfg, d1) == total_kept_size(entries, cfg, d2),
    decreases entries,
{
    if entries.len() > 0 {
        lemma_unlimited_depth(entries.drop_last(), cfg, d1, d2);
    }
}

// ---------------------------------------------------------------------------
// A skipped directory is skipped entirely
// ---------------------------------------------------------------------------

/// Do two listings agree everywhere the census can look? Same length; equal
/// files; directories with the same name whose contents agree again — but a
/// directory the filters skip (hidden or ignored) may hold anything.
pub open spec fn agree_outside_skipped(e1: Seq<FsEntry>, e2: Seq<FsEntry>, cfg: FilterConfig) -> bool
    decreases e1,
{
    &&& e1.len() == e2.len()
    &&& e1.len() <= usize::MAX
    &&& forall|i: int|
        0 <= i < e1.len() ==> {
            &&& ((#[trigger] e1[i]) is File ==> e1[i] == e2[i])
            &&& (e1[i] is Dir ==> e2[i] is Dir && entry_name_string(e1[i]) == entry_name_string(
                e2[i],
            ) && (dir_kept(entry_name(e1[i]), cfg) ==> agree_outside_skipped(
                child_entries(e1[i]),
                child_entries(e2[i]),
                cfg,
            )))
        }
}

proof fn lemma_agree_symmetric(e1: Seq<FsEntry>, e2: Seq<FsEntry>, cfg: FilterConfig)
    requires
        agree_outside_skipped(e1, e2, cfg),
    ensures
        agree_outside_skipped(e2, e1, cfg),
    decreases e1,
{
    assert forall|i: int| 0 <= i < e2.len() implies {
        &&& ((#[trigger] e2[i]) is File ==> e2[i] == e1[i])
        &&& (e2[i] is Dir ==> e1[i] is Dir && entry_name_string(e2[i]) == entry_name_string(e1[i])
            && (dir_kept(entry_name(e2[i]), cfg) ==> agree_outside_skipped(
            child_entries(e2[i]),
            child_entries(e1[i]),
            cfg,
        )))
    } by {
        assert(e1[i] is File ==> e1[i] == e2[i]);
        if e1[i] is Dir {
            assert(entry_name(e1[i]) == entry_name_string(e1[i])@);
            assert(entry_name(e2[i]) == entry_name(e1[i]));
            if dir_kept(entry_name(e2[i]), cfg) {
                lemma_agree_symmetric(child_entries(e1[i]), child_entries(e2[i]), cfg);
            }
        }
    }
}

proof fn lemma_agree_drop_last(e1: Seq<FsEntry>, e2: Seq<FsEntry>, cfg: FilterConfig)
    requires
        agree_outside_skipped(e1, e2, cfg),
        e1.len() > 0,
    ensures
        agree_outside_skipped(e1.drop_last(), e2.drop_last(), cfg),
{
    assert(forall|i: int|
        0 <= i < e1.drop_last().len() ==> (#[trigger] e1.drop_last()[i]) == e1[i]);
    assert(forall|i: int|
        0 <= i < e2.drop_last().len() ==> (#[trigger] e2.drop_last()[i]) == e2[i]);
}

/// Listings that agree keep the same files and the same directories at
/// this level.
proof fn lemma_agree_kept(e1: Seq<FsEntry>, e2: Seq<FsEntry>, cfg: FilterConfig)
    requires
        agree_outside_skipped(e1, e2, cfg),
    ensures
        kept_files_of(e1, cfg) == kept_files_of(e2, cfg),
        kept_dirs_of(e1, cfg) == kept_dirs_of(e2, cfg),
    decreases e1,
{
    if e1.len() > 0 {
        lemma_agree_drop_last(e1, e2, cfg);
        lemma_agree_kept(e1.drop_last(), e2.drop_last(), cfg);
        let i = e1.len() - 1;
        assert(e1[i] is File ==> e1[i] == e2[i]);
        if e1[i] is Dir {
            assert(e2[i] is Dir);
            assert(entry_name_string(e1[i]) == entry_name_string(e2[i]));
            assert(entry_name(e1[i]) == entry_name(e2[i]));
        }
        assert(e1.last() == e1[i] && e2.last() == e2[i]);
    }
}

/// Listings that agree keep the same totals: what a skipped directory
/// holds is never counted.
proof fn lemma_agree_totals(e1: Seq<FsEntry>, e2: Seq<FsEntry>, cfg: FilterConfig, depth: nat)
    requires
        agree_outside_skipped(e1, e2, cfg),
    ensures
        total_kept_files(e1, cfg, depth) == total_kept_files(e2, cfg, depth),
        total_kept_size(e1, cfg, depth) == total_kept_size(e2, cfg, depth),
    decreases e1,
{
    if e1.len() > 0 {
        lemma_agree_drop_last(e1, e2, cfg);
        lemma_agree_totals(e1.drop_last(), e2.drop_last(), cfg, depth);
        let i = e1.len() - 1;
        assert(e1.last() == e1[i] && e2.last() == e2[i]);
        match e1[i] {
            FsEntry::File { .. } => {
                assert(e1[i] == e2[i]);
            },
            FsEntry::Dir { .. } => {
                assert(e2[i] is Dir);
                assert(entry_name(e1[i]) == entry_name(e2[i]));
                if dir_kept(entry_name(e1[i]), cfg) && may_recurse(cfg, depth) {
                    lemma_agree_totals(
                        child_entries(e1[i]),
                        child_entries(e2[i]),
                        cfg,
                        next_depth(cfg, depth),
                    );
                }
            },
        }
    }
}

/// Every pair in the kept-directory list points at a kept directory entry
/// and carries its name.
proof fn lemma_kept_dirs_elems(entries: Seq<FsEntry>, cfg: FilterConfig)
    requires
        entries.len() <= usize::MAX,
    ensures
        forall|k: int|
            0 <= k < kept_dirs_of(entries, cfg).len() ==> {
                let p = #[trigger] kept_dirs_of(entries, cfg)[k];
                &&& 0 <= p.1 < entries.len()
                &&& entries[p.1 as int] is Dir
                &&& entry_name_string(entries[p.1 as int]) == p.0
                &&& dir_kept(p.0@, cfg)
            },
    decreases entries,
{
    if entries.len() > 0 {
        lemma_kept_dirs_elems(entries.drop_last(), cfg);
        let rest = kept_dirs_of(entries.drop_last(), cfg);
        assert forall|k: int| 0 <= k < kept_dirs_of(entries, cfg).len() implies {
            let p = #[trigger] kept_dirs_of(entries, cfg)[k];
            &&& 0 <= p.1 < entries.len()
            &&& entries[p.1 as int] is Dir
            &&& entry_name_string(entries[p.1 as int]) == p.0
            &&& dir_kept(p.0@, cfg)
        } by {
            if k < rest.len() {
                assert(kept_dirs_of(entries, cfg)[k] == rest[k]);
                let p = rest[k];
                assert(entries.drop_last()[p.1 as int] == entries[p.1 as int]);
            }
        }
    }
}

proof fn lemma_retained_names_congruent(
    pairs: Seq<(String, usize)>,
    e1: Seq<FsEntry>,
    e2: Seq<FsEntry>,
    cfg: FilterConfig,
    depth: nat,
)
    requires
        forall|k: int|
            0 <= k < pairs.len() ==> dir_retained(e1, cfg, depth, #[trigger] pairs[k])
                == dir_retained(e2, cfg, depth, pairs[k]),
    ensures
        retained_names_of(pairs, e1, cfg, depth) == retained_names_of(pairs, e2, cfg, depth),
    decreases pairs.len(),
{
    if pairs.len() > 0 {
        assert(forall|k: int|
            0 <= k < pairs.drop_last().len() ==> (#[trigger] pairs.drop_last()[k]) == pairs[k]);
        lemma_retained_names_congruent(pairs.drop_last(), e1, e2, cfg, depth);
        assert(pairs.last() == pairs[pairs.len() - 1]);
    }
}

proof fn lemma_agree_build(
    path: Seq<char>,
    e1: Seq<FsEntry>,
    e2: Seq<FsEntry>,
    cfg: FilterConfig,
    depth: nat,
    r: Option<TreeNode>,
)
    requires
        agree_outside_skipped(e1, e2, cfg),
        build_ok(path, e1, cfg, depth, r),
    ensures
        build_ok(path, e2, cfg, depth, r),
    decreases e1,
{
    lemma_agree_totals(e1, e2, cfg, depth);
    lemma_agree_kept(e1, e2, cfg);
    match r {
        Option::None => (),
        Option::Some(node) => {
            let pairs = kept_dirs_of(e1, cfg);
            lemma_kept_dirs_elems(e1, cfg);
            assert forall|k: int| 0 <= k < pairs.len() implies dir_retained(
                e1,
                cfg,
                depth,
                #[trigger] pairs[k],
            ) == dir_retained(e2, cfg, depth, pairs[k]) by {
                let p = pairs[k];
                assert(e1[p.1 as int] is Dir && dir_kept(p.0@, cfg));
                assert(entry_name(e1[p.1 as int]) == p.0@);
                assert(e2[p.1 as int] is Dir);
                lemma_agree_totals(
                    child_entries(e1[p.1 as int]),
                    child_entries(e2[p.1 as int]),
                    cfg,
                    next_depth(cfg, depth),
                );
            }
            lemma_retained_names_congruent(pairs, e1, e2, cfg, depth);
            assert forall|t: int| 0 <= t < node_dirs(node).len() implies exists|k: int|
                0 <= k < kept_dirs_of(e2, cfg).len() && child_pair_ok(
                    path,
                    e2,
                    cfg,
                    depth,
                    kept_dirs_of(e2, cfg)[k],
                    #[trigger] node_dirs(node)[t],
                ) by {
                let k = choose|k: int|
                    0 <= k < kept_dirs_of(e1, cfg).len() && child_pair_ok(
                        path,
                        e1,
                        cfg,
                        depth,
                        kept_dirs_of(e1, cfg)[k],
                        node_dirs(node)[t],
                    );
                let p = pairs[k];
                assert(e1[p.1 as int] is Dir && dir_kept(p.0@, cfg));
                assert(entry_name(e1[p.1 as int]) == p.0@);
                assert(e2[p.1 as int] is Dir);
                assert(agree_outside_skipped(
                    child_entries(e1[p.1 as int]),
                    child_entries(e2[p.1 as int]),
                    cfg,
                ));
                lemma_agree_build(
                    path_join_spec(path, p.0@),
                    child_entries(e1[p.1 as int]),
                    child_entries(e2[p.1 as int]),
                    cfg,
                    next_depth(cfg, depth),
                    Some(node_dirs(node)[t]),
                );
                assert(child_pair_ok(path, e2, cfg, depth, kept_dirs_of(e2, cfg)[k], node_dirs(
                    node,
                )[t]));
            }
        },
    }
}

/// Is `e2` the listing `e1` with every skipped directory deleted? An entry
/// for a hidden or ignored directory is dropped wholly, with everything
/// below it; every other entry is kept in order, a kept directory's own
/// listing cleaned the same way.
pub open spec fn drops_skipped_dirs(e1: Seq<FsEntry>, e2: Seq<FsEntry>, cfg: FilterConfig) -> bool
    decreases e1,
{
    if e1.len() == 0 {
        e2.len() == 0 && e1.len() <= usize::MAX
    } else {
        e1.len() <= usize::MAX && match e1.last() {
            FsEntry::File { .. } => e2.len() > 0 && e2.last() == e1.last() && drops_skipped_dirs(
                e1.drop_last(),
                e2.drop_last(),
                cfg,
            ),
            FsEntry::Dir { name, entries: sub } => {
                if dir_kept(name@, cfg) {
                    &&& e2.len() > 0
                    &&& e2.last() is Dir
                    &&& entry_name_string(e2.last()) == name
                    &&& drops_skipped_dirs(sub@, child_entries(e2.last()), cfg)
                    &&& drops_skipped_dirs(e1.drop_last(), e2.drop_last(), cfg)
                } else {
                    drops_skipped_dirs(e1.drop_last(), e2, cfg)
                }
            },
        }
    }
}

proof fn lemma_drops_len(e1: Seq<FsEntry>, e2: Seq<FsEntry>, cfg: FilterConfig)
    requires
        drops_skipped_dirs(e1, e2, cfg),
    ensures
        e2.len() <= e1.len(),
    decreases e1,
{
    if e1.len() > 0 {
        match e1.last() {
            FsEntry::File { .. } => lemma_drops_len(e1.drop_last(), e2.drop_last(), cfg),
            FsEntry::Dir { name, .. } => {
                if dir_kept(name@, cfg) {
                    lemma_drops_len(e1.drop_last(), e2.drop_last(), cfg);
                } else {
                    lemma_drops_len(e1.drop_last(), e2, cfg);
                }
            },
        }
    }
}

/// A cleaned listing keeps the same files, and its kept directories pair
/// off with the original's, position for position, their own listings
/// cleaned in turn.
proof fn lemma_drops_kept(e1: Seq<FsEntry>, e2: Seq<FsEntry>, cfg: FilterConfig)
    requires
        drops_skipped_dirs(e1, e2, cfg),
    ensures
        kept_files_of(e2, cfg) == kept_files_of(e1, cfg),
        kept_dirs_of(e2, cfg).len() == kept_dirs_of(e1, cfg).len(),
        forall|k: int|
            0 <= k < kept_dirs_of(e1, cfg).len() ==> {
                let p = #[trigger] kept_dirs_of(e1, cfg)[k];
                let q = kept_dirs_of(e2, cfg)[k];
                &&& q.0 == p.0
                &&& 0 <= p.1 < e1.len()
                &&& 0 <= q.1 < e2.len()
                &&& e1[p.1 as int] is Dir
                &&& e2[q.1 as int] is Dir
                &&& dir_kept(p.0@, cfg)
                &&& drops_skipped_dirs(
                    child_entries(e1[p.1 as int]),
                    child_entries(e2[q.1 as int]),
                    cfg,
                )
            },
    decreases e1,
{
    if e1.len() > 0 {
        lemma_drops_len(e1, e2, cfg);
        match e1.last() {
            FsEntry::File { .. } => {
                lemma_drops_kept(e1.drop_last(), e2.drop_last(), cfg);
                assert(forall|i: int|
                    0 <= i < e1.drop_last().len() ==> (#[trigger] e1.drop_last()[i]) == e1[i]);
                assert(forall|i: int|
                    0 <= i < e2.drop_last().len() ==> (#[trigger] e2.drop_last()[i]) == e2[i]);
            },
            FsEntry::Dir { name, .. } => {
                if dir_kept(name@, cfg) {
                    lemma_drops_kept(e1.drop_last(), e2.drop_last(), cfg);
                    assert(forall|i: int|
                        0 <= i < e1.drop_last().len() ==> (#[trigger] e1.drop_last()[i]) == e1[i]);
                    assert(forall|i: int|
                        0 <= i < e2.drop_last().len() ==> (#[trigger] e2.drop_last()[i]) == e2[i]);
                    assert(entry_name(e2.last()) == name@);
                    assert(kept_dirs_of(e1, cfg) == kept_dirs_of(e1.drop_last(), cfg).push(
                        (name, (e1.len() - 1) as usize),
                    ));
                    assert(kept_dirs_of(e2, cfg) == kept_dirs_of(e2.drop_last(), cfg).push(
                        (entry_name_string(e2.last()), (e2.len() - 1) as usize),
                    ));
                } else {
                    lemma_drops_kept(e1.drop_last(), e2, cfg);
                    assert(forall|i: int|
                        0 <= i < e1.drop_last().len() ==> (#[trigger] e1.drop_last()[i]) == e1[i]);
                }
            },
        }
    }
}

/// A cleaned listing keeps the same totals.
proof fn lemma_drops_totals(e1: Seq<FsEntry>, e2: Seq<FsEntry>, cfg: FilterConfig, depth: nat)
    requires
        drops_skipped_dirs(e1, e2, cfg),
    ensures
        total_kept_files(e2, cfg, depth) == total_kept_files(e1, cfg, depth),
        total_kept_size(e2, cfg, depth) == total_kept_size(e1, cfg, depth),
    decreases e1,
{
    if e1.len() > 0 {
        match e1.last() {
            FsEntry::File { .. } => {
                lemma_drops_totals(e1.drop_last(), e2.drop_last(), cfg, depth);
            },
            FsEntry::Dir { name, entries: sub } => {
                if dir_kept(name@, cfg) {
                    lemma_drops_totals(e1.drop_last(), e2.drop_last(), cfg, depth);
                    assert(entry_name(e2.last()) == name@);
                    if may_recurse(cfg, depth) {
                        lemma_drops_totals(
                            sub@,
                            child_entries(e2.last()),
                            cfg,
                            next_depth(cfg, depth),
                        );
                    }
                } else {
                    lemma_drops_totals(e1.drop_last(), e2, cfg, depth);
                }
            },
        }
    }
}

proof fn lemma_retained_names_pairwise(
    pairs1: Seq<(String, usize)>,
    pairs2: Seq<(String, usize)>,
    e1: Seq<FsEntry>,
    e2: Seq<FsEntry>,
    cfg: FilterConfig,
    depth: nat,
)
    requires
        pairs1.len() == pairs2.len(),
        forall|k: int|
            0 <= k < pairs1.len() ==> (#[trigger] pairs1[k]).0 == pairs2[k].0 && dir_retained(
                e1,
                cfg,
                depth,
                pairs1[k],
            ) == dir_retained(e2, cfg, depth, pairs2[k]),
    ensures
        retained_names_of(pairs1, e1, cfg, depth) == retained_names_of(pairs2, e2, cfg, depth),
    decreases pairs1.len(),
{
    if pairs1.len() > 0 {
        assert(forall|k: int|
            0 <= k < pairs1.drop_last().len() ==> (#[trigger] pairs1.drop_last()[k]) == pairs1[k]
                && pairs2.drop_last()[k] == pairs2[k]);
        lemma_retained_names_pairwise(
            pairs1.drop_last(),
            pairs2.drop_last(),
            e1,
            e2,
            cfg,
            depth,
        );
        assert(pairs1.last() == pairs1[pairs1.len() - 1]);
        assert(pairs2.last() == pairs2[pairs1.len() - 1]);
    }
}

/// The pair-based retained names are the entry-based ones.
proof fn lemma_retained_bridge(entries: Seq<FsEntry>, cfg: FilterConfig, depth: nat)
    requires
        entries.len() <= usize::MAX,
    ensures
        retained_names_of(kept_dirs_of(entries, cfg), entries, cfg, depth) == retained_names_ents(
            entries,
            cfg,
            depth,
        ),
    decreases entries,
{
    if entries.len() > 0 {
        lemma_retained_bridge(entries.drop_last(), cfg, depth);
        let rest = kept_dirs_of(entries.drop_last(), cfg);
        lemma_kept_dirs_elems(entries.drop_last(), cfg);
        assert forall|k: int| 0 <= k < rest.len() implies (#[trigger] rest[k]).0 == rest[k].0
            && dir_retained(entries.drop_last(), cfg, depth, rest[k]) == dir_retained(
            entries,
            cfg,
            depth,
            rest[k],
        ) by {
            let p = rest[k];
            assert(entries.drop_last()[p.1 as int] == entries[p.1 as int]);
        }
        lemma_retained_names_pairwise(rest, rest, entries.drop_last(), entries, cfg, depth);
        match entries.last() {
            FsEntry::File { .. } => (),
            FsEntry::Dir { name, entries: sub } => {
                if dir_kept(name@, cfg) {
                    assert(kept_dirs_of(entries, cfg) == rest.push(
                        (name, (entries.len() - 1) as usize),
                    ));
                    assert(kept_dirs_of(entries, cfg).drop_last() =~= rest);
                    assert(entries[entries.len() - 1] == entries.last());
                    assert(child_entries(entries[entries.len() - 1]) == sub@);
                }
            },
        }
    }
}

/// Splitting a listing splits every census quantity.
proof fn lemma_census_concat(a: Seq<FsEntry>, b: Seq<FsEntry>, cfg: FilterConfig, depth: nat)
    ensures
        kept_files_of(a + b, cfg) == kept_files_of(a, cfg) + kept_files_of(b, cfg),
        total_kept_files(a + b, cfg, depth) == total_kept_files(a, cfg, depth) + total_kept_files(
            b,
            cfg,
            depth,
        ),
        total_kept_size(a + b, cfg, depth) == total_kept_size(a, cfg, depth) + total_kept_size(
            b,
            cfg,
            depth,
        ),
        retained_names_ents(a + b, cfg, depth) == retained_names_ents(a, cfg, depth)
            + retained_names_ents(b, cfg, depth),
    decreases b.len(),
{
    if b.len() == 0 {
        assert(a + b =~= a);
        assert(kept_files_of(b, cfg) =~= Seq::<(String, u64)>::empty());
        assert(retained_names_ents(b, cfg, depth) =~= Seq::<Seq<char>>::empty());
        assert(kept_files_of(a, cfg) + kept_files_of(b, cfg) =~= kept_files_of(a, cfg));
        assert(retained_names_ents(a, cfg, depth) + retained_names_ents(b, cfg, depth)
            =~= retained_names_ents(a, cfg, depth));
    } else {
        lemma_census_concat(a, b.drop_last(), cfg, depth);
        assert((a + b).drop_last() =~= a + b.drop_last());
        assert((a + b).last() == b.last());
        match b.last() {
            FsEntry::File { name, size } => {
                if file_kept(name@, size, cfg) {
                    assert(kept_files_of(a + b, cfg) =~= kept_files_of(a, cfg) + kept_files_of(
                        b,
                        cfg,
                    ));
                }
            },
            FsEntry::Dir { name, entries: sub } => {
                if dir_kept(name@, cfg) && may_recurse(cfg, depth) && total_kept_files(
                    sub@,
                    cfg,
                    next_depth(cfg, depth),
                ) > 0 {
                    assert(retained_names_ents(a + b, cfg, depth) =~= retained_names_ents(
                        a,
                        cfg,
                        depth,
                    ) + retained_names_ents(b, cfg, depth));
                }
            },
        }
    }
}

/// Sums of kept sizes split the same way.
proof fn lemma_sizes_concat(x: Seq<(String, u64)>, y: Seq<(String, u64)>)
    ensures
        kept_sizes_sum(x + y) == kept_sizes_sum(x) + kept_sizes_sum(y),
    decreases y.len(),
{
    if y.len() == 0 {
        assert(x + y =~= x);
    } else {
        lemma_sizes_concat(x, y.drop_last());
        assert((x + y).drop_last() =~= x + y.drop_last());
        assert((x + y).last() == y.last());
    }
}

/// Listings holding the same entries keep the same files, bytes and
/// retained names, whatever their order.
proof fn lemma_census_perm(e1: Seq<FsEntry>, e2: Seq<FsEntry>, cfg: FilterConfig, depth: nat)
    requires
        e1.to_multiset() == e2.to_multiset(),
    ensures
        kept_files_of(e1, cfg).to_multiset() == kept_files_of(e2, cfg).to_multiset(),
        kept_sizes_sum(kept_files_of(e1, cfg)) == kept_sizes_sum(kept_files_of(e2, cfg)),
        total_kept_files(e1, cfg, depth) == total_kept_files(e2, cfg, depth),
        total_kept_size(e1, cfg, depth) == total_kept_size(e2, cfg, depth),
        retained_names_ents(e1, cfg, depth).to_multiset() == retained_names_ents(
            e2,
            cfg,
            depth,
        ).to_multiset(),
    decreases e1.len(),
{
    vstd::seq_lib::to_multiset_len(e1);
    vstd::seq_lib::to_multiset_len(e2);
    if e1.len() == 0 {
        assert(e2.len() == 0);
        assert(e2 =~= Seq::<FsEntry>::empty());
        assert(e1 =~= Seq::<FsEntry>::empty());
    } else {
        let x = e1.last();
        assert(e1.contains(x));
        assert(e1.to_multiset().count(x) > 0);
        assert(e2.contains(x));
        let j = choose|j: int| 0 <= j < e2.len() && e2[j] == x;
        let dl = e1.drop_last();
        let head = e2.subrange(0, j);
        let tail = e2.subrange(j + 1, e2.len() as int);
        let one = seq![x];
        assert(e2 =~= head + (one + tail));
        assert(e2.remove(j) =~= head + tail);
        assert(dl =~= e1.remove(e1.len() - 1));
        assert(e1.remove(e1.len() - 1).to_multiset() == e1.to_multiset().remove(x));
        assert(e2.remove(j).to_multiset() == e2.to_multiset().remove(x));
        lemma_census_perm(dl, e2.remove(j), cfg, depth);
        // split both listings around the shared entry
        lemma_census_concat(one, tail, cfg, depth);
        lemma_census_concat(head, one + tail, cfg, depth);
        lemma_census_concat(head, tail, cfg, depth);
        assert(e1 =~= dl + one);
        lemma_census_concat(dl, one, cfg, depth);
        lemma_sizes_concat(kept_files_of(one, cfg), kept_files_of(tail, cfg));
        lemma_sizes_concat(kept_files_of(head, cfg), kept_files_of(one + tail, cfg));
        lemma_sizes_concat(kept_files_of(head, cfg), kept_files_of(tail, cfg));
        lemma_sizes_concat(kept_files_of(dl, cfg), kept_files_of(one, cfg));
        // the multisets rearrange freely
        assert(kept_files_of(e1, cfg).to_multiset() =~= kept_files_of(e2, cfg).to_multiset());
        assert(retained_names_ents(e1, cfg, depth).to_multiset() =~= retained_names_ents(
            e2,
            cfg,
            depth,
        ).to_multiset());
    }
}

/// Every kept directory entry is listed in the kept-directory pairs.
proof fn lemma_kept_dirs_complete(entries: Seq<FsEntry>, cfg: FilterConfig, j: int)
    requires
        entries.len() <= usize::MAX,
        0 <= j < entries.len(),
        entries[j] is Dir,
        dir_kept(entry_name(entries[j]), cfg),
    ensures
        exists|k: int|
            0 <= k < kept_dirs_of(entries, cfg).len() && #[trigger] kept_dirs_of(entries, cfg)[k]
                == (entry_name_string(entries[j]), j as usize),
    decreases entries,
{
    let rest = kept_dirs_of(entries.drop_last(), cfg);
    if j == entries.len() - 1 {
        assert(entries.last() == entries[j]);
        match entries.last() {
            FsEntry::Dir { name, .. } => {
                assert(kept_dirs_of(entries, cfg) == rest.push((name, (entries.len() - 1) as usize)));
                assert(kept_dirs_of(entries, cfg)[rest.len() as int] == (
                    entry_name_string(entries[j]),
                    j as usize,
                ));
            },
            FsEntry::File { .. } => (),
        }
    } else {
        assert(entries.drop_last()[j] == entries[j]);
        lemma_kept_dirs_complete(entries.drop_last(), cfg, j);
        let k = choose|k: int|
            0 <= k < rest.len() && #[trigger] rest[k] == (
                entry_name_string(entries.drop_last()[j]),
                j as usize,
            );
        assert(kept_dirs_of(entries, cfg)[k] == rest[k]);
    }
}

/// The order of a listing never matters to the build.
proof fn lemma_perm_build(
    path: Seq<char>,
    e1: Seq<FsEntry>,
    e2: Seq<FsEntry>,
    cfg: FilterConfig,
    depth: nat,
    r: Option<TreeNode>,
)
    requires
        e1.to_multiset() == e2.to_multiset(),
        e1.len() <= usize::MAX,
        build_ok(path, e1, cfg, depth, r),
    ensures
        build_ok(path, e2, cfg, depth, r),
{
    vstd::seq_lib::to_multiset_len(e1);
    vstd::seq_lib::to_multiset_len(e2);
    lemma_census_perm(e1, e2, cfg, depth);
    vstd::seq_lib::to_multiset_len(kept_files_of(e1, cfg));
    vstd::seq_lib::to_multiset_len(kept_files_of(e2, cfg));
    lemma_retained_bridge(e1, cfg, depth);
    lemma_retained_bridge(e2, cfg, depth);
    match r {
        Option::None => (),
        Option::Some(node) => {
            lemma_kept_dirs_elems(e1, cfg);
            assert forall|t: int| 0 <= t < node_dirs(node).len() implies exists|k: int|
                0 <= k < kept_dirs_of(e2, cfg).len() && child_pair_ok(
                    path,
                    e2,
                    cfg,
                    depth,
                    kept_dirs_of(e2, cfg)[k],
                    #[trigger] node_dirs(node)[t],
                ) by {
                let k = choose|k: int|
                    0 <= k < kept_dirs_of(e1, cfg).len() && child_pair_ok(
                        path,
                        e1,
                        cfg,
                        depth,
                        kept_dirs_of(e1, cfg)[k],
                        node_dirs(node)[t],
                    );
                let p = kept_dirs_of(e1, cfg)[k];
                let x = e1[p.1 as int];
                assert(x is Dir && entry_name_string(x) == p.0 && dir_kept(p.0@, cfg));
                assert(e1.contains(x));
                assert(e1.to_multiset().count(x) > 0);
                assert(e2.contains(x));
                let j = choose|j: int| 0 <= j < e2.len() && e2[j] == x;
                assert(entry_name(e2[j]) == p.0@);
                lemma_kept_dirs_complete(e2, cfg, j);
                let k2 = choose|k2: int|
                    0 <= k2 < kept_dirs_of(e2, cfg).len() && #[trigger] kept_dirs_of(e2, cfg)[k2]
                        == (entry_name_string(e2[j]), j as usize);
                assert(child_entries(e2[j]) == child_entries(e1[p.1 as int]));
                assert(child_pair_ok(
                    path,
                    e2,
                    cfg,
                    depth,
                    kept_dirs_of(e2, cfg)[k2],
                    node_dirs(node)[t],
                ));
            }
        },
    }
}

/// Law: the order in which a directory's entries are listed never matters.
/// Two listings holding the same entries, in any order, admit exactly the
/// same built trees: the sorted children and all statistics are determined
/// by what is listed, not by how the filesystem returned it.
pub proof fn lemma_listing_order_inert(
    path: Seq<char>,
    e1: Seq<FsEntry>,
    e2: Seq<FsEntry>,
    cfg: FilterConfig,
    depth: nat,
    r: Option<TreeNode>,
)
    requires
        e1.to_multiset() == e2.to_multiset(),
        e1.len() <= usize::MAX,
    ensures
        build_ok(path, e1, cfg, depth, r) == build_ok(path, e2, cfg, depth, r),
{
    vstd::seq_lib::to_multiset_len(e1);
    vstd::seq_lib::to_multiset_len(e2);
    if build_ok(path, e1, cfg, depth, r) {
        lemma_perm_build(path, e1, e2, cfg, depth, r);
    }
    if build_ok(path, e2, cfg, depth, r) {
        lemma_perm_build(path, e2, e1, cfg, depth, r);
    }
}

proof fn lemma_drops_build(
    path: Seq<char>,
    e1: Seq<FsEntry>,
    e2: Seq<FsEntry>,
    cfg: FilterConfig,
    depth: nat,
    r: Option<TreeNode>,
)
    requires
        drops_skipped_dirs(e1, e2, cfg),
    ensures
        build_ok(path, e1, cfg, depth, r) == build_ok(path, e2, cfg, depth, r),
    decreases e1,
{
    lemma_drops_totals(e1, e2, cfg, depth);
    lemma_drops_kept(e1, e2, cfg);
    match r {
        Option::None => (),
        Option::Some(node) => {
            let pairs1 = kept_dirs_of(e1, cfg);
            let pairs2 = kept_dirs_of(e2, cfg);
            assert forall|k: int| 0 <= k < pairs1.len() implies (#[trigger] pairs1[k]).0
                == pairs2[k].0 && dir_retained(e1, cfg, depth, pairs1[k]) == dir_retained(
                e2,
                cfg,
                depth,
                pairs2[k],
            ) by {
                let p = pairs1[k];
                let q = pairs2[k];
                lemma_drops_totals(
                    child_entries(e1[p.1 as int]),
                    child_entries(e2[q.1 as int]),
                    cfg,
                    next_depth(cfg, depth),
                );
            }
            lemma_retained_names_pairwise(pairs1, pairs2, e1, e2, cfg, depth);
            assert forall|t: int| 0 <= t < node_dirs(node).len() && build_ok(
                path,
                e1,
                cfg,
                depth,
                r,
            ) implies exists|k: int|
                0 <= k < pairs2.len() && child_pair_ok(
                    path,
                    e2,
                    cfg,
                    depth,
                    pairs2[k],
                    #[trigger] node_dirs(node)[t],
                ) by {
                let k = choose|k: int|
                    0 <= k < pairs1.len() && child_pair_ok(
                        path,
                        e1,
                        cfg,
                        depth,
                        pairs1[k],
                        node_dirs(node)[t],
                    );
                let p = pairs1[k];
                let q = pairs2[k];
                lemma_drops_build(
                    path_join_spec(path, p.0@),
                    child_entries(e1[p.1 as int]),
                    child_entries(e2[q.1 as int]),
                    cfg,
                    next_depth(cfg, depth),
                    Some(node_dirs(node)[t]),
                );
                assert(child_pair_ok(path, e2, cfg, depth, pairs2[k], node_dirs(node)[t]));
            }
            assert forall|t: int| 0 <= t < node_dirs(node).len() && build_ok(
                path,
                e2,
                cfg,
                depth,
                r,
            ) implies exists|k: int|
                0 <= k < pairs1.len() && child_pair_ok(
                    path,
                    e1,
                    cfg,
                    depth,
                    pairs1[k],
                    #[trigger] node_dirs(node)[t],
                ) by {
                let k = choose|k: int|
                    0 <= k < pairs2.len() && child_pair_ok(
                        path,
                        e2,
                        cfg,
                        depth,
                        pairs2[k],
                        node_dirs(node)[t],
                    );
                let p = pairs1[k];
                let q = pairs2[k];
                lemma_drops_build(
                    path_join_spec(path, p.0@),
                    child_entries(e1[p.1 as int]),
                    child_entries(e2[q.1 as int]),
                    cfg,
                    next_depth(cfg, depth),
                    Some(node_dirs(node)[t]),
                );
                assert(child_pair_ok(path, e1, cfg, depth, pairs1[k], node_dirs(node)[t]));
            }
        },
    }
}

/// Law: a skipped directory behaves as if deleted. A listing and its
/// cleaned copy — every hidden or ignored directory removed with all its
/// contents — admit exactly the same built trees.
pub proof fn lemma_skipped_dirs_deleted(
    path: Seq<char>,
    e1: Seq<FsEntry>,
    e2: Seq<FsEntry>,
    cfg: FilterConfig,
    depth: nat,
    r: Option<TreeNode>,
)
    requires
        drops_skipped_dirs(e1, e2, cfg),
    ensures
        build_ok(path, e1, cfg, depth, r) == build_ok(path, e2, cfg, depth, r),
{
    lemma_drops_build(path, e1, e2, cfg, depth, r);
}

/// Law: a skipped directory is skipped entirely. Two listings that agree
/// except inside hidden or ignored directories — whose contents may differ
/// arbitrarily — admit exactly the same built trees, so nothing below a
/// skipped directory is ever visited or counted.
pub proof fn lemma_skipped_dirs_inert(
    path: Seq<char>,
    e1: Seq<FsEntry>,
    e2: Seq<FsEntry>,
    cfg: FilterConfig,
    depth: nat,
    r: Option<TreeNode>,
)
    requires
        agree_outside_skipped(e1, e2, cfg),
    ensures
        build_ok(path, e1, cfg, depth, r) == build_ok(path, e2, cfg, depth, r),
{
    if build_ok(path, e1, cfg, depth, r) {
        lemma_agree_build(path, e1, e2, cfg, depth, r);
    }
    if build_ok(path, e2, cfg, depth, r) {
        lemma_agree_symmetric(e1, e2, cfg);
        lemma_agree_build(path, e2, e1, cfg, depth, r);
    }
}

/// A subtree that keeps no file holds no kept bytes either.
proof fn lemma_total_size_zero(entries: Seq<FsEntry>, cfg: FilterConfig, depth: nat)
    requires
        total_kept_files(entries, cfg, depth) == 0,
    ensures
        total_kept_size(entries, cfg, depth) == 0,
    decreases entries,
{
    if entries.len() > 0 {
        lemma_total_bounds(entries.drop_last(), cfg, depth);
        match entries.last() {
            FsEntry::File { .. } => {
                lemma_total_bounds(entries.drop_last(), cfg, depth);
                lemma_total_size_zero(entries.drop_last(), cfg, depth);
            },
            FsEntry::Dir { name, entries: sub } => {
                if dir_kept(name@, cfg) && may_recurse(cfg, depth) {
                    lemma_total_bounds(sub@, cfg, next_depth(cfg, depth));
                    lemma_total_size_zero(entries.drop_last(), cfg, depth);
                    lemma_total_size_zero(sub@, cfg, next_depth(cfg, depth));
                } else {
                    lemma_total_size_zero(entries.drop_last(), cfg, depth);
                }
            },
        }
    }
}

} // verus!
