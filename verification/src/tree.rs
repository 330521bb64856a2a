//! The `tree` command: objects under a bucket or prefix shown as a tree.

use vstd::prelude::*;

use crate::exit_code::{ExitCode, Failure};
use crate::remote_path::{cut3, lemma_split3_join, split3, view_result_opt3};
use crate::pattern::{glob_matches, NamePattern};
use crate::size_text::{binary_size_text, human_size};
use crate::text::{
    chars_of, clone_opt_text, compare_text, count_char, ends_with_char, lemma_leading_count_at,
    lemma_lex_irreflexive, lemma_lex_transitive, lemma_split_all_len, lemma_split_once_join,
    lemma_split_once_none, lex_lt, opt_text, decimal, lemma_first_pos, lemma_split_all_concat,
    lemma_join_split, join, lemma_leading_count, leading_count,
    split_all, split_text, strip_prefix, substring, text_ends_with, texts, trim_start, TextOrder,
};
use vstd::string::*;

verus! {

/// Message for an empty path argument.
pub open spec fn msg_empty_path() -> Seq<char> {
    "Path cannot be empty"@
}

/// Message for a path that names no bucket.
pub open spec fn msg_bucket_required() -> Seq<char> {
    "Bucket name is required"@
}

/// What parsing `alias/bucket[/prefix]` gives: alias, bucket and the prefix
/// when there is one (the prefix keeps any further `/` and may be empty), or
/// the message that says why the path is not of that form.
pub open spec fn prefixed_path_result(s: Seq<char>) -> Result<
    (Seq<char>, Seq<char>, Option<Seq<char>>),
    Seq<char>,
> {
    let p = split3(s);
    if s.len() == 0 {
        Err(msg_empty_path())
    } else if p.len() == 1 {
        Err(msg_bucket_required())
    } else if p.len() == 2 {
        Ok((p[0], p[1], None))
    } else {
        Ok((p[0], p[1], Some(p[2])))
    }
}

/// Splits `alias/bucket[/prefix]` into alias, bucket and optional prefix.
pub fn parse_prefixed_path(path: &str) -> (result: Result<(String, String, Option<String>), String>)
    ensures
        view_result_opt3(result) == prefixed_path_result(path@),
{
    if path.is_empty() {
        return Err("Path cannot be empty".to_owned());
    }
    let chars = crate::text::chars_of(path);
    let n = chars.len();
    let cut = cut3(path, &chars);
    if cut.first == n {
        Err("Bucket name is required".to_owned())
    } else if cut.second == n {
        Ok((substring(path, 0, cut.first), substring(path, cut.first + 1, n), None))
    } else {
        Ok((
            substring(path, 0, cut.first),
            substring(path, cut.first + 1, cut.second),
            Some(substring(path, cut.second + 1, n)),
        ))
    }
}

/// Splits the tree command's path `alias/bucket[/prefix]`.
pub fn parse_tree_path(path: &str) -> (result: Result<(String, String, Option<String>), String>)
    ensures
        view_result_opt3(result) == prefixed_path_result(path@),
{
    parse_prefixed_path(path)
}


// ---------------------------------------------------------------------------
// Arguments and listed objects
// ---------------------------------------------------------------------------

/// Arguments of the tree command.
pub struct TreeArgs {
    /// Path to display (alias/bucket[/prefix]).
    pub path: String,
    /// Maximum depth to display.
    pub level: usize,
    /// Show file sizes.
    pub size: bool,
    /// Show only directories.
    pub dirs_only: bool,
    /// Pattern that file names must match (glob-style).
    pub pattern: Option<String>,
    /// Show the full path as the root's name.
    pub full_path: bool,
}

/// What the tree reads of a listed object.
pub struct ObjectInfo {
    pub key: String,
    pub is_dir: bool,
    pub size_bytes: Option<i64>,
    pub size_human: Option<String>,
}

/// Counts gathered while the tree is built.
pub struct TreeStats {
    pub dirs: usize,
    pub files: usize,
    pub total_size: i64,
}

/// A node of the tree under construction; `children` is kept sorted by name.
pub struct TreeNode {
    pub name: String,
    pub children: Vec<TreeNode>,
    pub size_bytes: Option<i64>,
    pub size_human: Option<String>,
    pub is_dir: bool,
}

// ---------------------------------------------------------------------------
// Model of the tree
// ---------------------------------------------------------------------------

/// A node of the tree as a value: its attributes and its children by name.
pub struct NodeModel {
    pub is_dir: bool,
    pub size_bytes: Option<i64>,
    pub size_human: Option<Seq<char>>,
    pub children: Map<Seq<char>, NodeModel>,
}

/// Counts as unbounded integers.
pub struct StatsModel {
    pub dirs: int,
    pub files: int,
    pub total: int,
}

/// The counts of `s`.
pub open spec fn stats_model(s: TreeStats) -> StatsModel {
    StatsModel { dirs: s.dirs as int, files: s.files as int, total: s.total_size as int }
}

/// Whether counts fit the machine types that hold them.
pub open spec fn stats_fit(m: StatsModel) -> bool {
    &&& 0 <= m.dirs <= usize::MAX
    &&& 0 <= m.files <= usize::MAX
    &&& i64::MIN <= m.total <= i64::MAX
}

/// The value of a node.
pub open spec fn node_model(n: TreeNode) -> NodeModel
    decreases n,
{
    NodeModel {
        is_dir: n.is_dir,
        size_bytes: n.size_bytes,
        size_human: opt_text(n.size_human),
        children: forest_model(n.children@),
    }
}

/// The nodes of `v` by name (a later node wins over an earlier one of the same name).
pub open spec fn forest_model(v: Seq<TreeNode>) -> Map<Seq<char>, NodeModel>
    decreases v,
{
    if v.len() == 0 {
        Map::empty()
    } else {
        forest_model(v.drop_last()).insert(v.last().name@, node_model(v.last()))
    }
}

/// The names of `v` strictly increase.
pub open spec fn names_sorted(v: Seq<TreeNode>) -> bool {
    forall|i: int, j: int| 0 <= i < j < v.len() ==> lex_lt(v[i].name@, v[j].name@)
}

/// Every level of the forest `v` is sorted by name.
pub open spec fn forest_wf(v: Seq<TreeNode>) -> bool
    decreases v,
{
    &&& names_sorted(v)
    &&& forall|i: int| 0 <= i < v.len() ==> forest_wf(#[trigger] v[i].children@)
}

/// The leaf that an object becomes under the name `name`.
pub open spec fn leaf_model(name: Seq<char>, obj: ObjectInfo) -> NodeModel {
    NodeModel {
        is_dir: obj.is_dir || ends_with_char(name, '/'),
        size_bytes: obj.size_bytes,
        size_human: opt_text(obj.size_human),
        children: Map::empty(),
    }
}

/// A directory created on the way to a deeper entry.
pub open spec fn dir_model() -> NodeModel {
    NodeModel { is_dir: true, size_bytes: None, size_human: None, children: Map::empty() }
}

/// The forest `m` after `obj` is placed at the path `parts`: each part but
/// the last names a directory, found or created; the last names the leaf,
/// which replaces whatever had that name.
pub open spec fn insert_model(
    m: Map<Seq<char>, NodeModel>,
    parts: Seq<Seq<char>>,
    obj: ObjectInfo,
) -> Map<Seq<char>, NodeModel>
    decreases parts.len(),
{
    if parts.len() == 0 {
        m
    } else if parts.len() == 1 {
        m.insert(parts[0], leaf_model(parts[0], obj))
    } else {
        let existing = if m.contains_key(parts[0]) {
            m[parts[0]]
        } else {
            dir_model()
        };
        m.insert(
            parts[0],
            NodeModel {
                is_dir: existing.is_dir,
                size_bytes: existing.size_bytes,
                size_human: existing.size_human,
                children: insert_model(existing.children, parts.drop_first(), obj),
            },
        )
    }
}

/// The counts after the leaf `name` of `obj` is placed: one directory more,
/// or one file more with its size added to the total.
pub open spec fn leaf_stats(name: Seq<char>, obj: ObjectInfo, st: StatsModel) -> StatsModel {
    if leaf_model(name, obj).is_dir {
        StatsModel { dirs: st.dirs + 1, ..st }
    } else {
        StatsModel {
            files: st.files + 1,
            total: st.total + match obj.size_bytes {
                Some(n) => n as int,
                None => 0,
            },
            ..st
        }
    }
}

/// The counts after `obj` is placed at `parts` in `m`: one directory for each
/// directory created on the way, then one directory or one file for the leaf,
/// a file adding its size to the total.
pub open spec fn insert_stats(
    m: Map<Seq<char>, NodeModel>,
    parts: Seq<Seq<char>>,
    obj: ObjectInfo,
    st: StatsModel,
) -> StatsModel
    decreases parts.len(),
{
    if parts.len() == 0 {
        st
    } else if parts.len() == 1 {
        leaf_stats(parts[0], obj, st)
    } else if m.contains_key(parts[0]) {
        insert_stats(m[parts[0]].children, parts.drop_first(), obj, st)
    } else {
        insert_stats(dir_model().children, parts.drop_first(), obj, StatsModel { dirs: st.dirs + 1, ..st })
    }
}

// ---------------------------------------------------------------------------
// Lemmas on the model
// ---------------------------------------------------------------------------

/// Placing an entry never lowers the directory or file counts, and the total
/// changes only by the leaf's size.
pub proof fn lemma_insert_stats_grow(
    m: Map<Seq<char>, NodeModel>,
    parts: Seq<Seq<char>>,
    obj: ObjectInfo,
    st: StatsModel,
)
    ensures
        insert_stats(m, parts, obj, st).dirs >= st.dirs,
        insert_stats(m, parts, obj, st).files >= st.files,
    decreases parts.len(),
{
    if parts.len() > 1 {
        if m.contains_key(parts[0]) {
            lemma_insert_stats_grow(m[parts[0]].children, parts.drop_first(), obj, st);
        } else {
            lemma_insert_stats_grow(
                dir_model().children,
                parts.drop_first(),
                obj,
                StatsModel { dirs: st.dirs + 1, ..st },
            );
        }
    }
}

/// In a forest with distinct names, each node is found under its name and
/// every name belongs to a node.
pub proof fn lemma_forest_model(v: Seq<TreeNode>)
    requires
        names_sorted(v),
    ensures
        forall|i: int|
            0 <= i < v.len() ==> #[trigger] forest_model(v).contains_key(v[i].name@)
                && forest_model(v)[v[i].name@] == node_model(v[i]),
        forall|k: Seq<char>|
            #[trigger] forest_model(v).contains_key(k) ==> exists|i: int|
                0 <= i < v.len() && v[i].name@ == k,
    decreases v.len(),
{
    if v.len() > 0 {
        let w = v.drop_last();
        assert(names_sorted(w)) by {
            assert forall|i: int, j: int| 0 <= i < j < w.len() implies lex_lt(
                w[i].name@,
                w[j].name@,
            ) by {
                assert(w[i] == v[i] && w[j] == v[j]);
            }
        }
        lemma_forest_model(w);
        let last = v.last();
        assert forall|i: int| 0 <= i < v.len() implies #[trigger] forest_model(v).contains_key(
            v[i].name@,
        ) && forest_model(v)[v[i].name@] == node_model(v[i]) by {
            if i < v.len() - 1 {
                assert(w[i] == v[i]);
                assert(lex_lt(v[i].name@, v[v.len() - 1].name@));
                lemma_lex_irreflexive(v[i].name@);
            }
        }
        assert forall|k: Seq<char>| #[trigger] forest_model(v).contains_key(k) implies exists|i: int|
            0 <= i < v.len() && v[i].name@ == k by {
            if k != last.name@ {
                assert(forest_model(w).contains_key(k));
                let i = choose|i: int| 0 <= i < w.len() && w[i].name@ == k;
                assert(v[i] == w[i]);
            } else {
                assert(v[v.len() - 1].name@ == k);
            }
        }
    }
}

/// Putting `x` at `pos` of a sorted forest (over a node of the same name, or
/// between smaller and larger names) adds `x` under its name.
pub proof fn lemma_forest_model_put(old: Seq<TreeNode>, new: Seq<TreeNode>, pos: int, x: TreeNode, replaced: bool)
    requires
        names_sorted(old),
        names_sorted(new),
        replaced ==> 0 <= pos < old.len() && old[pos].name@ == x.name@ && new == old.update(pos, x),
        !replaced ==> 0 <= pos <= old.len() && new == old.insert(pos, x) && forall|i: int|
            0 <= i < old.len() ==> old[i].name@ != x.name@,
    ensures
        forest_model(new) == forest_model(old).insert(x.name@, node_model(x)),
{
    lemma_forest_model(old);
    lemma_forest_model(new);
    let a = forest_model(new);
    let b = forest_model(old).insert(x.name@, node_model(x));
    assert(new[pos] == x);
    assert forall|k: Seq<char>| a.contains_key(k) <==> b.contains_key(k) by {
        if a.contains_key(k) {
            let i = choose|i: int| 0 <= i < new.len() && new[i].name@ == k;
            if k != x.name@ {
                let j = if replaced { i } else if i < pos { i } else { i - 1 };
                assert(old[j] == new[i]);
                assert(forest_model(old).contains_key(old[j].name@));
            }
        }
        if b.contains_key(k) && k != x.name@ {
            assert(forest_model(old).contains_key(k));
            let j = choose|j: int| 0 <= j < old.len() && old[j].name@ == k;
            let i = if replaced { j } else if j < pos { j } else { j + 1 };
            assert(new[i] == old[j]);
            assert(a.contains_key(new[i].name@));
        }
    }
    assert forall|k: Seq<char>| a.contains_key(k) implies a[k] == b[k] by {
        let i = choose|i: int| 0 <= i < new.len() && new[i].name@ == k;
        assert(a.contains_key(new[i].name@));
        if k != x.name@ {
            let j = if replaced { i } else if i < pos { i } else { i - 1 };
            if replaced && i == pos {
                assert(false);
            }
            if !replaced && i == pos {
                assert(false);
            }
            assert(old[j] == new[i]);
            assert(forest_model(old).contains_key(old[j].name@));
        } else {
            assert(a.contains_key(new[pos].name@));
            if i != pos {
                if i < pos {
                    assert(lex_lt(new[i].name@, new[pos].name@));
                } else {
                    assert(lex_lt(new[pos].name@, new[i].name@));
                }
                lemma_lex_irreflexive(k);
            }
        }
    }
    assert(a =~= b);
}

// ---------------------------------------------------------------------------
// Building the tree
// ---------------------------------------------------------------------------

/// Where `name` stands in the sorted forest `tree`: its index when present,
/// else the index before which it belongs.
fn find_slot(tree: &Vec<TreeNode>, name: &str) -> (r: (usize, bool))
    requires
        names_sorted(tree@),
    ensures
        r.0 <= tree.len(),
        r.1 ==> r.0 < tree.len() && tree@[r.0 as int].name@ == name@,
        !r.1 ==> (forall|i: int| 0 <= i < r.0 ==> lex_lt(tree@[i].name@, name@)) && (forall|i: int|
            r.0 <= i < tree.len() ==> lex_lt(name@, tree@[i].name@)),
{
    let mut i: usize = 0;
    while i < tree.len()
        invariant
            i <= tree.len(),
            names_sorted(tree@),
            forall|j: int| 0 <= j < i ==> lex_lt(tree@[j].name@, name@),
        decreases tree.len() - i,
    {
        match compare_text(tree[i].name.as_str(), name) {
            TextOrder::Less => {
                i += 1;
            },
            TextOrder::Equal => {
                return (i, true);
            },
            TextOrder::Greater => {
                proof {
                    assert forall|j: int| i <= j < tree.len() implies lex_lt(name@, tree@[j].name@) by {
                        if j > i {
                            lemma_lex_transitive(name@, tree@[i as int].name@, tree@[j].name@);
                        }
                    }
                }
                return (i, false);
            },
        }
    }
    (i, false)
}

/// Placing an entry where nothing is yet creates every directory on the way
/// and then the leaf.
proof fn lemma_insert_stats_fresh(parts: Seq<Seq<char>>, obj: ObjectInfo, st: StatsModel)
    requires
        parts.len() > 0,
    ensures
        insert_stats(Map::empty(), parts, obj, st) == leaf_stats(
            parts.last(),
            obj,
            StatsModel { dirs: st.dirs + parts.len() - 1, ..st },
        ),
    decreases parts.len(),
{
    if parts.len() > 1 {
        let rest = parts.drop_first();
        assert(rest.last() == parts.last());
        assert(dir_model().children =~= Map::<Seq<char>, NodeModel>::empty());
        lemma_insert_stats_fresh(rest, obj, StatsModel { dirs: st.dirs + 1, ..st });
    }
}

/// Whether the counts still fit their types once `obj` is placed at `parts`
/// in `tree`.
fn placement_fits(tree: &Vec<TreeNode>, parts: &[String], obj: &ObjectInfo, stats: &TreeStats) -> (r: bool)
    requires
        forest_wf(tree@),
    ensures
        r == stats_fit(insert_stats(forest_model(tree@), texts(parts@), *obj, stats_model(*stats))),
{
    let ghost ps = texts(parts@);
    let ghost st = stats_model(*stats);
    let n = parts.len();
    if n == 0 {
        return true;
    }
    let mut cur: &Vec<TreeNode> = tree;
    let mut i: usize = 0;
    proof {
        assert(ps.skip(0) =~= ps);
    }
    while i + 1 < n
        invariant
            n == parts@.len() == ps.len(),
            ps == texts(parts@),
            st == stats_model(*stats),
            i < n,
            forest_wf(cur@),
            insert_stats(forest_model(tree@), ps, *obj, st) == insert_stats(
                forest_model(cur@),
                ps.skip(i as int),
                *obj,
                st,
            ),
        decreases n - i,
    {
        let ghost q = ps.skip(i as int);
        proof {
            assert(q[0] == parts@[i as int]@);
            assert(q.drop_first() =~= ps.skip(i + 1));
            lemma_forest_model(cur@);
        }
        let (pos, found) = find_slot(cur, parts[i].as_str());
        if found {
            proof {
                assert(forest_wf(cur@[pos as int].children@));
            }
            cur = &cur[pos].children;
            i += 1;
        } else {
            proof {
                // The name is absent: every name of the level is ordered
                // strictly before or after it.
                lemma_lex_irreflexive(q[0]);
                assert(!forest_model(cur@).contains_key(q[0]));
                assert(dir_model().children =~= Map::<Seq<char>, NodeModel>::empty());
                assert(insert_stats(forest_model(cur@), q, *obj, st) == insert_stats(
                    Map::<Seq<char>, NodeModel>::empty(),
                    q.drop_first(),
                    *obj,
                    StatsModel { dirs: st.dirs + 1, ..st },
                ));
                lemma_insert_stats_fresh(q.drop_first(), *obj, StatsModel { dirs: st.dirs + 1, ..st });
                assert(q.drop_first().last() == ps.last());
            }
            let extra = n - 1 - i;
            proof {
                assert(ps.last() == parts@[n - 1]@);
                assert(insert_stats(forest_model(tree@), ps, *obj, st) == leaf_stats(
                    ps.last(),
                    *obj,
                    StatsModel { dirs: st.dirs + extra, ..st },
                ));
            }
            return leaf_counts_fit(stats, extra, parts[n - 1].as_str(), obj);
        }
    }
    proof {
        let q = ps.skip(i as int);
        assert(q.len() == 1);
        assert(q[0] == ps.last());
    }
    proof {
        assert(ps.last() == parts@[n - 1]@);
        assert(StatsModel { dirs: stats.dirs + 0, ..st } == st);
    }
    leaf_counts_fit(stats, 0, parts[n - 1].as_str(), obj)
}

/// Whether the counts fit once `extra` directories and then the leaf `name`
/// of `obj` are added.
fn leaf_counts_fit(stats: &TreeStats, extra: usize, name: &str, obj: &ObjectInfo) -> (r: bool)
    ensures
        r == stats_fit(leaf_stats(name@, *obj, StatsModel { dirs: stats.dirs + extra, ..stats_model(*stats) })),
{
    let dirs = match stats.dirs.checked_add(extra) {
        Some(d) => d,
        None => return false,
    };
    if obj.is_dir || text_ends_with(name, '/') {
        dirs.checked_add(1).is_some()
    } else {
        if stats.files.checked_add(1).is_none() {
            return false;
        }
        match obj.size_bytes {
            Some(size) => stats.total_size.checked_add(size).is_some(),
            None => true,
        }
    }
}

/// Places `obj` at the path `parts[from..]` in `tree`, counting what it adds.
fn insert_parts(
    tree: &mut Vec<TreeNode>,
    parts: &[String],
    from: usize,
    obj: &ObjectInfo,
    stats: &mut TreeStats,
)
    requires
        forest_wf(old(tree)@),
        from <= parts@.len(),
        stats_fit(
            insert_stats(
                forest_model(old(tree)@),
                texts(parts@).skip(from as int),
                *obj,
                stats_model(*old(stats)),
            ),
        ),
    ensures
        forest_wf(final(tree)@),
        forest_model(final(tree)@) == insert_model(
            forest_model(old(tree)@),
            texts(parts@).skip(from as int),
            *obj,
        ),
        stats_model(*final(stats)) == insert_stats(
            forest_model(old(tree)@),
            texts(parts@).skip(from as int),
            *obj,
            stats_model(*old(stats)),
        ),
    decreases parts@.len() - from,
{
    let ghost rest = texts(parts@).skip(from as int);
    let ghost m0 = forest_model(tree@);
    let ghost old_tree = tree@;
    if from >= parts.len() {
        return;
    }
    let name = &parts[from];
    proof {
        assert(rest[0] == name@);
        assert(rest.drop_first() =~= texts(parts@).skip(from + 1));
        lemma_forest_model(tree@);
    }
    let (pos, found) = find_slot(tree, name.as_str());
    if from + 1 == parts.len() {
        let is_dir = obj.is_dir || text_ends_with(name.as_str(), '/');
        if is_dir {
            stats.dirs = stats.dirs + 1;
        } else {
            stats.files = stats.files + 1;
            if let Some(size) = obj.size_bytes {
                stats.total_size = stats.total_size + size;
            }
        }
        let leaf = TreeNode {
            name: name.clone(),
            children: Vec::new(),
            size_bytes: obj.size_bytes,
            size_human: clone_opt_text(&obj.size_human),
            is_dir,
        };
        proof {
            assert(forest_model(leaf.children@) =~= Map::empty());
            assert(node_model(leaf) == leaf_model(name@, *obj));
        }
        if found {
            tree.set(pos, leaf);
            proof {
                assert(tree@ == old_tree.update(pos as int, leaf));
                assert(names_sorted(tree@)) by {
                    assert forall|i: int, j: int| 0 <= i < j < tree@.len() implies lex_lt(
                        tree@[i].name@,
                        tree@[j].name@,
                    ) by {
                        assert(tree@[i].name@ == old_tree[i].name@);
                        assert(tree@[j].name@ == old_tree[j].name@);
                    }
                }
                assert forall|i: int| 0 <= i < tree@.len() implies forest_wf(
                    #[trigger] tree@[i].children@,
                ) by {
                    if i != pos {
                        assert(tree@[i] == old_tree[i]);
                    }
                }
                lemma_forest_model_put(old_tree, tree@, pos as int, leaf, true);
            }
        } else {
            tree.insert(pos, leaf);
            proof {
                assert(tree@ == old_tree.insert(pos as int, leaf));
                put_sorted(old_tree, tree@, pos as int, leaf);
                assert forall|i: int| 0 <= i < old_tree.len() implies old_tree[i].name@ != leaf.name@ by {
                    lemma_lex_irreflexive(leaf.name@);
                }
                lemma_forest_model_put(old_tree, tree@, pos as int, leaf, false);
            }
        }
    } else {
        let ghost existing = if m0.contains_key(name@) {
            m0[name@]
        } else {
            dir_model()
        };
        let mut node = if found {
            let n = tree.remove(pos);
            proof {
                assert(n == old_tree[pos as int]);
                assert(existing == node_model(n));
            }
            n
        } else {
            proof {
                assert(!m0.contains_key(name@)) by {
                    if m0.contains_key(name@) {
                        let j = choose|j: int| 0 <= j < old_tree.len() && old_tree[j].name@ == name@;
                        if j < pos {
                            assert(lex_lt(old_tree[j].name@, name@));
                        } else {
                            assert(lex_lt(name@, old_tree[j].name@));
                        }
                        lemma_lex_irreflexive(name@);
                    }
                }
                lemma_insert_stats_grow(
                    dir_model().children,
                    rest.drop_first(),
                    *obj,
                    StatsModel { dirs: stats.dirs + 1, ..stats_model(*stats) },
                );
            }
            stats.dirs = stats.dirs + 1;
            let n = TreeNode {
                name: name.clone(),
                children: Vec::new(),
                size_bytes: None,
                size_human: None,
                is_dir: true,
            };
            proof {
                assert(forest_model(n.children@) =~= Map::empty());
                assert(node_model(n) == dir_model());
            }
            n
        };
        proof {
            if found {
                assert(forest_wf(old_tree[pos as int].children@));
            }
        }
        insert_parts(&mut node.children, parts, from + 1, obj, stats);
        tree.insert(pos, node);
        proof {
            assert(node_model(node) == NodeModel {
                is_dir: existing.is_dir,
                size_bytes: existing.size_bytes,
                size_human: existing.size_human,
                children: insert_model(existing.children, rest.drop_first(), *obj),
            });
            if found {
                assert(tree@ =~= old_tree.update(pos as int, node));
                assert(names_sorted(tree@)) by {
                    assert forall|i: int, j: int| 0 <= i < j < tree@.len() implies lex_lt(
                        tree@[i].name@,
                        tree@[j].name@,
                    ) by {
                        assert(tree@[i].name@ == old_tree[i].name@);
                        assert(tree@[j].name@ == old_tree[j].name@);
                    }
                }
                assert forall|i: int| 0 <= i < tree@.len() implies forest_wf(
                    #[trigger] tree@[i].children@,
                ) by {
                    if i != pos {
                        assert(tree@[i] == old_tree[i]);
                    }
                }
                lemma_forest_model_put(old_tree, tree@, pos as int, node, true);
            } else {
                assert(tree@ == old_tree.insert(pos as int, node));
                put_sorted(old_tree, tree@, pos as int, node);
                assert forall|i: int| 0 <= i < old_tree.len() implies old_tree[i].name@ != node.name@ by {
                    lemma_lex_irreflexive(node.name@);
                }
                lemma_forest_model_put(old_tree, tree@, pos as int, node, false);
            }
        }
    }
}

/// Inserting a well-formed node between smaller and larger names keeps the
/// forest well formed.
proof fn put_sorted(old: Seq<TreeNode>, new: Seq<TreeNode>, pos: int, x: TreeNode)
    requires
        forest_wf(old),
        forest_wf(x.children@),
        0 <= pos <= old.len(),
        new == old.insert(pos, x),
        forall|i: int| 0 <= i < pos ==> lex_lt(old[i].name@, x.name@),
        forall|i: int| pos <= i < old.len() ==> lex_lt(x.name@, old[i].name@),
    ensures
        forest_wf(new),
{
    assert forall|i: int, j: int| 0 <= i < j < new.len() implies lex_lt(new[i].name@, new[j].name@) by {
        if j < pos {
            assert(new[i] == old[i] && new[j] == old[j]);
        } else if j == pos {
            assert(new[i] == old[i]);
        } else if i < pos {
            assert(new[i] == old[i] && new[j] == old[j - 1]);
            lemma_lex_transitive(old[i].name@, x.name@, old[j - 1].name@);
        } else if i == pos {
            assert(new[j] == old[j - 1]);
        } else {
            assert(new[i] == old[i - 1] && new[j] == old[j - 1]);
        }
    }
    assert forall|i: int| 0 <= i < new.len() implies forest_wf(#[trigger] new[i].children@) by {
        if i < pos {
            assert(new[i] == old[i]);
        } else if i > pos {
            assert(new[i] == old[i - 1]);
        }
    }
}

/// Places `obj` in `tree` at the path `parts`: the directories on the way
/// are found or created, and the last part becomes a leaf that replaces any
/// node of that name. `stats` counts created directories and the leaf.
pub fn insert_into_tree(tree: &mut Vec<TreeNode>, parts: &[String], obj: &ObjectInfo, stats: &mut TreeStats)
    requires
        forest_wf(old(tree)@),
        stats_fit(insert_stats(forest_model(old(tree)@), texts(parts@), *obj, stats_model(*old(stats)))),
    ensures
        forest_wf(final(tree)@),
        forest_model(final(tree)@) == insert_model(forest_model(old(tree)@), texts(parts@), *obj),
        stats_model(*final(stats)) == insert_stats(
            forest_model(old(tree)@),
            texts(parts@),
            *obj,
            stats_model(*old(stats)),
        ),
{
    proof {
        assert(texts(parts@).skip(0) =~= texts(parts@));
    }
    insert_parts(tree, parts, 0, obj, stats);
}


// ---------------------------------------------------------------------------
// Which objects enter the tree
// ---------------------------------------------------------------------------

/// The key of an object below the listed prefix: the prefix is cut off when
/// the key starts with it, then leading `/` are dropped.
pub open spec fn relative_key(key: Seq<char>, base: Seq<char>) -> Seq<char> {
    let r = match strip_prefix(key, base) {
        Some(r) => r,
        None => key,
    };
    trim_start(r, '/')
}

/// The text of an optional pattern.
pub open spec fn pattern_text(p: Option<&NamePattern>) -> Option<Seq<char>> {
    match p {
        Some(p) => Some(p.source_text()),
        None => None,
    }
}

/// The path at which an object enters the tree, or `None` when it is left
/// out: its relative key is empty, its file name (the piece after the last
/// `/`) does not match the pattern, only directories are shown and it is a
/// file, or it lies deeper than the level limit (one more than its `/` count).
pub open spec fn entry_path(
    obj: ObjectInfo,
    base: Seq<char>,
    args: TreeArgs,
    pattern: Option<Seq<char>>,
) -> Option<Seq<Seq<char>>> {
    let rel = relative_key(obj.key@, base);
    let parts = split_all(rel, '/');
    if rel.len() == 0 {
        None
    } else if pattern is Some && !glob_matches(pattern->0, parts.last()) {
        None
    } else if args.dirs_only && !obj.is_dir {
        None
    } else if count_char(rel, '/') + 1 > args.level {
        None
    } else {
        Some(parts)
    }
}

/// The forest built from `objs` in order.
pub open spec fn build_model(
    objs: Seq<ObjectInfo>,
    base: Seq<char>,
    args: TreeArgs,
    pattern: Option<Seq<char>>,
) -> Map<Seq<char>, NodeModel>
    decreases objs.len(),
{
    if objs.len() == 0 {
        Map::empty()
    } else {
        let m = build_model(objs.drop_last(), base, args, pattern);
        match entry_path(objs.last(), base, args, pattern) {
            Some(parts) => insert_model(m, parts, objs.last()),
            None => m,
        }
    }
}

/// The counts gathered while the forest is built from `objs` in order.
pub open spec fn build_stats(
    objs: Seq<ObjectInfo>,
    base: Seq<char>,
    args: TreeArgs,
    pattern: Option<Seq<char>>,
) -> StatsModel
    decreases objs.len(),
{
    if objs.len() == 0 {
        StatsModel { dirs: 0, files: 0, total: 0 }
    } else {
        let st = build_stats(objs.drop_last(), base, args, pattern);
        match entry_path(objs.last(), base, args, pattern) {
            Some(parts) => insert_stats(
                build_model(objs.drop_last(), base, args, pattern),
                parts,
                objs.last(),
                st,
            ),
            None => st,
        }
    }
}

/// The counts stay within their machine types after every object.
pub open spec fn build_fits(
    objs: Seq<ObjectInfo>,
    base: Seq<char>,
    args: TreeArgs,
    pattern: Option<Seq<char>>,
) -> bool {
    forall|k: int| 0 <= k <= objs.len() ==> stats_fit(#[trigger] build_stats(objs.take(k), base, args, pattern))
}

/// The relative key of `obj`, as an owned text.
fn relative_key_of(obj: &ObjectInfo, base_prefix: &str) -> (r: String)
    ensures
        r@ == relative_key(obj.key@, base_prefix@),
{
    let key = chars_of(obj.key.as_str());
    let base = chars_of(base_prefix);
    let n = key.len();
    let mut i: usize = 0;
    while i < base.len() && i < n && key[i] == base[i]
        invariant
            key@ == obj.key@,
            base@ == base_prefix@,
            n == key.len(),
            i <= base.len(),
            i <= n,
            forall|j: int| 0 <= j < i ==> key@[j] == base@[j],
        decreases base.len() - i,
    {
        i += 1;
    }
    let starts = i == base.len();
    proof {
        if !starts {
            if base@.len() <= key@.len() && key@.take(base@.len() as int) == base@ {
                assert(key@.take(base@.len() as int)[i as int] == key@[i as int]);
            }
        }
    }
    let from = if starts { base.len() } else { 0 };
    proof {
        if starts {
            assert(key@.take(base@.len() as int) =~= base@);
        }
    }
    let ghost r = match strip_prefix(key@, base@) {
        Some(r) => r,
        None => key@,
    };
    proof {
        assert(r =~= key@.skip(from as int));
    }
    let mut j = from;
    while j < n && key[j] == '/'
        invariant
            from <= j <= n == key.len(),
            forall|t: int| from <= t < j ==> key@[t] == '/',
        decreases n - j,
    {
        j += 1;
    }
    proof {
        assert forall|t: int| 0 <= t < j - from implies r[t] == '/' by {
            assert(r[t] == key@[from + t]);
        }
        if j < n {
            assert(r[j - from] == key@[j as int]);
        }
        lemma_leading_count_at(r, '/', j - from);
        assert(trim_start(r, '/') =~= obj.key@.subrange(j as int, n as int));
    }
    substring(obj.key.as_str(), j, n)
}

/// The path at which `obj` enters the tree, or `None` when it is left out.
fn entry_parts(obj: &ObjectInfo, base_prefix: &str, args: &TreeArgs, pattern: Option<&NamePattern>) -> (r:
    Option<Vec<String>>)
    ensures
        r is Some <==> entry_path(*obj, base_prefix@, *args, pattern_text(pattern)) is Some,
        r matches Some(v) ==> entry_path(*obj, base_prefix@, *args, pattern_text(pattern)) == Some(
            texts(v@),
        ),
{
    let rel = relative_key_of(obj, base_prefix);
    if rel.as_str().is_empty() {
        return None;
    }
    let parts = split_text(rel.as_str(), '/');
    proof {
        lemma_split_all_len(rel@, '/');
        assert(texts(parts@).len() == parts@.len());
    }
    if let Some(p) = pattern {
        let last = &parts[parts.len() - 1];
        proof {
            assert(texts(parts@).last() == last@);
        }
        if !p.matches(last.as_str()) {
            return None;
        }
    }
    if args.dirs_only && !obj.is_dir {
        return None;
    }
    if parts.len() > args.level {
        return None;
    }
    Some(parts)
}


// ---------------------------------------------------------------------------
// The tree as output
// ---------------------------------------------------------------------------

/// A node of the finished tree, as it is shown or serialised.
pub struct TreeOutput {
    pub name: String,
    pub children: Option<Vec<TreeOutput>>,
    pub size_bytes: Option<i64>,
    pub size_human: Option<String>,
    pub is_dir: bool,
}

/// `os` lists the forest `m` in name order, each node shown as `output_matches` says.
pub open spec fn outputs_match(os: Seq<TreeOutput>, m: Map<Seq<char>, NodeModel>, show_size: bool) -> bool
    decreases os,
{
    &&& forall|i: int, j: int| 0 <= i < j < os.len() ==> lex_lt(os[i].name@, os[j].name@)
    &&& forall|i: int|
        0 <= i < os.len() ==> m.contains_key(#[trigger] os[i].name@) && output_matches(
            os[i],
            m[os[i].name@],
            show_size,
        )
    &&& forall|k: Seq<char>| #[trigger] m.contains_key(k) ==> exists|i: int| 0 <= i < os.len() && os[i].name@ == k
}

/// `o` shows the node `n`: the sizes only when sizes are shown, no child list
/// for a node without children, else its children listed in name order.
pub open spec fn output_matches(o: TreeOutput, n: NodeModel, show_size: bool) -> bool
    decreases o,
{
    &&& o.is_dir == n.is_dir
    &&& o.size_bytes == (if show_size { n.size_bytes } else { None })
    &&& opt_text(o.size_human) == (if show_size { n.size_human } else { None })
    &&& match o.children {
        None => n.children.dom() == Set::<Seq<char>>::empty(),
        Some(c) => n.children.dom() != Set::<Seq<char>>::empty() && outputs_match(c@, n.children, show_size),
    }
}

/// `o` is the output of the node `n`: its name and kind, its sizes when
/// sizes are shown, and a child list exactly when it has children, which is
/// then the output of those children.
pub open spec fn output_of(o: TreeOutput, n: TreeNode, show_size: bool) -> bool
    decreases n, 0int,
{
    &&& o.name@ == n.name@
    &&& o.is_dir == n.is_dir
    &&& o.size_bytes == (if show_size { n.size_bytes } else { None })
    &&& opt_text(o.size_human) == (if show_size { opt_text(n.size_human) } else { None })
    &&& match o.children {
        None => n.children@.len() == 0,
        Some(c) => n.children@.len() > 0 && c@.len() == n.children@.len() && outputs_from(
            c@,
            n.children@,
            0,
            show_size,
        ),
    }
}

/// From index `i` on, `os` is the output of `v`, node for node.
pub open spec fn outputs_from(os: Seq<TreeOutput>, v: Seq<TreeNode>, i: int, show_size: bool) -> bool
    decreases v, v.len() - i,
{
    if 0 <= i < v.len() {
        output_of(os[i], v[i], show_size) && outputs_from(os, v, i + 1, show_size)
    } else {
        true
    }
}

/// `os` is the output of the forest `v`, node for node in the same order.
pub open spec fn outputs_of(os: Seq<TreeOutput>, v: Seq<TreeNode>, show_size: bool) -> bool {
    os.len() == v.len() && outputs_from(os, v, 0, show_size)
}

/// Node-for-node outputs from `i` on make `outputs_from` hold there.
proof fn lemma_outputs_from_all(os: Seq<TreeOutput>, v: Seq<TreeNode>, i: int, show_size: bool)
    requires
        0 <= i <= v.len(),
        forall|j: int| i <= j < v.len() ==> #[trigger] output_of(os[j], v[j], show_size),
    ensures
        outputs_from(os, v, i, show_size),
    decreases v.len() - i,
{
    if i < v.len() {
        assert(output_of(os[i], v[i], show_size));
        lemma_outputs_from_all(os, v, i + 1, show_size);
    }
}

/// `outputs_from` at `i` gives each node's output from `i` on.
pub proof fn lemma_outputs_from_each(os: Seq<TreeOutput>, v: Seq<TreeNode>, i: int, show_size: bool)
    requires
        0 <= i,
        outputs_from(os, v, i, show_size),
    ensures
        forall|j: int| i <= j < v.len() ==> #[trigger] output_of(os[j], v[j], show_size),
    decreases v.len() - i,
{
    if i < v.len() {
        lemma_outputs_from_each(os, v, i + 1, show_size);
    }
}

/// A sorted forest is empty exactly when its model has no names.
proof fn lemma_forest_model_empty(v: Seq<TreeNode>)
    requires
        names_sorted(v),
    ensures
        (forest_model(v).dom() == Set::<Seq<char>>::empty()) <==> v.len() == 0,
{
    lemma_forest_model(v);
    if v.len() == 0 {
        assert(forest_model(v).dom() =~= Set::<Seq<char>>::empty());
    } else {
        assert(forest_model(v).contains_key(v[0].name@));
        assert(forest_model(v).dom().contains(v[0].name@));
    }
}

/// The output of the forest `tree`: each node with its name, kind and (when
/// `show_size`) sizes, and its children when it has any, in name order.
pub fn tree_to_output(tree: &Vec<TreeNode>, show_size: bool) -> (out: Vec<TreeOutput>)
    requires
        forest_wf(tree@),
    ensures
        outputs_of(out@, tree@, show_size),
        outputs_match(out@, forest_model(tree@), show_size),
    decreases tree@,
{
    let mut out: Vec<TreeOutput> = Vec::new();
    let mut i: usize = 0;
    while i < tree.len()
        invariant
            i <= tree.len(),
            forest_wf(tree@),
            out@.len() == i,
            forall|j: int| 0 <= j < i ==> (#[trigger] out@[j]).name@ == tree@[j].name@,
            forall|j: int| 0 <= j < i ==> output_matches(#[trigger] out@[j], node_model(tree@[j]), show_size),
            forall|j: int| 0 <= j < i ==> #[trigger] output_of(out@[j], tree@[j], show_size),
        decreases tree.len() - i,
    {
        let node = &tree[i];
        proof {
            assert(forest_wf(tree@[i as int].children@));
            lemma_forest_model_empty(node.children@);
            assert(decreases_to!(tree@ => tree@[i as int]));
        }
        let children = if node.children.len() == 0 {
            None
        } else {
            Some(tree_to_output(&node.children, show_size))
        };
        let o = TreeOutput {
            name: node.name.clone(),
            children,
            size_bytes: if show_size { node.size_bytes } else { None },
            size_human: if show_size { clone_opt_text(&node.size_human) } else { None },
            is_dir: node.is_dir,
        };
        proof {
            assert(output_matches(o, node_model(*node), show_size));
            assert(output_of(o, *node, show_size));
        }
        out.push(o);
        i += 1;
    }
    proof {
        lemma_outputs_from_all(out@, tree@, 0, show_size);
        lemma_forest_model(tree@);
        let m = forest_model(tree@);
        assert forall|a: int, b: int| 0 <= a < b < out@.len() implies lex_lt(out@[a].name@, out@[b].name@) by {
            assert(out@[a].name@ == tree@[a].name@);
            assert(out@[b].name@ == tree@[b].name@);
        }
        assert forall|a: int| 0 <= a < out@.len() implies m.contains_key(#[trigger] out@[a].name@)
            && output_matches(out@[a], m[out@[a].name@], show_size) by {
            assert(out@[a].name@ == tree@[a].name@);
            assert(m.contains_key(tree@[a].name@));
        }
        assert forall|k: Seq<char>| #[trigger] m.contains_key(k) implies exists|a: int| 0 <= a < out@.len() && out@[a].name@ == k by {
            let a = choose|a: int| 0 <= a < tree@.len() && tree@[a].name@ == k;
            assert(out@[a].name@ == tree@[a].name@);
        }
    }
    out
}

/// `r` is the tree of `objs` below `base`, named `root`: the root directory
/// listing the forest that `build_model` gives (no child list when it is
/// empty), together with the counts that `build_stats` gives.
pub open spec fn tree_built(
    objs: Seq<ObjectInfo>,
    base: Seq<char>,
    root: Seq<char>,
    args: TreeArgs,
    pattern: Option<Seq<char>>,
    r: (TreeOutput, TreeStats),
) -> bool {
    &&& r.0.name@ == root
    &&& r.0.is_dir
    &&& r.0.size_bytes is None
    &&& r.0.size_human is None
    &&& (r.0.children is None <==> build_model(objs, base, args, pattern).dom() == Set::<Seq<char>>::empty())
    &&& (r.0.children matches Some(c) ==> outputs_match(c@, build_model(objs, base, args, pattern), args.size))
    &&& stats_model(r.1) == build_stats(objs, base, args, pattern)
}

/// Builds the tree of `objects` below `base_prefix`, named `root_name`:
/// every object that `entry_path` admits is placed in order, and the result
/// is the root directory listing the forest (no child list when it is empty)
/// together with the counts gathered on the way.
pub fn build_tree(
    objects: &[ObjectInfo],
    base_prefix: &str,
    root_name: &str,
    args: &TreeArgs,
    pattern: Option<&NamePattern>,
) -> (r: (TreeOutput, TreeStats))
    requires
        build_fits(objects@, base_prefix@, *args, pattern_text(pattern)),
    ensures
        tree_built(objects@, base_prefix@, root_name@, *args, pattern_text(pattern), r),
{
    match build_tree_checked(objects, base_prefix, root_name, args, pattern) {
        Some(built) => built,
        None => vstd::pervasive::unreached(),
    }
}

// ---------------------------------------------------------------------------
// The tree as text
// ---------------------------------------------------------------------------

/// What joins a line to its parent's lines: nothing for the node that is
/// drawn first with no prefix, else a branch for an inner child or a corner
/// for the last one.
pub open spec fn connector(prefix: Seq<char>, is_last: bool, top: bool) -> Seq<char> {
    if top && prefix.len() == 0 {
        Seq::empty()
    } else if is_last {
        "└── "@
    } else {
        "├── "@
    }
}

/// The size shown after a file's name, when sizes are shown and it has one.
pub open spec fn size_suffix(o: TreeOutput, show_size: bool) -> Seq<char> {
    if show_size && !o.is_dir {
        match o.size_human {
            Some(s) => " ["@ + s@ + "]"@,
            None => Seq::empty(),
        }
    } else {
        Seq::empty()
    }
}

/// A node's name as shown: directories end with `/`.
pub open spec fn display_name(o: TreeOutput) -> Seq<char> {
    if o.is_dir && !ends_with_char(o.name@, '/') {
        o.name@ + "/"@
    } else {
        o.name@
    }
}

/// The prefix of the lines below a node: empty below the node drawn first
/// with no prefix, else the node's prefix continued by a bar (inner child) or
/// by blanks (last child).
pub open spec fn child_prefix(prefix: Seq<char>, is_last: bool, top: bool) -> Seq<char> {
    if top && prefix.len() == 0 {
        Seq::empty()
    } else if is_last {
        prefix + "    "@
    } else {
        prefix + "│   "@
    }
}

/// The line of a node itself.
pub open spec fn node_line(o: TreeOutput, prefix: Seq<char>, is_last: bool, show_size: bool, top: bool) -> Seq<
    char,
> {
    prefix + connector(prefix, is_last, top) + display_name(o) + size_suffix(o, show_size)
}

/// The lines of a node and, below it, of its children; `top` holds for the
/// node that the drawing starts from, and never for its children.
pub open spec fn tree_lines(o: TreeOutput, prefix: Seq<char>, is_last: bool, show_size: bool, top: bool) -> Seq<
    Seq<char>,
>
    decreases o, 0int,
{
    seq![node_line(o, prefix, is_last, show_size, top)] + match o.children {
        None => Seq::empty(),
        Some(c) => children_lines(c@, 0, child_prefix(prefix, is_last, top), show_size),
    }
}

/// The lines of the children `cs[i..]`, the last one marked as last.
pub open spec fn children_lines(cs: Seq<TreeOutput>, i: int, prefix: Seq<char>, show_size: bool) -> Seq<
    Seq<char>,
>
    decreases cs, cs.len() - i,
{
    if 0 <= i < cs.len() {
        tree_lines(cs[i], prefix, i == cs.len() - 1, show_size, false) + children_lines(
            cs,
            i + 1,
            prefix,
            show_size,
        )
    } else {
        Seq::empty()
    }
}

/// The line of `node` itself.
fn node_line_text(node: &TreeOutput, prefix: &str, is_last: bool, show_size: bool, top: bool) -> (line: String)
    ensures
        line@ == node_line(*node, prefix@, is_last, show_size, top),
{
    let joint = if top && prefix.is_empty() {
        ""
    } else if is_last {
        "└── "
    } else {
        "├── "
    };
    let mut line = prefix.to_owned();
    line.append(joint);
    line.append(node.name.as_str());
    if node.is_dir && !text_ends_with(node.name.as_str(), '/') {
        line.append("/");
    }
    if show_size && !node.is_dir {
        if let Some(s) = &node.size_human {
            line.append(" [");
            line.append(s.as_str());
            line.append("]");
        }
    }
    proof {
        reveal_strlit("");
        assert(joint@ =~= connector(prefix@, is_last, top));
        assert(line@ =~= node_line(*node, prefix@, is_last, show_size, top));
    }
    line
}

/// Appends the lines of `node` (and its children) to `out`.
fn push_tree_lines(
    node: &TreeOutput,
    prefix: &str,
    is_last: bool,
    show_size: bool,
    top: bool,
    out: &mut Vec<String>,
)
    ensures
        texts(final(out)@) == texts(old(out)@) + tree_lines(*node, prefix@, is_last, show_size, top),
    decreases *node,
{
    let line = node_line_text(node, prefix, is_last, show_size, top);
    let ghost before = texts(out@);
    out.push(line);
    proof {
        assert(texts(out@) =~= before + seq![node_line(*node, prefix@, is_last, show_size, top)]);
    }
    if let Some(children) = &node.children {
        let new_prefix = if top && prefix.is_empty() {
            String::new()
        } else if is_last {
            let mut p = prefix.to_owned();
            p.append("    ");
            p
        } else {
            let mut p = prefix.to_owned();
            p.append("│   ");
            p
        };
        proof {
            assert(new_prefix@ =~= child_prefix(prefix@, is_last, top));
        }
        let ghost head = texts(out@);
        let n = children.len();
        let mut i: usize = 0;
        while i < n
            invariant
                n == children@.len(),
                i <= n,
                node.children == Some(*children),
                texts(out@) + children_lines(children@, i as int, new_prefix@, show_size) == head
                    + children_lines(children@, 0, new_prefix@, show_size),
            decreases n - i,
        {
            proof {
                assert(decreases_to!(*node => node.children));
                assert(decreases_to!(node.children => node.children->0));
                assert(decreases_to!(*children => children@));
                assert(decreases_to!(children@ => children@[i as int]));
            }
            let ghost mid = texts(out@);
            push_tree_lines(&children[i], new_prefix.as_str(), i == n - 1, show_size, false, out);
            proof {
                assert(children_lines(children@, i as int, new_prefix@, show_size) == tree_lines(
                    children@[i as int],
                    new_prefix@,
                    i == n - 1,
                    show_size,
                    false,
                ) + children_lines(children@, i + 1, new_prefix@, show_size));
                assert(texts(out@) + children_lines(children@, i + 1, new_prefix@, show_size) =~= mid
                    + children_lines(children@, i as int, new_prefix@, show_size));
            }
            i += 1;
        }
        proof {
            assert(children_lines(children@, n as int, new_prefix@, show_size) == Seq::<Seq<char>>::empty());
            assert(texts(out@) =~= head + children_lines(children@, 0, new_prefix@, show_size));
            assert(texts(out@) =~= before + tree_lines(*node, prefix@, is_last, show_size, top));
        }
    } else {
        proof {
            assert(texts(out@) =~= before + tree_lines(*node, prefix@, is_last, show_size, top));
        }
    }
}

/// The lines that draw `node` below `prefix`: its own line (prefix,
/// connector, name with `/` for directories, size when shown), then the
/// lines of its children in order, the last marked as last. Drawn from the
/// empty prefix, the node's own line has no connector and its children hang
/// from it by branches and corners.
pub fn print_tree(node: &TreeOutput, prefix: &str, is_last: bool, show_size: bool) -> (lines: Vec<String>)
    ensures
        texts(lines@) == tree_lines(*node, prefix@, is_last, show_size, true),
{
    let mut lines: Vec<String> = Vec::new();
    proof {
        assert(texts(lines@) =~= Seq::<Seq<char>>::empty());
    }
    push_tree_lines(node, prefix, is_last, show_size, true, &mut lines);
    proof {
        assert(Seq::<Seq<char>>::empty() + tree_lines(*node, prefix@, is_last, show_size, true) =~= tree_lines(
            *node,
            prefix@,
            is_last,
            show_size,
            true,
        ));
    }
    lines
}


// ---------------------------------------------------------------------------
// Listing, naming and summing up
// ---------------------------------------------------------------------------

/// The objects listed so far, page by page, and where the next page starts.
pub struct ObjectListing {
    pub objects: Vec<ObjectInfo>,
    pub continuation_token: Option<String>,
    pub done: bool,
}

/// Builds the tree as `build_tree` does when its counts stay within their
/// types all along, and gives `None` when they would not: the entry that
/// would overflow a count is found before it is placed.
pub fn build_tree_checked(
    objects: &[ObjectInfo],
    base_prefix: &str,
    root_name: &str,
    args: &TreeArgs,
    pattern: Option<&NamePattern>,
) -> (r: Option<(TreeOutput, TreeStats)>)
    ensures
        r is None <==> !build_fits(objects@, base_prefix@, *args, pattern_text(pattern)),
        r matches Some(t) ==> tree_built(objects@, base_prefix@, root_name@, *args, pattern_text(pattern), t),
{
    let ghost pat = pattern_text(pattern);
    let mut tree: Vec<TreeNode> = Vec::new();
    let mut stats = TreeStats { dirs: 0, files: 0, total_size: 0 };
    let mut i: usize = 0;
    proof {
        assert(objects@.take(0) =~= Seq::<ObjectInfo>::empty());
        assert(forest_model(tree@) =~= Map::<Seq<char>, NodeModel>::empty());
    }
    while i < objects.len()
        invariant
            i <= objects@.len(),
            pat == pattern_text(pattern),
            forest_wf(tree@),
            forest_model(tree@) == build_model(objects@.take(i as int), base_prefix@, *args, pat),
            stats_model(stats) == build_stats(objects@.take(i as int), base_prefix@, *args, pat),
            forall|k: int|
                0 <= k <= i ==> stats_fit(#[trigger] build_stats(objects@.take(k), base_prefix@, *args, pat)),
        decreases objects@.len() - i,
    {
        let obj = &objects[i];
        let ghost next = objects@.take(i + 1int);
        proof {
            assert(next.drop_last() =~= objects@.take(i as int));
            assert(next.last() == *obj);
        }
        match entry_parts(obj, base_prefix, args, pattern) {
            Some(parts) => {
                if !placement_fits(&tree, parts.as_slice(), obj, &stats) {
                    proof {
                        assert(!stats_fit(build_stats(next, base_prefix@, *args, pat)));
                    }
                    return None;
                }
                insert_into_tree(&mut tree, parts.as_slice(), obj, &mut stats);
            },
            None => {},
        }
        proof {
            assert(stats_fit(stats_model(stats)));
        }
        i += 1;
    }
    proof {
        assert(objects@.take(objects@.len() as int) =~= objects@);
        lemma_forest_model_empty(tree@);
    }
    let children = if tree.len() == 0 {
        None
    } else {
        Some(tree_to_output(&tree, args.size))
    };
    Some(
        (
            TreeOutput {
                name: root_name.to_owned(),
                children,
                size_bytes: None,
                size_human: None,
                is_dir: true,
            },
            stats,
        ),
    )
}

/// A fresh listing: no objects, no token, more to fetch.
pub fn start_listing() -> (l: ObjectListing)
    ensures
        l.objects@.len() == 0,
        l.continuation_token is None,
        !l.done,
{
    ObjectListing { objects: Vec::new(), continuation_token: None, done: false }
}

/// Takes in a page: its objects are appended; a truncated page gives the
/// token of the next request, a complete one ends the listing.
pub fn absorb_page(listing: &mut ObjectListing, items: Vec<ObjectInfo>, truncated: bool, next_token: Option<String>)
    ensures
        final(listing).objects@ == old(listing).objects@ + items@,
        final(listing).done == !truncated,
        truncated ==> final(listing).continuation_token == next_token,
        !truncated ==> final(listing).continuation_token == old(listing).continuation_token,
{
    let mut items = items;
    listing.objects.append(&mut items);
    if truncated {
        listing.continuation_token = next_token;
    }
    listing.done = !truncated;
}

/// What one request of a listing brought: a page of objects, or an error.
pub enum PageResult {
    /// A page; when `truncated`, `next_token` continues the listing.
    Page { items: Vec<ObjectInfo>, truncated: bool, next_token: Option<String> },
    /// The request failed with this message.
    Failed(String),
}

/// Takes in what a listing request brought. A page is absorbed as
/// `absorb_page` says and nothing fails; a failed request ends the listing
/// with its objects unchanged, and the command with a network error that
/// passes on the message.
pub fn take_page(listing: &mut ObjectListing, result: PageResult) -> (r: Option<Failure>)
    ensures
        match result {
            PageResult::Page { items, truncated, next_token } => {
                &&& r is None
                &&& final(listing).objects@ == old(listing).objects@ + items@
                &&& final(listing).done == !truncated
                &&& truncated ==> final(listing).continuation_token == next_token
                &&& !truncated ==> final(listing).continuation_token == old(listing).continuation_token
            },
            PageResult::Failed(e) => {
                &&& final(listing).objects@ == old(listing).objects@
                &&& final(listing).done
                &&& final(listing).continuation_token == old(listing).continuation_token
                &&& r matches Some(f) && f.code == ExitCode::NetworkError && f.message@
                    == "Failed to list objects: "@ + e@
            },
        },
{
    match result {
        PageResult::Page { items, truncated, next_token } => {
            absorb_page(listing, items, truncated, next_token);
            None
        },
        PageResult::Failed(e) => {
            listing.done = true;
            let message = crate::text::concat("Failed to list objects: ", e.as_str());
            Some(Failure { code: ExitCode::NetworkError, message })
        },
    }
}

/// The name of the tree's root: the whole path when asked for, else the
/// prefix when there is one, else the bucket.
pub fn tree_root_name(args: &TreeArgs, bucket: &str, prefix: &Option<String>) -> (name: String)
    ensures
        name@ == (if args.full_path {
            args.path@
        } else {
            match prefix {
                Some(p) => p@,
                None => bucket@,
            }
        }),
{
    if args.full_path {
        args.path.clone()
    } else {
        match prefix {
            Some(p) => p.clone(),
            None => bucket.to_owned(),
        }
    }
}

/// The summary line of the counts: directories, then files.
pub fn tree_summary_line(stats: &TreeStats) -> (line: String)
    ensures
        line@ == decimal(stats.dirs as nat) + " directories, "@ + decimal(stats.files as nat) + " files"@,
{
    let mut line = crate::text::decimal_text(stats.dirs);
    line.append(" directories, ");
    line.append(crate::text::decimal_text(stats.files).as_str());
    line.append(" files");
    line
}

/// The summary line of the total size.
pub fn total_size_line(total: i64) -> (line: String)
    ensures
        line@ == "Total size: "@ + binary_size_text(total as u64),
{
    let s = human_size(total);
    crate::text::concat("Total size: ", s.as_str())
}


// ---------------------------------------------------------------------------
// Laws
// ---------------------------------------------------------------------------

/// The path `alias/bucket[/prefix]` parses into parts that join back to it:
/// alias and bucket hold no `/`.
pub proof fn law_prefixed_path_parts_join(path: Seq<char>)
    ensures
        prefixed_path_result(path) matches Ok((a, b, p)) ==> !a.contains('/') && match p {
            None => path == a + seq!['/'] + b && !b.contains('/'),
            Some(p) => path == a + seq!['/'] + b + seq!['/'] + p && !b.contains('/'),
        },
{
    lemma_split3_join(path);
}

/// Joining an alias and a bucket without `/` (and, when given, any prefix)
/// with `/` gives a path that parses back into them.
pub proof fn law_prefixed_path_join_parts(a: Seq<char>, b: Seq<char>, p: Option<Seq<char>>)
    requires
        !a.contains('/'),
        !b.contains('/'),
    ensures
        prefixed_path_result(
            match p {
                None => a + seq!['/'] + b,
                Some(p) => a + seq!['/'] + b + seq!['/'] + p,
            },
        ) == Ok::<(Seq<char>, Seq<char>, Option<Seq<char>>), Seq<char>>((a, b, p)),
{
    match p {
        None => {
            lemma_split_once_join(a, b, '/');
            lemma_split_once_none(b, '/');
        },
        Some(q) => {
            let path = a + seq!['/'] + b + seq!['/'] + q;
            let rest = b + seq!['/'] + q;
            assert(path =~= a + seq!['/'] + rest);
            lemma_split_once_join(a, rest, '/');
            lemma_split_once_join(b, q, '/');
        },
    }
}

/// Where a path of names leads in a forest.
pub open spec fn lookup(m: Map<Seq<char>, NodeModel>, parts: Seq<Seq<char>>) -> Option<NodeModel>
    decreases parts.len(),
{
    if parts.len() == 0 || !m.contains_key(parts[0]) {
        None
    } else if parts.len() == 1 {
        Some(m[parts[0]])
    } else {
        lookup(m[parts[0]].children, parts.drop_first())
    }
}

/// After an object is placed at a path, the path leads to the object's leaf.
pub proof fn law_insert_then_lookup(m: Map<Seq<char>, NodeModel>, parts: Seq<Seq<char>>, obj: ObjectInfo)
    requires
        parts.len() > 0,
    ensures
        lookup(insert_model(m, parts, obj), parts) == Some(leaf_model(parts.last(), obj)),
    decreases parts.len(),
{
    if parts.len() > 1 {
        let existing = if m.contains_key(parts[0]) {
            m[parts[0]]
        } else {
            dir_model()
        };
        law_insert_then_lookup(existing.children, parts.drop_first(), obj);
        assert(parts.drop_first().last() == parts.last());
    }
}

/// Placing an object leaves every other top-level name as it was.
pub proof fn law_insert_keeps_other_names(
    m: Map<Seq<char>, NodeModel>,
    parts: Seq<Seq<char>>,
    obj: ObjectInfo,
    name: Seq<char>,
)
    requires
        parts.len() > 0,
        name != parts[0],
    ensures
        insert_model(m, parts, obj).contains_key(name) == m.contains_key(name),
        m.contains_key(name) ==> insert_model(m, parts, obj)[name] == m[name],
{
}

/// In the tree built from `objs`, the path of the last object (when it is
/// admitted) leads to that object's leaf.
pub proof fn law_build_keeps_last_entry(
    objs: Seq<ObjectInfo>,
    base: Seq<char>,
    args: TreeArgs,
    pattern: Option<Seq<char>>,
)
    requires
        objs.len() > 0,
    ensures
        entry_path(objs.last(), base, args, pattern) matches Some(parts) ==> lookup(
            build_model(objs, base, args, pattern),
            parts,
        ) == Some(leaf_model(parts.last(), objs.last())),
{
    if let Some(parts) = entry_path(objs.last(), base, args, pattern) {
        let rel = relative_key(objs.last().key@, base);
        lemma_split_all_len(rel, '/');
        law_insert_then_lookup(build_model(objs.drop_last(), base, args, pattern), parts, objs.last());
    }
}

/// The number of nodes of an output tree.
pub open spec fn output_count(o: TreeOutput) -> nat
    decreases o, 0int,
{
    1 + match o.children {
        None => 0,
        Some(c) => outputs_count(c@, 0),
    }
}

/// The number of nodes under `cs[i..]`.
pub open spec fn outputs_count(cs: Seq<TreeOutput>, i: int) -> nat
    decreases cs, cs.len() - i,
{
    if 0 <= i < cs.len() {
        output_count(cs[i]) + outputs_count(cs, i + 1)
    } else {
        0
    }
}

/// Printing a tree gives one line for each of its nodes.
pub proof fn law_print_tree_one_line_per_node(
    o: TreeOutput,
    prefix: Seq<char>,
    is_last: bool,
    show_size: bool,
    top: bool,
)
    ensures
        tree_lines(o, prefix, is_last, show_size, top).len() == output_count(o),
    decreases o, 0int,
{
    if let Some(c) = o.children {
        assert(decreases_to!(o => o.children));
        lemma_children_lines_count(c@, 0, child_prefix(prefix, is_last, top), show_size);
    }
}

/// The children's lines count their nodes.
proof fn lemma_children_lines_count(cs: Seq<TreeOutput>, i: int, prefix: Seq<char>, show_size: bool)
    ensures
        children_lines(cs, i, prefix, show_size).len() == outputs_count(cs, i),
    decreases cs, cs.len() - i,
{
    if 0 <= i < cs.len() {
        law_print_tree_one_line_per_node(cs[i], prefix, i == cs.len() - 1, show_size, false);
        lemma_children_lines_count(cs, i + 1, prefix, show_size);
    }
}

/// The number of nodes of a tree under construction.
pub open spec fn node_count(n: TreeNode) -> nat
    decreases n, 0int,
{
    1 + nodes_count(n.children@, 0)
}

/// The number of nodes under `v[i..]`.
pub open spec fn nodes_count(v: Seq<TreeNode>, i: int) -> nat
    decreases v, v.len() - i,
{
    if 0 <= i < v.len() {
        node_count(v[i]) + nodes_count(v, i + 1)
    } else {
        0
    }
}

/// The output of a node has as many nodes as the node, and no child list
/// in it is empty.
pub proof fn law_output_keeps_nodes(o: TreeOutput, n: TreeNode, show_size: bool)
    requires
        output_of(o, n, show_size),
    ensures
        output_count(o) == node_count(n),
        o.children matches Some(c) ==> c@.len() > 0,
    decreases n, 0int,
{
    if let Some(c) = o.children {
        assert(decreases_to!(n => n.children));
        lemma_outputs_keep_nodes(c@, n.children@, 0, show_size);
    }
}

/// Outputs from `i` on have as many nodes as the forest from `i` on.
proof fn lemma_outputs_keep_nodes(os: Seq<TreeOutput>, v: Seq<TreeNode>, i: int, show_size: bool)
    requires
        os.len() == v.len(),
        outputs_from(os, v, i, show_size),
    ensures
        outputs_count(os, i) == nodes_count(v, i),
    decreases v, v.len() - i,
{
    if 0 <= i < v.len() {
        law_output_keeps_nodes(os[i], v[i], show_size);
        lemma_outputs_keep_nodes(os, v, i + 1, show_size);
    }
}

/// The output of a forest (what `tree_to_output` gives) has as many nodes in
/// all as the forest, and each of its child lists is the output of the
/// children of the node it stands for.
pub proof fn law_tree_to_output_keeps_nodes(os: Seq<TreeOutput>, v: Seq<TreeNode>, show_size: bool)
    requires
        outputs_of(os, v, show_size),
    ensures
        outputs_count(os, 0) == nodes_count(v, 0),
        forall|i: int|
            0 <= i < v.len() ==> match #[trigger] os[i].children {
                None => v[i].children@.len() == 0,
                Some(c) => v[i].children@.len() > 0 && outputs_of(c@, v[i].children@, show_size),
            },
{
    lemma_outputs_keep_nodes(os, v, 0, show_size);
    lemma_outputs_from_each(os, v, 0, show_size);
    assert forall|i: int| 0 <= i < v.len() implies match #[trigger] os[i].children {
        None => v[i].children@.len() == 0,
        Some(c) => v[i].children@.len() > 0 && outputs_of(c@, v[i].children@, show_size),
    } by {
        assert(output_of(os[i], v[i], show_size));
    }
}

/// Placing the same entry twice: the second time the forest stays as the
/// first left it, and only the leaf is counted again (the directories on
/// the way are already there).
pub proof fn law_insert_twice(
    m: Map<Seq<char>, NodeModel>,
    parts: Seq<Seq<char>>,
    obj: ObjectInfo,
    st: StatsModel,
)
    requires
        parts.len() > 0,
    ensures
        insert_model(insert_model(m, parts, obj), parts, obj) == insert_model(m, parts, obj),
        insert_stats(insert_model(m, parts, obj), parts, obj, st) == leaf_stats(parts.last(), obj, st),
        ({
            let again = insert_stats(insert_model(m, parts, obj), parts, obj, st);
            (again.dirs - st.dirs) + (again.files - st.files) == 1
        }),
    decreases parts.len(),
{
    if parts.len() == 1 {
        assert(insert_model(insert_model(m, parts, obj), parts, obj) =~= insert_model(m, parts, obj));
    } else {
        let rest = parts.drop_first();
        let existing = if m.contains_key(parts[0]) {
            m[parts[0]]
        } else {
            dir_model()
        };
        law_insert_twice(existing.children, rest, obj, st);
        let m1 = insert_model(m, parts, obj);
        assert(m1.contains_key(parts[0]));
        let n1 = m1[parts[0]];
        assert(n1.children == insert_model(existing.children, rest, obj));
        assert(insert_model(m1, parts, obj) =~= m1);
        assert(rest.last() == parts.last());
    }
}

/// Placing an entry changes the file count and the total size as its leaf
/// alone does: the directories on the way count only as directories.
proof fn lemma_insert_stats_leaf(
    m: Map<Seq<char>, NodeModel>,
    parts: Seq<Seq<char>>,
    obj: ObjectInfo,
    st: StatsModel,
)
    requires
        parts.len() > 0,
    ensures
        insert_stats(m, parts, obj, st).files == leaf_stats(parts.last(), obj, st).files,
        insert_stats(m, parts, obj, st).total == leaf_stats(parts.last(), obj, st).total,
    decreases parts.len(),
{
    if parts.len() > 1 {
        let rest = parts.drop_first();
        assert(rest.last() == parts.last());
        if m.contains_key(parts[0]) {
            lemma_insert_stats_leaf(m[parts[0]].children, rest, obj, st);
        } else {
            lemma_insert_stats_leaf(dir_model().children, rest, obj, StatsModel { dirs: st.dirs + 1, ..st });
        }
    }
}

/// No object of `objs` has a negative size.
pub open spec fn sizes_nonnegative(objs: Seq<ObjectInfo>) -> bool {
    forall|i: int| 0 <= i < objs.len() ==> (#[trigger] objs[i].size_bytes matches Some(n) ==> n >= 0)
}

/// Raising the level limit, all else equal, never lowers the file count,
/// nor, when no size is negative, the total size.
pub proof fn law_build_level_monotone(
    objs: Seq<ObjectInfo>,
    base: Seq<char>,
    a1: TreeArgs,
    a2: TreeArgs,
    pattern: Option<Seq<char>>,
)
    requires
        a2 == (TreeArgs { level: a2.level, ..a1 }),
        a1.level <= a2.level,
    ensures
        build_stats(objs, base, a1, pattern).files <= build_stats(objs, base, a2, pattern).files,
        sizes_nonnegative(objs) ==> build_stats(objs, base, a1, pattern).total <= build_stats(
            objs,
            base,
            a2,
            pattern,
        ).total,
    decreases objs.len(),
{
    if objs.len() > 0 {
        let w = objs.drop_last();
        let o = objs.last();
        law_build_level_monotone(w, base, a1, a2, pattern);
        if sizes_nonnegative(objs) {
            assert(sizes_nonnegative(w)) by {
                assert forall|i: int| 0 <= i < w.len() implies (#[trigger] w[i].size_bytes matches Some(
                    n,
                ) ==> n >= 0) by {
                    assert(w[i] == objs[i]);
                }
            }
            assert(objs[objs.len() - 1] == o);
        }
        let s1 = build_stats(w, base, a1, pattern);
        let s2 = build_stats(w, base, a2, pattern);
        let rel = relative_key(o.key@, base);
        lemma_split_all_len(rel, '/');
        match entry_path(o, base, a2, pattern) {
            Some(parts) => {
                lemma_insert_stats_leaf(build_model(w, base, a2, pattern), parts, o, s2);
                if let Some(p1) = entry_path(o, base, a1, pattern) {
                    assert(p1 == parts);
                    lemma_insert_stats_leaf(build_model(w, base, a1, pattern), parts, o, s1);
                }
            },
            None => {
                assert(entry_path(o, base, a1, pattern) is None);
            },
        }
    }
}

/// The last `/`-separated piece of `front + name` is `name` when `name`
/// holds no `/` and `front` is empty or ends with `/`.
proof fn lemma_split_all_last(front: Seq<char>, name: Seq<char>)
    requires
        !name.contains('/'),
        front.len() == 0 || front.last() == '/',
    ensures
        split_all(front + name, '/').last() == name,
{
    lemma_first_pos(name, '/');
    assert(split_all(name, '/') == seq![name]);
    if front.len() == 0 {
        assert(front + name =~= name);
    } else {
        let x = front.drop_last();
        assert(front + name =~= x + seq!['/'] + name);
        lemma_split_all_concat(x, name, '/');
    }
}

/// A pattern is matched against the file name alone: an object whose
/// relative key is `front + name` (`name` its last `/`-separated piece)
/// enters the tree under a pattern exactly when it would enter without one
/// and the pattern matches `name`; where it enters is the same.
pub proof fn law_pattern_matches_file_name(
    obj: ObjectInfo,
    base: Seq<char>,
    args: TreeArgs,
    pattern: Seq<char>,
    front: Seq<char>,
    name: Seq<char>,
)
    requires
        relative_key(obj.key@, base) == front + name,
        !name.contains('/'),
        front.len() == 0 || front.last() == '/',
    ensures
        entry_path(obj, base, args, Some(pattern)) == (if glob_matches(pattern, name) {
            entry_path(obj, base, args, None)
        } else {
            None
        }),
{
    lemma_split_all_last(front, name);
}

/// How a node's name is drawn on its line: a name that already ends with
/// `/` is drawn as it is, a directory's other name gets one `/` added, and
/// a file's name is drawn as it is; the line is the prefix, the connector,
/// that name, and the size when shown.
pub proof fn law_drawn_name(o: TreeOutput, prefix: Seq<char>, is_last: bool, show_size: bool, top: bool)
    ensures
        ({
            let line = tree_lines(o, prefix, is_last, show_size, top)[0];
            let head = prefix + connector(prefix, is_last, top);
            &&& ends_with_char(o.name@, '/') ==> line == head + o.name@ + size_suffix(o, show_size)
            &&& (o.is_dir && !ends_with_char(o.name@, '/')) ==> line == head + o.name@ + seq!['/']
                + size_suffix(o, show_size)
            &&& !o.is_dir ==> line == head + o.name@ + size_suffix(o, show_size)
        }),
{
    reveal_strlit("/");
    assert(tree_lines(o, prefix, is_last, show_size, top)[0] == node_line(o, prefix, is_last, show_size, top));
}

/// The relative key of an object is the tail of its key after the listed
/// prefix (when the key starts with it, else after nothing) and after the
/// `/` that follow: it does not start with `/`, and only `/` stand between
/// the prefix and it.
pub proof fn law_relative_key(key: Seq<char>, base: Seq<char>)
    ensures
        ({
            let r = relative_key(key, base);
            let from: int = if base.len() <= key.len() && key.take(base.len() as int) == base {
                base.len() as int
            } else {
                0
            };
            &&& r.len() <= key.len() - from
            &&& key.skip(key.len() - r.len()) == r
            &&& forall|j: int| from <= j < key.len() - r.len() ==> key[j] == '/'
            &&& !(r.len() > 0 && r[0] == '/')
        }),
{
    let from: int = if base.len() <= key.len() && key.take(base.len() as int) == base {
        base.len() as int
    } else {
        0
    };
    let t = key.skip(from);
    lemma_leading_count(t, '/');
    let r = relative_key(key, base);
    if from == 0 {
        assert(t =~= key);
        if base.len() <= key.len() && key.take(base.len() as int) == base {
            assert(base.len() == 0);
            assert(key.skip(0) =~= key);
        }
    }
    assert(r == trim_start(t, '/'));
    assert(r =~= t.skip(leading_count(t, '/') as int));
    assert(key.skip(key.len() - r.len()) =~= r);
    assert forall|j: int| from <= j < key.len() - r.len() implies key[j] == '/' by {
        assert(key[j] == t[j - from]);
    }
}

/// Which objects enter the tree, and where: an object enters only when its
/// relative key is not empty, it is a directory if only directories are
/// shown, and its depth (the pieces of the relative key) is within the
/// level; it then enters at those pieces, which joined by `/` give the
/// relative key back. Without a pattern, every such object enters.
pub proof fn law_entry_path_admits(obj: ObjectInfo, base: Seq<char>, args: TreeArgs, pattern: Option<Seq<char>>)
    ensures
        ({
            let rel = relative_key(obj.key@, base);
            &&& entry_path(obj, base, args, pattern) matches Some(parts) ==> {
                &&& rel.len() > 0
                &&& join(parts, seq!['/']) == rel
                &&& parts.len() == count_char(rel, '/') + 1
                &&& parts.len() <= args.level
                &&& (args.dirs_only ==> obj.is_dir)
            }
            &&& (rel.len() > 0 && (!args.dirs_only || obj.is_dir) && count_char(rel, '/') + 1 <= args.level
                && pattern is None) ==> entry_path(obj, base, args, pattern) is Some
        }),
{
    let rel = relative_key(obj.key@, base);
    lemma_join_split(rel, '/');
    lemma_split_all_len(rel, '/');
}

/// How a line joins its parent: below a prefix, or below the node drawn
/// first, a node's line is its prefix, then `├── ` for an inner child or
/// `└── ` for the last one; the node drawn first with no prefix has no
/// connector. The lines below a node continue its prefix with `│   ` (an
/// inner child, whose later siblings follow) or with blanks (the last
/// child), except below the node drawn first with no prefix. A file's size,
/// when shown and known, follows its name in brackets.
pub proof fn law_drawn_branches(o: TreeOutput, prefix: Seq<char>, is_last: bool, show_size: bool, top: bool)
    ensures
        ({
            let line = tree_lines(o, prefix, is_last, show_size, top)[0];
            let bare = top && prefix.len() == 0;
            &&& bare ==> line == display_name(o) + size_suffix(o, show_size)
            &&& !bare ==> line == prefix + (if is_last { "└── "@ } else { "├── "@ }) + display_name(o)
                + size_suffix(o, show_size)
            &&& child_prefix(prefix, is_last, top) == (if bare {
                Seq::<char>::empty()
            } else {
                prefix + (if is_last { "    "@ } else { "│   "@ })
            })
            &&& size_suffix(o, show_size) == (if show_size && !o.is_dir && o.size_human is Some {
                " ["@ + o.size_human->0@ + "]"@
            } else {
                Seq::<char>::empty()
            })
        }),
{
    assert(tree_lines(o, prefix, is_last, show_size, top)[0] == node_line(o, prefix, is_last, show_size, top));
    if top && prefix.len() == 0 {
        assert(node_line(o, prefix, is_last, show_size, top) =~= display_name(o) + size_suffix(o, show_size));
    }
}

/// Every line drawn for a node, its own and those of everything below it,
/// starts with the node's prefix.
pub proof fn law_lines_keep_prefix(o: TreeOutput, prefix: Seq<char>, is_last: bool, show_size: bool, top: bool)
    ensures
        forall|i: int|
            0 <= i < tree_lines(o, prefix, is_last, show_size, top).len() ==> (#[trigger] tree_lines(
                o,
                prefix,
                is_last,
                show_size,
                top,
            )[i]).len() >= prefix.len() && tree_lines(o, prefix, is_last, show_size, top)[i].take(
                prefix.len() as int,
            ) == prefix,
    decreases o, 0int,
{
    let lines = tree_lines(o, prefix, is_last, show_size, top);
    let first = node_line(o, prefix, is_last, show_size, top);
    assert(first.take(prefix.len() as int) =~= prefix);
    match o.children {
        None => {
            assert(lines =~= seq![first]);
        },
        Some(c) => {
            assert(decreases_to!(o => o.children));
            let cp = child_prefix(prefix, is_last, top);
            lemma_children_keep_prefix(c@, 0, cp, show_size);
            let rest = children_lines(c@, 0, cp, show_size);
            assert(lines =~= seq![first] + rest);
            assert forall|i: int| 0 <= i < lines.len() implies (#[trigger] lines[i]).len() >= prefix.len()
                && lines[i].take(prefix.len() as int) == prefix by {
                if i > 0 {
                    let x = rest[i - 1];
                    assert(x.take(cp.len() as int) == cp);
                    if top && prefix.len() == 0 {
                        assert(x.take(0) =~= prefix);
                    } else {
                        assert(cp.len() >= prefix.len());
                        assert(x.take(prefix.len() as int) =~= cp.take(prefix.len() as int));
                        assert(cp.take(prefix.len() as int) =~= prefix);
                    }
                }
            }
        },
    }
}

/// The lines of the children `cs[i..]` all start with their prefix.
proof fn lemma_children_keep_prefix(cs: Seq<TreeOutput>, i: int, prefix: Seq<char>, show_size: bool)
    ensures
        forall|k: int|
            0 <= k < children_lines(cs, i, prefix, show_size).len() ==> (#[trigger] children_lines(
                cs,
                i,
                prefix,
                show_size,
            )[k]).len() >= prefix.len() && children_lines(cs, i, prefix, show_size)[k].take(
                prefix.len() as int,
            ) == prefix,
    decreases cs, cs.len() - i,
{
    if 0 <= i < cs.len() {
        law_lines_keep_prefix(cs[i], prefix, i == cs.len() - 1, show_size, false);
        lemma_children_keep_prefix(cs, i + 1, prefix, show_size);
        let a = tree_lines(cs[i], prefix, i == cs.len() - 1, show_size, false);
        let b = children_lines(cs, i + 1, prefix, show_size);
        let all = children_lines(cs, i, prefix, show_size);
        assert(all =~= a + b);
        assert forall|k: int| 0 <= k < all.len() implies (#[trigger] all[k]).len() >= prefix.len() && all[
            k].take(prefix.len() as int) == prefix by {
            if k < a.len() {
                assert(all[k] == a[k]);
            } else {
                assert(all[k] == b[k - a.len()]);
            }
        }
    }
}

/// What placing one entry counts: its leaf is a directory when the object
/// is one or the leaf's name ends with `/`, and counts one directory; else
/// it counts one file and adds the object's size (if known) to the total.
/// Directories on the way count only when created, so at most one per
/// part before the leaf, and exactly that many in an empty forest.
pub proof fn law_insert_counts(m: Map<Seq<char>, NodeModel>, parts: Seq<Seq<char>>, obj: ObjectInfo, st: StatsModel)
    requires
        parts.len() > 0,
    ensures
        ({
            let after = insert_stats(m, parts, obj, st);
            let leaf_dir = obj.is_dir || (parts.last().len() > 0 && parts.last().last() == '/');
            let size: int = match obj.size_bytes {
                Some(n) => n as int,
                None => 0,
            };
            &&& after.files == st.files + (if leaf_dir { 0int } else { 1int })
            &&& after.total == st.total + (if leaf_dir { 0int } else { size })
            &&& st.dirs + (if leaf_dir { 1int } else { 0int }) <= after.dirs
            &&& after.dirs <= st.dirs + (if leaf_dir { 1int } else { 0int }) + parts.len() - 1
            &&& m == Map::<Seq<char>, NodeModel>::empty() ==> after.dirs == st.dirs + (if leaf_dir {
                1int
            } else {
                0int
            }) + parts.len() - 1
        }),
    decreases parts.len(),
{
    lemma_insert_stats_leaf(m, parts, obj, st);
    if m == Map::<Seq<char>, NodeModel>::empty() {
        lemma_insert_stats_fresh(parts, obj, st);
    }
    if parts.len() > 1 {
        let rest = parts.drop_first();
        assert(rest.last() == parts.last());
        if m.contains_key(parts[0]) {
            law_insert_counts(m[parts[0]].children, rest, obj, st);
        } else {
            assert(dir_model().children =~= Map::<Seq<char>, NodeModel>::empty());
            law_insert_counts(dir_model().children, rest, obj, StatsModel { dirs: st.dirs + 1, ..st });
        }
    }
}

} // verus!
