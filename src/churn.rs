//! Commit counts per file, and their folding into a folder hierarchy.

use vstd::prelude::*;

use crate::text::chars_of;
use crate::tree::{resolves, sums_fit, Tree};

verus! {

/// A file and how many commits changed it.
#[derive(Debug)]
pub struct FileChurn {
    pub path: String,
    pub count: i32,
}

/// Counts one more change of `path`: its entry goes up by one, or a new
/// entry with a count of one is added at the end.
pub fn add_file(path: String, counts: &mut Vec<FileChurn>)
    requires
        forall|i: int|
            0 <= i < old(counts)@.len() && (#[trigger] old(counts)@[i]).path@ == path@
                ==> old(counts)@[i].count < i32::MAX,
    ensures
        match first_entry(old(counts)@, path@, 0) {
            Some(k) => final(counts)@.len() == old(counts)@.len() && final(counts)@[k].path
                == old(counts)@[k].path && final(counts)@[k].count == old(counts)@[k].count + 1
                && forall|j: int|
                0 <= j < old(counts)@.len() && j != k ==> #[trigger] final(counts)@[j] == old(
                    counts,
                )@[j],
            None => final(counts)@.len() == old(counts)@.len() + 1 && final(counts)@.last().path
                == path && final(counts)@.last().count == 1 && forall|j: int|
                0 <= j < old(counts)@.len() ==> #[trigger] final(counts)@[j] == old(counts)@[j],
        },
{
    let n = counts.len();
    let mut i: usize = 0;
    while i < n
        invariant
            n == counts@.len(),
            counts@ == old(counts)@,
            forall|j: int|
                0 <= j < counts@.len() && (#[trigger] counts@[j]).path@ == path@ ==> counts@[j].count
                    < i32::MAX,
            i <= n,
            first_entry(counts@, path@, 0) == first_entry(counts@, path@, i as int),
        decreases n - i,
    {
        if counts[i].path == path {
            assert(counts@[i as int].path@ == path@);
            let c = counts[i].count;
            let p = counts[i].path.clone();
            counts.set(i, FileChurn { path: p, count: c + 1 });
            return;
        }
        i = i + 1;
    }
    counts.push(FileChurn { path, count: 1 });
}

/// The first entry from `k` on that counts `path`.
pub open spec fn first_entry(counts: Seq<FileChurn>, path: Seq<char>, k: int) -> Option<int>
    decreases counts.len() - k,
{
    if k < 0 || k >= counts.len() {
        None
    } else if counts[k].path@ == path {
        Some(k)
    } else {
        first_entry(counts, path, k + 1)
    }
}


/// The positions in `path` from `i` on where a level of the hierarchy ends:
/// each `/`, and the end of the path.
pub open spec fn level_ends(path: Seq<char>, i: int) -> Seq<int>
    decreases path.len() - i,
{
    if i >= path.len() {
        seq![path.len() as int]
    } else if path[i] == '/' {
        seq![i] + level_ends(path, i + 1)
    } else {
        level_ends(path, i + 1)
    }
}

/// The names of the nodes on the way to a file: the folder prefix followed by
/// each `/`-delimited prefix of the path, the whole path last.
pub open spec fn path_levels(prefix: Seq<char>, path: Seq<char>) -> Seq<Seq<char>> {
    level_ends(path, 0).map_values(|e: int| prefix + path.subrange(0, e))
}

/// The folder name with exactly one `/` added when it does not end with one.
pub open spec fn folder_prefix(folder: Seq<char>) -> Seq<char> {
    if folder.len() > 0 && folder.last() == '/' {
        folder
    } else {
        folder.push('/')
    }
}

/// The first of `ts` named `name`; `ts.len()` when none is.
pub open spec fn child_named(ts: Seq<Tree>, name: Seq<char>, k: int) -> int
    decreases ts.len() - k,
{
    if k >= ts.len() {
        ts.len() as int
    } else if ts[k].name@ == name {
        k
    } else {
        child_named(ts, name, k + 1)
    }
}

/// `t` is a new chain of nodes named after `levels`, each the only child of
/// the one before it: the last one a leaf of size `size`, the others unsized.
pub open spec fn chain(t: Tree, levels: Seq<Seq<char>>, size: i64) -> bool
    decreases levels.len(),
{
    &&& levels.len() >= 1
    &&& t.name@ == levels[0]
    &&& t.rect is None
    &&& if levels.len() == 1 {
        t.size == Some(size) && t.children@.len() == 0
    } else {
        t.size is None && t.children@.len() == 1 && chain(t.children@[0], levels.drop_first(), size)
    }
}

/// `new` is `old` with the file at the end of `levels` folded in: the
/// existing node of each level is reused, and the first missing level starts
/// a new chain.
pub open spec fn folded(new: Tree, old: Tree, levels: Seq<Seq<char>>, size: i64) -> bool
    decreases levels.len(),
{
    if levels.len() == 0 {
        new == old
    } else {
        let n = old.children@.len();
        let k = child_named(old.children@, levels[0], 0);
        &&& new.name == old.name
        &&& new.size == old.size
        &&& new.rect == old.rect
        &&& if k < n {
            &&& new.children@.len() == n
            &&& forall|j: int| 0 <= j < n && j != k ==> #[trigger] new.children@[j] == old.children@[j]
            &&& folded(new.children@[k], old.children@[k], levels.drop_first(), size)
        } else {
            &&& new.children@.len() == n + 1
            &&& forall|j: int| 0 <= j < n ==> #[trigger] new.children@[j] == old.children@[j]
            &&& chain(new.children@[n as int], levels, size)
        }
    }
}

pub open spec fn level_views(levels: Seq<String>) -> Seq<Seq<char>> {
    levels.map_values(|s: String| s@)
}

proof fn lemma_child_named(ts: Seq<Tree>, name: Seq<char>, k: int)
    requires
        0 <= k <= ts.len(),
    ensures
        k <= child_named(ts, name, k) <= ts.len(),
        child_named(ts, name, k) < ts.len() ==> ts[child_named(ts, name, k)].name@ == name,
    decreases ts.len() - k,
{
    if k < ts.len() && ts[k].name@ != name {
        lemma_child_named(ts, name, k + 1);
    }
}

fn make_chain(levels: &Vec<String>, j: usize, size: i64) -> (r: Tree)
    requires
        j < levels@.len(),
    ensures
        chain(r, level_views(levels@).subrange(j as int, levels@.len() as int), size),
    decreases levels@.len() - j,
{
    let ghost lv = level_views(levels@).subrange(j as int, levels@.len() as int);
    let name = levels[j].clone();
    if j == levels.len() - 1 {
        Tree { name, size: Some(size), rect: None, children: Vec::new() }
    } else {
        let below = make_chain(levels, j + 1, size);
        assert(lv.drop_first() =~= level_views(levels@).subrange(j + 1, levels@.len() as int));
        let mut children: Vec<Tree> = Vec::new();
        children.push(below);
        Tree { name, size: None, rect: None, children }
    }
}

/// The first child of `t` named `name`; the number of children when none is.
fn find_child(t: &Tree, name: &String) -> (k: usize)
    ensures
        k == child_named(t.children@, name@, 0),
{
    let n = t.children.len();
    let mut k: usize = 0;
    while k < n
        invariant
            n == t.children@.len(),
            k <= n,
            child_named(t.children@, name@, 0) == child_named(t.children@, name@, k as int),
        decreases n - k,
    {
        if t.children[k].name == *name {
            return k;
        }
        k = k + 1;
    }
    k
}

/// Folds the file at the end of `levels[j..]` into `t`.
fn fold_levels(t: &mut Tree, levels: &Vec<String>, j: usize, size: i64)
    requires
        j <= levels@.len(),
    ensures
        folded(*final(t), *old(t), level_views(levels@).subrange(j as int, levels@.len() as int), size),
    decreases levels@.len() - j,
{
    let ghost lv = level_views(levels@).subrange(j as int, levels@.len() as int);
    if j == levels.len() {
        return;
    }
    let n = t.children.len();
    assert(lv[0] == levels@[j as int]@);
    let k = find_child(t, &levels[j]);
    proof {
        lemma_child_named(old(t).children@, lv[0], 0);
    }
    assert(lv.drop_first() =~= level_views(levels@).subrange(j + 1, levels@.len() as int));
    if k < n {
        fold_levels(&mut t.children[k], levels, j + 1, size);
        assert(child_named(old(t).children@, lv[0], 0) == k);
    } else {
        let fresh = make_chain(levels, j, size);
        t.children.push(fresh);
        assert(child_named(old(t).children@, lv[0], 0) == n);
    }
}


/// The names of the nodes on the way to the file at `path` under `prefix`.
fn levels_of(prefix: &String, path: &str) -> (r: Vec<String>)
    ensures
        level_views(r@) == path_levels(prefix@, path@),
{
    let chars = chars_of(path);
    let n = chars.len();
    let ghost f = |e: int| prefix@ + path@.subrange(0, e);
    let mut out: Vec<String> = Vec::new();
    let mut i: usize = 0;
    while i < n
        invariant
            n == path@.len(),
            chars@ == path@,
            i <= n,
            f == (|e: int| prefix@ + path@.subrange(0, e)),
            level_views(out@) + level_ends(path@, i as int).map_values(f) == level_ends(
                path@,
                0,
            ).map_values(f),
        decreases n - i,
    {
        if chars[i] == '/' {
            let level = prefix.clone().concat(path.substring_char(0, i));
            let ghost before = out@;
            out.push(level);
            assert(level_views(out@) =~= level_views(before).push(f(i as int)));
            assert(level_ends(path@, i as int).map_values(f) =~= seq![f(i as int)] + level_ends(path@, i + 1).map_values(f));
            assert(level_views(out@) + level_ends(path@, i + 1).map_values(f) =~= level_views(before)
                + level_ends(path@, i as int).map_values(f));
        } else {
            assert(level_ends(path@, i as int) == level_ends(path@, i + 1));
        }
        i = i + 1;
    }
    let whole = prefix.clone().concat(path);
    let ghost before = out@;
    out.push(whole);
    assert(path@.subrange(0, n as int) =~= path@);
    assert(level_views(out@) =~= level_views(before).push(f(n as int)));
    assert(level_ends(path@, n as int).map_values(f) =~= seq![f(n as int)]);
    assert(level_views(out@) =~= level_views(before) + level_ends(path@, n as int).map_values(f));
    out
}

/// Why no tree came out of a list of file changes.
#[derive(Clone, Copy, Debug, PartialEq, Eq, Structural)]
pub enum ChurnError {
    /// The root folder has no name.
    EmptyFolder,
    /// A folder's total leaves the `i64` range.
    SizeOverflow,
}

/// `states` are the tree before any file is folded in (the bare root named
/// `folder`), then after each file of `files` in turn.
pub open spec fn folding_steps(states: Seq<Tree>, folder: Seq<char>, files: Seq<FileChurn>) -> bool {
    &&& states.len() == files.len() + 1
    &&& states[0].name@ == folder
    &&& states[0].size is None
    &&& states[0].rect is None
    &&& states[0].children@.len() == 0
    &&& forall|i: int|
        0 <= i < files.len() ==> folded(
            #[trigger] states[i + 1],
            states[i],
            path_levels(folder_prefix(folder), files[i].path@),
            files[i].count as i64,
        )
}

/// Builds the folder hierarchy of the changed files under a root named
/// `folder`: each file's path is folded in level by level, reusing the nodes
/// already there, and every folder is then sized with the sum of its content.
pub fn file_churns_to_tree(folder: &str, file_churns: Vec<FileChurn>) -> (r: Result<
    Tree,
    ChurnError,
>)
    ensures
        folder@.len() == 0 <==> r == Err::<Tree, ChurnError>(ChurnError::EmptyFolder),
        folder@.len() > 0 ==> exists|states: Seq<Tree>|
            {
                &&& folding_steps(states, folder@, file_churns@)
                &&& sums_fit(states.last()) ==> (r matches Ok(t) && resolves(t, states.last()))
                &&& !sums_fit(states.last()) ==> r == Err::<Tree, ChurnError>(
                    ChurnError::SizeOverflow,
                )
            },
{
    let chars = chars_of(folder);
    if chars.len() == 0 {
        return Err(ChurnError::EmptyFolder);
    }
    let prefix = if chars[chars.len() - 1] == '/' {
        String::from_str(folder)
    } else {
        proof {
            reveal_strlit("/");
        }
        String::from_str(folder).concat("/")
    };
    assert(prefix@ =~= folder_prefix(folder@));
    let mut root = Tree { name: String::from_str(folder), size: None, rect: None, children: Vec::new() };
    let ghost mut states: Seq<Tree> = seq![root];
    let n = file_churns.len();
    let mut i: usize = 0;
    while i < n
        invariant
            n == file_churns@.len(),
            i <= n,
            prefix@ == folder_prefix(folder@),
            states.len() == i + 1,
            states.last() == root,
            states[0].name@ == folder@,
            states[0].size is None,
            states[0].rect is None,
            states[0].children@.len() == 0,
            forall|j: int|
                0 <= j < i ==> folded(
                    #[trigger] states[j + 1],
                    states[j],
                    path_levels(folder_prefix(folder@), file_churns@[j].path@),
                    file_churns@[j].count as i64,
                ),
        decreases n - i,
    {
        let levels = levels_of(&prefix, file_churns[i].path.as_str());
        let ghost lv = level_views(levels@);
        assert(lv.subrange(0, lv.len() as int) =~= lv);
        fold_levels(&mut root, &levels, 0, file_churns[i].count as i64);
        proof {
            states = states.push(root);
        }
        i = i + 1;
    }
    assert(folding_steps(states, folder@, file_churns@));
    match root.try_compute_size() {
        Some(_) => Ok(root),
        None => Err(ChurnError::SizeOverflow),
    }
}


/// Where a stable ascending sort by count puts an entry of count `key` into
/// the sorted `s`: after every entry counted at most as often.
pub open spec fn count_pos(s: Seq<FileChurn>, key: int, p: int) -> int
    decreases s.len() - p,
{
    if p >= s.len() {
        s.len() as int
    } else if s[p].count > key {
        p
    } else {
        count_pos(s, key, p + 1)
    }
}

/// The entries of `s` by ascending count; entries of equal count keep their
/// order.
pub open spec fn sort_by_count_spec(s: Seq<FileChurn>) -> Seq<FileChurn>
    decreases s.len(),
{
    if s.len() == 0 {
        s
    } else {
        let sorted = sort_by_count_spec(s.drop_last());
        sorted.insert(count_pos(sorted, s.last().count as int, 0), s.last())
    }
}

proof fn lemma_count_pos_is(s: Seq<FileChurn>, key: int, p: int, r: int)
    requires
        0 <= p <= r <= s.len(),
        forall|q: int| p <= q < r ==> (#[trigger] s[q]).count <= key,
        r < s.len() ==> s[r].count > key,
    ensures
        count_pos(s, key, p) == r,
    decreases r - p,
{
    if p < r {
        lemma_count_pos_is(s, key, p + 1, r);
    }
}

proof fn lemma_sort_by_count_len(s: Seq<FileChurn>)
    ensures
        sort_by_count_spec(s).len() == s.len(),
    decreases s.len(),
{
    if s.len() > 0 {
        lemma_sort_by_count_len(s.drop_last());
        lemma_count_pos_props(sort_by_count_spec(s.drop_last()), s.last().count as int, 0);
    }
}

/// The stable sort orders the entries by ascending count.
proof fn lemma_sort_by_count_sorted(s: Seq<FileChurn>)
    ensures
        forall|i: int, j: int|
            0 <= i < j < s.len() ==> (#[trigger] sort_by_count_spec(s)[i]).count
                <= (#[trigger] sort_by_count_spec(s)[j]).count,
    decreases s.len(),
{
    lemma_sort_by_count_len(s);
    if s.len() > 0 {
        let rest = s.drop_last();
        lemma_sort_by_count_sorted(rest);
        lemma_sort_by_count_len(rest);
        let sr = sort_by_count_spec(rest);
        let key = s.last().count as int;
        let p = count_pos(sr, key, 0);
        lemma_count_pos_props(sr, key, 0);
        let out = sr.insert(p, s.last());
        assert(out == sort_by_count_spec(s));
        assert forall|i: int, j: int| 0 <= i < j < out.len() implies (#[trigger] out[i]).count
            <= (#[trigger] out[j]).count by {
            if j < p {
            } else if j == p {
            } else if i < p {
                if p < sr.len() {
                    assert(sr[p].count <= sr[j - 1].count);
                }
            } else if i == p {
                assert(sr[p].count <= sr[j - 1].count);
            }
        }
    }
}

proof fn lemma_count_pos_props(s: Seq<FileChurn>, key: int, p: int)
    requires
        0 <= p <= s.len(),
    ensures
        p <= count_pos(s, key, p) <= s.len(),
        forall|q: int| p <= q < count_pos(s, key, p) ==> (#[trigger] s[q]).count <= key,
        count_pos(s, key, p) < s.len() ==> s[count_pos(s, key, p)].count > key,
    decreases s.len() - p,
{
    if p < s.len() && s[p].count <= key {
        lemma_count_pos_props(s, key, p + 1);
    }
}

/// Sorts the entries by ascending count, keeping the order of equal counts.
pub fn sort_by_count(v: &mut Vec<FileChurn>)
    ensures
        final(v)@ == sort_by_count_spec(old(v)@),
        forall|i: int, j: int|
            0 <= i < j < final(v)@.len() ==> (#[trigger] final(v)@[i]).count <= (
            #[trigger] final(v)@[j]).count,
{
    proof {
        lemma_sort_by_count_sorted(old(v)@);
    }
    let n = v.len();
    let ghost orig = v@;
    let mut i: usize = 0;
    while i < n
        invariant
            orig == old(v)@,
            n == orig.len(),
            i <= n,
            v@.len() == n,
            v@.subrange(0, i as int) == sort_by_count_spec(orig.subrange(0, i as int)),
            v@.subrange(i as int, n as int) == orig.subrange(i as int, n as int),
        decreases n - i,
    {
        proof {
            lemma_sort_by_count_len(orig.subrange(0, i as int));
        }
        let ghost sorted = v@.subrange(0, i as int);
        assert(v@[i as int] == orig[i as int]) by {
            assert(v@.subrange(i as int, n as int)[0] == orig.subrange(i as int, n as int)[0]);
        }
        let ghost pre = v@;
        let t = v.remove(i);
        assert(v@.subrange(0, i as int) == sorted);
        let key = t.count;
        let mut p: usize = 0;
        while p < i && v[p].count <= key
            invariant
                p <= i,
                i < n,
                v@.len() == n - 1,
                v@.subrange(0, i as int) == sorted,
                key == t.count,
                forall|q: int| 0 <= q < p ==> (#[trigger] sorted[q]).count <= key,
            decreases i - p,
        {
            assert(sorted[p as int] == v@[p as int]);
            p = p + 1;
        }
        proof {
            if p < i {
                assert(sorted[p as int] == v@[p as int]);
            }
            lemma_count_pos_is(sorted, key as int, 0, p as int);
            let prefix = orig.subrange(0, i + 1);
            assert(prefix.drop_last() =~= orig.subrange(0, i as int));
            assert(prefix.last() == t);
        }
        let ghost before = v@;
        v.insert(p, t);
        proof {
            assert(v@.subrange(0, i + 1) =~= sorted.insert(p as int, t));
            assert(v@.subrange(i + 1, n as int) =~= before.subrange(i as int, n - 1));
            assert(before.subrange(i as int, n - 1) =~= orig.subrange(i + 1, n as int)) by {
                assert forall|k: int| 0 <= k < n - 1 - i implies #[trigger] before.subrange(
                    i as int,
                    n - 1,
                )[k] == orig.subrange(i + 1, n as int)[k] by {
                    assert(before[i + k] == pre[i + k + 1]);
                    assert(pre.subrange(i as int, n as int)[k + 1] == orig.subrange(
                        i as int,
                        n as int,
                    )[k + 1]);
                }
            }
        }
        i = i + 1;
    }
    assert(v@ =~= v@.subrange(0, n as int));
    assert(orig =~= orig.subrange(0, n as int));
}

} // verus!
