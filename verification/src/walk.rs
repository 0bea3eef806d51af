use vstd::prelude::*;
use vstd::string::StringExecFns;
use crate::fs::{FsEntry, FsNode, size_of, size_of_entries, earliest_of, earliest_modified,
    total_size, lemma_size_nonneg, lemma_size_entries_nonneg, lemma_size_entries_split};

verus! {

/// A directory found by the walk: its display path, the total size in bytes
/// of its subtree, and the age in days of the most recently touched node
/// under the directory it sits in.
pub struct FindResult {
    pub path: String,
    pub size: u64,
    pub days_old: u64,
}

/// The mathematical content of a `FindResult`.
pub ghost struct FindResultView {
    pub path: Seq<char>,
    pub size: u64,
    pub days_old: u64,
}

impl View for FindResult {
    type V = FindResultView;

    open spec fn view(&self) -> FindResultView {
        FindResultView { path: self.path@, size: self.size, days_old: self.days_old }
    }
}

/// The views of a sequence of results.
pub open spec fn views_of(s: Seq<FindResult>) -> Seq<FindResultView> {
    s.map_values(|r: FindResult| r@)
}

/// The matches a pre-order walk of the tree under `n` records, where `n`
/// has display path `path` and the walk looks for directories whose name
/// equals `name`. Only a directory is descended into; nothing below a
/// matched directory or a symlink is visited.
pub open spec fn walk_of(n: FsNode, path: Seq<char>, name: Seq<char>) -> Seq<FindResultView>
    decreases n,
{
    match n {
        FsNode::Dir { entries, .. } => walk_of_entries(entries@, path, name, earliest_of(n)),
        _ => Seq::empty(),
    }
}

/// The matches one entry of a directory contributes: a directory named
/// `name` is recorded as a match (with the age of the directory it sits in)
/// and not descended into; any other directory is walked recursively; files
/// and symlinks contribute nothing.
pub open spec fn walk_of_entry(e: FsEntry, dir_path: Seq<char>, name: Seq<char>, parent_age: u64)
    -> Seq<FindResultView>
    decreases e,
{
    if e.node is Dir {
        let child_path = dir_path + "/"@ + e.name@;
        if e.name@ == name {
            seq![
                FindResultView {
                    path: child_path,
                    size: size_of(e.node) as u64,
                    days_old: parent_age,
                },
            ]
        } else {
            walk_of(e.node, child_path, name)
        }
    } else {
        Seq::empty()
    }
}

/// The concatenation of the matches of a sequence of entries, in order.
pub open spec fn walk_of_entries(
    es: Seq<FsEntry>,
    dir_path: Seq<char>,
    name: Seq<char>,
    parent_age: u64,
) -> Seq<FindResultView>
    decreases es,
{
    if es.len() == 0 {
        Seq::empty()
    } else {
        walk_of_entry(es[0], dir_path, name, parent_age) + walk_of_entries(
            es.drop_first(),
            dir_path,
            name,
            parent_age,
        )
    }
}

/// Splitting a sequence of entries splits its matches.
pub proof fn lemma_walk_entries_split(
    es: Seq<FsEntry>,
    i: int,
    dir_path: Seq<char>,
    name: Seq<char>,
    parent_age: u64,
)
    requires
        0 <= i <= es.len(),
    ensures
        walk_of_entries(es, dir_path, name, parent_age) == walk_of_entries(
            es.take(i),
            dir_path,
            name,
            parent_age,
        ) + walk_of_entries(es.skip(i), dir_path, name, parent_age),
    decreases i,
{
    if i == 0 {
        assert(es.take(0) =~= Seq::<FsEntry>::empty());
        assert(es.skip(0) =~= es);
        assert(walk_of_entries(es.take(0), dir_path, name, parent_age) + walk_of_entries(
            es,
            dir_path,
            name,
            parent_age,
        ) =~= walk_of_entries(es, dir_path, name, parent_age));
    } else {
        lemma_walk_entries_split(es.drop_first(), i - 1, dir_path, name, parent_age);
        assert(es.take(i).drop_first() =~= es.drop_first().take(i - 1));
        assert(es.skip(i) =~= es.drop_first().skip(i - 1));
        assert(es.take(i)[0] == es[0]);
        assert(walk_of_entry(es[0], dir_path, name, parent_age) + (walk_of_entries(
            es.drop_first().take(i - 1),
            dir_path,
            name,
            parent_age,
        ) + walk_of_entries(es.drop_first().skip(i - 1), dir_path, name, parent_age))
            =~= walk_of_entries(es.take(i), dir_path, name, parent_age) + walk_of_entries(
            es.skip(i),
            dir_path,
            name,
            parent_age,
        ));
    }
}

/// Extending a prefix of entries by one appends that entry's matches.
pub proof fn lemma_walk_entries_take_step(
    es: Seq<FsEntry>,
    i: int,
    dir_path: Seq<char>,
    name: Seq<char>,
    parent_age: u64,
)
    requires
        0 <= i < es.len(),
    ensures
        walk_of_entries(es.take(i + 1), dir_path, name, parent_age) == walk_of_entries(
            es.take(i),
            dir_path,
            name,
            parent_age,
        ) + walk_of_entry(es[i], dir_path, name, parent_age),
{
    reveal_with_fuel(walk_of_entries, 2);
    lemma_walk_entries_split(es.take(i + 1), i, dir_path, name, parent_age);
    assert(es.take(i + 1).take(i) =~= es.take(i));
    assert(es.take(i + 1).skip(i) =~= seq![es[i]]);
    assert(seq![es[i]].drop_first() =~= Seq::<FsEntry>::empty());
    assert(walk_of_entry(es[i], dir_path, name, parent_age) + Seq::<FindResultView>::empty()
        =~= walk_of_entry(es[i], dir_path, name, parent_age));
}

/// The sum of the recorded sizes over a sequence of matches.
pub open spec fn sum_sizes(s: Seq<FindResultView>) -> int
    decreases s,
{
    if s.len() == 0 {
        0
    } else {
        s[0].size + sum_sizes(s.drop_first())
    }
}

pub proof fn lemma_sum_sizes_nonneg(s: Seq<FindResultView>)
    ensures
        sum_sizes(s) >= 0,
    decreases s,
{
    if s.len() > 0 {
        lemma_sum_sizes_nonneg(s.drop_first());
    }
}

/// Concatenating two sequences of matches adds their size sums.
pub proof fn lemma_sum_sizes_concat(a: Seq<FindResultView>, b: Seq<FindResultView>)
    ensures
        sum_sizes(a + b) == sum_sizes(a) + sum_sizes(b),
    decreases a,
{
    if a.len() == 0 {
        assert(a + b =~= b);
    } else {
        lemma_sum_sizes_concat(a.drop_first(), b);
        assert((a + b).drop_first() =~= a.drop_first() + b);
        assert((a + b)[0] == a[0]);
    }
}

/// Law: the walk never descends into a matched directory, so the subtrees
/// it records are disjoint and the sizes it records sum to at most the
/// total size of the walked tree.
pub proof fn lemma_walk_sizes_bounded(n: FsNode, path: Seq<char>, name: Seq<char>)
    requires
        size_of(n) <= u64::MAX,
    ensures
        0 <= sum_sizes(walk_of(n, path, name)),
        sum_sizes(walk_of(n, path, name)) <= size_of(n),
    decreases n,
{
    lemma_sum_sizes_nonneg(walk_of(n, path, name));
    lemma_size_nonneg(n);
    if let FsNode::Dir { age_days, entries } = n {
        lemma_walk_entry_sizes_bounded(entries@, path, name, earliest_of(n));
    }
}

pub proof fn lemma_walk_entry_sizes_bounded(
    es: Seq<FsEntry>,
    dir_path: Seq<char>,
    name: Seq<char>,
    parent_age: u64,
)
    requires
        size_of_entries(es) <= u64::MAX,
    ensures
        sum_sizes(walk_of_entries(es, dir_path, name, parent_age)) <= size_of_entries(es),
    decreases es,
{
    reveal_with_fuel(sum_sizes, 2);
    if es.len() > 0 {
        let head = es[0];
        let rest = es.drop_first();
        lemma_size_nonneg(head.node);
        lemma_size_entries_nonneg(rest);
        lemma_walk_entry_sizes_bounded(rest, dir_path, name, parent_age);
        lemma_sum_sizes_concat(
            walk_of_entry(head, dir_path, name, parent_age),
            walk_of_entries(rest, dir_path, name, parent_age),
        );
        if head.node is Dir {
            let child_path = dir_path + "/"@ + head.name@;
            if head.name@ == name {
                assert(seq![
                    FindResultView {
                        path: child_path,
                        size: size_of(head.node) as u64,
                        days_old: parent_age,
                    },
                ].drop_first() =~= Seq::<FindResultView>::empty());
            } else {
                lemma_walk_sizes_bounded(head.node, child_path, name);
            }
        }
    }
}

/// A usable entry name: nonempty and free of the path separator, as names
/// read from a directory listing are.
pub open spec fn good_name(s: Seq<char>) -> bool {
    s.len() > 0 && forall|i: int| 0 <= i < s.len() ==> s[i] != '/'
}

/// Entry names well-formed throughout a tree: within each directory they
/// are usable and pairwise distinct, as a real file system guarantees.
pub open spec fn wf_names(n: FsNode) -> bool
    decreases n,
{
    match n {
        FsNode::Dir { entries, .. } => wf_entry_names(entries@),
        _ => true,
    }
}

/// `wf_names` over the entries of one directory.
pub open spec fn wf_entry_names(es: Seq<FsEntry>) -> bool
    decreases es,
{
    &&& forall|i: int| 0 <= i < es.len() ==> good_name(#[trigger] es[i].name@)
    &&& forall|i: int, j: int|
        0 <= i < j < es.len() ==> #[trigger] es[i].name@ != #[trigger] es[j].name@
    &&& forall|i: int| 0 <= i < es.len() ==> wf_names(#[trigger] es[i].node)
}

/// No two matches share a display path.
pub open spec fn distinct_paths(s: Seq<FindResultView>) -> bool {
    forall|i: int, j: int|
        0 <= i < j < s.len() ==> #[trigger] s[i].path != #[trigger] s[j].path
}

/// A path strictly below `p`: it extends `p` with a separator and more.
pub open spec fn prefix_slash(rp: Seq<char>, p: Seq<char>) -> bool {
    &&& rp.len() > p.len()
    &&& rp.take(p.len() as int) == p
    &&& rp[p.len() as int] == '/'
}

/// A path under the entry of `p` named `name`: it begins with
/// `p + "/" + name` and either stops there or descends further.
pub open spec fn extends_with_segment(rp: Seq<char>, p: Seq<char>, name: Seq<char>) -> bool {
    let base = p.len() + 1 + name.len();
    &&& rp.len() >= base
    &&& rp.take(base as int) == p + "/"@ + name
    &&& (rp.len() == base || rp[base as int] == '/')
}

/// A path under some entry of `es`, listed from directory path `p`.
pub open spec fn attributed(rp: Seq<char>, es: Seq<FsEntry>, p: Seq<char>) -> bool {
    exists|j: int| 0 <= j < es.len() && extends_with_segment(rp, p, #[trigger] es[j].name@)
}

proof fn lemma_segment_names_agree_ordered(rp: Seq<char>, p: Seq<char>, n1: Seq<char>, n2: Seq<char>)
    requires
        extends_with_segment(rp, p, n1),
        extends_with_segment(rp, p, n2),
        good_name(n1),
        good_name(n2),
        n1.len() <= n2.len(),
    ensures
        n1 == n2,
{
    reveal_strlit("/");
    let base1 = p.len() + 1 + n1.len();
    let base2 = p.len() + 1 + n2.len();
    assert forall|k: int| 0 <= k < n1.len() implies n1[k] == n2[k] by {
        assert(rp.take(base1 as int)[p.len() + 1 + k] == n1[k]);
        assert(rp.take(base2 as int)[p.len() + 1 + k] == n2[k]);
        assert(rp[p.len() + 1 + k] == n1[k] && rp[p.len() + 1 + k] == n2[k]);
    }
    if n1.len() < n2.len() {
        assert(rp.take(base2 as int)[base1 as int] == n2[n1.len() as int]);
        assert(rp[base1 as int] == n2[n1.len() as int]);
        assert(rp.len() > base1);
        assert(rp[base1 as int] == '/');
        assert(n2[n1.len() as int] != '/');
        assert(false);
    } else {
        assert(n1 =~= n2);
    }
}

/// Two paths under differently named entries of one directory differ.
proof fn lemma_segment_paths_differ(
    rp1: Seq<char>,
    rp2: Seq<char>,
    p: Seq<char>,
    n1: Seq<char>,
    n2: Seq<char>,
)
    requires
        extends_with_segment(rp1, p, n1),
        extends_with_segment(rp2, p, n2),
        good_name(n1),
        good_name(n2),
        n1 != n2,
    ensures
        rp1 != rp2,
{
    if rp1 == rp2 {
        if n1.len() <= n2.len() {
            lemma_segment_names_agree_ordered(rp1, p, n1, n2);
        } else {
            lemma_segment_names_agree_ordered(rp1, p, n2, n1);
        }
    }
}

/// Every recorded path lies strictly below the walked directory.
pub proof fn lemma_walk_shape(n: FsNode, p: Seq<char>, name: Seq<char>)
    ensures
        forall|k: int|
            0 <= k < walk_of(n, p, name).len() ==> prefix_slash(
                #[trigger] walk_of(n, p, name)[k].path,
                p,
            ),
    decreases n,
{
    if let FsNode::Dir { age_days, entries } = n {
        lemma_walk_entries_shape(entries@, p, name, earliest_of(n));
        assert forall|k: int| 0 <= k < walk_of(n, p, name).len() implies prefix_slash(
            walk_of(n, p, name)[k].path,
            p,
        ) by {
            assert(walk_of(n, p, name) == walk_of_entries(entries@, p, name, earliest_of(n)));
            assert(prefix_slash(walk_of_entries(entries@, p, name, earliest_of(n))[k].path, p));
        }
    }
}

proof fn lemma_walk_entries_shape(es: Seq<FsEntry>, p: Seq<char>, name: Seq<char>, a: u64)
    ensures
        forall|k: int|
            0 <= k < walk_of_entries(es, p, name, a).len() ==> prefix_slash(
                #[trigger] walk_of_entries(es, p, name, a)[k].path,
                p,
            ),
    decreases es,
{
    reveal_strlit("/");
    if es.len() > 0 {
        lemma_walk_entry_shape(es[0], p, name, a);
        lemma_walk_entries_shape(es.drop_first(), p, name, a);
        let whole = walk_of_entries(es, p, name, a);
        let head = walk_of_entry(es[0], p, name, a);
        let rest = walk_of_entries(es.drop_first(), p, name, a);
        assert forall|k: int| 0 <= k < whole.len() implies prefix_slash(whole[k].path, p) by {
            if k < head.len() {
                assert(whole[k] == head[k]);
            } else {
                assert(whole[k] == rest[k - head.len()]);
            }
        }
    }
}

proof fn lemma_walk_entry_shape(e: FsEntry, p: Seq<char>, name: Seq<char>, a: u64)
    ensures
        forall|k: int|
            0 <= k < walk_of_entry(e, p, name, a).len() ==> extends_with_segment(
                #[trigger] walk_of_entry(e, p, name, a)[k].path,
                p,
                e.name@,
            ),
        forall|k: int|
            0 <= k < walk_of_entry(e, p, name, a).len() ==> prefix_slash(
                #[trigger] walk_of_entry(e, p, name, a)[k].path,
                p,
            ),
    decreases e,
{
    reveal_strlit("/");
    let child = p + "/"@ + e.name@;
    let base = p.len() + 1 + e.name@.len();
    if e.node is Dir {
        if e.name@ == name {
            let rp = walk_of_entry(e, p, name, a)[0].path;
            assert(rp == child);
            assert(rp.take(base as int) =~= child);
        } else {
            lemma_walk_shape(e.node, child, name);
            assert forall|k: int|
                0 <= k < walk_of_entry(e, p, name, a).len() implies extends_with_segment(
                walk_of_entry(e, p, name, a)[k].path,
                p,
                e.name@,
            ) by {
                let rp = walk_of_entry(e, p, name, a)[k].path;
                assert(walk_of_entry(e, p, name, a) == walk_of(e.node, child, name));
                assert(prefix_slash(walk_of(e.node, child, name)[k].path, child));
                assert(prefix_slash(rp, child));
                assert(rp.take(base as int) =~= child);
            }
        }
        assert forall|k: int| 0 <= k < walk_of_entry(e, p, name, a).len() implies prefix_slash(
            walk_of_entry(e, p, name, a)[k].path,
            p,
        ) by {
            let rp = walk_of_entry(e, p, name, a)[k].path;
            assert(rp.take(base as int) == child);
            assert forall|i: int| 0 <= i < p.len() implies rp[i] == p[i] by {
                assert(rp.take(base as int)[i] == child[i]);
            }
            assert(rp.take(p.len() as int) =~= p);
            assert(rp.take(base as int)[p.len() as int] == child[p.len() as int]);
            assert(rp[p.len() as int] == '/');
        }
    }
}

/// Law: no two matches of one walk share a path — a directory is visited
/// and classified exactly once (for a tree whose entry names are usable
/// and distinct within each directory, as on a real file system).
pub proof fn lemma_walk_paths_distinct(n: FsNode, p: Seq<char>, name: Seq<char>)
    requires
        wf_names(n),
    ensures
        distinct_paths(walk_of(n, p, name)),
    decreases n,
{
    if let FsNode::Dir { age_days, entries } = n {
        lemma_walk_entries_distinct(entries@, p, name, earliest_of(n));
    }
}

proof fn lemma_walk_entries_distinct(es: Seq<FsEntry>, p: Seq<char>, name: Seq<char>, a: u64)
    requires
        wf_entry_names(es),
    ensures
        distinct_paths(walk_of_entries(es, p, name, a)),
        forall|k: int|
            0 <= k < walk_of_entries(es, p, name, a).len() ==> attributed(
                #[trigger] walk_of_entries(es, p, name, a)[k].path,
                es,
                p,
            ),
    decreases es,
{
    if es.len() > 0 {
        let e0 = es[0];
        let rest = es.drop_first();
        let whole = walk_of_entries(es, p, name, a);
        let head = walk_of_entry(e0, p, name, a);
        let tail = walk_of_entries(rest, p, name, a);
        assert(wf_entry_names(rest)) by {
            assert(forall|i: int| 0 <= i < rest.len() ==> #[trigger] rest[i] == es[i + 1]);
        }
        lemma_walk_entries_distinct(rest, p, name, a);
        lemma_walk_entry_shape(e0, p, name, a);
        if e0.node is Dir && e0.name@ != name {
            lemma_walk_paths_distinct(e0.node, p + "/"@ + e0.name@, name);
        }
        assert forall|k: int| 0 <= k < whole.len() implies attributed(whole[k].path, es, p) by {
            if k < head.len() {
                assert(whole[k] == head[k]);
                assert(extends_with_segment(whole[k].path, p, es[0].name@));
            } else {
                assert(whole[k] == tail[k - head.len()]);
                assert(attributed(whole[k].path, rest, p));
                let j = choose|j: int|
                    0 <= j < rest.len() && extends_with_segment(whole[k].path, p, rest[j].name@);
                assert(rest[j] == es[j + 1]);
                assert(extends_with_segment(whole[k].path, p, es[j + 1].name@));
            }
        }
        assert forall|i: int, j: int| 0 <= i < j < whole.len() implies whole[i].path
            != whole[j].path by {
            if j < head.len() {
                // both inside this entry's own matches
                assert(whole[i] == head[i] && whole[j] == head[j]);
                if e0.node is Dir && e0.name@ == name {
                    assert(head.len() == 1);
                } else if e0.node is Dir {
                    assert(distinct_paths(head));
                }
            } else if i >= head.len() {
                assert(whole[i] == tail[i - head.len()] && whole[j] == tail[j - head.len()]);
                assert(distinct_paths(tail));
            } else {
                assert(whole[i] == head[i] && whole[j] == tail[j - head.len()]);
                assert(extends_with_segment(whole[i].path, p, es[0].name@));
                assert(attributed(whole[j].path, rest, p));
                let m = choose|m: int|
                    0 <= m < rest.len() && extends_with_segment(whole[j].path, p, rest[m].name@);
                assert(rest[m] == es[m + 1]);
                assert(es[0].name@ != es[m + 1].name@);
                assert(good_name(es[0].name@) && good_name(es[m + 1].name@));
                lemma_segment_paths_differ(
                    whole[i].path,
                    whole[j].path,
                    p,
                    es[0].name@,
                    rest[m].name@,
                );
            }
        }
    }
}

/// Walks the tree under `node`, recording every directory named `name`.
/// A match is recorded with the subtree's total size and with the earliest
/// age found under the directory that holds the match; the walk does not
/// descend into a match and never follows a symlink. Matches arrive in
/// depth-first pre-order.
pub fn walk(node: &FsNode, dir_path: &String, name: &String) -> (r: Vec<FindResult>)
    requires
        size_of(*node) <= u64::MAX,
    ensures
        views_of(r@) == walk_of(*node, dir_path@, name@),
{
    let mut results: Vec<FindResult> = Vec::new();
    do_find(node, dir_path, name, &mut results);
    proof {
        assert(views_of(Seq::<FindResult>::empty()) + walk_of(*node, dir_path@, name@)
            =~= walk_of(*node, dir_path@, name@));
    }
    results
}

/// One step of the walk: appends the matches under `node` to `results`.
fn do_find(node: &FsNode, dir_path: &String, name: &String, results: &mut Vec<FindResult>)
    requires
        size_of(*node) <= u64::MAX,
    ensures
        views_of(final(results)@) == views_of(old(results)@) + walk_of(
            *node,
            dir_path@,
            name@,
        ),
    decreases *node,
{
    let ghost base = views_of(results@);
    match node {
        FsNode::Dir { entries, .. } => {
            let ghost es = entries@;
            let ghost age = earliest_of(*node);
            let n = entries.len();
            let mut i: usize = 0;
            while i < n
                invariant
                    i <= n,
                    n == es.len(),
                    entries@ == es,
                    *node is Dir,
                    (*node)->Dir_entries@ == es,
                    size_of_entries(es) <= u64::MAX,
                    age == earliest_of(*node),
                    views_of(results@) == base + walk_of_entries(
                        es.take(i as int),
                        dir_path@,
                        name@,
                        age,
                    ),
                decreases n - i,
            {
                proof {
                    lemma_size_entries_split(es, i as int);
                    lemma_size_entries_split(es.skip(i as int), 1);
                    assert(es.skip(i as int).take(1) =~= seq![es[i as int]]);
                    assert(seq![es[i as int]].drop_first() =~= Seq::<FsEntry>::empty());
                    assert(es.skip(i as int).skip(1) =~= es.skip(i as int + 1));
                    lemma_size_entries_nonneg(es.take(i as int));
                    lemma_size_entries_nonneg(es.skip(i as int + 1));
                    lemma_size_nonneg(es[i as int].node);
                    lemma_walk_entries_take_step(es, i as int, dir_path@, name@, age);
                    assert(decreases_to!(*node => (*node)->Dir_entries));
                    assert(decreases_to!((*node)->Dir_entries => (*node)->Dir_entries@));
                    assert(decreases_to!(es => es[i as int]));
                    assert(decreases_to!(es[i as int] => es[i as int].node));
                }
                let e = &entries[i];
                let is_dir = matches!(&e.node, FsNode::Dir { .. });
                if is_dir {
                    let mut child_path = dir_path.clone();
                    child_path.append("/");
                    child_path.append(e.name.as_str());
                    if e.name == *name {
                        let size = total_size(&e.node);
                        let days_old = earliest_modified(node);
                        let ghost before = views_of(results@);
                        let found = FindResult { path: child_path, size, days_old };
                        let ghost foundv = found@;
                        results.push(found);
                        proof {
                            assert(views_of(results@) =~= before.push(foundv));
                            assert(before.push(foundv) =~= before + walk_of_entry(
                                es[i as int],
                                dir_path@,
                                name@,
                                age,
                            ));
                            assert(base + walk_of_entries(es.take(i as int), dir_path@, name@, age)
                                + walk_of_entry(es[i as int], dir_path@, name@, age) =~= base
                                + walk_of_entries(es.take(i as int + 1), dir_path@, name@, age));
                        }
                    } else {
                        do_find(&e.node, &child_path, name, results);
                        proof {
                            assert(base + walk_of_entries(es.take(i as int), dir_path@, name@, age)
                                + walk_of_entry(es[i as int], dir_path@, name@, age) =~= base
                                + walk_of_entries(es.take(i as int + 1), dir_path@, name@, age));
                        }
                    }
                } else {
                    proof {
                        assert(walk_of_entry(es[i as int], dir_path@, name@, age)
                            =~= Seq::<FindResultView>::empty());
                        assert(base + walk_of_entries(es.take(i as int), dir_path@, name@, age)
                            =~= base + walk_of_entries(es.take(i as int + 1), dir_path@, name@, age));
                    }
                }
                i = i + 1;
            }
            proof {
                assert(es.take(n as int) =~= es);
            }
        },
        _ => {
            proof {
                assert(base + walk_of(*node, dir_path@, name@) =~= base);
            }
        },
    }
}

} // verus!
