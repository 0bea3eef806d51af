use vstd::prelude::*;

verus! {

/// One entry of a directory in an in-memory snapshot of a file tree: the
/// final path component and the node found under that name.
pub struct FsEntry {
    pub name: String,
    pub node: FsNode,
}

/// An in-memory snapshot of a file-system node, as the scan reads it from
/// disk: a regular file with its byte length and its age in whole days, a
/// symbolic link (never followed), or a directory with its own age and its
/// entries in listing order.
pub enum FsNode {
    File { size: u64, age_days: u64 },
    Symlink,
    Dir { age_days: u64, entries: Vec<FsEntry> },
}

/// The total on-disk size of a node: a file counts its byte length, a
/// symlink counts nothing, and a directory counts the sum over its entries.
pub open spec fn size_of(n: FsNode) -> int
    decreases n,
{
    match n {
        FsNode::File { size, .. } => size as int,
        FsNode::Symlink => 0,
        FsNode::Dir { entries, .. } => size_of_entries(entries@),
    }
}

/// The sum of `size_of` over a sequence of directory entries.
pub open spec fn size_of_entries(es: Seq<FsEntry>) -> int
    decreases es,
{
    if es.len() == 0 {
        0
    } else {
        size_of(es[0].node) + size_of_entries(es.drop_first())
    }
}

pub proof fn lemma_size_nonneg(n: FsNode)
    ensures
        size_of(n) >= 0,
    decreases n,
{
    match n {
        FsNode::Dir { entries, .. } => lemma_size_entries_nonneg(entries@),
        _ => (),
    }
}

pub proof fn lemma_size_entries_nonneg(es: Seq<FsEntry>)
    ensures
        size_of_entries(es) >= 0,
    decreases es,
{
    if es.len() > 0 {
        lemma_size_nonneg(es[0].node);
        lemma_size_entries_nonneg(es.drop_first());
    }
}

/// Splitting a sequence of entries splits its size sum.
pub proof fn lemma_size_entries_split(es: Seq<FsEntry>, i: int)
    requires
        0 <= i <= es.len(),
    ensures
        size_of_entries(es) == size_of_entries(es.take(i)) + size_of_entries(es.skip(i)),
    decreases i,
{
    if i == 0 {
        assert(es.take(0) =~= Seq::<FsEntry>::empty());
        assert(es.skip(0) =~= es);
    } else {
        lemma_size_entries_split(es.drop_first(), i - 1);
        assert(es.take(i).drop_first() =~= es.drop_first().take(i - 1));
        assert(es.skip(i) =~= es.drop_first().skip(i - 1));
        assert(es.take(i)[0] == es[0]);
    }
}

/// Extending a prefix of entries by one adds that entry's size.
pub proof fn lemma_size_entries_take_step(es: Seq<FsEntry>, i: int)
    requires
        0 <= i < es.len(),
    ensures
        size_of_entries(es.take(i + 1)) == size_of_entries(es.take(i)) + size_of(es[i].node),
{
    reveal_with_fuel(size_of_entries, 2);
    lemma_size_entries_split(es.take(i + 1), i);
    assert(es.take(i + 1).take(i) =~= es.take(i));
    assert(es.take(i + 1).skip(i) =~= seq![es[i]]);
    assert(seq![es[i]].drop_first() =~= Seq::<FsEntry>::empty());
}

/// The total size of a directory tree, computed bottom-up. Symbolic links
/// are not followed and contribute nothing; a directory contributes the sum
/// over its entries; a file contributes its byte length.
pub fn total_size(node: &FsNode) -> (r: u64)
    requires
        size_of(*node) <= u64::MAX,
    ensures
        r as int == size_of(*node),
    decreases *node,
{
    match node {
        FsNode::File { size, .. } => *size,
        FsNode::Symlink => 0u64,
        FsNode::Dir { entries, .. } => {
            let ghost es = entries@;
            let n = entries.len();
            let mut total: u64 = 0;
            let mut i: usize = 0;
            while i < n
                invariant
                    i <= n,
                    n == es.len(),
                    entries@ == es,
                    *node is Dir,
                    (*node)->Dir_entries@ == es,
                    size_of_entries(es) <= u64::MAX,
                    total as int == size_of_entries(es.take(i as int)),
                decreases n - i,
            {
                proof {
                    lemma_size_entries_split(es, i as int);
                    lemma_size_entries_split(es.skip(i as int), 1);
                    assert(es.skip(i as int).take(1) =~= seq![es[i as int]]);
                    assert(seq![es[i as int]].drop_first() =~= Seq::<FsEntry>::empty());
                    assert(es.skip(i as int).skip(1) =~= es.skip(i as int + 1));
                    lemma_size_entries_nonneg(es.take(i as int));
                    lemma_size_entries_nonneg(es.skip(i as int + 1));
                    lemma_size_nonneg(es[i as int].node);
                    lemma_size_entries_take_step(es, i as int);
                    assert(decreases_to!(*node => (*node)->Dir_entries));
                    assert(decreases_to!((*node)->Dir_entries => (*node)->Dir_entries@));
                    assert(decreases_to!(es => es[i as int]));
                    assert(decreases_to!(es[i as int] => es[i as int].node));
                }
                let e = &entries[i];
                let s = total_size(&e.node);
                total = total + s;
                i = i + 1;
            }
            proof {
                assert(es.take(n as int) =~= es);
            }
            total
        },
    }
}

/// The smaller of two day counts.
pub open spec fn min64(a: u64, b: u64) -> u64 {
    if a <= b {
        a
    } else {
        b
    }
}

/// The age a node reports for itself: its own days since modification for a
/// file or a directory, and the largest possible age for a symlink, which
/// therefore can never set a minimum.
pub open spec fn own_age(n: FsNode) -> u64 {
    match n {
        FsNode::File { age_days, .. } => age_days,
        FsNode::Symlink => u64::MAX,
        FsNode::Dir { age_days, .. } => age_days,
    }
}

/// The age in days of the most recently touched node of a subtree: the
/// minimum of the node's own age and the ages throughout its entries,
/// never crossing a symlink.
pub open spec fn earliest_of(n: FsNode) -> u64
    decreases n,
{
    match n {
        FsNode::File { age_days, .. } => age_days,
        FsNode::Symlink => u64::MAX,
        FsNode::Dir { age_days, entries } => min64(age_days, earliest_of_entries(entries@)),
    }
}

/// The minimum of `earliest_of` over a sequence of directory entries.
pub open spec fn earliest_of_entries(es: Seq<FsEntry>) -> u64
    decreases es,
{
    if es.len() == 0 {
        u64::MAX
    } else {
        min64(earliest_of(es[0].node), earliest_of_entries(es.drop_first()))
    }
}

/// Splitting a sequence of entries splits its age minimum.
pub proof fn lemma_earliest_entries_split(es: Seq<FsEntry>, i: int)
    requires
        0 <= i <= es.len(),
    ensures
        earliest_of_entries(es) == min64(
            earliest_of_entries(es.take(i)),
            earliest_of_entries(es.skip(i)),
        ),
    decreases i,
{
    if i == 0 {
        assert(es.take(0) =~= Seq::<FsEntry>::empty());
        assert(es.skip(0) =~= es);
    } else {
        lemma_earliest_entries_split(es.drop_first(), i - 1);
        assert(es.take(i).drop_first() =~= es.drop_first().take(i - 1));
        assert(es.skip(i) =~= es.drop_first().skip(i - 1));
        assert(es.take(i)[0] == es[0]);
    }
}

/// Extending a prefix of entries by one takes that entry's age into the minimum.
pub proof fn lemma_earliest_entries_take_step(es: Seq<FsEntry>, i: int)
    requires
        0 <= i < es.len(),
    ensures
        earliest_of_entries(es.take(i + 1)) == min64(
            earliest_of_entries(es.take(i)),
            earliest_of(es[i].node),
        ),
{
    reveal_with_fuel(earliest_of_entries, 2);
    lemma_earliest_entries_split(es.take(i + 1), i);
    assert(es.take(i + 1).take(i) =~= es.take(i));
    assert(es.take(i + 1).skip(i) =~= seq![es[i]]);
    assert(seq![es[i]].drop_first() =~= Seq::<FsEntry>::empty());
}

/// The age of the most recently touched node under `node`, in whole days.
/// The walk stops early as soon as it sees a node touched today, since no
/// smaller age exists; the result is the same either way.
pub fn earliest_modified(node: &FsNode) -> (r: u64)
    ensures
        r == earliest_of(*node),
    decreases *node,
{
    match node {
        FsNode::File { age_days, .. } => *age_days,
        FsNode::Symlink => u64::MAX,
        FsNode::Dir { age_days, entries } => {
            let ghost es = entries@;
            let mut best: u64 = *age_days;
            if best == 0 {
                return 0;
            }
            let n = entries.len();
            let mut i: usize = 0;
            while i < n
                invariant
                    i <= n,
                    n == es.len(),
                    entries@ == es,
                    *node is Dir,
                    (*node)->Dir_entries@ == es,
                    best == min64(own_age(*node), earliest_of_entries(es.take(i as int))),
                    best != 0,
                decreases n - i,
            {
                let e = &entries[i];
                proof {
                    assert(decreases_to!(*node => (*node)->Dir_entries));
                    assert(decreases_to!((*node)->Dir_entries => (*node)->Dir_entries@));
                    assert(decreases_to!(es => es[i as int]));
                    assert(decreases_to!(es[i as int] => es[i as int].node));
                }
                let a = earliest_modified(&e.node);
                proof {
                    lemma_earliest_entries_take_step(es, i as int);
                }
                if a < best {
                    best = a;
                }
                if best == 0 {
                    proof {
                        lemma_earliest_entries_split(es, i as int + 1);
                    }
                    return 0;
                }
                i = i + 1;
            }
            proof {
                assert(es.take(n as int) =~= es);
            }
            best
        },
    }
}

/// The age in whole days of a node last modified at `modified_secs`, seen
/// from `now_secs`, both in seconds since the Unix epoch. `None` when the
/// modification lies in the future, which callers report as an error.
pub fn days_old(now_secs: u64, modified_secs: u64) -> (r: Option<u64>)
    ensures
        modified_secs <= now_secs ==> (r matches Some(d) && d as int == ((now_secs
            - modified_secs) as int) / 86400int),
        modified_secs > now_secs ==> r is None,
{
    if modified_secs <= now_secs {
        Some((now_secs - modified_secs) / (24 * 3600))
    } else {
        None
    }
}

/// Whether some node of the subtree, reachable without crossing a symlink,
/// was modified within the last day.
pub open spec fn touched_today(n: FsNode) -> bool
    decreases n,
{
    match n {
        FsNode::File { age_days, .. } => age_days == 0,
        FsNode::Symlink => false,
        FsNode::Dir { age_days, entries } => age_days == 0 || touched_today_entries(entries@),
    }
}

/// Whether some entry of the sequence satisfies `touched_today`.
pub open spec fn touched_today_entries(es: Seq<FsEntry>) -> bool
    decreases es,
{
    es.len() > 0 && (touched_today(es[0].node) || touched_today_entries(es.drop_first()))
}

/// Law: the earliest age of a subtree never exceeds the age of the node
/// itself, and for a directory it never exceeds the earliest age of any
/// entry's subtree; applied along a path of entries, the second bound
/// extends to every descendant not behind a symlink.
pub proof fn lemma_earliest_is_minimal(n: FsNode)
    ensures
        earliest_of(n) <= own_age(n),
        forall|i: int|
            #![trigger earliest_of((n->Dir_entries)@[i].node)]
            n is Dir && 0 <= i < (n->Dir_entries)@.len() ==> earliest_of(n) <= earliest_of(
                (n->Dir_entries)@[i].node,
            ),
{
    if let FsNode::Dir { age_days, entries } = n {
        assert forall|i: int| 0 <= i < entries@.len() implies earliest_of(n) <= earliest_of(
            #[trigger] entries@[i].node,
        ) by {
            lemma_earliest_entries_split(entries@, i);
            lemma_earliest_entries_split(entries@.skip(i), 1);
            assert(entries@.skip(i).take(1) =~= seq![entries@[i]]);
            assert(seq![entries@[i]].drop_first() =~= Seq::<FsEntry>::empty());
        }
    }
}

/// Law: the earliest age of a subtree is zero exactly when some node of the
/// subtree, reachable without crossing a symlink, was modified today.
pub proof fn lemma_earliest_zero_iff_touched(n: FsNode)
    ensures
        earliest_of(n) == 0 <==> touched_today(n),
    decreases n,
{
    if let FsNode::Dir { age_days, entries } = n {
        lemma_earliest_entries_zero_iff_touched(entries@);
    }
}

pub proof fn lemma_earliest_entries_zero_iff_touched(es: Seq<FsEntry>)
    ensures
        earliest_of_entries(es) == 0 <==> touched_today_entries(es),
    decreases es,
{
    if es.len() > 0 {
        lemma_earliest_zero_iff_touched(es[0].node);
        lemma_earliest_entries_zero_iff_touched(es.drop_first());
    }
}

/// Law: a directory's total size is the sum of its entries' sizes, and a
/// symlink entry contributes exactly zero to that sum.
pub proof fn lemma_dir_size_is_sum_of_children(n: FsNode)
    requires
        n is Dir,
    ensures
        size_of(n) == size_of_entries((n->Dir_entries)@),
        forall|i: int|
            0 <= i < (n->Dir_entries)@.len() && (n->Dir_entries)@[i].node is Symlink
                ==> size_of(#[trigger] (n->Dir_entries)@[i].node) == 0,
{
}

} // verus!
