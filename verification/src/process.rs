use vstd::prelude::*;
use vstd::multiset::Multiset;
use crate::walk::{FindResult, FindResultView, views_of, sum_sizes, lemma_sum_sizes_nonneg,
    lemma_sum_sizes_concat};

verus! {

broadcast use vstd::seq_lib::group_to_multiset_ensures;

/// The outcome of one processing pass over the matches of a walk: the
/// matches that pass both thresholds, sorted, together with the summary
/// totals of both buckets and the longest kept path for display alignment.
pub struct ProcessedResults {
    pub results: Vec<FindResult>,
    pub longest_path: usize,
    pub found_dirs: u64,
    pub found_bytes: u64,
    pub skipped_dirs: u64,
    pub skipped_bytes: u64,
}

/// The key a processing pass orders by: age when sorting by age, size
/// otherwise.
pub open spec fn sort_key(by_age: bool, m: FindResultView) -> u64 {
    if by_age {
        m.days_old
    } else {
        m.size
    }
}

/// Whether a sequence of matches is ordered by non-increasing key.
pub open spec fn sorted_desc(s: Seq<FindResultView>, by_age: bool) -> bool {
    forall|x: int, y: int|
        0 <= x <= y < s.len() ==> sort_key(by_age, s[x]) >= sort_key(by_age, s[y])
}

/// Whether a match passes both thresholds: at least `min_bytes` large and
/// at least `min_age_days` old, inclusive on both sides.
pub open spec fn keeps(m: FindResultView, min_bytes: int, min_age_days: u64) -> bool {
    m.days_old >= min_age_days && m.size >= min_bytes
}

/// `keeps` as a predicate on one match, for filtering.
pub open spec fn keeps_pred(min_bytes: int, min_age_days: u64) -> spec_fn(FindResultView) -> bool {
    |m: FindResultView| keeps(m, min_bytes, min_age_days)
}

/// The byte length of the longest path among a sequence of matches, zero
/// if there are none.
pub open spec fn longest_of(s: Seq<FindResultView>) -> int
    decreases s,
{
    if s.len() == 0 {
        0
    } else {
        let head = (vstd::utf8::encode_utf8(s[0].path).len() as usize) as int;
        let rest = longest_of(s.drop_first());
        if head >= rest {
            head
        } else {
            rest
        }
    }
}

/// What it means for `r` to be the processing of the matches `input` under
/// the given thresholds and sort mode: the kept matches are exactly those
/// that pass both thresholds, ordered by non-increasing key, and the two
/// buckets' counts and byte totals partition the input's.
pub open spec fn is_processing_of(
    r: ProcessedResults,
    input: Seq<FindResultView>,
    min_bytes: int,
    min_age_days: u64,
    sort_by_age: bool,
) -> bool {
    &&& views_of(r.results@).to_multiset() == input.to_multiset().filter(
        keeps_pred(min_bytes, min_age_days),
    )
    &&& sorted_desc(views_of(r.results@), sort_by_age)
    &&& r.found_dirs == views_of(r.results@).len()
    &&& r.found_bytes == sum_sizes(views_of(r.results@))
    &&& r.found_dirs + r.skipped_dirs == input.len()
    &&& r.found_bytes + r.skipped_bytes == sum_sizes(input)
    &&& r.longest_path == longest_of(views_of(r.results@))
}

/// The sort key of one result, read off the concrete value.
fn key_of(r: &FindResult, by_age: bool) -> (k: u64)
    ensures
        k == sort_key(by_age, r@),
{
    if by_age {
        r.days_old
    } else {
        r.size
    }
}

/// Sorts the results by non-increasing key — age when `sort_by_age` is
/// set, size otherwise — keeping exactly the same matches. Equal keys may
/// end up in any order.
pub fn sort_results(results: &mut Vec<FindResult>, sort_by_age: bool)
    ensures
        views_of(final(results)@).to_multiset() == views_of(old(results)@).to_multiset(),
        sorted_desc(views_of(final(results)@), sort_by_age),
        final(results)@.len() == old(results)@.len(),
{
    let ghost orig = views_of(results@);
    let mut out: Vec<FindResult> = Vec::new();
    proof {
        assert(views_of(out@) =~= Seq::<FindResultView>::empty());
    }
    while results.len() > 0
        invariant
            views_of(out@).to_multiset().add(views_of(results@).to_multiset())
                == orig.to_multiset(),
            sorted_desc(views_of(out@), sort_by_age),
            forall|x: int, y: int|
                0 <= x < out@.len() && 0 <= y < results@.len() ==> sort_key(
                    sort_by_age,
                    views_of(out@)[x],
                ) >= sort_key(sort_by_age, views_of(results@)[y]),
            out@.len() + results@.len() == orig.len(),
        decreases results@.len(),
    {
        let mut best: usize = 0;
        let mut j: usize = 1;
        while j < results.len()
            invariant
                results@.len() > 0,
                best < j,
                j <= results@.len(),
                forall|k: int|
                    0 <= k < j ==> sort_key(sort_by_age, views_of(results@)[best as int])
                        >= sort_key(sort_by_age, views_of(results@)[k]),
            decreases results@.len() - j,
        {
            if key_of(&results[j], sort_by_age) > key_of(&results[best], sort_by_age) {
                best = j;
            }
            j = j + 1;
        }
        let ghost before = views_of(results@);
        let ghost bestv = views_of(results@)[best as int];
        let item = results.remove(best);
        let ghost outv = views_of(out@);
        out.push(item);
        proof {
            assert(views_of(results@) =~= before.remove(best as int));
            assert(views_of(out@) =~= outv.push(bestv));
            assert(views_of(out@).to_multiset().add(views_of(results@).to_multiset())
                =~= orig.to_multiset());
        }
    }
    *results = out;
}

pub proof fn lemma_sum_sizes_push(s: Seq<FindResultView>, m: FindResultView)
    ensures
        sum_sizes(s.push(m)) == sum_sizes(s) + m.size,
{
    reveal_with_fuel(sum_sizes, 2);
    assert(s.push(m) =~= s + seq![m]);
    lemma_sum_sizes_concat(s, seq![m]);
    assert(seq![m].drop_first() =~= Seq::<FindResultView>::empty());
}

pub proof fn lemma_sum_sizes_split(s: Seq<FindResultView>, i: int)
    requires
        0 <= i <= s.len(),
    ensures
        sum_sizes(s) == sum_sizes(s.take(i)) + sum_sizes(s.skip(i)),
{
    assert(s =~= s.take(i) + s.skip(i));
    lemma_sum_sizes_concat(s.take(i), s.skip(i));
}

pub proof fn lemma_sum_sizes_take_step(s: Seq<FindResultView>, i: int)
    requires
        0 <= i < s.len(),
    ensures
        sum_sizes(s.take(i + 1)) == sum_sizes(s.take(i)) + s[i].size,
{
    assert(s.take(i + 1) =~= s.take(i).push(s[i]));
    lemma_sum_sizes_push(s.take(i), s[i]);
}

/// Folding sizes from any start value adds the sum of the sequence.
proof fn lemma_sum_sizes_fold(s: Seq<FindResultView>, v: int)
    ensures
        s.fold_right(|m: FindResultView, acc: int| acc + m.size, v) == v + sum_sizes(s),
    decreases s.len(),
{
    if s.len() > 0 {
        let t = s.drop_last();
        let a = s.last();
        lemma_sum_sizes_fold(t, v + a.size);
        assert(s =~= t.push(a));
        lemma_sum_sizes_push(t, a);
    }
}

/// Law: the size sum of a sequence of matches depends only on which
/// matches it holds, not on their order.
pub proof fn lemma_sum_sizes_permutation(a: Seq<FindResultView>, b: Seq<FindResultView>)
    requires
        a.to_multiset() == b.to_multiset(),
    ensures
        sum_sizes(a) == sum_sizes(b),
{
    let f = |m: FindResultView, acc: int| acc + m.size;
    assert(vstd::seq_lib::commutative_foldr(f)) by {
        assert(forall|x: FindResultView, y: FindResultView, v: int|
            #[trigger] f(x, f(y, v)) == f(y, f(x, v)));
    }
    vstd::seq_lib::lemma_fold_right_permutation(a, b, f, 0);
    lemma_sum_sizes_fold(a, 0);
    lemma_sum_sizes_fold(b, 0);
}

/// Keeping only some matches cannot increase the size sum.
pub proof fn lemma_sum_sizes_filter_le(s: Seq<FindResultView>, pred: spec_fn(FindResultView) -> bool)
    ensures
        0 <= sum_sizes(s.filter(pred)),
        sum_sizes(s.filter(pred)) <= sum_sizes(s),
    decreases s.len(),
{
    reveal(Seq::filter);
    lemma_sum_sizes_nonneg(s.filter(pred));
    if s.len() > 0 {
        let t = s.drop_last();
        let a = s.last();
        lemma_sum_sizes_filter_le(t, pred);
        assert(s =~= t.push(a));
        lemma_sum_sizes_push(t, a);
        if pred(a) {
            lemma_sum_sizes_push(t.filter(pred), a);
        }
    }
}

/// Filtering a sequence and filtering its multiset of elements agree.
pub proof fn lemma_filter_to_multiset(s: Seq<FindResultView>, pred: spec_fn(FindResultView) -> bool)
    ensures
        s.filter(pred).to_multiset() == s.to_multiset().filter(pred),
    decreases s.len(),
{
    broadcast use vstd::multiset::group_multiset_axioms;

    reveal(Seq::filter);
    if s.len() == 0 {
        assert(s.to_multiset() =~= Multiset::<FindResultView>::empty());
        assert(s.filter(pred).to_multiset() =~= s.to_multiset().filter(pred));
    } else {
        let t = s.drop_last();
        let a = s.last();
        lemma_filter_to_multiset(t, pred);
        assert(s =~= t.push(a));
        assert(s.to_multiset() == t.to_multiset().insert(a));
        if pred(a) {
            assert(s.filter(pred).to_multiset() == t.filter(pred).to_multiset().insert(a));
            assert(t.to_multiset().filter(pred).insert(a) =~= s.to_multiset().filter(pred));
        } else {
            assert(s.filter(pred).to_multiset() =~= s.to_multiset().filter(pred));
        }
    }
}

/// Filtering a sorted sequence leaves it sorted.
pub proof fn lemma_filter_sorted(
    s: Seq<FindResultView>,
    pred: spec_fn(FindResultView) -> bool,
    by_age: bool,
)
    requires
        sorted_desc(s, by_age),
    ensures
        sorted_desc(s.filter(pred), by_age),
    decreases s.len(),
{
    broadcast use vstd::multiset::group_multiset_axioms;

    reveal(Seq::filter);
    if s.len() > 0 {
        let t = s.drop_last();
        let a = s.last();
        assert(sorted_desc(t, by_age)) by {
            assert(forall|x: int| 0 <= x < t.len() ==> t[x] == s[x]);
        }
        lemma_filter_sorted(t, pred, by_age);
        if pred(a) {
            let tf = t.filter(pred);
            assert forall|x: int| 0 <= x < tf.len() implies sort_key(by_age, tf[x]) >= sort_key(
                by_age,
                a,
            ) by {
                let e = tf[x];
                assert(tf.contains(e));
                lemma_filter_to_multiset(t, pred);
                assert(tf.to_multiset().count(e) > 0);
                assert(t.to_multiset().count(e) > 0);
                assert(t.contains(e));
                let j = choose|j: int| 0 <= j < t.len() && t[j] == e;
                assert(sort_key(by_age, s[j]) >= sort_key(by_age, s[s.len() - 1]));
            }
            assert forall|x: int, y: int|
                0 <= x <= y < s.filter(pred).len() implies sort_key(by_age, s.filter(pred)[x])
                >= sort_key(by_age, s.filter(pred)[y]) by {
                if y < s.filter(pred).len() - 1 {
                    assert(s.filter(pred)[x] == tf[x] && s.filter(pred)[y] == tf[y]);
                } else if x < s.filter(pred).len() - 1 {
                    assert(s.filter(pred)[x] == tf[x]);
                }
            }
        }
    }
}

/// The byte length of the longest path among the results, zero if there
/// are none. Drives the column width of the rendered table.
pub fn longest_path(results: &Vec<FindResult>) -> (r: usize)
    ensures
        r as int == longest_of(views_of(results@)),
{
    let ghost vs = views_of(results@);
    let n = results.len();
    let mut r: usize = 0;
    let mut i: usize = n;
    proof {
        assert(vs.skip(n as int) =~= Seq::<FindResultView>::empty());
    }
    while i > 0
        invariant
            i <= n,
            n == results@.len(),
            views_of(results@) == vs,
            r as int == longest_of(vs.skip(i as int)),
        decreases i,
    {
        i = i - 1;
        proof {
            assert(vs.skip(i as int).drop_first() =~= vs.skip(i as int + 1));
            assert(vs.skip(i as int)[0] == vs[i as int]);
        }
        let len_i = results[i].path.as_str().len();
        if len_i > r {
            r = len_i;
        }
    }
    proof {
        assert(vs.skip(0) =~= vs);
    }
    r
}

/// Relies on bytesize::ByteSize::mb: a megabyte count scaled to bytes at
/// one million bytes per megabyte.
#[verifier::external_body]
fn mb_to_bytes(mb: u64) -> (r: u64)
    requires
        mb * 1000000 <= u64::MAX,
    ensures
        r == mb * 1000000,
{
    bytesize::ByteSize::mb(mb).0
}

/// An identical copy of one result.
fn clone_result(r: &FindResult) -> (c: FindResult)
    ensures
        c@ == r@,
{
    FindResult { path: r.path.clone(), size: r.size, days_old: r.days_old }
}

/// Processes the raw matches of a walk: sorts them by non-increasing size
/// (or age, when `sort_by_age` is set), keeps those at least `min_mb`
/// megabytes large and at least `min_age_days` days old, and sums counts
/// and bytes of the kept and the skipped bucket; the skipped totals are
/// the exact complement of the kept ones.
pub fn process_results(
    results: Vec<FindResult>,
    min_mb: u64,
    min_age_days: u64,
    sort_by_age: bool,
) -> (r: ProcessedResults)
    requires
        min_mb * 1000000 <= u64::MAX,
        sum_sizes(views_of(results@)) <= u64::MAX,
    ensures
        is_processing_of(r, views_of(results@), min_mb * 1000000, min_age_days, sort_by_age),
{
    let ghost input = views_of(results@);
    let mut results = results;
    let mut total_bytes: u64 = 0;
    let mut i: usize = 0;
    proof {
        lemma_sum_sizes_nonneg(input);
        assert(input.take(0) =~= Seq::<FindResultView>::empty());
    }
    while i < results.len()
        invariant
            i <= results@.len(),
            views_of(results@) == input,
            sum_sizes(input) <= u64::MAX,
            total_bytes as int == sum_sizes(input.take(i as int)),
        decreases results@.len() - i,
    {
        proof {
            lemma_sum_sizes_take_step(input, i as int);
            lemma_sum_sizes_split(input, i as int + 1);
            lemma_sum_sizes_nonneg(input.skip(i as int + 1));
            lemma_sum_sizes_nonneg(input.take(i as int));
        }
        total_bytes = total_bytes + results[i].size;
        i = i + 1;
    }
    proof {
        assert(input.take(results@.len() as int) =~= input);
    }
    sort_results(&mut results, sort_by_age);
    let ghost sortedv = views_of(results@);
    let ghost pred = keeps_pred(min_mb as int * 1000000, min_age_days);
    proof {
        lemma_sum_sizes_permutation(sortedv, input);
        assert(sortedv.take(0).filter(pred) =~= Seq::<FindResultView>::empty()) by {
            reveal(Seq::filter);
            assert(sortedv.take(0) =~= Seq::<FindResultView>::empty());
        }
    }
    let min_bytes = mb_to_bytes(min_mb);
    let mut kept: Vec<FindResult> = Vec::new();
    let mut found_bytes: u64 = 0;
    let mut i: usize = 0;
    while i < results.len()
        invariant
            i <= results@.len(),
            views_of(results@) == sortedv,
            min_bytes as int == min_mb as int * 1000000,
            pred == keeps_pred(min_mb as int * 1000000, min_age_days),
            sum_sizes(sortedv) <= u64::MAX,
            views_of(kept@) == sortedv.take(i as int).filter(pred),
            kept@.len() <= i,
            found_bytes as int == sum_sizes(views_of(kept@)),
        decreases results@.len() - i,
    {
        let keep_it = {
            let r = &results[i];
            r.days_old >= min_age_days && r.size >= min_bytes
        };
        proof {
            reveal(Seq::filter);
            assert(sortedv.take(i as int + 1).drop_last() =~= sortedv.take(i as int));
            assert(sortedv.take(i as int + 1).last() == sortedv[i as int]);
        }
        if keep_it {
            let ghost keptv = views_of(kept@);
            let c = clone_result(&results[i]);
            proof {
                lemma_sum_sizes_filter_le(sortedv.take(i as int + 1), pred);
                lemma_sum_sizes_split(sortedv, i as int + 1);
                lemma_sum_sizes_nonneg(sortedv.skip(i as int + 1));
                lemma_sum_sizes_push(keptv, c@);
            }
            let size = c.size;
            kept.push(c);
            found_bytes = found_bytes + size;
            proof {
                assert(views_of(kept@) =~= keptv.push(sortedv[i as int]));
            }
        }
        i = i + 1;
    }
    proof {
        assert(sortedv.take(results@.len() as int) =~= sortedv);
        lemma_filter_to_multiset(sortedv, pred);
        lemma_filter_sorted(sortedv, pred, sort_by_age);
        lemma_sum_sizes_filter_le(sortedv, pred);
    }
    let longest = longest_path(&kept);
    let found_dirs = kept.len() as u64;
    let skipped_dirs = (results.len() - kept.len()) as u64;
    let skipped_bytes = total_bytes - found_bytes;
    ProcessedResults {
        results: kept,
        longest_path: longest,
        found_dirs,
        found_bytes,
        skipped_dirs,
        skipped_bytes,
    }
}

} // verus!
