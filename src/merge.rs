use vstd::prelude::*;
use crate::metric::{BoundMap, MetricView, ResultView, merge_bounds, merge_into, merge_view, sat};
use crate::result::{CollectionResult, metrics_view};
use crate::table::{entries_map, lemma_entries_contains};

verus! {

proof fn lemma_merge_bounds_empty(x: BoundMap)
    ensures
        merge_bounds(Map::empty(), x) == x,
        merge_bounds(x, Map::empty()) == x,
{
    assert(merge_bounds(Map::empty(), x) =~= x);
    assert(merge_bounds(x, Map::empty()) =~= x);
}

proof fn lemma_merge_view_empty(a: ResultView)
    ensures
        merge_view(ResultView::empty(), a) == a,
        merge_view(a, ResultView::empty()) == a,
{
    assert forall|k: Seq<char>| a.contains_key(k) implies merge_view(ResultView::empty(), a)[k] == a[k]
        && merge_view(a, ResultView::empty())[k] == a[k] by {
        lemma_merge_bounds_empty(a[k].0);
        lemma_merge_bounds_empty(a[k].1);
    }
    assert(merge_view(ResultView::empty(), a) =~= a);
    assert(merge_view(a, ResultView::empty()) =~= a);
}

proof fn lemma_merge_view_step(x: ResultView, b: ResultView, k: Seq<char>, m: MetricView)
    requires
        !b.contains_key(k),
    ensures
        merge_view(x, b.insert(k, m)) == merge_into(merge_view(x, b), k, m),
{
    if x.contains_key(k) {
        lemma_merge_bounds_empty(x[k].0);
        lemma_merge_bounds_empty(x[k].1);
    }
    assert(merge_view(x, b.insert(k, m)) =~= merge_into(merge_view(x, b), k, m));
}

/// Adds every metric of `b` into `r`, content key by content key.
fn merge_all_into(r: &mut CollectionResult, b: &CollectionResult)
    requires
        old(r).wf(),
        b.wf(),
    ensures
        final(r).wf(),
        final(r)@ == merge_view(old(r)@, b@),
{
    let ghost start = r@;
    proof {
        lemma_merge_view_empty(start);
    }
    let mut i: usize = 0;
    while i < b.ads.entries.len()
        invariant
            b.wf(),
            i <= b.ads.entries@.len(),
            r.wf(),
            r@ == merge_view(start, metrics_view(entries_map(b.ads.entries@.take(i as int)))),
        decreases b.ads.entries@.len() - i,
    {
        let ghost s = b.ads.entries@;
        let key = &b.ads.entries[i].0;
        let m = &b.ads.entries[i].1;
        proof {
            let p = s.take(i as int);
            assert(s.take(i + 1).drop_last() =~= p);
            lemma_entries_contains(p, s[i as int].0@);
            lemma_entries_contains(s, s[i as int].0@);
            crate::table::lemma_entries_value(s, i as int);
            assert(b.ads@.contains_key(s[i as int].0@));
            if exists|j: int| 0 <= j < p.len() && (#[trigger] p[j]).0@ == s[i as int].0@ {
                let j = choose|j: int| 0 <= j < p.len() && (#[trigger] p[j]).0@ == s[i as int].0@;
                assert(p[j] == s[j]);
            }
            assert(metrics_view(entries_map(s.take(i + 1))) =~= metrics_view(entries_map(p)).insert(
                s[i as int].0@,
                m@,
            ));
            lemma_merge_view_step(start, metrics_view(entries_map(p)), s[i as int].0@, m@);
        }
        r.add_metric(key, m);
        i = i + 1;
    }
    assert(b.ads.entries@.take(i as int) =~= b.ads.entries@);
}

/// Combines two collection results: every content key of either appears,
/// and its metric is the sum, category by category, of the two inputs'
/// metrics under it, a missing key or category counting as zero.
/// A record reachable from both inputs is counted twice.
pub fn merge_results(a: &CollectionResult, b: &CollectionResult) -> (r: CollectionResult)
    requires
        a.wf(),
        b.wf(),
    ensures
        r.wf(),
        r@ == merge_view(a@, b@),
{
    let mut r = CollectionResult::new();
    merge_all_into(&mut r, a);
    proof {
        lemma_merge_view_empty(a@);
    }
    merge_all_into(&mut r, b);
    r
}

/// Content keys that two results do not share.
pub open spec fn disjoint(a: ResultView, b: ResultView) -> bool {
    forall|k: Seq<char>| !(a.contains_key(k) && #[trigger] b.contains_key(k))
}

/// Over results with pairwise distinct content keys, merging is associative
/// and commutative, and amounts to the union of the inputs.
pub proof fn lemma_merge_disjoint(a: ResultView, b: ResultView, c: ResultView)
    requires
        disjoint(a, b),
        disjoint(b, c),
        disjoint(a, c),
    ensures
        merge_view(merge_view(a, b), c) == merge_view(a, merge_view(b, c)),
        merge_view(merge_view(a, b), c) == merge_view(b, a).union_prefer_right(c),
        merge_view(a, b) == merge_view(b, a),
        merge_view(a, b) == a.union_prefer_right(b),
{
    assert forall|x: ResultView, y: ResultView| disjoint(x, y) implies merge_view(x, y)
        == x.union_prefer_right(y) by {
        assert forall|k: Seq<char>| #[trigger] x.contains_key(k) || y.contains_key(k) implies merge_view(x, y)[k]
            == x.union_prefer_right(y)[k] by {
            if x.contains_key(k) {
                lemma_merge_bounds_empty(x[k].0);
                lemma_merge_bounds_empty(x[k].1);
            } else {
                lemma_merge_bounds_empty(y[k].0);
                lemma_merge_bounds_empty(y[k].1);
            }
        }
        assert(merge_view(x, y) =~= x.union_prefer_right(y));
    }
    let ab = a.union_prefer_right(b);
    let bc = b.union_prefer_right(c);
    assert(disjoint(b, a));
    assert(disjoint(ab, c));
    assert(disjoint(a, bc));
    assert(ab.union_prefer_right(c) =~= a.union_prefer_right(bc));
    assert(b.union_prefer_right(a) =~= ab);
}

/// Merging a result with itself doubles every bound, up to the largest
/// bound, where sums stop.
pub proof fn lemma_merge_self_doubles(a: ResultView)
    ensures
        merge_view(a, a).dom() == a.dom(),
        forall|k: Seq<char>, c: Seq<char>| a.contains_key(k) && #[trigger] a[k].0.contains_key(c)
            ==> merge_view(a, a)[k].0[c] == (sat(2 * a[k].0[c].0), sat(2 * a[k].0[c].1)),
        forall|k: Seq<char>, c: Seq<char>| a.contains_key(k) && #[trigger] a[k].1.contains_key(c)
            ==> merge_view(a, a)[k].1[c] == (sat(2 * a[k].1[c].0), sat(2 * a[k].1[c].1)),
{
    assert(merge_view(a, a).dom() =~= a.dom());
}

} // verus!
