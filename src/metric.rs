use vstd::prelude::*;
use crate::table::{Table, entries_map, lemma_entries_contains};

verus! {

/// Accumulated impressions of one category: lower and upper bound, in
/// 10^-18 units.
pub type Bound = (u128, u128);

/// Category key to accumulated bound.
pub type BoundMap = Map<Seq<char>, Bound>;

/// What one content key has gathered: demographic and regional bounds.
pub type MetricView = (BoundMap, BoundMap);

/// Content key to what it has gathered.
pub type ResultView = Map<Seq<char>, MetricView>;

/// Sum that stops at the largest bound instead of wrapping.
pub open spec fn sat(x: int) -> u128 {
    if x > u128::MAX {
        u128::MAX
    } else {
        x as u128
    }
}

/// The bound under `k`, zero where there is none.
pub open spec fn bound_at(m: BoundMap, k: Seq<char>) -> Bound {
    if m.contains_key(k) {
        m[k]
    } else {
        (0, 0)
    }
}

/// Adds `(l, u)` to the bound under `k`, starting from zero.
pub open spec fn add_to(m: BoundMap, k: Seq<char>, l: int, u: int) -> BoundMap {
    m.insert(k, (sat(bound_at(m, k).0 + l), sat(bound_at(m, k).1 + u)))
}

/// A category's share of a record's impressions, in billionths.
pub struct Share {
    pub key: String,
    pub percentage: u64,
}

/// The category keys and percentages of a list of shares.
pub open spec fn share_views(shares: Seq<Share>) -> Seq<(Seq<char>, int)> {
    shares.map_values(|s: Share| (s.key@, s.percentage as int))
}

/// Adds, for every share `(key, p)` in turn, `(l * p, u * p)` under `key`.
pub open spec fn add_shares(m: BoundMap, shares: Seq<(Seq<char>, int)>, l: int, u: int) -> BoundMap
    decreases shares.len(),
{
    if shares.len() == 0 {
        m
    } else {
        let s = shares.last();
        add_to(add_shares(m, shares.drop_last(), l, u), s.0, l * s.1, u * s.1)
    }
}

/// Over shares with distinct keys, the share `(key, p)` raises the bound under
/// `key` by exactly `(l * p, u * p)`, up to the largest bound.
pub proof fn lemma_share_weighted(
    m: BoundMap,
    shares: Seq<(Seq<char>, int)>,
    l: int,
    u: int,
    i: int,
)
    requires
        0 <= i < shares.len(),
        forall|a: int, b: int| 0 <= a < b < shares.len() ==> (#[trigger] shares[a]).0 != (
        #[trigger] shares[b]).0,
    ensures
        add_shares(m, shares, l, u).contains_key(shares[i].0),
        add_shares(m, shares, l, u)[shares[i].0] == (
            sat(bound_at(m, shares[i].0).0 + l * shares[i].1),
            sat(bound_at(m, shares[i].0).1 + u * shares[i].1),
        ),
    decreases shares.len(),
{
    let p = shares.drop_last();
    if i < shares.len() - 1 {
        assert(p[i] == shares[i]);
        assert forall|a: int, b: int| 0 <= a < b < p.len() implies (#[trigger] p[a]).0 != (
        #[trigger] p[b]).0 by {
            assert(p[a] == shares[a] && p[b] == shares[b]);
        }
        lemma_share_weighted(m, p, l, u, i);
        assert(shares[i].0 != shares[shares.len() - 1].0);
    } else {
        lemma_share_untouched(m, p, l, u, shares[i].0);
    }
}

/// A key that no share names keeps its bound.
pub proof fn lemma_share_untouched(m: BoundMap, shares: Seq<(Seq<char>, int)>, l: int, u: int, k: Seq<char>)
    requires
        forall|a: int| 0 <= a < shares.len() ==> (#[trigger] shares[a]).0 != k,
    ensures
        bound_at(add_shares(m, shares, l, u), k) == bound_at(m, k),
        add_shares(m, shares, l, u).contains_key(k) == m.contains_key(k),
    decreases shares.len(),
{
    if shares.len() > 0 {
        let p = shares.drop_last();
        assert forall|a: int| 0 <= a < p.len() implies (#[trigger] p[a]).0 != k by {
            assert(p[a] == shares[a]);
        }
        lemma_share_untouched(m, p, l, u, k);
        assert(shares[shares.len() - 1].0 != k);
    }
}

/// Sum, key by key, of two bound maps; a key missing on one side counts as zero.
pub open spec fn merge_bounds(a: BoundMap, b: BoundMap) -> BoundMap {
    Map::new(
        |k: Seq<char>| a.contains_key(k) || b.contains_key(k),
        |k: Seq<char>| (sat(bound_at(a, k).0 + bound_at(b, k).0), sat(bound_at(a, k).1 + bound_at(b, k).1)),
    )
}

/// The metric under `k`, empty where there is none.
pub open spec fn metric_at(r: ResultView, k: Seq<char>) -> MetricView {
    if r.contains_key(k) {
        r[k]
    } else {
        (Map::empty(), Map::empty())
    }
}

/// Sum, content key by content key, of two collection results.
pub open spec fn merge_view(a: ResultView, b: ResultView) -> ResultView {
    Map::new(
        |k: Seq<char>| a.contains_key(k) || b.contains_key(k),
        |k: Seq<char>|
            (
                merge_bounds(metric_at(a, k).0, metric_at(b, k).0),
                merge_bounds(metric_at(a, k).1, metric_at(b, k).1),
            ),
    )
}

/// Adds a metric into what a result holds under `k`.
pub open spec fn merge_into(r: ResultView, k: Seq<char>, m: MetricView) -> ResultView {
    r.insert(k, (merge_bounds(metric_at(r, k).0, m.0), merge_bounds(metric_at(r, k).1, m.1)))
}

/// Records, under content key `k`, one record with bound `(l, u)` and the
/// given demographic and regional shares.
pub open spec fn absorb(
    r: ResultView,
    k: Seq<char>,
    l: int,
    u: int,
    demographic: Seq<(Seq<char>, int)>,
    region: Seq<(Seq<char>, int)>,
) -> ResultView {
    r.insert(
        k,
        (
            add_shares(metric_at(r, k).0, demographic, l, u),
            add_shares(metric_at(r, k).1, region, l, u),
        ),
    )
}

/// Adds `(lower, upper)` to the bound under `key`.
pub fn add_bound(t: &mut Table<Bound>, key: &String, lower: u128, upper: u128)
    requires
        old(t).wf(),
    ensures
        final(t).wf(),
        final(t)@ == add_to(old(t)@, key@, lower as int, upper as int),
{
    let cur: Bound = match t.get(key) {
        Some(b) => *b,
        None => (0, 0),
    };
    assert(cur == bound_at(t@, key@));
    t.insert(key.clone(), (cur.0.saturating_add(lower), cur.1.saturating_add(upper)));
}

/// Adds, for every share `(key, p)`, `(lower * p, upper * p)` under `key`.
pub fn add_shares_to(t: &mut Table<Bound>, shares: &Vec<Share>, lower: u64, upper: u64)
    requires
        old(t).wf(),
    ensures
        final(t).wf(),
        final(t)@ == add_shares(old(t)@, share_views(shares@), lower as int, upper as int),
{
    let ghost start = t@;
    let mut i: usize = 0;
    while i < shares.len()
        invariant
            i <= shares@.len(),
            t.wf(),
            t@ == add_shares(start, share_views(shares@.take(i as int)), lower as int, upper as int),
        decreases shares@.len() - i,
    {
        let s = &shares[i];
        assert(share_views(shares@.take(i + 1)).drop_last() =~= share_views(shares@.take(i as int)));
        proof {
            lemma_product_fits(lower, s.percentage);
            lemma_product_fits(upper, s.percentage);
        }
        let l = (lower as u128) * (s.percentage as u128);
        let u = (upper as u128) * (s.percentage as u128);
        assert(l as int == lower as int * s.percentage as int) by (nonlinear_arith)
            requires l as int == (lower as u128) as int * (s.percentage as u128) as int;
        add_bound(t, &s.key, l, u);
        i = i + 1;
    }
    assert(shares@.take(i as int) =~= shares@);
}

proof fn lemma_product_fits(a: u64, b: u64)
    ensures
        (a as int) * (b as int) <= u128::MAX,
{
    assert((a as int) * (b as int) <= (u64::MAX as int) * (u64::MAX as int)) by (nonlinear_arith)
        requires 0 <= a <= u64::MAX, 0 <= b <= u64::MAX;
}

proof fn lemma_merge_bounds_step(a: BoundMap, m: BoundMap, k: Seq<char>, v: Bound)
    requires
        !m.contains_key(k),
    ensures
        merge_bounds(a, m.insert(k, v)) == add_to(merge_bounds(a, m), k, v.0 as int, v.1 as int),
{
    assert(merge_bounds(a, m.insert(k, v)) =~= add_to(merge_bounds(a, m), k, v.0 as int, v.1 as int));
}

/// Adds every bound of `b` into `t`, key by key.
pub fn merge_bounds_into(t: &mut Table<Bound>, b: &Table<Bound>)
    requires
        old(t).wf(),
        b.wf(),
    ensures
        final(t).wf(),
        final(t)@ == merge_bounds(old(t)@, b@),
{
    let ghost start = t@;
    assert(merge_bounds(start, Map::empty()) =~= start);
    let mut i: usize = 0;
    while i < b.entries.len()
        invariant
            b.wf(),
            i <= b.entries@.len(),
            t.wf(),
            t@ == merge_bounds(start, entries_map(b.entries@.take(i as int))),
        decreases b.entries@.len() - i,
    {
        let ghost s = b.entries@;
        let key = &b.entries[i].0;
        let v = b.entries[i].1;
        proof {
            let p = s.take(i as int);
            assert(s.take(i + 1).drop_last() =~= p);
            lemma_entries_contains(p, s[i as int].0@);
            if exists|j: int| 0 <= j < p.len() && (#[trigger] p[j]).0@ == s[i as int].0@ {
                let j = choose|j: int| 0 <= j < p.len() && (#[trigger] p[j]).0@ == s[i as int].0@;
                assert(p[j] == s[j]);
            }
            lemma_merge_bounds_step(start, entries_map(p), s[i as int].0@, v);
        }
        add_bound(t, key, v.0, v.1);
        i = i + 1;
    }
    assert(b.entries@.take(i as int) =~= b.entries@);
}

} // verus!
