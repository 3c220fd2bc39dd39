use vstd::prelude::*;
use crate::metric::{
    Bound, MetricView, ResultView, Share, absorb, add_shares_to, merge_bounds_into, merge_into,
    metric_at, share_views,
};
use crate::table::Table;

verus! {

/// What the records of one content key have gathered.
pub struct AdMetric {
    /// `gender/age` bucket to accumulated bound.
    pub demographic_impression: Table<Bound>,
    /// Region name to accumulated bound.
    pub region_impression: Table<Bound>,
}

impl View for AdMetric {
    type V = MetricView;

    open spec fn view(&self) -> MetricView {
        (self.demographic_impression@, self.region_impression@)
    }
}

impl AdMetric {
    pub open spec fn wf(&self) -> bool {
        self.demographic_impression.wf() && self.region_impression.wf()
    }

    pub fn new() -> (r: Self)
        ensures
            r.wf(),
            r@ == (Map::<Seq<char>, Bound>::empty(), Map::<Seq<char>, Bound>::empty()),
    {
        AdMetric { demographic_impression: Table::new(), region_impression: Table::new() }
    }
}

/// The views of a table of metrics.
pub open spec fn metrics_view(m: Map<Seq<char>, AdMetric>) -> ResultView {
    m.map_values(|x: AdMetric| x@)
}

/// Content key to what its records have gathered.
pub struct CollectionResult {
    pub ads: Table<AdMetric>,
}

impl View for CollectionResult {
    type V = ResultView;

    open spec fn view(&self) -> ResultView {
        metrics_view(self.ads@)
    }
}

impl CollectionResult {
    pub open spec fn wf(&self) -> bool {
        &&& self.ads.wf()
        &&& forall|k: Seq<char>| #[trigger] self.ads@.contains_key(k) ==> self.ads@[k].wf()
    }

    pub fn new() -> (r: Self)
        ensures
            r.wf(),
            r@ == ResultView::empty(),
    {
        let r = CollectionResult { ads: Table::new() };
        assert(r@ =~= ResultView::empty());
        r
    }

    /// The metric gathered under content key `k`, if any.
    pub fn get(&self, k: &String) -> (r: Option<&AdMetric>)
        requires
            self.wf(),
        ensures
            match r {
                Some(m) => self@.contains_key(k@) && m@ == self@[k@],
                None => !self@.contains_key(k@),
            },
    {
        self.ads.get(k)
    }

    /// Takes out the metric under `k`, leaving an empty one in its place.
    fn take_metric(&mut self, k: &String) -> (m: AdMetric)
        requires
            old(self).wf(),
        ensures
            final(self).wf(),
            m.wf(),
            m@ == metric_at(old(self)@, k@),
            final(self)@ == old(self)@.insert(
                k@,
                (Map::<Seq<char>, Bound>::empty(), Map::<Seq<char>, Bound>::empty()),
            ),
    {
        let fresh = AdMetric::new();
        let ghost before = self@;
        let r = match self.ads.insert(k.clone(), fresh) {
            Some(m) => m,
            None => AdMetric::new(),
        };
        assert(self@ =~= before.insert(
            k@,
            (Map::<Seq<char>, Bound>::empty(), Map::<Seq<char>, Bound>::empty()),
        ));
        r
    }

    /// Puts `m` under `k`.
    fn put_metric(&mut self, k: &String, m: AdMetric)
        requires
            old(self).wf(),
            m.wf(),
        ensures
            final(self).wf(),
            final(self)@ == old(self)@.insert(k@, m@),
    {
        self.ads.insert(k.clone(), m);
        assert(self@ =~= old(self)@.insert(k@, m@));
    }

    /// Records one accepted record with content `body`, bound
    /// `(lower, upper)` and the given shares: each share `(key, p)` adds
    /// `(lower * p, upper * p)` under `key`, starting from an empty metric
    /// where `body` is new.
    pub fn record(
        &mut self,
        body: &String,
        lower: u64,
        upper: u64,
        demographic: &Vec<Share>,
        region: &Vec<Share>,
    )
        requires
            old(self).wf(),
        ensures
            final(self).wf(),
            final(self)@ == absorb(
                old(self)@,
                body@,
                lower as int,
                upper as int,
                share_views(demographic@),
                share_views(region@),
            ),
    {
        let ghost before = self@;
        let mut m = self.take_metric(body);
        add_shares_to(&mut m.demographic_impression, demographic, lower, upper);
        add_shares_to(&mut m.region_impression, region, lower, upper);
        self.put_metric(body, m);
        assert(self@ =~= absorb(
            before,
            body@,
            lower as int,
            upper as int,
            share_views(demographic@),
            share_views(region@),
        ));
    }

    /// Adds metric `m` into what is held under `k`.
    pub fn add_metric(&mut self, k: &String, m: &AdMetric)
        requires
            old(self).wf(),
            m.wf(),
        ensures
            final(self).wf(),
            final(self)@ == merge_into(old(self)@, k@, m@),
    {
        let ghost before = self@;
        let mut cur = self.take_metric(k);
        merge_bounds_into(&mut cur.demographic_impression, &m.demographic_impression);
        merge_bounds_into(&mut cur.region_impression, &m.region_impression);
        self.put_metric(k, cur);
        assert(self@ =~= merge_into(before, k@, m@));
    }
}

} // verus!
