use vstd::prelude::*;
use vstd::string::StringExecFns;
use crate::amount::{amount_of, parse_amount};
use crate::metric::{Share, share_views};

verus! {

/// One demographic bucket's share of a record, as the archive sends it.
pub struct Demographic {
    pub age: String,
    pub gender: String,
    pub percentage: String,
}

/// One region's share of a record, as the archive sends it.
pub struct RegionShare {
    pub region: String,
    pub percentage: String,
}

/// A record's impression range, as the archive sends it.
pub struct Impressions {
    pub lower_bound: Option<String>,
    pub upper_bound: Option<String>,
}

/// One archived ad.
pub struct AdRecord {
    /// The text that groups records; records without one are skipped.
    pub ad_creative_body: Option<String>,
    /// Delivery start: a date, `YYYY-MM-DD`, or a date and time with offset.
    pub ad_delivery_start_time: String,
    pub demographic_distribution: Option<Vec<Demographic>>,
    pub impressions: Impressions,
    pub region_distribution: Option<Vec<RegionShare>>,
}

/// One page of the archive: its records, newest first, and the address of
/// the next page, if any.
pub struct Page {
    pub data: Vec<AdRecord>,
    pub next: Option<String>,
}

/// A fault in an accepted record that ends the whole collection.
#[derive(PartialEq, Eq, Structural, Debug, Clone, Copy)]
pub enum CollectError {
    /// The start date is not a calendar date.
    MalformedTimestamp,
    /// A bound or a percentage is not a decimal number that fits.
    MalformedNumber,
}

/// What the window makes of a record.
#[derive(PartialEq, Eq, Structural, Debug, Clone, Copy)]
pub enum Verdict {
    Accept,
    Skip,
    /// The record is older than the window; so is everything after it.
    Terminate,
}

pub open spec fn verdict_of(t: int, start: int, end: int) -> Verdict {
    if t < start {
        Verdict::Terminate
    } else if t > end {
        Verdict::Skip
    } else {
        Verdict::Accept
    }
}

/// Places a record's start `t` against the window `[start, end]`.
pub fn classify(t: i64, start: i64, end: i64) -> (r: Verdict)
    ensures
        r == verdict_of(t as int, start as int, end as int),
{
    if t < start {
        Verdict::Terminate
    } else if t > end {
        Verdict::Skip
    } else {
        Verdict::Accept
    }
}

/// Time of day and offset that complete a start date: midnight UTC.
pub const MIDNIGHT_UTC: &'static str = "T00:00:00+0000";

/// Layout of a completed start date.
pub const START_FORMAT: &'static str = "%Y-%m-%dT%H:%M:%S%z";

/// The instant, in seconds since the Unix epoch, that chrono reads from
/// `text` laid out as `format`.
pub uninterp spec fn timestamp_of(text: Seq<char>, format: Seq<char>) -> Option<int>;

/// Relies on chrono's `DateTime::parse_from_str`: reads a date, time and
/// UTC offset laid out as `format`, and gives the instant as seconds since
/// the Unix epoch (`DateTime::timestamp`); what it reads depends on the two
/// texts alone.
#[verifier::external_body]
fn parse_timestamp(text: &str, format: &str) -> (r: Option<i64>)
    ensures
        match r {
            Some(t) => timestamp_of(text@, format@) == Some(t as int),
            None => timestamp_of(text@, format@) is None,
        },
{
    chrono::DateTime::parse_from_str(text, format).ok().map(|d| d.timestamp())
}

/// A record's start: the instant it names, or, where it is a bare date, that
/// date at midnight UTC.
pub open spec fn start_of(date: Seq<char>) -> Option<int> {
    match timestamp_of(date, START_FORMAT@) {
        Some(t) => Some(t),
        None => timestamp_of(date + MIDNIGHT_UTC@, START_FORMAT@),
    }
}

/// Reads a record's start: a full date and time with offset as it stands,
/// a bare date as its midnight UTC.
pub fn record_start(date: &String) -> (r: Option<i64>)
    ensures
        match r {
            Some(t) => start_of(date@) == Some(t as int),
            None => start_of(date@) is None,
        },
{
    match parse_timestamp(date.as_str(), START_FORMAT) {
        Some(t) => Some(t),
        None => {
            let full = date.clone().concat(MIDNIGHT_UTC);
            parse_timestamp(full.as_str(), START_FORMAT)
        },
    }
}

/// A record's impression bound, in billionths: a missing lower bound is
/// zero, a missing upper bound equals the lower one.
pub open spec fn bound_of(i: Impressions) -> Option<(nat, nat)> {
    let lower = match i.lower_bound {
        None => Some(0nat),
        Some(s) => amount_of(s@),
    };
    match lower {
        None => None,
        Some(l) => match i.upper_bound {
            None => Some((l, l)),
            Some(s) => match amount_of(s@) {
                Some(u) => Some((l, u)),
                None => None,
            },
        },
    }
}

/// Reads a record's impression bound.
pub fn impression_bound(i: &Impressions) -> (r: Option<(u64, u64)>)
    ensures
        match r {
            Some((l, u)) => bound_of(*i) == Some((l as nat, u as nat)),
            None => bound_of(*i) is None,
        },
{
    let lower = match &i.lower_bound {
        None => 0u64,
        Some(s) => match parse_amount(s.as_str()) {
            Some(v) => v,
            None => return None,
        },
    };
    match &i.upper_bound {
        None => Some((lower, lower)),
        Some(s) => match parse_amount(s.as_str()) {
            Some(u) => Some((lower, u)),
            None => None,
        },
    }
}

/// Category key of a demographic bucket: `gender/age`.
pub open spec fn demographic_key(d: Demographic) -> Seq<char> {
    d.gender@ + "/"@ + d.age@
}

/// The shares of a record's demographic buckets; `None` when a percentage
/// is malformed, empty when the record carries none.
pub open spec fn demographic_shares(o: Option<Vec<Demographic>>) -> Option<Seq<(Seq<char>, int)>> {
    match o {
        None => Some(Seq::empty()),
        Some(v) => if forall|i: int| 0 <= i < v@.len() ==> (#[trigger] amount_of(v@[i].percentage@)) is Some {
            Some(v@.map_values(|d: Demographic| (demographic_key(d), amount_of(d.percentage@)->0 as int)))
        } else {
            None
        },
    }
}

/// The shares of a record's regions; `None` when a percentage is malformed,
/// empty when the record carries none.
pub open spec fn region_shares(o: Option<Vec<RegionShare>>) -> Option<Seq<(Seq<char>, int)>> {
    match o {
        None => Some(Seq::empty()),
        Some(v) => if forall|i: int| 0 <= i < v@.len() ==> (#[trigger] amount_of(v@[i].percentage@)) is Some {
            Some(v@.map_values(|g: RegionShare| (g.region@, amount_of(g.percentage@)->0 as int)))
        } else {
            None
        },
    }
}

/// Reads the demographic shares of a record.
pub fn read_demographics(o: &Option<Vec<Demographic>>) -> (r: Option<Vec<Share>>)
    ensures
        match r {
            Some(v) => demographic_shares(*o) == Some(share_views(v@)),
            None => demographic_shares(*o) is None,
        },
{
    let mut out: Vec<Share> = Vec::new();
    match o {
        None => {
            assert(share_views(out@) =~= Seq::empty());
            Some(out)
        },
        Some(v) => {
            let mut i: usize = 0;
            while i < v.len()
                invariant
                    *o == Some(*v),
                    i <= v@.len(),
                    out@.len() == i,
                    forall|j: int| 0 <= j < i ==> (#[trigger] amount_of(v@[j].percentage@)) is Some,
                    forall|j: int| 0 <= j < i ==> (#[trigger] share_views(out@)[j]) == (
                    demographic_key(v@[j]), amount_of(v@[j].percentage@)->0 as int),
                decreases v@.len() - i,
            {
                let d = &v[i];
                match parse_amount(d.percentage.as_str()) {
                    Some(p) => {
                        let key = d.gender.clone().concat("/").concat(d.age.as_str());
                        let ghost before = out@;
                        out.push(Share { key, percentage: p });
                        assert forall|j: int| 0 <= j < i + 1 implies (#[trigger] share_views(out@)[j]) == (
                        demographic_key(v@[j]), amount_of(v@[j].percentage@)->0 as int) by {
                            if j < i {
                                assert(out@[j] == before[j]);
                                assert(share_views(before)[j] == share_views(out@)[j]);
                            }
                        }
                    },
                    None => {
                        assert(amount_of(v@[i as int].percentage@) is None);
                        return None;
                    },
                }
                i = i + 1;
            }
            assert(share_views(out@) =~= v@.map_values(
                |d: Demographic| (demographic_key(d), amount_of(d.percentage@)->0 as int),
            ));
            Some(out)
        },
    }
}

/// Reads the region shares of a record.
pub fn read_regions(o: &Option<Vec<RegionShare>>) -> (r: Option<Vec<Share>>)
    ensures
        match r {
            Some(v) => region_shares(*o) == Some(share_views(v@)),
            None => region_shares(*o) is None,
        },
{
    let mut out: Vec<Share> = Vec::new();
    match o {
        None => {
            assert(share_views(out@) =~= Seq::empty());
            Some(out)
        },
        Some(v) => {
            let mut i: usize = 0;
            while i < v.len()
                invariant
                    *o == Some(*v),
                    i <= v@.len(),
                    out@.len() == i,
                    forall|j: int| 0 <= j < i ==> (#[trigger] amount_of(v@[j].percentage@)) is Some,
                    forall|j: int| 0 <= j < i ==> (#[trigger] share_views(out@)[j]) == (
                    v@[j].region@, amount_of(v@[j].percentage@)->0 as int),
                decreases v@.len() - i,
            {
                let g = &v[i];
                match parse_amount(g.percentage.as_str()) {
                    Some(p) => {
                        let key = g.region.clone();
                        let ghost before = out@;
                        out.push(Share { key, percentage: p });
                        assert forall|j: int| 0 <= j < i + 1 implies (#[trigger] share_views(out@)[j]) == (
                        v@[j].region@, amount_of(v@[j].percentage@)->0 as int) by {
                            if j < i {
                                assert(out@[j] == before[j]);
                                assert(share_views(before)[j] == share_views(out@)[j]);
                            }
                        }
                    },
                    None => {
                        assert(amount_of(v@[i as int].percentage@) is None);
                        return None;
                    },
                }
                i = i + 1;
            }
            assert(share_views(out@) =~= v@.map_values(
                |g: RegionShare| (g.region@, amount_of(g.percentage@)->0 as int),
            ));
            Some(out)
        },
    }
}

} // verus!
