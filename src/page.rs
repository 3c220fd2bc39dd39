use vstd::prelude::*;
use crate::metric::{ResultView, absorb};
use crate::record::{
    AdRecord, CollectError, Verdict, bound_of, classify, demographic_shares, impression_bound,
    read_demographics, read_regions, record_start, region_shares, start_of, verdict_of,
};
use crate::result::CollectionResult;

verus! {

/// What one record does to a result within the window `[start, end]`: the
/// new result and whether collection ends here, or the fault that ends it.
/// A record without content is skipped whatever its date.
pub open spec fn record_step(r: ResultView, rec: AdRecord, start: int, end: int) -> Result<
    (ResultView, bool),
    CollectError,
> {
    match rec.ad_creative_body {
        None => Ok((r, false)),
        Some(body) => match start_of(rec.ad_delivery_start_time@) {
            None => Err(CollectError::MalformedTimestamp),
            Some(t) => match verdict_of(t, start, end) {
                Verdict::Terminate => Ok((r, true)),
                Verdict::Skip => Ok((r, false)),
                Verdict::Accept => match (
                    bound_of(rec.impressions),
                    demographic_shares(rec.demographic_distribution),
                    region_shares(rec.region_distribution),
                ) {
                    (Some((l, u)), Some(d), Some(g)) => Ok((absorb(r, body@, l as int, u as int, d, g), false)),
                    _ => Err(CollectError::MalformedNumber),
                },
            },
        },
    }
}

/// What a page's records do to a result, in page order, stopping at the
/// first record older than the window or at the first fault.
pub open spec fn page_fold(r: ResultView, recs: Seq<AdRecord>, start: int, end: int) -> Result<
    (ResultView, bool),
    CollectError,
>
    decreases recs.len(),
{
    if recs.len() == 0 {
        Ok((r, false))
    } else {
        match page_fold(r, recs.drop_last(), start, end) {
            Err(e) => Err(e),
            Ok((r2, true)) => Ok((r2, true)),
            Ok((r2, false)) => record_step(r2, recs.last(), start, end),
        }
    }
}

/// Once a prefix of the page has ended collection, every longer prefix
/// ends it the same way.
proof fn lemma_fold_settled(r: ResultView, recs: Seq<AdRecord>, start: int, end: int, i: int, j: int)
    requires
        0 <= i <= j <= recs.len(),
        !(page_fold(r, recs.take(i), start, end) matches Ok((_, false))),
    ensures
        page_fold(r, recs.take(j), start, end) == page_fold(r, recs.take(i), start, end),
    decreases j - i,
{
    if i < j {
        lemma_fold_settled(r, recs, start, end, i, j - 1);
        assert(recs.take(j).drop_last() =~= recs.take(j - 1));
    }
}

/// A record without content adds nothing and does not end collection,
/// whatever its date.
pub proof fn lemma_contentless_skipped(r: ResultView, rec: AdRecord, start: int, end: int)
    requires
        rec.ad_creative_body is None,
    ensures
        record_step(r, rec, start, end) == Ok::<(ResultView, bool), CollectError>((r, false)),
{
}

/// A record newer than the window adds nothing and does not end collection:
/// the records after it on the page are still read.
pub proof fn lemma_newer_skipped(r: ResultView, recs: Seq<AdRecord>, i: int, start: int, end: int)
    requires
        0 <= i < recs.len(),
        page_fold(r, recs.take(i), start, end) matches Ok((_, false)),
        recs[i].ad_creative_body is Some,
        start_of(recs[i].ad_delivery_start_time@) matches Some(t) && t > end && t >= start,
    ensures
        page_fold(r, recs.take(i + 1), start, end) == page_fold(r, recs.take(i), start, end),
{
    assert(recs.take(i + 1).drop_last() =~= recs.take(i));
}

/// A record with content that starts before the window ends collection
/// there: what the page gives is what the records before it gave, and the
/// records after it are never read.
pub proof fn lemma_older_terminates(
    r: ResultView,
    recs: Seq<AdRecord>,
    i: int,
    start: int,
    end: int,
    before: ResultView,
)
    requires
        0 <= i < recs.len(),
        page_fold(r, recs.take(i), start, end) == Ok::<(ResultView, bool), CollectError>(
            (before, false),
        ),
        recs[i].ad_creative_body is Some,
        start_of(recs[i].ad_delivery_start_time@) matches Some(t) && t < start,
    ensures
        page_fold(r, recs, start, end) == Ok::<(ResultView, bool), CollectError>((before, true)),
{
    assert(recs.take(i + 1).drop_last() =~= recs.take(i));
    lemma_fold_settled(r, recs, start, end, i + 1, recs.len() as int);
    assert(recs.take(recs.len() as int) =~= recs);
}

/// Applies one record to `result`; gives whether collection ends here.
pub fn absorb_record(result: &mut CollectionResult, rec: &AdRecord, start: i64, end: i64) -> (r:
    Result<bool, CollectError>)
    requires
        old(result).wf(),
    ensures
        final(result).wf(),
        match record_step(old(result)@, *rec, start as int, end as int) {
            Ok((v, t)) => r == Ok::<bool, CollectError>(t) && final(result)@ == v,
            Err(e) => r == Err::<bool, CollectError>(e) && final(result)@ == old(result)@,
        },
{
    let body = match &rec.ad_creative_body {
        None => return Ok(false),
        Some(b) => b,
    };
    let t = match record_start(&rec.ad_delivery_start_time) {
        None => return Err(CollectError::MalformedTimestamp),
        Some(t) => t,
    };
    match classify(t, start, end) {
        Verdict::Terminate => Ok(true),
        Verdict::Skip => Ok(false),
        Verdict::Accept => {
            let bound = impression_bound(&rec.impressions);
            let demographic = read_demographics(&rec.demographic_distribution);
            let region = read_regions(&rec.region_distribution);
            match (bound, demographic, region) {
                (Some((l, u)), Some(d), Some(g)) => {
                    result.record(body, l, u, &d, &g);
                    Ok(false)
                },
                _ => Err(CollectError::MalformedNumber),
            }
        },
    }
}

/// Applies a page's records to `result` in page order, and gives whether
/// collection ends within the page: it ends at the first record, with
/// content, that starts before the window, and the records after that one
/// are never read.
pub fn absorb_page(result: &mut CollectionResult, recs: &Vec<AdRecord>, start: i64, end: i64) -> (r:
    Result<bool, CollectError>)
    requires
        old(result).wf(),
    ensures
        final(result).wf(),
        match page_fold(old(result)@, recs@, start as int, end as int) {
            Ok((v, t)) => r == Ok::<bool, CollectError>(t) && final(result)@ == v,
            Err(e) => r == Err::<bool, CollectError>(e),
        },
{
    let ghost r0 = result@;
    let mut i: usize = 0;
    while i < recs.len()
        invariant
            r0 == old(result)@,
            i <= recs@.len(),
            result.wf(),
            page_fold(r0, recs@.take(i as int), start as int, end as int) == Ok::<
                (ResultView, bool),
                CollectError,
            >((result@, false)),
        decreases recs@.len() - i,
    {
        assert(recs@.take(i + 1).drop_last() =~= recs@.take(i as int));
        assert(recs@.take(i + 1).last() == recs@[i as int]);
        let ghost before = result@;
        assert(page_fold(r0, recs@.take(i + 1), start as int, end as int) == record_step(
            before,
            recs@[i as int],
            start as int,
            end as int,
        ));
        let step = absorb_record(result, &recs[i], start, end);
        match step {
            Ok(false) => {},
            _ => {
                proof {
                    lemma_fold_settled(r0, recs@, start as int, end as int, i + 1, recs@.len() as int);
                    assert(recs@.take(recs@.len() as int) =~= recs@);
                }
                return step;
            },
        }
        i = i + 1;
    }
    assert(recs@.take(i as int) =~= recs@);
    Ok(false)
}

} // verus!
