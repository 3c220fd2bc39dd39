use vstd::prelude::*;
use vstd::string::StringExecFns;
use crate::metric::ResultView;
use crate::page::{absorb_page, page_fold};
use crate::record::{AdRecord, CollectError, Page};
use crate::result::CollectionResult;

verus! {

/// Which ads the archive is asked for, by delivery status.
#[allow(non_camel_case_types)]
#[derive(PartialEq, Eq, Structural, Debug, Clone, Copy)]
pub enum AdStatus {
    ALL,
    ACTIVE,
    INACTIVE,
}

pub open spec fn status_name(s: AdStatus) -> Seq<char> {
    match s {
        AdStatus::ALL => "ALL"@,
        AdStatus::ACTIVE => "ACTIVE"@,
        AdStatus::INACTIVE => "INACTIVE"@,
    }
}

impl AdStatus {
    /// The status as the archive's query spells it.
    pub fn to_string(&self) -> (r: String)
        ensures
            r@ == status_name(*self),
    {
        match self {
            AdStatus::ALL => "ALL".to_owned(),
            AdStatus::ACTIVE => "ACTIVE".to_owned(),
            AdStatus::INACTIVE => "INACTIVE".to_owned(),
        }
    }
}

pub open spec fn digit_char(d: nat) -> char {
    (d + 48) as char
}

/// Decimal digits of `n`, without sign or leading zeros.
pub open spec fn decimal(n: nat) -> Seq<char>
    decreases n,
{
    if n < 10 {
        seq![digit_char(n)]
    } else {
        decimal(n / 10) + seq![digit_char(n % 10)]
    }
}

/// Relies on the standard library's `ToString` for `u64`, which goes through
/// its `Display`: the decimal digits of `n`, without sign or leading zeros.
#[verifier::external_body]
fn decimal_text(n: u64) -> (r: String)
    ensures
        r@ == decimal(n as nat),
{
    n.to_string()
}

/// The page identifiers joined by `", "`.
pub open spec fn id_items(ids: Seq<u64>) -> Seq<char>
    decreases ids.len(),
{
    if ids.len() == 0 {
        Seq::empty()
    } else if ids.len() == 1 {
        decimal(ids[0] as nat)
    } else {
        id_items(ids.drop_last()) + ", "@ + decimal(ids.last() as nat)
    }
}

/// The page identifiers as a bracketed list: `[1, 2]`.
pub open spec fn id_list(ids: Seq<u64>) -> Seq<char> {
    "["@ + id_items(ids) + "]"@
}

/// Spells a list of page identifiers: `[1, 2]`.
pub fn page_id_list(ids: &Vec<u64>) -> (r: String)
    ensures
        r@ == id_list(ids@),
{
    let mut s = "[".to_owned();
    let mut i: usize = 0;
    while i < ids.len()
        invariant
            i <= ids@.len(),
            s@ == "["@ + id_items(ids@.take(i as int)),
        decreases ids@.len() - i,
    {
        assert(ids@.take(i + 1).drop_last() =~= ids@.take(i as int));
        if i > 0 {
            s = s.concat(", ");
        }
        let d = decimal_text(ids[i]);
        s = s.concat(d.as_str());
        proof {
            if i == 0 {
                assert(id_items(ids@.take(1)) == decimal(ids@[0] as nat));
                assert(s@ =~= "["@ + id_items(ids@.take(1)));
            } else {
                assert(s@ =~= "["@ + id_items(ids@.take(i + 1)));
            }
        }
        i = i + 1;
    }
    assert(ids@.take(i as int) =~= ids@);
    s.concat("]")
}

/// The archive query up to the status value.
pub const ARCHIVE_QUERY: &'static str = "https://graph.facebook.com/v5.0/ads_archive?fields=ad_creative_body,ad_delivery_start_time,ad_delivery_stop_time,demographic_distribution,impressions,region_distribution,spend&ad_type=POLITICAL_AND_ISSUE_ADS&ad_reached_countries=['US']&ad_active_status=";

/// What a collection run is asked to do.
pub struct Collector {
    /// First instant of the window, in seconds since the Unix epoch.
    pub start_date_time: i64,
    /// Last instant of the window, in seconds since the Unix epoch.
    pub end_date_time: i64,
    pub ad_status: AdStatus,
    pub page_ids: Vec<u64>,
    pub access_token: String,
    /// How many times in a row a page may fail before the run gives up.
    pub retries: usize,
    pub batch_size: usize,
    /// Where to start instead of the first page; resumes an earlier run.
    pub endpoint: Option<String>,
}

/// The first page's address built from the configuration.
pub open spec fn query_endpoint(c: Collector) -> Seq<char> {
    ARCHIVE_QUERY@ + status_name(c.ad_status) + "&search_page_ids="@ + id_list(c.page_ids@)
        + "&limit="@ + decimal(c.batch_size as nat) + "&access_token="@ + c.access_token@
}

/// Where a run starts: the resume address if there is one, else the query.
pub open spec fn initial_endpoint(c: Collector) -> Seq<char> {
    match c.endpoint {
        Some(e) => e@,
        None => query_endpoint(c),
    }
}

/// Why a run stopped.
#[derive(PartialEq, Eq, Structural, Debug, Clone, Copy)]
pub enum Completion {
    /// The last page had no next page.
    EndOfData,
    /// A record older than the window was reached.
    Terminated,
    /// A page kept failing past the retry budget.
    Exhausted,
}

/// What the driver of a run does next.
pub enum Action {
    Fetch(String),
    Stop(Completion),
}

/// An action, with its address as text.
pub enum Step {
    Fetch(Seq<char>),
    Stop(Completion),
}

impl View for Action {
    type V = Step;

    open spec fn view(&self) -> Step {
        match self {
            Action::Fetch(s) => Step::Fetch(s@),
            Action::Stop(c) => Step::Stop(*c),
        }
    }
}

/// The state of a run: what it has gathered, the address it is on, and how
/// many times in a row that address has failed.
pub struct RunView {
    pub result: ResultView,
    pub endpoint: Seq<char>,
    pub attempts: nat,
}

/// A run after a failed fetch with retry budget `budget`: the same address
/// again while the budget lasts, else the end with what was gathered.
pub open spec fn after_failure(s: RunView, budget: nat) -> (RunView, Step) {
    if s.attempts >= budget {
        (s, Step::Stop(Completion::Exhausted))
    } else {
        (RunView { attempts: s.attempts + 1, ..s }, Step::Fetch(s.endpoint))
    }
}

pub open spec fn next_view(o: Option<String>) -> Option<Seq<char>> {
    match o {
        Some(s) => Some(s@),
        None => None,
    }
}

/// A run after a page with records `data` and next address `next`: the
/// failure count starts over, the records are applied, and the run goes on
/// to the next page unless a record ended it or there is no next page.
pub open spec fn after_page(
    s: RunView,
    data: Seq<AdRecord>,
    next: Option<Seq<char>>,
    start: int,
    end: int,
) -> Result<(RunView, Step), CollectError> {
    match page_fold(s.result, data, start, end) {
        Err(e) => Err(e),
        Ok((v, true)) => Ok(
            (RunView { result: v, endpoint: s.endpoint, attempts: 0 }, Step::Stop(Completion::Terminated)),
        ),
        Ok((v, false)) => match next {
            Some(c) => Ok((RunView { result: v, endpoint: c, attempts: 0 }, Step::Fetch(c))),
            None => Ok(
                (
                    RunView { result: v, endpoint: s.endpoint, attempts: 0 },
                    Step::Stop(Completion::EndOfData),
                ),
            ),
        },
    }
}

/// A collection run in progress.
pub struct Collection {
    pub result: CollectionResult,
    pub endpoint: String,
    pub attempts: usize,
}

impl View for Collection {
    type V = RunView;

    open spec fn view(&self) -> RunView {
        RunView { result: self.result@, endpoint: self.endpoint@, attempts: self.attempts as nat }
    }
}

impl Collection {
    pub open spec fn wf(&self) -> bool {
        self.result.wf()
    }

    /// Takes in a page that was fetched and read.
    pub fn on_page(&mut self, config: &Collector, page: &Page) -> (r: Result<Action, CollectError>)
        requires
            old(self).wf(),
        ensures
            final(self).wf(),
            match after_page(
                old(self)@,
                page.data@,
                next_view(page.next),
                config.start_date_time as int,
                config.end_date_time as int,
            ) {
                Ok((s, a)) => r matches Ok(x) && x@ == a && final(self)@ == s,
                Err(e) => r == Err::<Action, CollectError>(e),
            },
    {
        self.attempts = 0;
        let ended = absorb_page(
            &mut self.result,
            &page.data,
            config.start_date_time,
            config.end_date_time,
        );
        match ended {
            Err(e) => Err(e),
            Ok(true) => Ok(Action::Stop(Completion::Terminated)),
            Ok(false) => match &page.next {
                Some(c) => {
                    self.endpoint = c.clone();
                    Ok(Action::Fetch(c.clone()))
                },
                None => Ok(Action::Stop(Completion::EndOfData)),
            },
        }
    }

    /// Takes in a fetch that failed, in transport or in reading the page.
    pub fn on_failure(&mut self, config: &Collector) -> (r: Action)
        requires
            old(self).wf(),
        ensures
            final(self).wf(),
            (final(self)@, r@) == after_failure(old(self)@, config.retries as nat),
    {
        if self.attempts >= config.retries {
            Action::Stop(Completion::Exhausted)
        } else {
            self.attempts = self.attempts + 1;
            Action::Fetch(self.endpoint.clone())
        }
    }
}

impl Collector {
    /// The address of the first page built from the configuration.
    pub fn query_endpoint(&self) -> (r: String)
        ensures
            r@ == query_endpoint(*self),
    {
        let status = self.ad_status.to_string();
        let ids = page_id_list(&self.page_ids);
        let limit = decimal_text(self.batch_size as u64);
        ARCHIVE_QUERY.to_owned().concat(status.as_str()).concat("&search_page_ids=").concat(
            ids.as_str(),
        ).concat("&limit=").concat(limit.as_str()).concat("&access_token=").concat(
            self.access_token.as_str(),
        )
    }

    /// Starts a run: nothing gathered, on the resume address if one was
    /// given, else on the first page of the query.
    pub fn begin(&self) -> (r: Collection)
        ensures
            r.wf(),
            r@ == (RunView { result: ResultView::empty(), endpoint: initial_endpoint(*self), attempts: 0 }),
    {
        let endpoint = match &self.endpoint {
            Some(e) => e.clone(),
            None => self.query_endpoint(),
        };
        Collection { result: CollectionResult::new(), endpoint, attempts: 0 }
    }
}

/// A run after `n` failed fetches in a row.
pub open spec fn fail_times(s: RunView, budget: nat, n: nat) -> RunView
    decreases n,
{
    if n == 0 {
        s
    } else {
        after_failure(fail_times(s, budget, (n - 1) as nat), budget).0
    }
}

proof fn lemma_fail_count(s: RunView, budget: nat, n: nat)
    requires
        s.attempts == 0,
        n <= budget,
    ensures
        fail_times(s, budget, n) == (RunView { attempts: n, ..s }),
    decreases n,
{
    if n > 0 {
        lemma_fail_count(s, budget, (n - 1) as nat);
    }
}

/// Failed fetches within the retry budget retry the same address and leave
/// what was gathered alone, so a page that comes through after them is taken
/// in exactly as if it had come through at once.
pub proof fn lemma_retry_recovers(
    s: RunView,
    budget: nat,
    n: nat,
    data: Seq<AdRecord>,
    next: Option<Seq<char>>,
    start: int,
    end: int,
)
    requires
        s.attempts == 0,
        n <= budget,
    ensures
        fail_times(s, budget, n).result == s.result,
        fail_times(s, budget, n).endpoint == s.endpoint,
        forall|i: nat| i < n ==> (#[trigger] after_failure(fail_times(s, budget, i), budget)).1
            == Step::Fetch(s.endpoint),
        after_page(fail_times(s, budget, n), data, next, start, end) == after_page(
            s,
            data,
            next,
            start,
            end,
        ),
{
    lemma_fail_count(s, budget, n);
    assert forall|i: nat| i < n implies (#[trigger] after_failure(fail_times(s, budget, i), budget)).1
        == Step::Fetch(s.endpoint) by {
        lemma_fail_count(s, budget, i);
    }
}

/// A page that fails on every try ends the run, once the retry budget is
/// spent, with what was gathered before it and no error.
pub proof fn lemma_retry_exhausted(s: RunView, budget: nat)
    requires
        s.attempts == 0,
    ensures
        fail_times(s, budget, budget).result == s.result,
        after_failure(fail_times(s, budget, budget), budget) == (
            fail_times(s, budget, budget),
            Step::Stop(Completion::Exhausted),
        ),
{
    lemma_fail_count(s, budget, budget);
}

} // verus!
