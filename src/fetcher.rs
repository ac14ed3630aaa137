//! The pagination state machine of one asset's run: it says which query to
//! issue next and turns each page that comes back into records to emit.
//!
//! The next query starts at the time of the last record received, inclusive,
//! so the record on each page boundary is received, and emitted, twice. The
//! run keeps that duplicate rather than dropping it.
use vstd::prelude::*;
use crate::record::{
    FundingRecord,
    FundingRecordView,
    MalformedRecordError,
    RawFundingRecord,
    RawFundingRecordView,
    normalized,
};

verus! {

/// The number of records the service sends at most in one page.
pub const DEFAULT_PAGE_CAP: usize = 500;

/// Where a run stands.
#[derive(Clone, Copy, Debug, PartialEq, Eq, Structural)]
pub enum FetchState {
    /// More records may follow; the next query asks for those at or after
    /// `cursor_ms`.
    Fetching { cursor_ms: u64 },
    /// No further query is issued.
    Done,
}

/// The records of a page in order, or the first error among them.
pub open spec fn normalized_page(page: Seq<RawFundingRecordView>) -> Result<
    Seq<FundingRecordView>,
    MalformedRecordError,
>
    decreases page.len(),
{
    if page.len() == 0 {
        Ok(Seq::empty())
    } else {
        match normalized_page(page.drop_last()) {
            Err(e) => Err(e),
            Ok(recs) => match normalized(page.last()) {
                Err(e) => Err(e),
                Ok(rec) => Ok(recs.push(rec)),
            },
        }
    }
}

/// The state after a page that normalised to `recs`: done on an empty or a
/// short page, else fetching from the time of the page's last record.
pub open spec fn state_after(cap: nat, recs: Seq<FundingRecordView>) -> FetchState {
    if recs.len() == 0 || recs.len() < cap {
        FetchState::Done
    } else {
        FetchState::Fetching { cursor_ms: recs.last().timestamp_ms }
    }
}

/// One step: what a page does to a fetching run, as the new state and the
/// records to emit (or the error that ends the run).
pub open spec fn step(cap: nat, page: Seq<RawFundingRecordView>) -> (
    FetchState,
    Result<Seq<FundingRecordView>, MalformedRecordError>,
) {
    match normalized_page(page) {
        Err(e) => (FetchState::Done, Err(e)),
        Ok(recs) => (state_after(cap, recs), Ok(recs)),
    }
}

/// The state and the records emitted after a run from `start` has been
/// handed `pages` in turn; pages that come once the run is done are ignored.
pub open spec fn run(start: u64, cap: nat, pages: Seq<Seq<RawFundingRecordView>>) -> (
    FetchState,
    Seq<FundingRecordView>,
)
    decreases pages.len(),
{
    if pages.len() == 0 {
        (FetchState::Fetching { cursor_ms: start }, Seq::empty())
    } else {
        let (st, out) = run(start, cap, pages.drop_last());
        match st {
            FetchState::Done => (st, out),
            FetchState::Fetching { .. } => {
                let (next, res) = step(cap, pages.last());
                match res {
                    Ok(recs) => (next, out + recs),
                    Err(_) => (next, out),
                }
            },
        }
    }
}

/// The run for one asset.
pub struct HistoryFetcher {
    asset: String,
    page_cap: usize,
    state: FetchState,
}

impl HistoryFetcher {
    pub closed spec fn spec_asset(&self) -> Seq<char> {
        self.asset@
    }

    pub closed spec fn spec_page_cap(&self) -> nat {
        self.page_cap as nat
    }

    pub closed spec fn spec_state(&self) -> FetchState {
        self.state
    }

    /// A fresh run for `asset` that starts at `start_ms` and treats a page of
    /// fewer than `page_cap` records as the last.
    pub fn new(asset: String, start_ms: u64, page_cap: usize) -> (r: HistoryFetcher)
        ensures
            r.spec_asset() == asset@,
            r.spec_page_cap() == page_cap,
            r.spec_state() == (FetchState::Fetching { cursor_ms: start_ms }),
    {
        HistoryFetcher { asset, page_cap, state: FetchState::Fetching { cursor_ms: start_ms } }
    }

    pub fn asset(&self) -> (r: &String)
        ensures
            r@ == self.spec_asset(),
    {
        &self.asset
    }

    pub fn page_cap(&self) -> (r: usize)
        ensures
            r == self.spec_page_cap(),
    {
        self.page_cap
    }

    pub fn state(&self) -> (r: FetchState)
        ensures
            r == self.spec_state(),
    {
        self.state
    }

    /// The lower time bound of the next query, or `None` once the run is done.
    pub fn next_query(&self) -> (r: Option<u64>)
        ensures
            r is Some <==> self.spec_state() is Fetching,
            r matches Some(c) ==> self.spec_state() == (FetchState::Fetching { cursor_ms: c }),
    {
        match self.state {
            FetchState::Fetching { cursor_ms } => Some(cursor_ms),
            FetchState::Done => None,
        }
    }

    /// Takes the page that answered the last query: returns its records to
    /// emit, in the order received, and moves the cursor to the time of the
    /// last of them. The run is done after an empty page, a page shorter than
    /// the cap, or a record that cannot be read, which fails the call.
    pub fn accept_page(&mut self, page: &Vec<RawFundingRecord>) -> (r: Result<
        Vec<FundingRecord>,
        MalformedRecordError,
    >)
        requires
            old(self).spec_state() is Fetching,
        ensures
            final(self).spec_asset() == old(self).spec_asset(),
            final(self).spec_page_cap() == old(self).spec_page_cap(),
            final(self).spec_state() == step(old(self).spec_page_cap(), page@.map_values(
                |x: RawFundingRecord| x@,
            )).0,
            match r {
                Ok(recs) => step(old(self).spec_page_cap(), page@.map_values(
                    |x: RawFundingRecord| x@,
                )).1 == Ok::<Seq<FundingRecordView>, MalformedRecordError>(
                    recs@.map_values(|x: FundingRecord| x@),
                ) && forall|i: int| 0 <= i < recs.len() ==> (#[trigger] recs@[i]).wf(),
                Err(e) => step(old(self).spec_page_cap(), page@.map_values(
                    |x: RawFundingRecord| x@,
                )).1 == Err::<Seq<FundingRecordView>, MalformedRecordError>(e),
            },
    {
        let ghost raw = page@.map_values(|x: RawFundingRecord| x@);
        let mut recs: Vec<FundingRecord> = Vec::new();
        let mut i: usize = 0;
        assert(raw.take(0) =~= Seq::<RawFundingRecordView>::empty());
        assert(recs@.map_values(|x: FundingRecord| x@) =~= Seq::<FundingRecordView>::empty());
        while i < page.len()
            invariant
                self.asset == old(self).asset,
                self.page_cap == old(self).page_cap,
                raw == page@.map_values(|x: RawFundingRecord| x@),
                0 <= i <= page.len(),
                normalized_page(raw.take(i as int)) == Ok::<
                    Seq<FundingRecordView>,
                    MalformedRecordError,
                >(recs@.map_values(|x: FundingRecord| x@)),
                forall|k: int| 0 <= k < recs.len() ==> (#[trigger] recs@[k]).wf(),
            decreases page.len() - i,
        {
            assert(raw.take(i + 1).drop_last() =~= raw.take(i as int));
            match FundingRecord::from_raw(&page[i]) {
                Ok(rec) => {
                    let ghost before = recs@;
                    recs.push(rec);
                    assert(recs@.map_values(|x: FundingRecord| x@) =~= before.map_values(
                        |x: FundingRecord| x@,
                    ).push(rec@));
                },
                Err(e) => {
                    proof {
                        lemma_page_error_stays(raw, i as int + 1);
                    }
                    self.state = FetchState::Done;
                    return Err(e);
                },
            }
            i = i + 1;
        }
        assert(raw.take(i as int) =~= raw);
        let n = recs.len();
        if n == 0 || n < self.page_cap {
            self.state = FetchState::Done;
        } else {
            self.state = FetchState::Fetching { cursor_ms: recs[n - 1].timestamp_ms };
        }
        Ok(recs)
    }
}

/// Whether `page` is a proper answer to a query from `from`: every record at
/// or after `from`, in ascending time order.
pub open spec fn answers_query(page: Seq<RawFundingRecordView>, from: u64) -> bool {
    &&& forall|i: int| 0 <= i < page.len() ==> from <= (#[trigger] page[i]).time
    &&& forall|i: int, j: int|
        0 <= i <= j < page.len() ==> (#[trigger] page[i]).time <= (#[trigger] page[j]).time
}

/// Whether each page that a run from `start` queried is a proper answer.
pub open spec fn service_answers(start: u64, cap: nat, pages: Seq<Seq<RawFundingRecordView>>) -> bool {
    forall|k: int|
        0 <= k < pages.len() ==> match #[trigger] run(start, cap, pages.take(k)).0 {
            FetchState::Fetching { cursor_ms } => answers_query(pages[k], cursor_ms),
            FetchState::Done => true,
        }
}

/// Whether the records' times never decrease.
pub open spec fn ascending(out: Seq<FundingRecordView>) -> bool {
    forall|i: int, j: int|
        0 <= i <= j < out.len() ==> (#[trigger] out[i]).timestamp_ms <= (#[trigger] out[j]).timestamp_ms
}

/// A page that normalises holds one record per raw record, each the
/// normalised form of its raw record.
pub proof fn lemma_normalized_page(page: Seq<RawFundingRecordView>)
    requires
        normalized_page(page) is Ok,
    ensures
        normalized_page(page)->Ok_0.len() == page.len(),
        forall|i: int|
            0 <= i < page.len() ==> normalized(#[trigger] page[i]) == Ok::<
                FundingRecordView,
                MalformedRecordError,
            >(normalized_page(page)->Ok_0[i]),
        forall|i: int|
            0 <= i < page.len() ==> (#[trigger] normalized_page(page)->Ok_0[i]).timestamp_ms
                == page[i].time,
    decreases page.len(),
{
    if page.len() > 0 {
        lemma_normalized_page(page.drop_last());
        let recs = normalized_page(page)->Ok_0;
        assert forall|i: int| 0 <= i < page.len() implies normalized(#[trigger] page[i]) == Ok::<
            FundingRecordView,
            MalformedRecordError,
        >(recs[i]) by {
            if i < page.len() - 1 {
                assert(page.drop_last()[i] == page[i]);
            }
        }
    }
}

/// The run stops exactly on a page that is empty, shorter than the cap, or
/// holds a record that cannot be read; otherwise the next query starts at the
/// time of the page's last record.
pub proof fn lemma_step_stops_exactly_on_short_page(cap: nat, page: Seq<RawFundingRecordView>)
    ensures
        (step(cap, page).0 is Done) <==> (normalized_page(page) is Err || page.len() == 0
            || page.len() < cap),
        step(cap, page).0 matches FetchState::Fetching { cursor_ms } ==> cursor_ms
            == page.last().time,
        step(cap, page).1 matches Ok(recs) ==> recs.len() == page.len(),
{
    if normalized_page(page) is Ok {
        lemma_normalized_page(page);
    }
}

/// An empty first page ends the run cleanly, with nothing emitted.
pub proof fn lemma_empty_first_page(start: u64, cap: nat)
    ensures
        run(start, cap, seq![Seq::<RawFundingRecordView>::empty()]) == (
            FetchState::Done,
            Seq::<FundingRecordView>::empty(),
        ),
{
    let pages = seq![Seq::<RawFundingRecordView>::empty()];
    assert(pages.drop_last() =~= Seq::<Seq<RawFundingRecordView>>::empty());
    assert(run(start, cap, pages.drop_last()).0 == (FetchState::Fetching { cursor_ms: start }));
    assert(pages.last() == Seq::<RawFundingRecordView>::empty());
    assert(normalized_page(pages.last()) == Ok::<Seq<FundingRecordView>, MalformedRecordError>(
        Seq::empty(),
    ));
    assert(step(cap, pages.last()).0 == FetchState::Done);
    assert(Seq::<FundingRecordView>::empty() + Seq::<FundingRecordView>::empty() =~= Seq::<
        FundingRecordView,
    >::empty());
}

/// A page with a record that cannot be read fails the step with that record's
/// error and ends the run: no later page changes the state or the output.
pub proof fn lemma_malformed_page_ends_run(
    start: u64,
    cap: nat,
    pages: Seq<Seq<RawFundingRecordView>>,
    later: Seq<Seq<RawFundingRecordView>>,
)
    requires
        pages.len() > 0,
        run(start, cap, pages.drop_last()).0 is Fetching,
        normalized_page(pages.last()) is Err,
    ensures
        step(cap, pages.last()).1 == normalized_page(pages.last()),
        run(start, cap, pages).0 is Done,
        run(start, cap, pages).1 == run(start, cap, pages.drop_last()).1,
        run(start, cap, pages + later) == run(start, cap, pages),
    decreases later.len(),
{
    if later.len() > 0 {
        lemma_malformed_page_ends_run(start, cap, pages, later.drop_last());
        assert((pages + later).drop_last() =~= pages + later.drop_last());
    } else {
        assert(pages + later =~= pages);
    }
}

/// Normalising depends on the raw record alone: equal raw records give
/// identical results.
pub proof fn lemma_normalization_deterministic(a: RawFundingRecordView, b: RawFundingRecordView)
    requires
        a == b,
    ensures
        normalized(a) == normalized(b),
{
}

/// Where the service answers every query properly, a run emits records in
/// ascending time order, none before the start; while it is still fetching,
/// its cursor is at or after the start and at or after every emitted record.
pub proof fn lemma_run_ordered(start: u64, cap: nat, pages: Seq<Seq<RawFundingRecordView>>)
    requires
        service_answers(start, cap, pages),
    ensures
        ascending(run(start, cap, pages).1),
        forall|i: int|
            0 <= i < run(start, cap, pages).1.len() ==> start <= (#[trigger] run(
                start,
                cap,
                pages,
            ).1[i]).timestamp_ms,
        run(start, cap, pages).0 matches FetchState::Fetching { cursor_ms } ==> start <= cursor_ms
            && forall|i: int|
            0 <= i < run(start, cap, pages).1.len() ==> (#[trigger] run(
                start,
                cap,
                pages,
            ).1[i]).timestamp_ms <= cursor_ms,
    decreases pages.len(),
{
    if pages.len() > 0 {
        let prev = pages.drop_last();
        assert forall|k: int| 0 <= k < prev.len() implies match #[trigger] run(
            start,
            cap,
            prev.take(k),
        ).0 {
            FetchState::Fetching { cursor_ms } => answers_query(prev[k], cursor_ms),
            FetchState::Done => true,
        } by {
            assert(prev.take(k) =~= pages.take(k));
            assert(prev[k] == pages[k]);
            assert(match run(start, cap, pages.take(k)).0 {
                FetchState::Fetching { cursor_ms } => answers_query(pages[k], cursor_ms),
                FetchState::Done => true,
            });
        }
        lemma_run_ordered(start, cap, prev);
        let (st, out) = run(start, cap, prev);
        if let FetchState::Fetching { cursor_ms } = st {
            let page = pages.last();
            assert(pages.take(pages.len() - 1) =~= prev);
            assert(run(start, cap, pages.take(pages.len() - 1)).0 == st);
            assert(answers_query(page, cursor_ms));
            if normalized_page(page) is Ok {
                lemma_normalized_page(page);
                let recs = normalized_page(page)->Ok_0;
                let all = out + recs;
                assert(run(start, cap, pages).1 == all);
                assert forall|i: int, j: int| 0 <= i <= j < all.len() implies (
                #[trigger] all[i]).timestamp_ms <= (#[trigger] all[j]).timestamp_ms by {
                    if j >= out.len() {
                        assert(all[j] == recs[j - out.len()]);
                        assert(cursor_ms <= page[j - out.len()].time);
                        if i >= out.len() {
                            assert(all[i] == recs[i - out.len()]);
                            assert(page[i - out.len()].time <= page[j - out.len()].time);
                        }
                    }
                }
                assert forall|i: int| 0 <= i < all.len() implies start <= (
                #[trigger] all[i]).timestamp_ms by {
                    if i >= out.len() {
                        assert(all[i] == recs[i - out.len()]);
                        assert(cursor_ms <= page[i - out.len()].time);
                    }
                }
                if let FetchState::Fetching { cursor_ms: c2 } = state_after(cap, recs) {
                    let last = recs.len() - 1;
                    assert(c2 == page[last].time);
                    assert(cursor_ms <= page[last].time);
                    assert forall|i: int| 0 <= i < all.len() implies (
                    #[trigger] all[i]).timestamp_ms <= c2 by {
                        if i >= out.len() {
                            assert(all[i] == recs[i - out.len()]);
                            assert(page[i - out.len()].time <= page[last].time);
                        }
                    }
                }
            }
        }
    }
}

/// An error in a prefix of a page is the error of the whole page.
proof fn lemma_page_error_stays(page: Seq<RawFundingRecordView>, k: int)
    requires
        0 <= k <= page.len(),
        normalized_page(page.take(k)) is Err,
    ensures
        normalized_page(page) == normalized_page(page.take(k)),
    decreases page.len() - k,
{
    if k == page.len() {
        assert(page.take(k) =~= page);
    } else {
        assert(page.take(k + 1).drop_last() =~= page.take(k));
        lemma_page_error_stays(page, k + 1);
    }
}

} // verus!
