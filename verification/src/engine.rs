//! The crawl engine: frontier, visited and in-flight bookkeeping.
//!
//! The engine never performs a request.  A driver alternates between
//! [`Engine::next_batch`], which hands out the canonical URLs to fetch in one
//! round, and [`Engine::complete`], which takes the outcome of one of them.

use crate::canon::{canonical, canonicalize, CrawlError};
use crate::fetch::{FailureReason, FetchOutcome};
use crate::text::{contains_text, lemma_push_contains, lemma_texts_push, position_of, texts};
use crate::web::{domain_of, opt_text, parse_url, url_domain, url_parse};
use std::collections::VecDeque;
use vstd::prelude::*;

verus! {

/// The number of pages fetched side by side unless the caller chooses another.
pub const DEFAULT_CONCURRENCY: usize = 20;

/// A page whose fetch failed, with the reason.
#[derive(Debug, Clone)]
pub struct Failed {
    pub url: String,
    pub reason: FailureReason,
}

/// The state of a crawl of one domain.
pub struct Engine {
    base_domain: String,
    params: Vec<String>,
    limit: usize,
    frontier: VecDeque<String>,
    visited: Vec<String>,
    in_flight: Vec<String>,
    failures: Vec<Failed>,
}

/// The mathematical content of an [`Engine`].
pub struct EngineView {
    /// Domain that the crawl is confined to.
    pub base: Seq<char>,
    /// Query parameters removed during canonicalisation.
    pub params: Seq<Seq<char>>,
    /// Most pages handed out per round.
    pub limit: nat,
    /// Discovered URLs awaiting dispatch, oldest first.
    pub frontier: Seq<Seq<char>>,
    /// Canonical URLs whose fetch has completed, in order of completion.
    pub visited: Seq<Seq<char>>,
    /// Canonical URLs handed out and not yet completed.
    pub in_flight: Seq<Seq<char>>,
    /// The completed fetches that failed, in order of completion.
    pub failures: Seq<(Seq<char>, FailureReason)>,
}

/// Contents of a list of failure records.
pub open spec fn failure_texts(v: Seq<Failed>) -> Seq<(Seq<char>, FailureReason)> {
    Seq::new(v.len(), |i: int| (v[i].url@, v[i].reason))
}

/// The canonical URL under which the frontier entry `url` is dispatched, or
/// `None` where the entry is discarded: it has no canonical form, it lies
/// outside the domain `base`, or its canonical form is already `known`.
pub open spec fn admitted(
    url: Seq<char>,
    params: Seq<Seq<char>>,
    base: Seq<char>,
    known: Set<Seq<char>>,
) -> Option<Seq<char>> {
    match canonical(url, params) {
        None => None,
        Some(c) => if url_domain(c) == Some(base) && !known.contains(c) {
            Some(c)
        } else {
            None
        },
    }
}

/// One round of dispatch: the batch of canonical URLs handed out, and the
/// number of frontier entries consumed for it.
pub struct Round {
    pub batch: Seq<Seq<char>>,
    pub used: nat,
}

/// The round that a frontier yields.  Entries are taken from the front; a
/// discarded entry costs no slot; the round ends when `limit` URLs have been
/// admitted or the frontier is exhausted.  An admitted URL counts as known
/// for the entries behind it.
pub open spec fn plan(
    frontier: Seq<Seq<char>>,
    params: Seq<Seq<char>>,
    base: Seq<char>,
    known: Set<Seq<char>>,
    limit: nat,
) -> Round
    decreases frontier.len(),
{
    if limit == 0 || frontier.len() == 0 {
        Round { batch: Seq::empty(), used: 0 }
    } else {
        match admitted(frontier[0], params, base, known) {
            Some(c) => {
                let rest = plan(
                    frontier.drop_first(),
                    params,
                    base,
                    known.insert(c),
                    (limit - 1) as nat,
                );
                Round { batch: seq![c] + rest.batch, used: rest.used + 1 }
            },
            None => {
                let rest = plan(frontier.drop_first(), params, base, known, limit);
                Round { batch: rest.batch, used: rest.used + 1 }
            },
        }
    }
}

/// The links among `links` that join the frontier: those inside the domain
/// `base` whose text is not yet `known`, in order.
pub open spec fn fresh_links(links: Seq<Seq<char>>, base: Seq<char>, known: Set<Seq<char>>) -> Seq<
    Seq<char>,
>
    decreases links.len(),
{
    if links.len() == 0 {
        Seq::empty()
    } else {
        let init = fresh_links(links.drop_last(), base, known);
        if url_domain(links.last()) == Some(base) && !known.contains(links.last()) {
            init.push(links.last())
        } else {
            init
        }
    }
}

/// Whether a failure is on record for `url`.
pub open spec fn recorded(failures: Seq<(Seq<char>, FailureReason)>, url: Seq<char>) -> bool {
    exists|i: int| 0 <= i < failures.len() && (#[trigger] failures[i]).0 == url
}

/// The URLs of `visited` for which no failure is on record, in order.
pub open spec fn unfailed(
    visited: Seq<Seq<char>>,
    failures: Seq<(Seq<char>, FailureReason)>,
) -> Seq<Seq<char>>
    decreases visited.len(),
{
    if visited.len() == 0 {
        Seq::empty()
    } else {
        let init = unfailed(visited.drop_last(), failures);
        if recorded(failures, visited.last()) {
            init
        } else {
            init.push(visited.last())
        }
    }
}

/// One move of a crawl, as its driver makes it.
pub enum Step {
    /// A round was started and its batch handed out.
    Dispatch,
    /// The fetch of `url` ended with `outcome`.
    Settle { url: Seq<char>, outcome: FetchOutcome },
}

/// The state reached from `state` by the moves `steps`, in order.
pub open spec fn run(state: EngineView, steps: Seq<Step>) -> EngineView
    decreases steps.len(),
{
    if steps.len() == 0 {
        state
    } else {
        match steps[0] {
            Step::Dispatch => run(state.dispatched(), steps.drop_first()),
            Step::Settle { url, outcome } => run(state.settled(url, outcome), steps.drop_first()),
        }
    }
}

/// Every URL handed out for fetching while the moves `steps` are made from
/// `state`, in the order of handing out.
pub open spec fn fetches(state: EngineView, steps: Seq<Step>) -> Seq<Seq<char>>
    decreases steps.len(),
{
    if steps.len() == 0 {
        Seq::empty()
    } else {
        match steps[0] {
            Step::Dispatch => state.next_round().batch + fetches(
                state.dispatched(),
                steps.drop_first(),
            ),
            Step::Settle { url, outcome } => fetches(
                state.settled(url, outcome),
                steps.drop_first(),
            ),
        }
    }
}

impl View for Engine {
    type V = EngineView;

    closed spec fn view(&self) -> EngineView {
        EngineView {
            base: self.base_domain@,
            params: texts(self.params@),
            limit: self.limit as nat,
            frontier: texts(self.frontier@),
            visited: texts(self.visited@),
            in_flight: texts(self.in_flight@),
            failures: failure_texts(self.failures@),
        }
    }
}

impl EngineView {
    /// The canonical URLs that have been handed out so far, completed or not.
    pub open spec fn known(self) -> Set<Seq<char>> {
        Set::new(|u: Seq<char>| self.visited.contains(u) || self.in_flight.contains(u))
    }

    /// The invariant of a crawl: no URL is tracked twice, none is visited and
    /// in flight at once, every tracked URL lies in the base domain, and every
    /// recorded failure belongs to a visited URL.
    pub open spec fn wf(self) -> bool {
        &&& self.visited.no_duplicates()
        &&& self.in_flight.no_duplicates()
        &&& forall|u: Seq<char>| !(self.visited.contains(u) && self.in_flight.contains(u))
        &&& forall|u: Seq<char>| #[trigger] self.known().contains(u) ==> url_domain(u) == Some(self.base)
        &&& forall|i: int|
            0 <= i < self.failures.len() ==> self.visited.contains(#[trigger] self.failures[i].0)
    }

    /// The crawl is over: nothing awaits dispatch and nothing is outstanding.
    pub open spec fn done(self) -> bool {
        self.frontier.len() == 0 && self.in_flight.len() == 0
    }

    /// The round that this state yields.
    pub open spec fn next_round(self) -> Round {
        plan(self.frontier, self.params, self.base, self.known(), self.limit)
    }

    /// The state after one round of dispatch: the consumed entries leave the
    /// frontier and the batch joins the in-flight URLs.
    pub open spec fn dispatched(self) -> EngineView {
        EngineView {
            frontier: self.frontier.skip(self.next_round().used as int),
            in_flight: self.in_flight + self.next_round().batch,
            ..self
        }
    }

    /// The state after the fetch of `url` ended with `outcome`.  A URL that is
    /// not in flight changes nothing.  Otherwise it moves to the visited
    /// URLs; a success appends its fresh links to the frontier, a failure is
    /// put on record.
    pub open spec fn settled(self, url: Seq<char>, outcome: FetchOutcome) -> EngineView {
        if !self.in_flight.contains(url) {
            self
        } else {
            let moved = EngineView {
                in_flight: self.in_flight.remove(self.in_flight.index_of(url)),
                visited: self.visited.push(url),
                ..self
            };
            match outcome {
                FetchOutcome::Success(links) => EngineView {
                    frontier: self.frontier + fresh_links(texts(links@), self.base, self.known()),
                    ..moved
                },
                FetchOutcome::Failure(reason) => EngineView {
                    failures: self.failures.push((url, reason)),
                    ..moved
                },
            }
        }
    }

    /// Whether the canonical form of `link` lies in the base domain.
    pub open spec fn admissible(self, link: Seq<char>) -> bool {
        canonical(link, self.params) is Some && url_domain(canonical(link, self.params).unwrap())
            == Some(self.base)
    }

    /// Whether `link` is taken care of: it awaits dispatch in the frontier,
    /// or its canonical form is tracked already.
    pub open spec fn pending(self, link: Seq<char>) -> bool {
        self.frontier.contains(link) || (canonical(link, self.params) is Some
            && self.known().contains(canonical(link, self.params).unwrap()))
    }
}

/// What a round hands out is new and confined: at most `limit` URLs, no
/// more frontier entries consumed than there are, every URL of the batch in
/// the domain `base`, none of them known before, and none of them twice.
pub proof fn lemma_plan_batch(
    frontier: Seq<Seq<char>>,
    params: Seq<Seq<char>>,
    base: Seq<char>,
    known: Set<Seq<char>>,
    limit: nat,
)
    ensures
        plan(frontier, params, base, known, limit).batch.len() <= limit,
        plan(frontier, params, base, known, limit).batch.len() <= plan(
            frontier,
            params,
            base,
            known,
            limit,
        ).used <= frontier.len(),
        plan(frontier, params, base, known, limit).batch.no_duplicates(),
        forall|i: int|
            0 <= i < plan(frontier, params, base, known, limit).batch.len() ==> {
                let c = #[trigger] plan(frontier, params, base, known, limit).batch[i];
                !known.contains(c) && url_domain(c) == Some(base)
            },
    decreases frontier.len(),
{
    if limit == 0 || frontier.len() == 0 {
    } else {
        let tail = frontier.drop_first();
        match admitted(frontier[0], params, base, known) {
            Some(c) => {
                lemma_plan_batch(tail, params, base, known.insert(c), (limit - 1) as nat);
                let rest = plan(tail, params, base, known.insert(c), (limit - 1) as nat);
                let whole = plan(frontier, params, base, known, limit);
                assert(whole.batch == seq![c] + rest.batch);
                assert forall|i: int| 0 <= i < whole.batch.len() implies !known.contains(
                    #[trigger] whole.batch[i],
                ) && url_domain(whole.batch[i]) == Some(base) by {
                    if i > 0 {
                        assert(whole.batch[i] == rest.batch[i - 1]);
                        assert(!known.insert(c).contains(rest.batch[i - 1]));
                    }
                }
                assert forall|i: int, j: int|
                    0 <= i < whole.batch.len() && 0 <= j < whole.batch.len() && i != j implies whole.batch[i]
                    != whole.batch[j] by {
                    if i > 0 {
                        assert(whole.batch[i] == rest.batch[i - 1]);
                        assert(!known.insert(c).contains(rest.batch[i - 1]));
                    }
                    if j > 0 {
                        assert(whole.batch[j] == rest.batch[j - 1]);
                        assert(!known.insert(c).contains(rest.batch[j - 1]));
                    }
                }
            },
            None => {
                lemma_plan_batch(tail, params, base, known, limit);
            },
        }
    }
}

/// A round makes progress: with a slot to fill and a frontier that is not
/// empty, at least one frontier entry is consumed.
pub proof fn lemma_plan_progress(
    frontier: Seq<Seq<char>>,
    params: Seq<Seq<char>>,
    base: Seq<char>,
    known: Set<Seq<char>>,
    limit: nat,
)
    requires
        limit > 0,
        frontier.len() > 0,
    ensures
        plan(frontier, params, base, known, limit).used >= 1,
{
}

/// A round stops early only when its batch is full: if fewer than `limit`
/// URLs were handed out, the whole frontier was consumed.
pub proof fn lemma_plan_drains(
    frontier: Seq<Seq<char>>,
    params: Seq<Seq<char>>,
    base: Seq<char>,
    known: Set<Seq<char>>,
    limit: nat,
)
    ensures
        plan(frontier, params, base, known, limit).batch.len() < limit ==> plan(
            frontier,
            params,
            base,
            known,
            limit,
        ).used == frontier.len(),
    decreases frontier.len(),
{
    if limit == 0 || frontier.len() == 0 {
    } else {
        let tail = frontier.drop_first();
        match admitted(frontier[0], params, base, known) {
            Some(c) => {
                lemma_plan_drains(tail, params, base, known.insert(c), (limit - 1) as nat);
            },
            None => {
                lemma_plan_drains(tail, params, base, known, limit);
            },
        }
    }
}

/// No admissible page is lost in a round: every consumed frontier entry whose
/// canonical form lies in the domain `base` is known once the batch is.
pub proof fn lemma_plan_covers(
    frontier: Seq<Seq<char>>,
    params: Seq<Seq<char>>,
    base: Seq<char>,
    known: Set<Seq<char>>,
    limit: nat,
    k: int,
)
    requires
        0 <= k < frontier.len(),
        k < plan(frontier, params, base, known, limit).used,
        canonical(frontier[k], params) is Some,
        url_domain(canonical(frontier[k], params).unwrap()) == Some(base),
    ensures
        known.contains(canonical(frontier[k], params).unwrap()) || plan(
            frontier,
            params,
            base,
            known,
            limit,
        ).batch.contains(canonical(frontier[k], params).unwrap()),
    decreases frontier.len(),
{
    let whole = plan(frontier, params, base, known, limit);
    let target = canonical(frontier[k], params).unwrap();
    if limit == 0 || frontier.len() == 0 {
    } else {
        let tail = frontier.drop_first();
        match admitted(frontier[0], params, base, known) {
            Some(c) => {
                let rest = plan(tail, params, base, known.insert(c), (limit - 1) as nat);
                assert(whole.batch == seq![c] + rest.batch);
                if k == 0 {
                    assert(whole.batch[0] == c);
                } else {
                    assert(tail[k - 1] == frontier[k]);
                    lemma_plan_covers(tail, params, base, known.insert(c), (limit - 1) as nat, k - 1);
                    if rest.batch.contains(target) {
                        let i = choose|i: int| 0 <= i < rest.batch.len() && rest.batch[i] == target;
                        assert(whole.batch[i + 1] == target);
                    } else if target == c {
                        assert(whole.batch[0] == c);
                    }
                }
            },
            None => {
                if k > 0 {
                    assert(tail[k - 1] == frontier[k]);
                    lemma_plan_covers(tail, params, base, known, limit, k - 1);
                }
            },
        }
    }
}

/// The crawl stays in its domain: every visited and every in-flight URL of a
/// well-formed state has the base domain.
pub proof fn lemma_confined(state: EngineView)
    requires
        state.wf(),
    ensures
        forall|i: int|
            0 <= i < state.visited.len() ==> url_domain(#[trigger] state.visited[i]) == Some(
                state.base,
            ),
        forall|i: int|
            0 <= i < state.in_flight.len() ==> url_domain(#[trigger] state.in_flight[i]) == Some(
                state.base,
            ),
{
    assert forall|i: int| 0 <= i < state.visited.len() implies url_domain(
        #[trigger] state.visited[i],
    ) == Some(state.base) by {
        assert(state.visited.contains(state.visited[i]));
        assert(state.known().contains(state.visited[i]));
    }
    assert forall|i: int| 0 <= i < state.in_flight.len() implies url_domain(
        #[trigger] state.in_flight[i],
    ) == Some(state.base) by {
        assert(state.in_flight.contains(state.in_flight[i]));
        assert(state.known().contains(state.in_flight[i]));
    }
}

/// No discovered page is lost: every link inside the domain `base` is either
/// known already or joins the frontier, and nothing else joins it.
pub proof fn lemma_fresh_links_exact(
    links: Seq<Seq<char>>,
    base: Seq<char>,
    known: Set<Seq<char>>,
    u: Seq<char>,
)
    ensures
        fresh_links(links, base, known).contains(u) <==> links.contains(u) && url_domain(u) == Some(
            base,
        ) && !known.contains(u),
    decreases links.len(),
{
    if links.len() > 0 {
        let init = links.drop_last();
        lemma_fresh_links_exact(init, base, known, u);
        lemma_push_contains(fresh_links(init, base, known), links.last(), u);
        lemma_push_contains(init, links.last(), u);
        assert(init.push(links.last()) =~= links);
    }
}

/// Every URL of a batch is the canonical form of a consumed frontier entry.
pub proof fn lemma_plan_sources(
    frontier: Seq<Seq<char>>,
    params: Seq<Seq<char>>,
    base: Seq<char>,
    known: Set<Seq<char>>,
    limit: nat,
    i: int,
) -> (k: int)
    requires
        0 <= i < plan(frontier, params, base, known, limit).batch.len(),
    ensures
        0 <= k < plan(frontier, params, base, known, limit).used,
        k < frontier.len(),
        canonical(frontier[k], params) == Some(plan(frontier, params, base, known, limit).batch[i]),
    decreases frontier.len(),
{
    let tail = frontier.drop_first();
    match admitted(frontier[0], params, base, known) {
        Some(c) => {
            let rest = plan(tail, params, base, known.insert(c), (limit - 1) as nat);
            assert(plan(frontier, params, base, known, limit).batch == seq![c] + rest.batch);
            if i == 0 {
                0
            } else {
                let k = lemma_plan_sources(
                    tail,
                    params,
                    base,
                    known.insert(c),
                    (limit - 1) as nat,
                    i - 1,
                );
                assert(tail[k] == frontier[k + 1]);
                k + 1
            }
        },
        None => {
            let k = lemma_plan_sources(tail, params, base, known, limit, i);
            assert(tail[k] == frontier[k + 1]);
            k + 1
        },
    }
}

/// Completing a fetch moves a URL between the tracked sets and tracks
/// nothing new: the known URLs stay the same.
pub proof fn lemma_settled_known(state: EngineView, url: Seq<char>, outcome: FetchOutcome)
    ensures
        state.settled(url, outcome).known() == state.known(),
{
    if state.in_flight.contains(url) {
        let at = state.in_flight.index_of(url);
        let gone = state.in_flight.remove(at);
        let after = state.settled(url, outcome);
        assert(after.in_flight == gone);
        assert(after.visited == state.visited.push(url));
        assert forall|u: Seq<char>| after.known().contains(u) <==> state.known().contains(u) by {
            lemma_push_contains(state.visited, url, u);
            if gone.contains(u) {
                let i = choose|i: int| 0 <= i < gone.len() && gone[i] == u;
                if i < at {
                    assert(state.in_flight[i] == u);
                } else {
                    assert(state.in_flight[i + 1] == u);
                }
            }
            if state.in_flight.contains(u) && u != url {
                let i = choose|i: int| 0 <= i < state.in_flight.len() && state.in_flight[i] == u;
                if i < at {
                    assert(gone[i] == u);
                } else {
                    assert(gone[i - 1] == u);
                }
            }
        }
        assert(after.known() =~= state.known());
    }
}

/// A round loses no page: a link that was taken care of before a round, and
/// whose canonical form lies in the base domain, is taken care of after it.
pub proof fn lemma_dispatch_keeps_pending(state: EngineView, link: Seq<char>)
    requires
        state.admissible(link),
        state.pending(link),
    ensures
        state.dispatched().pending(link),
{
    let round = state.next_round();
    let after = state.dispatched();
    let target = canonical(link, state.params).unwrap();
    lemma_plan_batch(state.frontier, state.params, state.base, state.known(), state.limit);
    if state.known().contains(target) {
        if state.in_flight.contains(target) {
            let i = choose|i: int| 0 <= i < state.in_flight.len() && state.in_flight[i] == target;
            assert(after.in_flight[i] == target);
        }
    } else {
        let k = choose|k: int| 0 <= k < state.frontier.len() && state.frontier[k] == link;
        if k < round.used {
            lemma_plan_covers(
                state.frontier,
                state.params,
                state.base,
                state.known(),
                state.limit,
                k,
            );
            let i = choose|i: int| 0 <= i < round.batch.len() && round.batch[i] == target;
            assert(after.in_flight[state.in_flight.len() + i] == target);
        } else {
            assert(after.frontier[k - round.used] == link);
        }
    }
}

/// Completing a fetch loses no page: a link that was taken care of before
/// stays so, whatever the outcome.
pub proof fn lemma_settle_keeps_pending(
    state: EngineView,
    url: Seq<char>,
    outcome: FetchOutcome,
    link: Seq<char>,
)
    requires
        state.pending(link),
    ensures
        state.settled(url, outcome).pending(link),
{
    lemma_settled_known(state, url, outcome);
    let after = state.settled(url, outcome);
    if state.frontier.contains(link) {
        let k = choose|k: int| 0 <= k < state.frontier.len() && state.frontier[k] == link;
        assert(after.frontier[k] == link);
    }
}

/// Every discovered page is taken care of: once a successful fetch is
/// completed, each of its links inside the base domain either awaits dispatch
/// or is tracked.  For a link whose text is tracked this rests on the tracked
/// text being its own canonical form, which is asked of the caller.
pub proof fn lemma_discovered_is_pending(
    state: EngineView,
    url: Seq<char>,
    links: Vec<String>,
    link: Seq<char>,
)
    requires
        state.in_flight.contains(url),
        texts(links@).contains(link),
        url_domain(link) == Some(state.base),
        state.known().contains(link) ==> canonical(link, state.params) == Some(link),
    ensures
        state.settled(url, FetchOutcome::Success(links)).pending(link),
{
    let outcome = FetchOutcome::Success(links);
    lemma_settled_known(state, url, outcome);
    let after = state.settled(url, outcome);
    let fresh = fresh_links(texts(links@), state.base, state.known());
    if !state.known().contains(link) {
        lemma_fresh_links_exact(texts(links@), state.base, state.known(), link);
        let i = choose|i: int| 0 <= i < fresh.len() && fresh[i] == link;
        assert(after.frontier[state.frontier.len() + i] == link);
    }
}

/// A round that hands out nothing empties the frontier, so a driver that
/// stops at an empty batch leaves no entry behind.
pub proof fn lemma_empty_round_ends(state: EngineView)
    requires
        state.limit > 0,
        state.next_round().batch.len() == 0,
    ensures
        state.dispatched().frontier.len() == 0,
{
    lemma_plan_drains(state.frontier, state.params, state.base, state.known(), state.limit);
}

/// When the crawl is over, every link that was taken care of has been
/// visited under its canonical form.
pub proof fn lemma_done_visited(state: EngineView, link: Seq<char>)
    requires
        state.done(),
        state.pending(link),
    ensures
        canonical(link, state.params) is Some,
        state.visited.contains(canonical(link, state.params).unwrap()),
{
    if state.frontier.contains(link) {
        let k = choose|k: int| 0 <= k < state.frontier.len() && state.frontier[k] == link;
    }
    let target = canonical(link, state.params).unwrap();
    if state.in_flight.contains(target) {
        let i = choose|i: int| 0 <= i < state.in_flight.len() && state.in_flight[i] == target;
    }
}

/// A round tracks its batch and nothing else.
pub proof fn lemma_dispatched_known(state: EngineView, url: Seq<char>)
    ensures
        state.dispatched().known().contains(url) <==> state.known().contains(url)
            || state.next_round().batch.contains(url),
{
    let batch = state.next_round().batch;
    let joined = state.in_flight + batch;
    if joined.contains(url) {
        let i = choose|i: int| 0 <= i < joined.len() && joined[i] == url;
        if i < state.in_flight.len() {
            assert(state.in_flight[i] == url);
        } else {
            assert(batch[i - state.in_flight.len()] == url);
        }
    }
    if state.in_flight.contains(url) {
        let i = choose|i: int| 0 <= i < state.in_flight.len() && state.in_flight[i] == url;
        assert(joined[i] == url);
    }
    if batch.contains(url) {
        let i = choose|i: int| 0 <= i < batch.len() && batch[i] == url;
        assert(joined[state.in_flight.len() + i] == url);
    }
}

/// No page is fetched twice, and none outside the domain: over any sequence
/// of rounds and completions, the URLs handed out are pairwise different,
/// none of them was tracked at the start, and each lies in the base domain.
pub proof fn lemma_fetches_once(state: EngineView, steps: Seq<Step>)
    ensures
        fetches(state, steps).no_duplicates(),
        forall|i: int|
            0 <= i < fetches(state, steps).len() ==> !state.known().contains(
                #[trigger] fetches(state, steps)[i],
            ) && url_domain(fetches(state, steps)[i]) == Some(state.base),
    decreases steps.len(),
{
    if steps.len() > 0 {
        let tail = steps.drop_first();
        match steps[0] {
            Step::Dispatch => {
                let batch = state.next_round().batch;
                let next = state.dispatched();
                let rest = fetches(next, tail);
                let all = fetches(state, steps);
                assert(all == batch + rest);
                lemma_plan_batch(
                    state.frontier,
                    state.params,
                    state.base,
                    state.known(),
                    state.limit,
                );
                lemma_fetches_once(next, tail);
                assert forall|i: int| 0 <= i < rest.len() implies !state.known().contains(
                    #[trigger] rest[i],
                ) && !batch.contains(rest[i]) by {
                    lemma_dispatched_known(state, rest[i]);
                }
                assert forall|i: int| 0 <= i < all.len() implies !state.known().contains(
                    #[trigger] all[i],
                ) && url_domain(all[i]) == Some(state.base) by {
                    if i < batch.len() {
                        assert(all[i] == batch[i]);
                    } else {
                        assert(all[i] == rest[i - batch.len()]);
                    }
                }
                assert forall|i: int, j: int|
                    0 <= i < all.len() && 0 <= j < all.len() && i != j implies all[i] != all[j] by {
                    if i < batch.len() && j < batch.len() {
                        assert(all[i] == batch[i] && all[j] == batch[j]);
                    } else if i >= batch.len() && j >= batch.len() {
                        assert(all[i] == rest[i - batch.len()] && all[j] == rest[j - batch.len()]);
                    } else if i < batch.len() {
                        assert(all[i] == batch[i] && all[j] == rest[j - batch.len()]);
                        assert(!batch.contains(rest[j - batch.len()]));
                    } else {
                        assert(all[j] == batch[j] && all[i] == rest[i - batch.len()]);
                        assert(!batch.contains(rest[i - batch.len()]));
                    }
                }
            },
            Step::Settle { url, outcome } => {
                lemma_settled_known(state, url, outcome);
                lemma_fetches_once(state.settled(url, outcome), tail);
            },
        }
    }
}

/// The tracked URLs are the ones handed out: after any sequence of rounds and
/// completions a URL is tracked exactly if it was tracked at the start or
/// has been handed out since.
pub proof fn lemma_fetches_tracked(state: EngineView, steps: Seq<Step>, url: Seq<char>)
    ensures
        run(state, steps).known().contains(url) <==> state.known().contains(url) || fetches(
            state,
            steps,
        ).contains(url),
    decreases steps.len(),
{
    if steps.len() > 0 {
        let tail = steps.drop_first();
        match steps[0] {
            Step::Dispatch => {
                let batch = state.next_round().batch;
                let rest = fetches(state.dispatched(), tail);
                let all = fetches(state, steps);
                assert(all == batch + rest);
                lemma_dispatched_known(state, url);
                lemma_fetches_tracked(state.dispatched(), tail, url);
                if batch.contains(url) {
                    let i = choose|i: int| 0 <= i < batch.len() && batch[i] == url;
                    assert(all[i] == url);
                }
                if rest.contains(url) {
                    let i = choose|i: int| 0 <= i < rest.len() && rest[i] == url;
                    assert(all[batch.len() + i] == url);
                }
                if all.contains(url) {
                    let i = choose|i: int| 0 <= i < all.len() && all[i] == url;
                    if i < batch.len() {
                        assert(batch[i] == url);
                    } else {
                        assert(rest[i - batch.len()] == url);
                    }
                }
            },
            Step::Settle { url: settled, outcome } => {
                lemma_settled_known(state, settled, outcome);
                lemma_fetches_tracked(state.settled(settled, outcome), tail, url);
            },
        }
    }
}

/// No page is lost on the way: a link that is taken care of, and whose
/// canonical form lies in the base domain, stays taken care of over any
/// sequence of rounds and completions.
pub proof fn lemma_run_keeps_pending(state: EngineView, steps: Seq<Step>, link: Seq<char>)
    requires
        state.admissible(link),
        state.pending(link),
    ensures
        run(state, steps).pending(link),
        run(state, steps).params == state.params,
        run(state, steps).base == state.base,
    decreases steps.len(),
{
    if steps.len() > 0 {
        let tail = steps.drop_first();
        match steps[0] {
            Step::Dispatch => {
                lemma_dispatch_keeps_pending(state, link);
                lemma_run_keeps_pending(state.dispatched(), tail, link);
            },
            Step::Settle { url, outcome } => {
                lemma_settle_keeps_pending(state, url, outcome, link);
                lemma_run_keeps_pending(state.settled(url, outcome), tail, link);
            },
        }
    }
}

/// The result is complete: whatever moves lead from a state to the end of
/// the crawl, every link that was taken care of in that state, and whose
/// canonical form lies in the base domain, is among the visited URLs at the
/// end, under its canonical form.
pub proof fn lemma_crawl_reaches(state: EngineView, steps: Seq<Step>, link: Seq<char>)
    requires
        state.admissible(link),
        state.pending(link),
        run(state, steps).done(),
    ensures
        run(state, steps).visited.contains(canonical(link, state.params).unwrap()),
{
    lemma_run_keeps_pending(state, steps, link);
    lemma_done_visited(run(state, steps), link);
}

/// Links are followed: when a page was read, each of its links inside the
/// base domain is visited, under its canonical form, by the time the crawl is
/// over, whatever moves lead there.  The link's canonical form must lie in the
/// base domain too, and a link whose text is tracked must be its own canonical
/// form.
pub proof fn lemma_links_followed(
    state: EngineView,
    url: Seq<char>,
    links: Vec<String>,
    steps: Seq<Step>,
    link: Seq<char>,
)
    requires
        state.in_flight.contains(url),
        texts(links@).contains(link),
        url_domain(link) == Some(state.base),
        state.admissible(link),
        state.known().contains(link) ==> canonical(link, state.params) == Some(link),
        run(state.settled(url, FetchOutcome::Success(links)), steps).done(),
    ensures
        run(state.settled(url, FetchOutcome::Success(links)), steps).visited.contains(
            canonical(link, state.params).unwrap(),
        ),
{
    lemma_discovered_is_pending(state, url, links, link);
    lemma_crawl_reaches(state.settled(url, FetchOutcome::Success(links)), steps, link);
}

impl Engine {
    /// Sets up a crawl seeded with `seed`, confined to the seed's domain.
    ///
    /// The seed must be an absolute URL with a domain name; otherwise no crawl
    /// is started.  The frontier holds the seed alone and nothing is tracked.
    pub fn new(seed: &str, params: Vec<String>, limit: usize) -> (r: Result<Engine, CrawlError>)
        ensures
            match r {
                Ok(engine) => {
                    &&& engine@.wf()
                    &&& url_parse(seed@) is Some
                    &&& engine@.frontier == seq![url_parse(seed@).unwrap()]
                    &&& engine@.pending(url_parse(seed@).unwrap())
                    &&& url_domain(seed@) == Some(engine@.base)
                    &&& engine@.params == texts(params@)
                    &&& engine@.limit == limit
                    &&& engine@.visited.len() == 0
                    &&& engine@.in_flight.len() == 0
                    &&& engine@.failures.len() == 0
                },
                Err(CrawlError::InvalidUrl) => url_parse(seed@) is None,
                Err(CrawlError::NoDomain) => url_parse(seed@) is Some && url_domain(seed@) is None,
            },
    {
        let start = match parse_url(seed) {
            Ok(text) => text,
            Err(_) => {
                return Err(CrawlError::InvalidUrl);
            },
        };
        let base_domain = match domain_of(seed) {
            Ok(Some(domain)) => domain,
            Ok(None) => {
                return Err(CrawlError::NoDomain);
            },
            Err(_) => {
                return Err(CrawlError::InvalidUrl);
            },
        };
        let mut frontier: VecDeque<String> = VecDeque::new();
        frontier.push_back(start);
        let engine = Engine {
            base_domain,
            params,
            limit,
            frontier,
            visited: Vec::new(),
            in_flight: Vec::new(),
            failures: Vec::new(),
        };
        assert(engine@.frontier =~= seq![url_parse(seed@).unwrap()]);
        assert(engine@.frontier[0] == url_parse(seed@).unwrap());
        Ok(engine)
    }

    /// Starts one round: takes entries from the front of the frontier until
    /// `limit` pages are admitted or the frontier is empty, marks the admitted
    /// canonical URLs as in flight and returns them for fetching.
    ///
    /// An entry is discarded, at no cost to the round, where it has no
    /// canonical form, lies outside the base domain, or is already tracked.
    pub fn next_batch(&mut self) -> (batch: Vec<String>)
        requires
            old(self)@.wf(),
        ensures
            final(self)@.wf(),
            final(self)@ == old(self)@.dispatched(),
            texts(batch@) == old(self)@.next_round().batch,
            forall|u: Seq<char>|
                final(self)@.known().contains(u) <==> old(self)@.known().contains(u) || texts(
                    batch@,
                ).contains(u),
            batch.len() <= old(self)@.limit,
            texts(batch@).no_duplicates(),
            forall|i: int|
                0 <= i < batch.len() ==> !old(self)@.known().contains(#[trigger] texts(batch@)[i])
                    && url_domain(texts(batch@)[i]) == Some(old(self)@.base),
    {
        let ghost start = self@;
        let ghost used: nat = 0;
        let mut batch: Vec<String> = Vec::new();
        proof {
            assert(texts(batch@) =~= Seq::empty());
            assert(start.in_flight + texts(batch@) =~= start.in_flight);
            assert(start.frontier.skip(0) =~= start.frontier);
            lemma_plan_batch(start.frontier, start.params, start.base, start.known(), start.limit);
        }
        while batch.len() < self.limit && self.frontier.len() > 0
            invariant
                self@.wf(),
                self@.base == start.base,
                self@.params == start.params,
                self@.limit == start.limit,
                self@.visited == start.visited,
                self@.failures == start.failures,
                self@.in_flight == start.in_flight + texts(batch@),
                batch.len() <= self.limit,
                used <= start.frontier.len(),
                self@.frontier == start.frontier.skip(used as int),
                plan(start.frontier, start.params, start.base, start.known(), start.limit).batch
                    == texts(batch@) + plan(
                    self@.frontier,
                    self@.params,
                    self@.base,
                    self@.known(),
                    (self@.limit - batch.len()) as nat,
                ).batch,
                plan(start.frontier, start.params, start.base, start.known(), start.limit).used
                    == used + plan(
                    self@.frontier,
                    self@.params,
                    self@.base,
                    self@.known(),
                    (self@.limit - batch.len()) as nat,
                ).used,
            decreases self.frontier.len(),
        {
            let ghost before = self@;
            let ghost had = texts(batch@);
            let current = self.frontier.pop_front().unwrap();
            proof {
                assert(self@.frontier =~= before.frontier.drop_first());
                assert(self@.frontier =~= start.frontier.skip(used as int + 1));
                assert(current@ == before.frontier[0]);
                used = used + 1;
            }
            let mut chosen: Option<String> = None;
            match canonicalize(current.as_str(), &self.params) {
                Ok(c) => {
                    match domain_of(c.as_str()) {
                        Ok(Some(domain)) => {
                            if domain == self.base_domain && !contains_text(&self.visited, &c)
                                && !contains_text(&self.in_flight, &c) {
                                chosen = Some(c);
                            }
                        },
                        _ => {},
                    }
                },
                Err(_) => {},
            }
            assert(opt_text(chosen) == admitted(
                before.frontier[0],
                before.params,
                before.base,
                before.known(),
            ));
            match chosen {
                Some(c) => {
                    let copy = c.clone();
                    proof {
                        lemma_texts_push(self.in_flight@, copy);
                        lemma_texts_push(batch@, c);
                        assert(start.in_flight + had.push(c@) =~= (start.in_flight + had).push(c@));
                        assert forall|u: Seq<char>|
                            before.in_flight.push(c@).contains(u) <==> (before.in_flight.contains(u)
                                || u == c@) by {
                            lemma_push_contains(before.in_flight, c@, u);
                        }
                    }
                    self.in_flight.push(copy);
                    batch.push(c);
                    proof {
                        assert(self@.known() =~= before.known().insert(c@));
                        let rest = plan(
                            self@.frontier,
                            self@.params,
                            self@.base,
                            self@.known(),
                            (self@.limit - batch.len()) as nat,
                        );
                        assert(had + (seq![c@] + rest.batch) =~= had.push(c@) + rest.batch);
                    }
                },
                None => {
                    assert(self@.known() =~= before.known());
                },
            }
        }
        proof {
            let rest = plan(
                self@.frontier,
                self@.params,
                self@.base,
                self@.known(),
                (self@.limit - batch.len()) as nat,
            );
            assert(rest.batch.len() == 0 && rest.used == 0);
            assert(texts(batch@) + rest.batch =~= texts(batch@));
            assert(self@ == start.dispatched());
            assert forall|u: Seq<char>|
                self@.known().contains(u) <==> start.known().contains(u) || texts(batch@).contains(
                    u,
                ) by {
                lemma_dispatched_known(start, u);
            }
        }
        batch
    }

    /// Takes the outcome of the fetch of `url`.
    ///
    /// Where `url` is in flight, it becomes visited, whatever the outcome.  On
    /// success, each discovered link that lies in the base domain and whose
    /// text is not tracked is appended to the frontier, in order.  On failure
    /// the reason is recorded and the frontier is left alone.  Where `url` is
    /// not in flight, nothing changes and `false` is returned.
    pub fn complete(&mut self, url: &String, outcome: FetchOutcome) -> (r: bool)
        requires
            old(self)@.wf(),
        ensures
            final(self)@.wf(),
            r == old(self)@.in_flight.contains(url@),
            final(self)@ == old(self)@.settled(url@, outcome),
            final(self)@.known() == old(self)@.known(),
    {
        let ghost start = self@;
        let at = match position_of(&self.in_flight, url) {
            Some(at) => at,
            None => {
                return false;
            },
        };
        proof {
            assert(start.in_flight[at as int] == url@);
            assert(start.in_flight.index_of(url@) == at);
            assert(texts(self.in_flight@.remove(at as int)) =~= start.in_flight.remove(at as int));
        }
        let moved = self.in_flight.remove(at);
        proof {
            lemma_texts_push(self.visited@, moved);
        }
        self.visited.push(moved);
        proof {
            let gone = start.in_flight.remove(at as int);
            assert forall|u: Seq<char>| gone.contains(u) <==> (start.in_flight.contains(u) && u
                != url@) by {
                if gone.contains(u) {
                    let i = choose|i: int| 0 <= i < gone.len() && gone[i] == u;
                    if i < at {
                        assert(start.in_flight[i] == u);
                    } else {
                        assert(start.in_flight[i + 1] == u);
                    }
                }
                if start.in_flight.contains(u) && u != url@ {
                    let i = choose|i: int| 0 <= i < start.in_flight.len() && start.in_flight[i] == u;
                    if i < at {
                        assert(gone[i] == u);
                    } else {
                        assert(gone[i - 1] == u);
                    }
                }
            }
            assert forall|u: Seq<char>|
                start.visited.push(url@).contains(u) <==> (start.visited.contains(u) || u
                    == url@) by {
                lemma_push_contains(start.visited, url@, u);
            }
            assert(!start.visited.contains(url@));
            assert(self@.known() =~= start.known());
            assert(self@.visited.no_duplicates());
            assert(self@.in_flight.no_duplicates());
            assert forall|i: int| 0 <= i < self@.failures.len() implies self@.visited.contains(
                #[trigger] self@.failures[i].0,
            ) by {
                assert(start.visited.contains(start.failures[i].0));
            }
        }
        match outcome {
            FetchOutcome::Success(links) => {
                self.enqueue_fresh(&links);
            },
            FetchOutcome::Failure(reason) => {
                let record = Failed { url: url.clone(), reason };
                proof {
                    assert(failure_texts(self.failures@.push(record)) =~= start.failures.push(
                        (url@, reason),
                    ));
                    assert(self@.visited[self@.visited.len() - 1] == url@);
                }
                self.failures.push(record);
            },
        }
        true
    }

    /// Appends to the frontier every link that lies in the base domain and is
    /// not tracked yet.
    fn enqueue_fresh(&mut self, links: &Vec<String>)
        requires
            old(self)@.wf(),
        ensures
            final(self)@.wf(),
            final(self)@.frontier == old(self)@.frontier + fresh_links(
                texts(links@),
                old(self)@.base,
                old(self)@.known(),
            ),
            final(self)@.base == old(self)@.base,
            final(self)@.params == old(self)@.params,
            final(self)@.limit == old(self)@.limit,
            final(self)@.visited == old(self)@.visited,
            final(self)@.in_flight == old(self)@.in_flight,
            final(self)@.failures == old(self)@.failures,
    {
        let ghost start = self@;
        let ghost all = texts(links@);
        let mut i: usize = 0;
        proof {
            assert(all.take(0) =~= Seq::empty());
            assert(start.frontier + Seq::<Seq<char>>::empty() =~= start.frontier);
        }
        while i < links.len()
            invariant
                i <= links.len(),
                all == texts(links@),
                self@.wf(),
                self@.base == start.base,
                self@.params == start.params,
                self@.limit == start.limit,
                self@.visited == start.visited,
                self@.in_flight == start.in_flight,
                self@.failures == start.failures,
                self@.frontier == start.frontier + fresh_links(
                    all.take(i as int),
                    start.base,
                    start.known(),
                ),
            decreases links.len() - i,
        {
            let ghost sofar = fresh_links(all.take(i as int), start.base, start.known());
            proof {
                assert(all.take(i + 1).drop_last() =~= all.take(i as int));
                assert(all.take(i + 1).last() == links[i as int]@);
            }
            let link = &links[i];
            let inside = match domain_of(link.as_str()) {
                Ok(Some(domain)) => domain == self.base_domain,
                _ => false,
            };
            if inside && !contains_text(&self.visited, link) && !contains_text(
                &self.in_flight,
                link,
            ) {
                let copy = link.clone();
                proof {
                    lemma_texts_push(self.frontier@, copy);
                    assert((start.frontier + sofar).push(link@) =~= start.frontier + sofar.push(
                        link@,
                    ));
                }
                let ghost before = self@;
                self.frontier.push_back(copy);
                proof {
                    assert(self@.known() =~= before.known());
                    assert forall|u: Seq<char>| #[trigger]
                        self@.known().contains(u) implies url_domain(u) == Some(self@.base) by {
                        assert(before.known().contains(u));
                    }
                }
            }
            i += 1;
        }
        proof {
            assert(all.take(i as int) =~= all);
        }
    }

    /// Whether the crawl is over: the frontier is empty and nothing is in flight.
    pub fn is_done(&self) -> (r: bool)
        ensures
            r == self@.done(),
    {
        self.frontier.len() == 0 && self.in_flight.len() == 0
    }

    /// The domain that the crawl is confined to.
    pub fn base_domain(&self) -> (r: &String)
        ensures
            r@ == self@.base,
    {
        &self.base_domain
    }

    /// The most pages that one round hands out.
    pub fn limit(&self) -> (r: usize)
        ensures
            r == self@.limit,
    {
        self.limit
    }

    /// Number of URLs awaiting dispatch.
    pub fn frontier_len(&self) -> (r: usize)
        ensures
            r == self@.frontier.len(),
    {
        self.frontier.len()
    }

    /// The canonical URLs whose fetch has completed, in order of completion.
    /// Once the crawl is over this is its result.
    pub fn visited(&self) -> (r: &Vec<String>)
        ensures
            texts(r@) == self@.visited,
    {
        &self.visited
    }

    /// Whether a failure is on record for `url`.
    pub fn has_failed(&self, url: &String) -> (r: bool)
        ensures
            r == recorded(self@.failures, url@),
    {
        let mut i: usize = 0;
        while i < self.failures.len()
            invariant
                i <= self.failures.len(),
                forall|k: int| 0 <= k < i ==> self.failures[k].url@ != url@,
            decreases self.failures.len() - i,
        {
            if self.failures[i].url == *url {
                assert(self@.failures[i as int].0 == url@);
                return true;
            }
            i += 1;
        }
        assert forall|k: int| 0 <= k < self@.failures.len() implies (#[trigger] self@.failures[k]).0
            != url@ by {
            assert(self@.failures[k].0 == self.failures[k].url@);
        }
        false
    }

    /// The visited URLs whose fetch succeeded, in order of completion: the
    /// pages that were read and searched for links.
    pub fn succeeded(&self) -> (r: Vec<String>)
        ensures
            texts(r@) == unfailed(self@.visited, self@.failures),
    {
        let ghost all = self@.visited;
        let mut pages: Vec<String> = Vec::new();
        let mut i: usize = 0;
        proof {
            assert(texts(pages@) =~= Seq::empty());
            assert(all.take(0) =~= Seq::empty());
        }
        while i < self.visited.len()
            invariant
                i <= self.visited.len(),
                all == self@.visited,
                texts(pages@) == unfailed(all.take(i as int), self@.failures),
            decreases self.visited.len() - i,
        {
            proof {
                assert(all.take(i + 1).drop_last() =~= all.take(i as int));
                assert(all.take(i + 1).last() == self.visited[i as int]@);
            }
            if !self.has_failed(&self.visited[i]) {
                let copy = self.visited[i].clone();
                proof {
                    lemma_texts_push(pages@, copy);
                }
                pages.push(copy);
            }
            i += 1;
        }
        proof {
            assert(all.take(i as int) =~= all);
        }
        pages
    }

    /// The canonical URLs handed out and not yet completed.
    pub fn in_flight(&self) -> (r: &Vec<String>)
        ensures
            texts(r@) == self@.in_flight,
    {
        &self.in_flight
    }

    /// The fetches that failed, in order of completion.
    pub fn failures(&self) -> (r: &Vec<Failed>)
        ensures
            failure_texts(r@) == self@.failures,
    {
        &self.failures
    }
}

} // verus!
