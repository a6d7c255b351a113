//! What a finished crawl has found: exactly the pages that can be reached
//! from the seed through links inside the base domain.
//!
//! The site is modelled by the links of each page that can be read; a page
//! that is absent from the model is one whose fetch fails.

use crate::canon::canonical;
use crate::engine::{
    lemma_discovered_is_pending, lemma_dispatch_keeps_pending, lemma_dispatched_known,
    lemma_done_visited, lemma_fetches_once, lemma_fetches_tracked, lemma_fresh_links_exact, lemma_plan_batch, lemma_plan_sources,
    lemma_settle_keeps_pending, lemma_settled_known, fetches, fresh_links, run, EngineView, Step,
};
use crate::fetch::FetchOutcome;
use crate::text::texts;
use crate::web::url_domain;
use vstd::prelude::*;

verus! {

/// The link `link` stands on the readable page `page` and points into the
/// domain `base`.
pub open spec fn found_on(
    site: Map<Seq<char>, Seq<Seq<char>>>,
    base: Seq<char>,
    page: Seq<char>,
    link: Seq<char>,
) -> bool {
    site.contains_key(page) && site[page].contains(link) && url_domain(link) == Some(base)
}

/// The outcome is the one that the site gives for `url`: the links of a
/// readable page, a failure for any other.
pub open spec fn served(
    site: Map<Seq<char>, Seq<Seq<char>>>,
    url: Seq<char>,
    outcome: FetchOutcome,
) -> bool {
    match outcome {
        FetchOutcome::Success(links) => site.contains_key(url) && texts(links@) == site[url],
        FetchOutcome::Failure(_) => !site.contains_key(url),
    }
}

/// Every completion among `steps` reports what the site serves.
pub open spec fn faithful(site: Map<Seq<char>, Seq<Seq<char>>>, steps: Seq<Step>) -> bool {
    forall|i: int|
        0 <= i < steps.len() ==> match #[trigger] steps[i] {
            Step::Dispatch => true,
            Step::Settle { url, outcome } => served(site, url, outcome),
        }
}

/// The page `to` is reached from the seed by following at most `hops` links;
/// each hop leads from a readable page through one of its links inside the
/// domain to the canonical form of that link, which lies inside it too.
pub open spec fn reach(
    site: Map<Seq<char>, Seq<Seq<char>>>,
    params: Seq<Seq<char>>,
    base: Seq<char>,
    seed: Seq<char>,
    hops: nat,
    to: Seq<char>,
) -> bool
    decreases hops,
{
    if hops == 0 {
        canonical(seed, params) == Some(to) && url_domain(to) == Some(base)
    } else {
        reach(site, params, base, seed, (hops - 1) as nat, to) || exists|
            page: Seq<char>,
            link: Seq<char>,
        |
            reach(site, params, base, seed, (hops - 1) as nat, page) && #[trigger] found_on(
                site,
                base,
                page,
                link,
            ) && canonical(link, params) == Some(to) && url_domain(to) == Some(base)
    }
}

/// The page `to` is reached from the seed by following links.
pub open spec fn reachable(
    site: Map<Seq<char>, Seq<Seq<char>>>,
    params: Seq<Seq<char>>,
    base: Seq<char>,
    seed: Seq<char>,
    to: Seq<char>,
) -> bool {
    exists|hops: nat| reach(site, params, base, seed, hops, to)
}

/// The pages that are reached from the seed.
pub open spec fn reachable_set(
    site: Map<Seq<char>, Seq<Seq<char>>>,
    params: Seq<Seq<char>>,
    base: Seq<char>,
    seed: Seq<char>,
) -> Set<Seq<char>> {
    Set::new(|to: Seq<char>| reachable(site, params, base, seed, to))
}

/// Canonicalising a canonical URL changes nothing.
pub open spec fn canonical_is_idempotent(params: Seq<Seq<char>>) -> bool {
    forall|url: Seq<char>|
        (#[trigger] canonical(url, params)) is Some ==> canonical(
            canonical(url, params).unwrap(),
            params,
        ) == canonical(url, params)
}

/// What holds of every state of a crawl of `site` that started at `seed`:
/// each tracked URL is reachable and is its own canonical form, each frontier
/// entry is the seed or a link of a tracked page, and the seed and the links
/// of every page read are taken care of.
pub open spec fn on_course(
    site: Map<Seq<char>, Seq<Seq<char>>>,
    seed: Seq<char>,
    state: EngineView,
) -> bool {
    &&& forall|c: Seq<char>| #[trigger]
        state.known().contains(c) ==> reachable(site, state.params, state.base, seed, c)
            && canonical(c, state.params) == Some(c)
    &&& forall|i: int|
        0 <= i < state.frontier.len() ==> (#[trigger] state.frontier[i]) == seed || exists|
            page: Seq<char>,
        |
            state.known().contains(page) && #[trigger] found_on(
                site,
                state.base,
                page,
                state.frontier[i],
            )
    &&& state.admissible(seed) ==> state.pending(seed)
    &&& forall|page: Seq<char>, link: Seq<char>|
        state.visited.contains(page) && #[trigger] found_on(site, state.base, page, link)
            && state.admissible(link) ==> state.pending(link)
}

/// A round keeps the crawl on course.
pub proof fn lemma_dispatch_on_course(
    site: Map<Seq<char>, Seq<Seq<char>>>,
    seed: Seq<char>,
    state: EngineView,
)
    requires
        on_course(site, seed, state),
        canonical_is_idempotent(state.params),
    ensures
        on_course(site, seed, state.dispatched()),
{
    let after = state.dispatched();
    let round = state.next_round();
    lemma_plan_batch(state.frontier, state.params, state.base, state.known(), state.limit);
    assert forall|c: Seq<char>| #[trigger] after.known().contains(c) implies reachable(
        site,
        state.params,
        state.base,
        seed,
        c,
    ) && canonical(c, state.params) == Some(c) by {
        lemma_dispatched_known(state, c);
        if !state.known().contains(c) {
            let i = choose|i: int| 0 <= i < round.batch.len() && round.batch[i] == c;
            let k = lemma_plan_sources(
                state.frontier,
                state.params,
                state.base,
                state.known(),
                state.limit,
                i,
            );
            let source = state.frontier[k];
            assert(canonical(source, state.params) == Some(c));
            assert(url_domain(c) == Some(state.base));
            if source == seed {
                assert(reach(site, state.params, state.base, seed, 0, c));
            } else {
                let page = choose|page: Seq<char>|
                    state.known().contains(page) && #[trigger] found_on(
                        site,
                        state.base,
                        page,
                        source,
                    );
                let hops = choose|hops: nat| reach(site, state.params, state.base, seed, hops, page);
                assert(found_on(site, state.base, page, source));
                assert(reach(site, state.params, state.base, seed, hops + 1, c));
            }
        }
    }
    assert forall|i: int| 0 <= i < after.frontier.len() implies (#[trigger] after.frontier[i])
        == seed || exists|page: Seq<char>|
        after.known().contains(page) && #[trigger] found_on(
            site,
            after.base,
            page,
            after.frontier[i],
        ) by {
        let entry = state.frontier[i + round.used];
        assert(after.frontier[i] == entry);
        if entry != seed {
            let page = choose|page: Seq<char>|
                state.known().contains(page) && #[trigger] found_on(site, state.base, page, entry);
            lemma_dispatched_known(state, page);
            assert(after.known().contains(page) && found_on(site, after.base, page, entry));
        }
    }
    if state.admissible(seed) {
        lemma_dispatch_keeps_pending(state, seed);
    }
    assert forall|page: Seq<char>, link: Seq<char>|
        after.visited.contains(page) && #[trigger] found_on(site, after.base, page, link)
            && after.admissible(link) implies after.pending(link) by {
        lemma_dispatch_keeps_pending(state, link);
    }
}

/// A completion that reports what the site serves keeps the crawl on course.
pub proof fn lemma_settle_on_course(
    site: Map<Seq<char>, Seq<Seq<char>>>,
    seed: Seq<char>,
    state: EngineView,
    url: Seq<char>,
    outcome: FetchOutcome,
)
    requires
        on_course(site, seed, state),
        served(site, url, outcome),
    ensures
        on_course(site, seed, state.settled(url, outcome)),
{
    let after = state.settled(url, outcome);
    lemma_settled_known(state, url, outcome);
    if state.in_flight.contains(url) {
        assert(state.known().contains(url));
        assert forall|i: int| 0 <= i < after.frontier.len() implies (#[trigger] after.frontier[i])
            == seed || exists|page: Seq<char>|
            after.known().contains(page) && #[trigger] found_on(
                site,
                after.base,
                page,
                after.frontier[i],
            ) by {
            if i < state.frontier.len() {
                let entry = state.frontier[i];
                assert(after.frontier[i] == entry);
                if entry != seed {
                    let page = choose|page: Seq<char>|
                        state.known().contains(page) && #[trigger] found_on(
                            site,
                            state.base,
                            page,
                            entry,
                        );
                    assert(after.known().contains(page) && found_on(site, after.base, page, entry));
                }
            } else {
                match outcome {
                    FetchOutcome::Success(links) => {
                        let fresh = fresh_links(texts(links@), state.base, state.known());
                        let entry = fresh[i - state.frontier.len()];
                        assert(after.frontier[i] == entry);
                        assert(fresh.contains(entry));
                        lemma_fresh_links_exact(texts(links@), state.base, state.known(), entry);
                        assert(found_on(site, after.base, url, entry));
                    },
                    FetchOutcome::Failure(_) => {},
                }
            }
        }
        if state.admissible(seed) {
            lemma_settle_keeps_pending(state, url, outcome, seed);
        }
        assert forall|page: Seq<char>, link: Seq<char>|
            after.visited.contains(page) && #[trigger] found_on(site, after.base, page, link)
                && after.admissible(link) implies after.pending(link) by {
            if state.visited.contains(page) {
                lemma_settle_keeps_pending(state, url, outcome, link);
            } else {
                let at = choose|at: int| 0 <= at < after.visited.len() && after.visited[at] == page;
                if at < state.visited.len() {
                    assert(state.visited[at] == page);
                }
                assert(page == url);
                match outcome {
                    FetchOutcome::Success(links) => {
                        lemma_discovered_is_pending(state, url, links, link);
                    },
                    FetchOutcome::Failure(_) => {},
                }
            }
        }
    }
}

/// A crawl that is on course stays on course, whatever moves are made, as
/// long as each completion reports what the site serves.
pub proof fn lemma_run_on_course(
    site: Map<Seq<char>, Seq<Seq<char>>>,
    seed: Seq<char>,
    state: EngineView,
    steps: Seq<Step>,
)
    requires
        on_course(site, seed, state),
        canonical_is_idempotent(state.params),
        faithful(site, steps),
    ensures
        on_course(site, seed, run(state, steps)),
        run(state, steps).params == state.params,
        run(state, steps).base == state.base,
    decreases steps.len(),
{
    if steps.len() > 0 {
        let tail = steps.drop_first();
        assert forall|i: int| 0 <= i < tail.len() implies match #[trigger] tail[i] {
            Step::Dispatch => true,
            Step::Settle { url, outcome } => served(site, url, outcome),
        } by {
            assert(tail[i] == steps[i + 1]);
        }
        match steps[0] {
            Step::Dispatch => {
                lemma_dispatch_on_course(site, seed, state);
                lemma_run_on_course(site, seed, state.dispatched(), tail);
            },
            Step::Settle { url, outcome } => {
                lemma_settle_on_course(site, seed, state, url, outcome);
                lemma_run_on_course(site, seed, state.settled(url, outcome), tail);
            },
        }
    }
}

/// At the end of a crawl that stayed on course, every page reached within
/// `hops` links has been visited.
pub proof fn lemma_reached_is_visited(
    site: Map<Seq<char>, Seq<Seq<char>>>,
    seed: Seq<char>,
    state: EngineView,
    hops: nat,
    to: Seq<char>,
)
    requires
        on_course(site, seed, state),
        state.done(),
        reach(site, state.params, state.base, seed, hops, to),
    ensures
        state.visited.contains(to),
    decreases hops,
{
    if hops == 0 {
        lemma_done_visited(state, seed);
    } else if reach(site, state.params, state.base, seed, (hops - 1) as nat, to) {
        lemma_reached_is_visited(site, seed, state, (hops - 1) as nat, to);
    } else {
        let (page, link) = choose|page: Seq<char>, link: Seq<char>|
            reach(site, state.params, state.base, seed, (hops - 1) as nat, page)
                && #[trigger] found_on(site, state.base, page, link) && canonical(
                link,
                state.params,
            ) == Some(to) && url_domain(to) == Some(state.base);
        lemma_reached_is_visited(site, seed, state, (hops - 1) as nat, page);
        assert(found_on(site, state.base, page, link));
        lemma_done_visited(state, link);
    }
}

/// The result of a crawl is the set of reachable pages.  Start with the seed
/// alone in the frontier and nothing tracked, make any moves in which every
/// completion reports what the site serves, and arrive at the end: then a URL
/// is among the visited ones exactly if it is reached from the seed by
/// following links inside the base domain.  This holds of a parser under
/// which a canonical URL canonicalises to itself.
pub proof fn lemma_result_is_reachable_set(
    site: Map<Seq<char>, Seq<Seq<char>>>,
    seed: Seq<char>,
    start: EngineView,
    steps: Seq<Step>,
    url: Seq<char>,
)
    requires
        start.frontier == seq![seed],
        start.visited.len() == 0,
        start.in_flight.len() == 0,
        canonical_is_idempotent(start.params),
        faithful(site, steps),
        run(start, steps).done(),
    ensures
        run(start, steps).visited.contains(url) <==> reachable(
            site,
            start.params,
            start.base,
            seed,
            url,
        ),
{
    assert(start.frontier[0] == seed);
    assert(on_course(site, seed, start));
    lemma_run_on_course(site, seed, start, steps);
    let end = run(start, steps);
    if end.visited.contains(url) {
        assert(end.known().contains(url));
    }
    if reachable(site, start.params, start.base, seed, url) {
        let hops = choose|hops: nat| reach(site, start.params, start.base, seed, hops, url);
        lemma_reached_is_visited(site, seed, end, hops, url);
    }
}

/// One fetch for each reachable page: under the conditions of
/// [`lemma_result_is_reachable_set`] the URLs handed out for fetching are
/// pairwise different, and a URL is among them exactly if it is reached from
/// the seed.  The size of a round plays no part in this.
pub proof fn lemma_one_fetch_per_page(
    site: Map<Seq<char>, Seq<Seq<char>>>,
    seed: Seq<char>,
    start: EngineView,
    steps: Seq<Step>,
    url: Seq<char>,
)
    requires
        start.frontier == seq![seed],
        start.visited.len() == 0,
        start.in_flight.len() == 0,
        canonical_is_idempotent(start.params),
        faithful(site, steps),
        run(start, steps).done(),
    ensures
        fetches(start, steps).no_duplicates(),
        fetches(start, steps).contains(url) <==> reachable(
            site,
            start.params,
            start.base,
            seed,
            url,
        ),
{
    lemma_fetches_once(start, steps);
    lemma_fetches_tracked(start, steps, url);
    lemma_result_is_reachable_set(site, seed, start, steps, url);
    assert(run(start, steps).in_flight =~= Seq::empty());
}

/// A crawl cannot go on for ever: where finitely many pages are reachable,
/// no sequence of moves hands out more URLs for fetching than there are
/// reachable pages, finished or not.
pub proof fn lemma_fetches_bounded(
    site: Map<Seq<char>, Seq<Seq<char>>>,
    seed: Seq<char>,
    start: EngineView,
    steps: Seq<Step>,
)
    requires
        start.frontier == seq![seed],
        start.visited.len() == 0,
        start.in_flight.len() == 0,
        canonical_is_idempotent(start.params),
        faithful(site, steps),
        reachable_set(site, start.params, start.base, seed).finite(),
    ensures
        fetches(start, steps).len() <= reachable_set(site, start.params, start.base, seed).len(),
{
    let handed = fetches(start, steps);
    let pages = reachable_set(site, start.params, start.base, seed);
    assert(start.frontier[0] == seed);
    assert(on_course(site, seed, start));
    lemma_run_on_course(site, seed, start, steps);
    lemma_fetches_once(start, steps);
    handed.unique_seq_to_set();
    assert forall|url: Seq<char>| handed.to_set().contains(url) implies pages.contains(url) by {
        assert(handed.contains(url));
        lemma_fetches_tracked(start, steps, url);
        assert(run(start, steps).known().contains(url));
    }
    vstd::set_lib::lemma_len_subset(handed.to_set(), pages);
}

} // verus!
