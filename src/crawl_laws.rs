//! What holds of every crawl: the visited set only grows, no URL is fetched
//! twice, the quota only falls, the crawl stays on the origin's host, and it
//! makes progress towards its end.
use vstd::prelude::*;
use crate::crawl::{
    absorbed, advanced, artifact_settled, budget, fetch_of, initial_state, lemma_absorbed_wf,
    lemma_advanced_wf, lemma_settle_wf, lemma_step_wf, origin_page, state_wf, steps_to, CrawlState,
    Phase,
};
use crate::links::{in_scope, lemma_page_harvest, page_harvest, url_host_of, Target};

verus! {

/// The state of level `a` before the page fetched in it was counted.
pub open spec fn level_step(s: CrawlState, t: Target, body: Option<Seq<char>>) -> CrawlState {
    let a0 = match body {
        None => s,
        Some(html) => absorbed(s, t, html),
    };
    CrawlState { next: a0.next + 1, ..a0 }
}

/// The visited set only grows: each step keeps what was visited, in order, and
/// may add to it.
pub proof fn lemma_visited_grows(s: CrawlState, t: Target, body: Option<Seq<char>>, s2: CrawlState)
    requires
        state_wf(s),
        steps_to(s, t, body, s2),
    ensures
        s.visited.is_prefix_of(s2.visited),
{
    if let Some(html) = body {
        lemma_absorbed_wf(s, t, html);
    }
    match s.phase {
        Phase::Done(_) => {
            assert(s.visited.take(s.visited.len() as int) =~= s.visited);
        },
        Phase::Starting => {
            if let Some(html) = body {
                let a = absorbed(s, t, html);
                lemma_advanced_wf(a, s2);
                assert(s2.visited.take(s.visited.len() as int) =~= a.visited.take(s.visited.len() as int));
            } else {
                assert(s.visited.take(s.visited.len() as int) =~= s.visited);
            }
        },
        Phase::Level => {
            let a = level_step(s, t, body);
            if body is None {
                assert(s.visited.take(s.visited.len() as int) =~= s.visited);
            }
            if a.next >= a.frontier.len() && budget(a) != 0 {
                lemma_advanced_wf(a, s2);
                assert(s2.visited.take(s.visited.len() as int) =~= a.visited.take(s.visited.len() as int));
            }
        },
    }
}

/// Taking in a fetched page never touches the quota: it falls only when a
/// download is reported. Each page step keeps the quota, the limit and the
/// artifacts downloaded, and the downloads never outnumber the limit.
pub proof fn lemma_quota_on_page(s: CrawlState, t: Target, body: Option<Seq<char>>, s2: CrawlState)
    requires
        state_wf(s),
        steps_to(s, t, body, s2),
    ensures
        s2.quota == s.quota,
        s2.limit == s.limit,
        s2.harvested == s.harvested,
        s2.harvested.len() <= s2.limit,
{
    lemma_step_wf(s, t, body, s2);
    if let Some(html) = body {
        lemma_absorbed_wf(s, t, html);
    }
}

/// The quota only falls, by one for each download reported as successful and
/// never otherwise; the downloads kept grow by that one artifact, and never
/// outnumber the limit.
pub proof fn lemma_quota_on_report(s: CrawlState, url: Seq<char>, ok: bool, s2: CrawlState)
    requires
        state_wf(s),
        artifact_settled(s, url, ok, s2),
    ensures
        s2.quota == if ok && s.pending.contains(url) { s.quota - 1 } else { s.quota },
        s2.limit == s.limit,
        s2.harvested == if ok && s.pending.contains(url) { s.harvested.push(url) } else { s.harvested },
        s2.harvested.len() <= s2.limit,
        s.pending.contains(url) ==> s2.pending.len() < s.pending.len(),
{
    lemma_settle_wf(s, url, ok, s2);
}

/// Every URL in the crawl of `t` is its origin page, an artifact handed out, or
/// a URL on the target's host; so is every page queued or found.
pub open spec fn scoped(s: CrawlState, t: Target) -> bool {
    &&& forall|i: int| 0 <= i < s.visited.len() ==> {
        ||| #[trigger] s.visited[i] == origin_page(t)
        ||| s.taken.contains(s.visited[i])
        ||| in_scope(s.visited[i], t.host())
    }
    &&& forall|i: int| 0 <= i < s.frontier.len() ==> in_scope(#[trigger] s.frontier[i], t.host())
    &&& forall|u: Seq<char>| #[trigger] s.found.contains(u) ==> in_scope(u, t.host())
}

proof fn lemma_absorbed_scoped(s: CrawlState, t: Target, html: Seq<char>)
    requires
        state_wf(s),
        scoped(s, t),
    ensures
        scoped(absorbed(s, t, html), t),
{
    lemma_page_harvest(html, t, budget(s), s.visited);
    let (pages, arts, q) = page_harvest(html, t, budget(s), s.visited);
    let a = absorbed(s, t, html);
    assert forall|i: int| 0 <= i < a.visited.len() implies {
        ||| #[trigger] a.visited[i] == origin_page(t)
        ||| a.taken.contains(a.visited[i])
        ||| in_scope(a.visited[i], t.host())
    } by {
        if i < s.visited.len() {
            assert(a.visited[i] == s.visited[i]);
            if s.taken.contains(s.visited[i]) {
                let k = choose|k: int| 0 <= k < s.taken.len() && s.taken[k] == s.visited[i];
                assert(a.taken[k] == s.visited[i]);
            }
        } else {
            assert(a.taken[s.taken.len() + i - s.visited.len()] == a.visited[i]);
        }
    }
}

proof fn lemma_advanced_scoped(a: CrawlState, s2: CrawlState, t: Target)
    requires
        scoped(a, t),
        advanced(a, s2),
    ensures
        scoped(s2, t),
{
    assert forall|i: int| 0 <= i < s2.frontier.len() implies in_scope(#[trigger] s2.frontier[i], t.host()) by {
        assert(s2.frontier.to_set().contains(s2.frontier[i]));
        assert(a.found.contains(s2.frontier[i]));
    }
    assert forall|i: int| 0 <= i < s2.visited.len() implies {
        ||| #[trigger] s2.visited[i] == origin_page(t)
        ||| s2.taken.contains(s2.visited[i])
        ||| in_scope(s2.visited[i], t.host())
    } by {
        if i < a.visited.len() {
            assert(s2.visited[i] == a.visited[i]);
        } else {
            assert(s2.visited[i] == s2.frontier[i - a.visited.len()]);
        }
    }
}

/// A crawl starts scoped.
pub proof fn lemma_starts_scoped(t: Target, limit: int)
    ensures
        scoped(initial_state(t, limit), t),
{
    assert(initial_state(t, limit).visited[0] == origin_page(t));
}

/// Reporting a download keeps a crawl scoped.
pub proof fn lemma_report_scoped(s: CrawlState, t: Target, url: Seq<char>, ok: bool, s2: CrawlState)
    requires
        scoped(s, t),
        artifact_settled(s, url, ok, s2),
    ensures
        scoped(s2, t),
{
}

/// Origin scoping: every step keeps a crawl scoped. With the target's host being
/// its origin's, no page of another host is ever queued or visited; only
/// artifacts handed out for download may lie elsewhere.
pub proof fn lemma_origin_scoping(s: CrawlState, t: Target, body: Option<Seq<char>>, s2: CrawlState)
    requires
        state_wf(s),
        scoped(s, t),
        steps_to(s, t, body, s2),
    ensures
        scoped(s2, t),
        t.wf() ==> forall|i: int| 0 <= i < s2.frontier.len() ==> url_host_of(#[trigger] s2.frontier[i]) == url_host_of(t.origin()),
{
    if let Some(html) = body {
        lemma_absorbed_scoped(s, t, html);
    }
    match s.phase {
        Phase::Done(_) => {},
        Phase::Starting => {
            if let Some(html) = body {
                lemma_advanced_scoped(absorbed(s, t, html), s2, t);
            }
        },
        Phase::Level => {
            let a = level_step(s, t, body);
            if a.next >= a.frontier.len() && budget(a) != 0 {
                lemma_advanced_scoped(a, s2, t);
            }
        },
    }
}

/// A measure of the work left to the crawl in state `s`, for a site whose URLs
/// all lie in `site`: the URLs not yet visited weigh more than all the pages
/// left in the current level.
pub open spec fn work_left(s: CrawlState, site: Set<Seq<char>>) -> int {
    (site.len() - s.visited.len()) * (site.len() + 1) + (s.frontier.len() - s.next)
}

/// A sequence without repetition within a finite set is no longer than the set.
proof fn lemma_len_within(v: Seq<Seq<char>>, site: Set<Seq<char>>)
    requires
        v.no_duplicates(),
        site.finite(),
        v.to_set().subset_of(site),
    ensures
        v.len() <= site.len(),
{
    v.unique_seq_to_set();
    vstd::set_lib::lemma_len_subset(v.to_set(), site);
}

/// Termination: on a site with finitely many URLs, each step either ends the
/// crawl or lowers `work_left`, which never falls below zero. So every crawl of
/// a finite site ends, whatever cycles its links form.
pub proof fn lemma_termination(s: CrawlState, t: Target, body: Option<Seq<char>>, s2: CrawlState, site: Set<Seq<char>>)
    requires
        state_wf(s),
        steps_to(s, t, body, s2),
        site.finite(),
        s2.visited.to_set().subset_of(site),
    ensures
        s2.phase is Done || (0 <= work_left(s2, site) < work_left(s, site)),
{
    lemma_step_wf(s, t, body, s2);
    lemma_visited_grows(s, t, body, s2);
    lemma_len_within(s2.visited, site);
    assert(s2.frontier.to_set().subset_of(s2.visited.to_set())) by {
        assert forall|u: Seq<char>| s2.frontier.to_set().contains(u) implies s2.visited.to_set().contains(u) by {
            let i = choose|i: int| 0 <= i < s2.frontier.len() && s2.frontier[i] == u;
            assert(s2.visited.contains(s2.frontier[i]));
        }
    }
    s2.frontier.unique_seq_to_set();
    s2.visited.unique_seq_to_set();
    vstd::set_lib::lemma_len_subset(s2.frontier.to_set(), s2.visited.to_set());
    let n = site.len() as int;
    let v = s.visited.len() as int;
    let v2 = s2.visited.len() as int;
    let p = s.frontier.len() - s.next;
    let p2 = s2.frontier.len() - s2.next;
    assert(v <= v2) by {
        assert(s.visited.is_prefix_of(s2.visited));
    }
    if !(s2.phase is Done) {
        assert(0 <= (n - v2) * (n + 1)) by (nonlinear_arith)
            requires
                0 <= v2 <= n,
        ;
        if v2 == v {
            if let Some(html) = body {
                lemma_absorbed_wf(s, t, html);
            }
            assert(p2 < p);
        } else {
            assert((n - v2) * (n + 1) + n < (n - v) * (n + 1)) by (nonlinear_arith)
                requires
                    0 <= v < v2,
                    v2 <= n,
            ;
            assert(p2 <= n);
        }
    }
}

/// What the caller of a crawl reports: the outcome of the fetch of the URL
/// that the crawl named, or that of the download of an artifact.
pub enum Event {
    Page(Option<Seq<char>>),
    Download(Seq<char>, bool),
}

/// The crawl of `t` goes from `s` to `s2` on the event `e`.
pub open spec fn moves_to(s: CrawlState, t: Target, e: Event, s2: CrawlState) -> bool {
    match e {
        Event::Page(body) => steps_to(s, t, body, s2),
        Event::Download(url, ok) => artifact_settled(s, url, ok, s2),
    }
}

/// `states` is a crawl of `t` with quota `limit`, from its start, where
/// `events[i]` took `states[i]` to `states[i + 1]`.
pub open spec fn is_run(t: Target, limit: int, states: Seq<CrawlState>, events: Seq<Event>) -> bool {
    &&& 0 <= limit
    &&& states.len() == events.len() + 1
    &&& states[0] == initial_state(t, limit)
    &&& forall|i: int| 0 <= i < events.len() ==> moves_to(states[i], t, #[trigger] events[i], states[i + 1])
}

/// The URL fetched at step `i` of a run: the one named by `states[i]`, where
/// `events[i]` reports a fetch.
pub open spec fn fetched_at(t: Target, states: Seq<CrawlState>, events: Seq<Event>, i: int) -> Option<Seq<char>> {
    if events[i] is Page {
        fetch_of(states[i], t)
    } else {
        None
    }
}

/// The URLs that the crawl in state `s` still has to fetch on its current level.
pub open spec fn pending(s: CrawlState, t: Target) -> Set<Seq<char>> {
    match s.phase {
        Phase::Starting => set![origin_page(t)],
        Phase::Level => s.frontier.skip(s.next).to_set(),
        Phase::Done(_) => Set::empty(),
    }
}

/// What holds of every state of a run.
pub open spec fn run_inv(s: CrawlState, t: Target) -> bool {
    &&& state_wf(s)
    &&& s.visited.contains(origin_page(t))
    &&& pending(s, t).subset_of(s.visited.to_set())
}

/// One step: what was visited and settled stays settled, the URL fetched is
/// settled, and the invariant of runs is kept.
proof fn lemma_settled_step(s: CrawlState, t: Target, body: Option<Seq<char>>, s2: CrawlState)
    requires
        run_inv(s, t),
        steps_to(s, t, body, s2),
    ensures
        run_inv(s2, t),
        forall|u: Seq<char>| s.visited.contains(u) && !pending(s, t).contains(u) ==> s2.visited.contains(u) && !#[trigger] pending(s2, t).contains(u),
        fetch_of(s, t) is Some ==> pending(s, t).contains(fetch_of(s, t)->0),
        fetch_of(s, t) is Some ==> s2.visited.contains(fetch_of(s, t)->0) && !pending(s2, t).contains(fetch_of(s, t)->0),
{
    lemma_step_wf(s, t, body, s2);
    lemma_visited_grows(s, t, body, s2);
    assert forall|u: Seq<char>| s.visited.contains(u) implies s2.visited.contains(u) by {
        let k = choose|k: int| 0 <= k < s.visited.len() && s.visited[k] == u;
        assert(s2.visited[k] == u);
    }
    if let Some(html) = body {
        lemma_absorbed_wf(s, t, html);
    }
    match s.phase {
        Phase::Done(_) => {},
        Phase::Starting => {
            if let Some(html) = body {
                let a = absorbed(s, t, html);
                lemma_advanced_wf(a, s2);
                assert forall|u: Seq<char>| s.visited.contains(u) implies !#[trigger] pending(s2, t).contains(u) by {
                    if s2.phase == Phase::Level && pending(s2, t).contains(u) {
                        let k = choose|k: int| 0 <= k < s2.frontier.skip(0).len() && s2.frontier.skip(0)[k] == u;
                        assert(s2.frontier[k] == u);
                        let m = choose|m: int| 0 <= m < s.visited.len() && s.visited[m] == u;
                        assert(a.visited[m] == u);
                    }
                }
                assert(pending(s2, t).subset_of(s2.visited.to_set())) by {
                    assert forall|u: Seq<char>| pending(s2, t).contains(u) implies s2.visited.to_set().contains(u) by {
                        let k = choose|k: int| 0 <= k < s2.frontier.skip(0).len() && s2.frontier.skip(0)[k] == u;
                        assert(s2.frontier[k] == u);
                    }
                }
            }
        },
        Phase::Level => {
            let a = level_step(s, t, body);
            let u0 = s.frontier[s.next];
            assert(s.frontier.skip(s.next)[0] == u0);
            if a.next < a.frontier.len() {
                assert forall|u: Seq<char>| pending(s2, t).contains(u) implies pending(s, t).contains(u) && u != u0 by {
                    let k = choose|k: int| 0 <= k < s2.frontier.skip(s2.next).len() && s2.frontier.skip(s2.next)[k] == u;
                    assert(s.frontier.skip(s.next)[k + 1] == u);
                    assert(s.frontier[s.next + k + 1] == u);
                }
                assert(pending(s2, t).subset_of(s2.visited.to_set())) by {
                    assert forall|u: Seq<char>| pending(s2, t).contains(u) implies s2.visited.to_set().contains(u) by {
                        let k = choose|k: int| 0 <= k < s2.frontier.skip(s2.next).len() && s2.frontier.skip(s2.next)[k] == u;
                        assert(s2.frontier[s2.next + k] == u);
                    }
                }
            } else if budget(a) != 0 {
                lemma_advanced_wf(a, s2);
                assert forall|u: Seq<char>| s.visited.contains(u) implies !#[trigger] pending(s2, t).contains(u) by {
                    if s2.phase == Phase::Level && pending(s2, t).contains(u) {
                        let k = choose|k: int| 0 <= k < s2.frontier.skip(0).len() && s2.frontier.skip(0)[k] == u;
                        assert(s2.frontier[k] == u);
                        let m = choose|m: int| 0 <= m < s.visited.len() && s.visited[m] == u;
                        assert(a.visited[m] == u);
                    }
                }
                assert(pending(s2, t).subset_of(s2.visited.to_set())) by {
                    assert forall|u: Seq<char>| pending(s2, t).contains(u) implies s2.visited.to_set().contains(u) by {
                        let k = choose|k: int| 0 <= k < s2.frontier.skip(0).len() && s2.frontier.skip(0)[k] == u;
                        assert(s2.frontier[k] == u);
                    }
                }
                assert(s.visited.contains(u0));
            }
        },
    }
}

/// A reported download changes nothing that fetching depends on.
proof fn lemma_report_settled(s: CrawlState, t: Target, url: Seq<char>, ok: bool, s2: CrawlState)
    requires
        run_inv(s, t),
        artifact_settled(s, url, ok, s2),
    ensures
        run_inv(s2, t),
        s2.visited == s.visited,
        pending(s2, t) == pending(s, t),
{
    lemma_settle_wf(s, url, ok, s2);
}

/// Along a run, every URL fetched before state `j` is visited and no longer
/// pending there.
proof fn lemma_settled_run(t: Target, limit: int, states: Seq<CrawlState>, events: Seq<Event>, j: int)
    requires
        is_run(t, limit, states, events),
        0 <= j < states.len(),
    ensures
        run_inv(states[j], t),
        forall|i: int| 0 <= i < j && (#[trigger] fetched_at(t, states, events, i)) is Some ==> {
            &&& states[j].visited.contains(fetched_at(t, states, events, i)->0)
            &&& !pending(states[j], t).contains(fetched_at(t, states, events, i)->0)
        },
    decreases j,
{
    if j == 0 {
        let s = states[0];
        assert(s.visited[0] == origin_page(t));
        assert(pending(s, t).subset_of(s.visited.to_set())) by {
            assert(s.visited.to_set().contains(s.visited[0]));
        }
    } else {
        lemma_settled_run(t, limit, states, events, j - 1);
        let s = states[j - 1];
        let s2 = states[j];
        assert(moves_to(states[j - 1], t, events[j - 1], states[j]));
        match events[j - 1] {
            Event::Page(body) => lemma_settled_step(s, t, body, s2),
            Event::Download(url, ok) => lemma_report_settled(s, t, url, ok, s2),
        }
        assert forall|i: int| 0 <= i < j && (#[trigger] fetched_at(t, states, events, i)) is Some implies {
            &&& states[j].visited.contains(fetched_at(t, states, events, i)->0)
            &&& !pending(states[j], t).contains(fetched_at(t, states, events, i)->0)
        } by {
            let u = fetched_at(t, states, events, i)->0;
            if i < j - 1 {
                assert(states[j - 1].visited.contains(u) && !pending(states[j - 1], t).contains(u));
                assert(!pending(states[j], t).contains(u));
            } else {
                assert(events[i] is Page);
                assert(u == fetch_of(states[j - 1], t)->0);
            }
        }
    }
}

/// No URL is fetched twice in the crawl of one target: along a run, two
/// different steps that fetch fetch different URLs.
pub proof fn lemma_fetched_once(t: Target, limit: int, states: Seq<CrawlState>, events: Seq<Event>, i: int, j: int)
    requires
        is_run(t, limit, states, events),
        0 <= i < j < events.len(),
        fetched_at(t, states, events, i) is Some,
        fetched_at(t, states, events, j) is Some,
    ensures
        fetched_at(t, states, events, i) != fetched_at(t, states, events, j),
{
    lemma_settled_run(t, limit, states, events, j);
    assert(moves_to(states[j], t, events[j], states[j + 1]));
    if let Event::Page(body) = events[j] {
        lemma_settled_step(states[j], t, body, states[j + 1]);
    }
}

} // verus!
