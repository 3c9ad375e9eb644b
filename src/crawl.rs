//! The breadth-first crawl of one target, as a state machine: the caller fetches
//! the URL that `next_fetch` names, hands the body (or its absence) to
//! `page_fetched`, and downloads the artifacts that it returns.
use vstd::prelude::*;
use crate::links::{get_link_from_url, lemma_page_harvest, opt_view, page_harvest, Target};
use crate::url_set::{append_urls, distinct, insert_all, set_of, subtract_urls, views};

verus! {

/// Why a crawl ended.
#[derive(Debug, Clone, Copy, PartialEq, Eq, Structural)]
pub enum Finish {
    /// The origin page could not be fetched.
    OriginUnreachable,
    /// At the end of a level, the whole quota was spent or held by downloads
    /// not yet reported.
    QuotaReached,
    /// A level found no page that was not visited already.
    Exhausted,
}

/// Where a crawl stands.
#[derive(Debug, Clone, Copy, PartialEq, Eq, Structural)]
pub enum Phase {
    /// The origin page is to be fetched.
    Starting,
    /// The pages of the frontier are being fetched, one at a time.
    Level,
    /// Nothing more is fetched.
    Done(Finish),
}

/// The state of a crawl, as texts and numbers.
pub struct CrawlState {
    /// Every URL fetched or queued to be, and every artifact handed out for
    /// download, in the order they were added.
    pub visited: Seq<Seq<char>>,
    /// The pages of the current level, in the order they are fetched.
    pub frontier: Seq<Seq<char>>,
    /// How many pages of the frontier were fetched.
    pub next: int,
    /// The pages found on this level so far.
    pub found: Set<Seq<char>>,
    /// Every artifact handed out for download, in order.
    pub taken: Seq<Seq<char>>,
    /// The artifacts handed out whose download has not been reported yet.
    pub pending: Seq<Seq<char>>,
    /// The artifacts downloaded, in the order reported.
    pub harvested: Seq<Seq<char>>,
    /// How many artifacts may still be downloaded: the limit less those
    /// downloaded.
    pub quota: int,
    /// How many artifacts the crawl may harvest in all.
    pub limit: int,
    pub phase: Phase,
}

/// The URL of a target's origin page: its origin followed by `/`.
pub open spec fn origin_page(t: Target) -> Seq<char> {
    t.origin().push('/')
}

/// The structural invariant of a crawl state.
pub open spec fn state_wf(s: CrawlState) -> bool {
    &&& s.visited.no_duplicates()
    &&& s.frontier.no_duplicates()
    &&& 0 <= s.next <= s.frontier.len()
    &&& forall|i: int| 0 <= i < s.frontier.len() ==> s.visited.contains(#[trigger] s.frontier[i])
    &&& 0 <= s.quota <= s.limit
    &&& s.harvested.len() + s.quota == s.limit
    &&& s.pending.no_duplicates()
    &&& s.pending.len() <= s.quota
    &&& forall|i: int| 0 <= i < s.pending.len() ==> s.visited.contains(#[trigger] s.pending[i])
    &&& s.found.finite()
    &&& s.phase == Phase::Level ==> s.next < s.frontier.len()
    &&& s.phase == Phase::Starting ==> s.frontier.len() == 0 && s.found.is_empty()
}

/// The state in which the crawl of `t` with quota `limit` starts.
pub open spec fn initial_state(t: Target, limit: int) -> CrawlState {
    CrawlState {
        visited: seq![origin_page(t)],
        frontier: Seq::empty(),
        next: 0,
        found: Set::empty(),
        taken: Seq::empty(),
        pending: Seq::empty(),
        harvested: Seq::empty(),
        quota: limit,
        limit,
        phase: Phase::Starting,
    }
}

/// How many more artifacts may be handed out: the quota less the downloads
/// still pending.
pub open spec fn budget(s: CrawlState) -> int {
    s.quota - s.pending.len()
}

/// `s` after the links of the page `html` were taken in: the artifacts are
/// handed out, pending and visited; the pages join those found on this level.
pub open spec fn absorbed(s: CrawlState, t: Target, html: Seq<char>) -> CrawlState {
    let (pages, arts, q) = page_harvest(html, t, budget(s), s.visited);
    CrawlState {
        visited: s.visited + arts,
        taken: s.taken + arts,
        pending: s.pending + arts,
        found: s.found.union(pages),
        ..s
    }
}

/// The download of `url` was reported, successful or not (`ok`): where it was
/// pending, it no longer is, and a success counts against the quota. Any other
/// report changes nothing.
pub open spec fn artifact_settled(s: CrawlState, url: Seq<char>, ok: bool, s2: CrawlState) -> bool {
    if s.pending.contains(url) {
        exists|i: int| {
            &&& 0 <= i < s.pending.len()
            &&& #[trigger] s.pending[i] == url
            &&& s2 == CrawlState {
                pending: s.pending.remove(i),
                harvested: if ok { s.harvested.push(url) } else { s.harvested },
                quota: if ok { s.quota - 1 } else { s.quota },
                ..s
            }
        }
    } else {
        s2 == s
    }
}

/// `s2` starts the level after `s`: its frontier is what `s` found and had not
/// visited, now visited too; where that is nothing, the crawl is exhausted.
pub open spec fn advanced(s: CrawlState, s2: CrawlState) -> bool {
    &&& s2.frontier.no_duplicates()
    &&& s2.frontier.to_set() == s.found.difference(s.visited.to_set())
    &&& s2.visited == s.visited + s2.frontier
    &&& s2.next == 0
    &&& s2.found == Set::<Seq<char>>::empty()
    &&& s2.taken == s.taken
    &&& s2.pending == s.pending
    &&& s2.harvested == s.harvested
    &&& s2.quota == s.quota
    &&& s2.limit == s.limit
    &&& s2.phase == if s2.frontier.len() == 0 { Phase::Done(Finish::Exhausted) } else { Phase::Level }
}

/// The crawl of `t` goes from `s` to `s2` when the fetch of the URL that `s`
/// names gave `body`.
pub open spec fn steps_to(s: CrawlState, t: Target, body: Option<Seq<char>>, s2: CrawlState) -> bool {
    match s.phase {
        Phase::Done(_) => s2 == s,
        Phase::Starting => match body {
            None => s2 == CrawlState { phase: Phase::Done(Finish::OriginUnreachable), ..s },
            Some(html) => advanced(absorbed(s, t, html), s2),
        },
        Phase::Level => {
            let a0 = match body {
                None => s,
                Some(html) => absorbed(s, t, html),
            };
            let a = CrawlState { next: a0.next + 1, ..a0 };
            if a.next < a.frontier.len() {
                s2 == a
            } else if budget(a) == 0 {
                s2 == CrawlState { phase: Phase::Done(Finish::QuotaReached), ..a }
            } else {
                advanced(a, s2)
            }
        },
    }
}

/// The URL that the crawl in state `s` of target `t` fetches next.
pub open spec fn fetch_of(s: CrawlState, t: Target) -> Option<Seq<char>> {
    match s.phase {
        Phase::Starting => Some(origin_page(t)),
        Phase::Level => Some(s.frontier[s.next]),
        Phase::Done(_) => None,
    }
}

/// The texts of `v` hold no repetition exactly when `v` is distinct.
pub proof fn lemma_distinct_views(v: Seq<String>)
    ensures
        distinct(v) <==> views(v).no_duplicates(),
{
    if distinct(v) {
        assert forall|i: int, j: int| 0 <= i < views(v).len() && 0 <= j < views(v).len() && i != j implies views(v)[i] != views(v)[j] by {
            if i < j {
                assert(v[i]@ != v[j]@);
            } else {
                assert(v[j]@ != v[i]@);
            }
        }
    }
    if views(v).no_duplicates() {
        assert forall|i: int, j: int| 0 <= i < j < v.len() implies v[i]@ != v[j]@ by {
            assert(views(v)[i] != views(v)[j]);
        }
    }
}

/// Taking in a page keeps all of the invariant but what ties a starting crawl
/// to an empty level.
pub proof fn lemma_absorbed_wf(s0: CrawlState, t: Target, html: Seq<char>)
    requires
        state_wf(s0),
    ensures
        ({
            let a = absorbed(s0, t, html);
            &&& a.visited.no_duplicates()
            &&& a.frontier == s0.frontier
            &&& a.next == s0.next
            &&& a.phase == s0.phase
            &&& a.limit == s0.limit
            &&& forall|i: int| 0 <= i < a.frontier.len() ==> a.visited.contains(#[trigger] a.frontier[i])
            &&& a.quota == s0.quota
            &&& a.harvested == s0.harvested
            &&& 0 <= a.quota <= a.limit
            &&& a.harvested.len() + a.quota == a.limit
            &&& a.pending.no_duplicates()
            &&& a.pending.len() <= a.quota
            &&& forall|i: int| 0 <= i < a.pending.len() ==> a.visited.contains(#[trigger] a.pending[i])
            &&& a.found.finite()
            &&& s0.visited.is_prefix_of(a.visited)
        }),
{
    lemma_page_harvest(html, t, budget(s0), s0.visited);
    let (pages, arts, q) = page_harvest(html, t, budget(s0), s0.visited);
    let p = s0.pending + arts;
    assert forall|i: int, j: int| 0 <= i < p.len() && 0 <= j < p.len() && i != j implies p[i] != p[j] by {
        if i < s0.pending.len() && j >= s0.pending.len() {
            assert(s0.visited.contains(s0.pending[i]));
            assert(!s0.visited.contains(arts[j - s0.pending.len()]));
        } else if j < s0.pending.len() && i >= s0.pending.len() {
            assert(s0.visited.contains(s0.pending[j]));
            assert(!s0.visited.contains(arts[i - s0.pending.len()]));
        }
    }
    let v = s0.visited + arts;
    assert forall|i: int, j: int| 0 <= i < v.len() && 0 <= j < v.len() && i != j implies v[i] != v[j] by {
        if i < s0.visited.len() && j >= s0.visited.len() {
            assert(!s0.visited.contains(arts[j - s0.visited.len()]));
        } else if j < s0.visited.len() && i >= s0.visited.len() {
            assert(!s0.visited.contains(arts[i - s0.visited.len()]));
        }
    }
    assert forall|i: int| 0 <= i < s0.frontier.len() implies v.contains(#[trigger] s0.frontier[i]) by {
        let k = choose|k: int| 0 <= k < s0.visited.len() && s0.visited[k] == s0.frontier[i];
        assert(v[k] == s0.frontier[i]);
    }
    assert forall|i: int| 0 <= i < p.len() implies v.contains(#[trigger] p[i]) by {
        if i < s0.pending.len() {
            let k = choose|k: int| 0 <= k < s0.visited.len() && s0.visited[k] == s0.pending[i];
            assert(v[k] == p[i]);
        } else {
            assert(v[s0.visited.len() + i - s0.pending.len()] == p[i]);
        }
    }
    assert(v.take(s0.visited.len() as int) =~= s0.visited);
}

/// Starting a level establishes the invariant.
pub proof fn lemma_advanced_wf(a: CrawlState, s2: CrawlState)
    requires
        advanced(a, s2),
        a.visited.no_duplicates(),
        0 <= a.quota <= a.limit,
        a.harvested.len() + a.quota == a.limit,
        a.pending.no_duplicates(),
        a.pending.len() <= a.quota,
        forall|i: int| 0 <= i < a.pending.len() ==> a.visited.contains(#[trigger] a.pending[i]),
    ensures
        state_wf(s2),
        a.visited.is_prefix_of(s2.visited),
        forall|i: int| 0 <= i < s2.frontier.len() ==> !a.visited.contains(#[trigger] s2.frontier[i]),
{
    let v = s2.visited;
    let f = s2.frontier;
    assert forall|i: int| 0 <= i < f.len() implies !a.visited.contains(#[trigger] f[i]) by {
        assert(f.to_set().contains(f[i]));
        assert(!a.visited.to_set().contains(f[i]));
    }
    assert forall|i: int, j: int| 0 <= i < v.len() && 0 <= j < v.len() && i != j implies v[i] != v[j] by {
        if i < a.visited.len() && j >= a.visited.len() {
            assert(!a.visited.contains(f[j - a.visited.len()]));
        } else if j < a.visited.len() && i >= a.visited.len() {
            assert(!a.visited.contains(f[i - a.visited.len()]));
        }
    }
    assert forall|i: int| 0 <= i < f.len() implies v.contains(#[trigger] f[i]) by {
        assert(v[a.visited.len() + i] == f[i]);
    }
    assert forall|i: int| 0 <= i < s2.pending.len() implies v.contains(#[trigger] s2.pending[i]) by {
        let k = choose|k: int| 0 <= k < a.visited.len() && a.visited[k] == a.pending[i];
        assert(v[k] == s2.pending[i]);
    }
    assert(v.take(a.visited.len() as int) =~= a.visited);
}

/// Every step keeps the invariant.
pub proof fn lemma_step_wf(s: CrawlState, t: Target, body: Option<Seq<char>>, s2: CrawlState)
    requires
        state_wf(s),
        steps_to(s, t, body, s2),
    ensures
        state_wf(s2),
{
    if let Some(html) = body {
        lemma_absorbed_wf(s, t, html);
    }
    match s.phase {
        Phase::Done(_) => {},
        Phase::Starting => {
            if let Some(html) = body {
                lemma_advanced_wf(absorbed(s, t, html), s2);
            }
        },
        Phase::Level => {
            let a0 = match body {
                None => s,
                Some(html) => absorbed(s, t, html),
            };
            let a = CrawlState { next: a0.next + 1, ..a0 };
            if a.next >= a.frontier.len() && budget(a) != 0 {
                lemma_advanced_wf(a, s2);
            }
        },
    }
}

/// The crawl of one target.
pub struct Crawl {
    target: Target,
    limit: u32,
    pdf_left: u32,
    visited: Vec<String>,
    frontier: Vec<String>,
    next: usize,
    found: Vec<String>,
    taken: Vec<String>,
    pending: Vec<String>,
    harvested: Vec<String>,
    phase: Phase,
}

impl View for Crawl {
    type V = CrawlState;

    closed spec fn view(&self) -> CrawlState {
        CrawlState {
            visited: views(self.visited@),
            frontier: views(self.frontier@),
            next: self.next as int,
            found: set_of(self.found@),
            taken: views(self.taken@),
            pending: views(self.pending@),
            harvested: views(self.harvested@),
            quota: self.pdf_left as int,
            limit: self.limit as int,
            phase: self.phase,
        }
    }
}

impl Crawl {
    /// The target being crawled.
    pub closed spec fn target_of(&self) -> Target {
        self.target
    }

    /// The crawl's invariant.
    pub closed spec fn wf(&self) -> bool {
        &&& state_wf(self@)
        &&& distinct(self.found@)
    }

    /// The invariant of the crawl's state holds.
    pub proof fn lemma_wf_state(&self)
        requires
            self.wf(),
        ensures
            state_wf(self@),
    {
    }

    /// Starts the crawl of `target`, with at most `limit` artifacts to download.
    pub fn new(target: Target, limit: u32) -> (r: Crawl)
        ensures
            r.wf(),
            r@ == initial_state(target, limit as int),
            r.target_of() == target,
    {
        let mut origin = target.url().to_owned();
        proof {
            reveal_strlit("/");
            assert("/"@ =~= seq!['/']);
        }
        origin.append("/");
        assert(origin@ =~= origin_page(target));
        let mut visited: Vec<String> = Vec::new();
        visited.push(origin);
        proof {
            assert(views(visited@) =~= seq![origin_page(target)]);
        }
        let frontier: Vec<String> = Vec::new();
        let found: Vec<String> = Vec::new();
        let harvested: Vec<String> = Vec::new();
        let taken: Vec<String> = Vec::new();
        let pending: Vec<String> = Vec::new();
        proof {
            assert(views(taken@) =~= Seq::empty());
            assert(views(pending@) =~= Seq::empty());
            assert(views(frontier@) =~= Seq::empty());
            assert(views(harvested@) =~= Seq::empty());
            assert(set_of(found@) =~= Set::empty());
        }
        Crawl {
            target,
            limit,
            pdf_left: limit,
            visited,
            frontier,
            next: 0,
            found,
            taken,
            pending,
            harvested,
            phase: Phase::Starting,
        }
    }

    /// The URL to fetch now: the origin page first, then the pages of each
    /// level in turn; nothing once the crawl is done.
    pub fn next_fetch(&self) -> (r: Option<String>)
        requires
            self.wf(),
        ensures
            match r {
                None => fetch_of(self@, self.target_of()) is None,
                Some(u) => fetch_of(self@, self.target_of()) == Some(u@),
            },
    {
        match self.phase {
            Phase::Starting => {
                let mut origin = self.target.url().to_owned();
                proof {
                    reveal_strlit("/");
                    assert("/"@ =~= seq!['/']);
                }
                origin.append("/");
                assert(origin@ =~= origin_page(self.target));
                Some(origin)
            },
            Phase::Level => {
                assert(views(self.frontier@)[self.next as int] == self.frontier@[self.next as int]@);
                Some(self.frontier[self.next].clone())
            },
            Phase::Done(_) => None,
        }
    }

    /// Where the crawl stands.
    pub fn phase(&self) -> (r: Phase)
        ensures
            r == self@.phase,
    {
        self.phase
    }

    /// How many artifacts may still be harvested.
    pub fn remaining_quota(&self) -> (r: u32)
        ensures
            r as int == self@.quota,
    {
        self.pdf_left
    }

    /// The URLs visited so far, artifacts included, in the order they were added.
    pub fn visited(&self) -> (r: &Vec<String>)
        ensures
            views(r@) == self@.visited,
    {
        &self.visited
    }

    /// The artifacts handed out for download whose outcome is not reported yet.
    pub fn pending(&self) -> (r: &Vec<String>)
        ensures
            views(r@) == self@.pending,
    {
        &self.pending
    }

    /// Every artifact handed out for download, in order.
    pub fn taken(&self) -> (r: &Vec<String>)
        ensures
            views(r@) == self@.taken,
    {
        &self.taken
    }

    /// The artifacts downloaded so far, in the order reported.
    pub fn harvested(&self) -> (r: &Vec<String>)
        ensures
            views(r@) == self@.harvested,
    {
        &self.harvested
    }

    /// The target being crawled.
    pub fn target(&self) -> (r: &Target)
        ensures
            *r == self.target_of(),
    {
        &self.target
    }

    /// Takes in the links of the page `html`.
    fn absorb(&mut self, html: &str) -> (arts: Vec<String>)
        requires
            state_wf(old(self)@),
            distinct(old(self).found@),
        ensures
            final(self)@ == absorbed(old(self)@, old(self).target, html@),
            final(self).target == old(self).target,
            distinct(final(self).found@),
            views(arts@) == page_harvest(html@, old(self).target, budget(old(self)@), old(self)@.visited).1,
    {
        let mut slots: u32 = self.pdf_left - self.pending.len() as u32;
        let h = get_link_from_url(html, &self.target, &mut slots, &self.visited);
        append_urls(&mut self.visited, &h.artifacts);
        append_urls(&mut self.taken, &h.artifacts);
        append_urls(&mut self.pending, &h.artifacts);
        insert_all(&mut self.found, &h.pages);
        proof {
            assert(views(self.visited@) =~= views(old(self).visited@) + views(h.artifacts@));
            assert(views(self.taken@) =~= views(old(self).taken@) + views(h.artifacts@));
            assert(views(self.pending@) =~= views(old(self).pending@) + views(h.artifacts@));
        }
        h.artifacts
    }

    /// Starts the next level with what this one found and had not visited.
    fn advance(&mut self)
        requires
            distinct(old(self).found@),
            old(self)@.visited.no_duplicates(),
        ensures
            advanced(old(self)@, final(self)@),
            final(self).target == old(self).target,
            distinct(final(self).found@),
    {
        let fr = subtract_urls(&self.found, &self.visited);
        append_urls(&mut self.visited, &fr);
        self.frontier = fr;
        self.found = Vec::new();
        self.next = 0;
        self.phase = if self.frontier.len() == 0 { Phase::Done(Finish::Exhausted) } else { Phase::Level };
        proof {
            lemma_distinct_views(fr@);
            assert(views(self.visited@) =~= views(old(self).visited@) + views(fr@));
            assert(set_of(self.found@) =~= Set::<Seq<char>>::empty());
        }
    }

    /// Takes in the outcome of fetching the URL that `next_fetch` named: the
    /// page's body, or `None` where the fetch failed. Returns the artifacts to
    /// download that this page brought, in order; each stays pending, and
    /// holds a unit of quota in reserve, until `artifact_done` reports it.
    pub fn page_fetched(&mut self, body: Option<String>) -> (r: Vec<String>)
        requires
            old(self).wf(),
        ensures
            final(self).wf(),
            final(self).target_of() == old(self).target_of(),
            steps_to(old(self)@, old(self).target_of(), opt_view(body), final(self)@),
            final(self)@.pending == old(self)@.pending + views(r@),
    {
        let ghost s0 = self@;
        match self.phase {
            Phase::Done(_) => {
                let r: Vec<String> = Vec::new();
                assert(views(r@) =~= Seq::empty());
                assert(s0.pending + views(r@) =~= s0.pending);
                r
            },
            Phase::Starting => match body {
                None => {
                    self.phase = Phase::Done(Finish::OriginUnreachable);
                    let r: Vec<String> = Vec::new();
                    assert(views(r@) =~= Seq::empty());
                    assert(s0.pending + views(r@) =~= s0.pending);
                    r
                },
                Some(html) => {
                    let arts = self.absorb(html.as_str());
                    proof { lemma_absorbed_wf(s0, self.target, html@); }
                    self.advance();
                    proof { lemma_advanced_wf(absorbed(s0, self.target, html@), self@); }
                    arts
                },
            },
            Phase::Level => {
                let arts = match body {
                    Some(html) => {
                        let a = self.absorb(html.as_str());
                        proof { lemma_absorbed_wf(s0, self.target, html@); }
                        a
                    },
                    None => {
                        let r: Vec<String> = Vec::new();
                        assert(views(r@) =~= Seq::empty());
                        assert(s0.pending + views(r@) =~= s0.pending);
                        r
                    },
                };
                assert(self@.frontier.len() == self.frontier@.len());
                let n = self.frontier.len();
                assert(self.next < n);
                self.next = self.next + 1;
                if self.next == n {
                    if self.pending.len() == self.pdf_left as usize {
                        self.phase = Phase::Done(Finish::QuotaReached);
                    } else {
                        let ghost a = self@;
                        self.advance();
                        proof { lemma_advanced_wf(a, self@); }
                    }
                }
                arts
            },
        }
    }

    /// Reports the download of the artifact `url`: `ok` where it was fetched and
    /// stored. A success counts against the quota; a failure gives the reserved
    /// unit back. Returns whether `url` was pending; if not, nothing changes.
    pub fn artifact_done(&mut self, url: &String, ok: bool) -> (r: bool)
        requires
            old(self).wf(),
        ensures
            final(self).wf(),
            final(self).target_of() == old(self).target_of(),
            r == old(self)@.pending.contains(url@),
            artifact_settled(old(self)@, url@, ok, final(self)@),
    {
        let ghost s0 = self@;
        assert(state_wf(s0));
        assert(distinct(self.found@));
        let mut i: usize = 0;
        while i < self.pending.len()
            invariant
                i <= self.pending@.len(),
                *self == *old(self),
                s0 == old(self)@,
                state_wf(s0),
                distinct(self.found@),
                forall|j: int| 0 <= j < i ==> self.pending@[j]@ != url@,
            decreases self.pending@.len() - i,
        {
            if self.pending[i] == *url {
                assert(s0.pending[i as int] == url@);
                assert(s0.pending.len() == self.pending@.len());
                assert(self.pending@.len() <= self.pdf_left);
                self.pending.remove(i);
                if ok {
                    self.pdf_left = self.pdf_left - 1;
                    self.harvested.push(url.clone());
                }
                proof {
                    assert(views(self.pending@) =~= s0.pending.remove(i as int));
                    if ok {
                        assert(views(self.harvested@) =~= s0.harvested.push(url@));
                    }
                    assert(self@ =~= CrawlState {
                        pending: s0.pending.remove(i as int),
                        harvested: if ok { s0.harvested.push(url@) } else { s0.harvested },
                        quota: if ok { s0.quota - 1 } else { s0.quota },
                        ..s0
                    });
                    lemma_settle_wf(s0, url@, ok, self@);
                }
                return true;
            }
            i = i + 1;
        }
        assert(!s0.pending.contains(url@)) by {
            if s0.pending.contains(url@) {
                let j = choose|j: int| 0 <= j < s0.pending.len() && s0.pending[j] == url@;
                assert(self.pending@[j]@ == url@);
            }
        }
        false
    }
}

/// Reporting a download keeps the invariant.
pub proof fn lemma_settle_wf(s: CrawlState, url: Seq<char>, ok: bool, s2: CrawlState)
    requires
        state_wf(s),
        artifact_settled(s, url, ok, s2),
    ensures
        state_wf(s2),
{
    if s.pending.contains(url) {
        let i = choose|i: int| {
            &&& 0 <= i < s.pending.len()
            &&& #[trigger] s.pending[i] == url
            &&& s2 == CrawlState {
                pending: s.pending.remove(i),
                harvested: if ok { s.harvested.push(url) } else { s.harvested },
                quota: if ok { s.quota - 1 } else { s.quota },
                ..s
            }
        };
        let p = s.pending.remove(i);
        assert forall|a: int| 0 <= a < p.len() implies p[a] == s.pending[if a < i { a } else { a + 1 }] by {}
        assert forall|a: int, b: int| 0 <= a < p.len() && 0 <= b < p.len() && a != b implies p[a] != p[b] by {
            assert(p[a] == s.pending[if a < i { a } else { a + 1 }]);
            assert(p[b] == s.pending[if b < i { b } else { b + 1 }]);
        }
        assert forall|a: int| 0 <= a < p.len() implies s2.visited.contains(#[trigger] p[a]) by {
            assert(p[a] == s.pending[if a < i { a } else { a + 1 }]);
        }
    }
}

} // verus!
