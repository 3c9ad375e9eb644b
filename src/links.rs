//! Link extraction: the target being crawled, the verdict on one raw link
//! (dropped, a page of the site, or an artifact to harvest), and the harvest of
//! a whole page.
use vstd::prelude::*;
use crate::url_set::{contains_url, distinct, insert_url, set_of, views};
use crate::url_text::{normalize_url, normalized};

verus! {

/// What `Url::parse` makes of a text: `None` where it does not parse, else the
/// URL's host, if it has one.
pub uninterp spec fn url_host_of(s: Seq<char>) -> Option<Option<Seq<char>>>;

/// The texts inside an optional string.
pub open spec fn opt_view(o: Option<String>) -> Option<Seq<char>> {
    match o {
        Some(s) => Some(s@),
        None => None,
    }
}

/// Relies on `url::Url::parse` (reached as `reqwest::Url`) and `Url::host_str`:
/// whether `s` parses as a URL and, where it does, its host.
#[verifier::external_body]
fn parse_host(s: &str) -> (r: Option<Option<String>>)
    ensures
        match r {
            None => url_host_of(s@) is None,
            Some(h) => url_host_of(s@) == Some(opt_view(h)),
        },
{
    match reqwest::Url::parse(s) {
        Ok(u) => Some(u.host_str().map(str::to_string)),
        Err(_) => None,
    }
}

/// What `regex` finds in `text` with `pattern`: `None` where the pattern does not
/// compile, else the text of capture group 1 in each successive match.
pub uninterp spec fn group_one_matches_of(pattern: Seq<char>, text: Seq<char>) -> Option<Seq<Option<Seq<char>>>>;

/// Relies on `regex::Regex::new` to compile `pattern` and on
/// `Regex::captures_iter` for the matches in `text`, each with its group 1.
#[verifier::external_body]
fn group_one_matches(pattern: &str, text: &str) -> (r: Option<Vec<Option<String>>>)
    ensures
        match r {
            None => group_one_matches_of(pattern@, text@) is None,
            Some(v) => group_one_matches_of(pattern@, text@) == Some(v@.map_values(|o: Option<String>| opt_view(o))),
        },
{
    match regex::Regex::new(pattern) {
        Ok(re) => Some(re.captures_iter(text).map(|c| c.get(1).map(|m| m.as_str().to_string())).collect()),
        Err(_) => None,
    }
}

/// A hyperlink reference: `href`, optional whitespace, `=`, optional
/// whitespace, a double quote, then the link itself, captured.
pub const HREF_PATTERN: &'static str = "href\\s*=\\s*\"([a-zA-Z0-9\\(\\)!@:%_.~#?&=/\\+\\-]+)";

/// Why a target cannot be crawled.
#[derive(Debug, Clone, Copy, PartialEq, Eq, Structural)]
pub enum TargetError {
    /// The origin does not parse as a URL.
    OriginUnparsable,
    /// The origin parses, but has no host to scope the crawl by.
    OriginWithoutHost,
}

/// One site to crawl: a name (the folder its artifacts go to) and an origin URL,
/// with the origin's host, which scopes the crawl.
pub struct Target {
    name: String,
    url: String,
    host: String,
}

impl Target {
    pub closed spec fn name_view(&self) -> Seq<char> {
        self.name@
    }

    pub closed spec fn origin(&self) -> Seq<char> {
        self.url@
    }

    pub closed spec fn host(&self) -> Seq<char> {
        self.host@
    }

    /// The host is the one that the origin parses to.
    pub open spec fn wf(&self) -> bool {
        url_host_of(self.origin()) == Some(Some(self.host()))
    }

    /// A target for `url`, which must parse as a URL with a host.
    pub fn new(name: String, url: String) -> (r: Result<Target, TargetError>)
        ensures
            url_host_of(url@) is None <==> r == Err::<Target, TargetError>(TargetError::OriginUnparsable),
            url_host_of(url@) == Some(None::<Seq<char>>) <==> r == Err::<Target, TargetError>(TargetError::OriginWithoutHost),
            r is Ok ==> r->Ok_0.name_view() == name@ && r->Ok_0.origin() == url@ && r->Ok_0.wf(),
    {
        match parse_host(url.as_str()) {
            None => Err(TargetError::OriginUnparsable),
            Some(None) => Err(TargetError::OriginWithoutHost),
            Some(Some(host)) => Ok(Target { name, url, host }),
        }
    }

    pub fn name(&self) -> (r: &str)
        ensures
            r@ == self.name_view(),
    {
        self.name.as_str()
    }

    pub fn url(&self) -> (r: &str)
        ensures
            r@ == self.origin(),
    {
        self.url.as_str()
    }

    pub fn host_name(&self) -> (r: &str)
        ensures
            r@ == self.host(),
    {
        self.host.as_str()
    }
}

/// A raw link that names a PDF document: it ends in `.pdf`, case included.
pub open spec fn is_pdf_link(raw: Seq<char>) -> bool {
    raw.len() >= 4 && raw.skip(raw.len() - 4) == seq!['.', 'p', 'd', 'f']
}

/// A URL on the host `host`.
pub open spec fn in_scope(u: Seq<char>, host: Seq<char>) -> bool {
    url_host_of(u) == Some(Some(host))
}

/// What becomes of a raw link.
#[derive(Debug, Clone, Copy, PartialEq, Eq, Structural)]
pub enum LinkKind {
    /// Not followed: out of scope, already harvested, or the quota is spent.
    Dropped,
    /// A page of the site, to crawl.
    Page,
    /// A PDF document, to download and not to crawl.
    Artifact,
}

/// The verdict on the raw link `raw` found on `t`'s site with `quota` artifacts
/// still allowed, where the URLs in `known` are already visited or harvested.
pub open spec fn kind_of(raw: Seq<char>, t: Target, quota: int, known: Seq<Seq<char>>) -> LinkKind {
    let u = normalized(raw, t.origin());
    if quota <= 0 {
        LinkKind::Dropped
    } else if is_pdf_link(raw) {
        if known.contains(u) {
            LinkKind::Dropped
        } else {
            LinkKind::Artifact
        }
    } else if in_scope(u, t.host()) {
        LinkKind::Page
    } else {
        LinkKind::Dropped
    }
}

/// A verdict on one raw link, with the link normalized.
pub struct Verdict {
    pub kind: LinkKind,
    pub url: String,
}

/// Whether `raw` ends in `.pdf`.
pub fn ends_with_pdf(raw: &str) -> (r: bool)
    ensures
        r == is_pdf_link(raw@),
{
    let n = raw.unicode_len();
    if n < 4 {
        return false;
    }
    let r = raw.get_char(n - 4) == '.' && raw.get_char(n - 3) == 'p' && raw.get_char(n - 2) == 'd'
        && raw.get_char(n - 1) == 'f';
    assert(r == (raw@.skip(n - 4) =~= seq!['.', 'p', 'd', 'f']));
    r
}

/// Whether a URL parsed to `parsed` (see `url_host_of`) lies on the host `host`:
/// it parsed and has that host.
pub fn same_host(parsed: &Option<Option<String>>, host: &String) -> (r: bool)
    ensures
        r == (match parsed {
            Some(h) => opt_view(*h) == Some(host@),
            None => false,
        }),
{
    match parsed {
        Some(Some(h)) => *h == *host,
        _ => false,
    }
}

/// Decides what becomes of the raw link `url` found on `target`'s site. While
/// quota is left, a link ending in `.pdf` not yet in `known` is an artifact and
/// takes one unit of quota; another link is a page where it is on the target's
/// host. Nothing passes once the quota is spent.
pub fn check_url(url: &str, target: &Target, slots: &mut u32, known: &Vec<String>) -> (r: Verdict)
    ensures
        r.url@ == normalized(url@, target.origin()),
        r.kind == kind_of(url@, *target, *old(slots) as int, views(known@)),
        *final(slots) == if r.kind == LinkKind::Artifact { (*old(slots) - 1) as u32 } else { *old(slots) },
{
    let normalized_url = normalize_url(url, target.url.as_str());
    if *slots == 0 {
        return Verdict { kind: LinkKind::Dropped, url: normalized_url };
    }
    if ends_with_pdf(url) {
        if contains_url(known, &normalized_url) {
            return Verdict { kind: LinkKind::Dropped, url: normalized_url };
        }
        *slots = *slots - 1;
        return Verdict { kind: LinkKind::Artifact, url: normalized_url };
    }
    let kind = if same_host(&parse_host(normalized_url.as_str()), &target.host) {
        LinkKind::Page
    } else {
        LinkKind::Dropped
    };
    Verdict { kind, url: normalized_url }
}

/// The raw links of a page, in the order met, with `quota` artifacts allowed and
/// the URLs of `known` already visited: the set of pages found, the artifacts to
/// harvest in order, and the quota left.
pub open spec fn harvest_model(raws: Seq<Option<Seq<char>>>, t: Target, quota: int, known: Seq<Seq<char>>) -> (Set<Seq<char>>, Seq<Seq<char>>, int)
    decreases raws.len(),
{
    if raws.len() == 0 {
        (Set::empty(), Seq::empty(), quota)
    } else {
        let (pages, arts, q) = harvest_model(raws.drop_last(), t, quota, known);
        match raws.last() {
            None => (pages, arts, q),
            Some(raw) => {
                let u = normalized(raw, t.origin());
                match kind_of(raw, t, q, known + arts) {
                    LinkKind::Dropped => (pages, arts, q),
                    LinkKind::Page => (pages.insert(u), arts, q),
                    LinkKind::Artifact => (pages, arts.push(u), q - 1),
                }
            },
        }
    }
}

/// What the links of the page `html` yield: `harvest_model` over the matches
/// of the link pattern, or nothing where the pattern does not compile.
pub open spec fn page_harvest(html: Seq<char>, t: Target, quota: int, known: Seq<Seq<char>>) -> (Set<Seq<char>>, Seq<Seq<char>>, int) {
    match group_one_matches_of(HREF_PATTERN@, html) {
        None => (Set::empty(), Seq::empty(), quota),
        Some(raws) => harvest_model(raws, t, quota, known),
    }
}

/// The artifacts of a harvest are new: distinct, none of them known before,
/// each taking one unit of quota; the pages found are finitely many and on the
/// target's host.
pub proof fn lemma_harvest_model(raws: Seq<Option<Seq<char>>>, t: Target, quota: int, known: Seq<Seq<char>>)
    requires
        quota >= 0,
    ensures
        ({
            let (pages, arts, q) = harvest_model(raws, t, quota, known);
            &&& arts.no_duplicates()
            &&& forall|i: int| 0 <= i < arts.len() ==> !known.contains(#[trigger] arts[i])
            &&& q + arts.len() == quota
            &&& 0 <= q <= quota
            &&& pages.finite()
            &&& forall|u: Seq<char>| #[trigger] pages.contains(u) ==> in_scope(u, t.host())
        }),
    decreases raws.len(),
{
    if raws.len() > 0 {
        lemma_harvest_model(raws.drop_last(), t, quota, known);
        let (pages, arts, q) = harvest_model(raws.drop_last(), t, quota, known);
        match raws.last() {
            None => {},
            Some(raw) => {
                let u = normalized(raw, t.origin());
                if kind_of(raw, t, q, known + arts) == LinkKind::Artifact {
                    assert(!(known + arts).contains(u));
                    assert forall|i: int| 0 <= i < arts.len() implies arts[i] != u by {
                        assert((known + arts)[known.len() + i] == arts[i]);
                    }
                    assert forall|i: int| 0 <= i < known.len() implies known[i] != u by {
                        assert((known + arts)[i] == known[i]);
                    }
                    let a2 = arts.push(u);
                    assert forall|i: int| 0 <= i < a2.len() implies !known.contains(#[trigger] a2[i]) by {
                        if i < arts.len() {
                            assert(a2[i] == arts[i]);
                        }
                    }
                }
            },
        }
    }
}

/// `u` is the normalized form of one of the raw links of `raws`.
pub open spec fn from_links(u: Seq<char>, raws: Seq<Option<Seq<char>>>, t: Target) -> bool {
    exists|i: int| 0 <= i < raws.len() && #[trigger] raws[i] == Some(raw_at(raws, i)) && u == normalized(raw_at(raws, i), t.origin())
}

/// The raw link at position `i` of `raws`, where there is one.
pub open spec fn raw_at(raws: Seq<Option<Seq<char>>>, i: int) -> Seq<char> {
    raws[i]->0
}

/// A harvest yields no more than the links it reads: each page and each
/// artifact is the normalized form of one of them, and there are no more pages
/// and artifacts together than links.
pub proof fn lemma_harvest_from_links(raws: Seq<Option<Seq<char>>>, t: Target, quota: int, known: Seq<Seq<char>>)
    requires
        quota >= 0,
    ensures
        ({
            let (pages, arts, q) = harvest_model(raws, t, quota, known);
            &&& pages.len() + arts.len() <= raws.len()
            &&& forall|u: Seq<char>| #[trigger] pages.contains(u) ==> from_links(u, raws, t)
            &&& forall|k: int| 0 <= k < arts.len() ==> from_links(#[trigger] arts[k], raws, t)
        }),
    decreases raws.len(),
{
    if raws.len() > 0 {
        let r0 = raws.drop_last();
        lemma_harvest_from_links(r0, t, quota, known);
        lemma_harvest_model(r0, t, quota, known);
        let (pages, arts, q) = harvest_model(r0, t, quota, known);
        let n = raws.len() - 1;
        assert forall|u: Seq<char>| from_links(u, r0, t) implies from_links(u, raws, t) by {
            let i = choose|i: int| 0 <= i < r0.len() && #[trigger] r0[i] == Some(raw_at(r0, i)) && u == normalized(raw_at(r0, i), t.origin());
            assert(raws[i] == r0[i]);
        }
        match raws.last() {
            None => {},
            Some(raw) => {
                let u = normalized(raw, t.origin());
                assert(raws[n] == Some(raw_at(raws, n)));
                assert(from_links(u, raws, t));
                vstd::set::axiom_set_insert_len(pages, u);
            },
        }
    }
}

/// The facts of `lemma_harvest_model`, for the harvest of a whole page.
pub proof fn lemma_page_harvest(html: Seq<char>, t: Target, quota: int, known: Seq<Seq<char>>)
    requires
        quota >= 0,
    ensures
        ({
            let (pages, arts, q) = page_harvest(html, t, quota, known);
            &&& arts.no_duplicates()
            &&& forall|i: int| 0 <= i < arts.len() ==> !known.contains(#[trigger] arts[i])
            &&& q + arts.len() == quota
            &&& 0 <= q <= quota
            &&& pages.finite()
            &&& forall|u: Seq<char>| #[trigger] pages.contains(u) ==> in_scope(u, t.host())
        }),
{
    match group_one_matches_of(HREF_PATTERN@, html) {
        None => {},
        Some(raws) => lemma_harvest_model(raws, t, quota, known),
    }
}

/// What one page yields: the pages of the site that it links to, without
/// repetition, and the artifacts to download, in the order met.
pub struct Harvest {
    pub pages: Vec<String>,
    pub artifacts: Vec<String>,
}

/// Copies a list of URLs.
fn copy_urls(v: &Vec<String>) -> (r: Vec<String>)
    ensures
        r@ == v@,
{
    let mut r: Vec<String> = Vec::new();
    let mut i: usize = 0;
    while i < v.len()
        invariant
            i <= v@.len(),
            r@ == v@.take(i as int),
        decreases v@.len() - i,
    {
        r.push(v[i].clone());
        assert(r@ =~= v@.take(i + 1));
        i = i + 1;
    }
    assert(v@.take(v@.len() as int) =~= v@);
    r
}

/// Passes each raw link of `raws` in turn to `check_url`, with the quota
/// `slots` and the URLs of `known` together with the artifacts already taken
/// from these links; an absent link is skipped.
pub fn harvest_links(raws: &Vec<Option<String>>, target: &Target, slots: &mut u32, known: &Vec<String>) -> (r: Harvest)
    ensures
        distinct(r.pages@),
        ({
            let m = harvest_model(raws@.map_values(|o: Option<String>| opt_view(o)), *target, *old(slots) as int, views(known@));
            &&& set_of(r.pages@) == m.0
            &&& views(r.artifacts@) == m.1
            &&& *final(slots) as int == m.2
        }),
{
    let mut pages: Vec<String> = Vec::new();
    let mut artifacts: Vec<String> = Vec::new();
    let ghost rv = raws@.map_values(|o: Option<String>| opt_view(o));
    let ghost q0 = *old(slots) as int;
    let mut seen = copy_urls(known);
    let mut i: usize = 0;
    assert(set_of(pages@) =~= Set::empty());
    assert(views(artifacts@) =~= Seq::empty());
    assert(views(seen@) =~= views(known@) + Seq::empty());
    assert(rv.take(0) =~= Seq::empty());
    while i < raws.len()
        invariant
            i <= raws@.len(),
            rv == raws@.map_values(|o: Option<String>| opt_view(o)),
            distinct(pages@),
            ({
                let m = harvest_model(rv.take(i as int), *target, q0, views(known@));
                &&& set_of(pages@) == m.0
                &&& views(artifacts@) == m.1
                &&& *slots as int == m.2
            }),
            views(seen@) == views(known@) + views(artifacts@),
        decreases raws@.len() - i,
    {
        assert(rv.take(i + 1).drop_last() =~= rv.take(i as int));
        assert(rv.take(i + 1).last() == rv[i as int]);
        match &raws[i] {
            None => {},
            Some(raw) => {
                let v = check_url(raw.as_str(), target, slots, &seen);
                match v.kind {
                    LinkKind::Dropped => {},
                    LinkKind::Page => {
                        insert_url(&mut pages, v.url);
                    },
                    LinkKind::Artifact => {
                        let ghost a = v.url@;
                        let ghost before = artifacts@;
                        let ghost seen_before = seen@;
                        artifacts.push(v.url.clone());
                        seen.push(v.url);
                        proof {
                            assert(views(artifacts@) =~= views(before).push(a));
                            assert(views(seen@) =~= views(seen_before).push(a));
                            assert(views(seen@) =~= views(known@) + views(artifacts@));
                        }
                    },
                }
            },
        }
        i = i + 1;
    }
    assert(rv.take(raws@.len() as int) =~= rv);
    Harvest { pages, artifacts }
}

/// Extracts the links of the page `html` of `target`'s site and harvests them
/// with `harvest_links`; where the link pattern does not compile, nothing.
pub fn get_link_from_url(html: &str, target: &Target, slots: &mut u32, known: &Vec<String>) -> (r: Harvest)
    ensures
        distinct(r.pages@),
        ({
            let m = page_harvest(html@, *target, *old(slots) as int, views(known@));
            &&& set_of(r.pages@) == m.0
            &&& views(r.artifacts@) == m.1
            &&& *final(slots) as int == m.2
        }),
{
    match group_one_matches(HREF_PATTERN, html) {
        Some(raws) => harvest_links(&raws, target, slots, known),
        None => {
            let pages: Vec<String> = Vec::new();
            let artifacts: Vec<String> = Vec::new();
            assert(set_of(pages@) =~= Set::empty());
            assert(views(artifacts@) =~= Seq::empty());
            Harvest { pages, artifacts }
        },
    }
}

} // verus!
