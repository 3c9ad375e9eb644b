use pdf_crawler::crawl::{Crawl, Finish, Phase};
use pdf_crawler::links::{check_url, get_link_from_url, harvest_links, same_host, LinkKind, Target, TargetError};
use pdf_crawler::targets::{load_targets, targets_from_entries, LoadError};
use pdf_crawler::url_set::{contains_url, insert_url, subtract_urls};
use pdf_crawler::url_text::{artifact_file_name, normalize_url};

fn example() -> Target {
    Target::new("example".to_string(), "https://example.com".to_string()).unwrap()
}

fn strings(v: &[&str]) -> Vec<String> {
    v.iter().map(|s| s.to_string()).collect()
}

const ORIGIN_BODY: &str =
    r#"<a href="/page1">one</a> <a href = "https://example.com/page2">two</a> <a href="report.pdf">r</a>"#;

#[test]
fn root_relative_expansion() {
    assert_eq!(normalize_url("/a/b", "https://example.com"), "https://example.com/a/b");
}

#[test]
fn fragment_is_removed() {
    assert_eq!(normalize_url("/a/b#top", "https://example.com"), "https://example.com/a/b");
    assert_eq!(normalize_url("https://x.org/p#s#t", "https://example.com"), "https://x.org/p");
    assert_eq!(normalize_url("#only", "https://example.com"), "");
}

#[test]
fn fragment_erasure_on_values() {
    for u in ["/a", "https://example.com/b", "c/d", ""] {
        for f in ["", "x", "y#z"] {
            let with = format!("{}#{}", u, f);
            assert_eq!(normalize_url(&with, "https://example.com"), normalize_url(u, "https://example.com"));
        }
    }
}

#[test]
fn normalization_is_idempotent_on_values() {
    for u in ["/a/b#c", "https://example.com/x", "foo/bar.html", "/", ""] {
        let once = normalize_url(u, "https://example.com");
        assert_eq!(normalize_url(&once, "https://example.com"), once);
    }
}

#[test]
fn bare_relative_and_absolute_pass_through() {
    assert_eq!(normalize_url("foo/bar.html", "https://example.com"), "foo/bar.html");
    assert_eq!(normalize_url("https://other.com/x", "https://example.com"), "https://other.com/x");
}

#[test]
fn file_name_is_last_segment() {
    assert_eq!(artifact_file_name("https://example.com/docs/report.pdf"), "report.pdf");
    assert_eq!(artifact_file_name("report.pdf"), "report.pdf");
    assert_eq!(artifact_file_name("https://example.com/dir/"), "");
}

#[test]
fn target_needs_a_url_with_a_host() {
    let t = example();
    assert_eq!(t.name(), "example");
    assert_eq!(t.url(), "https://example.com");
    assert_eq!(t.host_name(), "example.com");
    assert_eq!(
        Target::new("a".to_string(), "not a url".to_string()).err(),
        Some(TargetError::OriginUnparsable)
    );
    assert_eq!(
        Target::new("a".to_string(), "mailto:someone@example.com".to_string()).err(),
        Some(TargetError::OriginWithoutHost)
    );
}

#[test]
fn same_host_compares_exactly() {
    let host = "example.com".to_string();
    assert!(same_host(&Some(Some("example.com".to_string())), &host));
    assert!(!same_host(&Some(Some("Example.com".to_string())), &host));
    assert!(!same_host(&Some(None), &host));
    assert!(!same_host(&None, &host));
}

#[test]
fn check_url_verdicts() {
    let t = example();
    let known: Vec<String> = Vec::new();
    let mut quota: u32 = 2;

    let v = check_url("/page#x", &t, &mut quota, &known);
    assert_eq!(v.kind, LinkKind::Page);
    assert_eq!(v.url, "https://example.com/page");
    assert_eq!(quota, 2);

    let v = check_url("https://other.com/x", &t, &mut quota, &known);
    assert_eq!(v.kind, LinkKind::Dropped);
    assert_eq!(quota, 2);

    let v = check_url("/doc.pdf", &t, &mut quota, &known);
    assert_eq!(v.kind, LinkKind::Artifact);
    assert_eq!(v.url, "https://example.com/doc.pdf");
    assert_eq!(quota, 1);

    let v = check_url("/doc.PDF", &t, &mut quota, &known);
    assert_eq!(v.kind, LinkKind::Page);
    assert_eq!(quota, 1);

    let seen = strings(&["https://example.com/doc.pdf"]);
    let v = check_url("/doc.pdf", &t, &mut quota, &seen);
    assert_eq!(v.kind, LinkKind::Dropped);
    assert_eq!(quota, 1);

    let mut none_left: u32 = 0;
    let v = check_url("/page", &t, &mut none_left, &known);
    assert_eq!(v.kind, LinkKind::Dropped);
    let v = check_url("/a.pdf", &t, &mut none_left, &known);
    assert_eq!(v.kind, LinkKind::Dropped);
    assert_eq!(none_left, 0);
}

#[test]
fn page_links_are_extracted() {
    let t = example();
    let mut quota: u32 = 5;
    let h = get_link_from_url(ORIGIN_BODY, &t, &mut quota, &Vec::new());
    let mut pages = h.pages.clone();
    pages.sort();
    assert_eq!(pages, strings(&["https://example.com/page1", "https://example.com/page2"]));
    assert_eq!(h.artifacts, strings(&["report.pdf"]));
    assert_eq!(quota, 4);
}

#[test]
fn other_origin_links_are_not_kept() {
    let t = example();
    let mut quota: u32 = 5;
    let body = r#"<a href="https://other.com/x">x</a><a href="/in">in</a>"#;
    let h = get_link_from_url(body, &t, &mut quota, &Vec::new());
    assert_eq!(h.pages, strings(&["https://example.com/in"]));
    assert!(h.artifacts.is_empty());
}

#[test]
fn harvest_stops_when_quota_is_spent() {
    let t = example();
    let mut quota: u32 = 1;
    let raws = vec![
        Some("/a.pdf".to_string()),
        None,
        Some("/b.pdf".to_string()),
        Some("/p".to_string()),
    ];
    let h = harvest_links(&raws, &t, &mut quota, &Vec::new());
    assert_eq!(h.artifacts, strings(&["https://example.com/a.pdf"]));
    assert!(h.pages.is_empty());
    assert_eq!(quota, 0);
}

#[test]
fn harvest_takes_each_artifact_once() {
    let t = example();
    let mut quota: u32 = 5;
    let raws = vec![Some("/a.pdf".to_string()), Some("/a.pdf".to_string()), Some("/p".to_string()), Some("/p#x".to_string())];
    let h = harvest_links(&raws, &t, &mut quota, &Vec::new());
    assert_eq!(h.artifacts, strings(&["https://example.com/a.pdf"]));
    assert_eq!(h.pages, strings(&["https://example.com/p"]));
    assert_eq!(quota, 4);
}

#[test]
fn url_set_operations() {
    let mut v = strings(&["a", "b"]);
    assert!(contains_url(&v, &"a".to_string()));
    assert!(!contains_url(&v, &"c".to_string()));
    insert_url(&mut v, "a".to_string());
    insert_url(&mut v, "c".to_string());
    assert_eq!(v, strings(&["a", "b", "c"]));
    assert_eq!(subtract_urls(&v, &strings(&["b"])), strings(&["a", "c"]));
}

fn run(crawl: &mut Crawl, site: &dyn Fn(&str) -> Option<String>) -> (Vec<String>, Vec<String>) {
    run_with(crawl, site, &|_: &str| true)
}

fn run_with(
    crawl: &mut Crawl,
    site: &dyn Fn(&str) -> Option<String>,
    download: &dyn Fn(&str) -> bool,
) -> (Vec<String>, Vec<String>) {
    let mut fetched = Vec::new();
    let mut downloads = Vec::new();
    while let Some(url) = crawl.next_fetch() {
        assert!(!fetched.contains(&url), "fetched twice: {}", url);
        fetched.push(url.clone());
        for a in crawl.page_fetched(site(&url)) {
            assert!(crawl.artifact_done(&a, download(&a)));
            downloads.push(a);
        }
    }
    (fetched, downloads)
}

#[test]
fn origin_scenario_with_quota_five() {
    let mut crawl = Crawl::new(example(), 5);
    assert_eq!(crawl.phase(), Phase::Starting);
    assert_eq!(crawl.next_fetch(), Some("https://example.com/".to_string()));
    let arts = crawl.page_fetched(Some(ORIGIN_BODY.to_string()));
    assert_eq!(arts, strings(&["report.pdf"]));
    assert_eq!(artifact_file_name(&arts[0]), "report.pdf");
    assert_eq!(crawl.pending(), &strings(&["report.pdf"]));
    assert_eq!(crawl.remaining_quota(), 5);
    assert!(crawl.artifact_done(&arts[0], true));
    assert!(crawl.pending().is_empty());
    assert_eq!(crawl.remaining_quota(), 4);
    assert_eq!(crawl.phase(), Phase::Level);
    let site = |_: &str| Some(String::new());
    let (fetched, downloads) = run(&mut crawl, &site);
    assert_eq!(fetched.len(), 2);
    assert!(downloads.is_empty());
    for u in ["https://example.com/", "https://example.com/page1", "https://example.com/page2", "report.pdf"] {
        assert!(crawl.visited().contains(&u.to_string()), "{}", u);
    }
    assert_eq!(crawl.harvested(), &strings(&["report.pdf"]));
    assert_eq!(crawl.phase(), Phase::Done(Finish::Exhausted));
    assert_eq!(crawl.remaining_quota(), 4);
}

#[test]
fn quota_zero_visits_only_the_origin() {
    let mut crawl = Crawl::new(example(), 0);
    let arts = crawl.page_fetched(Some(ORIGIN_BODY.to_string()));
    assert!(arts.is_empty());
    assert_eq!(crawl.visited(), &strings(&["https://example.com/"]));
    assert_eq!(crawl.next_fetch(), None);
    assert_eq!(crawl.phase(), Phase::Done(Finish::Exhausted));
}

#[test]
fn unreachable_origin_ends_the_crawl() {
    let mut crawl = Crawl::new(example(), 3);
    assert!(crawl.page_fetched(None).is_empty());
    assert_eq!(crawl.phase(), Phase::Done(Finish::OriginUnreachable));
    assert_eq!(crawl.next_fetch(), None);
    assert!(crawl.page_fetched(Some(ORIGIN_BODY.to_string())).is_empty());
    assert_eq!(crawl.visited(), &strings(&["https://example.com/"]));
}

#[test]
fn cyclic_site_ends_and_fetches_each_page_once() {
    let site = |url: &str| -> Option<String> {
        match url {
            "https://example.com/" => Some(r#"href="/a" href="/b""#.to_string()),
            "https://example.com/a" => Some(r#"href="/b" href="/" href="/a#self" href="/c""#.to_string()),
            "https://example.com/b" => Some(r#"href="/a" href="https://example.com/""#.to_string()),
            "https://example.com/c" => Some(r#"href="/a" href="/missing""#.to_string()),
            _ => None,
        }
    };
    let mut crawl = Crawl::new(example(), 10);
    let (fetched, _) = run(&mut crawl, &site);
    assert_eq!(crawl.phase(), Phase::Done(Finish::Exhausted));
    assert_eq!(fetched.len(), 5);
    assert!(fetched.contains(&"https://example.com/missing".to_string()));
    let mut visited = crawl.visited().clone();
    visited.sort();
    assert_eq!(
        visited,
        strings(&[
            "https://example.com/",
            "https://example.com/a",
            "https://example.com/b",
            "https://example.com/c",
            "https://example.com/missing",
        ])
    );
}

#[test]
fn quota_reached_stops_after_the_level() {
    let site = |url: &str| -> Option<String> {
        match url {
            "https://example.com/" => Some(r#"href="/a" href="/b""#.to_string()),
            "https://example.com/a" => Some(r#"href="/x.pdf" href="/y.pdf" href="/deeper""#.to_string()),
            "https://example.com/b" => Some(r#"href="/z.pdf" href="/deeper2""#.to_string()),
            _ => Some(String::new()),
        }
    };
    let mut crawl = Crawl::new(example(), 2);
    let (fetched, downloads) = run(&mut crawl, &site);
    assert_eq!(fetched.len(), 3);
    assert_eq!(downloads.len(), 2);
    assert_eq!(crawl.remaining_quota(), 0);
    assert_eq!(crawl.phase(), Phase::Done(Finish::QuotaReached));
    assert!(!crawl.visited().contains(&"https://example.com/deeper".to_string()));
}

#[test]
fn target_list_is_loaded() {
    let ts = load_targets(r#"{"beta": "https://b.org", "alpha": "http://a.net:8080"}"#).unwrap();
    assert_eq!(ts.len(), 2);
    assert_eq!(ts[0].name(), "alpha");
    assert_eq!(ts[0].url(), "http://a.net:8080");
    assert_eq!(ts[0].host_name(), "a.net");
    assert_eq!(ts[1].name(), "beta");
    assert_eq!(ts[1].host_name(), "b.org");
}

#[test]
fn target_list_errors() {
    assert_eq!(load_targets("[1, 2]").err(), Some(LoadError::Malformed));
    assert_eq!(load_targets("{").err(), Some(LoadError::Malformed));
    assert_eq!(load_targets(r#"{"a": "https://a.org", "b": 3}"#).err(), Some(LoadError::NotAString(1)));
    assert_eq!(
        load_targets(r#"{"a": "nowhere"}"#).err(),
        Some(LoadError::BadOrigin(0, TargetError::OriginUnparsable))
    );
    let entries = vec![("m".to_string(), Some("mailto:x@y.z".to_string()))];
    assert_eq!(
        targets_from_entries(&entries).err(),
        Some(LoadError::BadOrigin(0, TargetError::OriginWithoutHost))
    );
}

#[test]
fn failed_download_keeps_the_quota() {
    let mut crawl = Crawl::new(example(), 2);
    let arts = crawl.page_fetched(Some(r#"href="/a.pdf" href="/p""#.to_string()));
    assert_eq!(arts, strings(&["https://example.com/a.pdf"]));
    assert_eq!(crawl.pending(), &arts);
    assert!(crawl.artifact_done(&arts[0], false));
    assert_eq!(crawl.remaining_quota(), 2);
    assert!(crawl.harvested().is_empty());
    assert!(crawl.pending().is_empty());
    assert_eq!(crawl.taken(), &strings(&["https://example.com/a.pdf"]));
    assert!(!crawl.artifact_done(&arts[0], true));
    assert_eq!(crawl.remaining_quota(), 2);
    assert_eq!(crawl.next_fetch(), Some("https://example.com/p".to_string()));
    let more = crawl.page_fetched(Some(r#"href="/b.pdf" href="/c.pdf" href="/a.pdf""#.to_string()));
    assert_eq!(more, strings(&["https://example.com/b.pdf", "https://example.com/c.pdf"]));
    assert!(crawl.artifact_done(&more[0], true));
    assert!(crawl.artifact_done(&more[1], true));
    assert_eq!(crawl.remaining_quota(), 0);
    assert_eq!(crawl.harvested(), &more);
    assert_eq!(crawl.phase(), Phase::Done(Finish::QuotaReached));
}

#[test]
fn failed_downloads_never_spend_the_quota() {
    let site = |url: &str| -> Option<String> {
        match url {
            "https://example.com/" => Some(r#"href="/x.pdf" href="/a""#.to_string()),
            "https://example.com/a" => Some(r#"href="/y.pdf""#.to_string()),
            _ => None,
        }
    };
    let mut crawl = Crawl::new(example(), 3);
    let (fetched, downloads) = run_with(&mut crawl, &site, &|_: &str| false);
    assert_eq!(fetched.len(), 2);
    assert_eq!(downloads.len(), 2);
    assert_eq!(crawl.remaining_quota(), 3);
    assert!(crawl.harvested().is_empty());
    assert_eq!(crawl.phase(), Phase::Done(Finish::Exhausted));
}

#[test]
fn whitespace_around_equals_sign() {
    let t = example();
    let mut slots: u32 = 1;
    let h = get_link_from_url("<a href\t=\n\"/p\">", &t, &mut slots, &Vec::new());
    assert_eq!(h.pages, strings(&["https://example.com/p"]));
    assert_eq!(slots, 1);
}
