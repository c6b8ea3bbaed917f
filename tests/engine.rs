use fadex::crawler::{CrawlError, Crawler, PageReport, Step};
use fadex::FetchError;

fn fetch_of(step: Step) -> String {
    match step {
        Step::Fetch(u) => u,
        Step::Wait => panic!("expected a fetch, got a wait"),
        Step::Done => panic!("expected a fetch, got done"),
    }
}

fn ok(body: &str) -> Result<String, FetchError> {
    Ok(body.to_string())
}

fn failure() -> Result<String, FetchError> {
    Err(FetchError::UrlParseError(url::ParseError::EmptyHost))
}

#[test]
fn end_to_end_two_links() {
    let mut c = Crawler::new("https://x.com", "https://x.com", 4).ok().unwrap();
    let seed = fetch_of(c.step());
    assert_eq!(seed, "https://x.com/");
    let report = c.finish(
        &seed,
        ok(r#"<a href="/a">a</a><a href="https://other.com/b">b</a>"#),
    );
    assert!(matches!(report, PageReport::Page { .. }));
    let first = fetch_of(c.step());
    let second = fetch_of(c.step());
    let mut fetched = vec![first.clone(), second.clone()];
    fetched.sort();
    assert_eq!(fetched, vec!["https://other.com/b".to_string(), "https://x.com/a".to_string()]);
    assert!(matches!(c.step(), Step::Wait));
    c.finish(&first, ok(r#"<a href="/">home</a>"#));
    c.finish(&second, ok(""));
    assert!(matches!(c.step(), Step::Done));
    let visited = c.visited();
    assert_eq!(visited.len(), 3);
    assert!(visited.contains(&"https://x.com/a".to_string()));
    assert!(visited.contains(&"https://other.com/b".to_string()));
}

#[test]
fn claim_succeeds_once() {
    let mut c = Crawler::new("https://x.com", "https://x.com", 2).ok().unwrap();
    let u = "https://x.com/p".to_string();
    let v = "https://x.com/q".to_string();
    assert!(c.claim(&u));
    assert!(c.claim(&v));
    assert!(!c.claim(&u));
    assert!(!c.claim(&u));
    assert!(!c.claim(&v));
    assert!(c.is_visited(&u));
    assert_eq!(c.visited(), vec![u, v]);
}

#[test]
fn admission_ceiling_holds() {
    let mut c = Crawler::new("https://x.com", "https://x.com", 1).ok().unwrap();
    assert_eq!(c.available(), 1);
    let seed = fetch_of(c.step());
    assert_eq!(c.available(), 0);
    c.push("https://x.com/more".to_string());
    assert!(matches!(c.step(), Step::Wait));
    assert_eq!(c.queue_len(), 1);
    assert_eq!(c.in_flight_count(), 1);
    c.finish(&seed, ok(""));
    assert_eq!(c.available(), 1);
    let next = fetch_of(c.step());
    assert_eq!(next, "https://x.com/more");
    assert_eq!(c.in_flight_count(), 1);
    assert!(c.in_flight_count() <= c.capacity());
}

#[test]
fn failed_fetch_releases_its_slot() {
    let mut c = Crawler::new("https://x.com", "https://x.com", 3).ok().unwrap();
    let seed = fetch_of(c.step());
    assert_eq!(c.available(), 2);
    let report = c.finish(&seed, failure());
    match report {
        PageReport::Failed { url, error } => {
            assert_eq!(url, seed);
            assert!(matches!(error, FetchError::UrlParseError(url::ParseError::EmptyHost)));
        }
        PageReport::Page { .. } => panic!("expected a failure"),
    }
    assert_eq!(c.available(), 3);
    assert_eq!(c.queue_len(), 0);
    assert!(matches!(c.step(), Step::Done));
}

#[test]
fn finite_graph_terminates() {
    let mut c = Crawler::new("https://x.com/0", "https://x.com/", 2).ok().unwrap();
    let mut pending: Vec<String> = Vec::new();
    let mut rounds = 0;
    loop {
        rounds += 1;
        assert!(rounds < 100);
        match c.step() {
            Step::Fetch(u) => pending.push(u),
            Step::Wait => {
                let u = pending.remove(0);
                let n: usize = u.rsplit('/').next().unwrap().parse().unwrap();
                let body = if n < 5 {
                    format!(r#"<a href="/{}">x</a><a href="/{}">y</a>"#, n + 1, (n + 2) % 6)
                } else {
                    String::new()
                };
                c.finish(&u, Ok(body));
            }
            Step::Done => break,
        }
    }
    assert!(pending.is_empty());
    assert_eq!(c.visited().len(), 6);
    assert_eq!(c.in_flight_count(), 0);
}

#[test]
fn rediscovered_urls_fetched_once() {
    let mut c = Crawler::new("https://x.com/", "https://x.com/", 4).ok().unwrap();
    let seed = fetch_of(c.step());
    c.finish(&seed, ok(r#"<a href="/a">1</a><a href="/a#x">2</a><a href="/">3</a>"#));
    assert_eq!(c.queue_len(), 2);
    let a = fetch_of(c.step());
    assert_eq!(a, "https://x.com/a");
    c.push("https://x.com/a".to_string());
    c.push("https://x.com/".to_string());
    assert!(matches!(c.step(), Step::Wait));
    c.finish(&a, ok(r#"<a href="/a">again</a>"#));
    assert!(matches!(c.step(), Step::Done));
    assert_eq!(c.visited(), vec!["https://x.com/".to_string(), "https://x.com/a".to_string()]);
}

#[test]
fn start_errors() {
    assert!(matches!(
        Crawler::new("https://x.com", "not a base", 1),
        Err(CrawlError::InvalidBase(url::ParseError::RelativeUrlWithoutBase))
    ));
    assert!(matches!(
        Crawler::new("::", "https://x.com", 1),
        Err(CrawlError::InvalidSeed(_))
    ));
    assert!(matches!(
        Crawler::new("mailto:a@b.com", "https://x.com", 1),
        Err(CrawlError::UnsupportedSeed)
    ));
    assert!(matches!(
        Crawler::new("https://x.com", "https://x.com", 0),
        Err(CrawlError::ZeroCapacity)
    ));
}

#[test]
fn new_crawl_state() {
    let c = Crawler::new("https://x.com/p#f", "https://x.com", 7).ok().unwrap();
    assert_eq!(c.capacity(), 7);
    assert_eq!(c.available(), 7);
    assert_eq!(c.queue_len(), 1);
    assert!(c.visited().is_empty());
}
