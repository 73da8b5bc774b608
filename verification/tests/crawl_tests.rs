use search_engine::crawl::{follows, is_html, seed_line, within_size, Admission, Visits, MAX_PAGE_BYTES};

#[test]
fn seed_lines_are_trimmed_and_comments_skipped() {
    assert_eq!(seed_line("  https://example.com/  "), Some("https://example.com/"));
    assert_eq!(seed_line("example.com"), Some("example.com"));
    assert_eq!(seed_line(""), None);
    assert_eq!(seed_line("   \t"), None);
    assert_eq!(seed_line("# a comment"), None);
    assert_eq!(seed_line("   #indented comment"), None);
    assert_eq!(seed_line("a#b"), Some("a#b"));
}

#[test]
fn only_html_pages_of_moderate_size_are_kept() {
    assert!(is_html(None));
    assert!(is_html(Some("text/html")));
    assert!(is_html(Some("text/html; charset=utf-8")));
    assert!(!is_html(Some("application/json")));
    assert!(!is_html(Some("Text/HTML")));
    assert!(!is_html(Some("")));
    assert_eq!(MAX_PAGE_BYTES, 2097152);
    assert!(within_size(0));
    assert!(within_size(2097152));
    assert!(!within_size(2097153));
}

#[test]
fn links_stay_on_the_host_when_asked_to() {
    assert!(follows(Some("a.com"), Some("b.com"), false));
    assert!(follows(None, Some("b.com"), false));
    assert!(follows(Some("a.com"), Some("a.com"), true));
    assert!(!follows(Some("a.com"), Some("b.com"), true));
    assert!(!follows(None, Some("b.com"), true));
    assert!(!follows(Some("a.com"), None, true));
    assert!(follows(None, None, true));
}

#[test]
fn a_url_is_fetched_once() {
    let mut v = Visits::new();
    assert_eq!(v.visited(), 0);
    assert_eq!(v.visit("http://a.com/1", Some("a.com"), 10), Admission::Fetch);
    assert_eq!(v.visit("http://a.com/1", Some("a.com"), 10), Admission::AlreadySeen);
    assert_eq!(v.visit("http://a.com/2", Some("a.com"), 10), Admission::Fetch);
    assert_eq!(v.visited(), 2);
}

#[test]
fn a_host_gets_at_most_its_share_of_pages() {
    let mut v = Visits::new();
    assert_eq!(v.visit("http://a.com/1", Some("a.com"), 2), Admission::Fetch);
    assert_eq!(v.visit("http://a.com/2", Some("a.com"), 2), Admission::Fetch);
    assert_eq!(v.visit("http://a.com/3", Some("a.com"), 2), Admission::HostExhausted);
    // A URL that was turned down has come up all the same.
    assert_eq!(v.visit("http://a.com/3", Some("a.com"), 2), Admission::AlreadySeen);
    assert_eq!(v.visit("http://b.com/1", Some("b.com"), 2), Admission::Fetch);
    assert_eq!(v.visit("http://b.com/2", Some("b.com"), 0), Admission::HostExhausted);
    assert_eq!(v.visit("http://c.com/1", Some("c.com"), 0), Admission::HostExhausted);
    // Without a host nothing is counted.
    assert_eq!(v.visit("data:1", None, 0), Admission::Fetch);
    assert_eq!(v.visit("data:2", None, 0), Admission::Fetch);
    assert_eq!(v.visited(), 8);
}
