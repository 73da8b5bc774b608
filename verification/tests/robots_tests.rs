use search_engine::robots::{parse_robots, path_allowed, Robots};

fn rules(allows: &[&str], disallows: &[&str]) -> Robots {
    Robots {
        allows: allows.iter().map(|s| s.to_string()).collect(),
        disallows: disallows.iter().map(|s| s.to_string()).collect(),
        crawl_delays: Vec::new(),
    }
}

#[test]
fn the_group_for_all_agents_is_read() {
    let txt = "# a comment\n\
               User-agent: somebot\n\
               Disallow: /only-for-somebot\n\
               \n\
               User-Agent: *\n\
               Allow: /public\n\
               Disallow: /private\n\
               disallow:/tmp  \n\
               Crawl-delay: 1.5\n\
               Sitemap: http://example.com/sitemap.xml\n\
               no colon here\n\
               User-agent: other\n\
               Disallow: /other\n\
               Crawl-delay: 9\n";
    let r = parse_robots(txt);
    assert_eq!(r.allows, vec!["/public".to_string()]);
    assert_eq!(r.disallows, vec!["/private".to_string(), "/tmp".to_string()]);
    assert_eq!(r.crawl_delays, vec!["1.5".to_string()]);
}

#[test]
fn directives_before_any_user_agent_are_ignored() {
    let r = parse_robots("Disallow: /x\nAllow: /y\nCrawl-delay: 3\n");
    assert!(r.allows.is_empty());
    assert!(r.disallows.is_empty());
    assert!(r.crawl_delays.is_empty());
    let r = parse_robots("");
    assert!(r.allows.is_empty() && r.disallows.is_empty() && r.crawl_delays.is_empty());
}

#[test]
fn a_value_keeps_what_follows_the_first_colon() {
    let r = parse_robots("user-agent:*\nallow: /a:b\n  DISALLOW :  /c d  \r\ncrawl-delay: soon\ncrawl-delay: 2");
    assert_eq!(r.allows, vec!["/a:b".to_string()]);
    assert_eq!(r.disallows, vec!["/c d".to_string()]);
    assert_eq!(r.crawl_delays, vec!["soon".to_string(), "2".to_string()]);
}

#[test]
fn a_comment_line_is_skipped_even_with_a_colon() {
    let r = parse_robots("User-agent: *\n# Disallow: /a\n  #Allow: /b\nDisallow: /c # not a comment");
    assert!(r.allows.is_empty());
    assert_eq!(r.disallows, vec!["/c # not a comment".to_string()]);
}

#[test]
fn a_path_without_a_matching_rule_is_allowed() {
    assert!(path_allowed("/anything", &rules(&[], &[])));
    assert!(path_allowed("/public/page", &rules(&["/other"], &["/private"])));
}

#[test]
fn the_longest_matching_rule_decides() {
    let r = rules(&["/a/b"], &["/a"]);
    assert!(path_allowed("/a/b/c", &r));
    assert!(!path_allowed("/a/x", &r));
    let r = rules(&["/a"], &["/a/b"]);
    assert!(!path_allowed("/a/b/c", &r));
    assert!(path_allowed("/a/x", &r));
    // Of two rules of the same length the allow rule wins.
    assert!(path_allowed("/a/b", &rules(&["/a"], &["/a"])));
    assert!(!path_allowed("/a/b", &rules(&[], &["/a"])));
    assert!(path_allowed("/a/b", &rules(&["/a"], &[])));
}

#[test]
fn disallow_slash_takes_the_place_of_earlier_matches() {
    // "/" after a longer match shortens the disallow to one byte.
    assert!(path_allowed("/a/b", &rules(&["/a"], &["/a/b", "/"])));
    // "/" before a longer match is replaced by it.
    assert!(!path_allowed("/a/b", &rules(&["/a"], &["/", "/a/b"])));
    assert!(!path_allowed("/x", &rules(&[], &["/"])));
    // "/" counts even for a path that it is no prefix of.
    assert!(!path_allowed("x", &rules(&[], &["/"])));
}

#[test]
fn an_empty_rule_matches_every_path() {
    assert!(!path_allowed("/x", &rules(&[], &[""])));
    assert!(path_allowed("/x", &rules(&[""], &[""])));
}

#[test]
fn rule_lengths_are_counted_in_bytes() {
    // "/é" has three bytes, "/ab" has three bytes: the allow rule wins the tie.
    assert!(path_allowed("/é", &rules(&["/é"], &["/"])));
    assert!(path_allowed("/éa", &rules(&["/é"], &["/éa"])) == false);
}

#[test]
fn parsed_rules_decide_paths() {
    let r = parse_robots("User-agent: *\nDisallow: /private\nAllow: /private/open\n");
    assert!(path_allowed("/", &r));
    assert!(!path_allowed("/private/secret", &r));
    assert!(path_allowed("/private/open/page", &r));
}
