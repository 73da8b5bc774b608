//! Robots exclusion rules: reading the group for all user agents out of a
//! robots file, and deciding whether a path may be fetched.

use vstd::prelude::*;
use vstd::string::*;
use vstd::utf8::*;
use crate::strings::{
    index_of_first, lemma_index_of_first, lemma_split_at_first, lines, lines_of, split_once, starts_with, str_eq, texts,
    trim, trimmed_of,
};
use crate::tokenizer::{lowercase, lowercase_of};

verus! {

/// The rules of a host for all user agents.
#[derive(Debug)]
pub struct Robots {
    /// The path prefixes that may be fetched, in the order of the file.
    pub allows: Vec<String>,
    /// The path prefixes that may not be fetched, in the order of the file.
    pub disallows: Vec<String>,
    /// The values of the crawl delay directives, in the order of the file, as
    /// they are written.
    pub crawl_delays: Vec<String>,
}

/// The model of the rules, and of a reader of rules between two lines.
pub struct RobotsView {
    pub active: bool,
    pub allows: Seq<Seq<char>>,
    pub disallows: Seq<Seq<char>>,
    pub crawl_delays: Seq<Seq<char>>,
}

impl View for Robots {
    type V = RobotsView;

    open spec fn view(&self) -> RobotsView {
        RobotsView {
            active: false,
            allows: texts(self.allows@),
            disallows: texts(self.disallows@),
            crawl_delays: texts(self.crawl_delays@),
        }
    }
}

/// What one line makes of the rules read so far. A line that is blank or a
/// comment, or has no colon, changes nothing. The key before the first colon
/// is trimmed and lowercased, the value after it trimmed. `user-agent` opens
/// the group for all agents with the value `*` and closes it with any other;
/// `allow`, `disallow` and `crawl-delay` add their value while the group is
/// open.
pub open spec fn after_line(state: RobotsView, line: Seq<char>) -> RobotsView {
    let l = trimmed_of(line);
    if l.len() == 0 || l[0] == '#' || !l.contains(':') {
        state
    } else {
        let at = index_of_first(l, ':');
        let key = lowercase_of(trimmed_of(l.take(at)));
        let value = trimmed_of(l.skip(at + 1));
        if key == "user-agent"@ {
            RobotsView { active: value == "*"@, ..state }
        } else if !state.active {
            state
        } else if key == "allow"@ {
            RobotsView { allows: state.allows.push(value), ..state }
        } else if key == "disallow"@ {
            RobotsView { disallows: state.disallows.push(value), ..state }
        } else if key == "crawl-delay"@ {
            RobotsView { crawl_delays: state.crawl_delays.push(value), ..state }
        } else {
            state
        }
    }
}

/// What the lines make of the empty rules, read in order.
pub open spec fn after_lines(lines: Seq<Seq<char>>) -> RobotsView
    decreases lines.len(),
{
    if lines.len() == 0 {
        RobotsView {
            active: false,
            allows: Seq::empty(),
            disallows: Seq::empty(),
            crawl_delays: Seq::empty(),
        }
    } else {
        after_line(after_lines(lines.drop_last()), lines.last())
    }
}

/// The rules that a robots file gives for all user agents.
pub open spec fn rules_of(text: Seq<char>) -> RobotsView {
    RobotsView { active: false, ..after_lines(lines_of(text)) }
}

/// Reads the rules for all user agents out of the text of a robots file.
pub fn parse_robots(txt: &str) -> (r: Robots)
    ensures
        r@ == rules_of(txt@),
{
    let all = lines(txt);
    let mut active = false;
    let mut allows: Vec<String> = Vec::new();
    let mut disallows: Vec<String> = Vec::new();
    let mut crawl_delays: Vec<String> = Vec::new();
    let ghost model = texts(all@);
    let mut i: usize = 0;
    proof {
        assert(model.take(0) =~= Seq::<Seq<char>>::empty());
        assert(texts(allows@) =~= Seq::<Seq<char>>::empty());
        assert(texts(disallows@) =~= Seq::<Seq<char>>::empty());
        assert(texts(crawl_delays@) =~= Seq::<Seq<char>>::empty());
    }
    while i < all.len()
        invariant
            i <= all.len(),
            model == texts(all@),
            after_lines(model.take(i as int)) == (RobotsView {
                active,
                allows: texts(allows@),
                disallows: texts(disallows@),
                crawl_delays: texts(crawl_delays@),
            }),
        decreases all.len() - i,
    {
        proof {
            assert(model.take(i + 1).drop_last() =~= model.take(i as int));
            assert(model.take(i + 1).last() == all@[i as int]@);
        }
        let l = trim(all[i].as_str());
        if !l.is_empty() && l.get_char(0) != '#' {
            match split_once(l, ':') {
                Some((k, v)) => {
                    proof {
                        lemma_split_at_first(l@, k@, v@, ':');
                        lemma_index_of_first(l@, ':');
                    }
                    let key = lowercase(trim(k));
                    let value = trim(v);
                    if str_eq(key.as_str(), "user-agent") {
                        active = str_eq(value, "*");
                    } else if active {
                        if str_eq(key.as_str(), "allow") {
                            let ghost before = allows@;
                            allows.push(String::from_str(value));
                            assert(texts(allows@) =~= texts(before).push(value@));
                        } else if str_eq(key.as_str(), "disallow") {
                            let ghost before = disallows@;
                            disallows.push(String::from_str(value));
                            assert(texts(disallows@) =~= texts(before).push(value@));
                        } else if str_eq(key.as_str(), "crawl-delay") {
                            let ghost before = crawl_delays@;
                            crawl_delays.push(String::from_str(value));
                            assert(texts(crawl_delays@) =~= texts(before).push(value@));
                        }
                    }
                },
                None => {},
            }
        }
        i += 1;
    }
    proof {
        assert(model.take(i as int) =~= model);
    }
    Robots { allows, disallows, crawl_delays }
}

/// The length in bytes of a text.
pub open spec fn byte_len(text: Seq<char>) -> nat {
    encode_utf8(text).len()
}

/// The length of the best matching allow rule: the first of the longest rules
/// that are a prefix of the path.
pub open spec fn best_allow(path: Seq<char>, rules: Seq<Seq<char>>) -> Option<nat>
    decreases rules.len(),
{
    if rules.len() == 0 {
        None
    } else {
        let before = best_allow(path, rules.drop_last());
        let rule = rules.last();
        if rule.is_prefix_of(path) && (before is None || byte_len(rule) > before->0) {
            Some(byte_len(rule))
        } else {
            before
        }
    }
}

/// The length of the best matching disallow rule. The rule `/` takes the place
/// of whatever matched before it; any other rule that is a prefix of the path
/// takes the place of a shorter one.
pub open spec fn best_disallow(path: Seq<char>, rules: Seq<Seq<char>>) -> Option<nat>
    decreases rules.len(),
{
    if rules.len() == 0 {
        None
    } else {
        let before = best_disallow(path, rules.drop_last());
        let rule = rules.last();
        if rule == "/"@ {
            Some(byte_len(rule))
        } else if rule.is_prefix_of(path) && (before is None || byte_len(rule) > before->0) {
            Some(byte_len(rule))
        } else {
            before
        }
    }
}

/// Whether the rules let a path be fetched: the longest matching rule decides,
/// an allow rule winning over a disallow rule of the same length, and a path
/// that no rule matches may be fetched.
pub open spec fn allowed_by(path: Seq<char>, rules: RobotsView) -> bool {
    match (best_allow(path, rules.allows), best_disallow(path, rules.disallows)) {
        (Some(a), Some(d)) => a >= d,
        (Some(_), None) => true,
        (None, Some(_)) => false,
        (None, None) => true,
    }
}

/// Decides whether a path may be fetched under the rules of its host.
pub fn path_allowed(path: &str, rules: &Robots) -> (r: bool)
    ensures
        r == allowed_by(path@, rules@),
{
    let mut allow: Option<usize> = None;
    let mut i: usize = 0;
    let ghost allows = texts(rules.allows@);
    proof {
        assert(allows.take(0) =~= Seq::<Seq<char>>::empty());
    }
    while i < rules.allows.len()
        invariant
            i <= rules.allows.len(),
            allows == texts(rules.allows@),
            match allow {
                Some(n) => best_allow(path@, allows.take(i as int)) == Some(n as nat),
                None => best_allow(path@, allows.take(i as int)) is None,
            },
        decreases rules.allows.len() - i,
    {
        proof {
            assert(allows.take(i + 1).drop_last() =~= allows.take(i as int));
            assert(allows.take(i + 1).last() == rules.allows@[i as int]@);
        }
        let rule = rules.allows[i].as_str();
        let len = rule.as_bytes().len();
        if starts_with(path, rule) {
            let better = match allow {
                Some(n) => len > n,
                None => true,
            };
            if better {
                allow = Some(len);
            }
        }
        i += 1;
    }
    let mut disallow: Option<usize> = None;
    let mut j: usize = 0;
    let ghost disallows = texts(rules.disallows@);
    proof {
        assert(allows.take(i as int) =~= allows);
        assert(disallows.take(0) =~= Seq::<Seq<char>>::empty());
    }
    while j < rules.disallows.len()
        invariant
            j <= rules.disallows.len(),
            disallows == texts(rules.disallows@),
            match disallow {
                Some(n) => best_disallow(path@, disallows.take(j as int)) == Some(n as nat),
                None => best_disallow(path@, disallows.take(j as int)) is None,
            },
        decreases rules.disallows.len() - j,
    {
        proof {
            assert(disallows.take(j + 1).drop_last() =~= disallows.take(j as int));
            assert(disallows.take(j + 1).last() == rules.disallows@[j as int]@);
        }
        let rule = rules.disallows[j].as_str();
        let len = rule.as_bytes().len();
        if str_eq(rule, "/") {
            disallow = Some(len);
        } else if starts_with(path, rule) {
            let better = match disallow {
                Some(n) => len > n,
                None => true,
            };
            if better {
                disallow = Some(len);
            }
        }
        j += 1;
    }
    proof {
        assert(disallows.take(j as int) =~= disallows);
    }
    match (allow, disallow) {
        (Some(a), Some(d)) => a >= d,
        (Some(_), None) => true,
        (None, Some(_)) => false,
        (None, None) => true,
    }
}

} // verus!
