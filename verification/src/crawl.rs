//! The rules of a crawl: which seed lines name a URL, which URLs are taken up,
//! which pages are kept and which links are followed.

use vstd::prelude::*;
use vstd::string::*;
use crate::interner::{lemma_position_of, Interner};
use crate::strings::{opt_str_text, starts_with, str_eq, trim, trimmed_of};

verus! {

/// The greatest size in bytes of a page that is kept.
pub const MAX_PAGE_BYTES: usize = 2 * 1024 * 1024;

/// The seed that a line of a seed file names: the trimmed line, unless it is
/// empty or a comment.
pub open spec fn seed_of(line: Seq<char>) -> Option<Seq<char>> {
    let s = trimmed_of(line);
    if s.len() == 0 || s[0] == '#' {
        None
    } else {
        Some(s)
    }
}

/// Reads a line of a seed file.
pub fn seed_line(line: &str) -> (r: Option<&str>)
    ensures
        match r {
            Some(s) => seed_of(line@) == Some(s@),
            None => seed_of(line@) is None,
        },
{
    let s = trim(line);
    if s.is_empty() || s.get_char(0) == '#' {
        None
    } else {
        Some(s)
    }
}

/// Whether a page is kept by its content type: one that starts with
/// `text/html`; a response without a content type passes.
pub fn is_html(content_type: Option<&str>) -> (r: bool)
    ensures
        r == match content_type {
            Some(t) => "text/html"@.is_prefix_of(t@),
            None => true,
        },
{
    match content_type {
        Some(t) => starts_with(t, "text/html"),
        None => true,
    }
}

/// Whether a page is kept by its size: at most 2 MiB.
pub fn within_size(size: usize) -> (r: bool)
    ensures
        r == (size <= MAX_PAGE_BYTES),
{
    size <= MAX_PAGE_BYTES
}

/// Whether a link found on a page is followed: always, unless links are to
/// stay on the host of the page and the hosts differ.
pub fn follows(link_host: Option<&str>, page_host: Option<&str>, same_host_only: bool) -> (r: bool)
    ensures
        r == (!same_host_only || opt_str_text(link_host) == opt_str_text(page_host)),
{
    if !same_host_only {
        return true;
    }
    match (link_host, page_host) {
        (Some(a), Some(b)) => str_eq(a, b),
        (None, None) => true,
        _ => false,
    }
}

/// What becomes of a URL that comes up in the frontier.
#[derive(Debug, Clone, Copy, PartialEq, Eq)]
pub enum Admission {
    /// The URL is fetched.
    Fetch,
    /// The URL came up before.
    AlreadySeen,
    /// The host of the URL has had its share of pages.
    HostExhausted,
    /// No more URLs or hosts can be recorded.
    Full,
}

/// The URLs that came up so far, and the number of pages taken up for each
/// host.
pub struct Visits {
    urls: Interner,
    hosts: Interner,
    pages: Vec<usize>,
}

impl Visits {
    /// The URLs that came up.
    pub closed spec fn seen(&self) -> Set<Seq<char>> {
        self.urls.keys().to_set()
    }

    /// The number of pages taken up for a host.
    pub closed spec fn pages_of(&self, host: Seq<char>) -> nat {
        if self.hosts.keys().contains(host) {
            self.pages@[self.hosts.keys().index_of(host)] as nat
        } else {
            0
        }
    }

    /// Whether one more URL and one more host can be recorded.
    pub closed spec fn has_room(&self) -> bool {
        self.urls.keys().len() < u32::MAX && self.hosts.keys().len() < u32::MAX
    }

    /// Every host that came up has its count.
    pub closed spec fn wf(&self) -> bool {
        &&& self.urls.wf()
        &&& self.hosts.wf()
        &&& self.pages@.len() == self.hosts.keys().len()
    }

    /// Nothing visited.
    pub fn new() -> (r: Visits)
        ensures
            r.wf(),
            r.has_room(),
            r.seen() == Set::<Seq<char>>::empty(),
            forall|h: Seq<char>| r.pages_of(h) == 0,
    {
        let r = Visits { urls: Interner::new(), hosts: Interner::new(), pages: Vec::new() };
        assert(r.seen() =~= Set::<Seq<char>>::empty());
        r
    }

    /// The number of URLs that came up.
    pub fn visited(&self) -> (n: usize)
        requires
            self.wf(),
        ensures
            n == self.seen().len(),
    {
        proof {
            self.urls.keys().unique_seq_to_set();
        }
        self.urls.len()
    }

    /// Takes a URL up or turns it down. A URL that came up before is turned
    /// down. A new URL is recorded, and fetched unless its host has had
    /// `max_per_host` pages; a fetch counts as a page of the host.
    pub fn visit(&mut self, url: &str, host: Option<&str>, max_per_host: usize) -> (r: Admission)
        requires
            old(self).wf(),
        ensures
            final(self).wf(),
            r == Admission::Full <==> !old(self).seen().contains(url@) && !old(self).has_room(),
            r == Admission::AlreadySeen <==> old(self).seen().contains(url@),
            r == Admission::HostExhausted <==> !old(self).seen().contains(url@) && old(self).has_room()
                && host is Some && old(self).pages_of(host->0@) >= max_per_host,
            r == Admission::AlreadySeen || r == Admission::Full ==> final(self).seen() == old(
                self,
            ).seen(),
            r == Admission::Fetch || r == Admission::HostExhausted ==> final(self).seen() == old(
                self,
            ).seen().insert(url@),
            forall|h: Seq<char>|
                final(self).pages_of(h) == old(self).pages_of(h) + if r == Admission::Fetch
                    && opt_str_text(host) == Some(h) {
                    1nat
                } else {
                    0nat
                },
    {
        if self.urls.lookup(url).is_some() {
            return Admission::AlreadySeen;
        }
        if self.urls.len() >= u32::MAX as usize || self.hosts.len() >= u32::MAX as usize {
            return Admission::Full;
        }
        let ghost old_urls = self.urls.keys();
        let ghost old_hosts = self.hosts.keys();
        let ghost old_pages = self.pages@;
        self.urls.intern(url);
        proof {
            assert forall|u: Seq<char>| self.urls.keys().contains(u) <==> (old_urls.contains(u) || u
                == url@) by {
                if old_urls.contains(u) {
                    let i = old_urls.index_of(u);
                    assert(self.urls.keys()[i] == u);
                }
                if u == url@ {
                    assert(self.urls.keys()[old_urls.len() as int] == u);
                }
            }
            assert(self.seen() =~= old(self).seen().insert(url@));
        }
        let h = match host {
            Some(h) => h,
            None => {
                return Admission::Fetch;
            },
        };
        let slot = self.hosts.intern(h) as usize;
        if slot == self.pages.len() {
            self.pages.push(0);
        }
        proof {
            lemma_position_of(self.hosts.keys(), slot as int);
            assert forall|g: Seq<char>| g != h@ implies self.pages_of(g) == old(self).pages_of(g) by {
                if old_hosts.contains(g) {
                    let i = old_hosts.index_of(g);
                    assert(old_hosts[i] == g);
                    assert(self.hosts.keys()[i] == g);
                    lemma_position_of(self.hosts.keys(), i);
                } else if self.hosts.keys().contains(g) {
                    let i = self.hosts.keys().index_of(g);
                    assert(self.hosts.keys()[i] == g);
                    if i < old_hosts.len() {
                        assert(old_hosts[i] == g);
                    }
                }
            }
            assert(self.pages_of(h@) == old(self).pages_of(h@)) by {
                if old_hosts.contains(h@) {
                    let i = old_hosts.index_of(h@);
                    assert(old_hosts[i] == h@);
                    lemma_position_of(old_hosts, i);
                }
            }
        }
        let ghost mid = *self;
        let count = self.pages[slot];
        if count >= max_per_host {
            return Admission::HostExhausted;
        }
        self.pages.set(slot, count + 1);
        proof {
            assert forall|g: Seq<char>| g != h@ implies self.pages_of(g) == mid.pages_of(g) by {
                if self.hosts.keys().contains(g) {
                    let i = self.hosts.keys().index_of(g);
                    assert(self.hosts.keys()[i] == g);
                }
            }
        }
        Admission::Fetch
    }
}

} // verus!
