//! Snippets: a window of the stored text around the first match of a raw query
//! term, with every match of a query term wrapped in emphasis markers.
//!
//! Offsets are byte offsets, and a window is cut on character boundaries: each
//! end moves back to the nearest boundary at or before it.

use vstd::prelude::*;
use vstd::string::*;
use vstd::utf8::*;
use crate::strings::{blank, is_blank, texts};
use crate::tokenizer::{lowercase, lowercase_of};

verus! {

/// How many bytes of text a window takes before the anchor.
pub const WINDOW_BEFORE: usize = 100;

/// How many bytes of text a window takes from the anchor on.
pub const WINDOW_AFTER: usize = 200;

/// How many characters a snippet without an anchor takes from the start.
pub const PLAIN_CHARS: usize = 200;

/// What `regex::escape` makes of a text: a pattern that matches it literally.
pub uninterp spec fn regex_escaped_of(text: Seq<char>) -> Seq<char>;

/// The text with every match of the pattern, letter case ignored, replaced by
/// the match between `<em>` and `</em>`; `None` where the pattern cannot be
/// built.
pub uninterp spec fn emphasized_matches_of(pattern: Seq<char>, text: Seq<char>) -> Option<Seq<char>>;

/// Calls `regex::escape`. Trusted: the result is the crate's escaped form, a
/// function of the text alone.
#[verifier::external_body]
fn regex_escape(text: &str) -> (r: String)
    ensures
        r@ == regex_escaped_of(text@),
{
    regex::escape(text)
}

/// Builds the pattern with `regex::RegexBuilder`, case-insensitive, and calls
/// `Regex::replace_all` with a replacer that hands each whole match to
/// `emphasized`. Trusted: `None` exactly when the builder refuses the pattern,
/// else the text after replacement, a function of pattern and text alone.
#[verifier::external_body]
fn emphasize_matches(pattern: &str, text: &str) -> (r: Option<String>)
    ensures
        match r {
            Some(s) => emphasized_matches_of(pattern@, text@) == Some(s@),
            None => emphasized_matches_of(pattern@, text@) is None,
        },
{
    let re = regex::RegexBuilder::new(pattern).case_insensitive(true).build().ok()?;
    Some(re.replace_all(text, |caps: &regex::Captures| emphasized(&caps[0])).into_owned())
}

/// A matched piece of text between emphasis markers, its letters as they were.
pub fn emphasized(matched: &str) -> (r: String)
    ensures
        r@ == "<em>"@ + matched@ + "</em>"@,
{
    let mut r = String::from_str("<em>");
    r.append(matched);
    r.append("</em>");
    r
}

/// Whether `needle` stands in `hay` at offset `i`.
pub open spec fn occurs_at(hay: Seq<u8>, needle: Seq<u8>, i: int) -> bool {
    0 <= i && i + needle.len() <= hay.len() && hay.subrange(i, i + needle.len()) == needle
}

/// The first offset from `from` on at which `needle` stands in `hay`.
pub open spec fn first_occurrence_from(hay: Seq<u8>, needle: Seq<u8>, from: int) -> Option<int>
    decreases hay.len() - from,
{
    if 0 <= from && from + needle.len() <= hay.len() {
        if occurs_at(hay, needle, from) {
            Some(from)
        } else if from < hay.len() {
            first_occurrence_from(hay, needle, from + 1)
        } else {
            None
        }
    } else {
        None
    }
}

/// The first offset at which `needle` stands in `hay`.
pub open spec fn first_occurrence(hay: Seq<u8>, needle: Seq<u8>) -> Option<int> {
    first_occurrence_from(hay, needle, 0)
}

/// The first occurrence is an occurrence, and no offset before it is one; where
/// there is none, no offset is an occurrence.
pub proof fn law_first_occurrence(hay: Seq<u8>, needle: Seq<u8>, from: int)
    requires
        0 <= from,
    ensures
        match first_occurrence_from(hay, needle, from) {
            Some(i) => from <= i && occurs_at(hay, needle, i) && forall|j: int|
                from <= j < i ==> !occurs_at(hay, needle, j),
            None => forall|j: int| from <= j ==> !occurs_at(hay, needle, j),
        },
    decreases hay.len() - from,
{
    if from + needle.len() <= hay.len() {
        if !occurs_at(hay, needle, from) {
            if from < hay.len() {
                law_first_occurrence(hay, needle, from + 1);
            } else {
                assert(hay.subrange(from, from + needle.len()) =~= needle);
            }
        }
    }
}

/// Whether `needle` stands in `hay` at offset `at`.
fn matches_at(hay: &[u8], needle: &[u8], at: usize) -> (r: bool)
    requires
        at + needle@.len() <= hay@.len(),
    ensures
        r == occurs_at(hay@, needle@, at as int),
{
    let hay_len = hay.len();
    let mut j: usize = 0;
    while j < needle.len()
        invariant
            j <= needle@.len(),
            at + needle@.len() <= hay@.len(),
            hay_len == hay@.len(),
            forall|m: int| 0 <= m < j ==> hay@[at + m] == needle@[m],
        decreases needle@.len() - j,
    {
        if hay[at + j] != needle[j] {
            proof {
                let window = hay@.subrange(at as int, at + needle@.len());
                assert(window[j as int] == hay@[at + j]);
            }
            return false;
        }
        j += 1;
    }
    assert(hay@.subrange(at as int, at + needle@.len()) =~= needle@);
    true
}

/// The first offset at which `needle` stands in `hay`.
pub fn find_bytes(hay: &[u8], needle: &[u8]) -> (r: Option<usize>)
    ensures
        match r {
            Some(i) => first_occurrence(hay@, needle@) == Some(i as int),
            None => first_occurrence(hay@, needle@) is None,
        },
{
    if needle.len() > hay.len() {
        return None;
    }
    if needle.len() == 0 {
        assert(hay@.subrange(0, 0) =~= needle@);
        return Some(0);
    }
    let last = hay.len() - needle.len();
    let mut i: usize = 0;
    while i <= last
        invariant
            i <= last + 1,
            last + needle@.len() == hay@.len(),
            last < usize::MAX,
            first_occurrence(hay@, needle@) == first_occurrence_from(hay@, needle@, i as int),
        decreases last + 1 - i,
    {
        if matches_at(hay, needle, i) {
            return Some(i);
        }
        i += 1;
    }
    None
}

/// The byte offset of the first match of the needle in the haystack, letter
/// case ignored: both are lowercased, and the offset is one into the lowercased
/// haystack.
pub open spec fn case_insensitive_match(haystack: Seq<char>, needle: Seq<char>) -> Option<int> {
    first_occurrence(encode_utf8(lowercase_of(haystack)), encode_utf8(lowercase_of(needle)))
}

/// Finds the first match of the needle in the haystack, letter case ignored.
pub fn find_case_insensitive(haystack: &str, needle: &str) -> (r: Option<usize>)
    ensures
        match r {
            Some(i) => case_insensitive_match(haystack@, needle@) == Some(i as int),
            None => case_insensitive_match(haystack@, needle@) is None,
        },
{
    let h = lowercase(haystack);
    let n = lowercase(needle);
    find_bytes(h.as_str().as_bytes(), n.as_str().as_bytes())
}

/// The nearest character boundary at or before an offset.
pub open spec fn floor_boundary(bytes: Seq<u8>, i: int) -> int
    decreases i,
{
    if i <= 0 {
        0
    } else if i <= bytes.len() && is_char_boundary(bytes, i) {
        i
    } else {
        floor_boundary(bytes, i - 1)
    }
}

/// From the end of a text on, the nearest boundary before an offset is the
/// end.
proof fn lemma_floor_beyond_end(bytes: Seq<u8>, i: int)
    requires
        valid_utf8(bytes),
        i >= bytes.len(),
    ensures
        floor_boundary(bytes, i) == bytes.len(),
    decreases i,
{
    is_char_boundary_start_end_of_seq(bytes);
    if i > bytes.len() {
        lemma_floor_beyond_end(bytes, i - 1);
    }
}

/// The nearest character boundary of the text at or before the offset.
pub fn floor_char_boundary(text: &str, offset: usize) -> (r: usize)
    ensures
        r == floor_boundary(text.spec_bytes(), offset as int),
        r <= offset,
        r <= text.spec_bytes().len(),
        is_char_boundary(text.spec_bytes(), r as int),
{
    let len = text.as_bytes().len();
    proof {
        encode_utf8_valid_utf8(text@);
        is_char_boundary_start_end_of_seq(text.spec_bytes());
        if offset > len {
            lemma_floor_beyond_end(text.spec_bytes(), offset as int);
        }
    }
    let mut r = if offset > len {
        len
    } else {
        offset
    };
    while r > 0 && !text.is_char_boundary(r)
        invariant
            r <= offset,
            r <= len,
            len == text.spec_bytes().len(),
            valid_utf8(text.spec_bytes()),
            floor_boundary(text.spec_bytes(), offset as int) == floor_boundary(
                text.spec_bytes(),
                r as int,
            ),
            is_char_boundary(text.spec_bytes(), 0),
        decreases r,
    {
        r -= 1;
    }
    r
}

/// The bounds of the window around an anchor: up to 100 bytes before it and up
/// to 200 from it on, within the text, each bound on the nearest character
/// boundary at or before it.
pub open spec fn window_bounds(bytes: Seq<u8>, anchor: int) -> (int, int) {
    let raw_end = if anchor + WINDOW_AFTER < bytes.len() {
        anchor + WINDOW_AFTER
    } else {
        bytes.len() as int
    };
    let end = floor_boundary(bytes, raw_end);
    let raw_start = if anchor < WINDOW_BEFORE {
        0
    } else {
        anchor - WINDOW_BEFORE
    };
    let start = floor_boundary(
        bytes,
        if raw_start < end {
            raw_start
        } else {
            end
        },
    );
    (start, end)
}

/// The text of the window around an anchor.
pub open spec fn window_of(text: Seq<char>, anchor: int) -> Seq<char> {
    let bytes = encode_utf8(text);
    let (start, end) = window_bounds(bytes, anchor);
    decode_utf8(bytes.subrange(start, end))
}

/// A boundary of a text is a boundary of what follows an earlier boundary.
proof fn lemma_boundary_of_tail(bytes: Seq<u8>, start: int, end: int)
    requires
        valid_utf8(bytes),
        0 <= start <= end <= bytes.len(),
        is_char_boundary(bytes, start),
        is_char_boundary(bytes, end),
    ensures
        valid_utf8(bytes.subrange(start, bytes.len() as int)),
        is_char_boundary(bytes.subrange(start, bytes.len() as int), end - start),
{
    let tail = bytes.subrange(start, bytes.len() as int);
    valid_utf8_split(bytes, start);
    is_char_boundary_start_end_of_seq(tail);
    if start < end && end < bytes.len() {
        is_char_boundary_iff_not_is_continuation_byte(bytes, end);
        is_char_boundary_iff_not_is_continuation_byte(tail, end - start);
        assert(tail[end - start] == bytes[end]);
    }
}

/// A boundary of a text is a boundary of what precedes a later boundary.
proof fn lemma_boundary_of_head(bytes: Seq<u8>, start: int, end: int)
    requires
        valid_utf8(bytes),
        0 <= start <= end <= bytes.len(),
        is_char_boundary(bytes, start),
        is_char_boundary(bytes, end),
    ensures
        valid_utf8(bytes.subrange(0, end)),
        is_char_boundary(bytes.subrange(0, end), start),
{
    let head = bytes.subrange(0, end);
    valid_utf8_split(bytes, end);
    is_char_boundary_start_end_of_seq(head);
    if 0 < start && start < end {
        is_char_boundary_iff_not_is_continuation_byte(bytes, start);
        is_char_boundary_iff_not_is_continuation_byte(head, start);
        assert(head[start] == bytes[start]);
    }
}

/// The nearest boundary at or before an offset is a boundary of the text, at or
/// before the offset.
pub proof fn lemma_floor_boundary(bytes: Seq<u8>, i: int)
    requires
        valid_utf8(bytes),
    ensures
        0 <= floor_boundary(bytes, i) <= bytes.len(),
        i >= 0 ==> floor_boundary(bytes, i) <= i,
        is_char_boundary(bytes, floor_boundary(bytes, i)),
    decreases i,
{
    is_char_boundary_start_end_of_seq(bytes);
    if i > 0 && !(i <= bytes.len() && is_char_boundary(bytes, i)) {
        lemma_floor_boundary(bytes, i - 1);
    }
}

/// A window is a piece of the text: it begins and ends between characters, and
/// holds the characters between its ends, unchanged and in order.
pub proof fn law_window_is_part_of_text(text: Seq<char>, anchor: int)
    requires
        0 <= anchor,
    ensures
        exists|i: int, j: int|
            0 <= i <= j <= text.len() && window_of(text, anchor) == #[trigger] text.subrange(i, j),
{
    let bytes = encode_utf8(text);
    let (start, end) = window_bounds(bytes, anchor);
    encode_utf8_valid_utf8(text);
    encode_utf8_decode_utf8(text);
    let raw_end = if anchor + WINDOW_AFTER < bytes.len() {
        anchor + WINDOW_AFTER
    } else {
        bytes.len() as int
    };
    lemma_floor_boundary(bytes, raw_end);
    let raw_start = if anchor < WINDOW_BEFORE {
        0
    } else {
        anchor - WINDOW_BEFORE
    };
    let clipped = if raw_start < end {
        raw_start
    } else {
        end
    };
    lemma_floor_boundary(bytes, clipped);
    assert(0 <= start <= end <= bytes.len());
    let head = bytes.subrange(0, end);
    lemma_boundary_of_head(bytes, start, end);
    decode_utf8_split(bytes, end);
    decode_utf8_split(head, start);
    let before = decode_utf8(head.subrange(0, start));
    let inside = decode_utf8(head.subrange(start, end));
    let after = decode_utf8(bytes.subrange(end, bytes.len() as int));
    assert(head.subrange(start, head.len() as int) =~= bytes.subrange(start, end));
    assert(text =~= before + inside + after);
    assert(inside == window_of(text, anchor));
    let i = before.len() as int;
    let j = i + inside.len();
    assert(text.subrange(i, j) =~= inside);
}

/// Cuts the window around a byte offset out of the text.
pub fn window(text: &str, anchor: usize) -> (r: String)
    ensures
        r@ == window_of(text@, anchor as int),
{
    let len = text.as_bytes().len();
    let raw_end = if anchor < len && len - anchor > WINDOW_AFTER {
        anchor + WINDOW_AFTER
    } else {
        len
    };
    let end = floor_char_boundary(text, raw_end);
    let raw_start = if anchor < WINDOW_BEFORE {
        0
    } else {
        anchor - WINDOW_BEFORE
    };
    let start = floor_char_boundary(
        text,
        if raw_start < end {
            raw_start
        } else {
            end
        },
    );
    let ghost bytes = text.spec_bytes();
    proof {
        encode_utf8_valid_utf8(text@);
        lemma_boundary_of_tail(bytes, start as int, end as int);
    }
    let (_, tail) = text.split_at(start);
    let (cut, _) = tail.split_at(end - start);
    proof {
        assert(bytes == encode_utf8(text@));
        assert(window_bounds(bytes, anchor as int) == (start as int, end as int));
        assert(cut.spec_bytes() =~= bytes.subrange(start as int, end as int));
        encode_utf8_decode_utf8(cut@);
    }
    String::from_str(cut)
}

/// The first characters of a text, at most `count` of them.
pub open spec fn leading_chars(text: Seq<char>, count: nat) -> Seq<char> {
    if count < text.len() {
        text.take(count as int)
    } else {
        text
    }
}

/// The first offset at which one of the terms matches the text, letter case
/// ignored; the terms are tried in order, blank ones passed over, and the first
/// that matches at all decides.
pub open spec fn anchor_of(text: Seq<char>, terms: Seq<Seq<char>>) -> Option<int>
    decreases terms.len(),
{
    if terms.len() == 0 {
        None
    } else if !blank(terms.first()) && case_insensitive_match(text, terms.first()) is Some {
        case_insensitive_match(text, terms.first())
    } else {
        anchor_of(text, terms.drop_first())
    }
}

/// The text with the matches of each term that is not blank emphasized, term
/// after term. A term whose pattern cannot be built changes nothing.
pub open spec fn highlighted(text: Seq<char>, terms: Seq<Seq<char>>) -> Seq<char>
    decreases terms.len(),
{
    if terms.len() == 0 {
        text
    } else {
        let before = highlighted(text, terms.drop_last());
        if blank(terms.last()) {
            before
        } else {
            match emphasized_matches_of(regex_escaped_of(terms.last()), before) {
                Some(s) => s,
                None => before,
            }
        }
    }
}

/// The snippet of a text for the raw terms of a query: none for an empty text;
/// else the window around the anchor, or the first 200 characters where no term
/// matches, with the matches of the terms emphasized.
pub open spec fn snippet_of(text: Seq<char>, terms: Seq<Seq<char>>) -> Option<Seq<char>> {
    if text.len() == 0 {
        None
    } else {
        let plain = match anchor_of(text, terms) {
            Some(anchor) => window_of(text, anchor),
            None => leading_chars(text, PLAIN_CHARS as nat),
        };
        Some(highlighted(plain, terms))
    }
}

/// Wraps every match of a query term in the snippet in emphasis markers,
/// letter case ignored and kept.
pub fn highlight_terms(snippet: &str, terms: &Vec<String>) -> (r: String)
    ensures
        r@ == highlighted(snippet@, texts(terms@)),
{
    let mut s = String::from_str(snippet);
    let mut i: usize = 0;
    proof {
        assert(texts(terms@).take(0) =~= Seq::<Seq<char>>::empty());
    }
    while i < terms.len()
        invariant
            i <= terms.len(),
            s@ == highlighted(snippet@, texts(terms@).take(i as int)),
        decreases terms.len() - i,
    {
        proof {
            assert(texts(terms@).take(i + 1).drop_last() =~= texts(terms@).take(i as int));
            assert(texts(terms@).take(i + 1).last() == terms@[i as int]@);
        }
        let term = terms[i].as_str();
        if !is_blank(term) {
            let pattern = regex_escape(term);
            match emphasize_matches(pattern.as_str(), s.as_str()) {
                Some(next) => {
                    s = next;
                },
                None => {},
            }
        }
        i += 1;
    }
    proof {
        assert(texts(terms@).take(i as int) =~= texts(terms@));
    }
    s
}

/// Finds the anchor of a snippet.
pub fn find_anchor(text: &str, terms: &Vec<String>) -> (r: Option<usize>)
    ensures
        match r {
            Some(i) => anchor_of(text@, texts(terms@)) == Some(i as int),
            None => anchor_of(text@, texts(terms@)) is None,
        },
{
    let mut i: usize = 0;
    let ghost all = texts(terms@);
    proof {
        assert(all.skip(0) =~= all);
    }
    while i < terms.len()
        invariant
            i <= terms.len(),
            all == texts(terms@),
            anchor_of(text@, all) == anchor_of(text@, all.skip(i as int)),
        decreases terms.len() - i,
    {
        proof {
            assert(all.skip(i as int).first() == terms@[i as int]@);
            assert(all.skip(i as int).drop_first() =~= all.skip(i + 1));
        }
        let term = terms[i].as_str();
        if !is_blank(term) {
            match find_case_insensitive(text, term) {
                Some(at) => {
                    return Some(at);
                },
                None => {},
            }
        }
        i += 1;
    }
    None
}

/// Makes the snippet of a stored text for the raw terms of a query.
pub fn snippet_from_text(text: &str, raw_terms: &Vec<String>) -> (r: Option<String>)
    ensures
        match r {
            Some(s) => snippet_of(text@, texts(raw_terms@)) == Some(s@),
            None => snippet_of(text@, texts(raw_terms@)) is None,
        },
{
    if text.is_empty() {
        return None;
    }
    let plain = match find_anchor(text, raw_terms) {
        Some(anchor) => window(text, anchor),
        None => {
            let chars = text.unicode_len();
            let take = if chars > PLAIN_CHARS {
                PLAIN_CHARS
            } else {
                chars
            };
            let head = String::from_str(text.substring_char(0, take));
            assert(head@ =~= leading_chars(text@, PLAIN_CHARS as nat));
            head
        },
    };
    Some(highlight_terms(plain.as_str(), raw_terms))
}

} // verus!
