//! The analyzer: from raw text to the ordered stream of stemmed terms.
//!
//! A text is normalized to Unicode form KC, lowercased, cut into tokens by a
//! fixed pattern, cleared of stopwords and stemmed. Normalization, lowercasing,
//! pattern matching and stemming are done by outside code; what they return is
//! named here, and everything built on top of those names is proved.

use vstd::prelude::*;
use crate::strings::{str_eq, texts};

verus! {

/// What Unicode normalization to form KC makes of a text.
pub uninterp spec fn nfkc_of(text: Seq<char>) -> Seq<char>;

/// What lowercasing makes of a text.
pub uninterp spec fn lowercase_of(text: Seq<char>) -> Seq<char>;

/// The successive non-overlapping matches of a pattern in a text, from left to
/// right, or `None` where the pattern is not a regular expression.
pub uninterp spec fn regex_matches_of(pattern: Seq<char>, text: Seq<char>) -> Option<Seq<Seq<char>>>;

/// The stem that the English Snowball stemmer gives a word.
pub uninterp spec fn english_stem_of(word: Seq<char>) -> Seq<char>;

/// Calls `UnicodeNormalization::nfkc` of the crate unicode-normalization on the
/// text and collects the characters. Trusted: the result is the crate's
/// normalization of the argument, a function of the text alone.
#[verifier::external_body]
fn nfkc(text: &str) -> (r: String)
    ensures
        r@ == nfkc_of(text@),
{
    unicode_normalization::UnicodeNormalization::nfkc(text).collect::<String>()
}

/// Calls `str::to_lowercase`. Trusted: the result is std's lowercase form of
/// the argument, a function of the text alone.
#[verifier::external_body]
pub(crate) fn lowercase(text: &str) -> (r: String)
    ensures
        r@ == lowercase_of(text@),
{
    text.to_lowercase()
}

/// Compiles the pattern with `regex::Regex::new` and walks `Regex::find_iter`
/// over the text. Trusted: `None` exactly when the pattern does not compile,
/// else the matched substrings in the order the iterator yields them.
#[verifier::external_body]
fn regex_matches(pattern: &str, text: &str) -> (r: Option<Vec<String>>)
    ensures
        match r {
            Some(found) => regex_matches_of(pattern@, text@) == Some(texts(found@)),
            None => regex_matches_of(pattern@, text@) is None,
        },
{
    let re = regex::Regex::new(pattern).ok()?;
    Some(re.find_iter(text).map(|m| m.as_str().to_owned()).collect())
}

/// Calls `Stemmer::stem` of the crate rust-stemmers on a stemmer created for
/// `Algorithm::English`. Trusted: the result is that stemmer's stem of the word,
/// a function of the word alone.
#[verifier::external_body]
fn english_stem(word: &str) -> (r: String)
    ensures
        r@ == english_stem_of(word@),
{
    rust_stemmers::Stemmer::create(rust_stemmers::Algorithm::English).stem(word).into_owned()
}

/// The fixed English stopword list: a token with one of these surfaces is
/// dropped before stemming.
pub open spec fn stopword(t: Seq<char>) -> bool {
    t == "a"@
    || t == "about"@
    || t == "above"@
    || t == "after"@
    || t == "again"@
    || t == "against"@
    || t == "all"@
    || t == "am"@
    || t == "an"@
    || t == "and"@
    || t == "any"@
    || t == "are"@
    || t == "aren't"@
    || t == "as"@
    || t == "at"@
    || t == "be"@
    || t == "because"@
    || t == "been"@
    || t == "before"@
    || t == "being"@
    || t == "below"@
    || t == "between"@
    || t == "both"@
    || t == "but"@
    || t == "by"@
    || t == "can"@
    || t == "can't"@
    || t == "cannot"@
    || t == "could"@
    || t == "couldn't"@
    || t == "did"@
    || t == "didn't"@
    || t == "do"@
    || t == "does"@
    || t == "doesn't"@
    || t == "doing"@
    || t == "don't"@
    || t == "down"@
    || t == "during"@
    || t == "each"@
    || t == "few"@
    || t == "for"@
    || t == "from"@
    || t == "further"@
    || t == "had"@
    || t == "hadn't"@
    || t == "has"@
    || t == "hasn't"@
    || t == "have"@
    || t == "haven't"@
    || t == "having"@
    || t == "he"@
    || t == "he'd"@
    || t == "he'll"@
    || t == "he's"@
    || t == "her"@
    || t == "here"@
    || t == "here's"@
    || t == "hers"@
    || t == "herself"@
    || t == "him"@
    || t == "himself"@
    || t == "his"@
    || t == "how"@
    || t == "how's"@
    || t == "i"@
    || t == "i'd"@
    || t == "i'll"@
    || t == "i'm"@
    || t == "i've"@
    || t == "if"@
    || t == "in"@
    || t == "into"@
    || t == "is"@
    || t == "isn't"@
    || t == "it"@
    || t == "it's"@
    || t == "its"@
    || t == "itself"@
    || t == "let's"@
    || t == "me"@
    || t == "more"@
    || t == "most"@
    || t == "mustn't"@
    || t == "my"@
    || t == "myself"@
    || t == "no"@
    || t == "nor"@
    || t == "not"@
    || t == "of"@
    || t == "off"@
    || t == "on"@
    || t == "once"@
    || t == "only"@
    || t == "or"@
    || t == "other"@
    || t == "ought"@
    || t == "our"@
    || t == "ours"@
    || t == "ourselves"@
    || t == "out"@
    || t == "over"@
    || t == "own"@
    || t == "same"@
    || t == "she"@
    || t == "she'd"@
    || t == "she'll"@
    || t == "she's"@
    || t == "should"@
    || t == "shouldn't"@
    || t == "so"@
    || t == "some"@
    || t == "such"@
    || t == "than"@
    || t == "that"@
    || t == "that's"@
    || t == "the"@
    || t == "their"@
    || t == "theirs"@
    || t == "them"@
    || t == "themselves"@
    || t == "then"@
    || t == "there"@
    || t == "there's"@
    || t == "these"@
    || t == "they"@
    || t == "they'd"@
    || t == "they'll"@
    || t == "they're"@
    || t == "they've"@
    || t == "this"@
    || t == "those"@
    || t == "through"@
    || t == "to"@
    || t == "too"@
    || t == "under"@
    || t == "until"@
    || t == "up"@
    || t == "very"@
    || t == "was"@
    || t == "wasn't"@
    || t == "we"@
    || t == "we'd"@
    || t == "we'll"@
    || t == "we're"@
    || t == "we've"@
    || t == "were"@
    || t == "weren't"@
    || t == "what"@
    || t == "what's"@
    || t == "when"@
    || t == "when's"@
    || t == "where"@
    || t == "where's"@
    || t == "which"@
    || t == "while"@
    || t == "who"@
    || t == "who's"@
    || t == "whom"@
    || t == "why"@
    || t == "why's"@
    || t == "with"@
    || t == "won't"@
    || t == "would"@
    || t == "wouldn't"@
    || t == "you"@
    || t == "you'd"@
    || t == "you'll"@
    || t == "you're"@
    || t == "you've"@
    || t == "your"@
    || t == "yours"@
    || t == "yourself"@
    || t == "yourselves"@
}

/// Whether the token is a stopword, by its exact surface.
pub fn is_stopword(token: &str) -> (r: bool)
    ensures
        r == stopword(token@),
{
    str_eq(token, "a")
    || str_eq(token, "about")
    || str_eq(token, "above")
    || str_eq(token, "after")
    || str_eq(token, "again")
    || str_eq(token, "against")
    || str_eq(token, "all")
    || str_eq(token, "am")
    || str_eq(token, "an")
    || str_eq(token, "and")
    || str_eq(token, "any")
    || str_eq(token, "are")
    || str_eq(token, "aren't")
    || str_eq(token, "as")
    || str_eq(token, "at")
    || str_eq(token, "be")
    || str_eq(token, "because")
    || str_eq(token, "been")
    || str_eq(token, "before")
    || str_eq(token, "being")
    || str_eq(token, "below")
    || str_eq(token, "between")
    || str_eq(token, "both")
    || str_eq(token, "but")
    || str_eq(token, "by")
    || str_eq(token, "can")
    || str_eq(token, "can't")
    || str_eq(token, "cannot")
    || str_eq(token, "could")
    || str_eq(token, "couldn't")
    || str_eq(token, "did")
    || str_eq(token, "didn't")
    || str_eq(token, "do")
    || str_eq(token, "does")
    || str_eq(token, "doesn't")
    || str_eq(token, "doing")
    || str_eq(token, "don't")
    || str_eq(token, "down")
    || str_eq(token, "during")
    || str_eq(token, "each")
    || str_eq(token, "few")
    || str_eq(token, "for")
    || str_eq(token, "from")
    || str_eq(token, "further")
    || str_eq(token, "had")
    || str_eq(token, "hadn't")
    || str_eq(token, "has")
    || str_eq(token, "hasn't")
    || str_eq(token, "have")
    || str_eq(token, "haven't")
    || str_eq(token, "having")
    || str_eq(token, "he")
    || str_eq(token, "he'd")
    || str_eq(token, "he'll")
    || str_eq(token, "he's")
    || str_eq(token, "her")
    || str_eq(token, "here")
    || str_eq(token, "here's")
    || str_eq(token, "hers")
    || str_eq(token, "herself")
    || str_eq(token, "him")
    || str_eq(token, "himself")
    || str_eq(token, "his")
    || str_eq(token, "how")
    || str_eq(token, "how's")
    || str_eq(token, "i")
    || str_eq(token, "i'd")
    || str_eq(token, "i'll")
    || str_eq(token, "i'm")
    || str_eq(token, "i've")
    || str_eq(token, "if")
    || str_eq(token, "in")
    || str_eq(token, "into")
    || str_eq(token, "is")
    || str_eq(token, "isn't")
    || str_eq(token, "it")
    || str_eq(token, "it's")
    || str_eq(token, "its")
    || str_eq(token, "itself")
    || str_eq(token, "let's")
    || str_eq(token, "me")
    || str_eq(token, "more")
    || str_eq(token, "most")
    || str_eq(token, "mustn't")
    || str_eq(token, "my")
    || str_eq(token, "myself")
    || str_eq(token, "no")
    || str_eq(token, "nor")
    || str_eq(token, "not")
    || str_eq(token, "of")
    || str_eq(token, "off")
    || str_eq(token, "on")
    || str_eq(token, "once")
    || str_eq(token, "only")
    || str_eq(token, "or")
    || str_eq(token, "other")
    || str_eq(token, "ought")
    || str_eq(token, "our")
    || str_eq(token, "ours")
    || str_eq(token, "ourselves")
    || str_eq(token, "out")
    || str_eq(token, "over")
    || str_eq(token, "own")
    || str_eq(token, "same")
    || str_eq(token, "she")
    || str_eq(token, "she'd")
    || str_eq(token, "she'll")
    || str_eq(token, "she's")
    || str_eq(token, "should")
    || str_eq(token, "shouldn't")
    || str_eq(token, "so")
    || str_eq(token, "some")
    || str_eq(token, "such")
    || str_eq(token, "than")
    || str_eq(token, "that")
    || str_eq(token, "that's")
    || str_eq(token, "the")
    || str_eq(token, "their")
    || str_eq(token, "theirs")
    || str_eq(token, "them")
    || str_eq(token, "themselves")
    || str_eq(token, "then")
    || str_eq(token, "there")
    || str_eq(token, "there's")
    || str_eq(token, "these")
    || str_eq(token, "they")
    || str_eq(token, "they'd")
    || str_eq(token, "they'll")
    || str_eq(token, "they're")
    || str_eq(token, "they've")
    || str_eq(token, "this")
    || str_eq(token, "those")
    || str_eq(token, "through")
    || str_eq(token, "to")
    || str_eq(token, "too")
    || str_eq(token, "under")
    || str_eq(token, "until")
    || str_eq(token, "up")
    || str_eq(token, "very")
    || str_eq(token, "was")
    || str_eq(token, "wasn't")
    || str_eq(token, "we")
    || str_eq(token, "we'd")
    || str_eq(token, "we'll")
    || str_eq(token, "we're")
    || str_eq(token, "we've")
    || str_eq(token, "were")
    || str_eq(token, "weren't")
    || str_eq(token, "what")
    || str_eq(token, "what's")
    || str_eq(token, "when")
    || str_eq(token, "when's")
    || str_eq(token, "where")
    || str_eq(token, "where's")
    || str_eq(token, "which")
    || str_eq(token, "while")
    || str_eq(token, "who")
    || str_eq(token, "who's")
    || str_eq(token, "whom")
    || str_eq(token, "why")
    || str_eq(token, "why's")
    || str_eq(token, "with")
    || str_eq(token, "won't")
    || str_eq(token, "would")
    || str_eq(token, "wouldn't")
    || str_eq(token, "you")
    || str_eq(token, "you'd")
    || str_eq(token, "you'll")
    || str_eq(token, "you're")
    || str_eq(token, "you've")
    || str_eq(token, "your")
    || str_eq(token, "yours")
    || str_eq(token, "yourself")
    || str_eq(token, "yourselves")
}

/// The token pattern: a Unicode letter followed by any number of letters,
/// numeric digits, underscores or apostrophes.
pub const TOKEN_PATTERN: &'static str = "(?u)\\p{L}[\\p{L}\\p{N}_']*";

/// The token pattern as a text.
pub open spec fn token_pattern() -> Seq<char> {
    TOKEN_PATTERN@
}

/// The model of a token stream: each stem with its position.
pub open spec fn token_stream(tokens: Seq<(String, usize)>) -> Seq<(Seq<char>, nat)> {
    tokens.map_values(|t: (String, usize)| (t.0@, t.1 as nat))
}

/// What the analyzer keeps of a sequence of matched tokens: every token that is
/// no stopword, stemmed, with its ordinal among all matched tokens.
pub open spec fn analyzed(tokens: Seq<Seq<char>>) -> Seq<(Seq<char>, nat)>
    decreases tokens.len(),
{
    if tokens.len() == 0 {
        Seq::empty()
    } else {
        let before = analyzed(tokens.drop_last());
        if stopword(tokens.last()) {
            before
        } else {
            before.push((english_stem_of(tokens.last()), (tokens.len() - 1) as nat))
        }
    }
}

/// The token stream of a raw text.
pub open spec fn tokens_of(text: Seq<char>) -> Seq<(Seq<char>, nat)> {
    match regex_matches_of(token_pattern(), lowercase_of(nfkc_of(text))) {
        Some(found) => analyzed(found),
        None => Seq::empty(),
    }
}

/// How many of the tokens are no stopwords.
pub open spec fn kept_count(tokens: Seq<Seq<char>>) -> nat
    decreases tokens.len(),
{
    if tokens.len() == 0 {
        0
    } else {
        kept_count(tokens.drop_last()) + if stopword(tokens.last()) { 0nat } else { 1nat }
    }
}

/// Filters the stopwords out of the matched tokens and stems the rest. A
/// token's position is its index in `tokens`, so positions skip the stopwords.
pub fn analyze_tokens(tokens: &Vec<String>) -> (r: Vec<(String, usize)>)
    ensures
        token_stream(r@) == analyzed(texts(tokens@)),
{
    let ghost all = texts(tokens@);
    let mut out: Vec<(String, usize)> = Vec::new();
    let mut i: usize = 0;
    assert(all.take(0) =~= Seq::<Seq<char>>::empty());
    assert(token_stream(out@) =~= analyzed(all.take(0)));
    while i < tokens.len()
        invariant
            i <= tokens.len(),
            all == texts(tokens@),
            all.len() == tokens.len(),
            token_stream(out@) == analyzed(all.take(i as int)),
        decreases tokens.len() - i,
    {
        let ghost prev = out@;
        proof {
            assert(all.take(i + 1).drop_last() =~= all.take(i as int));
            assert(all.take(i + 1).last() == tokens@[i as int]@);
        }
        if !is_stopword(tokens[i].as_str()) {
            let stem = english_stem(tokens[i].as_str());
            out.push((stem, i));
            assert(token_stream(out@) =~= token_stream(prev).push((stem@, i as nat)));
        }
        i += 1;
    }
    assert(all.take(i as int) =~= all);
    out
}

/// Tokenizes a text into (stem, position) pairs: normalization to form KC,
/// lowercasing, matching of the token pattern, stopword removal, stemming.
pub fn tokenize(text: &str) -> (r: Vec<(String, usize)>)
    ensures
        token_stream(r@) == tokens_of(text@),
{
    let normalized = nfkc(text);
    let lowered = lowercase(normalized.as_str());
    match regex_matches(TOKEN_PATTERN, lowered.as_str()) {
        Some(found) => analyze_tokens(&found),
        None => {
            let none: Vec<(String, usize)> = Vec::new();
            assert(token_stream(none@) =~= Seq::<(Seq<char>, nat)>::empty());
            none
        },
    }
}

/// Every entry of an analyzed stream stands for a token that is no stopword,
/// carries that token's stem and its index, and the entries come in strictly
/// increasing order of position; there are as many entries as tokens that are
/// no stopwords.
pub proof fn law_analyzed_entries(tokens: Seq<Seq<char>>)
    ensures
        analyzed(tokens).len() == kept_count(tokens),
        analyzed(tokens).len() <= tokens.len(),
        forall|k: int|
            0 <= k < analyzed(tokens).len() ==> {
                let e = #[trigger] analyzed(tokens)[k];
                &&& e.1 < tokens.len()
                &&& !stopword(tokens[e.1 as int])
                &&& e.0 == english_stem_of(tokens[e.1 as int])
            },
        forall|j: int, k: int|
            0 <= j < k < analyzed(tokens).len() ==> analyzed(tokens)[j].1 < analyzed(tokens)[k].1,
    decreases tokens.len(),
{
    if tokens.len() > 0 {
        law_analyzed_entries(tokens.drop_last());
    }
}

/// Tokens that are all stopwords yield no term.
pub proof fn law_stopwords_yield_nothing(tokens: Seq<Seq<char>>)
    requires
        forall|i: int| 0 <= i < tokens.len() ==> stopword(#[trigger] tokens[i]),
    ensures
        analyzed(tokens) == Seq::<(Seq<char>, nat)>::empty(),
    decreases tokens.len(),
{
    if tokens.len() > 0 {
        let init = tokens.drop_last();
        assert forall|i: int| 0 <= i < init.len() implies stopword(#[trigger] init[i]) by {
            assert(init[i] == tokens[i]);
        }
        law_stopwords_yield_nothing(init);
        assert(tokens.last() == tokens[tokens.len() - 1]);
    }
}

/// A stopword alone yields no term; any other token alone yields exactly one,
/// its stem at position 0.
pub proof fn law_stopword_completeness(token: Seq<char>)
    ensures
        stopword(token) ==> analyzed(seq![token]).len() == 0,
        !stopword(token) ==> analyzed(seq![token]) == seq![(english_stem_of(token), 0nat)],
{
    let one = seq![token];
    assert(one.drop_last() =~= Seq::<Seq<char>>::empty());
    assert(analyzed(one.drop_last()) =~= Seq::<(Seq<char>, nat)>::empty());
    if !stopword(token) {
        assert(analyzed(one) =~= seq![(english_stem_of(token), 0nat)]);
    }
}

/// Analysis is idempotent on stems that stay what they are: where every token
/// is no stopword and is its own stem, analysis gives the same tokens back,
/// each at its position, so the positions rise.
pub proof fn law_analysis_of_stems(tokens: Seq<Seq<char>>)
    requires
        forall|i: int|
            0 <= i < tokens.len() ==> !stopword(#[trigger] tokens[i]) && english_stem_of(tokens[i])
                == tokens[i],
    ensures
        analyzed(tokens) == Seq::new(tokens.len(), |i: int| (tokens[i], i as nat)),
    decreases tokens.len(),
{
    if tokens.len() > 0 {
        let init = tokens.drop_last();
        assert forall|i: int| 0 <= i < init.len() implies !stopword(#[trigger] init[i])
            && english_stem_of(init[i]) == init[i] by {
            assert(init[i] == tokens[i]);
        }
        law_analysis_of_stems(init);
        assert(tokens.last() == tokens[tokens.len() - 1]);
    }
    assert(analyzed(tokens) =~= Seq::new(tokens.len(), |i: int| (tokens[i], i as nat)));
}

} // verus!
