use search_engine::tokenizer::{analyze_tokens, is_stopword, tokenize, TOKEN_PATTERN};

fn stems(text: &str) -> Vec<String> {
    tokenize(text).into_iter().map(|(w, _)| w).collect()
}

#[test]
fn basic_tokenize() {
    let t = tokenize("Running, runner's run!");
    assert!(t.iter().any(|(w, _)| w == "run"));
}

#[test]
fn it_filters_stopwords() {
    let toks = tokenize("The quick brown fox and the lazy dog");
    let words: Vec<String> = toks.into_iter().map(|(w, _)| w).collect();
    assert!(!words.contains(&"the".to_string()));
    assert!(!words.contains(&"and".to_string()));
}

#[test]
fn stems_lowercases_and_keeps_positions() {
    let toks = tokenize("Running Runners RUN! The café's menu.");
    let expected: Vec<(String, usize)> = vec![
        ("run".to_string(), 0),
        ("runner".to_string(), 1),
        ("run".to_string(), 2),
        ("café".to_string(), 4),
        ("menu".to_string(), 5),
    ];
    assert_eq!(toks, expected);
}

#[test]
fn composes_decomposed_accents() {
    // "cafe" followed by a combining acute accent is composed by NFKC.
    assert_eq!(stems("cafe\u{301}"), vec!["café".to_string()]);
}

#[test]
fn folds_compatibility_characters() {
    // The ligature U+FB01 and fullwidth letters have compatibility forms.
    assert_eq!(stems("\u{fb01}le"), vec!["file".to_string()]);
    assert_eq!(stems("\u{ff32}\u{ff55}\u{ff53}\u{ff54}"), vec!["rust".to_string()]);
}

#[test]
fn token_pattern_takes_digits_underscores_and_apostrophes_after_a_letter() {
    assert_eq!(stems("x86_64 42 a1"), vec!["x86_64".to_string(), "a1".to_string()]);
    assert_eq!(tokenize("42 7"), Vec::<(String, usize)>::new());
    // A contraction is one token, and a stopword by its exact surface.
    assert_eq!(tokenize("don't isn't"), Vec::<(String, usize)>::new());
}

#[test]
fn the_token_pattern_starts_with_a_letter() {
    assert_eq!(TOKEN_PATTERN, r"(?u)\p{L}[\p{L}\p{N}_']*");
    assert_eq!(tokenize("_x 9lives it's_a"), vec![("x".to_string(), 0), ("live".to_string(), 1), ("it's_a".to_string(), 2)]);
}

#[test]
fn empty_text_has_no_tokens() {
    assert!(tokenize("").is_empty());
    assert!(tokenize("  \n\t ... !!").is_empty());
}

#[test]
fn stopwords_are_matched_by_exact_surface() {
    assert!(is_stopword("the"));
    assert!(is_stopword("a"));
    assert!(is_stopword("yourselves"));
    assert!(is_stopword("won't"));
    assert!(is_stopword("let's"));
    assert!(!is_stopword("The"));
    assert!(!is_stopword("rust"));
    assert!(!is_stopword(""));
    assert!(!is_stopword("thee"));
    assert!(!is_stopword("th"));
}

#[test]
fn every_stopword_alone_yields_nothing() {
    let words = [
        "a", "about", "above", "after", "again", "against", "all", "am", "an", "and", "any",
        "are", "aren't", "as", "at", "be", "because", "been", "before", "being", "below",
        "between", "both", "but", "by", "can", "can't", "cannot", "could", "couldn't", "did",
        "didn't", "do", "does", "doesn't", "doing", "don't", "down", "during", "each", "few",
        "for", "from", "further", "had", "hadn't", "has", "hasn't", "have", "haven't", "having",
        "he", "he'd", "he'll", "he's", "her", "here", "here's", "hers", "herself", "him",
        "himself", "his", "how", "how's", "i", "i'd", "i'll", "i'm", "i've", "if", "in", "into",
        "is", "isn't", "it", "it's", "its", "itself", "let's", "me", "more", "most", "mustn't",
        "my", "myself", "no", "nor", "not", "of", "off", "on", "once", "only", "or", "other",
        "ought", "our", "ours", "ourselves", "out", "over", "own", "same", "she", "she'd",
        "she'll", "she's", "should", "shouldn't", "so", "some", "such", "than", "that", "that's",
        "the", "their", "theirs", "them", "themselves", "then", "there", "there's", "these",
        "they", "they'd", "they'll", "they're", "they've", "this", "those", "through", "to",
        "too", "under", "until", "up", "very", "was", "wasn't", "we", "we'd", "we'll", "we're",
        "we've", "were", "weren't", "what", "what's", "when", "when's", "where", "where's",
        "which", "while", "who", "who's", "whom", "why", "why's", "with", "won't", "would",
        "wouldn't", "you", "you'd", "you'll", "you're", "you've", "your", "yours", "yourself",
        "yourselves",
    ];
    assert_eq!(words.len(), 174);
    for w in words {
        assert!(is_stopword(w), "{w}");
        assert!(tokenize(w).is_empty(), "{w}");
    }
}

#[test]
fn a_token_that_is_no_stopword_yields_one_term() {
    for w in ["rust", "systems", "programming", "x", "zzzzqqqq"] {
        assert!(!is_stopword(w));
        let t = tokenize(w);
        assert_eq!(t.len(), 1, "{w}");
        assert_eq!(t[0].1, 0);
    }
}

#[test]
fn analyze_tokens_numbers_tokens_before_filtering() {
    let tokens: Vec<String> =
        ["the", "quick", "and", "dogs", "of"].iter().map(|s| s.to_string()).collect();
    let out = analyze_tokens(&tokens);
    assert_eq!(out, vec![("quick".to_string(), 1), ("dog".to_string(), 3)]);
    assert!(analyze_tokens(&Vec::new()).is_empty());
}

#[test]
fn analysis_of_joined_stems_gives_the_same_stems() {
    let first = tokenize("Rust is great. rust systems programming and the dogs");
    let first_stems: Vec<String> = first.iter().map(|(w, _)| w.clone()).collect();
    let joined = first_stems.join(" ");
    let second = tokenize(&joined);
    let second_stems: Vec<String> = second.iter().map(|(w, _)| w.clone()).collect();
    assert_eq!(first_stems, second_stems);
    for pair in second.windows(2) {
        assert!(pair[0].1 < pair[1].1);
    }
    for pair in first.windows(2) {
        assert!(pair[0].1 < pair[1].1);
    }
}

#[test]
fn tokenize_is_repeatable() {
    let text = "Learning Rust: the systems programming language.";
    assert_eq!(tokenize(text), tokenize(text));
}

#[test]
fn a_stem_that_is_a_stopword_does_not_survive_a_second_analysis() {
    // "whiles" is no stopword, but its stem is one.
    assert_eq!(tokenize("whiles"), vec![("while".to_string(), 0)]);
    assert!(tokenize("while").is_empty());
}

#[test]
fn any_text_is_tokenized() {
    let texts = [
        "İstanbul'da ÇAĞRI ŞİMDİ",
        "ΟΔΥΣΣΕΥΣ ὈΔΥΣΣΕΎΣ ς σ Σ",
        "日本語のテキスト 한국어 텍스트 中文文本",
        "مرحبا بالعالم שלום עולם",
        "emoji 😀 mixed👍🏽text ZWJ 👨‍👩‍👧",
        "a' a'' 's y's '' ''' o'clock rock'n'roll",
        "e\u{301}\u{302}\u{303} combining\u{20dd}",
        "ﬃ ﬄ ㍿ ① ½ ℌ ǅ ǆ ß ẞ",
        "\u{0}\u{1}\u{7f}\u{80}\u{ad}\u{200b}\u{feff}\u{fffd}\u{10ffff}",
        "generously generousness skies dying lying tying news inning outing canning herring",
        "yyyy aeiou bcdfg exceed proceed succeed ied ies sses ss us",
    ];
    for text in texts {
        let tokens = tokenize(text);
        for pair in tokens.windows(2) {
            assert!(pair[0].1 < pair[1].1);
        }
        for (stem, _) in &tokens {
            assert!(!stem.is_empty());
        }
        assert_eq!(tokens, tokenize(text));
    }
    let long = "Running runners run. ".repeat(2000);
    assert_eq!(tokenize(&long).len(), 6000);
}
