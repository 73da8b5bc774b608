use search_engine::builder::IndexBuilder;
use search_engine::dictionary::Dictionary;
use search_engine::docs::DocStore;
use search_engine::index::{InputDoc, Posting};
use search_engine::persist::{decode_postings, encode_postings};
use search_engine::query::{
    count_query_terms, plan_query, weighing_df, weighing_doc_count, AppState, SearchParams,
};
use search_engine::ranking::{clamp_k, count_hits, default_k, top_k, ScoredDoc};
use search_engine::search::{make_hits, text_paths, SearchResponse};
use search_engine::tokenizer::tokenize;

fn input(id: &str, body: &str) -> InputDoc {
    InputDoc {
        id: id.to_string(),
        title: format!("Title of {id}"),
        body: body.to_string(),
        url: None,
        timestamp: None,
    }
}

fn scored(doc_id: u32, score: f32) -> ScoredDoc {
    ScoredDoc { doc_id, score_bits: score.to_bits() }
}

fn ids(list: &[ScoredDoc]) -> Vec<u32> {
    list.iter().map(|s| s.doc_id).collect()
}

fn state_of(bodies: &[&str]) -> AppState {
    let mut b = IndexBuilder::new();
    for (i, body) in bodies.iter().enumerate() {
        b.ingest_doc(&input(&format!("doc{i}"), body)).unwrap();
    }
    let weights: Vec<Vec<u32>> =
        (0..b.num_terms()).map(|t| vec![0u32; b.raw_postings_of(t).len()]).collect();
    let index = b.finish(&weights).unwrap();
    AppState {
        index_paths_root: "idx".to_string(),
        dictionary: index.dictionary,
        docs: index.docs,
        num_docs: index.num_docs,
        admin_token: None,
    }
}

fn params(q: &str, k: usize) -> SearchParams {
    SearchParams { q: q.to_string(), k }
}

#[test]
fn k_defaults_to_ten_and_is_clamped_to_one_hundred() {
    assert_eq!(default_k(), 10);
    assert_eq!(clamp_k(0), 1);
    assert_eq!(clamp_k(1), 1);
    assert_eq!(clamp_k(2), 2);
    assert_eq!(clamp_k(100), 100);
    assert_eq!(clamp_k(101), 100);
    assert_eq!(clamp_k(500), 100);
    assert_eq!(clamp_k(usize::MAX), 100);
}

#[test]
fn top_k_orders_by_score_descending() {
    let all = vec![scored(0, 0.1), scored(1, 0.9), scored(2, 0.5), scored(3, 0.7)];
    assert_eq!(ids(&top_k(&all, 10)), vec![1, 3, 2, 0]);
    assert_eq!(ids(&top_k(&all, 4)), vec![1, 3, 2, 0]);
    assert_eq!(ids(&top_k(&all, 2)), vec![1, 3]);
    assert_eq!(ids(&top_k(&all, 1)), vec![1]);
    assert!(top_k(&all, 0).is_empty());
    assert!(top_k(&vec![], 5).is_empty());
    let best = top_k(&all, 2);
    assert_eq!(best[0].score_bits, 0.9f32.to_bits());
    assert_eq!(best[1].score_bits, 0.7f32.to_bits());
}

#[test]
fn top_k_keeps_the_given_order_among_equal_scores() {
    let all = vec![scored(5, 0.5), scored(3, 0.5), scored(9, 0.7), scored(1, 0.5), scored(4, 0.0)];
    assert_eq!(ids(&top_k(&all, 10)), vec![9, 5, 3, 1, 4]);
    assert_eq!(ids(&top_k(&all, 3)), vec![9, 5, 3]);
}

#[test]
fn top_k_of_many_is_the_head_of_the_full_ranking() {
    let all: Vec<ScoredDoc> =
        (0..500u32).map(|i| scored(i, ((i * 7919) % 101) as f32 / 101.0)).collect();
    let full = top_k(&all, 1000);
    assert_eq!(full.len(), 500);
    for pair in full.windows(2) {
        assert!(f32::from_bits(pair[0].score_bits) >= f32::from_bits(pair[1].score_bits));
    }
    let mut sorted_ids = ids(&full);
    sorted_ids.sort();
    assert_eq!(sorted_ids, (0..500u32).collect::<Vec<u32>>());
    for k in [1usize, 2, 10, 100, 499, 500] {
        assert_eq!(ids(&top_k(&all, k)), ids(&full[..k]));
    }
}

#[test]
fn k_beyond_the_hits_returns_the_hits() {
    let all = vec![scored(0, 0.3), scored(1, 0.2), scored(2, 0.1)];
    let k = clamp_k(500);
    assert_eq!(k, 100);
    let best = top_k(&all, k);
    assert_eq!(best.len(), 3);
    assert_eq!(ids(&best), vec![0, 1, 2]);
}

#[test]
fn repeated_ranking_is_identical() {
    let all = vec![scored(2, 0.5), scored(0, 0.5), scored(1, 0.9), scored(7, 0.5)];
    let a = ids(&top_k(&all, 3));
    for _ in 0..10 {
        assert_eq!(ids(&top_k(&all, 3)), a);
    }
}

#[test]
fn hits_are_the_documents_with_a_score_other_than_zero() {
    assert_eq!(count_hits(&vec![]), 0);
    assert_eq!(count_hits(&vec![scored(0, 0.0), scored(1, 0.0)]), 0);
    assert_eq!(count_hits(&vec![scored(0, 0.2), scored(1, 0.0), scored(2, 1.0e-38)]), 2);
}

#[test]
fn query_terms_are_counted_and_unknown_stems_dropped() {
    let mut d = Dictionary::new();
    d.intern("rust");
    d.intern("system");
    d.intern("program");
    let tokens = tokenize("Systems rust RUST unknownword the rusts programming");
    let counts = count_query_terms(&d, &tokens);
    assert_eq!(counts, vec![(1u32, 1u32), (0, 3), (2, 1)]);
    assert!(count_query_terms(&d, &vec![]).is_empty());
}

#[test]
fn plan_of_a_query_holds_tf_df_and_the_clamped_k() {
    let state = state_of(&["Rust is great. rust systems programming.", "Learning rust.", "Go."]);
    let plan = plan_query(&state, &params("rust RUST learning", 500));
    assert_eq!(plan.k, 100);
    assert_eq!(plan.doc_count, 3);
    assert_eq!(plan.raw_terms, vec!["rust".to_string(), "RUST".to_string(), "learning".to_string()]);
    assert_eq!(plan.terms.len(), 2);
    assert_eq!((plan.terms[0].term_id, plan.terms[0].tf, plan.terms[0].df), (0, 2, 2));
    assert_eq!((plan.terms[1].term_id, plan.terms[1].tf, plan.terms[1].df), (4, 1, 1));
}

#[test]
fn a_query_of_stopwords_has_no_terms() {
    let state = state_of(&["the rust and the systems", "other words"]);
    let plan = plan_query(&state, &params("the and", 10));
    assert!(plan.terms.is_empty());
    assert_eq!(plan.raw_terms, vec!["the".to_string(), "and".to_string()]);
    let empty = state_of(&[]);
    assert!(plan_query(&empty, &params("the and", 10)).terms.is_empty());
    assert_eq!(top_k(&vec![], plan.k).len(), 0);
    assert_eq!(count_hits(&vec![]), 0);
}

#[test]
fn a_query_of_unknown_terms_has_no_terms() {
    let state = state_of(&["Rust is great.", "Learning rust."]);
    let plan = plan_query(&state, &params("zzzzqqqq", 10));
    assert!(plan.terms.is_empty());
    assert_eq!(plan.k, 10);
}

#[test]
fn an_empty_index_weighs_with_one_document() {
    let state = state_of(&[]);
    let plan = plan_query(&state, &params("rust", 0));
    assert_eq!(plan.doc_count, 1);
    assert_eq!(plan.k, 1);
    assert!(plan.terms.is_empty());
}

/// Weighs, persists and searches a small index the way a build and a server
/// do, with the arithmetic on weights done here.
fn search(bodies: &[&str], q: &str, k: usize) -> (Vec<(u32, f32, Option<String>)>, usize) {
    let mut b = IndexBuilder::new();
    for (i, body) in bodies.iter().enumerate() {
        b.ingest_doc(&input(&format!("doc{i}"), body)).unwrap();
    }
    let n = weighing_doc_count(b.num_docs()) as f32;
    let mut norms = vec![0.0f32; b.num_docs() as usize];
    let mut raw_weights: Vec<Vec<f32>> = Vec::new();
    for t in 0..b.num_terms() {
        let df = weighing_df(b.dictionary(), t) as f32;
        let idf = (n / df).ln();
        let mut ws = Vec::new();
        for (d, tf) in b.raw_postings_of(t) {
            let w = (1.0 + (*tf as f32).ln()) * idf;
            norms[*d as usize] += w * w;
            ws.push(w);
        }
        raw_weights.push(ws);
    }
    for nrm in norms.iter_mut() {
        *nrm = nrm.sqrt();
        if *nrm == 0.0 {
            *nrm = 1.0;
        }
    }
    let mut weights: Vec<Vec<u32>> = Vec::new();
    for t in 0..b.num_terms() {
        let list = b.raw_postings_of(t);
        weights.push(
            list.iter()
                .zip(raw_weights[t as usize].iter())
                .map(|((d, _), w)| (w / norms[*d as usize]).to_bits())
                .collect(),
        );
    }
    let index = b.finish(&weights).unwrap();
    let files: Vec<Vec<u8>> = index.postings.iter().map(|l| encode_postings(l)).collect();
    let state = AppState {
        index_paths_root: "idx".to_string(),
        dictionary: index.dictionary,
        docs: index.docs,
        num_docs: index.num_docs,
        admin_token: None,
    };
    let plan = plan_query(&state, &params(q, k));
    let mut q_weights: Vec<f32> = plan
        .terms
        .iter()
        .map(|t| (1.0 + (t.tf as f32).ln()) * (plan.doc_count as f32 / t.df as f32).ln())
        .collect();
    let mut norm = q_weights.iter().map(|w| w * w).sum::<f32>().sqrt();
    if norm == 0.0 {
        norm = 1.0;
    }
    for w in q_weights.iter_mut() {
        *w /= norm;
    }
    let mut scores: Vec<Option<f32>> = vec![None; state.num_docs as usize];
    for (term, qw) in plan.terms.iter().zip(q_weights.iter()) {
        let list: Vec<Posting> = decode_postings(&files[term.term_id as usize]).unwrap();
        for p in list {
            let slot = &mut scores[p.doc_id as usize];
            *slot = Some(slot.unwrap_or(0.0) + f32::from_bits(p.weight_bits) * qw);
        }
    }
    let all: Vec<ScoredDoc> = scores
        .iter()
        .enumerate()
        .filter_map(|(d, s)| s.map(|s| scored(d as u32, s)))
        .collect();
    let best = top_k(&all, plan.k);
    let stored: Vec<Option<String>> = text_paths(&state, &best)
        .into_iter()
        .zip(best.iter())
        .map(|(path, doc)| {
            assert_eq!(path, Some(format!("texts/{}.txt", doc.doc_id)));
            Some(bodies[doc.doc_id as usize].to_string())
        })
        .collect();
    let results = make_hits(&state, &best, &stored, &plan.raw_terms);
    let response = SearchResponse::new(q.to_string(), &all, results);
    assert_eq!(response.query, q);
    assert_eq!(response.total_hits, count_hits(&all));
    let hits = response
        .results
        .into_iter()
        .map(|h| {
            assert_eq!(h.title, format!("Title of doc{}", h.doc_id));
            assert_eq!(h.url, None);
            (h.doc_id, f32::from_bits(h.score_bits), h.snippet)
        })
        .collect();
    (hits, response.total_hits)
}

#[test]
fn ranking_prefers_the_document_in_which_the_term_weighs_more() {
    let bodies = [
        "Learning about compilers, borrow checking, lifetimes and Rust.",
        "Rust rust RUST.",
        "Cooking pasta at home.",
    ];
    let (hits, total) = search(&bodies, "rust", 2);
    assert_eq!(hits.len(), 2);
    assert_eq!(total, 2);
    assert_eq!(hits[0].0, 1);
    assert_eq!(hits[1].0, 0);
    assert!(hits[0].1 > hits[1].1);
    assert!((hits[0].1 - 1.0).abs() < 1e-4);
    assert_eq!(hits[0].2.as_deref(), Some("<em>Rust</em> <em>rust</em> <em>RUST</em>."));
    assert!(hits[1].2.as_ref().unwrap().contains("<em>Rust</em>"));
}

#[test]
fn two_documents_that_both_hold_the_term_come_in_order() {
    let bodies = ["Rust is great. rust systems programming.", "Learning rust."];
    let (hits, total) = search(&bodies, "rust", 2);
    assert_eq!(hits.len(), 2);
    assert_eq!(hits[0].0, 0);
    assert_eq!(hits[1].0, 1);
    // A term that every document holds weighs nothing.
    assert_eq!(hits[0].1, 0.0);
    assert_eq!(hits[1].1, 0.0);
    assert_eq!(total, 0);
}

#[test]
fn a_stemmed_query_finds_the_document() {
    let bodies = ["Running runners RUN! The café's menu.", "Something else entirely."];
    let (hits, total) = search(&bodies, "run", 10);
    assert_eq!(total, 1);
    assert_eq!(hits.len(), 1);
    assert_eq!(hits[0].0, 0);
    let (hits, _) = search(&bodies, "café", 10);
    assert_eq!(hits.len(), 1);
    assert_eq!(hits[0].0, 0);
    let (hits, total) = search(&bodies, "cafe", 10);
    assert!(hits.is_empty());
    assert_eq!(total, 0);
}

#[test]
fn stopword_and_unknown_queries_have_no_hits() {
    let bodies = ["Rust is great.", "Learning rust and the rest."];
    let (hits, total) = search(&bodies, "the and", 10);
    assert!(hits.is_empty());
    assert_eq!(total, 0);
    let (hits, total) = search(&bodies, "zzzzqqqq", 10);
    assert!(hits.is_empty());
    assert_eq!(total, 0);
}

#[test]
fn a_large_k_returns_at_most_the_documents() {
    let bodies = ["rust one", "rust two", "rust three and pasta", "pasta"];
    let (hits, _) = search(&bodies, "rust", 500);
    assert!(hits.len() <= 3);
    assert_eq!(hits.len(), 3);
    let (again, _) = search(&bodies, "rust", 500);
    assert_eq!(hits, again);
}

#[test]
fn documents_have_unit_norm_after_weighting() {
    let bodies = ["alpha beta beta", "beta gamma", "alpha", "gamma gamma gamma delta"];
    let mut b = IndexBuilder::new();
    for (i, body) in bodies.iter().enumerate() {
        b.ingest_doc(&input(&format!("doc{i}"), body)).unwrap();
    }
    let n = b.num_docs() as f32;
    let mut sums = vec![0.0f32; bodies.len()];
    let mut norms = vec![0.0f32; bodies.len()];
    for t in 0..b.num_terms() {
        let idf = (n / b.dictionary().df(t).unwrap() as f32).ln();
        for (d, tf) in b.raw_postings_of(t) {
            let w = (1.0 + (*tf as f32).ln()) * idf;
            norms[*d as usize] += w * w;
        }
    }
    for t in 0..b.num_terms() {
        let idf = (n / b.dictionary().df(t).unwrap() as f32).ln();
        for (d, tf) in b.raw_postings_of(t) {
            let w = (1.0 + (*tf as f32).ln()) * idf / norms[*d as usize].sqrt();
            sums[*d as usize] += w * w;
        }
    }
    for s in sums {
        assert!((s - 1.0).abs() < 1e-4);
    }
    let empty = DocStore::new();
    assert_eq!(empty.num_docs(), 0);
}

#[test]
fn weighing_never_divides_by_zero() {
    assert_eq!(weighing_doc_count(0), 1);
    assert_eq!(weighing_doc_count(1), 1);
    assert_eq!(weighing_doc_count(7), 7);
    let mut d = Dictionary::new();
    d.intern("a");
    d.intern("b");
    d.add_document(1);
    d.add_document(1);
    assert_eq!(weighing_df(&d, 0), 1);
    assert_eq!(weighing_df(&d, 1), 2);
    assert_eq!(weighing_df(&d, 2), 1);
}

#[test]
fn hits_carry_the_record_and_the_snippet() {
    let state = state_of(&["Rust systems.", "Learning rust."]);
    let best = vec![scored(1, 0.5), scored(7, 0.4), scored(0, 0.3)];
    assert_eq!(
        text_paths(&state, &best),
        vec![Some("texts/1.txt".to_string()), None, Some("texts/0.txt".to_string())]
    );
    let stored = vec![Some("Learning rust.".to_string()), None, None];
    let raw = vec!["rust".to_string()];
    let hits = make_hits(&state, &best, &stored, &raw);
    // The document without a record is passed over.
    assert_eq!(hits.len(), 2);
    assert_eq!(hits[0].doc_id, 1);
    assert_eq!(hits[0].score_bits, 0.5f32.to_bits());
    assert_eq!(hits[0].title, "Title of doc1");
    assert_eq!(hits[0].snippet, Some("Learning <em>rust</em>.".to_string()));
    assert_eq!(hits[1].doc_id, 0);
    assert_eq!(hits[1].snippet, None);
    // Texts that are missing at the end count as not stored.
    let hits = make_hits(&state, &best, &vec![], &raw);
    assert_eq!(hits.len(), 2);
    assert_eq!(hits[0].snippet, None);
    // An empty text gives no snippet.
    let hits = make_hits(&state, &best, &vec![Some(String::new())], &raw);
    assert_eq!(hits[0].snippet, None);
}

#[test]
fn the_answer_without_known_terms_is_empty() {
    let r = SearchResponse::empty("the and".to_string());
    assert_eq!(r.query, "the and");
    assert_eq!(r.total_hits, 0);
    assert!(r.results.is_empty());
    let r = SearchResponse::new("q".to_string(), &vec![scored(0, 0.0), scored(1, 0.25)], vec![]);
    assert_eq!(r.total_hits, 1);
}

#[test]
fn search_returns_ranked_results() {
    // A tiny index: one term, "rust", in both of two documents, with the
    // normalized weights written out.
    let dictionary =
        Dictionary::from_entries(&vec![("rust".to_string(), 0u32)], &vec![2u32]).unwrap();
    let meta = |ext: &str, title: &str, path: &str| search_engine::index::DocMeta {
        external_id: ext.to_string(),
        title: title.to_string(),
        url: None,
        text_path: Some(path.to_string()),
    };
    let docs = DocStore::from_entries(&vec![
        (0, meta("doc0", "Doc 0", "texts/0.txt")),
        (1, meta("doc1", "Doc 1", "texts/1.txt")),
    ])
    .unwrap();
    let texts = ["Rust is great. rust systems programming.", "Learning rust."];
    let file = encode_postings(&vec![
        Posting { doc_id: 0, weight_bits: 0.8f32.to_bits() },
        Posting { doc_id: 1, weight_bits: 0.6f32.to_bits() },
    ]);
    let state = AppState {
        index_paths_root: "idx".to_string(),
        dictionary,
        docs,
        num_docs: 2,
        admin_token: None,
    };

    let plan = plan_query(&state, &params("rust", 2));
    assert_eq!(plan.terms.len(), 1);
    let qw = (1.0 + (plan.terms[0].tf as f32).ln())
        * (plan.doc_count as f32 / plan.terms[0].df as f32).ln();
    let all: Vec<ScoredDoc> = decode_postings(&file)
        .unwrap()
        .iter()
        .map(|p| scored(p.doc_id, f32::from_bits(p.weight_bits) * qw))
        .collect();
    let best = top_k(&all, plan.k);
    let stored: Vec<Option<String>> =
        best.iter().map(|d| Some(texts[d.doc_id as usize].to_string())).collect();
    let arr = make_hits(&state, &best, &stored, &plan.raw_terms);
    assert_eq!(arr.len(), 2);
    let d0 = arr[0].doc_id;
    let d1 = arr[1].doc_id;
    assert_eq!(d0, 0);
    assert_eq!(d1, 1);
}
