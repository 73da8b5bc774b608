use search_engine::builder::{FinishError, IndexBuilder};
use search_engine::index::{is_posting_list, InputDoc, Posting};

fn input(id: &str, body: &str) -> InputDoc {
    InputDoc {
        id: id.to_string(),
        title: format!("Title of {id}"),
        body: body.to_string(),
        url: None,
        timestamp: None,
    }
}

fn two_docs() -> IndexBuilder {
    let mut b = IndexBuilder::new();
    assert_eq!(b.ingest_doc(&input("doc0", "Rust is great. rust systems programming.")), Ok(0));
    assert_eq!(b.ingest_doc(&input("doc1", "Learning rust.")), Ok(1));
    b
}

#[test]
fn ingest_assigns_doc_ids_in_order_from_zero() {
    let mut b = IndexBuilder::new();
    assert_eq!(b.num_docs(), 0);
    for i in 0..5u32 {
        assert_eq!(b.ingest_doc(&input(&format!("d{i}"), "some words")), Ok(i));
        assert_eq!(b.num_docs(), i + 1);
    }
    for i in 0..5u32 {
        let m = b.doc_store().get(i).unwrap();
        assert_eq!(m.external_id, format!("d{i}"));
        assert_eq!(m.text_path, Some(format!("texts/{i}.txt")));
    }
    assert!(b.doc_store().get(5).is_none());
}

#[test]
fn terms_get_ids_in_order_of_first_encounter() {
    let b = two_docs();
    let d = b.dictionary();
    assert_eq!(b.num_terms(), 5);
    assert_eq!(d.term(0), "rust");
    assert_eq!(d.term(1), "great");
    assert_eq!(d.term(2), "system");
    assert_eq!(d.term(3), "program");
    assert_eq!(d.term(4), "learn");
    assert_eq!(d.lookup("is"), None);
}

#[test]
fn df_counts_documents_not_occurrences() {
    let b = two_docs();
    let d = b.dictionary();
    assert_eq!(d.df(0), Some(2));
    assert_eq!(d.df(1), Some(1));
    assert_eq!(d.df(2), Some(1));
    assert_eq!(d.df(3), Some(1));
    assert_eq!(d.df(4), Some(1));
    assert_eq!(d.document_frequencies(), &vec![2, 1, 1, 1, 1]);
}

#[test]
fn raw_postings_hold_the_term_frequency_per_document() {
    let b = two_docs();
    assert_eq!(b.raw_postings_of(0), &vec![(0u32, 2u32), (1, 1)]);
    assert_eq!(b.raw_postings_of(1), &vec![(0u32, 1u32)]);
    assert_eq!(b.raw_postings_of(4), &vec![(1u32, 1u32)]);
}

#[test]
fn raw_postings_are_strictly_ascending_by_doc_id() {
    let mut b = IndexBuilder::new();
    let bodies = ["alpha beta", "beta gamma beta", "", "alpha alpha alpha", "gamma", "the and of"];
    for (i, body) in bodies.iter().enumerate() {
        assert_eq!(b.ingest_doc(&input(&format!("d{i}"), body)), Ok(i as u32));
    }
    for t in 0..b.num_terms() {
        let list = b.raw_postings_of(t);
        assert_eq!(list.len() as u32, b.dictionary().df(t).unwrap());
        for pair in list.windows(2) {
            assert!(pair[0].0 < pair[1].0);
        }
        for (d, tf) in list {
            assert!(*d < b.num_docs());
            assert!(*tf > 0);
        }
    }
    assert_eq!(b.raw_postings_of(0), &vec![(0u32, 1u32), (3, 3)]);
    assert_eq!(b.raw_postings_of(1), &vec![(0u32, 1u32), (1, 2)]);
    assert_eq!(b.raw_postings_of(2), &vec![(1u32, 1u32), (4, 1)]);
}

#[test]
fn a_document_without_terms_is_kept_but_has_no_postings() {
    let mut b = IndexBuilder::new();
    assert_eq!(b.ingest_doc(&input("empty", "")), Ok(0));
    assert_eq!(b.ingest_doc(&input("stop", "the and of it")), Ok(1));
    assert_eq!(b.num_docs(), 2);
    assert_eq!(b.num_terms(), 0);
    assert_eq!(b.doc_store().get(1).unwrap().external_id, "stop");
}

#[test]
fn a_repeated_external_id_gets_two_docs_and_maps_to_the_later() {
    let mut b = IndexBuilder::new();
    assert_eq!(b.ingest_doc(&input("same", "first body")), Ok(0));
    assert_eq!(b.ingest_doc(&input("other", "second body")), Ok(1));
    assert_eq!(b.ingest_doc(&input("same", "third body")), Ok(2));
    assert_eq!(b.num_docs(), 3);
    assert_eq!(b.doc_id_map().get("same"), Some(2));
    assert_eq!(b.doc_id_map().get("other"), Some(1));
    assert_eq!(b.doc_id_map().len(), 2);
    assert_eq!(b.doc_store().get(0).unwrap().external_id, "same");
    assert_eq!(b.doc_store().get(2).unwrap().external_id, "same");
}

#[test]
fn ingest_tokens_takes_an_analyzed_body() {
    let mut b = IndexBuilder::new();
    let tokens = vec![
        ("x".to_string(), 0usize),
        ("y".to_string(), 1),
        ("x".to_string(), 5),
        ("x".to_string(), 6),
    ];
    assert_eq!(b.ingest_tokens(&input("d", "ignored"), &tokens), Ok(0));
    assert_eq!(b.num_terms(), 2);
    assert_eq!(b.raw_postings_of(0), &vec![(0u32, 3u32)]);
    assert_eq!(b.raw_postings_of(1), &vec![(0u32, 1u32)]);
    assert_eq!(b.dictionary().df(0), Some(1));
}

#[test]
fn finish_puts_a_weight_in_place_of_each_count() {
    let b = two_docs();
    let weights = vec![
        vec![0.0f32.to_bits(), 0.0f32.to_bits()],
        vec![0.5f32.to_bits()],
        vec![0.5f32.to_bits()],
        vec![0.5f32.to_bits()],
        vec![1.0f32.to_bits()],
    ];
    let index = b.finish(&weights).unwrap();
    assert_eq!(index.num_docs, 2);
    assert_eq!(index.postings.len(), 5);
    assert_eq!(
        index.postings[0],
        vec![Posting { doc_id: 0, weight_bits: 0 }, Posting { doc_id: 1, weight_bits: 0 }]
    );
    assert_eq!(index.postings[4], vec![Posting { doc_id: 1, weight_bits: 1.0f32.to_bits() }]);
    for list in &index.postings {
        assert!(is_posting_list(list));
    }
    assert_eq!(index.dictionary.lookup("learn"), Some(4));
    assert_eq!(index.docs.get(1).unwrap().external_id, "doc1");
}

#[test]
fn finish_refuses_weights_of_the_wrong_shape() {
    let one = 1.0f32.to_bits();
    assert_eq!(two_docs().finish(&vec![]).err(), Some(FinishError::WrongShape));
    let short = vec![vec![one], vec![one], vec![one], vec![one], vec![one]];
    assert_eq!(two_docs().finish(&short).err(), Some(FinishError::WrongShape));
    let bad_and_short = vec![vec![f32::NAN.to_bits(), one], vec![one], vec![one], vec![one], vec![]];
    assert_eq!(two_docs().finish(&bad_and_short).err(), Some(FinishError::WrongShape));
}

#[test]
fn finish_refuses_weights_that_are_no_finite_non_negative_numbers() {
    let one = 1.0f32.to_bits();
    for bad in [f32::NAN, f32::INFINITY, -1.0f32, -0.0f32, f32::NEG_INFINITY] {
        let w = vec![vec![one, one], vec![one], vec![bad.to_bits()], vec![one], vec![one]];
        assert_eq!(two_docs().finish(&w).err(), Some(FinishError::BadWeight));
    }
    let w = vec![vec![one, one], vec![one], vec![f32::MAX.to_bits()], vec![one], vec![0]];
    assert!(two_docs().finish(&w).is_ok());
}

#[test]
fn posting_lists_are_checked_for_order_and_weights() {
    let p = |d: u32, w: f32| Posting { doc_id: d, weight_bits: w.to_bits() };
    assert!(is_posting_list(&vec![]));
    assert!(is_posting_list(&vec![p(0, 0.8), p(1, 0.6), p(7, 0.0)]));
    assert!(!is_posting_list(&vec![p(0, 0.8), p(0, 0.6)]));
    assert!(!is_posting_list(&vec![p(2, 0.8), p(1, 0.6)]));
    assert!(!is_posting_list(&vec![p(0, 0.8), p(1, -0.6)]));
    assert!(!is_posting_list(&vec![p(0, f32::NAN)]));
    assert!(!is_posting_list(&vec![p(0, f32::INFINITY)]));
}
