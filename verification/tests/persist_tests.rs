use search_engine::dictionary::Dictionary;
use search_engine::doc_id_map::DocIdMap;
use search_engine::docs::DocStore;
use search_engine::index::{DocMeta, Posting};
use search_engine::persist::{
    decode_dictionary, decode_doc_id_map, decode_docs, decode_postings, encode_dictionary,
    encode_doc_id_map, encode_docs, encode_postings, join, load_index_header, read_posting_list,
    IndexPaths, LoadError, MetaFile, INDEX_VERSION,
};
use std::collections::HashMap;

type MetaTuple = (String, String, Option<String>, Option<String>);

fn meta(ext: &str, title: &str, url: Option<&str>, path: Option<&str>) -> DocMeta {
    DocMeta {
        external_id: ext.to_string(),
        title: title.to_string(),
        url: url.map(|s| s.to_string()),
        text_path: path.map(|s| s.to_string()),
    }
}

fn sample_dictionary() -> Dictionary {
    let mut d = Dictionary::new();
    d.intern("rust");
    d.intern("café");
    d.intern("system");
    d.add_document(0);
    d.add_document(0);
    d.add_document(2);
    d
}

fn sample_docs() -> DocStore {
    DocStore::from_entries(&vec![
        (0, meta("doc0", "Doc 0", None, Some("texts/0.txt"))),
        (1, meta("doc1", "Doc 1 é", Some("http://example.com/1"), Some("texts/1.txt"))),
        (2, meta("", "", None, None)),
    ])
    .unwrap()
}

#[test]
fn index_paths_name_the_files_of_the_layout() {
    let p = IndexPaths::new("/var/index");
    assert_eq!(p.root, "/var/index");
    assert_eq!(p.dictionary(), "/var/index/dictionary.bin");
    assert_eq!(p.docs(), "/var/index/docs.bin");
    assert_eq!(p.meta(), "/var/index/meta.json");
    assert_eq!(p.postings_dir(), "/var/index/postings");
    assert_eq!(p.doc_id_map(), "/var/index/doc_id_map.bin");
    assert_eq!(p.relative("texts/3.txt"), "/var/index/texts/3.txt");
}

#[test]
fn posting_files_are_named_by_eight_digit_term_ids() {
    let p = IndexPaths::new("idx");
    assert_eq!(p.postings_file(0), "idx/postings/00000000.postings.bin");
    assert_eq!(p.postings_file(7), "idx/postings/00000007.postings.bin");
    assert_eq!(p.postings_file(12345678), "idx/postings/12345678.postings.bin");
    assert_eq!(p.postings_file(99999999), "idx/postings/99999999.postings.bin");
    assert_eq!(p.postings_file(100000000), "idx/postings/100000000.postings.bin");
    assert_eq!(p.postings_file(u32::MAX), "idx/postings/4294967295.postings.bin");
    for t in [0u32, 9, 10, 4096, 99999999, 100000000, u32::MAX] {
        assert_eq!(p.postings_file(t), format!("idx/postings/{t:08}.postings.bin"));
    }
}

#[test]
fn join_leaves_a_name_alone_below_the_empty_path() {
    assert_eq!(join("", "meta.json"), "meta.json");
    assert_eq!(join("a", "b"), "a/b");
    assert_eq!(IndexPaths::new("").dictionary(), "dictionary.bin");
}

#[test]
fn meta_file_carries_the_layout_version() {
    let m = MetaFile::new(3, "2024-01-01T00:00:00Z".to_string());
    assert_eq!(m.num_docs, 3);
    assert_eq!(m.created_at, "2024-01-01T00:00:00Z");
    assert_eq!(m.version, 1);
    assert_eq!(INDEX_VERSION, 1);
}

#[test]
fn postings_are_length_prefixed_little_endian_pairs() {
    let list = vec![
        Posting { doc_id: 0, weight_bits: 0.8f32.to_bits() },
        Posting { doc_id: 258, weight_bits: 0.6f32.to_bits() },
    ];
    let bytes = encode_postings(&list);
    let mut expected: Vec<u8> = vec![2, 0, 0, 0, 0, 0, 0, 0];
    expected.extend_from_slice(&[0, 0, 0, 0]);
    expected.extend_from_slice(&0.8f32.to_le_bytes());
    expected.extend_from_slice(&[2, 1, 0, 0]);
    expected.extend_from_slice(&0.6f32.to_le_bytes());
    assert_eq!(bytes, expected);
    assert_eq!(encode_postings(&vec![]), vec![0u8; 8]);
}

#[test]
fn postings_bytes_are_those_of_bincode() {
    let floats: Vec<(u32, f32)> = vec![(0, 0.8), (1, 0.6), (4000000000, 0.0), (7, 1.0e-30)];
    let list: Vec<Posting> =
        floats.iter().map(|(d, w)| Posting { doc_id: *d, weight_bits: w.to_bits() }).collect();
    let ours = encode_postings(&list);
    assert_eq!(ours, bincode::serialize(&floats).unwrap());
    let back: Vec<(u32, f32)> = bincode::deserialize(&ours).unwrap();
    assert_eq!(back, floats);
    assert_eq!(decode_postings(&bincode::serialize(&floats).unwrap()), Some(list));
}

#[test]
fn postings_round_trip_bit_for_bit() {
    let list: Vec<Posting> = (0..1000u32)
        .map(|i| Posting { doc_id: i * 3, weight_bits: (i as f32 / 1000.0).to_bits() })
        .collect();
    let first = encode_postings(&list);
    let loaded = decode_postings(&first).unwrap();
    assert_eq!(loaded, list);
    assert_eq!(encode_postings(&loaded), first);
}

#[test]
fn truncated_postings_are_refused_and_trailing_bytes_ignored() {
    let list = vec![Posting { doc_id: 1, weight_bits: 2 }, Posting { doc_id: 3, weight_bits: 4 }];
    let bytes = encode_postings(&list);
    for cut in 0..bytes.len() {
        assert_eq!(decode_postings(&bytes[..cut]), None, "cut at {cut}");
    }
    let mut longer = bytes.clone();
    longer.extend_from_slice(&[9, 9, 9]);
    assert_eq!(decode_postings(&longer), Some(list));
    // A length that the bytes cannot hold.
    assert_eq!(decode_postings(&[255, 255, 255, 255, 255, 255, 255, 255, 1, 2, 3, 4]), None);
}

#[test]
fn dictionary_round_trips_bit_for_bit() {
    let d = sample_dictionary();
    let first = encode_dictionary(&d);
    let loaded = decode_dictionary(&first).unwrap();
    assert_eq!(loaded.len(), 3);
    assert_eq!(loaded.term(0), "rust");
    assert_eq!(loaded.term(1), "café");
    assert_eq!(loaded.term(2), "system");
    assert_eq!(loaded.document_frequencies(), &vec![2, 0, 1]);
    assert_eq!(loaded.lookup("system"), Some(2));
    assert_eq!(encode_dictionary(&loaded), first);
    let empty = encode_dictionary(&Dictionary::new());
    assert_eq!(empty, vec![0u8; 16]);
    assert_eq!(decode_dictionary(&empty).unwrap().len(), 0);
}

#[test]
fn dictionary_bytes_are_read_by_bincode() {
    let d = sample_dictionary();
    let ours = encode_dictionary(&d);
    let (map, df): (HashMap<String, u32>, Vec<u32>) = bincode::deserialize(&ours).unwrap();
    assert_eq!(map.len(), 3);
    assert_eq!(map["rust"], 0);
    assert_eq!(map["café"], 1);
    assert_eq!(map["system"], 2);
    assert_eq!(df, vec![2, 0, 1]);
}

#[test]
fn dictionary_written_by_bincode_is_read() {
    let mut map: HashMap<String, u32> = HashMap::new();
    for (i, w) in ["zero", "one", "two", "three", "four", "five"].iter().enumerate() {
        map.insert(w.to_string(), i as u32);
    }
    let df: Vec<u32> = vec![6, 5, 4, 3, 2, 1];
    let bytes = bincode::serialize(&(map, df)).unwrap();
    let d = decode_dictionary(&bytes).unwrap();
    assert_eq!(d.len(), 6);
    assert_eq!(d.term(0), "zero");
    assert_eq!(d.term(5), "five");
    assert_eq!(d.lookup("three"), Some(3));
    assert_eq!(d.df(3), Some(3));
    // With one entry a map has one order, and the bytes are the same.
    let mut one: HashMap<String, u32> = HashMap::new();
    one.insert("rust".to_string(), 0);
    let bytes = bincode::serialize(&(one, vec![2u32])).unwrap();
    let d = decode_dictionary(&bytes).unwrap();
    assert_eq!(encode_dictionary(&d), bytes);
}

#[test]
fn dictionary_files_that_hold_no_dictionary_are_refused() {
    let bytes = encode_dictionary(&sample_dictionary());
    for cut in 0..bytes.len() {
        assert!(decode_dictionary(&bytes[..cut]).is_none(), "cut at {cut}");
    }
    // Invalid UTF-8 in a stem.
    let mut map_bytes: Vec<u8> = vec![1, 0, 0, 0, 0, 0, 0, 0];
    map_bytes.extend_from_slice(&[2, 0, 0, 0, 0, 0, 0, 0, 0xC3, 0x28]);
    map_bytes.extend_from_slice(&[0, 0, 0, 0]);
    map_bytes.extend_from_slice(&[1, 0, 0, 0, 0, 0, 0, 0, 5, 0, 0, 0]);
    assert!(decode_dictionary(&map_bytes).is_none());
    // Identifiers that are not dense.
    let mut map: HashMap<String, u32> = HashMap::new();
    map.insert("a".to_string(), 0);
    map.insert("b".to_string(), 5);
    let bytes = bincode::serialize(&(map, vec![1u32, 1])).unwrap();
    assert!(decode_dictionary(&bytes).is_none());
}

#[test]
fn docs_round_trip_bit_for_bit() {
    let s = sample_docs();
    let first = encode_docs(&s);
    let loaded = decode_docs(&first).unwrap();
    assert_eq!(loaded.num_docs(), 3);
    let m = loaded.get(1).unwrap();
    assert_eq!(m.external_id, "doc1");
    assert_eq!(m.title, "Doc 1 é");
    assert_eq!(m.url, Some("http://example.com/1".to_string()));
    assert_eq!(m.text_path, Some("texts/1.txt".to_string()));
    let m = loaded.get(2).unwrap();
    assert_eq!(m.external_id, "");
    assert_eq!(m.url, None);
    assert_eq!(m.text_path, None);
    assert_eq!(encode_docs(&loaded), first);
}

#[test]
fn docs_bytes_agree_with_bincode() {
    let s = sample_docs();
    let ours = encode_docs(&s);
    let map: HashMap<u32, MetaTuple> = bincode::deserialize(&ours).unwrap();
    assert_eq!(map.len(), 3);
    assert_eq!(map[&0], ("doc0".to_string(), "Doc 0".to_string(), None, Some("texts/0.txt".to_string())));
    assert_eq!(map[&1].2, Some("http://example.com/1".to_string()));
    assert_eq!(map[&2], (String::new(), String::new(), None, None));
    let written = bincode::serialize(&map).unwrap();
    let s2 = decode_docs(&written).unwrap();
    assert_eq!(s2.num_docs(), 3);
    assert_eq!(s2.get(0).unwrap().title, "Doc 0");
    assert_eq!(encode_docs(&s2), ours);
    // With one entry a map has one order, and the bytes are the same.
    let mut one: HashMap<u32, MetaTuple> = HashMap::new();
    one.insert(0, ("e".to_string(), "t".to_string(), Some("u".to_string()), None));
    let bytes = bincode::serialize(&one).unwrap();
    assert_eq!(encode_docs(&decode_docs(&bytes).unwrap()), bytes);
}

#[test]
fn docs_files_that_hold_no_document_table_are_refused() {
    let bytes = encode_docs(&sample_docs());
    for cut in 0..bytes.len() {
        assert!(decode_docs(&bytes[..cut]).is_none(), "cut at {cut}");
    }
    // An option tag that is neither 0 nor 1.
    let mut one: HashMap<u32, MetaTuple> = HashMap::new();
    one.insert(0, ("e".to_string(), "t".to_string(), None, None));
    let mut bytes = bincode::serialize(&one).unwrap();
    let last = bytes.len() - 1;
    bytes[last] = 2;
    assert!(decode_docs(&bytes).is_none());
    // Identifiers that are not dense.
    let mut gap: HashMap<u32, MetaTuple> = HashMap::new();
    gap.insert(1, ("e".to_string(), "t".to_string(), None, None));
    assert!(decode_docs(&bincode::serialize(&gap).unwrap()).is_none());
}

#[test]
fn doc_id_map_round_trips_bit_for_bit() {
    let mut m = DocIdMap::new();
    m.insert("doc0", 0);
    m.insert("doc1", 1);
    m.insert("doc0", 2);
    let first = encode_doc_id_map(&m);
    let loaded = decode_doc_id_map(&first).unwrap();
    assert_eq!(loaded.get("doc0"), Some(2));
    assert_eq!(loaded.get("doc1"), Some(1));
    assert_eq!(loaded.len(), 2);
    assert_eq!(encode_doc_id_map(&loaded), first);
    let map: HashMap<String, u32> = bincode::deserialize(&first).unwrap();
    assert_eq!(map.len(), 2);
    assert_eq!(map["doc0"], 2);
    let written = bincode::serialize(&map).unwrap();
    let again = decode_doc_id_map(&written).unwrap();
    assert_eq!(again.get("doc0"), Some(2));
    assert_eq!(again.get("doc1"), Some(1));
}

#[test]
fn a_map_file_with_a_key_twice_is_refused() {
    let mut bytes: Vec<u8> = vec![2, 0, 0, 0, 0, 0, 0, 0];
    for id in [1u8, 2u8] {
        bytes.extend_from_slice(&[1, 0, 0, 0, 0, 0, 0, 0, b'k']);
        bytes.extend_from_slice(&[id, 0, 0, 0]);
    }
    assert!(decode_doc_id_map(&bytes).is_none());
    assert!(decode_doc_id_map(&[]).is_none());
}

#[test]
fn load_index_header_gives_dictionary_documents_and_meta() {
    let dict = encode_dictionary(&sample_dictionary());
    let docs = encode_docs(&sample_docs());
    let meta = MetaFile { num_docs: 3, created_at: "2024-01-01T00:00:00Z".to_string(), version: 1 };
    let (d, s, m) = load_index_header(&dict, &docs, meta).unwrap();
    assert_eq!(d.lookup("rust"), Some(0));
    assert_eq!(d.df(0), Some(2));
    assert_eq!(s.num_docs(), 3);
    assert_eq!(s.get(0).unwrap().title, "Doc 0");
    assert_eq!(m.num_docs, 3);
    assert_eq!(m.created_at, "2024-01-01T00:00:00Z");
    assert_eq!(m.version, 1);
}

#[test]
fn load_index_header_names_the_file_that_failed() {
    let dict = encode_dictionary(&sample_dictionary());
    let docs = encode_docs(&sample_docs());
    let meta = || MetaFile { num_docs: 3, created_at: String::new(), version: 1 };
    assert_eq!(load_index_header(&dict[..5], &docs, meta()).err(), Some(LoadError::Dictionary));
    assert_eq!(load_index_header(&dict, &docs[..5], meta()).err(), Some(LoadError::Docs));
    assert_eq!(load_index_header(&[], &[], meta()).err(), Some(LoadError::Dictionary));
}

#[test]
fn a_posting_list_is_checked_when_it_is_read_for_a_search() {
    let p = |d: u32, w: f32| Posting { doc_id: d, weight_bits: w.to_bits() };
    let good = vec![p(0, 0.8), p(2, 0.6)];
    let bytes = encode_postings(&good);
    assert_eq!(read_posting_list(&bytes, 3), Some(good.clone()));
    assert_eq!(read_posting_list(&bytes, 4000), Some(good));
    // A document that the index does not have.
    assert_eq!(read_posting_list(&bytes, 2), None);
    assert_eq!(read_posting_list(&bytes, 0), None);
    // Out of order, a negative weight, no number, truncated.
    assert_eq!(read_posting_list(&encode_postings(&vec![p(1, 0.5), p(0, 0.5)]), 3), None);
    assert_eq!(read_posting_list(&encode_postings(&vec![p(1, 0.5), p(1, 0.5)]), 3), None);
    assert_eq!(read_posting_list(&encode_postings(&vec![p(1, -0.5)]), 3), None);
    assert_eq!(read_posting_list(&encode_postings(&vec![p(1, f32::NAN)]), 3), None);
    assert_eq!(read_posting_list(&bytes[..bytes.len() - 1], 3), None);
    assert_eq!(read_posting_list(&encode_postings(&vec![]), 0), Some(vec![]));
}
