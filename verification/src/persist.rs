//! The index store: where each file lies under the index root, and what its
//! bytes are.
//!
//! The dictionary file holds a map from stem to term identifier and the vector
//! of document frequencies; the document file a map from document identifier
//! to record; the map file a map from external identifier to document
//! identifier; each posting file a vector of postings. A map is written like
//! a sequence of its entries. Bytes that follow the value are ignored.

use vstd::prelude::*;
use vstd::string::*;
use vstd::utf8::*;
use crate::codec::{
    continued, lemma_many_step, lemma_opt_text_round_trip, lemma_seq_round_trip,
    lemma_ser_many_push, lemma_text_round_trip, lemma_u32_round_trip, opt_text_fits, parse_many,
    parse_opt_text, parse_seq, parse_text, parse_u32, ser_many, ser_opt_text, ser_seq,
    ser_text, ser_u32, write_len, write_opt_text, write_text, write_u32, Reader,
};
use crate::decimal::{padded_decimal_text, push_padded_decimal};
use crate::dictionary::{
    arranged_terms, dictionary_entries_valid, entries_of_terms, lemma_entries_of_terms, Dictionary,
    TermId,
};
use crate::doc_id_map::DocIdMap;
use crate::docs::{
    arranged_metas, doc_entries_valid, entries_of_metas, lemma_entries_of_metas, meta_entries,
    DocStore,
};
use crate::index::{
    is_posting_list, posting_list_wf, DocId, DocMeta, DocMetaView, InvertedIndex, Posting,
};
use crate::interner::{firsts, seconds, text_ids};

verus! {

/// The header of an index.
#[derive(Debug)]
pub struct MetaFile {
    pub num_docs: u32,
    /// The time of the build, in RFC 3339 form.
    pub created_at: String,
    pub version: u32,
}

/// The version of the layout that this library writes and reads.
pub const INDEX_VERSION: u32 = 1;

impl MetaFile {
    /// The header of an index of `num_docs` documents built at the given time.
    pub fn new(num_docs: u32, created_at: String) -> (r: MetaFile)
        ensures
            r.num_docs == num_docs,
            r.created_at == created_at,
            r.version == INDEX_VERSION,
    {
        MetaFile { num_docs, created_at, version: INDEX_VERSION }
    }
}

/// The root directory of an index.
pub struct IndexPaths {
    pub root: String,
}

/// A path below a directory: the name itself where the directory is the empty
/// path, else the directory, a slash and the name.
pub open spec fn joined(dir: Seq<char>, name: Seq<char>) -> Seq<char> {
    if dir.len() == 0 {
        name
    } else {
        dir + "/"@ + name
    }
}

/// The file name of a term's posting list: the term identifier in decimal,
/// padded with zeros to eight digits, and the suffix `.postings.bin`.
pub open spec fn postings_file_name(term_id: TermId) -> Seq<char> {
    padded_decimal_text(term_id as nat, 8) + ".postings.bin"@
}

/// The path `name` below `dir`.
pub fn join(dir: &str, name: &str) -> (r: String)
    ensures
        r@ == joined(dir@, name@),
{
    if dir.is_empty() {
        String::from_str(name)
    } else {
        let mut r = String::from_str(dir);
        r.append("/");
        r.append(name);
        r
    }
}

impl IndexPaths {
    /// The paths of the index below `root`.
    pub fn new(root: &str) -> (r: IndexPaths)
        ensures
            r.root@ == root@,
    {
        IndexPaths { root: String::from_str(root) }
    }

    /// The file of the dictionary and the document frequencies.
    pub fn dictionary(&self) -> (r: String)
        ensures
            r@ == joined(self.root@, "dictionary.bin"@),
    {
        join(self.root.as_str(), "dictionary.bin")
    }

    /// The file of the document records.
    pub fn docs(&self) -> (r: String)
        ensures
            r@ == joined(self.root@, "docs.bin"@),
    {
        join(self.root.as_str(), "docs.bin")
    }

    /// The file of the header.
    pub fn meta(&self) -> (r: String)
        ensures
            r@ == joined(self.root@, "meta.json"@),
    {
        join(self.root.as_str(), "meta.json")
    }

    /// The directory of the posting lists.
    pub fn postings_dir(&self) -> (r: String)
        ensures
            r@ == joined(self.root@, "postings"@),
    {
        join(self.root.as_str(), "postings")
    }

    /// The file of the map from external identifiers to document identifiers.
    pub fn doc_id_map(&self) -> (r: String)
        ensures
            r@ == joined(self.root@, "doc_id_map.bin"@),
    {
        join(self.root.as_str(), "doc_id_map.bin")
    }

    /// The file of a term's posting list.
    pub fn postings_file(&self, term_id: TermId) -> (r: String)
        ensures
            r@ == joined(joined(self.root@, "postings"@), postings_file_name(term_id)),
    {
        let dir = self.postings_dir();
        let mut name = String::new();
        push_padded_decimal(&mut name, term_id, 8);
        name.append(".postings.bin");
        assert(name@ =~= postings_file_name(term_id));
        join(dir.as_str(), name.as_str())
    }

    /// The file at a path relative to the root, such as the stored body of a
    /// document.
    pub fn relative(&self, path: &str) -> (r: String)
        ensures
            r@ == joined(self.root@, path@),
    {
        join(self.root.as_str(), path)
    }
}

/// A posting: the document identifier, then the bits of the weight.
pub open spec fn ser_posting(p: Posting) -> Seq<u8> {
    ser_u32(p.doc_id) + ser_u32(p.weight_bits)
}

/// A posting at the head of the bytes.
pub open spec fn parse_posting(b: Seq<u8>) -> Option<(Posting, Seq<u8>)> {
    match parse_u32(b) {
        Some((doc_id, rest)) => match parse_u32(rest) {
            Some((weight_bits, after)) => Some((Posting { doc_id, weight_bits }, after)),
            None => None,
        },
        None => None,
    }
}

/// A text with a number: the text, then the number.
pub open spec fn ser_text_id(e: (Seq<char>, u32)) -> Seq<u8> {
    ser_text(e.0) + ser_u32(e.1)
}

/// A text with a number at the head of the bytes.
pub open spec fn parse_text_id(b: Seq<u8>) -> Option<((Seq<char>, u32), Seq<u8>)> {
    match parse_text(b) {
        Some((text, rest)) => match parse_u32(rest) {
            Some((id, after)) => Some(((text, id), after)),
            None => None,
        },
        None => None,
    }
}

/// A document entry: the identifier, then the fields of the record in order.
pub open spec fn ser_doc_entry(e: (DocId, DocMetaView)) -> Seq<u8> {
    ser_u32(e.0) + ser_text(e.1.external_id) + ser_text(e.1.title) + ser_opt_text(e.1.url)
        + ser_opt_text(e.1.text_path)
}

/// A document entry at the head of the bytes.
pub open spec fn parse_doc_entry(b: Seq<u8>) -> Option<((DocId, DocMetaView), Seq<u8>)> {
    match parse_u32(b) {
        Some((id, r1)) => match parse_text(r1) {
            Some((external_id, r2)) => match parse_text(r2) {
                Some((title, r3)) => match parse_opt_text(r3) {
                    Some((url, r4)) => match parse_opt_text(r4) {
                        Some((text_path, r5)) => Some(
                            ((id, DocMetaView { external_id, title, url, text_path }), r5),
                        ),
                        None => None,
                    },
                    None => None,
                },
                None => None,
            },
            None => None,
        },
        None => None,
    }
}

/// The serializers and parsers of the items, as values to hand to the
/// functions on sequences.
pub open spec fn posting_ser() -> spec_fn(Posting) -> Seq<u8> {
    |p: Posting| ser_posting(p)
}

/// See `posting_ser`.
pub open spec fn posting_parse() -> spec_fn(Seq<u8>) -> Option<(Posting, Seq<u8>)> {
    |b: Seq<u8>| parse_posting(b)
}

/// See `posting_ser`.
pub open spec fn text_id_ser() -> spec_fn((Seq<char>, u32)) -> Seq<u8> {
    |e: (Seq<char>, u32)| ser_text_id(e)
}

/// See `posting_ser`.
pub open spec fn text_id_parse() -> spec_fn(Seq<u8>) -> Option<((Seq<char>, u32), Seq<u8>)> {
    |b: Seq<u8>| parse_text_id(b)
}

/// See `posting_ser`.
pub open spec fn doc_entry_ser() -> spec_fn((DocId, DocMetaView)) -> Seq<u8> {
    |e: (DocId, DocMetaView)| ser_doc_entry(e)
}

/// See `posting_ser`.
pub open spec fn doc_entry_parse() -> spec_fn(Seq<u8>) -> Option<((DocId, DocMetaView), Seq<u8>)> {
    |b: Seq<u8>| parse_doc_entry(b)
}

/// See `posting_ser`.
pub open spec fn u32_ser() -> spec_fn(u32) -> Seq<u8> {
    |x: u32| ser_u32(x)
}

/// See `posting_ser`.
pub open spec fn u32_parse() -> spec_fn(Seq<u8>) -> Option<(u32, Seq<u8>)> {
    |b: Seq<u8>| parse_u32(b)
}

/// The value of a parse, without the bytes that follow it.
pub open spec fn value_of<T>(parsed: Option<(T, Seq<u8>)>) -> Option<T> {
    match parsed {
        Some((v, _)) => Some(v),
        None => None,
    }
}

/// The bytes of a posting file.
pub open spec fn postings_bytes(list: Seq<Posting>) -> Seq<u8> {
    ser_seq(posting_ser(), list)
}

/// The posting list that a posting file holds.
pub open spec fn postings_of_bytes(b: Seq<u8>) -> Option<Seq<Posting>> {
    value_of(parse_seq(posting_parse(), b))
}

/// The bytes of a dictionary file with the given entries.
pub open spec fn dictionary_file_bytes(entries: Seq<(Seq<char>, u32)>, dfs: Seq<u32>) -> Seq<u8> {
    ser_seq(text_id_ser(), entries) + ser_seq(u32_ser(), dfs)
}

/// The entries and document frequencies that a dictionary file holds.
pub open spec fn parse_dictionary_file(b: Seq<u8>) -> Option<(Seq<(Seq<char>, u32)>, Seq<u32>)> {
    match parse_seq(text_id_parse(), b) {
        Some((entries, rest)) => match parse_seq(u32_parse(), rest) {
            Some((dfs, _)) => Some((entries, dfs)),
            None => None,
        },
        None => None,
    }
}

/// The bytes of the dictionary file of a dictionary: the entries in order of
/// identifier.
pub open spec fn dictionary_bytes(terms: Seq<Seq<char>>, dfs: Seq<u32>) -> Seq<u8> {
    dictionary_file_bytes(entries_of_terms(terms), dfs)
}

/// The dictionary that a dictionary file holds, as its stems and document
/// frequencies: none where the bytes are no dictionary file or its entries are
/// not valid.
pub open spec fn dictionary_of_bytes(b: Seq<u8>) -> Option<(Seq<Seq<char>>, Seq<u32>)> {
    match parse_dictionary_file(b) {
        Some((entries, dfs)) => if dictionary_entries_valid(entries, dfs) {
            Some((arranged_terms(entries), dfs.take(entries.len() as int)))
        } else {
            None
        },
        None => None,
    }
}

/// The bytes of the document file of a store: the entries in order of
/// identifier.
pub open spec fn docs_bytes(metas: Seq<DocMetaView>) -> Seq<u8> {
    ser_seq(doc_entry_ser(), entries_of_metas(metas))
}

/// The records that a document file holds: none where the bytes are no
/// document file or its entries are not valid.
pub open spec fn docs_of_bytes(b: Seq<u8>) -> Option<Seq<DocMetaView>> {
    match parse_seq(doc_entry_parse(), b) {
        Some((entries, _)) => if doc_entries_valid(entries) {
            Some(arranged_metas(entries))
        } else {
            None
        },
        None => None,
    }
}

/// The entries of a map from external identifiers to document identifiers.
pub open spec fn map_entries(keys: Seq<Seq<char>>, values: Seq<DocId>) -> Seq<(Seq<char>, u32)> {
    Seq::new(keys.len(), |i: int| (keys[i], values[i]))
}

/// The bytes of a map file.
pub open spec fn doc_id_map_bytes(keys: Seq<Seq<char>>, values: Seq<DocId>) -> Seq<u8> {
    ser_seq(text_id_ser(), map_entries(keys, values))
}

/// The keys and values that a map file holds: none where the bytes are no map
/// file, a key occurs twice or the entries are too many.
pub open spec fn doc_id_map_of_bytes(b: Seq<u8>) -> Option<(Seq<Seq<char>>, Seq<DocId>)> {
    match parse_seq(text_id_parse(), b) {
        Some((entries, _)) => if entries.len() <= u32::MAX && firsts(entries).no_duplicates() {
            Some((firsts(entries), seconds(entries)))
        } else {
            None
        },
        None => None,
    }
}

/// Whether the encoding of each text fits a 64-bit length.
pub open spec fn texts_fit(texts: Seq<Seq<char>>) -> bool {
    forall|i: int| 0 <= i < texts.len() ==> encode_utf8(#[trigger] texts[i]).len() <= u64::MAX
}

/// Whether the encoding of each text of a record fits a 64-bit length.
pub open spec fn meta_fits(m: DocMetaView) -> bool {
    &&& encode_utf8(m.external_id).len() <= u64::MAX
    &&& encode_utf8(m.title).len() <= u64::MAX
    &&& opt_text_fits(m.url)
    &&& opt_text_fits(m.text_path)
}

/// Parsing a serialized posting gives it back, with what followed.
pub proof fn lemma_posting_round_trip(p: Posting, rest: Seq<u8>)
    ensures
        parse_posting(ser_posting(p) + rest) == Some((p, rest)),
{
    lemma_u32_round_trip(p.doc_id, ser_u32(p.weight_bits) + rest);
    lemma_u32_round_trip(p.weight_bits, rest);
    assert(ser_posting(p) + rest =~= ser_u32(p.doc_id) + (ser_u32(p.weight_bits) + rest));
}

/// Parsing a serialized text with a number gives it back, with what followed.
pub proof fn lemma_text_id_round_trip(e: (Seq<char>, u32), rest: Seq<u8>)
    requires
        encode_utf8(e.0).len() <= u64::MAX,
    ensures
        parse_text_id(ser_text_id(e) + rest) == Some((e, rest)),
{
    lemma_text_round_trip(e.0, ser_u32(e.1) + rest);
    lemma_u32_round_trip(e.1, rest);
    assert(ser_text_id(e) + rest =~= ser_text(e.0) + (ser_u32(e.1) + rest));
}

/// Parsing a serialized document entry gives it back, with what followed.
pub proof fn lemma_doc_entry_round_trip(e: (DocId, DocMetaView), rest: Seq<u8>)
    requires
        meta_fits(e.1),
    ensures
        parse_doc_entry(ser_doc_entry(e) + rest) == Some((e, rest)),
{
    let m = e.1;
    let a = ser_u32(e.0);
    let b = ser_text(m.external_id);
    let c = ser_text(m.title);
    let d = ser_opt_text(m.url);
    let f = ser_opt_text(m.text_path);
    let r4 = f + rest;
    let r3 = d + r4;
    let r2 = c + r3;
    let r1 = b + r2;
    assert(ser_doc_entry(e) + rest == a + r1) by {
        lemma_concat_assoc(a + b + c + d, f, rest);
        lemma_concat_assoc(a + b + c, d, r4);
        lemma_concat_assoc(a + b, c, r3);
        lemma_concat_assoc(a, b, r2);
    }
    assert(parse_u32(a + r1) == Some((e.0, r1))) by {
        lemma_u32_round_trip(e.0, r1);
    }
    assert(parse_text(r1) == Some((m.external_id, r2))) by {
        lemma_text_round_trip(m.external_id, r2);
    }
    assert(parse_text(r2) == Some((m.title, r3))) by {
        lemma_text_round_trip(m.title, r3);
    }
    assert(parse_opt_text(r3) == Some((m.url, r4))) by {
        lemma_opt_text_round_trip(m.url, r4);
    }
    assert(parse_opt_text(r4) == Some((m.text_path, rest))) by {
        lemma_opt_text_round_trip(m.text_path, rest);
    }
}

/// Concatenation is associative.
pub proof fn lemma_concat_assoc(a: Seq<u8>, b: Seq<u8>, c: Seq<u8>)
    ensures
        (a + b) + c == a + (b + c),
{
    assert((a + b) + c =~= a + (b + c));
}

/// Reading a posting file that was written gives the posting list back.
pub proof fn law_postings_round_trip(list: Seq<Posting>)
    requires
        list.len() <= u64::MAX,
    ensures
        postings_of_bytes(postings_bytes(list)) == Some(list),
{
    assert forall|i: int, r: Seq<u8>| 0 <= i < list.len() implies #[trigger] posting_parse()(
        posting_ser()(list[i]) + r,
    ) == Some((list[i], r)) by {
        lemma_posting_round_trip(list[i], r);
    }
    lemma_seq_round_trip(posting_ser(), posting_parse(), list, Seq::empty());
    assert(postings_bytes(list) + Seq::<u8>::empty() =~= postings_bytes(list));
}

/// Reading a dictionary file that was written gives the dictionary back.
pub proof fn law_dictionary_round_trip(terms: Seq<Seq<char>>, dfs: Seq<u32>)
    requires
        terms.no_duplicates(),
        terms.len() <= u32::MAX,
        dfs.len() == terms.len(),
        texts_fit(terms),
    ensures
        dictionary_of_bytes(dictionary_bytes(terms, dfs)) == Some((terms, dfs)),
{
    let entries = entries_of_terms(terms);
    let second = ser_seq(u32_ser(), dfs);
    assert forall|i: int, r: Seq<u8>| 0 <= i < entries.len() implies #[trigger] text_id_parse()(
        text_id_ser()(entries[i]) + r,
    ) == Some((entries[i], r)) by {
        assert(entries[i].0 == terms[i]);
        lemma_text_id_round_trip(entries[i], r);
    }
    lemma_seq_round_trip(text_id_ser(), text_id_parse(), entries, second);
    assert forall|i: int, r: Seq<u8>| 0 <= i < dfs.len() implies #[trigger] u32_parse()(
        u32_ser()(dfs[i]) + r,
    ) == Some((dfs[i], r)) by {
        lemma_u32_round_trip(dfs[i], r);
    }
    lemma_seq_round_trip(u32_ser(), u32_parse(), dfs, Seq::empty());
    assert(second + Seq::<u8>::empty() =~= second);
    lemma_entries_of_terms(terms, dfs);
}

/// Reading a document file that was written gives the records back.
pub proof fn law_docs_round_trip(metas: Seq<DocMetaView>)
    requires
        metas.len() <= u32::MAX,
        forall|i: int| 0 <= i < metas.len() ==> meta_fits(#[trigger] metas[i]),
    ensures
        docs_of_bytes(docs_bytes(metas)) == Some(metas),
{
    let entries = entries_of_metas(metas);
    assert forall|i: int, r: Seq<u8>| 0 <= i < entries.len() implies #[trigger] doc_entry_parse()(
        doc_entry_ser()(entries[i]) + r,
    ) == Some((entries[i], r)) by {
        assert(entries[i].1 == metas[i]);
        lemma_doc_entry_round_trip(entries[i], r);
    }
    lemma_seq_round_trip(doc_entry_ser(), doc_entry_parse(), entries, Seq::empty());
    assert(docs_bytes(metas) + Seq::<u8>::empty() =~= docs_bytes(metas));
    lemma_entries_of_metas(metas);
}

/// Reading a map file that was written gives the keys and values back.
pub proof fn law_doc_id_map_round_trip(keys: Seq<Seq<char>>, values: Seq<DocId>)
    requires
        keys.no_duplicates(),
        keys.len() <= u32::MAX,
        values.len() == keys.len(),
        texts_fit(keys),
    ensures
        doc_id_map_of_bytes(doc_id_map_bytes(keys, values)) == Some((keys, values)),
{
    let entries = map_entries(keys, values);
    assert forall|i: int, r: Seq<u8>| 0 <= i < entries.len() implies #[trigger] text_id_parse()(
        text_id_ser()(entries[i]) + r,
    ) == Some((entries[i], r)) by {
        assert(entries[i].0 == keys[i]);
        lemma_text_id_round_trip(entries[i], r);
    }
    lemma_seq_round_trip(text_id_ser(), text_id_parse(), entries, Seq::empty());
    assert(doc_id_map_bytes(keys, values) + Seq::<u8>::empty() =~= doc_id_map_bytes(keys, values));
    assert(firsts(entries) =~= keys);
    assert(seconds(entries) =~= values);
}

/// Writing, reading and writing again gives the same bytes: the bytes of a
/// file are a function of what the file holds, and reading gives that back.
pub proof fn law_rewrite_is_identical(
    list: Seq<Posting>,
    terms: Seq<Seq<char>>,
    dfs: Seq<u32>,
    metas: Seq<DocMetaView>,
    keys: Seq<Seq<char>>,
    values: Seq<DocId>,
)
    requires
        list.len() <= u64::MAX,
        terms.no_duplicates(),
        terms.len() <= u32::MAX,
        dfs.len() == terms.len(),
        texts_fit(terms),
        metas.len() <= u32::MAX,
        forall|i: int| 0 <= i < metas.len() ==> meta_fits(#[trigger] metas[i]),
        keys.no_duplicates(),
        keys.len() <= u32::MAX,
        values.len() == keys.len(),
        texts_fit(keys),
    ensures
        postings_of_bytes(postings_bytes(list)) matches Some(again) && postings_bytes(again)
            == postings_bytes(list),
        dictionary_of_bytes(dictionary_bytes(terms, dfs)) matches Some(again) && dictionary_bytes(
            again.0,
            again.1,
        ) == dictionary_bytes(terms, dfs),
        docs_of_bytes(docs_bytes(metas)) matches Some(again) && docs_bytes(again) == docs_bytes(metas),
        doc_id_map_of_bytes(doc_id_map_bytes(keys, values)) matches Some(again) && doc_id_map_bytes(
            again.0,
            again.1,
        ) == doc_id_map_bytes(keys, values),
{
    law_postings_round_trip(list);
    law_dictionary_round_trip(terms, dfs);
    law_docs_round_trip(metas);
    law_doc_id_map_round_trip(keys, values);
}

/// Every posting file of an index holds a well-formed posting list: read back,
/// its document identifiers rise strictly, they are below the number of
/// documents, and its weights are finite and not negative.
pub proof fn law_persisted_postings(index: InvertedIndex, t: int)
    requires
        index.wf(),
        0 <= t < index.lists().len(),
    ensures
        postings_of_bytes(postings_bytes(index.lists()[t])) == Some(index.lists()[t]),
        posting_list_wf(index.lists()[t]),
        forall|i: int|
            0 <= i < index.lists()[t].len() ==> (#[trigger] index.lists()[t][i]).doc_id
                < index.num_docs,
{
    assert(index.lists()[t] == index.postings@[t]@);
    assert(index.postings@[t].len() == index.postings@[t]@.len());
    law_postings_round_trip(index.lists()[t]);
}

/// Appends a posting list as a sequence.
fn write_postings(out: &mut Vec<u8>, list: &Vec<Posting>)
    ensures
        final(out)@ == old(out)@ + ser_seq(posting_ser(), list@),
{
    write_len(out, list.len());
    let ghost head = out@;
    let mut i: usize = 0;
    assert(list@.take(0) =~= Seq::<Posting>::empty());
    assert(out@ =~= head + ser_many(posting_ser(), list@.take(0)));
    while i < list.len()
        invariant
            i <= list.len(),
            out@ == head + ser_many(posting_ser(), list@.take(i as int)),
        decreases list.len() - i,
    {
        let ghost before = out@;
        let p = list[i];
        write_u32(out, p.doc_id);
        write_u32(out, p.weight_bits);
        proof {
            lemma_ser_many_push(posting_ser(), list@.take(i as int), p);
            assert(list@.take(i + 1) =~= list@.take(i as int).push(p));
            assert(out@ =~= before + ser_posting(p));
            assert(out@ =~= head + ser_many(posting_ser(), list@.take(i + 1)));
        }
        i += 1;
    }
    assert(list@.take(i as int) =~= list@);
    assert(out@ =~= old(out)@ + ser_seq(posting_ser(), list@));
}

/// Appends a sequence of 32-bit integers.
fn write_u32s(out: &mut Vec<u8>, list: &Vec<u32>)
    ensures
        final(out)@ == old(out)@ + ser_seq(u32_ser(), list@),
{
    write_len(out, list.len());
    let ghost head = out@;
    let mut i: usize = 0;
    assert(list@.take(0) =~= Seq::<u32>::empty());
    assert(out@ =~= head + ser_many(u32_ser(), list@.take(0)));
    while i < list.len()
        invariant
            i <= list.len(),
            out@ == head + ser_many(u32_ser(), list@.take(i as int)),
        decreases list.len() - i,
    {
        let x = list[i];
        write_u32(out, x);
        proof {
            lemma_ser_many_push(u32_ser(), list@.take(i as int), x);
            assert(list@.take(i + 1) =~= list@.take(i as int).push(x));
            assert(out@ =~= head + ser_many(u32_ser(), list@.take(i + 1)));
        }
        i += 1;
    }
    assert(list@.take(i as int) =~= list@);
    assert(out@ =~= old(out)@ + ser_seq(u32_ser(), list@));
}

/// Appends a sequence of texts with a number each.
fn write_text_ids(out: &mut Vec<u8>, list: &Vec<(String, u32)>)
    ensures
        final(out)@ == old(out)@ + ser_seq(text_id_ser(), text_ids(list@)),
{
    let ghost model = text_ids(list@);
    write_len(out, list.len());
    let ghost head = out@;
    let mut i: usize = 0;
    assert(model.take(0) =~= Seq::<(Seq<char>, u32)>::empty());
    assert(out@ =~= head + ser_many(text_id_ser(), model.take(0)));
    while i < list.len()
        invariant
            i <= list.len(),
            model == text_ids(list@),
            out@ == head + ser_many(text_id_ser(), model.take(i as int)),
        decreases list.len() - i,
    {
        let ghost before = out@;
        write_text(out, list[i].0.as_str());
        write_u32(out, list[i].1);
        proof {
            let e = model[i as int];
            lemma_ser_many_push(text_id_ser(), model.take(i as int), e);
            assert(model.take(i + 1) =~= model.take(i as int).push(e));
            assert(out@ =~= before + ser_text_id(e));
            assert(out@ =~= head + ser_many(text_id_ser(), model.take(i + 1)));
        }
        i += 1;
    }
    assert(model.take(i as int) =~= model);
    assert(out@ =~= old(out)@ + ser_seq(text_id_ser(), model));
}

/// Appends a sequence of document entries.
fn write_doc_entries(out: &mut Vec<u8>, list: &Vec<(DocId, DocMeta)>)
    ensures
        final(out)@ == old(out)@ + ser_seq(doc_entry_ser(), meta_entries(list@)),
{
    let ghost model = meta_entries(list@);
    write_len(out, list.len());
    let ghost head = out@;
    let mut i: usize = 0;
    assert(model.take(0) =~= Seq::<(DocId, DocMetaView)>::empty());
    assert(out@ =~= head + ser_many(doc_entry_ser(), model.take(0)));
    while i < list.len()
        invariant
            i <= list.len(),
            model == meta_entries(list@),
            out@ == head + ser_many(doc_entry_ser(), model.take(i as int)),
        decreases list.len() - i,
    {
        let ghost before = out@;
        let meta = &list[i].1;
        write_u32(out, list[i].0);
        write_text(out, meta.external_id.as_str());
        write_text(out, meta.title.as_str());
        write_opt_text(out, &meta.url);
        write_opt_text(out, &meta.text_path);
        proof {
            let e = model[i as int];
            lemma_ser_many_push(doc_entry_ser(), model.take(i as int), e);
            assert(model.take(i + 1) =~= model.take(i as int).push(e));
            assert(out@ == before + ser_doc_entry(e));
            assert(out@ =~= head + ser_many(doc_entry_ser(), model.take(i + 1)));
        }
        i += 1;
    }
    assert(model.take(i as int) =~= model);
    assert(out@ =~= old(out)@ + ser_seq(doc_entry_ser(), model));
}

/// Reads a posting list as a sequence.
fn read_postings<'a>(r: &mut Reader<'a>) -> (out: Option<Vec<Posting>>)
    requires
        old(r).wf(),
    ensures
        final(r).wf(),
        match out {
            Some(list) => parse_seq(posting_parse(), old(r).rest()) == Some((list@, final(r).rest())),
            None => parse_seq(posting_parse(), old(r).rest()) is None,
        },
{
    let ghost start = r.rest();
    let n = match r.read_u64() {
        Some(n) => n,
        None => {
            return None;
        },
    };
    let ghost body = r.rest();
    let mut list: Vec<Posting> = Vec::new();
    let mut i: u64 = 0;
    assert(Seq::<Posting>::empty() + Seq::<Posting>::empty() =~= Seq::<Posting>::empty());
    while i < n
        invariant
            r.wf(),
            i <= n,
            start == old(r).rest(),
            parse_seq(posting_parse(), start) == parse_many(posting_parse(), n as nat, body),
            parse_many(posting_parse(), n as nat, body) == continued(
                list@,
                parse_many(posting_parse(), (n - i) as nat, r.rest()),
            ),
        decreases n - i,
    {
        proof {
            lemma_many_step(posting_parse(), list@, (n - i) as nat, r.rest());
        }
        let doc_id = match r.read_u32() {
            Some(x) => x,
            None => {
                return None;
            },
        };
        let weight_bits = match r.read_u32() {
            Some(x) => x,
            None => {
                return None;
            },
        };
        list.push(Posting { doc_id, weight_bits });
        i += 1;
    }
    assert(list@ + Seq::<Posting>::empty() =~= list@);
    Some(list)
}

/// Reads a sequence of 32-bit integers.
fn read_u32s<'a>(r: &mut Reader<'a>) -> (out: Option<Vec<u32>>)
    requires
        old(r).wf(),
    ensures
        final(r).wf(),
        match out {
            Some(list) => parse_seq(u32_parse(), old(r).rest()) == Some((list@, final(r).rest())),
            None => parse_seq(u32_parse(), old(r).rest()) is None,
        },
{
    let ghost start = r.rest();
    let n = match r.read_u64() {
        Some(n) => n,
        None => {
            return None;
        },
    };
    let ghost body = r.rest();
    let mut list: Vec<u32> = Vec::new();
    let mut i: u64 = 0;
    assert(Seq::<u32>::empty() + Seq::<u32>::empty() =~= Seq::<u32>::empty());
    while i < n
        invariant
            r.wf(),
            i <= n,
            start == old(r).rest(),
            parse_seq(u32_parse(), start) == parse_many(u32_parse(), n as nat, body),
            parse_many(u32_parse(), n as nat, body) == continued(
                list@,
                parse_many(u32_parse(), (n - i) as nat, r.rest()),
            ),
        decreases n - i,
    {
        proof {
            lemma_many_step(u32_parse(), list@, (n - i) as nat, r.rest());
        }
        let x = match r.read_u32() {
            Some(x) => x,
            None => {
                return None;
            },
        };
        list.push(x);
        i += 1;
    }
    assert(list@ + Seq::<u32>::empty() =~= list@);
    Some(list)
}

/// Reads a sequence of texts with a number each.
fn read_text_ids<'a>(r: &mut Reader<'a>) -> (out: Option<Vec<(String, u32)>>)
    requires
        old(r).wf(),
    ensures
        final(r).wf(),
        match out {
            Some(list) => parse_seq(text_id_parse(), old(r).rest()) == Some(
                (text_ids(list@), final(r).rest()),
            ),
            None => parse_seq(text_id_parse(), old(r).rest()) is None,
        },
{
    let ghost start = r.rest();
    let n = match r.read_u64() {
        Some(n) => n,
        None => {
            return None;
        },
    };
    let ghost body = r.rest();
    let mut list: Vec<(String, u32)> = Vec::new();
    let mut i: u64 = 0;
    assert(text_ids(list@) =~= Seq::<(Seq<char>, u32)>::empty());
    assert(text_ids(list@) + Seq::<(Seq<char>, u32)>::empty() =~= text_ids(list@));
    while i < n
        invariant
            r.wf(),
            i <= n,
            start == old(r).rest(),
            parse_seq(text_id_parse(), start) == parse_many(text_id_parse(), n as nat, body),
            parse_many(text_id_parse(), n as nat, body) == continued(
                text_ids(list@),
                parse_many(text_id_parse(), (n - i) as nat, r.rest()),
            ),
        decreases n - i,
    {
        let ghost before = list@;
        proof {
            lemma_many_step(text_id_parse(), text_ids(list@), (n - i) as nat, r.rest());
        }
        let text = match r.read_text() {
            Some(x) => x,
            None => {
                return None;
            },
        };
        let id = match r.read_u32() {
            Some(x) => x,
            None => {
                return None;
            },
        };
        list.push((text, id));
        assert(text_ids(list@) =~= text_ids(before).push((text@, id)));
        i += 1;
    }
    assert(text_ids(list@) + Seq::<(Seq<char>, u32)>::empty() =~= text_ids(list@));
    Some(list)
}

/// Reads a sequence of document entries.
fn read_doc_entries<'a>(r: &mut Reader<'a>) -> (out: Option<Vec<(DocId, DocMeta)>>)
    requires
        old(r).wf(),
    ensures
        final(r).wf(),
        match out {
            Some(list) => parse_seq(doc_entry_parse(), old(r).rest()) == Some(
                (meta_entries(list@), final(r).rest()),
            ),
            None => parse_seq(doc_entry_parse(), old(r).rest()) is None,
        },
{
    let ghost start = r.rest();
    let n = match r.read_u64() {
        Some(n) => n,
        None => {
            return None;
        },
    };
    let ghost body = r.rest();
    let mut list: Vec<(DocId, DocMeta)> = Vec::new();
    let mut i: u64 = 0;
    assert(meta_entries(list@) =~= Seq::<(DocId, DocMetaView)>::empty());
    assert(meta_entries(list@) + Seq::<(DocId, DocMetaView)>::empty() =~= meta_entries(list@));
    while i < n
        invariant
            r.wf(),
            i <= n,
            start == old(r).rest(),
            parse_seq(doc_entry_parse(), start) == parse_many(doc_entry_parse(), n as nat, body),
            parse_many(doc_entry_parse(), n as nat, body) == continued(
                meta_entries(list@),
                parse_many(doc_entry_parse(), (n - i) as nat, r.rest()),
            ),
        decreases n - i,
    {
        let ghost before = list@;
        proof {
            lemma_many_step(doc_entry_parse(), meta_entries(list@), (n - i) as nat, r.rest());
        }
        let id = match r.read_u32() {
            Some(x) => x,
            None => {
                return None;
            },
        };
        let external_id = match r.read_text() {
            Some(x) => x,
            None => {
                return None;
            },
        };
        let title = match r.read_text() {
            Some(x) => x,
            None => {
                return None;
            },
        };
        let url = match r.read_opt_text() {
            Some(x) => x,
            None => {
                return None;
            },
        };
        let text_path = match r.read_opt_text() {
            Some(x) => x,
            None => {
                return None;
            },
        };
        let meta = DocMeta { external_id, title, url, text_path };
        list.push((id, meta));
        assert(meta_entries(list@) =~= meta_entries(before).push((id, meta@)));
        i += 1;
    }
    assert(meta_entries(list@) + Seq::<(DocId, DocMetaView)>::empty() =~= meta_entries(list@));
    Some(list)
}

/// The bytes of the posting file of a posting list.
pub fn encode_postings(list: &Vec<Posting>) -> (bytes: Vec<u8>)
    ensures
        bytes@ == postings_bytes(list@),
{
    let mut out: Vec<u8> = Vec::new();
    write_postings(&mut out, list);
    assert(out@ =~= postings_bytes(list@));
    out
}

/// The posting list of a posting file, or `None` where the bytes are none.
pub fn decode_postings(bytes: &[u8]) -> (r: Option<Vec<Posting>>)
    ensures
        match r {
            Some(list) => postings_of_bytes(bytes@) == Some(list@),
            None => postings_of_bytes(bytes@) is None,
        },
{
    let mut reader = Reader::new(bytes);
    read_postings(&mut reader)
}

/// The posting list that a posting file holds for an index of `num_docs`
/// documents: none where the bytes are no posting file, the list is not well
/// formed, or it names a document that the index does not have.
pub open spec fn posting_list_of_bytes(b: Seq<u8>, num_docs: u32) -> Option<Seq<Posting>> {
    match postings_of_bytes(b) {
        Some(list) => if posting_list_wf(list) && forall|i: int|
            0 <= i < list.len() ==> (#[trigger] list[i]).doc_id < num_docs {
            Some(list)
        } else {
            None
        },
        None => None,
    }
}

/// Reads the posting list of a term for a search over an index of `num_docs`
/// documents, and checks it.
pub fn read_posting_list(bytes: &[u8], num_docs: u32) -> (r: Option<Vec<Posting>>)
    ensures
        match r {
            Some(list) => posting_list_of_bytes(bytes@, num_docs) == Some(list@),
            None => posting_list_of_bytes(bytes@, num_docs) is None,
        },
{
    let list = match decode_postings(bytes) {
        Some(list) => list,
        None => {
            return None;
        },
    };
    if !is_posting_list(&list) {
        return None;
    }
    let n = list.len();
    if n > 0 && list[n - 1].doc_id >= num_docs {
        return None;
    }
    proof {
        assert forall|i: int| 0 <= i < list@.len() implies (#[trigger] list@[i]).doc_id < num_docs by {
            if i < n - 1 {
                assert(list@[i].doc_id < list@[n - 1].doc_id);
            }
        }
    }
    Some(list)
}

/// The bytes of the dictionary file of a dictionary.
pub fn encode_dictionary(dictionary: &Dictionary) -> (bytes: Vec<u8>)
    requires
        dictionary.wf(),
    ensures
        bytes@ == dictionary_bytes(dictionary.terms(), dictionary.dfs()),
{
    let mut out: Vec<u8> = Vec::new();
    let entries = dictionary.entries();
    write_text_ids(&mut out, &entries);
    write_u32s(&mut out, dictionary.document_frequencies());
    assert(out@ =~= dictionary_bytes(dictionary.terms(), dictionary.dfs()));
    out
}

/// The dictionary of a dictionary file, or `None` where the bytes are none or
/// its entries are not valid.
pub fn decode_dictionary(bytes: &[u8]) -> (r: Option<Dictionary>)
    ensures
        match r {
            Some(d) => d.wf() && dictionary_of_bytes(bytes@) == Some((d.terms(), d.dfs())),
            None => dictionary_of_bytes(bytes@) is None,
        },
{
    let mut reader = Reader::new(bytes);
    let entries = match read_text_ids(&mut reader) {
        Some(entries) => entries,
        None => {
            return None;
        },
    };
    let dfs = match read_u32s(&mut reader) {
        Some(dfs) => dfs,
        None => {
            return None;
        },
    };
    Dictionary::from_entries(&entries, &dfs)
}

/// The bytes of the document file of a store.
pub fn encode_docs(docs: &DocStore) -> (bytes: Vec<u8>)
    requires
        docs.wf(),
    ensures
        bytes@ == docs_bytes(docs.metas()),
{
    let mut out: Vec<u8> = Vec::new();
    let entries = docs.entries();
    write_doc_entries(&mut out, &entries);
    assert(out@ =~= docs_bytes(docs.metas()));
    out
}

/// The store of a document file, or `None` where the bytes are none or its
/// entries are not valid.
pub fn decode_docs(bytes: &[u8]) -> (r: Option<DocStore>)
    ensures
        match r {
            Some(s) => s.wf() && docs_of_bytes(bytes@) == Some(s.metas()),
            None => docs_of_bytes(bytes@) is None,
        },
{
    let mut reader = Reader::new(bytes);
    let entries = match read_doc_entries(&mut reader) {
        Some(entries) => entries,
        None => {
            return None;
        },
    };
    DocStore::from_entries(&entries)
}

/// The bytes of the map file of a map from external identifiers to document
/// identifiers.
pub fn encode_doc_id_map(map: &DocIdMap) -> (bytes: Vec<u8>)
    requires
        map.wf(),
    ensures
        bytes@ == doc_id_map_bytes(map.keys(), map.values()),
{
    let mut out: Vec<u8> = Vec::new();
    let entries = map.entries();
    write_text_ids(&mut out, &entries);
    proof {
        assert(text_ids(entries@) =~= map_entries(map.keys(), map.values())) by {
            assert forall|i: int| 0 <= i < entries@.len() implies text_ids(entries@)[i] == map_entries(
                map.keys(),
                map.values(),
            )[i] by {
                assert(firsts(text_ids(entries@))[i] == map.keys()[i]);
                assert(seconds(text_ids(entries@))[i] == map.values()[i]);
            }
            assert(firsts(text_ids(entries@)).len() == map.keys().len());
        }
        assert(out@ =~= doc_id_map_bytes(map.keys(), map.values()));
    }
    out
}

/// The map of a map file, or `None` where the bytes are none, a key occurs
/// twice or the entries are too many.
pub fn decode_doc_id_map(bytes: &[u8]) -> (r: Option<DocIdMap>)
    ensures
        match r {
            Some(m) => m.wf() && doc_id_map_of_bytes(bytes@) == Some((m.keys(), m.values())),
            None => doc_id_map_of_bytes(bytes@) is None,
        },
{
    let mut reader = Reader::new(bytes);
    let entries = match read_text_ids(&mut reader) {
        Some(entries) => entries,
        None => {
            return None;
        },
    };
    DocIdMap::from_entries(&entries)
}

/// Which file of the header could not be read.
#[derive(Debug, Clone, Copy, PartialEq, Eq)]
pub enum LoadError {
    /// The dictionary file is no valid dictionary.
    Dictionary,
    /// The document file is no valid document table.
    Docs,
}

/// Loads what a search needs of an index before any query: the dictionary with
/// the document frequencies and the document records, from the bytes of their
/// files, together with the header.
pub fn load_index_header(dictionary_bytes: &[u8], docs_bytes: &[u8], meta: MetaFile) -> (r: Result<
    (Dictionary, DocStore, MetaFile),
    LoadError,
>)
    ensures
        match r {
            Ok((dictionary, docs, kept)) => {
                &&& dictionary.wf()
                &&& docs.wf()
                &&& dictionary_of_bytes(dictionary_bytes@) == Some((dictionary.terms(), dictionary.dfs()))
                &&& docs_of_bytes(docs_bytes@) == Some(docs.metas())
                &&& kept == meta
            },
            Err(LoadError::Dictionary) => dictionary_of_bytes(dictionary_bytes@) is None,
            Err(LoadError::Docs) => dictionary_of_bytes(dictionary_bytes@) is Some && docs_of_bytes(
                docs_bytes@,
            ) is None,
        },
{
    let dictionary = match decode_dictionary(dictionary_bytes) {
        Some(d) => d,
        None => {
            return Err(LoadError::Dictionary);
        },
    };
    let docs = match decode_docs(docs_bytes) {
        Some(s) => s,
        None => {
            return Err(LoadError::Docs);
        },
    };
    Ok((dictionary, docs, meta))
}

} // verus!
