//! Index construction: documents are ingested one by one, each receiving the
//! next document identifier; the dictionary, the document frequencies and the
//! raw posting lists grow with them.
//!
//! The builder's state is a function of the documents ingested so far, which
//! it carries as a ghost corpus: see `IndexBuilder::wf`.

use vstd::prelude::*;
use crate::corpus::{
    count_of, docs_with, extend_vocabulary, lemma_count_of, lemma_count_of_push,
    lemma_doc_frequency, lemma_extend_vocabulary, lemma_raw_postings, lemma_vocabulary,
    pending_postings, raw_postings, vocabulary, Doc,
};
use crate::dictionary::{Dictionary, TermId};
use crate::doc_id_map::DocIdMap;
use crate::docs::DocStore;
use crate::index::{
    finite_weight, opt_text, posting_list_wf, text_path_text, DocId, DocMetaView, InputDoc,
    InvertedIndex, Posting, MAX_FINITE_BITS,
};
use crate::tokenizer::{token_stream, tokenize, tokens_of};

verus! {

/// The stems of a token stream, in order.
pub open spec fn stems_of(stream: Seq<(Seq<char>, nat)>) -> Doc {
    stream.map_values(|t: (Seq<char>, nat)| t.0)
}

/// The record that the index keeps of an ingested document.
pub open spec fn meta_of(doc: &InputDoc, id: DocId) -> DocMetaView {
    DocMetaView {
        external_id: doc.id@,
        title: doc.title@,
        url: opt_text(doc.url),
        text_path: Some(text_path_text(id)),
    }
}

/// For each external identifier, the last document that came with it.
pub open spec fn last_doc_ids(metas: Seq<DocMetaView>) -> Map<Seq<char>, DocId>
    decreases metas.len(),
{
    if metas.len() == 0 {
        Map::empty()
    } else {
        last_doc_ids(metas.drop_last()).insert(
            metas.last().external_id,
            #[verifier::truncate] ((metas.len() - 1) as u32),
        )
    }
}

/// Why a document was not ingested.
#[derive(Debug, Clone, Copy, PartialEq, Eq)]
pub enum IngestError {
    /// The document identifiers, or the term identifiers that the document may
    /// need, do not fit 32 bits.
    IndexFull,
}

/// Why weights were not taken for the posting lists.
#[derive(Debug, Clone, Copy, PartialEq, Eq)]
pub enum FinishError {
    /// There is not one list of weights for each term, or not one weight for
    /// each posting.
    WrongShape,
    /// A weight is negative, infinite or no number.
    BadWeight,
}

/// The weights as sequences.
pub open spec fn weight_lists(weights: Seq<Vec<u32>>) -> Seq<Seq<u32>> {
    weights.map_values(|list: Vec<u32>| list@)
}

/// Whether there is one list of weights for each posting list and one weight
/// for each posting.
pub open spec fn same_shape(postings: Seq<Seq<(DocId, u32)>>, weights: Seq<Seq<u32>>) -> bool {
    &&& weights.len() == postings.len()
    &&& forall|t: int| 0 <= t < postings.len() ==> (#[trigger] weights[t]).len() == postings[t].len()
}

/// Whether every weight is finite and not negative.
pub open spec fn all_finite(weights: Seq<Seq<u32>>) -> bool {
    forall|t: int, i: int|
        0 <= t < weights.len() && 0 <= i < weights[t].len() ==> finite_weight(#[trigger] weights[t][i])
}

/// A raw posting list with a weight in place of each count.
pub open spec fn weighted(raw: Seq<(DocId, u32)>, weights: Seq<u32>) -> Seq<Posting> {
    Seq::new(raw.len(), |i: int| Posting { doc_id: raw[i].0, weight_bits: weights[i] })
}

/// The accumulators of a build.
pub struct IndexBuilder {
    dictionary: Dictionary,
    postings_raw: Vec<Vec<(DocId, u32)>>,
    docs: DocStore,
    doc_id_map: DocIdMap,
    corpus: Ghost<Seq<Doc>>,
}

impl IndexBuilder {
    /// The stems of the documents ingested so far, in ingest order.
    pub closed spec fn corpus(&self) -> Seq<Doc> {
        self.corpus@
    }

    /// The dictionary's stems by term identifier.
    pub closed spec fn terms(&self) -> Seq<Seq<char>> {
        self.dictionary.terms()
    }

    /// The document frequencies by term identifier.
    pub closed spec fn dfs(&self) -> Seq<u32> {
        self.dictionary.dfs()
    }

    /// The raw posting lists by term identifier.
    pub closed spec fn postings(&self) -> Seq<Seq<(DocId, u32)>> {
        self.postings_raw@.map_values(|list: Vec<(DocId, u32)>| list@)
    }

    /// The document records by document identifier.
    pub closed spec fn metas(&self) -> Seq<DocMetaView> {
        self.docs.metas()
    }

    /// The map from external identifiers to document identifiers.
    pub closed spec fn external_ids(&self) -> Map<Seq<char>, DocId> {
        self.doc_id_map@
    }

    /// What holds of the parts that the contracts do not speak of.
    pub closed spec fn parts_wf(&self) -> bool {
        &&& self.dictionary.wf()
        &&& self.docs.wf()
        &&& self.doc_id_map.wf()
        &&& self.doc_id_map.keys().len() <= self.corpus@.len()
    }

    /// The state is the index of the corpus: the dictionary is its vocabulary,
    /// each term has its raw posting list, whose length is the term's document
    /// frequency, and there is one record for each document.
    pub open spec fn wf(&self) -> bool {
        &&& self.parts_wf()
        &&& self.corpus().len() <= u32::MAX
        &&& forall|d: int| 0 <= d < self.corpus().len() ==> (#[trigger] self.corpus()[d]).len() <= u32::MAX
        &&& self.terms() == vocabulary(self.corpus())
        &&& self.postings().len() == self.terms().len()
        &&& self.dfs().len() == self.terms().len()
        &&& forall|t: int|
            0 <= t < self.terms().len() ==> #[trigger] self.postings()[t] == raw_postings(
                self.corpus(),
                self.terms()[t],
            )
        &&& forall|t: int|
            0 <= t < self.terms().len() ==> #[trigger] self.dfs()[t] == self.postings()[t].len()
        &&& self.metas().len() == self.corpus().len()
        &&& self.external_ids() == last_doc_ids(self.metas())
    }

    /// The builder before any document.
    pub fn new() -> (b: IndexBuilder)
        ensures
            b.wf(),
            b.corpus() == Seq::<Doc>::empty(),
    {
        let b = IndexBuilder {
            dictionary: Dictionary::new(),
            postings_raw: Vec::new(),
            docs: DocStore::new(),
            doc_id_map: DocIdMap::new(),
            corpus: Ghost(Seq::empty()),
        };
        assert(b.postings() =~= Seq::<Seq<(DocId, u32)>>::empty());
        b
    }

    /// The number of documents ingested, which is also the next document
    /// identifier.
    pub fn num_docs(&self) -> (n: u32)
        requires
            self.wf(),
        ensures
            n == self.corpus().len(),
    {
        self.docs.num_docs()
    }

    /// Whether the identifiers left suffice for one more document with that
    /// many tokens.
    pub open spec fn has_room(&self, tokens: nat) -> bool {
        self.corpus().len() < u32::MAX && self.terms().len() + tokens <= u32::MAX
    }

    /// Ingests a document whose body has been analyzed into `tokens`: the
    /// document receives the next identifier, each of its stems is interned and
    /// counted, and its record is kept. Without room for it nothing changes.
    pub fn ingest_tokens(&mut self, doc: &InputDoc, tokens: &Vec<(String, usize)>) -> (r: Result<
        DocId,
        IngestError,
    >)
        requires
            old(self).wf(),
        ensures
            final(self).wf(),
            r is Ok <==> old(self).has_room(tokens@.len()),
            match r {
                Ok(id) => {
                    &&& id == old(self).corpus().len()
                    &&& final(self).corpus() == old(self).corpus().push(stems_of(token_stream(tokens@)))
                    &&& final(self).metas() == old(self).metas().push(meta_of(doc, id))
                },
                Err(e) => {
                    &&& e == IngestError::IndexFull
                    &&& final(self).corpus() == old(self).corpus()
                    &&& final(self).metas() == old(self).metas()
                },
            },
    {
        let doc_id = self.docs.num_docs();
        if doc_id == u32::MAX || tokens.len() > u32::MAX as usize || self.dictionary.len()
            > u32::MAX as usize - tokens.len() {
            return Err(IngestError::IndexFull);
        }
        let ghost corpus0 = self.corpus@;
        let ghost vocab0 = vocabulary(corpus0);
        let ghost stems = stems_of(token_stream(tokens@));
        proof {
            lemma_vocabulary(corpus0);
            assert(stems.take(0) =~= Seq::<Seq<char>>::empty());
            assert forall|t: int| 0 <= t < self.terms().len() implies #[trigger] self.postings()[t]
                == pending_postings(corpus0, stems.take(0), self.terms()[t]) by {}
        }
        let mut i: usize = 0;
        while i < tokens.len()
            invariant
                i <= tokens.len(),
                tokens.len() <= u32::MAX,
                corpus0.len() == doc_id < u32::MAX,
                corpus0.len() <= u32::MAX,
                forall|d: int| 0 <= d < corpus0.len() ==> (#[trigger] corpus0[d]).len() <= u32::MAX,
                vocab0 == vocabulary(corpus0),
                vocab0.no_duplicates(),
                vocab0.len() + tokens.len() <= u32::MAX,
                stems == stems_of(token_stream(tokens@)),
                stems.len() == tokens.len(),
                self.corpus@ == corpus0,
                self.docs == old(self).docs,
                self.doc_id_map == old(self).doc_id_map,
                self.dictionary.wf(),
                self.terms() == extend_vocabulary(vocab0, stems.take(i as int)),
                self.terms().len() <= vocab0.len() + i,
                self.postings().len() == self.terms().len(),
                forall|t: int|
                    0 <= t < self.terms().len() ==> #[trigger] self.postings()[t] == pending_postings(
                        corpus0,
                        stems.take(i as int),
                        self.terms()[t],
                    ),
                forall|t: int|
                    0 <= t < self.terms().len() ==> #[trigger] self.dfs()[t] == self.postings()[t].len(),
            decreases tokens.len() - i,
        {
            let ghost seen = stems.take(i as int);
            let ghost terms_before = self.terms();
            let ghost postings_before = self.postings();
            let ghost dfs_before = self.dfs();
            let term = tokens[i].0.as_str();
            proof {
                assert(stems[i as int] == term@);
                assert(stems.take(i + 1) =~= seen.push(term@));
                assert(stems.take(i + 1).drop_last() =~= seen);
                lemma_extend_vocabulary(vocab0, seen);
                lemma_count_of(seen, term@);
                lemma_raw_postings(corpus0, term@);
            }
            let tid = self.dictionary.intern(term);
            if tid as usize == self.postings_raw.len() {
                self.postings_raw.push(Vec::new());
                proof {
                    assert(!terms_before.contains(term@));
                    assert(!vocab0.contains(term@));
                    assert(!seen.contains(term@));
                    lemma_absent_term_has_no_postings(corpus0, term@);
                    assert(self.postings() =~= postings_before.push(Seq::empty()));
                }
            } else {
                assert(self.postings() =~= postings_before);
            }
            let ghost postings_mid = self.postings();
            let ghost dfs_mid = self.dfs();
            assert(postings_mid[tid as int] == pending_postings(corpus0, seen, term@));
            assert forall|t: int| 0 <= t < self.terms().len() implies dfs_mid[t] == postings_mid[t].len() by {
                if t < postings_before.len() {
                    assert(dfs_before[t] == postings_before[t].len());
                    assert(dfs_mid[t] == dfs_before[t]);
                }
            }
            let list = &mut self.postings_raw[tid as usize];
            let n = list.len();
            if n > 0 && list[n - 1].0 == doc_id {
                let count = list[n - 1].1;
                list[n - 1] = (doc_id, count + 1);
                assert(list@ =~= pending_postings(corpus0, seen.push(term@), term@)) by {
                    lemma_count_of_push(seen, term@, term@);
                }
            } else {
                list.push((doc_id, 1u32));
                assert(list@ =~= pending_postings(corpus0, seen.push(term@), term@)) by {
                    lemma_count_of_push(seen, term@, term@);
                }
                self.dictionary.add_document(tid);
            }
            proof {
                assert(self.postings()[tid as int] == pending_postings(
                    corpus0,
                    stems.take(i + 1),
                    term@,
                ));
                assert forall|t: int| 0 <= t < self.terms().len() implies #[trigger] self.postings()[t]
                    == pending_postings(corpus0, stems.take(i + 1), self.terms()[t]) by {
                    if t != tid {
                        assert(self.terms()[t] != term@);
                        lemma_count_of_push(seen, term@, self.terms()[t]);
                        assert(self.postings()[t] == postings_mid[t]);
                    }
                }
                assert forall|t: int| 0 <= t < self.terms().len() implies #[trigger] self.dfs()[t]
                    == self.postings()[t].len() by {
                    if t != tid {
                        assert(self.postings()[t] == postings_mid[t]);
                        assert(self.dfs()[t] == dfs_mid[t]);
                    }
                }
            }
            i += 1;
        }
        let ghost dfs_end = self.dfs();
        let ghost postings_end = self.postings();
        let id = self.docs.register(doc);
        self.doc_id_map.insert(doc.id.as_str(), id);
        proof {
            assert(self.dfs() == dfs_end);
            assert(self.postings() == postings_end);
            assert forall|t: int| 0 <= t < self.terms().len() implies #[trigger] self.dfs()[t]
                == self.postings()[t].len() by {
                assert(dfs_end[t] == postings_end[t].len());
            }
            assert(stems.take(i as int) =~= stems);
            let corpus1 = corpus0.push(stems);
            assert(corpus1.drop_last() =~= corpus0);
            assert(corpus1.last() == stems);
            self.corpus@ = corpus1;
            assert(self.metas().drop_last() =~= old(self).metas());
        }
        Ok(id)
    }

    /// Ingests a document: analyzes its body and counts its stems.
    pub fn ingest_doc(&mut self, doc: &InputDoc) -> (r: Result<DocId, IngestError>)
        requires
            old(self).wf(),
        ensures
            final(self).wf(),
            match r {
                Ok(id) => {
                    &&& id == old(self).corpus().len()
                    &&& old(self).has_room(tokens_of(doc.body@).len())
                    &&& final(self).corpus() == old(self).corpus().push(stems_of(tokens_of(doc.body@)))
                    &&& final(self).metas() == old(self).metas().push(meta_of(doc, id))
                },
                Err(e) => {
                    &&& e == IngestError::IndexFull
                    &&& !old(self).has_room(tokens_of(doc.body@).len())
                    &&& final(self).corpus() == old(self).corpus()
                    &&& final(self).metas() == old(self).metas()
                },
            },
    {
        let tokens = tokenize(doc.body.as_str());
        self.ingest_tokens(doc, &tokens)
    }

    /// Ends the build: each posting receives its weight in place of its count.
    /// The weights are given in the order of the raw posting lists.
    pub fn finish(self, weights: &Vec<Vec<u32>>) -> (r: Result<InvertedIndex, FinishError>)
        requires
            self.wf(),
        ensures
            match r {
                Ok(index) => {
                    &&& same_shape(self.postings(), weight_lists(weights@))
                    &&& all_finite(weight_lists(weights@))
                    &&& index.wf()
                    &&& index.dictionary.terms() == self.terms()
                    &&& index.dictionary.dfs() == self.dfs()
                    &&& index.docs.metas() == self.metas()
                    &&& index.num_docs == self.corpus().len()
                    &&& forall|t: int|
                        0 <= t < self.terms().len() ==> #[trigger] index.lists()[t] == weighted(
                            self.postings()[t],
                            weights@[t]@,
                        )
                },
                Err(FinishError::WrongShape) => !same_shape(self.postings(), weight_lists(weights@)),
                Err(FinishError::BadWeight) => same_shape(self.postings(), weight_lists(weights@))
                    && !all_finite(weight_lists(weights@)),
            },
    {
        let ghost raw = self.postings();
        let ghost given = weight_lists(weights@);
        let ghost corpus = self.corpus@;
        let n = self.postings_raw.len();
        if weights.len() != n {
            return Err(FinishError::WrongShape);
        }
        let mut t: usize = 0;
        while t < n
            invariant
                t <= n,
                n == self.postings_raw@.len(),
                n == weights@.len(),
                raw == self.postings(),
                given == weight_lists(weights@),
                raw.len() == n,
                given.len() == n,
                forall|k: int| 0 <= k < t ==> (#[trigger] given[k]).len() == raw[k].len(),
            decreases n - t,
        {
            if weights[t].len() != self.postings_raw[t].len() {
                assert(given[t as int].len() != raw[t as int].len());
                return Err(FinishError::WrongShape);
            }
            t += 1;
        }
        let mut postings: Vec<Vec<Posting>> = Vec::new();
        let mut t: usize = 0;
        while t < n
            invariant
                t <= n,
                n == self.postings_raw@.len(),
                n == weights@.len(),
                raw == self.postings(),
                given == weight_lists(weights@),
                raw.len() == n,
                given.len() == n,
                same_shape(raw, given),
                postings@.len() == t,
                forall|k: int| 0 <= k < t ==> (#[trigger] postings@[k])@ == weighted(raw[k], given[k]),
                forall|k: int, i: int|
                    0 <= k < t && 0 <= i < given[k].len() ==> finite_weight(#[trigger] given[k][i]),
            decreases n - t,
        {
            let counts = &self.postings_raw[t];
            let list_weights = &weights[t];
            let mut list: Vec<Posting> = Vec::new();
            let mut i: usize = 0;
            assert(counts@ == raw[t as int]);
            assert(list_weights@ == given[t as int]);
            assert(given[t as int].len() == raw[t as int].len());
            while i < counts.len()
                invariant
                    i <= counts@.len(),
                    0 <= t < n,
                    raw.len() == n,
                    given.len() == n,
                    raw == self.postings(),
                    given == weight_lists(weights@),
                    same_shape(raw, given),
                    counts@.len() == list_weights@.len(),
                    counts@ == raw[t as int],
                    list_weights@ == given[t as int],
                    list@ == weighted(counts@, list_weights@).take(i as int),
                    forall|m: int| 0 <= m < i ==> finite_weight(#[trigger] list_weights@[m]),
                decreases counts@.len() - i,
            {
                let w = list_weights[i];
                if w > MAX_FINITE_BITS {
                    assert(!finite_weight(given[t as int][i as int]));
                    return Err(FinishError::BadWeight);
                }
                list.push(Posting { doc_id: counts[i].0, weight_bits: w });
                assert(list@ =~= weighted(counts@, list_weights@).take(i + 1));
                i += 1;
            }
            assert(list@ =~= weighted(counts@, list_weights@));
            postings.push(list);
            t += 1;
        }
        let IndexBuilder { dictionary, postings_raw: _, docs, doc_id_map: _, corpus: _ } = self;
        let num_docs = docs.num_docs();
        let index = InvertedIndex { dictionary, postings, docs, num_docs };
        proof {
            assert(index.lists().len() == n);
            assert forall|k: int| 0 <= k < n implies #[trigger] index.lists()[k] == weighted(
                raw[k],
                weights@[k]@,
            ) by {
                assert(postings@[k]@ == weighted(raw[k], given[k]));
            }
            assert forall|k: int| 0 <= k < n implies posting_list_wf(#[trigger] index.lists()[k]) by {
                lemma_raw_postings(corpus, self.terms()[k]);
                let list = index.lists()[k];
                assert(list == weighted(raw[k], given[k]));
                assert forall|i: int| 0 <= i < list.len() implies finite_weight(
                    #[trigger] list[i].weight_bits,
                ) by {
                    assert(finite_weight(given[k][i]));
                }
            }
            assert forall|k: int, i: int|
                0 <= k < index.lists().len() && 0 <= i < index.lists()[k].len() implies (
            #[trigger] index.lists()[k][i]).doc_id < index.num_docs by {
                lemma_raw_postings(corpus, self.terms()[k]);
                assert(index.lists()[k] == weighted(raw[k], given[k]));
                assert(raw[k][i].0 < corpus.len());
            }
        }
        Ok(index)
    }

    /// The dictionary with the document frequencies.
    pub fn dictionary(&self) -> (d: &Dictionary)
        requires
            self.wf(),
        ensures
            d.wf(),
            d.terms() == self.terms(),
            d.dfs() == self.dfs(),
    {
        &self.dictionary
    }

    /// The document records.
    pub fn doc_store(&self) -> (s: &DocStore)
        requires
            self.wf(),
        ensures
            s.wf(),
            s.metas() == self.metas(),
    {
        &self.docs
    }

    /// The map from external identifiers to document identifiers.
    pub fn doc_id_map(&self) -> (m: &DocIdMap)
        requires
            self.wf(),
        ensures
            m.wf(),
            m@ == self.external_ids(),
    {
        &self.doc_id_map
    }

    /// The number of terms.
    pub fn num_terms(&self) -> (n: u32)
        requires
            self.wf(),
        ensures
            n == self.terms().len(),
    {
        self.dictionary.len() as u32
    }

    /// The raw posting list of a term: for each document that holds it, in
    /// ascending order, the document and the number of occurrences.
    pub fn raw_postings_of(&self, term_id: TermId) -> (list: &Vec<(DocId, u32)>)
        requires
            self.wf(),
            term_id < self.terms().len(),
        ensures
            list@ == self.postings()[term_id as int],
            list@ == raw_postings(self.corpus(), self.terms()[term_id as int]),
    {
        let list = &self.postings_raw[term_id as usize];
        assert(list@ == self.postings()[term_id as int]);
        list
    }
}

/// Every document identifier that the index mentions is below the number of
/// documents, and each of the identifiers below it has one record: the
/// identifiers in use are exactly 0, 1, .., number of documents - 1.
pub proof fn law_doc_ids_dense(b: IndexBuilder)
    requires
        b.wf(),
    ensures
        b.metas().len() == b.corpus().len(),
        forall|t: int, i: int|
            0 <= t < b.terms().len() && 0 <= i < b.postings()[t].len() ==> (#[trigger] b.postings()[t][i]).0
                < b.corpus().len(),
        forall|k: Seq<char>|
            b.external_ids().contains_key(k) ==> #[trigger] b.external_ids()[k] < b.corpus().len(),
{
    assert forall|t: int, i: int| 0 <= t < b.terms().len() && 0 <= i < b.postings()[t].len() implies (
    #[trigger] b.postings()[t][i]).0 < b.corpus().len() by {
        lemma_raw_postings(b.corpus(), b.terms()[t]);
    }
    lemma_last_doc_ids(b.metas());
}

/// The document frequency of a term is the number of documents whose analyzed
/// body holds the term at least once.
pub proof fn law_df_counts_documents(b: IndexBuilder, t: int)
    requires
        b.wf(),
        0 <= t < b.terms().len(),
    ensures
        docs_with(b.corpus(), b.terms()[t]).finite(),
        b.dfs()[t] == docs_with(b.corpus(), b.terms()[t]).len(),
{
    lemma_doc_frequency(b.corpus(), b.terms()[t]);
}

/// In every posting list the document identifiers are strictly increasing, and
/// each entry counts the occurrences of the term in its document.
pub proof fn law_postings_ascending(b: IndexBuilder, t: int)
    requires
        b.wf(),
        0 <= t < b.terms().len(),
    ensures
        forall|i: int, j: int|
            0 <= i < j < b.postings()[t].len() ==> b.postings()[t][i].0 < b.postings()[t][j].0,
        forall|i: int|
            0 <= i < b.postings()[t].len() ==> {
                let p = #[trigger] b.postings()[t][i];
                p.0 < b.corpus().len() && p.1 == count_of(b.corpus()[p.0 as int], b.terms()[t]) && p.1 > 0
            },
{
    lemma_raw_postings(b.corpus(), b.terms()[t]);
}

/// The dictionary holds exactly the stems that occur in some document, each
/// once.
pub proof fn law_dictionary_is_vocabulary(b: IndexBuilder)
    requires
        b.wf(),
    ensures
        b.terms().no_duplicates(),
        forall|s: Seq<char>| #[trigger]
            b.terms().contains(s) <==> exists|d: int|
                0 <= d < b.corpus().len() && #[trigger] b.corpus()[d].contains(s),
{
    lemma_vocabulary(b.corpus());
}

/// The map of external identifiers holds document identifiers below the number
/// of records, and the identifier of a record's key is never below the
/// record's own: a later document replaces an earlier one.
pub proof fn lemma_last_doc_ids(metas: Seq<DocMetaView>)
    requires
        metas.len() <= u32::MAX,
    ensures
        forall|k: Seq<char>|
            last_doc_ids(metas).contains_key(k) ==> #[trigger] last_doc_ids(metas)[k] < metas.len(),
        forall|d: int|
            0 <= d < metas.len() ==> last_doc_ids(metas).contains_key((#[trigger] metas[d]).external_id)
                && last_doc_ids(metas)[metas[d].external_id] >= d,
    decreases metas.len(),
{
    if metas.len() > 0 {
        let init = metas.drop_last();
        let last = metas.last();
        lemma_last_doc_ids(init);
        assert(last_doc_ids(metas) == last_doc_ids(init).insert(
            last.external_id,
            (metas.len() - 1) as u32,
        ));
        assert forall|k: Seq<char>| last_doc_ids(metas).contains_key(k) implies #[trigger] last_doc_ids(
            metas,
        )[k] < metas.len() by {
            if k != last.external_id {
                assert(last_doc_ids(init).contains_key(k));
                assert(last_doc_ids(metas)[k] == last_doc_ids(init)[k]);
            }
        }
        assert forall|d: int| 0 <= d < metas.len() implies last_doc_ids(metas).contains_key(
            (#[trigger] metas[d]).external_id,
        ) && last_doc_ids(metas)[metas[d].external_id] >= d by {
            if d < metas.len() - 1 {
                assert(init[d] == metas[d]);
            }
        }
    }
}

/// A term outside the vocabulary has an empty posting list.
pub proof fn lemma_absent_term_has_no_postings(corpus: Seq<Doc>, term: Seq<char>)
    requires
        !vocabulary(corpus).contains(term),
    ensures
        raw_postings(corpus, term) == Seq::<(DocId, u32)>::empty(),
    decreases corpus.len(),
{
    if corpus.len() > 0 {
        let init = corpus.drop_last();
        lemma_vocabulary(init);
        lemma_extend_vocabulary(vocabulary(init), corpus.last());
        lemma_absent_term_has_no_postings(init, term);
        lemma_count_of(corpus.last(), term);
    }
}

} // verus!
