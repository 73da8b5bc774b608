//! The answer to a search: for each of the best documents its record and a
//! snippet of its stored text.

use vstd::prelude::*;
use crate::index::{clone_opt, opt_text, DocId, DocMetaView};
use crate::query::AppState;
use crate::ranking::{count_hits, nonzero_count, ScoredDoc};
use crate::snippet::{snippet_from_text, snippet_of};
use crate::strings::texts;

verus! {

/// One result of a search. The score is carried as the bit pattern of an
/// IEEE-754 single.
#[derive(Debug)]
pub struct SearchHit {
    pub doc_id: DocId,
    pub score_bits: u32,
    pub title: String,
    pub url: Option<String>,
    pub snippet: Option<String>,
}

/// The model of a `SearchHit`.
pub struct SearchHitView {
    pub doc_id: DocId,
    pub score_bits: u32,
    pub title: Seq<char>,
    pub url: Option<Seq<char>>,
    pub snippet: Option<Seq<char>>,
}

impl View for SearchHit {
    type V = SearchHitView;

    open spec fn view(&self) -> SearchHitView {
        SearchHitView {
            doc_id: self.doc_id,
            score_bits: self.score_bits,
            title: self.title@,
            url: opt_text(self.url),
            snippet: opt_text(self.snippet),
        }
    }
}

/// The answer to a search request. The time taken is added where it is
/// measured.
#[derive(Debug)]
pub struct SearchResponse {
    pub query: String,
    /// The number of documents with a score other than zero.
    pub total_hits: usize,
    /// The best documents, best first.
    pub results: Vec<SearchHit>,
}

impl SearchResponse {
    /// The answer to a query without a known term: no hits at all.
    pub fn empty(query: String) -> (r: SearchResponse)
        ensures
            r.query == query,
            r.total_hits == 0,
            r.results@.len() == 0,
    {
        SearchResponse { query, total_hits: 0, results: Vec::new() }
    }

    /// The answer to a query with the given scored documents and the hits made
    /// of the best of them.
    pub fn new(query: String, scored: &Vec<ScoredDoc>, results: Vec<SearchHit>) -> (r: SearchResponse)
        ensures
            r.query == query,
            r.total_hits == nonzero_count(scored@),
            r.results == results,
    {
        SearchResponse { query, total_hits: count_hits(scored), results }
    }
}

/// The models of a list of hits.
pub open spec fn hit_views(hits: Seq<SearchHit>) -> Seq<SearchHitView> {
    hits.map_values(|h: SearchHit| h@)
}

/// The texts of a list of optional strings.
pub open spec fn opt_texts(list: Seq<Option<String>>) -> Seq<Option<Seq<char>>> {
    list.map_values(|o: Option<String>| opt_text(o))
}

/// Where the text of a scored document is stored: the path of its record, and
/// none for a document without a record or without a stored text.
pub open spec fn stored_text_of(metas: Seq<DocMetaView>, doc: ScoredDoc) -> Option<Seq<char>> {
    if doc.doc_id < metas.len() {
        metas[doc.doc_id as int].text_path
    } else {
        None
    }
}

/// The text at a place of a list, and none beyond its end.
pub open spec fn text_at(stored: Seq<Option<Seq<char>>>, i: int) -> Option<Seq<char>> {
    if 0 <= i < stored.len() {
        stored[i]
    } else {
        None
    }
}

/// The hit of a scored document: its record with the snippet of its stored
/// text, where that text could be had; none for a document without a record.
pub open spec fn hit_of(
    metas: Seq<DocMetaView>,
    doc: ScoredDoc,
    stored: Option<Seq<char>>,
    terms: Seq<Seq<char>>,
) -> Option<SearchHitView> {
    if doc.doc_id < metas.len() {
        Some(
            SearchHitView {
                doc_id: doc.doc_id,
                score_bits: doc.score_bits,
                title: metas[doc.doc_id as int].title,
                url: metas[doc.doc_id as int].url,
                snippet: match stored {
                    Some(text) => snippet_of(text, terms),
                    None => None,
                },
            },
        )
    } else {
        None
    }
}

/// The hits of the best documents, in their order; a document without a record
/// is passed over.
pub open spec fn hits_of(
    metas: Seq<DocMetaView>,
    best: Seq<ScoredDoc>,
    stored: Seq<Option<Seq<char>>>,
    terms: Seq<Seq<char>>,
) -> Seq<SearchHitView>
    decreases best.len(),
{
    if best.len() == 0 {
        Seq::empty()
    } else {
        let before = hits_of(metas, best.drop_last(), stored, terms);
        match hit_of(metas, best.last(), text_at(stored, best.len() - 1), terms) {
            Some(hit) => before.push(hit),
            None => before,
        }
    }
}

/// The paths of the stored texts of the best documents, one for each, in
/// their order.
pub fn text_paths(state: &AppState, best: &Vec<ScoredDoc>) -> (r: Vec<Option<String>>)
    ensures
        r@.len() == best@.len(),
        forall|i: int|
            0 <= i < best@.len() ==> opt_text(#[trigger] r@[i]) == stored_text_of(
                state.docs.metas(),
                best@[i],
            ),
{
    let mut out: Vec<Option<String>> = Vec::new();
    let mut i: usize = 0;
    while i < best.len()
        invariant
            i <= best.len(),
            out@.len() == i,
            forall|j: int|
                0 <= j < i ==> opt_text(#[trigger] out@[j]) == stored_text_of(
                    state.docs.metas(),
                    best@[j],
                ),
        decreases best.len() - i,
    {
        let path = match state.docs.get(best[i].doc_id) {
            Some(meta) => clone_opt(&meta.text_path),
            None => None,
        };
        out.push(path);
        i += 1;
    }
    out
}

/// Makes the hits of the best documents. `stored` holds, for each of them in
/// order, its stored text, or none where it has none or it could not be read.
pub fn make_hits(
    state: &AppState,
    best: &Vec<ScoredDoc>,
    stored: &Vec<Option<String>>,
    raw_terms: &Vec<String>,
) -> (r: Vec<SearchHit>)
    ensures
        hit_views(r@) == hits_of(state.docs.metas(), best@, opt_texts(stored@), texts(raw_terms@)),
        r@.len() <= best@.len(),
{
    let ghost metas = state.docs.metas();
    let ghost given = opt_texts(stored@);
    let ghost terms = texts(raw_terms@);
    let mut out: Vec<SearchHit> = Vec::new();
    let mut i: usize = 0;
    proof {
        assert(best@.take(0) =~= Seq::<ScoredDoc>::empty());
        assert(hit_views(out@) =~= Seq::<SearchHitView>::empty());
    }
    while i < best.len()
        invariant
            i <= best.len(),
            metas == state.docs.metas(),
            given == opt_texts(stored@),
            terms == texts(raw_terms@),
            hit_views(out@) == hits_of(metas, best@.take(i as int), given, terms),
            out@.len() <= i,
        decreases best.len() - i,
    {
        proof {
            assert(best@.take(i + 1).drop_last() =~= best@.take(i as int));
            assert(best@.take(i + 1).last() == best@[i as int]);
        }
        let doc = best[i];
        match state.docs.get(doc.doc_id) {
            Some(meta) => {
                let snippet = if i < stored.len() {
                    match &stored[i] {
                        Some(text) => snippet_from_text(text.as_str(), raw_terms),
                        None => None,
                    }
                } else {
                    None
                };
                let hit = SearchHit {
                    doc_id: doc.doc_id,
                    score_bits: doc.score_bits,
                    title: meta.title.clone(),
                    url: clone_opt(&meta.url),
                    snippet,
                };
                let ghost before = out@;
                out.push(hit);
                proof {
                    assert(hit_views(out@) =~= hit_views(before).push(hit@));
                    assert(Some(hit@) == hit_of(metas, doc, text_at(given, i as int), terms));
                }
            },
            None => {},
        }
        i += 1;
    }
    proof {
        assert(best@.take(i as int) =~= best@);
    }
    out
}

} // verus!
