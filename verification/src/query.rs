//! The query side: from the text of a query to the terms to be scored, each
//! with its raw frequency in the query and its document frequency.

use vstd::prelude::*;
use crate::builder::stems_of;
use crate::corpus::{count_of, lemma_count_of, lemma_count_of_push, Doc};
use crate::dictionary::{Dictionary, TermId};
use crate::docs::DocStore;
use crate::interner::{lemma_position_of, position_of};
use crate::ranking::{clamp_k, clamped};
use crate::strings::{split_whitespace, texts, whitespace_split_of};
use crate::tokenizer::{
    analyzed, english_stem_of, law_analyzed_entries, law_stopwords_yield_nothing, lowercase_of,
    nfkc_of, regex_matches_of, stopword, token_pattern, token_stream, tokenize, tokens_of,
};

verus! {

/// The parameters of a search request.
#[derive(Debug)]
pub struct SearchParams {
    pub q: String,
    pub k: usize,
}

/// What a query server holds of an index for as long as it runs.
pub struct AppState {
    pub index_paths_root: String,
    pub dictionary: Dictionary,
    pub docs: DocStore,
    pub num_docs: u32,
    pub admin_token: Option<String>,
}

impl AppState {
    /// The dictionary and the document records are well formed.
    pub open spec fn wf(&self) -> bool {
        self.dictionary.wf() && self.docs.wf()
    }
}

/// One term of a query that the dictionary knows.
#[derive(Debug, Clone, Copy)]
pub struct QueryTerm {
    pub term_id: TermId,
    /// How often the term occurs in the query.
    pub tf: u32,
    /// In how many documents the term occurs, at least 1.
    pub df: u32,
}

/// What is to be done for a query.
pub struct QueryPlan {
    /// The known terms of the query, in order of first occurrence.
    pub terms: Vec<QueryTerm>,
    /// The query as the user wrote it, split at whitespace.
    pub raw_terms: Vec<String>,
    /// The number of documents to weigh with, at least 1.
    pub doc_count: u32,
    /// The number of results to return.
    pub k: usize,
}

/// The term identifiers of a list of counts.
pub open spec fn ids_of(counts: Seq<(TermId, u32)>) -> Seq<TermId> {
    counts.map_values(|c: (TermId, u32)| c.0)
}

/// One more, but never beyond the greatest count.
pub open spec fn next_count(n: u32) -> u32 {
    if n < u32::MAX {
        (n + 1) as u32
    } else {
        n
    }
}

/// The counts after one more occurrence of a term: its count goes up by one,
/// or it enters at the end with a count of 1.
pub open spec fn counted(counts: Seq<(TermId, u32)>, id: TermId) -> Seq<(TermId, u32)> {
    if ids_of(counts).contains(id) {
        let slot = ids_of(counts).index_of(id);
        counts.update(slot, (id, next_count(counts[slot].1)))
    } else {
        counts.push((id, 1u32))
    }
}

/// The raw term frequencies of a query: for each term of the dictionary among
/// the stems, in order of first occurrence, its identifier and how often it
/// occurs. Stems that the dictionary does not know are left out.
pub open spec fn query_counts(terms: Seq<Seq<char>>, stems: Doc) -> Seq<(TermId, u32)>
    decreases stems.len(),
{
    if stems.len() == 0 {
        Seq::empty()
    } else {
        let before = query_counts(terms, stems.drop_last());
        match position_of(terms, stems.last()) {
            Some(id) => counted(before, id),
            None => before,
        }
    }
}

/// A count as far as 32 bits hold it.
pub open spec fn capped(n: nat) -> u32 {
    if n < u32::MAX {
        n as u32
    } else {
        u32::MAX
    }
}

/// The document frequency to weigh with: the recorded one, but at least 1.
pub open spec fn effective_df(dfs: Seq<u32>, id: TermId) -> u32 {
    if id < dfs.len() && dfs[id as int] > 1 {
        dfs[id as int]
    } else {
        1
    }
}

/// The number of documents to weigh with: the recorded one, but at least 1.
pub open spec fn effective_doc_count(num_docs: u32) -> u32 {
    if num_docs > 1 {
        num_docs
    } else {
        1
    }
}

/// The document frequency to weigh a term with.
pub fn weighing_df(dictionary: &Dictionary, id: TermId) -> (df: u32)
    ensures
        df == effective_df(dictionary.dfs(), id),
        df >= 1,
{
    match dictionary.df(id) {
        Some(n) => if n > 1 {
            n
        } else {
            1
        },
        None => 1,
    }
}

/// The number of documents to weigh with.
pub fn weighing_doc_count(num_docs: u32) -> (n: u32)
    ensures
        n == effective_doc_count(num_docs),
        n >= 1,
{
    if num_docs > 1 {
        num_docs
    } else {
        1
    }
}

/// The terms to be scored for a query with the given stems.
pub open spec fn planned_terms(dictionary: &Dictionary, stems: Doc) -> Seq<QueryTerm> {
    query_counts(dictionary.terms(), stems).map_values(
        |c: (TermId, u32)|
            QueryTerm { term_id: c.0, tf: c.1, df: effective_df(dictionary.dfs(), c.0) },
    )
}

/// What the counts of a query are: the identifiers are distinct and known,
/// each comes with the number of occurrences of its term among the stems, and
/// every known term among the stems has its entry.
pub proof fn law_query_counts(terms: Seq<Seq<char>>, stems: Doc)
    requires
        terms.no_duplicates(),
        terms.len() <= u32::MAX,
    ensures
        ids_of(query_counts(terms, stems)).no_duplicates(),
        query_counts(terms, stems).len() <= stems.len(),
        forall|j: int|
            0 <= j < query_counts(terms, stems).len() ==> {
                let c = #[trigger] query_counts(terms, stems)[j];
                &&& c.0 < terms.len()
                &&& c.1 > 0
                &&& c.1 == capped(count_of(stems, terms[c.0 as int]))
            },
        forall|id: TermId|
            id < terms.len() && stems.contains(terms[id as int]) ==> #[trigger] ids_of(
                query_counts(terms, stems),
            ).contains(id),
    decreases stems.len(),
{
    let all = query_counts(terms, stems);
    if stems.len() > 0 {
        let init = stems.drop_last();
        let last = stems.last();
        let before = query_counts(terms, init);
        law_query_counts(terms, init);
        assert(stems =~= init.push(last));
        assert forall|id: TermId| id < terms.len() implies count_of(stems, terms[id as int])
            == count_of(init, terms[id as int]) + if last == terms[id as int] {
            1nat
        } else {
            0nat
        } by {
            lemma_count_of_push(init, last, terms[id as int]);
        }
        assert forall|id: TermId| id < terms.len() implies (stems.contains(terms[id as int]) <==> count_of(
            stems,
            terms[id as int],
        ) > 0) && (init.contains(terms[id as int]) <==> count_of(init, terms[id as int]) > 0) by {
            lemma_count_of(stems, terms[id as int]);
            lemma_count_of(init, terms[id as int]);
        }
        match position_of(terms, last) {
            Some(id) => {
                let k = terms.index_of(last);
                assert(terms[k] == last);
                lemma_position_of(terms, k);
                assert forall|other: TermId| other < terms.len() && other != id implies terms[other as int]
                    != last by {
                    lemma_position_of(terms, other as int);
                }
                let ids = ids_of(before);
                if ids.contains(id) {
                    let slot = ids.index_of(id);
                    assert(ids[slot] == id);
                    assert(before[slot].0 == id);
                    assert(ids_of(all) =~= ids);
                    assert forall|j: int| 0 <= j < all.len() implies {
                        let c = #[trigger] all[j];
                        &&& c.0 < terms.len()
                        &&& c.1 > 0
                        &&& c.1 == capped(count_of(stems, terms[c.0 as int]))
                    } by {
                        if j != slot {
                            assert(all[j] == before[j]);
                            assert(ids[j] == before[j].0);
                            assert(before[j].0 != id);
                        }
                    }
                } else {
                    assert(ids_of(all) =~= ids.push(id));
                    assert(!init.contains(last)) by {
                        if init.contains(last) {
                            assert(ids.contains(id));
                        }
                    }
                    assert forall|j: int| 0 <= j < all.len() implies {
                        let c = #[trigger] all[j];
                        &&& c.0 < terms.len()
                        &&& c.1 > 0
                        &&& c.1 == capped(count_of(stems, terms[c.0 as int]))
                    } by {
                        if j < before.len() {
                            assert(all[j] == before[j]);
                            assert(ids[j] == before[j].0);
                            assert(before[j].0 != id);
                        }
                    }
                    assert forall|i: int, j: int|
                        0 <= i < ids_of(all).len() && 0 <= j < ids_of(all).len() && i != j implies ids_of(
                        all,
                    )[i] != ids_of(all)[j] by {
                        if i < ids.len() && j == ids.len() {
                            assert(ids.contains(ids[i]));
                        }
                        if j < ids.len() && i == ids.len() {
                            assert(ids.contains(ids[j]));
                        }
                    }
                }
                assert forall|other: TermId|
                    other < terms.len() && stems.contains(terms[other as int]) implies #[trigger] ids_of(
                    all,
                ).contains(other) by {
                    if other == id {
                        if ids.contains(id) {
                        } else {
                            assert(ids_of(all)[ids.len() as int] == id);
                        }
                    } else {
                        assert(init.contains(terms[other as int]));
                        assert(ids.contains(other));
                        let j = ids.index_of(other);
                        assert(ids[j] == other);
                        assert(ids_of(all)[j] == other);
                    }
                }
            },
            None => {
                assert forall|id: TermId| id < terms.len() implies terms[id as int] != last by {
                    assert(terms.contains(terms[id as int]));
                }
            },
        }
    }
}

/// A query none of whose stems the dictionary knows has no terms to score; so
/// has a query without stems.
pub proof fn law_unknown_stems_score_nothing(terms: Seq<Seq<char>>, stems: Doc)
    requires
        forall|i: int| 0 <= i < stems.len() ==> !terms.contains(#[trigger] stems[i]),
    ensures
        query_counts(terms, stems) == Seq::<(TermId, u32)>::empty(),
    decreases stems.len(),
{
    if stems.len() > 0 {
        let init = stems.drop_last();
        assert forall|i: int| 0 <= i < init.len() implies !terms.contains(#[trigger] init[i]) by {
            assert(init[i] == stems[i]);
        }
        law_unknown_stems_score_nothing(terms, init);
        assert(stems.last() == stems[stems.len() - 1]);
    }
}

/// A query whose matched tokens are all stopwords, and a query none of whose
/// stems the dictionary knows, have no terms to score, whatever the index.
pub proof fn law_plan_without_known_stems(dictionary: &Dictionary, text: Seq<char>)
    requires
        match regex_matches_of(token_pattern(), lowercase_of(nfkc_of(text))) {
            Some(found) => (forall|i: int| 0 <= i < found.len() ==> stopword(#[trigger] found[i]))
                || (forall|i: int|
                0 <= i < found.len() ==> !dictionary.terms().contains(
                    english_stem_of(#[trigger] found[i]),
                )),
            None => true,
        },
    ensures
        planned_terms(dictionary, stems_of(tokens_of(text))) == Seq::<QueryTerm>::empty(),
{
    let stems = stems_of(tokens_of(text));
    match regex_matches_of(token_pattern(), lowercase_of(nfkc_of(text))) {
        Some(found) => {
            law_analyzed_entries(found);
            if forall|i: int| 0 <= i < found.len() ==> stopword(#[trigger] found[i]) {
                law_stopwords_yield_nothing(found);
            }
            assert forall|i: int| 0 <= i < stems.len() implies !dictionary.terms().contains(
                #[trigger] stems[i],
            ) by {
                let e = analyzed(found)[i];
                assert(stems[i] == e.0);
                assert(e.0 == english_stem_of(found[e.1 as int]));
            }
        },
        None => {},
    }
    law_unknown_stems_score_nothing(dictionary.terms(), stems);
    assert(planned_terms(dictionary, stems) =~= Seq::<QueryTerm>::empty());
}

/// Counts the known terms of an analyzed query.
pub fn count_query_terms(dictionary: &Dictionary, tokens: &Vec<(String, usize)>) -> (counts: Vec<
    (TermId, u32),
>)
    requires
        dictionary.wf(),
    ensures
        counts@ == query_counts(dictionary.terms(), stems_of(token_stream(tokens@))),
{
    let ghost stems = stems_of(token_stream(tokens@));
    let mut counts: Vec<(TermId, u32)> = Vec::new();
    let mut i: usize = 0;
    proof {
        assert(stems.take(0) =~= Seq::<Seq<char>>::empty());
    }
    while i < tokens.len()
        invariant
            i <= tokens.len(),
            dictionary.wf(),
            stems == stems_of(token_stream(tokens@)),
            stems.len() == tokens.len(),
            counts@ == query_counts(dictionary.terms(), stems.take(i as int)),
        decreases tokens.len() - i,
    {
        proof {
            assert(stems.take(i + 1).drop_last() =~= stems.take(i as int));
            assert(stems.take(i + 1).last() == tokens@[i as int].0@);
            law_query_counts(dictionary.terms(), stems.take(i as int));
        }
        match dictionary.lookup(tokens[i].0.as_str()) {
            Some(id) => {
                let ghost ids = ids_of(counts@);
                let mut slot: usize = 0;
                while slot < counts.len() && counts[slot].0 != id
                    invariant
                        slot <= counts.len(),
                        ids == ids_of(counts@),
                        forall|j: int| 0 <= j < slot ==> ids[j] != id,
                    decreases counts.len() - slot,
                {
                    slot += 1;
                }
                if slot < counts.len() {
                    proof {
                        assert(ids[slot as int] == id);
                        let chosen = ids.index_of(id);
                        assert(ids[chosen] == id);
                    }
                    let n = counts[slot].1;
                    let next = if n < u32::MAX {
                        n + 1
                    } else {
                        n
                    };
                    counts.set(slot, (id, next));
                } else {
                    counts.push((id, 1u32));
                }
            },
            None => {},
        }
        i += 1;
    }
    proof {
        assert(stems.take(i as int) =~= stems);
    }
    counts
}

/// Plans a query: analyzes its text as documents are analyzed, keeps the terms
/// that the dictionary knows with their frequencies, and clamps the number of
/// results.
pub fn plan_query(state: &AppState, params: &SearchParams) -> (plan: QueryPlan)
    requires
        state.wf(),
    ensures
        plan.terms@ == planned_terms(&state.dictionary, stems_of(tokens_of(params.q@))),
        texts(plan.raw_terms@) == whitespace_split_of(params.q@),
        plan.doc_count == effective_doc_count(state.num_docs),
        plan.k == clamped(params.k),
{
    let tokens = tokenize(params.q.as_str());
    let counts = count_query_terms(&state.dictionary, &tokens);
    let mut terms: Vec<QueryTerm> = Vec::new();
    let mut i: usize = 0;
    let ghost wanted = planned_terms(&state.dictionary, stems_of(tokens_of(params.q@)));
    while i < counts.len()
        invariant
            i <= counts.len(),
            wanted == planned_terms(&state.dictionary, stems_of(tokens_of(params.q@))),
            counts@ == query_counts(state.dictionary.terms(), stems_of(tokens_of(params.q@))),
            wanted.len() == counts.len(),
            terms@ == wanted.take(i as int),
        decreases counts.len() - i,
    {
        let (term_id, tf) = counts[i];
        let df = weighing_df(&state.dictionary, term_id);
        terms.push(QueryTerm { term_id, tf, df });
        assert(terms@ =~= wanted.take(i + 1));
        i += 1;
    }
    assert(terms@ =~= wanted);
    QueryPlan {
        terms,
        raw_terms: split_whitespace(params.q.as_str()),
        doc_count: weighing_doc_count(state.num_docs),
        k: clamp_k(params.k),
    }
}

} // verus!
