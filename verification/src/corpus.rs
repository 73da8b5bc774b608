//! The mathematical model of index construction: what the dictionary, the
//! document frequencies and the raw posting lists are, as functions of the
//! analyzed documents in ingest order.
//!
//! A document is the sequence of its stems; a corpus is the sequence of its
//! documents, each at the index that is its document identifier.

use vstd::prelude::*;
use crate::index::DocId;

verus! {

/// A document: the sequence of its stems.
pub type Doc = Seq<Seq<char>>;

/// How often a term occurs in a document.
pub open spec fn count_of(doc: Doc, term: Seq<char>) -> nat
    decreases doc.len(),
{
    if doc.len() == 0 {
        0
    } else {
        count_of(doc.drop_last(), term) + if doc.last() == term {
            1nat
        } else {
            0nat
        }
    }
}

/// The vocabulary after one more document: each stem that is new is added at
/// the end, in the order in which the document brings them.
pub open spec fn extend_vocabulary(vocab: Seq<Seq<char>>, doc: Doc) -> Seq<Seq<char>>
    decreases doc.len(),
{
    if doc.len() == 0 {
        vocab
    } else {
        let v = extend_vocabulary(vocab, doc.drop_last());
        if v.contains(doc.last()) {
            v
        } else {
            v.push(doc.last())
        }
    }
}

/// The stems of a corpus in order of first encounter: the index of a stem is
/// its term identifier.
pub open spec fn vocabulary(corpus: Seq<Doc>) -> Seq<Seq<char>>
    decreases corpus.len(),
{
    if corpus.len() == 0 {
        Seq::empty()
    } else {
        extend_vocabulary(vocabulary(corpus.drop_last()), corpus.last())
    }
}

/// The raw posting list of a term: for each document that holds the term, in
/// ascending order of document identifier, the identifier and the number of
/// occurrences.
pub open spec fn raw_postings(corpus: Seq<Doc>, term: Seq<char>) -> Seq<(DocId, u32)>
    decreases corpus.len(), 1nat,
{
    if corpus.len() == 0 {
        Seq::empty()
    } else {
        pending_postings(corpus.drop_last(), corpus.last(), term)
    }
}

/// The raw posting list of a term once the documents of `corpus` are in and the
/// stems of `seen` have been read from the next document.
pub open spec fn pending_postings(corpus: Seq<Doc>, seen: Doc, term: Seq<char>) -> Seq<(DocId, u32)>
    decreases corpus.len(), 2nat,
{
    let before = raw_postings(corpus, term);
    let count = count_of(seen, term);
    if count > 0 {
        before.push((#[verifier::truncate] (corpus.len() as u32), #[verifier::truncate] (count as u32)))
    } else {
        before
    }
}

/// The documents that hold a term.
pub open spec fn docs_with(corpus: Seq<Doc>, term: Seq<char>) -> Set<int> {
    Set::new(|d: int| 0 <= d < corpus.len() && corpus[d].contains(term))
}

/// A term occurs in a document at most as often as the document is long, and
/// at least once exactly if the document contains it.
pub proof fn lemma_count_of(doc: Doc, term: Seq<char>)
    ensures
        count_of(doc, term) <= doc.len(),
        count_of(doc, term) > 0 <==> doc.contains(term),
    decreases doc.len(),
{
    if doc.len() > 0 {
        let init = doc.drop_last();
        lemma_count_of(init, term);
        if init.contains(term) {
            let i = choose|i: int| 0 <= i < init.len() && init[i] == term;
            assert(doc[i] == term);
        }
        if doc.last() == term {
            assert(doc[doc.len() - 1] == term);
        }
        if doc.contains(term) {
            let i = choose|i: int| 0 <= i < doc.len() && doc[i] == term;
            if i < doc.len() - 1 {
                assert(init[i] == term);
            }
        }
    }
}

/// Reading one more stem adds one to the count of that stem and leaves the
/// other counts alone.
pub proof fn lemma_count_of_push(doc: Doc, stem: Seq<char>, term: Seq<char>)
    ensures
        count_of(doc.push(stem), term) == count_of(doc, term) + if stem == term {
            1nat
        } else {
            0nat
        },
{
    assert(doc.push(stem).drop_last() =~= doc);
}

/// Extending a vocabulary keeps what was there, in place, adds exactly the
/// stems of the document, and keeps the stems distinct.
pub proof fn lemma_extend_vocabulary(vocab: Seq<Seq<char>>, doc: Doc)
    requires
        vocab.no_duplicates(),
    ensures
        extend_vocabulary(vocab, doc).no_duplicates(),
        vocab.len() <= extend_vocabulary(vocab, doc).len() <= vocab.len() + doc.len(),
        forall|i: int| 0 <= i < vocab.len() ==> extend_vocabulary(vocab, doc)[i] == vocab[i],
        forall|s: Seq<char>| #[trigger]
            extend_vocabulary(vocab, doc).contains(s) <==> (vocab.contains(s) || doc.contains(s)),
    decreases doc.len(),
{
    let out = extend_vocabulary(vocab, doc);
    if doc.len() > 0 {
        let init = doc.drop_last();
        let v = extend_vocabulary(vocab, init);
        lemma_extend_vocabulary(vocab, init);
        assert forall|s: Seq<char>| #[trigger] out.contains(s) <==> (vocab.contains(s) || doc.contains(s)) by {
            if out.contains(s) {
                let i = choose|i: int| 0 <= i < out.len() && out[i] == s;
                if i < v.len() {
                    assert(v[i] == s);
                    assert(v.contains(s));
                    if init.contains(s) {
                        let j = choose|j: int| 0 <= j < init.len() && init[j] == s;
                        assert(doc[j] == s);
                    }
                } else {
                    assert(doc[doc.len() - 1] == s);
                }
            }
            if vocab.contains(s) {
                assert(v.contains(s));
                let i = choose|i: int| 0 <= i < v.len() && v[i] == s;
                assert(out[i] == s);
            }
            if doc.contains(s) {
                let j = choose|j: int| 0 <= j < doc.len() && doc[j] == s;
                if j < doc.len() - 1 {
                    assert(init[j] == s);
                    assert(v.contains(s));
                    let i = choose|i: int| 0 <= i < v.len() && v[i] == s;
                    assert(out[i] == s);
                } else if v.contains(s) {
                    let i = choose|i: int| 0 <= i < v.len() && v[i] == s;
                    assert(out[i] == s);
                } else {
                    assert(out[v.len() as int] == s);
                }
            }
        }
    }
}

/// The vocabulary holds each stem once, and holds exactly the stems that occur
/// in some document.
pub proof fn lemma_vocabulary(corpus: Seq<Doc>)
    ensures
        vocabulary(corpus).no_duplicates(),
        forall|s: Seq<char>| #[trigger]
            vocabulary(corpus).contains(s) <==> exists|d: int|
                0 <= d < corpus.len() && #[trigger] corpus[d].contains(s),
    decreases corpus.len(),
{
    if corpus.len() > 0 {
        let init = corpus.drop_last();
        lemma_vocabulary(init);
        lemma_extend_vocabulary(vocabulary(init), corpus.last());
        assert forall|s: Seq<char>| #[trigger] vocabulary(corpus).contains(s) <==> exists|d: int|
            0 <= d < corpus.len() && #[trigger] corpus[d].contains(s) by {
            if vocabulary(corpus).contains(s) {
                if vocabulary(init).contains(s) {
                    let d = choose|d: int| 0 <= d < init.len() && #[trigger] init[d].contains(s);
                    assert(corpus[d].contains(s));
                } else {
                    assert(corpus[corpus.len() - 1].contains(s));
                }
            }
            if exists|d: int| 0 <= d < corpus.len() && #[trigger] corpus[d].contains(s) {
                let d = choose|d: int| 0 <= d < corpus.len() && #[trigger] corpus[d].contains(s);
                if d < corpus.len() - 1 {
                    assert(init[d].contains(s));
                }
            }
        }
    }
}

/// The shape of a raw posting list: one entry for each document that holds the
/// term, in strictly ascending order of document identifier, each with the
/// number of occurrences of the term in that document.
pub proof fn lemma_raw_postings(corpus: Seq<Doc>, term: Seq<char>)
    requires
        corpus.len() <= u32::MAX,
        forall|d: int| 0 <= d < corpus.len() ==> (#[trigger] corpus[d]).len() <= u32::MAX,
    ensures
        raw_postings(corpus, term).len() <= corpus.len(),
        forall|i: int|
            0 <= i < raw_postings(corpus, term).len() ==> {
                let p = #[trigger] raw_postings(corpus, term)[i];
                &&& p.0 < corpus.len()
                &&& p.1 > 0
                &&& p.1 == count_of(corpus[p.0 as int], term)
            },
        forall|i: int, j: int|
            0 <= i < j < raw_postings(corpus, term).len() ==> raw_postings(corpus, term)[i].0
                < raw_postings(corpus, term)[j].0,
        forall|d: int|
            0 <= d < corpus.len() && (#[trigger] corpus[d]).contains(term) ==> exists|i: int|
                0 <= i < raw_postings(corpus, term).len() && #[trigger] raw_postings(
                    corpus,
                    term,
                )[i].0 == d,
    decreases corpus.len(),
{
    if corpus.len() > 0 {
        let init = corpus.drop_last();
        let last = corpus.last();
        lemma_raw_postings(init, term);
        lemma_count_of(last, term);
        let before = raw_postings(init, term);
        let all = raw_postings(corpus, term);
        assert forall|d: int| 0 <= d < corpus.len() && (#[trigger] corpus[d]).contains(term) implies exists|
            i: int,
        |
            0 <= i < all.len() && #[trigger] all[i].0 == d by {
            if d < corpus.len() - 1 {
                assert(init[d].contains(term));
                let i = choose|i: int| 0 <= i < before.len() && #[trigger] before[i].0 == d;
                assert(all[i].0 == d);
            } else {
                assert(all[all.len() - 1].0 == d);
            }
        }
    }
}

/// A raw posting list has as many entries as there are documents that hold the
/// term.
pub proof fn lemma_doc_frequency(corpus: Seq<Doc>, term: Seq<char>)
    ensures
        docs_with(corpus, term).finite(),
        raw_postings(corpus, term).len() == docs_with(corpus, term).len(),
    decreases corpus.len(),
{
    if corpus.len() == 0 {
        assert(docs_with(corpus, term) =~= Set::<int>::empty());
    } else {
        let init = corpus.drop_last();
        let last = corpus.len() - 1;
        lemma_doc_frequency(init, term);
        lemma_count_of(corpus.last(), term);
        if corpus.last().contains(term) {
            assert(docs_with(corpus, term) =~= docs_with(init, term).insert(last));
        } else {
            assert(docs_with(corpus, term) =~= docs_with(init, term));
        }
    }
}

} // verus!
