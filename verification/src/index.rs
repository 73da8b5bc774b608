//! The records of an index: ingest records, document metadata and postings.

use vstd::prelude::*;
use vstd::string::*;
use crate::decimal::{decimal_text, push_decimal};
use crate::dictionary::Dictionary;
use crate::docs::DocStore;

verus! {

/// The identifier of a document: dense, assigned from 0 in ingest order.
pub type DocId = u32;

/// One ingest record, as produced outside and consumed once by the builder.
#[derive(Debug)]
pub struct InputDoc {
    pub id: String,
    pub title: String,
    pub body: String,
    pub url: Option<String>,
    pub timestamp: Option<String>,
}

/// What the index keeps of a document besides its terms.
#[derive(Debug)]
pub struct DocMeta {
    pub external_id: String,
    pub title: String,
    pub url: Option<String>,
    /// Relative path of the stored raw body, from which snippets are cut.
    pub text_path: Option<String>,
}

/// The model of a `DocMeta`.
pub struct DocMetaView {
    pub external_id: Seq<char>,
    pub title: Seq<char>,
    pub url: Option<Seq<char>>,
    pub text_path: Option<Seq<char>>,
}

/// The text of an optional string.
pub open spec fn opt_text(o: Option<String>) -> Option<Seq<char>> {
    match o {
        Some(s) => Some(s@),
        None => None,
    }
}

impl View for DocMeta {
    type V = DocMetaView;

    open spec fn view(&self) -> DocMetaView {
        DocMetaView {
            external_id: self.external_id@,
            title: self.title@,
            url: opt_text(self.url),
            text_path: opt_text(self.text_path),
        }
    }
}

/// One entry of a posting list: a document and the weight of the term in it.
/// The weight is carried as the bit pattern of an IEEE-754 single.
#[derive(Debug, Clone, Copy, PartialEq, Eq)]
pub struct Posting {
    pub doc_id: DocId,
    pub weight_bits: u32,
}

/// The greatest bit pattern of a finite single that is not negative.
pub const MAX_FINITE_BITS: u32 = 0x7F7F_FFFF;

/// Whether the bits are those of a finite weight that is not negative.
pub open spec fn finite_weight(bits: u32) -> bool {
    bits <= MAX_FINITE_BITS
}

/// Whether the document identifiers rise strictly along the list.
pub open spec fn ascending(list: Seq<Posting>) -> bool {
    forall|i: int, j: int| 0 <= i < j < list.len() ==> list[i].doc_id < list[j].doc_id
}

/// What holds of every persisted posting list: the document identifiers rise
/// strictly, and the weights are finite and not negative.
pub open spec fn posting_list_wf(list: Seq<Posting>) -> bool {
    &&& ascending(list)
    &&& forall|i: int| 0 <= i < list.len() ==> finite_weight(#[trigger] list[i].weight_bits)
}

/// Whether the list is a well-formed posting list.
pub fn is_posting_list(list: &Vec<Posting>) -> (r: bool)
    ensures
        r == posting_list_wf(list@),
{
    let mut i: usize = 0;
    while i < list.len()
        invariant
            i <= list.len(),
            posting_list_wf(list@.take(i as int)),
        decreases list.len() - i,
    {
        if list[i].weight_bits > MAX_FINITE_BITS {
            return false;
        }
        if i > 0 && list[i - 1].doc_id >= list[i].doc_id {
            return false;
        }
        proof {
            let next = list@.take(i + 1);
            let seen = list@.take(i as int);
            assert forall|a: int, b: int| 0 <= a < b < next.len() implies next[a].doc_id
                < next[b].doc_id by {
                if b < i {
                    assert(seen[a].doc_id < seen[b].doc_id);
                } else if a < i - 1 {
                    assert(seen[a].doc_id < seen[i - 1].doc_id);
                }
            }
            assert forall|a: int| 0 <= a < next.len() implies finite_weight(
                #[trigger] next[a].weight_bits,
            ) by {
                if a < i {
                    assert(seen[a] == next[a]);
                }
            }
        }
        i += 1;
    }
    assert(list@.take(i as int) =~= list@);
    true
}

/// A copy of an optional string.
pub fn clone_opt(o: &Option<String>) -> (r: Option<String>)
    ensures
        opt_text(r) == opt_text(*o),
{
    match o {
        Some(s) => Some(s.clone()),
        None => None,
    }
}

impl DocMeta {
    /// A copy of the record.
    pub fn duplicate(&self) -> (r: DocMeta)
        ensures
            r@ == self@,
    {
        DocMeta {
            external_id: self.external_id.clone(),
            title: self.title.clone(),
            url: clone_opt(&self.url),
            text_path: clone_opt(&self.text_path),
        }
    }
}

/// The relative path under which the raw body of a document is stored.
pub open spec fn text_path_text(doc_id: DocId) -> Seq<char> {
    "texts/"@ + decimal_text(doc_id as nat) + ".txt"@
}

/// The relative path `texts/{doc_id}.txt`.
pub fn text_path(doc_id: DocId) -> (s: String)
    ensures
        s@ == text_path_text(doc_id),
{
    let mut s = String::from_str("texts/");
    push_decimal(&mut s, doc_id);
    s.append(".txt");
    s
}

/// A whole index in memory: the dictionary with the document frequencies, the
/// posting list of each term and the document records.
pub struct InvertedIndex {
    pub dictionary: Dictionary,
    /// The posting lists by term identifier.
    pub postings: Vec<Vec<Posting>>,
    pub docs: DocStore,
    pub num_docs: u32,
}

impl InvertedIndex {
    /// The posting lists as sequences.
    pub open spec fn lists(&self) -> Seq<Seq<Posting>> {
        self.postings@.map_values(|list: Vec<Posting>| list@)
    }

    /// Every term has its posting list, well formed and over documents of the
    /// index, and the number of documents is that of the records.
    pub open spec fn wf(&self) -> bool {
        &&& self.dictionary.wf()
        &&& self.docs.wf()
        &&& self.num_docs == self.docs.metas().len()
        &&& self.lists().len() == self.dictionary.terms().len()
        &&& forall|t: int| 0 <= t < self.lists().len() ==> posting_list_wf(#[trigger] self.lists()[t])
        &&& forall|t: int, i: int|
            0 <= t < self.lists().len() && 0 <= i < self.lists()[t].len() ==> (
            #[trigger] self.lists()[t][i]).doc_id < self.num_docs
    }

    /// The index without documents.
    pub fn new() -> (r: InvertedIndex)
        ensures
            r.wf(),
            r.num_docs == 0,
            r.dictionary.terms().len() == 0,
    {
        let r = InvertedIndex {
            dictionary: Dictionary::new(),
            postings: Vec::new(),
            docs: DocStore::new(),
            num_docs: 0,
        };
        assert(r.lists() =~= Seq::<Seq<Posting>>::empty());
        r
    }
}

} // verus!
