//! The document store: metadata by dense document identifier.
//!
//! Document identifiers are assigned in ingest order, starting at 0, so the
//! store is the sequence of its records: the identifier of a document is its
//! index, and the identifiers in use are exactly those below the length.

use vstd::prelude::*;
use crate::dense::{arrange, arranges, dense_ids, place_of};
use crate::index::{clone_opt, opt_text, text_path, text_path_text, DocId, DocMeta, DocMetaView, InputDoc};

verus! {

/// The document records of an index.
pub struct DocStore {
    docs: Vec<DocMeta>,
}

/// The model of the entries of a document file.
pub open spec fn meta_entries(v: Seq<(DocId, DocMeta)>) -> Seq<(DocId, DocMetaView)> {
    v.map_values(|e: (DocId, DocMeta)| (e.0, e.1@))
}

/// The identifiers of such entries.
pub open spec fn entry_ids(entries: Seq<(DocId, DocMetaView)>) -> Seq<DocId> {
    entries.map_values(|e: (DocId, DocMetaView)| e.0)
}

/// Whether the entries of a document file make a store: the identifiers are
/// dense.
pub open spec fn doc_entries_valid(entries: Seq<(DocId, DocMetaView)>) -> bool {
    entries.len() <= u32::MAX && dense_ids(entry_ids(entries))
}

/// The records of the entries, each at the index that is its identifier.
pub open spec fn arranged_metas(entries: Seq<(DocId, DocMetaView)>) -> Seq<DocMetaView> {
    Seq::new(entries.len(), |i: int| entries[place_of(entry_ids(entries), i)].1)
}

/// The entries of a store: each record with its identifier, in order of
/// identifier.
pub open spec fn entries_of_metas(metas: Seq<DocMetaView>) -> Seq<(DocId, DocMetaView)> {
    Seq::new(metas.len(), |i: int| (#[verifier::truncate] (i as u32), metas[i]))
}

/// The entries of a store are valid, and arranging them gives the records
/// back.
pub proof fn lemma_entries_of_metas(metas: Seq<DocMetaView>)
    requires
        metas.len() <= u32::MAX,
    ensures
        doc_entries_valid(entries_of_metas(metas)),
        arranged_metas(entries_of_metas(metas)) == metas,
{
    let entries = entries_of_metas(metas);
    let ids = entry_ids(entries);
    assert forall|i: int| 0 <= i < metas.len() implies arranged_metas(entries)[i] == metas[i] by {
        assert(ids[i] == i);
        let j = place_of(ids, i);
        assert(ids[j] == i);
    }
    assert(arranged_metas(entries) =~= metas);
}

impl DocStore {
    /// The records, each at the index that is its document identifier.
    pub closed spec fn metas(&self) -> Seq<DocMetaView> {
        self.docs@.map_values(|m: DocMeta| m@)
    }

    /// Every identifier fits 32 bits.
    pub open spec fn wf(&self) -> bool {
        self.metas().len() <= u32::MAX
    }

    /// The store without documents.
    pub fn new() -> (r: DocStore)
        ensures
            r.wf(),
            r.metas() == Seq::<DocMetaView>::empty(),
    {
        let r = DocStore { docs: Vec::new() };
        assert(r.metas() =~= Seq::<DocMetaView>::empty());
        r
    }

    /// The number of documents, which is also the next identifier to be
    /// assigned.
    pub fn num_docs(&self) -> (n: u32)
        requires
            self.wf(),
        ensures
            n == self.metas().len(),
    {
        self.docs.len() as u32
    }

    /// Assigns the next identifier to the document and records its metadata,
    /// with the relative path at which its body is to be stored.
    pub fn register(&mut self, doc: &InputDoc) -> (id: DocId)
        requires
            old(self).wf(),
            old(self).metas().len() < u32::MAX,
        ensures
            final(self).wf(),
            id == old(self).metas().len(),
            final(self).metas() == old(self).metas().push(
                DocMetaView {
                    external_id: doc.id@,
                    title: doc.title@,
                    url: opt_text(doc.url),
                    text_path: Some(text_path_text(id)),
                },
            ),
    {
        let id = self.docs.len() as u32;
        let meta = DocMeta {
            external_id: doc.id.clone(),
            title: doc.title.clone(),
            url: clone_opt(&doc.url),
            text_path: Some(text_path(id)),
        };
        self.docs.push(meta);
        assert(self.metas() =~= old(self).metas().push(meta@));
        id
    }

    /// Makes a store of the entries of a document file, or `None` where they
    /// are not valid.
    pub fn from_entries(entries: &Vec<(DocId, DocMeta)>) -> (r: Option<DocStore>)
        ensures
            match r {
                Some(s) => {
                    &&& doc_entries_valid(meta_entries(entries@))
                    &&& s.wf()
                    &&& s.metas() == arranged_metas(meta_entries(entries@))
                },
                None => !doc_entries_valid(meta_entries(entries@)),
            },
    {
        let n = entries.len();
        if n > u32::MAX as usize {
            return None;
        }
        let ghost model = meta_entries(entries@);
        let mut ids: Vec<u32> = Vec::new();
        let mut j: usize = 0;
        while j < n
            invariant
                j <= n,
                n == entries@.len(),
                model == meta_entries(entries@),
                ids@ == entry_ids(model).take(j as int),
            decreases n - j,
        {
            ids.push(entries[j].0);
            assert(ids@ =~= entry_ids(model).take(j + 1));
            j += 1;
        }
        assert(ids@ =~= entry_ids(model));
        let order = match arrange(&ids) {
            Some(order) => order,
            None => {
                return None;
            },
        };
        let mut docs: Vec<DocMeta> = Vec::new();
        let mut i: usize = 0;
        while i < n
            invariant
                i <= n,
                n == entries@.len(),
                model == meta_entries(entries@),
                ids@ == entry_ids(model),
                arranges(order@, ids@),
                docs@.len() == i,
                forall|k: int| 0 <= k < i ==> (#[trigger] docs@[k])@ == model[order@[k] as int].1,
            decreases n - i,
        {
            let place = order[i];
            let meta = entries[place].1.duplicate();
            assert(meta@ == model[place as int].1);
            docs.push(meta);
            i += 1;
        }
        let store = DocStore { docs };
        proof {
            assert forall|k: int| 0 <= k < n implies store.metas()[k] == arranged_metas(model)[k] by {
                let chosen = place_of(ids@, k);
                assert(ids@[order@[k] as int] == k);
                assert(ids@[chosen] == k);
                assert(order@[ids@[chosen] as int] == chosen) by {
                    let back = order@[ids@[chosen] as int] as int;
                    assert(ids@[back] == ids@[chosen]);
                }
                assert(store.docs@[k]@ == model[order@[k] as int].1);
            }
            assert(store.metas() =~= arranged_metas(model));
        }
        Some(store)
    }

    /// The entries of the store: each record with its identifier, in order of
    /// identifier.
    pub fn entries(&self) -> (r: Vec<(DocId, DocMeta)>)
        requires
            self.wf(),
        ensures
            meta_entries(r@) == entries_of_metas(self.metas()),
    {
        let mut out: Vec<(DocId, DocMeta)> = Vec::new();
        let n = self.docs.len();
        let mut i: usize = 0;
        while i < n
            invariant
                i <= n,
                n == self.metas().len(),
                n <= u32::MAX,
                meta_entries(out@) == entries_of_metas(self.metas()).take(i as int),
            decreases n - i,
        {
            let ghost before = out@;
            let meta = self.docs[i].duplicate();
            out.push((i as u32, meta));
            assert(meta_entries(out@) =~= meta_entries(before).push((i as u32, meta@)));
            assert(entries_of_metas(self.metas())[i as int] == (i as u32, meta@));
            assert(meta_entries(out@) =~= entries_of_metas(self.metas()).take(i + 1));
            i += 1;
        }
        assert(entries_of_metas(self.metas()).take(n as int) =~= entries_of_metas(self.metas()));
        out
    }

    /// The metadata of a document, or `None` for an identifier not in use.
    pub fn get(&self, id: DocId) -> (r: Option<&DocMeta>)
        ensures
            match r {
                Some(m) => id < self.metas().len() && m@ == self.metas()[id as int],
                None => id >= self.metas().len(),
            },
    {
        if (id as usize) < self.docs.len() {
            Some(&self.docs[id as usize])
        } else {
            None
        }
    }
}

} // verus!
