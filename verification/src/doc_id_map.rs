//! The map from external identifiers to document identifiers.

use vstd::prelude::*;
use vstd::string::*;
use crate::index::DocId;
use crate::interner::{firsts, lemma_position_of, seconds, text_ids, Interner};

verus! {

/// For each external identifier, the document that came with it last.
pub struct DocIdMap {
    index: Interner,
    doc_ids: Vec<DocId>,
}

impl DocIdMap {
    /// The external identifiers in order of first arrival.
    pub closed spec fn keys(&self) -> Seq<Seq<char>> {
        self.index.keys()
    }

    /// The document identifier held for each key.
    pub closed spec fn values(&self) -> Seq<DocId> {
        self.doc_ids@
    }

    /// What holds of the index over the external identifiers.
    pub closed spec fn index_wf(&self) -> bool {
        self.index.wf()
    }

    /// No external identifier occurs twice, and each has its document.
    pub open spec fn wf(&self) -> bool {
        &&& self.index_wf()
        &&& self.keys().no_duplicates()
        &&& self.keys().len() <= u32::MAX
        &&& self.values().len() == self.keys().len()
    }
}

impl View for DocIdMap {
    type V = Map<Seq<char>, DocId>;

    open spec fn view(&self) -> Map<Seq<char>, DocId> {
        Map::new(
            |k: Seq<char>| self.keys().contains(k),
            |k: Seq<char>| self.values()[self.keys().index_of(k)],
        )
    }
}

impl DocIdMap {
    /// The empty map.
    pub fn new() -> (r: DocIdMap)
        ensures
            r.wf(),
            r@ == Map::<Seq<char>, DocId>::empty(),
            r.keys().len() == 0,
    {
        let r = DocIdMap { index: Interner::new(), doc_ids: Vec::new() };
        assert(r@ =~= Map::<Seq<char>, DocId>::empty());
        r
    }

    /// The number of external identifiers.
    pub fn len(&self) -> (n: usize)
        ensures
            n == self.keys().len(),
    {
        self.index.len()
    }

    /// Records the document of an external identifier; a later document
    /// replaces an earlier one with the same external identifier.
    pub fn insert(&mut self, external_id: &str, doc_id: DocId)
        requires
            old(self).wf(),
            old(self).keys().contains(external_id@) || old(self).keys().len() < u32::MAX,
        ensures
            final(self).wf(),
            final(self)@ == old(self)@.insert(external_id@, doc_id),
            final(self).keys().len() == old(self).keys().len() + if old(self).keys().contains(
                external_id@,
            ) {
                0int
            } else {
                1int
            },
    {
        let slot = self.index.intern(external_id);
        if slot as usize == self.doc_ids.len() {
            self.doc_ids.push(doc_id);
        } else {
            self.doc_ids.set(slot as usize, doc_id);
        }
        proof {
            let old_keys = old(self).keys();
            let new_keys = self.keys();
            assert forall|k: Seq<char>| #[trigger] new_keys.contains(k) <==> (old_keys.contains(k) || k == external_id@) by {
                if old_keys.contains(external_id@) {
                } else {
                    if old_keys.contains(k) {
                        let i = old_keys.index_of(k);
                        assert(new_keys[i] == k);
                    }
                    if k == external_id@ {
                        assert(new_keys[slot as int] == k);
                    }
                }
            }
            assert forall|k: Seq<char>| new_keys.contains(k) implies #[trigger] self@[k] == old(self)@.insert(external_id@, doc_id)[k] by {
                let i = new_keys.index_of(k);
                assert(new_keys[i] == k);
                if k == external_id@ {
                    lemma_position_of(new_keys, slot as int);
                } else {
                    assert(old_keys.contains(k));
                    let j = old_keys.index_of(k);
                    assert(old_keys[j] == k);
                    assert(new_keys[j] == k);
                    lemma_position_of(new_keys, j);
                    lemma_position_of(new_keys, i);
                }
            }
            assert(self@ =~= old(self)@.insert(external_id@, doc_id));
        }
    }

    /// Makes a map of the entries of a map file, or `None` where an external
    /// identifier occurs twice or the entries are too many.
    pub fn from_entries(entries: &Vec<(String, DocId)>) -> (r: Option<DocIdMap>)
        ensures
            match r {
                Some(m) => {
                    &&& m.wf()
                    &&& m.keys() == firsts(text_ids(entries@))
                    &&& m.values() == seconds(text_ids(entries@))
                },
                None => entries@.len() > u32::MAX || !firsts(text_ids(entries@)).no_duplicates(),
            },
    {
        let n = entries.len();
        if n > u32::MAX as usize {
            return None;
        }
        let ghost model = text_ids(entries@);
        let mut index = Interner::new();
        let mut doc_ids: Vec<DocId> = Vec::new();
        let mut i: usize = 0;
        while i < n
            invariant
                i <= n,
                n == entries@.len(),
                n <= u32::MAX,
                model == text_ids(entries@),
                index.wf(),
                index.keys() == firsts(model).take(i as int),
                doc_ids@ == seconds(model).take(i as int),
            decreases n - i,
        {
            let key = entries[i].0.as_str();
            assert(key@ == firsts(model)[i as int]);
            match index.lookup(key) {
                Some(k) => {
                    assert(firsts(model)[k as int] == firsts(model)[i as int]);
                    return None;
                },
                None => {},
            }
            index.intern(key);
            doc_ids.push(entries[i].1);
            assert(index.keys() =~= firsts(model).take(i + 1));
            assert(doc_ids@ =~= seconds(model).take(i + 1));
            i += 1;
        }
        assert(firsts(model).take(n as int) =~= firsts(model));
        assert(seconds(model).take(n as int) =~= seconds(model));
        Some(DocIdMap { index, doc_ids })
    }

    /// The entries of the map: each external identifier with its document, in
    /// order of first arrival.
    pub fn entries(&self) -> (r: Vec<(String, DocId)>)
        requires
            self.wf(),
        ensures
            firsts(text_ids(r@)) == self.keys(),
            seconds(text_ids(r@)) == self.values(),
    {
        let mut out: Vec<(String, DocId)> = Vec::new();
        let n = self.index.len();
        let mut i: usize = 0;
        while i < n
            invariant
                i <= n,
                n == self.keys().len(),
                n == self.values().len(),
                n <= u32::MAX,
                firsts(text_ids(out@)) == self.keys().take(i as int),
                seconds(text_ids(out@)) == self.values().take(i as int),
            decreases n - i,
        {
            let ghost before = out@;
            let key = self.index.key(i as u32);
            out.push((String::from_str(key), self.doc_ids[i]));
            assert(text_ids(out@) =~= text_ids(before).push((key@, self.doc_ids@[i as int])));
            assert(firsts(text_ids(out@)) =~= firsts(text_ids(before)).push(key@));
            assert(seconds(text_ids(out@)) =~= seconds(text_ids(before)).push(self.doc_ids@[i as int]));
            assert(self.keys().take(i + 1) =~= self.keys().take(i as int).push(self.keys()[i as int]));
            assert(firsts(text_ids(out@)) =~= self.keys().take(i + 1));
            assert(seconds(text_ids(out@)) =~= self.values().take(i + 1));
            i += 1;
        }
        assert(self.keys().take(n as int) =~= self.keys());
        assert(self.values().take(n as int) =~= self.values());
        out
    }

    /// The document recorded for an external identifier.
    pub fn get(&self, external_id: &str) -> (r: Option<DocId>)
        requires
            self.wf(),
        ensures
            r == if self@.contains_key(external_id@) {
                Some(self@[external_id@])
            } else {
                None::<DocId>
            },
    {
        match self.index.lookup(external_id) {
            Some(slot) => {
                proof {
                    lemma_position_of(self.keys(), slot as int);
                }
                Some(self.doc_ids[slot as usize])
            },
            None => None,
        }
    }
}

} // verus!
