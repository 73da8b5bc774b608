//! The dictionary: a bijection between stems and dense term identifiers, kept
//! together with the document frequency of each term.
//!
//! Term identifiers are assigned in order of first encounter, starting at 0, so
//! the dictionary is the sequence of its stems: the identifier of a stem is its
//! index.

use vstd::prelude::*;
use vstd::string::*;
use crate::dense::{arrange, arranges, dense_ids, place_of};
use crate::interner::{firsts, position_of, seconds, text_ids, Interner};

verus! {

/// The identifier of a term: dense, assigned from 0 in order of first
/// encounter.
pub type TermId = u32;

/// The stems with their identifiers and document frequencies.
pub struct Dictionary {
    index: Interner,
    df: Vec<u32>,
}

/// Whether the entries of a dictionary file and its document frequencies make
/// a dictionary: the identifiers are dense, no stem occurs twice, and every
/// term has a document frequency.
pub open spec fn dictionary_entries_valid(entries: Seq<(Seq<char>, u32)>, dfs: Seq<u32>) -> bool {
    &&& entries.len() <= u32::MAX
    &&& dense_ids(seconds(entries))
    &&& firsts(entries).no_duplicates()
    &&& dfs.len() >= entries.len()
}

/// The stems of the entries, each at the index that is its identifier.
pub open spec fn arranged_terms(entries: Seq<(Seq<char>, u32)>) -> Seq<Seq<char>> {
    Seq::new(entries.len(), |i: int| entries[place_of(seconds(entries), i)].0)
}

/// The entries of a dictionary: each stem with its identifier, in order of
/// identifier.
pub open spec fn entries_of_terms(terms: Seq<Seq<char>>) -> Seq<(Seq<char>, u32)> {
    Seq::new(terms.len(), |i: int| (terms[i], #[verifier::truncate] (i as u32)))
}

/// The entries of a dictionary are valid, and arranging them gives the stems
/// back.
pub proof fn lemma_entries_of_terms(terms: Seq<Seq<char>>, dfs: Seq<u32>)
    requires
        terms.no_duplicates(),
        terms.len() <= u32::MAX,
        dfs.len() == terms.len(),
    ensures
        dictionary_entries_valid(entries_of_terms(terms), dfs),
        arranged_terms(entries_of_terms(terms)) == terms,
        dfs.take(terms.len() as int) == dfs,
{
    let entries = entries_of_terms(terms);
    let ids = seconds(entries);
    assert(firsts(entries) =~= terms);
    assert forall|i: int| 0 <= i < terms.len() implies arranged_terms(entries)[i] == terms[i] by {
        assert(ids[i] == i);
        let j = place_of(ids, i);
        assert(ids[j] == i);
    }
    assert(arranged_terms(entries) =~= terms);
    assert(dfs.take(terms.len() as int) =~= dfs);
}

impl Dictionary {
    /// The stems, each at the index that is its term identifier.
    pub closed spec fn terms(&self) -> Seq<Seq<char>> {
        self.index.keys()
    }

    /// The document frequencies, indexed by term identifier.
    pub closed spec fn dfs(&self) -> Seq<u32> {
        self.df@
    }

    /// What holds of the index over the stems.
    pub closed spec fn index_wf(&self) -> bool {
        self.index.wf()
    }

    /// No stem occurs twice, every term has a document frequency, and every
    /// identifier fits 32 bits.
    pub open spec fn wf(&self) -> bool {
        &&& self.index_wf()
        &&& self.terms().no_duplicates()
        &&& self.dfs().len() == self.terms().len()
        &&& self.terms().len() <= u32::MAX
    }

    /// The identifier of a stem, where the dictionary has it.
    pub open spec fn id_of(&self, surface: Seq<char>) -> Option<TermId> {
        position_of(self.terms(), surface)
    }

    /// The empty dictionary.
    pub fn new() -> (d: Dictionary)
        ensures
            d.wf(),
            d.terms() == Seq::<Seq<char>>::empty(),
            d.dfs() == Seq::<u32>::empty(),
    {
        Dictionary { index: Interner::new(), df: Vec::new() }
    }

    /// The number of terms, which is also the next identifier to be assigned.
    pub fn len(&self) -> (n: usize)
        ensures
            n == self.terms().len(),
    {
        self.index.len()
    }

    /// Looks a stem up without changing the dictionary.
    pub fn lookup(&self, surface: &str) -> (r: Option<TermId>)
        requires
            self.wf(),
        ensures
            r == self.id_of(surface@),
            match r {
                Some(id) => id < self.terms().len() && self.terms()[id as int] == surface@,
                None => !self.terms().contains(surface@),
            },
    {
        self.index.lookup(surface)
    }

    /// Returns the identifier of the stem, assigning the next one, with a
    /// document frequency of 0, where the stem is new.
    pub fn intern(&mut self, surface: &str) -> (id: TermId)
        requires
            old(self).wf(),
            old(self).terms().contains(surface@) || old(self).terms().len() < u32::MAX,
        ensures
            final(self).wf(),
            final(self).id_of(surface@) == Some(id),
            old(self).terms().contains(surface@) ==> {
                &&& final(self).terms() == old(self).terms()
                &&& final(self).dfs() == old(self).dfs()
                &&& old(self).id_of(surface@) == Some(id)
            },
            !old(self).terms().contains(surface@) ==> {
                &&& final(self).terms() == old(self).terms().push(surface@)
                &&& final(self).dfs() == old(self).dfs().push(0u32)
                &&& id == old(self).terms().len()
            },
    {
        let id = self.index.intern(surface);
        if id as usize == self.df.len() {
            self.df.push(0u32);
        }
        id
    }

    /// Counts one more document for a term.
    pub fn add_document(&mut self, id: TermId)
        requires
            old(self).wf(),
            id < old(self).terms().len(),
            old(self).dfs()[id as int] < u32::MAX,
        ensures
            final(self).wf(),
            final(self).terms() == old(self).terms(),
            final(self).dfs() == old(self).dfs().update(id as int, (old(self).dfs()[id as int] + 1) as u32),
    {
        let n = self.df[id as usize];
        self.df.set(id as usize, n + 1);
    }

    /// Makes a dictionary of the entries of a dictionary file, or `None` where
    /// they are not valid. Document frequencies beyond the last term are
    /// dropped.
    pub fn from_entries(entries: &Vec<(String, u32)>, df: &Vec<u32>) -> (r: Option<Dictionary>)
        ensures
            match r {
                Some(d) => {
                    &&& dictionary_entries_valid(text_ids(entries@), df@)
                    &&& d.wf()
                    &&& d.terms() == arranged_terms(text_ids(entries@))
                    &&& d.dfs() == df@.take(entries@.len() as int)
                },
                None => !dictionary_entries_valid(text_ids(entries@), df@),
            },
    {
        let n = entries.len();
        if n > u32::MAX as usize || df.len() < n {
            return None;
        }
        let ghost model = text_ids(entries@);
        let mut ids: Vec<u32> = Vec::new();
        let mut j: usize = 0;
        while j < n
            invariant
                j <= n,
                n == entries@.len(),
                model == text_ids(entries@),
                ids@ == seconds(model).take(j as int),
            decreases n - j,
        {
            ids.push(entries[j].1);
            assert(ids@ =~= seconds(model).take(j + 1));
            j += 1;
        }
        assert(ids@ =~= seconds(model));
        let order = match arrange(&ids) {
            Some(order) => order,
            None => {
                return None;
            },
        };
        let mut index = Interner::new();
        let mut i: usize = 0;
        while i < n
            invariant
                i <= n,
                n == entries@.len(),
                n <= u32::MAX,
                model == text_ids(entries@),
                ids@ == seconds(model),
                dense_ids(ids@),
                arranges(order@, ids@),
                index.wf(),
                index.keys().len() == i,
                forall|k: int| 0 <= k < i ==> #[trigger] index.keys()[k] == model[order@[k] as int].0,
            decreases n - i,
        {
            let place = order[i];
            let stem = entries[place].0.as_str();
            assert(stem@ == model[place as int].0);
            match index.lookup(stem) {
                Some(k) => {
                    proof {
                        let other = order@[k as int] as int;
                        assert(ids@[other] == k);
                        assert(ids@[place as int] == i);
                        assert(firsts(model)[other] == firsts(model)[place as int]);
                    }
                    return None;
                },
                None => {},
            }
            let ghost before = index.keys();
            index.intern(stem);
            assert forall|k: int| 0 <= k < i + 1 implies #[trigger] index.keys()[k] == model[order@[k] as int].0 by {
                if k < i {
                    assert(before[k] == model[order@[k] as int].0);
                }
            }
            i += 1;
        }
        let mut kept: Vec<u32> = Vec::new();
        let mut t: usize = 0;
        while t < n
            invariant
                t <= n,
                n <= df@.len(),
                kept@ == df@.take(t as int),
            decreases n - t,
        {
            kept.push(df[t]);
            assert(kept@ =~= df@.take(t + 1));
            t += 1;
        }
        proof {
            assert forall|a: int, b: int| 0 <= a < b < n implies firsts(model)[a] != firsts(model)[b] by {
                let ia = ids@[a] as int;
                let ib = ids@[b] as int;
                assert(order@[ia] == a) by {
                    assert(ids@[order@[ia] as int] == ia);
                }
                assert(order@[ib] == b) by {
                    assert(ids@[order@[ib] as int] == ib);
                }
                assert(index.keys()[ia] == model[a].0);
                assert(index.keys()[ib] == model[b].0);
            }
            assert forall|k: int| 0 <= k < n implies index.keys()[k] == arranged_terms(model)[k] by {
                let chosen = place_of(ids@, k);
                assert(ids@[order@[k] as int] == k);
                assert(ids@[chosen] == k);
                assert(chosen == order@[k]);
            }
            assert(index.keys() =~= arranged_terms(model));
        }
        Some(Dictionary { index, df: kept })
    }

    /// The entries of the dictionary: each stem with its identifier, in order
    /// of identifier.
    pub fn entries(&self) -> (r: Vec<(String, u32)>)
        requires
            self.wf(),
        ensures
            text_ids(r@) == entries_of_terms(self.terms()),
    {
        let mut out: Vec<(String, u32)> = Vec::new();
        let n = self.index.len();
        let mut i: usize = 0;
        while i < n
            invariant
                i <= n,
                n == self.terms().len(),
                n <= u32::MAX,
                text_ids(out@) == entries_of_terms(self.terms()).take(i as int),
            decreases n - i,
        {
            let stem = self.index.key(i as u32);
            let ghost before = out@;
            out.push((String::from_str(stem), i as u32));
            assert(text_ids(out@) =~= text_ids(before).push((stem@, i as u32)));
            assert(entries_of_terms(self.terms())[i as int] == (stem@, i as u32));
            assert(text_ids(out@) =~= entries_of_terms(self.terms()).take(i + 1));
            i += 1;
        }
        assert(entries_of_terms(self.terms()).take(n as int) =~= entries_of_terms(self.terms()));
        out
    }

    /// The document frequencies in order of term identifier.
    pub fn document_frequencies(&self) -> (r: &Vec<u32>)
        ensures
            r@ == self.dfs(),
    {
        &self.df
    }

    /// The stem of a term.
    pub fn term(&self, id: TermId) -> (s: &str)
        requires
            id < self.terms().len(),
        ensures
            s@ == self.terms()[id as int],
    {
        self.index.key(id)
    }

    /// The document frequency of a term, or `None` for an identifier without
    /// one.
    pub fn df(&self, id: TermId) -> (r: Option<u32>)
        ensures
            r == if id < self.dfs().len() { Some(self.dfs()[id as int]) } else { None::<u32> },
    {
        if (id as usize) < self.df.len() {
            Some(self.df[id as usize])
        } else {
            None
        }
    }
}

} // verus!
