//! The manifest of a package document: item ids mapped to their links.
//!
//! Entries are kept in insertion order; a later entry for an id replaces an
//! earlier one, as inserting into a map does.

use vstd::prelude::*;

use crate::text::{chars_eq, chars_of};

verus! {

/// The map that a list of (id, link) insertions leaves.
pub open spec fn manifest_map(entries: Seq<(Seq<char>, Seq<char>)>) -> Map<Seq<char>, Seq<char>>
    decreases entries.len(),
{
    if entries.len() == 0 {
        Map::empty()
    } else {
        manifest_map(entries.drop_last()).insert(entries.last().0, entries.last().1)
    }
}

/// Item ids and the links they stand for.
pub struct Manifest {
    entries: Vec<(String, String)>,
}

impl Manifest {
    /// The insertions, by their models.
    pub closed spec fn entry_views(&self) -> Seq<(Seq<char>, Seq<char>)> {
        self.entries@.map_values(|p: (String, String)| (p.0@, p.1@))
    }
}

impl View for Manifest {
    type V = Map<Seq<char>, Seq<char>>;

    closed spec fn view(&self) -> Map<Seq<char>, Seq<char>> {
        manifest_map(self.entry_views())
    }
}

proof fn lemma_manifest_lookup(entries: Seq<(Seq<char>, Seq<char>)>, k: int, id: Seq<char>)
    requires
        0 <= k < entries.len(),
        entries[k].0 == id,
        forall|j: int| k < j < entries.len() ==> entries[j].0 != id,
    ensures
        manifest_map(entries).contains_key(id),
        manifest_map(entries)[id] == entries[k].1,
    decreases entries.len(),
{
    if k < entries.len() - 1 {
        lemma_manifest_lookup(entries.drop_last(), k, id);
    }
}

proof fn lemma_manifest_absent(entries: Seq<(Seq<char>, Seq<char>)>, id: Seq<char>)
    requires
        forall|j: int| 0 <= j < entries.len() ==> entries[j].0 != id,
    ensures
        !manifest_map(entries).contains_key(id),
    decreases entries.len(),
{
    if entries.len() > 0 {
        lemma_manifest_absent(entries.drop_last(), id);
    }
}

impl Manifest {
    /// An empty manifest.
    pub fn new() -> (m: Manifest)
        ensures
            m@ == Map::<Seq<char>, Seq<char>>::empty(),
    {
        let m = Manifest { entries: Vec::new() };
        proof {
            assert(m.entry_views().len() == 0);
        }
        m
    }

    /// Maps `id` to `href`, replacing what `id` mapped to.
    pub fn insert(&mut self, id: String, href: String)
        ensures
            final(self)@ == old(self)@.insert(id@, href@),
    {
        let ghost before = self.entry_views();
        self.entries.push((id, href));
        proof {
            assert(self.entry_views().drop_last() =~= before);
        }
    }

    /// What `id` maps to.
    pub fn get(&self, id: &str) -> (r: Option<String>)
        ensures
            match r {
                Some(v) => self@.contains_key(id@) && self@[id@] == v@,
                None => !self@.contains_key(id@),
            },
    {
        let ghost ev = self.entry_views();
        let idc = chars_of(id);
        let mut k: usize = self.entries.len();
        while k > 0
            invariant
                k <= self.entries@.len(),
                ev == self.entry_views(),
                idc@ == id@,
                forall|j: int| k <= j < ev.len() ==> ev[j].0 != id@,
            decreases k,
        {
            let kc = chars_of(self.entries[k - 1].0.as_str());
            if chars_eq(kc.as_slice(), idc.as_slice()) {
                proof {
                    lemma_manifest_lookup(ev, k - 1, id@);
                }
                return Some(self.entries[k - 1].1.clone());
            }
            k = k - 1;
        }
        proof {
            lemma_manifest_absent(ev, id@);
        }
        None
    }
}

} // verus!
