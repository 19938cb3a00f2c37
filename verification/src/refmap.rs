//! The resolved reference map: marker text to resolved note, with unique
//! keys, deterministic order and last-write-wins insertion.

use vstd::prelude::*;
use crate::obsidian::{Note, NoteView};
use crate::text::{bytes_eq, clone_bytes};

verus! {

/// The entries of a map, as mathematical values.
pub open spec fn entry_views(es: Seq<(Vec<u8>, Note)>) -> Seq<(Seq<u8>, NoteView)> {
    es.map_values(|e: (Vec<u8>, Note)| (e.0@, e.1@))
}

/// Index of the first entry with key `k` at or after `i`, or `es.len()`.
pub open spec fn key_index(es: Seq<(Seq<u8>, NoteView)>, k: Seq<u8>, i: int) -> int
    decreases es.len() - i when 0 <= i <= es.len()
{
    if i >= es.len() {
        es.len() as int
    } else if es[i].0 == k {
        i
    } else {
        key_index(es, k, i + 1)
    }
}

pub proof fn lemma_key_index_at(es: Seq<(Seq<u8>, NoteView)>, k: Seq<u8>, i: int, j: int)
    requires
        0 <= i <= j <= es.len(),
        forall|m: int| i <= m < j ==> es[m].0 != k,
        j < es.len() ==> es[j].0 == k,
    ensures
        key_index(es, k, i) == j,
    decreases j - i,
{
    if i < j {
        lemma_key_index_at(es, k, i + 1, j);
    }
}

/// True when some entry has key `k`.
pub open spec fn spec_contains_key(es: Seq<(Seq<u8>, NoteView)>, k: Seq<u8>) -> bool {
    key_index(es, k, 0) < es.len()
}

/// The note recorded under key `k`.
pub open spec fn spec_get(es: Seq<(Seq<u8>, NoteView)>, k: Seq<u8>) -> Option<NoteView> {
    let i = key_index(es, k, 0);
    if i < es.len() {
        Some(es[i].1)
    } else {
        None
    }
}

/// Insertion: an existing key keeps its place and takes the new note; a new
/// key is appended.
pub open spec fn spec_insert(
    es: Seq<(Seq<u8>, NoteView)>,
    k: Seq<u8>,
    n: NoteView,
) -> Seq<(Seq<u8>, NoteView)> {
    let i = key_index(es, k, 0);
    if i < es.len() {
        es.update(i, (k, n))
    } else {
        es.push((k, n))
    }
}

/// No two entries share a key.
pub open spec fn unique_keys(es: Seq<(Seq<u8>, NoteView)>) -> bool {
    forall|i: int, j: int| 0 <= i < j < es.len() ==> es[i].0 != es[j].0
}

/// A map from marker text to resolved note. Entries keep the order in which
/// their keys were first inserted, so iteration is deterministic.
pub struct NoteMap {
    /// The entries; construction keeps their keys unique.
    pub entries: Vec<(Vec<u8>, Note)>,
}

impl View for NoteMap {
    type V = Seq<(Seq<u8>, NoteView)>;

    open spec fn view(&self) -> Seq<(Seq<u8>, NoteView)> {
        entry_views(self.entries@)
    }
}

impl NoteMap {
    /// Keys are unique: each marker maps to at most one note.
    pub open spec fn wf(&self) -> bool {
        unique_keys(self@)
    }

    /// The empty map.
    pub fn new() -> (r: NoteMap)
        ensures
            r@ == Seq::<(Seq<u8>, NoteView)>::empty(),
            r.wf(),
    {
        let r = NoteMap { entries: Vec::new() };
        proof {
            assert(r@ =~= Seq::<(Seq<u8>, NoteView)>::empty());
        }
        r
    }

    /// How many markers are resolved.
    pub fn len(&self) -> (r: usize)
        ensures
            r == self@.len(),
    {
        self.entries.len()
    }

    /// Finds the entry position of key `k`, if present.
    fn position(&self, k: &[u8]) -> (r: Option<usize>)
        ensures
            match r {
                Some(i) => i < self@.len() && key_index(self@, k@, 0) == i as int,
                None => key_index(self@, k@, 0) == self@.len(),
            },
    {
        let mut i: usize = 0;
        while i < self.entries.len()
            invariant
                0 <= i <= self@.len(),
                self@.len() == self.entries@.len(),
                forall|m: int| 0 <= m < i ==> self@[m].0 != k@,
            decreases self@.len() - i,
        {
            let e = &self.entries[i];
            if bytes_eq(e.0.as_slice(), k) {
                proof {
                    assert(self@[i as int].0 == k@);
                    lemma_key_index_at(self@, k@, 0, i as int);
                }
                return Some(i);
            }
            proof {
                assert(self@[i as int].0 != k@);
            }
            i = i + 1;
        }
        proof {
            lemma_key_index_at(self@, k@, 0, self@.len() as int);
        }
        None
    }

    /// True when marker `k` is resolved in the map.
    pub fn contains_key(&self, k: &[u8]) -> (r: bool)
        ensures
            r == spec_contains_key(self@, k@),
    {
        match self.position(k) {
            Some(_) => true,
            None => false,
        }
    }

    /// The note recorded for marker `k`.
    pub fn get(&self, k: &[u8]) -> (r: Option<&Note>)
        ensures
            match r {
                Some(n) => spec_get(self@, k@) == Some(n@),
                None => spec_get(self@, k@) == None::<NoteView>,
            },
    {
        match self.position(k) {
            Some(i) => Some(&self.entries[i].1),
            None => None,
        }
    }

    /// Records marker `k` as resolving to `n`; an existing entry for `k` is
    /// overwritten in place, a new key is appended.
    pub fn insert(&mut self, k: Vec<u8>, n: Note)
        ensures
            final(self)@ == spec_insert(old(self)@, k@, n@),
            old(self).wf() ==> final(self).wf(),
    {
        let ghost es0 = self@;
        match self.position(k.as_slice()) {
            Some(i) => {
                let ghost ki = i as int;
                self.entries.remove(i);
                self.entries.insert(i, (k, n));
                proof {
                    lemma_key_index_bounds(es0, k@, 0);
                    assert(self@ =~= es0.update(ki, (k@, n@)));
                    if unique_keys(es0) {
                        assert forall|a: int, b: int| 0 <= a < b < self@.len() implies self@[a].0
                            != self@[b].0 by {
                            assert(es0[ki].0 == k@);
                            assert(self@[a].0 == es0[a].0);
                            assert(self@[b].0 == es0[b].0);
                        }
                    }
                }
            },
            None => {
                self.entries.push((k, n));
                proof {
                    assert(self@ =~= es0.push((k@, n@)));
                    if unique_keys(es0) {
                        assert forall|a: int, b: int| 0 <= a < b < self@.len() implies self@[a].0
                            != self@[b].0 by {
                            if b == es0.len() {
                                assert(key_index(es0, k@, 0) == es0.len());
                                lemma_key_index_none(es0, k@, a);
                            }
                        }
                    }
                }
            },
        }
    }
}

impl Clone for NoteMap {
    fn clone(&self) -> (r: Self)
        ensures
            r@ == self@,
    {
        let mut entries: Vec<(Vec<u8>, Note)> = Vec::new();
        let mut i: usize = 0;
        while i < self.entries.len()
            invariant
                0 <= i <= self.entries@.len(),
                entry_views(entries@) == entry_views(self.entries@).take(i as int),
            decreases self.entries@.len() - i,
        {
            let ghost e0 = entry_views(entries@);
            let e = &self.entries[i];
            entries.push((clone_bytes(&e.0), e.1.clone()));
            proof {
                assert(entry_views(entries@) =~= e0.push((e.0@, e.1@)));
                assert(entry_views(self.entries@).take(i + 1) =~= entry_views(
                    self.entries@,
                ).take(i as int).push((e.0@, e.1@)));
            }
            i = i + 1;
        }
        proof {
            assert(entry_views(self.entries@).take(i as int) =~= entry_views(self.entries@));
        }
        NoteMap { entries }
    }
}

/// A key is contained exactly when some entry carries it.
pub proof fn lemma_contains_key_exists(es: Seq<(Seq<u8>, NoteView)>, k: Seq<u8>)
    ensures
        spec_contains_key(es, k) <==> exists|j: int| 0 <= j < es.len() && es[j].0 == k,
{
    lemma_key_index_bounds(es, k, 0);
    if spec_contains_key(es, k) {
        assert(es[key_index(es, k, 0)].0 == k);
    } else {
        assert forall|j: int| 0 <= j < es.len() implies es[j].0 != k by {
            lemma_key_index_none(es, k, j);
        }
    }
}

/// Insertion adds exactly the inserted key to the key set.
pub proof fn lemma_insert_keys(es: Seq<(Seq<u8>, NoteView)>, t: Seq<u8>, n: NoteView, k: Seq<u8>)
    ensures
        spec_contains_key(spec_insert(es, t, n), k) <==> (k == t || spec_contains_key(es, k)),
{
    let es2 = spec_insert(es, t, n);
    lemma_key_index_bounds(es, t, 0);
    lemma_contains_key_exists(es, k);
    lemma_contains_key_exists(es2, k);
    let i = key_index(es, t, 0);
    if i < es.len() {
        // update in place: keys are unchanged except that position i holds t,
        // which es already held there
        assert(es[i].0 == t);
        assert forall|j: int| 0 <= j < es2.len() implies es2[j].0 == es[j].0 by {}
        if spec_contains_key(es2, k) {
            let w = choose|j: int| 0 <= j < es2.len() && es2[j].0 == k;
            assert(es[w].0 == k);
        }
        if k == t {
            assert(es2[i].0 == k);
        }
        if spec_contains_key(es, k) {
            let w = choose|j: int| 0 <= j < es.len() && es[j].0 == k;
            assert(es2[w].0 == k);
        }
    } else {
        // appended at the end
        if spec_contains_key(es2, k) {
            let w = choose|j: int| 0 <= j < es2.len() && es2[j].0 == k;
            if w < es.len() {
                assert(es[w].0 == k);
            } else {
                assert(k == t);
            }
        }
        if k == t {
            assert(es2[es.len() as int].0 == k);
        }
        if spec_contains_key(es, k) {
            let w = choose|j: int| 0 <= j < es.len() && es[j].0 == k;
            assert(es2[w].0 == k);
        }
    }
}

/// When `key_index` finds nothing, no entry has the key.
pub proof fn lemma_key_index_none(es: Seq<(Seq<u8>, NoteView)>, k: Seq<u8>, a: int)
    requires
        key_index(es, k, 0) == es.len(),
        0 <= a < es.len(),
    ensures
        es[a].0 != k,
{
    lemma_key_index_bounds(es, k, 0);
    lemma_key_index_misses(es, k, 0, a);
}

pub proof fn lemma_key_index_bounds(es: Seq<(Seq<u8>, NoteView)>, k: Seq<u8>, i: int)
    requires
        0 <= i <= es.len(),
    ensures
        i <= key_index(es, k, i) <= es.len(),
        key_index(es, k, i) < es.len() ==> es[key_index(es, k, i)].0 == k,
    decreases es.len() - i,
{
    if i < es.len() && es[i].0 != k {
        lemma_key_index_bounds(es, k, i + 1);
    }
}

pub proof fn lemma_key_index_misses(es: Seq<(Seq<u8>, NoteView)>, k: Seq<u8>, i: int, a: int)
    requires
        0 <= i <= a < es.len(),
        a < key_index(es, k, i),
    ensures
        es[a].0 != k,
    decreases a - i,
{
    if i < a {
        lemma_key_index_misses(es, k, i + 1, a);
    }
}

} // verus!
