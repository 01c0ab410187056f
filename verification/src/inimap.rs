//! The output mapping: section name -> property name -> property value.
//!
//! `IniMap` stores the properties as a flat journal of entries in write
//! order; its view abstracts that journal into the nested mapping, where
//! a later write to the same section and key overwrites an earlier one
//! and writing into a section creates it on demand.

use vstd::prelude::*;
use crate::text::str_eq;

verus! {

/// The mathematical shape of the output: section -> (key -> value).
pub type SectionsMap = Map<Seq<char>, Map<Seq<char>, Seq<char>>>;

/// One recorded property write.
#[derive(Debug)]
pub struct IniEntry {
    pub section: String,
    pub key: String,
    pub value: String,
}

/// The inner mapping of `m` at `s`, or the empty mapping when the
/// section does not exist yet.
pub open spec fn section_or_empty(m: SectionsMap, s: Seq<char>) -> Map<Seq<char>, Seq<char>> {
    if m.contains_key(s) {
        m[s]
    } else {
        Map::empty()
    }
}

/// The nested mapping described by a journal of entries, later entries
/// overwriting earlier ones key by key.
pub open spec fn entries_map(es: Seq<IniEntry>) -> SectionsMap
    decreases es.len(),
{
    if es.len() == 0 {
        Map::empty()
    } else {
        let m = entries_map(es.drop_last());
        let e = es.last();
        m.insert(e.section@, section_or_empty(m, e.section@).insert(e.key@, e.value@))
    }
}

/// The value stored under section `s` and key `k`, if any.
pub open spec fn lookup(m: SectionsMap, s: Seq<char>, k: Seq<char>) -> Option<Seq<char>> {
    if m.contains_key(s) && m[s].contains_key(k) {
        Some(m[s][k])
    } else {
        None
    }
}

/// A two-level mapping from section names to property name/value pairs.
#[derive(Debug)]
pub struct IniMap {
    entries: Vec<IniEntry>,
}

/// An entry that does not write `(s, k)` leaves the value at `(s, k)`
/// unchanged.
pub proof fn lemma_lookup_push_other(es: Seq<IniEntry>, e: IniEntry, s: Seq<char>, k: Seq<char>)
    requires
        e.section@ != s || e.key@ != k,
    ensures
        lookup(entries_map(es.push(e)), s, k) == lookup(entries_map(es), s, k),
{
    assert(es.push(e).drop_last() =~= es);
    assert(es.push(e).last() == e);
}

/// An entry writing `(s, k)` makes its value the one stored there.
pub proof fn lemma_lookup_push_hit(es: Seq<IniEntry>, e: IniEntry)
    ensures
        lookup(entries_map(es.push(e)), e.section@, e.key@) == Some(e.value@),
{
    assert(es.push(e).drop_last() =~= es);
    assert(es.push(e).last() == e);
}

/// A section exists exactly when some entry wrote into it.
pub proof fn lemma_contains_section(es: Seq<IniEntry>, s: Seq<char>)
    ensures
        entries_map(es).contains_key(s) <==> exists|i: int| 0 <= i < es.len() && es[i].section@ == s,
    decreases es.len(),
{
    if es.len() > 0 {
        lemma_contains_section(es.drop_last(), s);
        let e = es.last();
        if e.section@ == s {
            assert(es[es.len() - 1].section@ == s);
        } else {
            if entries_map(es).contains_key(s) {
                let i = choose|i: int| 0 <= i < es.drop_last().len() && es.drop_last()[i].section@ == s;
                assert(es[i].section@ == s);
            }
            if exists|i: int| 0 <= i < es.len() && es[i].section@ == s {
                let i = choose|i: int| 0 <= i < es.len() && es[i].section@ == s;
                assert(i < es.len() - 1);
                assert(es.drop_last()[i].section@ == s);
            }
        }
    }
}

/// A key exists in a section exactly when some entry wrote that pair.
pub proof fn lemma_contains_pair(es: Seq<IniEntry>, s: Seq<char>, k: Seq<char>)
    ensures
        (lookup(entries_map(es), s, k) is Some) <==> exists|i: int|
            0 <= i < es.len() && es[i].section@ == s && es[i].key@ == k,
    decreases es.len(),
{
    if es.len() > 0 {
        lemma_contains_pair(es.drop_last(), s, k);
        let e = es.last();
        if e.section@ == s && e.key@ == k {
            lemma_lookup_push_hit(es.drop_last(), e);
            assert(es.drop_last().push(e) =~= es);
            assert(es[es.len() - 1].section@ == s && es[es.len() - 1].key@ == k);
        } else {
            lemma_lookup_push_other(es.drop_last(), e, s, k);
            assert(es.drop_last().push(e) =~= es);
            if lookup(entries_map(es), s, k) is Some {
                let i = choose|i: int|
                    0 <= i < es.drop_last().len() && es.drop_last()[i].section@ == s
                        && es.drop_last()[i].key@ == k;
                assert(es[i].section@ == s && es[i].key@ == k);
            }
            if exists|i: int| 0 <= i < es.len() && es[i].section@ == s && es[i].key@ == k {
                let i = choose|i: int| 0 <= i < es.len() && es[i].section@ == s && es[i].key@ == k;
                assert(i < es.len() - 1);
                assert(es.drop_last()[i].section@ == s && es.drop_last()[i].key@ == k);
            }
        }
    }
}

/// Whether some element of `v` reads as `s`.
fn vec_contains_str(v: &Vec<String>, s: &str) -> (b: bool)
    ensures
        b == view_in(v@, s@),
{
    let n = v.len();
    let mut i: usize = 0;
    while i < n
        invariant
            i <= n,
            n == v@.len(),
            forall|j: int| 0 <= j < i ==> (#[trigger] v@[j])@ != s@,
        decreases n - i,
    {
        if str_eq(v[i].as_str(), s) {
            proof {
                assert(v@[i as int]@ == s@);
            }
            return true;
        }
        i = i + 1;
    }
    proof {
        assert(!view_in(v@, s@)) by {
            if view_in(v@, s@) {
                let i0 = choose|i0: int| 0 <= i0 < v@.len() && (#[trigger] v@[i0])@ == s@;
            }
        }
    }
    false
}

/// Pairwise distinct string views.
pub open spec fn distinct_views(v: Seq<String>) -> bool {
    forall|i: int, j: int| 0 <= i < j < v.len() ==> (#[trigger] v[i])@ != (#[trigger] v[j])@
}

/// Whether some element of `v` reads as `nm`.
pub open spec fn view_in(v: Seq<String>, nm: Seq<char>) -> bool {
    exists|i: int| 0 <= i < v.len() && (#[trigger] v[i])@ == nm
}

/// Whether some entry before `upto` writes into section `nm`.
pub open spec fn name_from_entries(es: Seq<IniEntry>, upto: int, nm: Seq<char>) -> bool {
    exists|j: int| 0 <= j < upto && (#[trigger] es[j]).section@ == nm
}

/// Whether some entry before `upto` writes key `k` into section `s`.
pub open spec fn key_from_entries(es: Seq<IniEntry>, s: Seq<char>, upto: int, k: Seq<char>) -> bool {
    exists|j: int| 0 <= j < upto && (#[trigger] es[j]).section@ == s && es[j].key@ == k
}

/// Every element of `v` is the section name of an entry before `upto`.
pub open spec fn names_sound(v: Seq<String>, es: Seq<IniEntry>, upto: int) -> bool {
    forall|i: int| 0 <= i < v.len() ==> name_from_entries(es, upto, (#[trigger] v[i])@)
}

/// Every section name of an entry before `upto` occurs in `v`.
pub open spec fn names_complete(v: Seq<String>, es: Seq<IniEntry>, upto: int) -> bool {
    forall|j: int| 0 <= j < upto ==> view_in(v, (#[trigger] es[j]).section@)
}

/// Every element of `v` is the key of an entry of section `s` before `upto`.
pub open spec fn keys_sound(v: Seq<String>, es: Seq<IniEntry>, s: Seq<char>, upto: int) -> bool {
    forall|i: int| 0 <= i < v.len() ==> key_from_entries(es, s, upto, (#[trigger] v[i])@)
}

/// Every key of an entry of section `s` before `upto` occurs in `v`.
pub open spec fn keys_complete(v: Seq<String>, es: Seq<IniEntry>, s: Seq<char>, upto: int) -> bool {
    forall|j: int|
        0 <= j < upto && (#[trigger] es[j]).section@ == s ==> view_in(v, es[j].key@)
}

/// Pushing an element keeps every earlier name in view.
proof fn lemma_view_in_push(v: Seq<String>, x: String, nm: Seq<char>)
    requires
        view_in(v, nm) || x@ == nm,
    ensures
        view_in(v.push(x), nm),
{
    let w = v.push(x);
    if x@ == nm {
        assert(w[v.len() as int]@ == nm);
    } else {
        let i0 = choose|i0: int| 0 <= i0 < v.len() && (#[trigger] v[i0])@ == nm;
        assert(w[i0]@ == nm);
    }
}

/// One step of collecting distinct section names.
proof fn lemma_names_step(v: Seq<String>, w: Seq<String>, es: Seq<IniEntry>, upto: int, present: bool)
    requires
        0 <= upto < es.len(),
        distinct_views(v),
        names_sound(v, es, upto),
        names_complete(v, es, upto),
        present == view_in(v, es[upto].section@),
        w == if present { v } else { v.push(es[upto].section) },
    ensures
        distinct_views(w),
        names_sound(w, es, upto + 1),
        names_complete(w, es, upto + 1),
{
    assert forall|i: int| 0 <= i < w.len() implies name_from_entries(
        es,
        upto + 1,
        (#[trigger] w[i])@,
    ) by {
        if i < v.len() {
            assert(w[i] == v[i]);
            let j0 = choose|j0: int| 0 <= j0 < upto && (#[trigger] es[j0]).section@ == v[i]@;
            assert(0 <= j0 < upto + 1 && es[j0].section@ == w[i]@);
        } else {
            assert(w[i]@ == es[upto].section@);
            assert(0 <= upto < upto + 1 && es[upto].section@ == w[i]@);
        }
    }
    assert forall|j: int| 0 <= j < upto + 1 implies view_in(
        w,
        (#[trigger] es[j]).section@,
    ) by {
        if present {
            if j < upto {
                assert(view_in(v, es[j].section@));
            } else {
                assert(view_in(v, es[upto].section@));
            }
        } else {
            if j < upto {
                lemma_view_in_push(v, es[upto].section, es[j].section@);
            } else {
                lemma_view_in_push(v, es[upto].section, es[upto].section@);
            }
        }
    }
    if !present {
        assert forall|i: int, j: int| 0 <= i < j < w.len() implies (#[trigger] w[i])@ != (
        #[trigger] w[j])@ by {
            if j < v.len() {
                assert(w[i] == v[i] && w[j] == v[j]);
            } else {
                assert(w[i] == v[i] && w[j] == es[upto].section);
                assert(!view_in(v, es[upto].section@));
                assert(v[i]@ != es[upto].section@);
            }
        }
    }
}

/// One step of collecting the distinct keys of one section.
proof fn lemma_keys_step(
    v: Seq<String>,
    w: Seq<String>,
    es: Seq<IniEntry>,
    s: Seq<char>,
    upto: int,
    present: bool,
)
    requires
        0 <= upto < es.len(),
        distinct_views(v),
        keys_sound(v, es, s, upto),
        keys_complete(v, es, s, upto),
        es[upto].section@ == s ==> present == view_in(v, es[upto].key@),
        w == if es[upto].section@ == s && !present {
            v.push(es[upto].key)
        } else {
            v
        },
    ensures
        distinct_views(w),
        keys_sound(w, es, s, upto + 1),
        keys_complete(w, es, s, upto + 1),
{
    let pushed = es[upto].section@ == s && !present;
    assert forall|i: int| 0 <= i < w.len() implies key_from_entries(
        es,
        s,
        upto + 1,
        (#[trigger] w[i])@,
    ) by {
        if i < v.len() {
            assert(w[i] == v[i]);
            let j0 = choose|j0: int|
                0 <= j0 < upto && (#[trigger] es[j0]).section@ == s && es[j0].key@ == v[i]@;
            assert(0 <= j0 < upto + 1 && es[j0].section@ == s && es[j0].key@ == w[i]@);
        } else {
            assert(w[i]@ == es[upto].key@);
            assert(0 <= upto < upto + 1 && es[upto].section@ == s && es[upto].key@ == w[i]@);
        }
    }
    assert forall|j: int| 0 <= j < upto + 1 && (#[trigger] es[j]).section@ == s implies view_in(
        w,
        es[j].key@,
    ) by {
        if pushed {
            if j < upto {
                lemma_view_in_push(v, es[upto].key, es[j].key@);
            } else {
                lemma_view_in_push(v, es[upto].key, es[upto].key@);
            }
        } else {
            if j < upto {
                assert(view_in(v, es[j].key@));
            } else {
                assert(view_in(v, es[upto].key@));
            }
        }
    }
    if pushed {
        assert forall|i: int, j: int| 0 <= i < j < w.len() implies (#[trigger] w[i])@ != (
        #[trigger] w[j])@ by {
            if j < v.len() {
                assert(w[i] == v[i] && w[j] == v[j]);
            } else {
                assert(w[i] == v[i] && w[j] == es[upto].key);
                assert(!view_in(v, es[upto].key@));
                assert(v[i]@ != es[upto].key@);
            }
        }
    }
}

impl IniMap {
    /// The nested mapping this value represents.
    pub closed spec fn view(&self) -> SectionsMap {
        entries_map(self.entries@)
    }

    /// An empty mapping with no sections.
    pub fn new() -> (r: IniMap)
        ensures
            r@ == Map::<Seq<char>, Map<Seq<char>, Seq<char>>>::empty(),
    {
        IniMap { entries: Vec::new() }
    }

    /// Record `key = value` under `section`, creating the section on
    /// first use and overwriting an earlier value of the same key.
    pub fn put(&mut self, section: String, key: String, value: String)
        ensures
            final(self)@ == old(self)@.insert(
                section@,
                section_or_empty(old(self)@, section@).insert(key@, value@),
            ),
    {
        let ghost es = self.entries@;
        self.entries.push(IniEntry { section, key, value });
        proof {
            assert(self.entries@.drop_last() =~= es);
        }
    }

    /// The value stored under `section` and `key`, if any.
    pub fn get<'a>(&'a self, section: &str, key: &str) -> (r: Option<&'a String>)
        ensures
            match r {
                Some(v) => lookup(self@, section@, key@) == Some(v@),
                None => lookup(self@, section@, key@) is None,
            },
    {
        let n = self.entries.len();
        proof {
            assert(self.entries@.take(n as int) =~= self.entries@);
        }
        let mut i: usize = n;
        while i > 0
            invariant
                i <= n,
                n == self.entries@.len(),
                lookup(entries_map(self.entries@), section@, key@) == lookup(
                    entries_map(self.entries@.take(i as int)),
                    section@,
                    key@,
                ),
            decreases i,
        {
            i = i - 1;
            let e = &self.entries[i];
            proof {
                assert(self.entries@.take(i + 1).drop_last() =~= self.entries@.take(i as int));
                assert(self.entries@.take(i + 1).last() == self.entries@[i as int]);
                assert(self.entries@.take(i as int).push(self.entries@[i as int]) =~= self.entries@.take(i + 1));
            }
            if str_eq(e.section.as_str(), section) && str_eq(e.key.as_str(), key) {
                proof {
                    lemma_lookup_push_hit(self.entries@.take(i as int), self.entries@[i as int]);
                }
                return Some(&e.value);
            }
            proof {
                lemma_lookup_push_other(
                    self.entries@.take(i as int),
                    self.entries@[i as int],
                    section@,
                    key@,
                );
            }
        }
        proof {
            assert(self.entries@.take(0) =~= Seq::<IniEntry>::empty());
        }
        None
    }

    /// Whether a section of this name exists.
    pub fn contains_section(&self, section: &str) -> (r: bool)
        ensures
            r == self@.contains_key(section@),
    {
        let n = self.entries.len();
        let mut i: usize = 0;
        while i < n
            invariant
                i <= n,
                n == self.entries@.len(),
                forall|j: int| 0 <= j < i ==> self.entries@[j].section@ != section@,
            decreases n - i,
        {
            if str_eq(self.entries[i].section.as_str(), section) {
                proof {
                    lemma_contains_section(self.entries@, section@);
                }
                return true;
            }
            i = i + 1;
        }
        proof {
            lemma_contains_section(self.entries@, section@);
        }
        false
    }

    /// The distinct section names, each exactly once, covering every
    /// section of the mapping.
    pub fn section_names(&self) -> (r: Vec<String>)
        ensures
            distinct_views(r@),
            forall|i: int| 0 <= i < r@.len() ==> self@.contains_key((#[trigger] r@[i])@),
            forall|s: Seq<char>| self@.contains_key(s) ==> view_in(r@, s),
    {
        let mut r: Vec<String> = Vec::new();
        let n = self.entries.len();
        let mut idx: usize = 0;
        while idx < n
            invariant
                idx <= n,
                n == self.entries@.len(),
                distinct_views(r@),
                names_sound(r@, self.entries@, idx as int),
                names_complete(r@, self.entries@, idx as int),
            decreases n - idx,
        {
            let ghost v = r@;
            let e = &self.entries[idx];
            let present = vec_contains_str(&r, e.section.as_str());
            if !present {
                r.push(e.section.clone());
            }
            proof {
                assert(r@ == if present {
                    v
                } else {
                    v.push(self.entries@[idx as int].section)
                });
                lemma_names_step(v, r@, self.entries@, idx as int, present);
            }
            idx = idx + 1;
        }
        proof {
            assert forall|i: int| 0 <= i < r@.len() implies self@.contains_key(
                (#[trigger] r@[i])@,
            ) by {
                let j0 = choose|j0: int|
                    0 <= j0 < n && (#[trigger] self.entries@[j0]).section@ == r@[i]@;
                lemma_contains_section(self.entries@, r@[i]@);
                assert(0 <= j0 < self.entries@.len() && self.entries@[j0].section@ == r@[i]@);
            }
            assert forall|s: Seq<char>| self@.contains_key(s) implies view_in(r@, s) by {
                lemma_contains_section(self.entries@, s);
                let j = choose|j: int|
                    0 <= j < self.entries@.len() && self.entries@[j].section@ == s;
                assert(view_in(r@, self.entries@[j].section@));
            }
        }
        r
    }

    /// The distinct property names of one section, each exactly once,
    /// covering every key that section holds.
    pub fn section_keys(&self, section: &str) -> (r: Vec<String>)
        ensures
            distinct_views(r@),
            forall|i: int|
                0 <= i < r@.len() ==> lookup(self@, section@, (#[trigger] r@[i])@) is Some,
            forall|k: Seq<char>| lookup(self@, section@, k) is Some ==> view_in(r@, k),
    {
        let mut r: Vec<String> = Vec::new();
        let n = self.entries.len();
        let mut idx: usize = 0;
        while idx < n
            invariant
                idx <= n,
                n == self.entries@.len(),
                distinct_views(r@),
                keys_sound(r@, self.entries@, section@, idx as int),
                keys_complete(r@, self.entries@, section@, idx as int),
            decreases n - idx,
        {
            let ghost v = r@;
            let e = &self.entries[idx];
            let mut present = false;
            if str_eq(e.section.as_str(), section) {
                present = vec_contains_str(&r, e.key.as_str());
                if !present {
                    r.push(e.key.clone());
                }
            }
            proof {
                assert(r@ == if self.entries@[idx as int].section@ == section@ && !present {
                    v.push(self.entries@[idx as int].key)
                } else {
                    v
                });
                lemma_keys_step(v, r@, self.entries@, section@, idx as int, present);
            }
            idx = idx + 1;
        }
        proof {
            assert forall|i: int| 0 <= i < r@.len() implies lookup(
                self@,
                section@,
                (#[trigger] r@[i])@,
            ) is Some by {
                let j0 = choose|j0: int|
                    0 <= j0 < n && (#[trigger] self.entries@[j0]).section@ == section@
                        && self.entries@[j0].key@ == r@[i]@;
                lemma_contains_pair(self.entries@, section@, r@[i]@);
                assert(0 <= j0 < self.entries@.len() && self.entries@[j0].section@ == section@
                    && self.entries@[j0].key@ == r@[i]@);
            }
            assert forall|k: Seq<char>| lookup(self@, section@, k) is Some implies view_in(
                r@,
                k,
            ) by {
                lemma_contains_pair(self.entries@, section@, k);
                let j = choose|j: int|
                    0 <= j < self.entries@.len() && self.entries@[j].section@ == section@
                        && self.entries@[j].key@ == k;
                assert(0 <= j < self.entries@.len() && (#[trigger] self.entries@[j]).section@
                    == section@);
                assert(view_in(r@, self.entries@[j].key@));
            }
        }
        r
    }

    /// Whether the mapping holds no section at all.
    pub fn is_empty(&self) -> (r: bool)
        ensures
            r == (self@ =~= Map::<Seq<char>, Map<Seq<char>, Seq<char>>>::empty()),
    {
        if self.entries.len() == 0 {
            true
        } else {
            proof {
                lemma_contains_section(self.entries@, self.entries@[0].section@);
                assert(self@.contains_key(self.entries@[0].section@));
            }
            false
        }
    }
}

} // verus!
