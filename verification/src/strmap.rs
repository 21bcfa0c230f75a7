//! A string-to-string mapping with byte-string keys and values, used for the
//! parsed header fields and for the variable map of a render pass.  It is an
//! association list with unique keys; its view is a `Map<Seq<u8>, Seq<u8>>`.

use vstd::prelude::*;
use crate::text::bytes_eq;

verus! {

/// The map denoted by an association list: a later entry for a key wins.
pub open spec fn map_of(entries: Seq<(Vec<u8>, Vec<u8>)>) -> Map<Seq<u8>, Seq<u8>>
    decreases entries.len(),
{
    if entries.len() == 0 {
        Map::empty()
    } else {
        map_of(entries.drop_last()).insert(entries.last().0@, entries.last().1@)
    }
}

pub open spec fn unique_keys(entries: Seq<(Vec<u8>, Vec<u8>)>) -> bool {
    forall|i: int, j: int|
        0 <= i < j < entries.len() ==> entries[i].0@ != entries[j].0@
}

proof fn lemma_map_of_contains(entries: Seq<(Vec<u8>, Vec<u8>)>, k: Seq<u8>)
    ensures
        map_of(entries).dom().contains(k) <==> exists|i: int|
            0 <= i < entries.len() && entries[i].0@ == k,
    decreases entries.len(),
{
    if entries.len() > 0 {
        lemma_map_of_contains(entries.drop_last(), k);
        if map_of(entries).dom().contains(k) {
            if entries.last().0@ != k {
                let i = choose|i: int|
                    0 <= i < entries.drop_last().len() && entries.drop_last()[i].0@ == k;
                assert(entries[i].0@ == k);
            } else {
                assert(entries[entries.len() - 1].0@ == k);
            }
        }
        if exists|i: int| 0 <= i < entries.len() && entries[i].0@ == k {
            let i = choose|i: int| 0 <= i < entries.len() && entries[i].0@ == k;
            if i < entries.len() - 1 {
                assert(entries.drop_last()[i].0@ == k);
            }
        }
    }
}

proof fn lemma_map_of_entry(entries: Seq<(Vec<u8>, Vec<u8>)>, i: int)
    requires
        unique_keys(entries),
        0 <= i < entries.len(),
    ensures
        map_of(entries).dom().contains(entries[i].0@),
        map_of(entries)[entries[i].0@] == entries[i].1@,
    decreases entries.len(),
{
    if i == entries.len() - 1 {
    } else {
        lemma_map_of_entry(entries.drop_last(), i);
        assert(entries.drop_last()[i] == entries[i]);
        assert(entries[i].0@ != entries.last().0@);
    }
}

proof fn lemma_map_of_dom_len(entries: Seq<(Vec<u8>, Vec<u8>)>)
    requires
        unique_keys(entries),
    ensures
        map_of(entries).dom().finite(),
        map_of(entries).dom().len() == entries.len(),
    decreases entries.len(),
{
    if entries.len() > 0 {
        let d = entries.drop_last();
        lemma_map_of_dom_len(d);
        lemma_map_of_contains(d, entries.last().0@);
        assert(forall|i: int| 0 <= i < d.len() ==> d[i].0@ != entries.last().0@);
        assert(!map_of(d).dom().contains(entries.last().0@));
        assert(map_of(entries).dom() =~= map_of(d).dom().insert(entries.last().0@));
    }
}

proof fn lemma_map_of_update(entries: Seq<(Vec<u8>, Vec<u8>)>, i: int, e: (Vec<u8>, Vec<u8>))
    requires
        unique_keys(entries),
        0 <= i < entries.len(),
        entries[i].0@ == e.0@,
    ensures
        map_of(entries.update(i, e)) == map_of(entries).insert(e.0@, e.1@),
    decreases entries.len(),
{
    let u = entries.update(i, e);
    if i == entries.len() - 1 {
        assert(u.drop_last() =~= entries.drop_last());
        assert(map_of(u) =~= map_of(entries).insert(e.0@, e.1@));
    } else {
        let d = entries.drop_last();
        assert(u.drop_last() =~= d.update(i, e));
        lemma_map_of_update(d, i, e);
        assert(u.last() == entries.last());
        assert(entries[i].0@ != entries.last().0@);
        assert(map_of(u) =~= map_of(entries).insert(e.0@, e.1@));
    }
}

/// A mapping from byte-string keys to byte-string values.
pub struct StrMap {
    entries: Vec<(Vec<u8>, Vec<u8>)>,
}

impl StrMap {
    pub closed spec fn view(&self) -> Map<Seq<u8>, Seq<u8>> {
        map_of(self.entries@)
    }

    #[verifier::type_invariant]
    spec fn inv(&self) -> bool {
        unique_keys(self.entries@)
    }

    /// The empty mapping.
    pub fn new() -> (r: StrMap)
        ensures
            r@ == Map::<Seq<u8>, Seq<u8>>::empty(),
    {
        StrMap { entries: Vec::new() }
    }

    /// The number of keys bound.
    pub fn len(&self) -> (r: usize)
        ensures
            r == self@.dom().len(),
    {
        proof {
            use_type_invariant(self);
            lemma_map_of_dom_len(self.entries@);
        }
        self.entries.len()
    }

    /// The value bound to `k`, if any.
    pub fn get(&self, k: &[u8]) -> (r: Option<&Vec<u8>>)
        ensures
            match r {
                Some(v) => self@.dom().contains(k@) && v@ == self@[k@],
                None => !self@.dom().contains(k@),
            },
    {
        proof {
            use_type_invariant(self);
        }
        let mut i: usize = 0;
        while i < self.entries.len()
            invariant
                unique_keys(self.entries@),
                0 <= i <= self.entries@.len(),
                forall|m: int| 0 <= m < i ==> self.entries@[m].0@ != k@,
            decreases self.entries@.len() - i,
        {
            if bytes_eq(self.entries[i].0.as_slice(), k) {
                proof {
                    lemma_map_of_entry(self.entries@, i as int);
                }
                return Some(&self.entries[i].1);
            }
            i = i + 1;
        }
        proof {
            lemma_map_of_contains(self.entries@, k@);
        }
        None
    }

    /// Whether `k` is bound.
    pub fn contains_key(&self, k: &[u8]) -> (r: bool)
        ensures
            r == self@.dom().contains(k@),
    {
        match self.get(k) {
            Some(_) => true,
            None => false,
        }
    }

    /// Bind `k` to `v`, replacing any earlier binding of `k`.
    pub fn insert(&mut self, k: Vec<u8>, v: Vec<u8>)
        ensures
            final(self)@ == old(self)@.insert(k@, v@),
    {
        proof {
            use_type_invariant(&*self);
        }
        let mut es: Vec<(Vec<u8>, Vec<u8>)> = Vec::new();
        core::mem::swap(&mut self.entries, &mut es);
        let ghost before = es@;
        let mut i: usize = 0;
        while i < es.len()
            invariant
                before == old(self).entries@,
                unique_keys(es@),
                before == es@,
                0 <= i <= es@.len(),
                forall|m: int| 0 <= m < i ==> es@[m].0@ != k@,
            decreases es@.len() - i,
        {
            if bytes_eq(es[i].0.as_slice(), k.as_slice()) {
                es.remove(i);
                es.insert(i, (k, v));
                proof {
                    assert(es@ =~= before.update(i as int, es@[i as int]));
                    assert(es@[i as int].0@ == k@);
                    assert(es@[i as int].1@ == v@);
                    lemma_map_of_update(before, i as int, es@[i as int]);
                    assert(unique_keys(es@));
                    assert(map_of(es@) == map_of(before).insert(k@, v@));
                }
                self.entries = es;
                return;
            }
            i = i + 1;
        }
        es.push((k, v));
        proof {
            assert(es@.drop_last() =~= before);
            assert(forall|m: int| 0 <= m < before.len() ==> before[m].0@ != k@);
            assert(unique_keys(es@));
        }
        self.entries = es;
    }
}

} // verus!
