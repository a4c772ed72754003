//! The font-lookup store: a cache from a font's canonical (PostScript)
//! name to its fingerprint database, or to a confirmed absence, so that a
//! missing on-disk database is not probed again. Reading and decoding the
//! database files is the caller's part; this cache records the outcomes.
//! Lookups never evict: an outcome, once cached, stands for the life of
//! the value.

use vstd::prelude::*;
use crate::db::ShapeDb;

verus! {

/// The cache, as an association list with pairwise-distinct names.
pub struct FontDb {
    cache: Vec<(String, Option<ShapeDb>)>,
}

impl FontDb {
    /// The cached bindings, in insertion order.
    pub closed spec fn cache_seq(&self) -> Seq<(String, Option<ShapeDb>)> {
        self.cache@
    }

    /// Names are distinct, and every cached database is well-formed.
    pub open spec fn wf(&self) -> bool {
        &&& forall|a: int, b: int|
            0 <= a < b < self.cache_seq().len() ==> (#[trigger] self.cache_seq()[a]).0@ != (
            #[trigger] self.cache_seq()[b]).0@
        &&& forall|i: int|
            0 <= i < self.cache_seq().len() && (#[trigger] self.cache_seq()[i]).1 is Some
                ==> self.cache_seq()[i].1->Some_0.wf()
    }

    /// An empty cache: nothing looked up yet.
    pub fn new() -> (r: FontDb)
        ensures
            r.wf(),
            r.cache_seq().len() == 0,
    {
        FontDb { cache: Vec::new() }
    }

    /// The cached outcome for a font name: a database, a confirmed
    /// absence, or nothing when the name was never resolved.
    pub fn lookup(&self, name: &String) -> (r: Option<&Option<ShapeDb>>)
        requires
            self.wf(),
        ensures
            match r {
                Some(v) => exists|i: int|
                    0 <= i < self.cache_seq().len() && (#[trigger] self.cache_seq()[i]).0@ == name@
                        && self.cache_seq()[i].1 == *v,
                None => forall|i: int|
                    0 <= i < self.cache_seq().len() ==> (#[trigger] self.cache_seq()[i]).0@
                        != name@,
            },
            match r {
                Some(v) => match v {
                    Some(db) => db.wf(),
                    None => true,
                },
                None => true,
            },
    {
        let n = self.cache.len();
        for i in 0..n
            invariant
                n == self.cache@.len(),
                self.wf(),
                forall|j: int| 0 <= j < i ==> (#[trigger] self.cache@[j]).0@ != name@,
        {
            if self.cache[i].0 == *name {
                proof {
                    assert(self.cache_seq()[i as int].0@ == name@);
                }
                return Some(&self.cache[i].1);
            }
        }
        None
    }

    /// Record the outcome of resolving a font name: a freshly loaded
    /// database, or a confirmed absence. A later outcome for the same name
    /// replaces the earlier one.
    pub fn insert(&mut self, name: String, db: Option<ShapeDb>)
        requires
            old(self).wf(),
            db matches Some(d) ==> d.wf(),
        ensures
            final(self).wf(),
            exists|i: int|
                0 <= i < final(self).cache_seq().len() && (#[trigger] final(self).cache_seq()[i]).0@
                    == name@ && final(self).cache_seq()[i].1 == db,
            forall|i: int|
                0 <= i < old(self).cache_seq().len() && (#[trigger] old(self).cache_seq()[i]).0@
                    != name@ ==> exists|j: int|
                    0 <= j < final(self).cache_seq().len() && final(self).cache_seq()[j]
                        == old(self).cache_seq()[i],
    {
        let n = self.cache.len();
        for i in 0..n
            invariant
                n == self.cache@.len(),
                self == old(self),
                self.wf(),
                db matches Some(d) ==> d.wf(),
                forall|j: int| 0 <= j < i ==> (#[trigger] self.cache@[j]).0@ != name@,
        {
            if self.cache[i].0 == *&name {
                let ghost c0 = self.cache@;
                let ghost newpair = (name, db);
                self.cache[i] = (name, db);
                proof {
                    assert(self.cache@[i as int] == newpair);
                    assert(self.cache@[i as int].1 == db);
                    assert(self.cache@ =~= c0.update(i as int, self.cache@[i as int]));
                    assert(self.cache_seq()[i as int].0@ == c0[i as int].0@);
                    assert forall|a: int, b: int|
                        0 <= a < b < self.cache@.len() implies (#[trigger] self.cache@[a]).0@ != (
                    #[trigger] self.cache@[b]).0@ by {
                        assert(c0[a].0@ != c0[b].0@);
                    }
                    assert forall|i2: int|
                        0 <= i2 < self.cache@.len() && (#[trigger] self.cache@[i2]).1 is Some
                        implies self.cache@[i2].1->Some_0.wf() by {
                        if i2 != i {
                            assert(self.cache@[i2] == c0[i2]);
                            assert(old(self).cache_seq()[i2].1 is Some
                                ==> old(self).cache_seq()[i2].1->Some_0.wf());
                        } else {
                            assert(self.cache@[i2].1 == db);
                        }
                    }
                    assert forall|i2: int|
                        0 <= i2 < old(self).cache_seq().len() && (
                    #[trigger] old(self).cache_seq()[i2]).0@ != c0[i as int].0@ implies exists|
                        j: int,
                    |
                        0 <= j < self.cache_seq().len() && self.cache_seq()[j]
                            == old(self).cache_seq()[i2] by {
                        assert(self.cache@[i2] == c0[i2]);
                    }
                }
                return;
            }
        }
        let ghost c0 = self.cache@;
        self.cache.push((name, db));
        proof {
            assert(self.cache@.last().1 == db);
            assert forall|a: int, b: int|
                0 <= a < b < self.cache@.len() implies (#[trigger] self.cache@[a]).0@ != (
            #[trigger] self.cache@[b]).0@ by {
                if b < c0.len() {
                    assert(c0[a].0@ != c0[b].0@);
                } else {
                    assert(self.cache@[b] == self.cache@.last());
                    assert(self.cache@[a] == c0[a]);
                }
            }
            assert(self.cache_seq()[self.cache@.len() - 1].0@ == name@);
            assert forall|i2: int|
                0 <= i2 < c0.len() && (#[trigger] c0[i2]).0@ != name@ implies exists|j: int|
                0 <= j < self.cache_seq().len() && self.cache_seq()[j] == c0[i2] by {
                assert(self.cache@[i2] == c0[i2]);
            }
        }
    }
}

} // verus!
