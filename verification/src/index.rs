//! The inverted index of a shape database: from a quantized point to the
//! list of entry indices whose outline touched that point, in insertion
//! order. Held as an association vector with pairwise-distinct keys and
//! viewed as a map.

use vstd::prelude::*;

verus! {

/// Association vector from point to candidate entry indices.
#[derive(Clone)]
pub struct PointIndex {
    items: Vec<((u16, u16), Vec<usize>)>,
}

/// The keys of an association vector, in order.
pub open spec fn index_keys(s: Seq<((u16, u16), Vec<usize>)>) -> Seq<(u16, u16)> {
    s.map_values(|it: ((u16, u16), Vec<usize>)| it.0)
}

/// The map an association vector stands for (later bindings win; with
/// distinct keys there is only one binding per key).
pub open spec fn as_point_map(s: Seq<((u16, u16), Vec<usize>)>) -> Map<(u16, u16), Seq<usize>>
    decreases s.len(),
{
    if s.len() == 0 {
        Map::empty()
    } else {
        as_point_map(s.drop_last()).insert(s.last().0, s.last().1@)
    }
}

/// The list stored under a key, or the empty list where the key is absent.
pub open spec fn list_or_empty(m: Map<(u16, u16), Seq<usize>>, k: (u16, u16)) -> Seq<usize> {
    if m.contains_key(k) {
        m[k]
    } else {
        Seq::empty()
    }
}

pub proof fn lemma_point_map_props(s: Seq<((u16, u16), Vec<usize>)>)
    requires
        index_keys(s).no_duplicates(),
    ensures
        as_point_map(s).dom() =~= index_keys(s).to_set(),
        forall|i: int|
            0 <= i < s.len() ==> as_point_map(s).contains_key(#[trigger] s[i].0) && as_point_map(
                s,
            )[s[i].0] == s[i].1@,
    decreases s.len(),
{
    if s.len() == 0 {
    } else {
        let d = s.drop_last();
        assert(index_keys(d) =~= index_keys(s).drop_last());
        assert forall|a: int, b: int|
            0 <= a < index_keys(d).len() && 0 <= b < index_keys(d).len() && a != b implies
            index_keys(d)[a] != index_keys(d)[b] by {
            assert(index_keys(s)[a] != index_keys(s)[b]);
        }
        lemma_point_map_props(d);
        assert forall|i: int| 0 <= i < d.len() implies s.last().0 != #[trigger] d[i].0 by {
            assert(index_keys(s)[i] == d[i].0);
            assert(index_keys(s)[s.len() - 1] == s.last().0);
        }
        assert(index_keys(s) =~= index_keys(d).push(s.last().0));
        index_keys(d).lemma_push_to_set_commute(s.last().0);
        assert forall|i: int|
            0 <= i < s.len() implies as_point_map(s).contains_key(#[trigger] s[i].0)
            && as_point_map(s)[s[i].0] == s[i].1@ by {
            if i < s.len() - 1 {
                assert(d[i] == s[i]);
                assert(as_point_map(d)[d[i].0] == d[i].1@);
                assert(s[i].0 != s.last().0);
            }
        }
    }
}

/// Replacing the list under one key, all keys distinct, is a map insert.
pub proof fn lemma_point_map_update(s: Seq<((u16, u16), Vec<usize>)>, i: int, l2: Vec<usize>)
    requires
        index_keys(s).no_duplicates(),
        0 <= i < s.len(),
    ensures
        as_point_map(s.update(i, (s[i].0, l2))) =~= as_point_map(s).insert(s[i].0, l2@),
        index_keys(s.update(i, (s[i].0, l2))).no_duplicates(),
    decreases s.len(),
{
    let s2 = s.update(i, (s[i].0, l2));
    assert(index_keys(s2) =~= index_keys(s));
    if i == s.len() - 1 {
        assert(s2.drop_last() =~= s.drop_last());
        assert(as_point_map(s2) =~= as_point_map(s).insert(s[i].0, l2@));
    } else {
        let d = s.drop_last();
        assert(index_keys(d) =~= index_keys(s).drop_last());
        assert forall|a: int, b: int|
            0 <= a < index_keys(d).len() && 0 <= b < index_keys(d).len() && a != b implies
            index_keys(d)[a] != index_keys(d)[b] by {
            assert(index_keys(s)[a] != index_keys(s)[b]);
        }
        lemma_point_map_update(d, i, l2);
        assert(s2.drop_last() =~= d.update(i, (d[i].0, l2)));
        assert(s[i].0 != s.last().0) by {
            assert(index_keys(s)[i] == s[i].0);
            assert(index_keys(s)[s.len() - 1] == s.last().0);
        }
        assert(as_point_map(s2) =~= as_point_map(s).insert(s[i].0, l2@));
    }
}

impl View for PointIndex {
    type V = Map<(u16, u16), Seq<usize>>;

    closed spec fn view(&self) -> Map<(u16, u16), Seq<usize>> {
        as_point_map(self.items@)
    }
}

impl PointIndex {
    pub closed spec fn wf(&self) -> bool {
        index_keys(self.items@).no_duplicates()
    }

    pub fn new() -> (r: PointIndex)
        ensures
            r.wf(),
            r@ == Map::<(u16, u16), Seq<usize>>::empty(),
    {
        PointIndex { items: Vec::new() }
    }

    /// The candidate list stored under a point, if any.
    pub fn get_list(&self, k: (u16, u16)) -> (r: Option<&Vec<usize>>)
        requires
            self.wf(),
        ensures
            match r {
                Some(v) => self@.contains_key(k) && v@ == self@[k],
                None => !self@.contains_key(k),
            },
    {
        proof {
            lemma_point_map_props(self.items@);
        }
        let n = self.items.len();
        for i in 0..n
            invariant
                n == self.items@.len(),
                self.wf(),
                forall|j: int| 0 <= j < i ==> (#[trigger] self.items@[j]).0 != k,
        {
            if self.items[i].0.0 == k.0 && self.items[i].0.1 == k.1 {
                proof {
                    lemma_point_map_props(self.items@);
                }
                return Some(&self.items[i].1);
            }
        }
        proof {
            lemma_point_map_props(self.items@);
            if self@.contains_key(k) {
                assert(index_keys(self.items@).to_set().contains(k));
                let j = choose|j: int|
                    0 <= j < index_keys(self.items@).len() && index_keys(self.items@)[j] == k;
                assert(self.items@[j].0 == k);
            }
        }
        None
    }

    /// Append an entry index to the list under a point, creating the list
    /// where the point is new.
    pub fn push_idx(&mut self, k: (u16, u16), idx: usize)
        requires
            old(self).wf(),
        ensures
            final(self).wf(),
            final(self)@ == old(self)@.insert(k, list_or_empty(old(self)@, k).push(idx)),
    {
        proof {
            lemma_point_map_props(self.items@);
        }
        let n = self.items.len();
        for i in 0..n
            invariant
                n == self.items@.len(),
                self == old(self),
                self.wf(),
                forall|j: int| 0 <= j < i ==> (#[trigger] self.items@[j]).0 != k,
        {
            if self.items[i].0.0 == k.0 && self.items[i].0.1 == k.1 {
                proof {
                    lemma_point_map_props(self.items@);
                }
                let ghost s0 = self.items@;
                self.items[i].1.push(idx);
                proof {
                    assert(self.items@ =~= s0.update(i as int, (s0[i as int].0, self.items@[i as int].1)));
                    lemma_point_map_update(s0, i as int, self.items@[i as int].1);
                    assert(final(self)@ =~= old(self)@.insert(k, list_or_empty(old(self)@, k).push(idx)));
                }
                return;
            }
        }
        let ghost s0 = self.items@;
        let mut l: Vec<usize> = Vec::new();
        l.push(idx);
        self.items.push((k, l));
        proof {
            assert(self.items@.drop_last() =~= s0);
            assert(index_keys(self.items@) =~= index_keys(s0).push(k));
            lemma_point_map_props(s0);
            if index_keys(s0).contains(k) {
                let j = choose|j: int| 0 <= j < index_keys(s0).len() && index_keys(s0)[j] == k;
                assert(s0[j].0 == k);
            }
            assert(index_keys(self.items@).no_duplicates());
            assert(!old(self)@.contains_key(k)) by {
                if old(self)@.contains_key(k) {
                    assert(index_keys(s0).to_set().contains(k));
                }
            }
            assert(final(self)@ =~= old(self)@.insert(k, list_or_empty(old(self)@, k).push(idx)));
        }
    }
}

} // verus!
