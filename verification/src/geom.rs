//! Outline geometry as the matcher sees it: contours of points already
//! quantized to the integer font-unit grid (truncation toward zero is the
//! caller's duty, as is reading coordinates out of whatever curve
//! representation the font parser produced).

use vstd::prelude::*;

verus! {

/// One closed contour of a glyph outline, as a sequence of quantized points.
pub struct Contour {
    pub points: Vec<(u16, u16)>,
}

impl View for Contour {
    type V = Seq<(u16, u16)>;

    open spec fn view(&self) -> Seq<(u16, u16)> {
        self.points@
    }
}

/// A glyph outline: an ordered sequence of contours.
pub struct Outline {
    pub contours: Vec<Contour>,
}

impl View for Outline {
    type V = Seq<Seq<(u16, u16)>>;

    open spec fn view(&self) -> Seq<Seq<(u16, u16)>> {
        self.contours@.map_values(|c: Contour| c@)
    }
}

/// The set of quantized points an outline touches, across all its contours.
pub open spec fn outline_points(o: Seq<Seq<(u16, u16)>>) -> Set<(u16, u16)>
    decreases o.len(),
{
    if o.len() == 0 {
        Set::empty()
    } else {
        outline_points(o.drop_last()).union(o.last().to_set())
    }
}

pub proof fn lemma_outline_points_finite(o: Seq<Seq<(u16, u16)>>)
    ensures
        outline_points(o).finite(),
    decreases o.len(),
{
    if o.len() == 0 {
    } else {
        lemma_outline_points_finite(o.drop_last());
        vstd::seq_lib::seq_to_set_is_finite(o.last());
    }
}

/// Growing the contour prefix by one contour grows the point set by that
/// contour's points.
pub proof fn lemma_outline_points_take_step(o: Seq<Seq<(u16, u16)>>, i: int)
    requires
        0 <= i < o.len(),
    ensures
        outline_points(o.take(i + 1)) == outline_points(o.take(i)).union(o[i].to_set()),
{
    let t = o.take(i + 1);
    assert(t.drop_last() =~= o.take(i));
    assert(t.last() == o[i]);
}

/// The outline point set only depends on each contour's point set, not on
/// point order or multiplicity within a contour.
pub proof fn lemma_outline_points_congruent(a: Seq<Seq<(u16, u16)>>, b: Seq<Seq<(u16, u16)>>)
    requires
        a.len() == b.len(),
        forall|i: int| 0 <= i < a.len() ==> a[i].to_set() == b[i].to_set(),
    ensures
        outline_points(a) == outline_points(b),
    decreases a.len(),
{
    if a.len() == 0 {
    } else {
        lemma_outline_points_congruent(a.drop_last(), b.drop_last());
    }
}

/// Whether a point list holds a given point.
pub fn contains_point(v: &Vec<(u16, u16)>, p: (u16, u16)) -> (r: bool)
    ensures
        r == v@.contains(p),
{
    let n = v.len();
    for i in 0..n
        invariant
            n == v@.len(),
            forall|j: int| 0 <= j < i ==> v@[j] != p,
    {
        if v[i].0 == p.0 && v[i].1 == p.1 {
            return true;
        }
    }
    false
}

/// The signature of a contour: its quantized points, each kept once, in
/// first-seen order. Duplicate points collapse; only the set matters for
/// comparison.
pub fn points_set(contour: &Contour) -> (r: Vec<(u16, u16)>)
    ensures
        r@.to_set() == contour@.to_set(),
        r@.no_duplicates(),
        contour@.no_duplicates() ==> r@ == contour@,
{
    let mut r: Vec<(u16, u16)> = Vec::new();
    let n = contour.points.len();
    for i in 0..n
        invariant
            n == contour.points.len(),
            r@.no_duplicates(),
            r@.to_set() == contour@.take(i as int).to_set(),
            contour@.no_duplicates() ==> r@ == contour@.take(i as int),
    {
        let p = contour.points[i];
        let ghost r0 = r@;
        let ghost s0 = contour@.take(i as int);
        proof {
            assert(contour@.take(i + 1) =~= s0.push(contour@[i as int]));
            s0.lemma_push_to_set_commute(contour@[i as int]);
        }
        if !contains_point(&r, p) {
            r.push(p);
            proof {
                r0.lemma_push_to_set_commute(p);
                assert forall|a: int, b: int|
                    0 <= a < r@.len() && 0 <= b < r@.len() && a != b implies r@[a] != r@[b] by {
                    if a < r0.len() && b < r0.len() {
                        assert(r0[a] == r@[a] && r0[b] == r@[b]);
                    } else if b == r0.len() {
                        assert(r@[b] == p && r@[a] == r0[a]);
                        assert(!r0.contains(p));
                    } else {
                        assert(r@[a] == p && r@[b] == r0[b]);
                        assert(!r0.contains(p));
                    }
                }
            }
            proof {
                if contour@.no_duplicates() {
                    assert(r@ =~= contour@.take(i + 1));
                }
            }
        } else {
            proof {
                assert(r0.to_set().contains(p));
                assert(s0.to_set().insert(p) =~= s0.to_set());
                if contour@.no_duplicates() {
                    let j = choose|j: int| 0 <= j < r0.len() && r0[j] == p;
                    assert(contour@.take(i as int)[j] == contour@[j]);
                    assert(contour@[j] == contour@[i as int]);
                    assert(false);
                }
            }
        }
    }
    proof {
        assert(contour@.take(n as int) =~= contour@);
    }
    r
}

/// Exact set-equality of two contour signatures: the correctness-bearing
/// comparison of the matcher.
pub fn sig_eq(a: &Vec<(u16, u16)>, b: &Vec<(u16, u16)>) -> (r: bool)
    ensures
        r == (a@.to_set() == b@.to_set()),
{
    let sub_ab = points_subset(a, b);
    let sub_ba = points_subset(b, a);
    proof {
        if sub_ab && sub_ba {
            assert(a@.to_set() =~= b@.to_set());
        }
        if a@.to_set() == b@.to_set() {
            assert forall|p: (u16, u16)| a@.contains(p) implies b@.contains(p) by {
                assert(a@.to_set().contains(p));
                assert(b@.to_set().contains(p));
            }
            assert forall|p: (u16, u16)| b@.contains(p) implies a@.contains(p) by {
                assert(b@.to_set().contains(p));
                assert(a@.to_set().contains(p));
            }
        }
    }
    sub_ab && sub_ba
}

/// Whether every point of `a` occurs in `b`.
pub fn points_subset(a: &Vec<(u16, u16)>, b: &Vec<(u16, u16)>) -> (r: bool)
    ensures
        r == forall|p: (u16, u16)| a@.contains(p) ==> b@.contains(p),
{
    let n = a.len();
    for i in 0..n
        invariant
            n == a@.len(),
            forall|j: int| 0 <= j < i ==> b@.contains(a@[j]),
    {
        if !contains_point(b, a[i]) {
            proof {
                assert(a@.contains(a@[i as int]));
            }
            return false;
        }
    }
    true
}

} // verus!
