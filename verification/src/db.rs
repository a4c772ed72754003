//! The outline-fingerprint database: per-label contour signatures, an
//! inverted index from quantized point to candidate entries, insertion and
//! best-match query.

use vstd::prelude::*;
use crate::geom::{Outline, outline_points, points_set, contains_point, sig_eq, lemma_outline_points_take_step, lemma_outline_points_congruent};
use crate::index::{PointIndex, list_or_empty};
use crate::geom::Contour;
use crate::extract::{char_from_u32, char_to_string};
use crate::codec::{DecodeError, enc_db_words, enc_entries, enc_entry, enc_chars, enc_points, enc_sigs, words_to_bytes, bytes_to_words, word_of_bytes, byte_of_word, point_word, point_of_word, char_of_word, valid_char_word, valid_point_word, p_chars, p_points, p_sigs, p_entry, p_entries, p_db, decode_spec, db_bounded, lemma_div8};

verus! {

/// One stored entry: an opaque label and the signatures of the outline's
/// contours, in the emitting outline's contour order.
#[derive(Clone)]
pub struct Entry {
    pub label: String,
    pub sigs: Vec<Vec<(u16, u16)>>,
}

pub struct EntryV {
    pub label: Seq<char>,
    pub sigs: Seq<Seq<(u16, u16)>>,
}

impl View for Entry {
    type V = EntryV;

    open spec fn view(&self) -> EntryV {
        EntryV { label: self.label@, sigs: self.sigs@.map_values(|s: Vec<(u16, u16)>| s@) }
    }
}

/// The quantized points an entry's outline touched.
pub open spec fn entry_points(e: EntryV) -> Set<(u16, u16)> {
    outline_points(e.sigs)
}

pub struct DbView {
    pub entries: Seq<EntryV>,
    pub points: Map<(u16, u16), Seq<usize>>,
}

pub open spec fn strictly_increasing(l: Seq<usize>) -> bool {
    forall|a: int, b: int| 0 <= a < b < l.len() ==> l[a] < l[b]
}

/// Soundness of the inverted index: every indexed point belongs to each
/// listed entry, lists are non-empty and in (strictly increasing) insertion
/// order; completeness: every point of every entry is indexed under that
/// entry.
/// Every stored signature is duplicate-free, as insertion builds them.
pub open spec fn sigs_dedup(es: Seq<EntryV>) -> bool {
    forall|e: int, i: int|
        0 <= e < es.len() && 0 <= i < es[e].sigs.len() ==> (#[trigger] es[e].sigs[i]).no_duplicates()
}

pub open spec fn db_wf(db: DbView) -> bool {
    &&& sigs_dedup(db.entries)
    &&& forall|k: (u16, u16)| db.points.contains_key(k) ==> (#[trigger] db.points[k]).len() > 0
    &&& forall|k: (u16, u16)|
        db.points.contains_key(k) ==> strictly_increasing(#[trigger] db.points[k])
    &&& forall|k: (u16, u16), i: int|
        db.points.contains_key(k) && 0 <= i < db.points[k].len() ==> (#[trigger] db.points[k][i])
            < db.entries.len() && entry_points(db.entries[db.points[k][i] as int]).contains(k)
    &&& forall|e: int, k: (u16, u16)|
        0 <= e < db.entries.len() && #[trigger] entry_points(db.entries[e]).contains(k)
            ==> db.points.contains_key(k) && db.points[k].contains(e as usize)
}

/// The fingerprint database.
#[derive(Clone)]
pub struct ShapeDb {
    entries: Vec<Entry>,
    points: PointIndex,
}

impl View for ShapeDb {
    type V = DbView;

    closed spec fn view(&self) -> DbView {
        DbView {
            entries: self.entries@.map_values(|e: Entry| e@),
            points: self.points@,
        }
    }
}

pub proof fn lemma_push_contains<T>(l: Seq<T>, x: T, y: T)
    ensures
        l.push(x).contains(y) <==> (l.contains(y) || y == x),
{
    if l.push(x).contains(y) {
        let j = choose|j: int| 0 <= j < l.push(x).len() && l.push(x)[j] == y;
        if j < l.len() {
            assert(l[j] == y);
        }
    }
    if l.contains(y) {
        let j = choose|j: int| 0 <= j < l.len() && l[j] == y;
        assert(l.push(x)[j] == y);
    }
    assert(l.push(x)[l.len() as int] == x);
}

impl ShapeDb {
    pub closed spec fn wf(&self) -> bool {
        self.points.wf() && db_wf(self@)
    }

    /// A well-formed database has a well-formed view.
    pub proof fn lemma_wf_db_wf(&self)
        requires
            self.wf(),
        ensures
            db_wf(self@),
    {
    }

    /// An empty database: no entries, nothing indexed.
    pub fn new() -> (r: ShapeDb)
        ensures
            r.wf(),
            r@.entries == Seq::<EntryV>::empty(),
            r@.points == Map::<(u16, u16), Seq<usize>>::empty(),
    {
        let r = ShapeDb { entries: Vec::new(), points: PointIndex::new() };
        proof {
            assert(r@.entries =~= Seq::<EntryV>::empty());
        }
        r
    }

    /// The number of stored entries.
    pub fn len(&self) -> (n: usize)
        ensures
            n == self@.entries.len(),
    {
        self.entries.len()
    }

    /// Insert an outline under a label: append one entry holding the
    /// label and the per-contour signatures, and index this entry under
    /// every quantized point the outline touches (each point once, however
    /// often the outline repeats it).
    pub fn add_outline(&mut self, outline: &Outline, value: String)
        requires
            old(self).wf(),
        ensures
            final(self).wf(),
            final(self)@.entries.len() == old(self)@.entries.len() + 1,
            final(self)@.entries =~= old(self)@.entries.push(final(self)@.entries.last()),
            final(self)@.entries.last().label == value@,
            final(self)@.entries.last().sigs.len() == outline@.len(),
            forall|i: int|
                0 <= i < outline@.len() ==> (#[trigger] final(self)@.entries.last().sigs[i]).to_set()
                    == outline@[i].to_set() && final(self)@.entries.last().sigs[i].no_duplicates(),
            forall|i: int|
                0 <= i < outline@.len() && outline@[i].no_duplicates() ==> (
                #[trigger] final(self)@.entries.last().sigs[i]) == outline@[i],
            points_extended(
                old(self)@.points,
                final(self)@.points,
                outline_points(outline@),
                old(self)@.entries.len() as usize,
            ),
    {
        let n = self.entries.len();
        let ghost m0 = self.points@;
        let ghost ov = outline@;
        let mut seen: Vec<(u16, u16)> = Vec::new();
        let nc = outline.contours.len();
        proof {
            assert(ov.len() == nc);
        }
        for ci in 0..nc
            invariant
                nc == outline.contours@.len(),
                ov == outline@,
                n == self.entries@.len(),
                self.entries == old(self).entries,
                self.points.wf(),
                seen@.no_duplicates(),
                seen@.to_set() == outline_points(ov.take(ci as int)),
                points_extended(m0, self.points@, seen@.to_set(), n),
        {
            let np = outline.contours[ci].points.len();
            proof {
                assert(ov[ci as int] == outline.contours@[ci as int]@);
                assert(seen@.to_set() =~= outline_points(ov.take(ci as int)).union(
                    ov[ci as int].take(0).to_set(),
                ));
            }
            for pi in 0..np
                invariant
                    nc == outline.contours@.len(),
                    ov == outline@,
                    ci < nc,
                    np == ov[ci as int].len(),
                    n == self.entries@.len(),
                    self.entries == old(self).entries,
                    self.points.wf(),
                    seen@.no_duplicates(),
                    seen@.to_set() == outline_points(ov.take(ci as int)).union(
                        ov[ci as int].take(pi as int).to_set(),
                    ),
                    points_extended(m0, self.points@, seen@.to_set(), n),
            {
                let p = outline.contours[ci].points[pi];
                let ghost seen0 = seen@;
                proof {
                    assert(ov[ci as int] == outline.contours@[ci as int]@);
                    assert(ov[ci as int][pi as int] == p);
                    assert(ov[ci as int].take(pi + 1) =~= ov[ci as int].take(pi as int).push(p));
                    ov[ci as int].take(pi as int).lemma_push_to_set_commute(p);
                }
                if !contains_point(&seen, p) {
                    seen.push(p);
                    let ghost pm0 = self.points@;
                    self.points.push_idx(p, n);
                    proof {
                        seen0.lemma_push_to_set_commute(p);
                        assert forall|a: int, b: int|
                            0 <= a < seen@.len() && 0 <= b < seen@.len() && a != b implies seen@[a]
                            != seen@[b] by {
                            if a < seen0.len() && b < seen0.len() {
                                assert(seen0[a] == seen@[a] && seen0[b] == seen@[b]);
                            } else if b == seen0.len() {
                                assert(seen@[b] == p && seen@[a] == seen0[a]);
                                assert(!seen0.contains(p));
                            } else {
                                assert(seen@[a] == p && seen@[b] == seen0[b]);
                                assert(!seen0.contains(p));
                            }
                        }
                        assert(!seen0.to_set().contains(p));
                        lemma_points_extended_step(m0, pm0, self.points@, seen0.to_set(), p, n);
                        assert(seen@.to_set() == seen0.to_set().insert(p));
                    }
                } else {
                    proof {
                        assert(seen0.to_set().contains(p));
                        assert(seen0.to_set().insert(p) =~= seen0.to_set());
                    }
                }
                proof {
                    assert(seen@.to_set() =~= outline_points(ov.take(ci as int)).union(
                        ov[ci as int].take(pi + 1).to_set(),
                    ));
                }
            }
            proof {
                assert(ov[ci as int].take(np as int) =~= ov[ci as int]);
                lemma_outline_points_take_step(ov, ci as int);
                assert(seen@.to_set() =~= outline_points(ov.take(ci + 1)));
            }
        }
        proof {
            assert(ov.take(nc as int) =~= ov);
        }
        // Build the per-contour signatures, in contour order.
        let mut sigs: Vec<Vec<(u16, u16)>> = Vec::new();
        for ci in 0..nc
            invariant
                nc == outline.contours@.len(),
                ov == outline@,
                sigs@.len() == ci,
                forall|i: int|
                    0 <= i < ci ==> (#[trigger] sigs@[i])@.to_set() == ov[i].to_set()
                        && sigs@[i]@.no_duplicates(),
                forall|i: int|
                    0 <= i < ci && ov[i].no_duplicates() ==> (#[trigger] sigs@[i])@ == ov[i],
        {
            let s = points_set(&outline.contours[ci]);
            proof {
                assert(ov[ci as int] == outline.contours@[ci as int]@);
            }
            sigs.push(s);
        }
        let ghost e0 = self.entries@;
        self.entries.push(Entry { label: value, sigs });
        proof {
            let newe = self.entries@.last()@;
            assert(self@.entries =~= e0.map_values(|e: Entry| e@).push(newe));
            assert(newe.sigs =~= sigs@.map_values(|s: Vec<(u16, u16)>| s@));
            assert forall|i: int| 0 <= i < ov.len() implies (#[trigger] newe.sigs[i]).to_set()
                == ov[i].to_set() && newe.sigs[i].no_duplicates() by {
                assert(newe.sigs[i] == sigs@[i]@);
            }
            assert forall|i: int| 0 <= i < ov.len() && ov[i].no_duplicates() implies (
            #[trigger] newe.sigs[i]) == ov[i] by {
                assert(newe.sigs[i] == sigs@[i]@);
            }
            lemma_outline_points_congruent(newe.sigs, ov);
            assert(entry_points(newe) == outline_points(ov));
            lemma_db_wf_after_add(old(self)@, self@, ov, n);
        }
    }
}

/// How insertion extends the inverted index: every point of the inserted
/// outline gets the new entry's index appended to its (possibly fresh)
/// list; every other point is untouched.
pub open spec fn points_extended(
    m0: Map<(u16, u16), Seq<usize>>,
    m1: Map<(u16, u16), Seq<usize>>,
    pts: Set<(u16, u16)>,
    n: usize,
) -> bool {
    &&& forall|k: (u16, u16)|
        #[trigger] pts.contains(k) ==> m1.contains_key(k) && m1[k] == list_or_empty(m0, k).push(n)
    &&& forall|k: (u16, u16)|
        !(#[trigger] pts.contains(k)) ==> (m1.contains_key(k) <==> m0.contains_key(k)) && (
        m0.contains_key(k) ==> m1[k] == m0[k])
}

proof fn lemma_points_extended_step(
    m0: Map<(u16, u16), Seq<usize>>,
    pm0: Map<(u16, u16), Seq<usize>>,
    pm1: Map<(u16, u16), Seq<usize>>,
    s: Set<(u16, u16)>,
    p: (u16, u16),
    n: usize,
)
    requires
        points_extended(m0, pm0, s, n),
        !s.contains(p),
        pm1 == pm0.insert(p, list_or_empty(pm0, p).push(n)),
    ensures
        points_extended(m0, pm1, s.insert(p), n),
{
    assert(list_or_empty(pm0, p) == list_or_empty(m0, p));
    assert forall|k: (u16, u16)| #[trigger] s.insert(p).contains(k) implies pm1.contains_key(k)
        && pm1[k] == list_or_empty(m0, k).push(n) by {
        if k == p {
        } else {
            assert(s.contains(k));
        }
    }
    assert forall|k: (u16, u16)| !(#[trigger] s.insert(p).contains(k)) implies (
    pm1.contains_key(k) <==> m0.contains_key(k)) && (m0.contains_key(k) ==> pm1[k] == m0[k]) by {
        assert(k != p);
        assert(!s.contains(k));
    }
}

/// Re-establishing well-formedness after an insertion.
proof fn lemma_db_wf_after_add(dv0: DbView, dv1: DbView, ov: Seq<Seq<(u16, u16)>>, n: usize)
    requires
        db_wf(dv0),
        n as int == dv0.entries.len(),
        dv1.entries.len() == n as int + 1,
        forall|i: int| 0 <= i < n as int ==> dv1.entries[i] == dv0.entries[i],
        entry_points(dv1.entries[n as int]) == outline_points(ov),
        forall|i: int|
            0 <= i < dv1.entries[n as int].sigs.len() ==> (
            #[trigger] dv1.entries[n as int].sigs[i]).no_duplicates(),
        points_extended(dv0.points, dv1.points, outline_points(ov), n),
    ensures
        db_wf(dv1),
{
    let pts = outline_points(ov);
    assert forall|e: int, i: int|
        0 <= e < dv1.entries.len() && 0 <= i < dv1.entries[e].sigs.len() implies (
    #[trigger] dv1.entries[e].sigs[i]).no_duplicates() by {
        if e < n as int {
            assert(dv1.entries[e] == dv0.entries[e]);
            assert(dv0.entries[e].sigs[i].no_duplicates());
        }
    }
    assert forall|k: (u16, u16)| dv1.points.contains_key(k) implies (#[trigger] dv1.points[k]).len()
        > 0 && strictly_increasing(dv1.points[k]) by {
        if pts.contains(k) {
            let l0 = list_or_empty(dv0.points, k);
            assert(dv1.points[k] == l0.push(n));
            assert forall|a: int, b: int|
                0 <= a < b < dv1.points[k].len() implies dv1.points[k][a] < dv1.points[k][b] by {
                assert(l0.len() > 0);
                assert(dv0.points.contains_key(k));
                assert(strictly_increasing(dv0.points[k]));
                assert(l0 == dv0.points[k]);
                if b < l0.len() {
                    assert(dv1.points[k][a] == l0[a] && dv1.points[k][b] == l0[b]);
                } else {
                    assert(dv1.points[k][b] == n);
                    assert(dv0.points[k][a] < dv0.entries.len());
                    assert(dv1.points[k][a] == l0[a]);
                }
            }
        } else {
            assert(dv0.points.contains_key(k));
            assert(dv1.points[k] == dv0.points[k]);
            assert(strictly_increasing(dv0.points[k]));
        }
    }
    assert forall|k: (u16, u16), i: int|
        dv1.points.contains_key(k) && 0 <= i < dv1.points[k].len() implies (#[trigger] dv1.points[k][i])
        < dv1.entries.len() && entry_points(dv1.entries[dv1.points[k][i] as int]).contains(k) by {
        if pts.contains(k) {
            let l0 = list_or_empty(dv0.points, k);
            assert(dv1.points[k] == l0.push(n));
            if i < l0.len() {
                assert(l0.len() > 0);
                assert(dv0.points.contains_key(k));
                assert(l0 == dv0.points[k]);
                assert(dv1.points[k][i] == l0[i]);
                assert(dv0.points[k][i] < dv0.entries.len());
                assert(entry_points(dv0.entries[dv0.points[k][i] as int]).contains(k));
                assert(dv1.entries[dv0.points[k][i] as int] == dv0.entries[dv0.points[k][i] as int]);
            } else {
                assert(dv1.points[k][i] == n);
            }
        } else {
            assert(dv0.points.contains_key(k));
            assert(dv1.points[k] == dv0.points[k]);
            assert(dv0.points[k][i] < dv0.entries.len());
            assert(entry_points(dv0.entries[dv0.points[k][i] as int]).contains(k));
            assert(dv1.entries[dv0.points[k][i] as int] == dv0.entries[dv0.points[k][i] as int]);
        }
    }
    assert forall|e: int, k: (u16, u16)|
        0 <= e < dv1.entries.len() && #[trigger] entry_points(dv1.entries[e]).contains(k) implies
        dv1.points.contains_key(k) && dv1.points[k].contains(e as usize) by {
        if e < n as int {
            assert(dv1.entries[e] == dv0.entries[e]);
            assert(entry_points(dv0.entries[e]).contains(k));
            assert(dv0.points.contains_key(k));
            assert(dv0.points[k].contains(e as usize));
            if pts.contains(k) {
                assert(dv1.points[k] == list_or_empty(dv0.points, k).push(n));
                lemma_push_contains(list_or_empty(dv0.points, k), n, e as usize);
            } else {
                assert(dv1.points[k] == dv0.points[k]);
            }
        } else {
            assert(pts.contains(k));
            assert(dv1.points[k] == list_or_empty(dv0.points, k).push(n));
            lemma_push_contains(list_or_empty(dv0.points, k), n, e as usize);
            assert(list_or_empty(dv0.points, k).push(n).last() == n as usize);
        }
    }
}

// ---------------------------------------------------------------------------
// Query semantics
// ---------------------------------------------------------------------------

/// How many of the query's points an entry's outline shares.
pub open spec fn hit_count(db: DbView, q: Set<(u16, u16)>, e: int) -> nat {
    q.intersect(entry_points(db.entries[e])).len()
}

/// A candidate: an entry sharing at least one quantized point with the query.
pub open spec fn is_candidate(db: DbView, q: Set<(u16, u16)>, e: int) -> bool {
    0 <= e < db.entries.len() && hit_count(db, q, e) > 0
}

/// Candidate order: more shared points first; among equal counts, the
/// earlier-inserted entry first. A strict total order on distinct entries.
pub open spec fn prio_before(db: DbView, q: Set<(u16, u16)>, a: int, b: int) -> bool {
    hit_count(db, q, a) > hit_count(db, q, b) || (hit_count(db, q, a) == hit_count(db, q, b) && a
        < b)
}

/// One greedy step: the query contour with point set `qset` claims the first
/// unused stored signature that is set-equal to it, scanning from `j`.
pub open spec fn claim_from(
    rsigs: Seq<Seq<(u16, u16)>>,
    used: Seq<bool>,
    qset: Set<(u16, u16)>,
    j: int,
) -> Seq<bool>
    decreases rsigs.len() - j,
{
    if j < 0 || j >= rsigs.len() {
        used
    } else if !used[j] && rsigs[j].to_set() == qset {
        used.update(j, true)
    } else {
        claim_from(rsigs, used, qset, j + 1)
    }
}

/// The used-mask after the first `t` query contours have greedily claimed
/// stored signatures, in order.
pub open spec fn greedy_partial(
    rsigs: Seq<Seq<(u16, u16)>>,
    qsigs: Seq<Seq<(u16, u16)>>,
    t: int,
) -> Seq<bool>
    decreases t,
{
    if t <= 0 {
        Seq::new(rsigs.len(), |i: int| false)
    } else {
        claim_from(rsigs, greedy_partial(rsigs, qsigs, t - 1), qsigs[t - 1].to_set(), 0)
    }
}

pub open spec fn all_used(used: Seq<bool>) -> bool {
    forall|i: int| 0 <= i < used.len() ==> used[i]
}

/// Whether an entry fully matches a query outline: same contour count, and
/// the greedy one-pass assignment claims every stored contour. The greedy
/// pass is deliberately not an optimal bipartite matching; stored-contour
/// order matters, and that order sensitivity is part of the behaviour.
pub open spec fn entry_matches(e: EntryV, q: Seq<Seq<(u16, u16)>>) -> bool {
    e.sigs.len() == q.len() && all_used(greedy_partial(e.sigs, q, q.len() as int))
}

/// A full match: a candidate whose entry matches the query outline.
pub open spec fn query_matched(db: DbView, o: Seq<Seq<(u16, u16)>>, e: int) -> bool {
    is_candidate(db, outline_points(o), e) && entry_matches(db.entries[e], o)
}

/// What a query returns: the label of the first full match in candidate
/// order, or nothing when no candidate fully matches. Entries sharing no
/// point with the query are never considered, however well they might match.
pub open spec fn query_post(db: DbView, o: Seq<Seq<(u16, u16)>>, r: Option<Seq<char>>) -> bool {
    match r {
        Some(lbl) => exists|e: int|
            #[trigger] query_matched(db, o, e) && db.entries[e].label == lbl && (forall|e2: int|
                query_matched(db, o, e2) && e2 != e ==> prio_before(db, outline_points(o), e, e2)),
        None => forall|e: int| !query_matched(db, o, e),
    }
}

/// Growing the query point set by one fresh point raises an entry's hit
/// count by one exactly when the entry holds that point.
proof fn lemma_insert_intersect_len(s: Set<(u16, u16)>, t: Set<(u16, u16)>, p: (u16, u16))
    requires
        s.finite(),
        !s.contains(p),
    ensures
        s.insert(p).intersect(t).len() == s.intersect(t).len() + (if t.contains(p) {
            1int
        } else {
            0
        }),
{
    broadcast use vstd::set::group_set_axioms;

    vstd::set_lib::lemma_len_subset(s.intersect(t), s);
    if t.contains(p) {
        assert(s.insert(p).intersect(t) =~= s.intersect(t).insert(p));
        assert(!s.intersect(t).contains(p));
    } else {
        assert(s.insert(p).intersect(t) =~= s.intersect(t));
    }
}

/// The deduplicated quantized point set of an outline, across contours.
pub fn outline_point_vec(outline: &Outline) -> (r: Vec<(u16, u16)>)
    ensures
        r@.to_set() == outline_points(outline@),
        r@.no_duplicates(),
{
    let ghost ov = outline@;
    let mut seen: Vec<(u16, u16)> = Vec::new();
    let nc = outline.contours.len();
    for ci in 0..nc
        invariant
            nc == outline.contours@.len(),
            ov == outline@,
            seen@.no_duplicates(),
            seen@.to_set() == outline_points(ov.take(ci as int)),
    {
        let np = outline.contours[ci].points.len();
        proof {
            assert(ov[ci as int] == outline.contours@[ci as int]@);
            assert(seen@.to_set() =~= outline_points(ov.take(ci as int)).union(
                ov[ci as int].take(0).to_set(),
            ));
        }
        for pi in 0..np
            invariant
                nc == outline.contours@.len(),
                ov == outline@,
                ci < nc,
                np == ov[ci as int].len(),
                seen@.no_duplicates(),
                seen@.to_set() == outline_points(ov.take(ci as int)).union(
                    ov[ci as int].take(pi as int).to_set(),
                ),
        {
            let p = outline.contours[ci].points[pi];
            let ghost seen0 = seen@;
            proof {
                assert(ov[ci as int] == outline.contours@[ci as int]@);
                assert(ov[ci as int][pi as int] == p);
                assert(ov[ci as int].take(pi + 1) =~= ov[ci as int].take(pi as int).push(p));
                ov[ci as int].take(pi as int).lemma_push_to_set_commute(p);
            }
            if !contains_point(&seen, p) {
                seen.push(p);
                proof {
                    seen0.lemma_push_to_set_commute(p);
                    assert forall|a: int, b: int|
                        0 <= a < seen@.len() && 0 <= b < seen@.len() && a != b implies seen@[a]
                        != seen@[b] by {
                        if a < seen0.len() && b < seen0.len() {
                            assert(seen0[a] == seen@[a] && seen0[b] == seen@[b]);
                        } else if b == seen0.len() {
                            assert(seen@[b] == p && seen@[a] == seen0[a]);
                            assert(!seen0.contains(p));
                        } else {
                            assert(seen@[a] == p && seen@[b] == seen0[b]);
                            assert(!seen0.contains(p));
                        }
                    }
                }
            } else {
                proof {
                    assert(seen0.to_set().contains(p));
                    assert(seen0.to_set().insert(p) =~= seen0.to_set());
                }
            }
            proof {
                assert(seen@.to_set() =~= outline_points(ov.take(ci as int)).union(
                    ov[ci as int].take(pi + 1).to_set(),
                ));
            }
        }
        proof {
            assert(ov[ci as int].take(np as int) =~= ov[ci as int]);
            lemma_outline_points_take_step(ov, ci as int);
            assert(seen@.to_set() =~= outline_points(ov.take(ci + 1)));
        }
    }
    proof {
        assert(ov.take(nc as int) =~= ov);
    }
    seen
}

/// What the candidate-counting pass yields: the candidates in entry order,
/// each with its exact hit count, nothing else.
pub open spec fn counts_ok(db: DbView, s: Set<(u16, u16)>, c: Seq<(usize, usize)>) -> bool {
    &&& forall|a: int, b: int| 0 <= a < b < c.len() ==> (#[trigger] c[a]).0 < (#[trigger] c[b]).0
    &&& forall|i: int|
        0 <= i < c.len() ==> (#[trigger] c[i]).0 < db.entries.len() && c[i].1 == hit_count(
            db,
            s,
            c[i].0 as int,
        ) && c[i].1 > 0
    &&& forall|e: int|
        #[trigger] is_candidate(db, s, e) ==> exists|i: int|
            0 <= i < c.len() && (#[trigger] c[i]).0 == e
}

impl ShapeDb {
    /// Count, for every entry, how many of the query's points the inverted
    /// index lists it under.
    fn count_hits(&self, qvec: &Vec<(u16, u16)>) -> (c: Vec<(usize, usize)>)
        requires
            self.wf(),
            qvec@.no_duplicates(),
        ensures
            counts_ok(self@, qvec@.to_set(), c@),
    {
        broadcast use vstd::set::group_set_axioms;

        let ghost db = self@;
        let n = self.entries.len();
        let nq = qvec.len();
        let mut counter: Vec<usize> = Vec::new();
        for z in 0..n
            invariant
                counter@.len() == z,
                forall|e: int| 0 <= e < z ==> counter@[e] == 0,
        {
            counter.push(0);
        }
        proof {
            assert forall|e: int| 0 <= e < n implies counter@[e] == hit_count(
                db,
                qvec@.take(0).to_set(),
                e,
            ) by {
                assert(qvec@.take(0).to_set() =~= Set::<(u16, u16)>::empty());
                assert(qvec@.take(0).to_set().intersect(entry_points(db.entries[e])) =~= Set::<(
                    u16,
                    u16,
                )>::empty());
            }
        }
        for ti in 0..nq
            invariant
                self.wf(),
                db == self@,
                n == self.entries@.len(),
                nq == qvec@.len(),
                qvec@.no_duplicates(),
                counter@.len() == n,
                forall|e: int|
                    0 <= e < n ==> counter@[e] == hit_count(db, qvec@.take(ti as int).to_set(), e),
        {
            let k = qvec[ti];
            let ghost s0 = qvec@.take(ti as int).to_set();
            proof {
                assert(!s0.contains(k)) by {
                    if s0.contains(k) {
                        let j = choose|j: int|
                            0 <= j < ti && qvec@.take(ti as int)[j] == k;
                        assert(qvec@[j] == qvec@[ti as int]);
                    }
                }
                assert forall|j: int| 0 <= j < ti implies (#[trigger] qvec@.take(ti as int)[j])
                    == qvec@[j] by {}
                assert(qvec@.take(ti as int).no_duplicates());
                qvec@.take(ti as int).unique_seq_to_set();
                vstd::seq_lib::seq_to_set_is_finite(qvec@.take(ti as int));
                assert(qvec@.take(ti + 1) =~= qvec@.take(ti as int).push(k));
                qvec@.take(ti as int).lemma_push_to_set_commute(k);
            }
            match self.points.get_list(k) {
                Some(list) => {
                    let nl = list.len();
                    proof {
                        assert(db.points.contains_key(k) && list@ == db.points[k]);
                    }
                    for li in 0..nl
                        invariant
                            self.wf(),
                            db == self@,
                            n == self.entries@.len(),
                            nq == qvec@.len(),
                            ti < nq,
                            s0 == qvec@.take(ti as int).to_set(),
                            s0.finite(),
                            !s0.contains(k),
                            s0.len() <= ti,
                            nl == list@.len(),
                            db.points.contains_key(k),
                            list@ == db.points[k],
                            counter@.len() == n,
                            forall|e: int|
                                0 <= e < n ==> counter@[e] == hit_count(db, s0, e) + (
                                if list@.take(li as int).contains(e as usize) {
                                    1int
                                } else {
                                    0
                                }),
                    {
                        let idx = list[li];
                        proof {
                            assert(db.points[k][li as int] == idx);
                            assert(idx < db.entries.len());
                            assert(!list@.take(li as int).contains(idx)) by {
                                if list@.take(li as int).contains(idx) {
                                    let j = choose|j: int|
                                        0 <= j < li && list@.take(li as int)[j] == idx;
                                    assert(strictly_increasing(db.points[k]));
                                    assert(db.points[k][j] < db.points[k][li as int]);
                                }
                            }
                            vstd::set_lib::lemma_len_intersect(
                                s0,
                                entry_points(db.entries[idx as int]),
                            );
                            assert(counter@[idx as int] < usize::MAX);
                        }
                        let cur = counter[idx];
                        counter[idx] = cur + 1;
                        proof {
                            let ghost lpre = list@.take(li as int);
                            assert(list@.take(li + 1) =~= lpre.push(idx));
                            assert forall|e: int|
                                0 <= e < n implies counter@[e] == hit_count(db, s0, e) + (
                            if list@.take(li + 1).contains(e as usize) {
                                1int
                            } else {
                                0
                            }) by {
                                lemma_push_contains(lpre, idx, e as usize);
                                if e == idx as int {
                                } else {
                                }
                            }
                        }
                    }
                    proof {
                        assert(list@.take(nl as int) =~= list@);
                        assert forall|e: int| 0 <= e < n implies counter@[e] == hit_count(
                            db,
                            qvec@.take(ti + 1).to_set(),
                            e,
                        ) by {
                            let pe = entry_points(db.entries[e]);
                            lemma_insert_intersect_len(s0, pe, k);
                            if pe.contains(k) {
                                assert(db.points[k].contains(e as usize));
                                assert(list@.contains(e as usize));
                            } else {
                                if list@.contains(e as usize) {
                                    let j = choose|j: int|
                                        0 <= j < list@.len() && list@[j] == e as usize;
                                    assert(db.points[k][j] == e as usize);
                                    assert(entry_points(
                                        db.entries[db.points[k][j] as int],
                                    ).contains(k));
                                }
                            }
                        }
                    }
                },
                None => {
                    proof {
                        assert forall|e: int| 0 <= e < n implies counter@[e] == hit_count(
                            db,
                            qvec@.take(ti + 1).to_set(),
                            e,
                        ) by {
                            let pe = entry_points(db.entries[e]);
                            lemma_insert_intersect_len(s0, pe, k);
                            if pe.contains(k) {
                                assert(db.points.contains_key(k));
                            }
                        }
                    }
                },
            }
        }
        proof {
            assert(qvec@.take(nq as int) =~= qvec@);
        }
        // Keep only the entries that were hit at all: the candidate pool.
        let mut c: Vec<(usize, usize)> = Vec::new();
        for e in 0..n
            invariant
                n == self.entries@.len(),
                db == self@,
                counter@.len() == n,
                forall|e2: int| 0 <= e2 < n ==> counter@[e2] == hit_count(db, qvec@.to_set(), e2),
                forall|a: int, b: int|
                    0 <= a < b < c@.len() ==> (#[trigger] c@[a]).0 < (#[trigger] c@[b]).0,
                forall|i: int|
                    0 <= i < c@.len() ==> (#[trigger] c@[i]).0 < e && c@[i].1 == hit_count(
                        db,
                        qvec@.to_set(),
                        c@[i].0 as int,
                    ) && c@[i].1 > 0,
                forall|e2: int|
                    0 <= e2 < e && hit_count(db, qvec@.to_set(), e2) > 0 ==> exists|i: int|
                        0 <= i < c@.len() && (#[trigger] c@[i]).0 == e2,
        {
            let ghost c0 = c@;
            if counter[e] > 0 {
                c.push((e, counter[e]));
                proof {
                    assert(c@[c@.len() - 1].0 == e);
                    assert forall|e2: int|
                        0 <= e2 < e + 1 && hit_count(db, qvec@.to_set(), e2) > 0 implies exists|
                        i: int,
                    |
                        0 <= i < c@.len() && (#[trigger] c@[i]).0 == e2 by {
                        if e2 < e {
                            let i = choose|i: int| 0 <= i < c0.len() && (#[trigger] c0[i]).0 == e2;
                            assert(c@[i].0 == e2);
                        } else {
                            assert(c@[c@.len() - 1].0 == e2);
                        }
                    }
                }
            } else {
                proof {
                    assert forall|e2: int|
                        0 <= e2 < e + 1 && hit_count(db, qvec@.to_set(), e2) > 0 implies exists|
                        i: int,
                    |
                        0 <= i < c@.len() && (#[trigger] c@[i]).0 == e2 by {
                        if e2 < e {
                            let i = choose|i: int| 0 <= i < c0.len() && (#[trigger] c0[i]).0 == e2;
                            assert(c@[i].0 == e2);
                        }
                    }
                }
            }
        }
        proof {
            assert forall|e: int| #[trigger] is_candidate(db, qvec@.to_set(), e) implies exists|
            i: int,
            |
                0 <= i < c@.len() && (#[trigger] c@[i]).0 == e by {
            }
        }
        c
    }
}

/// Candidate ordering on (entry index, hit count) pairs: higher hit count
/// first, then lower (earlier-inserted) entry index.
pub open spec fn pair_before(a: (usize, usize), b: (usize, usize)) -> bool {
    a.1 > b.1 || (a.1 == b.1 && a.0 < b.0)
}

/// Sort candidate pairs into query order: by hit count descending, ties by
/// entry index ascending (insertion order), so the order is deterministic.
fn sort_candidates(c: &Vec<(usize, usize)>) -> (r: Vec<(usize, usize)>)
    requires
        forall|a: int, b: int|
            0 <= a < b < c@.len() ==> (#[trigger] c@[a]).0 != (#[trigger] c@[b]).0,
    ensures
        r@.len() == c@.len(),
        forall|x: (usize, usize)| r@.contains(x) <==> c@.contains(x),
        forall|a: int, b: int|
            0 <= a < b < r@.len() ==> pair_before(#[trigger] r@[a], #[trigger] r@[b]),
{
    let mut r: Vec<(usize, usize)> = Vec::new();
    let n = c.len();
    for t in 0..n
        invariant
            n == c@.len(),
            forall|a: int, b: int|
                0 <= a < b < c@.len() ==> (#[trigger] c@[a]).0 != (#[trigger] c@[b]).0,
            r@.len() == t,
            forall|x: (usize, usize)| r@.contains(x) <==> c@.take(t as int).contains(x),
            forall|a: int, b: int|
                0 <= a < b < r@.len() ==> pair_before(#[trigger] r@[a], #[trigger] r@[b]),
    {
        let x = c[t];
        let mut pos: usize = 0;
        while pos < r.len() && (r[pos].1 > x.1 || (r[pos].1 == x.1 && r[pos].0 < x.0))
            invariant
                pos <= r@.len(),
                forall|j: int| 0 <= j < pos ==> pair_before(#[trigger] r@[j], x),
            decreases r@.len() - pos,
        {
            pos += 1;
        }
        proof {
            assert forall|j: int| 0 <= j < r@.len() implies (#[trigger] r@[j]).0 != x.0 by {
                assert(r@.contains(r@[j]));
                let j0 = choose|j0: int|
                    0 <= j0 < t && c@.take(t as int)[j0] == r@[j];
                assert(c@[j0] == r@[j]);
                assert(c@[j0].0 != c@[t as int].0);
            }
            if (pos as int) < r@.len() {
                assert(pair_before(x, r@[pos as int]));
            }
            assert forall|j: int| pos <= j < r@.len() implies pair_before(x, #[trigger] r@[j]) by {
                if j > pos {
                    assert(pair_before(r@[pos as int], r@[j]));
                }
            }
        }
        let ghost r0 = r@;
        r.insert(pos, x);
        proof {
            r0.insert_ensures(pos as int, x);
            assert(r@ == r0.insert(pos as int, x));
            assert(r@[pos as int] == x);
            assert forall|y: (usize, usize)| r@.contains(y) implies (r0.contains(y) || y == x) by {
                let j = choose|j: int| 0 <= j < r@.len() && r@[j] == y;
                if j < pos {
                    assert(r0[j] == y);
                } else if j > pos {
                    assert(r@[(j - 1) + 1] == r0[j - 1]);
                    assert(r0[j - 1] == y);
                }
            }
            assert forall|y: (usize, usize)| r0.contains(y) implies r@.contains(y) by {
                let j = choose|j: int| 0 <= j < r0.len() && r0[j] == y;
                if j < pos {
                    assert(r@[j] == y);
                } else {
                    assert(r@[j + 1] == y);
                }
            }
            assert(r@.contains(x));
            assert(c@.take(t + 1) =~= c@.take(t as int).push(x));
            assert forall|y: (usize, usize)| r@.contains(y) implies c@.take(t + 1).contains(y) by {
                lemma_push_contains(c@.take(t as int), x, y);
                let j = choose|j: int| 0 <= j < r@.len() && r@[j] == y;
                if j < pos {
                    assert(r0[j] == y);
                    assert(r0.contains(y));
                } else if j > pos {
                    assert(r@[(j - 1) + 1] == r0[j - 1]);
                    assert(r0.contains(y));
                }
            }
            assert forall|y: (usize, usize)| c@.take(t + 1).contains(y) implies r@.contains(y) by {
                lemma_push_contains(c@.take(t as int), x, y);
                if y == x {
                    assert(r@[pos as int] == y);
                } else {
                    assert(c@.take(t as int).contains(y));
                    assert(r0.contains(y));
                    let j = choose|j: int| 0 <= j < r0.len() && r0[j] == y;
                    if j < pos {
                        assert(r@[j] == y);
                    } else {
                        assert(r@[j + 1] == y);
                    }
                }
            }
            assert forall|a: int, b: int|
                0 <= a < b < r@.len() implies pair_before(#[trigger] r@[a], #[trigger] r@[b]) by {
                if b < pos {
                    assert(r@[a] == r0[a] && r@[b] == r0[b]);
                } else if b == pos {
                    assert(r@[a] == r0[a] && r@[b] == x);
                } else if a < pos {
                    assert(r@[a] == r0[a]);
                    assert(r@[(b - 1) + 1] == r0[b - 1]);
                    assert(pair_before(r0[a], r0[b - 1]) || a == b - 1);
                } else if a == pos {
                    assert(r@[a] == x);
                    assert(r@[(b - 1) + 1] == r0[b - 1]);
                    assert(pair_before(x, r0[b - 1]));
                } else {
                    assert(r@[(a - 1) + 1] == r0[a - 1]);
                    assert(r@[(b - 1) + 1] == r0[b - 1]);
                }
            }
        }
    }
    proof {
        assert(c@.take(n as int) =~= c@);
    }
    r
}

/// Run the greedy one-pass contour assignment of a query outline against
/// stored signatures; true when every stored signature was claimed.
fn greedy_match(rsigs: &Vec<Vec<(u16, u16)>>, outline: &Outline) -> (r: bool)
    ensures
        r == all_used(
            greedy_partial(
                rsigs@.map_values(|v: Vec<(u16, u16)>| v@),
                outline@,
                outline@.len() as int,
            ),
        ),
{
    let ghost rs = rsigs@.map_values(|v: Vec<(u16, u16)>| v@);
    let ghost qs = outline@;
    let m = rsigs.len();
    let mut used: Vec<bool> = Vec::new();
    for z in 0..m
        invariant
            used@.len() == z,
            forall|i: int| 0 <= i < z ==> !(#[trigger] used@[i]),
    {
        used.push(false);
    }
    proof {
        assert(used@ =~= greedy_partial(rs, qs, 0));
    }
    let nq = outline.contours.len();
    for t in 0..nq
        invariant
            m == rsigs@.len(),
            rs == rsigs@.map_values(|v: Vec<(u16, u16)>| v@),
            qs == outline@,
            nq == outline.contours@.len(),
            used@.len() == m,
            used@ == greedy_partial(rs, qs, t as int),
    {
        let tq = points_set(&outline.contours[t]);
        let ghost qset = qs[t as int].to_set();
        proof {
            assert(qs[t as int] == outline.contours@[t as int]@);
            assert(tq@.to_set() == qset);
        }
        let ghost u0 = used@;
        let mut j: usize = 0;
        let mut claimed = false;
        while j < m && !claimed
            invariant
                m == rsigs@.len(),
                rs == rsigs@.map_values(|v: Vec<(u16, u16)>| v@),
                tq@.to_set() == qset,
                j <= m,
                used@.len() == m,
                u0.len() == m,
                !claimed ==> used@ == u0 && claim_from(rs, u0, qset, 0) == claim_from(
                    rs,
                    u0,
                    qset,
                    j as int,
                ),
                claimed ==> used@ == claim_from(rs, u0, qset, 0),
            decreases m - j + (if claimed { 0int } else { 1 }),
        {
            proof {
                assert(rs[j as int] == rsigs@[j as int]@);
            }
            if !used[j] && sig_eq(&rsigs[j], &tq) {
                used[j] = true;
                claimed = true;
                proof {
                    assert(claim_from(rs, u0, qset, j as int) == u0.update(j as int, true));
                    assert(used@ =~= u0.update(j as int, true));
                }
            } else {
                proof {
                    assert(claim_from(rs, u0, qset, j as int) == claim_from(
                        rs,
                        u0,
                        qset,
                        j as int + 1,
                    ));
                }
                j += 1;
            }
        }
        proof {
            if !claimed {
                assert(claim_from(rs, u0, qset, m as int) == u0);
            }
            assert(used@ == claim_from(rs, greedy_partial(rs, qs, t as int), qs[t as int].to_set(), 0));
            assert(greedy_partial(rs, qs, t + 1) == claim_from(
                rs,
                greedy_partial(rs, qs, t as int),
                qs[t as int].to_set(),
                0,
            ));
        }
    }
    let mut all = true;
    let mut j: usize = 0;
    while j < m
        invariant
            m == used@.len(),
            j <= m,
            all == forall|i: int| 0 <= i < j ==> used@[i],
        decreases m - j,
    {
        let ghost all0 = all;
        all = all && used[j];
        proof {
            if all {
                assert forall|i: int| 0 <= i < j + 1 implies used@[i] by {}
            } else {
                if all0 {
                    assert(!used@[j as int]);
                }
            }
        }
        j += 1;
    }
    proof {
        if all {
            assert(all_used(used@));
        } else {
            assert(!all_used(used@));
        }
    }
    all
}

impl ShapeDb {
    /// Best-match query: rank the candidates the inverted index yields by
    /// hit count (ties by insertion order), and return the label of the
    /// first candidate whose contours pair off exactly with the query's;
    /// absence when none does.
    pub fn get(&self, outline: &Outline) -> (r: Option<&String>)
        requires
            self.wf(),
        ensures
            match r {
                Some(lbl) => query_post(self@, outline@, Some(lbl@)),
                None => query_post(self@, outline@, None),
            },
    {
        let ghost db = self@;
        let ghost o = outline@;
        let ghost q = outline_points(outline@);
        let qvec = outline_point_vec(outline);
        let counts = self.count_hits(&qvec);
        let sorted = sort_candidates(&counts);
        let ns = sorted.len();
        for i in 0..ns
            invariant
                self.wf(),
                db == self@,
                o == outline@,
                q == outline_points(outline@),
                ns == sorted@.len(),
                counts_ok(db, q, counts@),
                forall|x: (usize, usize)| sorted@.contains(x) <==> counts@.contains(x),
                forall|a: int, b: int|
                    0 <= a < b < sorted@.len() ==> pair_before(
                        #[trigger] sorted@[a],
                        #[trigger] sorted@[b],
                    ),
                forall|j: int| 0 <= j < i ==> !query_matched(db, o, (#[trigger] sorted@[j]).0 as int),
        {
            let (e, cnt) = sorted[i];
            proof {
                assert(sorted@.contains(sorted@[i as int]));
                let j0 = choose|j0: int| 0 <= j0 < counts@.len() && counts@[j0] == sorted@[i as int];
                assert(counts@[j0].0 < db.entries.len());
                assert(counts@[j0].1 == hit_count(db, q, counts@[j0].0 as int));
                assert(e < db.entries.len() && cnt == hit_count(db, q, e as int) && cnt > 0);
                assert(self.entries@.len() == db.entries.len());
            }
            let ent = &self.entries[e];
            proof {
                assert(ent@ == db.entries[e as int]);
            }
            if ent.sigs.len() == outline.contours.len() {
                if greedy_match(&ent.sigs, outline) {
                    proof {
                        assert(ent@.sigs == ent.sigs@.map_values(|v: Vec<(u16, u16)>| v@));
                        assert(entry_matches(db.entries[e as int], o));
                        assert(is_candidate(db, q, e as int));
                        assert(query_matched(db, o, e as int));
                        assert forall|e2: int|
                            query_matched(db, o, e2) && e2 != e as int implies prio_before(
                            db,
                            q,
                            e as int,
                            e2,
                        ) by {
                            assert(is_candidate(db, q, e2));
                            let j2 = choose|j2: int|
                                0 <= j2 < counts@.len() && (#[trigger] counts@[j2]).0 == e2;
                            assert(counts@.contains(counts@[j2]));
                            assert(counts@[j2].1 == hit_count(db, q, e2));
                            assert(sorted@.contains(counts@[j2]));
                            let p2 = choose|p2: int|
                                0 <= p2 < sorted@.len() && sorted@[p2] == counts@[j2];
                            if p2 < i {
                                assert(!query_matched(db, o, (sorted@[p2]).0 as int));
                            } else if p2 == i {
                                assert(sorted@[i as int].0 == e);
                            } else {
                                assert(pair_before(sorted@[i as int], sorted@[p2]));
                            }
                        }
                        assert(query_post(db, o, Some(ent@.label)));
                    }
                    return Some(&ent.label);
                } else {
                    proof {
                        assert(ent@.sigs == ent.sigs@.map_values(|v: Vec<(u16, u16)>| v@));
                        assert(!entry_matches(db.entries[e as int], o));
                        assert(!query_matched(db, o, e as int));
                    }
                }
            } else {
                proof {
                    assert(ent@.sigs.len() == ent.sigs@.len());
                    assert(!entry_matches(db.entries[e as int], o));
                    assert(!query_matched(db, o, e as int));
                }
            }
        }
        proof {
            assert forall|e: int| !query_matched(db, o, e) by {
                if query_matched(db, o, e) {
                    assert(is_candidate(db, q, e));
                    let j = choose|j: int|
                        0 <= j < counts@.len() && (#[trigger] counts@[j]).0 == e;
                    assert(counts@.contains(counts@[j]));
                    assert(sorted@.contains(counts@[j]));
                    let p = choose|p: int| 0 <= p < sorted@.len() && sorted@[p] == counts@[j];
                    assert(!query_matched(db, o, (sorted@[p]).0 as int));
                }
            }
        }
        None
    }
}

// ---------------------------------------------------------------------------
// Serialization: the executable encoder and decoder
// ---------------------------------------------------------------------------

proof fn lemma_p_chars_some_len(ws: Seq<u64>, cnt: nat)
    ensures
        p_chars(ws, cnt) matches Some((s, rest)) ==> s.len() == cnt && rest.len() + cnt
            == ws.len(),
    decreases cnt,
{
    if cnt > 0 && ws.len() > 0 && valid_char_word(ws[0]) {
        lemma_p_chars_some_len(ws.drop_first(), (cnt - 1) as nat);
    }
}

proof fn lemma_p_points_some_len(ws: Seq<u64>, cnt: nat)
    ensures
        p_points(ws, cnt) matches Some((ps, rest)) ==> ps.len() == cnt && rest.len() + cnt
            == ws.len(),
    decreases cnt,
{
    if cnt > 0 && ws.len() > 0 && valid_point_word(ws[0]) {
        lemma_p_points_some_len(ws.drop_first(), (cnt - 1) as nat);
    }
}

proof fn lemma_p_sigs_some_len(ws: Seq<u64>, cnt: nat)
    ensures
        p_sigs(ws, cnt) matches Some((sigs, rest)) ==> sigs.len() == cnt && rest.len() + cnt
            <= ws.len(),
    decreases cnt,
{
    if cnt > 0 && ws.len() > 0 {
        lemma_p_points_some_len(ws.drop_first(), ws[0] as nat);
        match p_points(ws.drop_first(), ws[0] as nat) {
            Some((ps, rest)) => {
                lemma_p_sigs_some_len(rest, (cnt - 1) as nat);
            },
            None => {},
        }
    }
}

proof fn lemma_p_entries_some_len(ws: Seq<u64>, cnt: nat)
    ensures
        p_entries(ws, cnt) matches Some((es, rest)) ==> es.len() == cnt && rest.len() + cnt
            <= ws.len(),
    decreases cnt,
{
    if cnt > 0 {
        match p_entry(ws) {
            Some((e, rest)) => {
                assert(rest.len() < ws.len()) by {
                    lemma_p_chars_some_len(ws.drop_first(), ws[0] as nat);
                    match p_chars(ws.drop_first(), ws[0] as nat) {
                        Some((lbl, rest1)) => {
                            if rest1.len() > 0 {
                                lemma_p_sigs_some_len(rest1.drop_first(), rest1[0] as nat);
                            }
                        },
                        None => {},
                    }
                }
                lemma_p_entries_some_len(rest, (cnt - 1) as nat);
            },
            None => {},
        }
    }
}

impl ShapeDb {
    /// Serialize the entry list into its canonical byte stream.
    pub fn encode(&self) -> (r: Vec<u8>)
        ensures
            r@ == words_to_bytes(enc_db_words(self@.entries)),
            db_bounded(self@.entries),
            self.wf() ==> sigs_dedup(self@.entries),
    {
        let ghost es = self@.entries;
        let mut ws: Vec<u64> = Vec::new();
        let n = self.entries.len();
        ws.push(n as u64);
        proof {
            assert(es.take(0) =~= Seq::<EntryV>::empty());
            assert(ws@ =~= seq![es.len() as u64] + enc_entries(es.take(0)));
        }
        for i in 0..n
            invariant
                n == self.entries@.len(),
                es == self@.entries,
                ws@ == seq![es.len() as u64] + enc_entries(es.take(i as int)),
                forall|e: int|
                    0 <= e < i ==> (#[trigger] es[e]).label.len() < 0x10000000000000000,
        {
            let ent = &self.entries[i];
            proof {
                assert(ent@ == es[i as int]);
            }
            let lbl = ent.label.as_str();
            let llen = lbl.unicode_len();
            proof {
                assert(es[i as int].label.len() == llen);
            }
            ws.push(llen as u64);
            let ghost b1 = ws@;
            for j in 0..llen
                invariant
                    llen == es[i as int].label.len(),
                    lbl@ == es[i as int].label,
                    ws@ == b1 + enc_chars(es[i as int].label.take(j as int)),
            {
                let c = lbl.get_char(j);
                ws.push((c as u32) as u64);
                proof {
                    assert(enc_chars(es[i as int].label.take(j + 1)) =~= enc_chars(
                        es[i as int].label.take(j as int),
                    ).push((c as u32) as u64));
                }
            }
            proof {
                assert(es[i as int].label.take(llen as int) =~= es[i as int].label);
            }
            let ns = ent.sigs.len();
            ws.push(ns as u64);
            let ghost b2 = ws@;
            proof {
                assert(es[i as int].sigs.take(0) =~= Seq::<Seq<(u16, u16)>>::empty());
                assert(b2 =~= b2 + enc_sigs(es[i as int].sigs.take(0)));
            }
            for j2 in 0..ns
                invariant
                    ns == ent.sigs@.len(),
                    ent == self.entries@[i as int],
                    es == self@.entries,
                    i < n == self.entries@.len(),
                    ent@ == es[i as int],
                    ws@ == b2 + enc_sigs(es[i as int].sigs.take(j2 as int)),
            {
                let sg = &ent.sigs[j2];
                proof {
                    assert(sg@ == es[i as int].sigs[j2 as int]);
                }
                let np = sg.len();
                ws.push(np as u64);
                let ghost b3 = ws@;
                for k in 0..np
                    invariant
                        np == sg@.len(),
                        sg@ == es[i as int].sigs[j2 as int],
                        ws@ == b3 + enc_points(sg@.take(k as int)),
                {
                    let pt = sg[k];
                    ws.push(pt.0 as u64 * 0x10000 + pt.1 as u64);
                    proof {
                        assert(enc_points(sg@.take(k + 1)) =~= enc_points(sg@.take(k as int)).push(
                            point_word(pt),
                        ));
                    }
                }
                proof {
                    assert(sg@.take(np as int) =~= sg@);
                    let st1 = es[i as int].sigs.take(j2 + 1);
                    assert(st1.drop_last() =~= es[i as int].sigs.take(j2 as int));
                    assert(st1.last() == es[i as int].sigs[j2 as int]);
                    assert(ws@ =~= b2 + enc_sigs(es[i as int].sigs.take(j2 + 1)));
                }
            }
            proof {
                assert(es[i as int].sigs.take(ns as int) =~= es[i as int].sigs);
                assert(enc_entry(es[i as int]) =~= seq![es[i as int].label.len() as u64]
                    + enc_chars(es[i as int].label) + seq![es[i as int].sigs.len() as u64]
                    + enc_sigs(es[i as int].sigs));
                let t1 = es.take(i + 1);
                assert(t1.drop_last() =~= es.take(i as int));
                assert(t1.last() == es[i as int]);
                assert(ws@ =~= seq![es.len() as u64] + enc_entries(es.take(i + 1)));
            }
        }
        proof {
            assert(es.take(n as int) =~= es);
            assert(ws@ =~= enc_db_words(es));
        }
        // Words to bytes, little endian.
        let m = ws.len();
        let mut out: Vec<u8> = Vec::new();
        for i in 0..m
            invariant
                m == ws@.len(),
                out@.len() == 8 * i,
                forall|t: int|
                    0 <= t < out@.len() ==> out@[t] == byte_of_word(ws@[t / 8], t % 8),
        {
            let w = ws[i];
            let ghost o0 = out@;
            proof {
                assert(forall|t: int|
                    0 <= t < o0.len() ==> o0[t] == byte_of_word(ws@[t / 8], t % 8));
            }
            let mut k: usize = 0;
            while k < 8
                invariant
                    k <= 8,
                    i < m == ws@.len(),
                    w == ws@[i as int],
                    out@.len() == o0.len() + k,
                    o0.len() == 8 * i,
                    forall|t: int| 0 <= t < o0.len() ==> out@[t] == o0[t],
                    forall|t: int|
                        o0.len() <= t < out@.len() ==> out@[t] == byte_of_word(
                            w,
                            t - o0.len(),
                        ),
                decreases 8 - k,
            {
                out.push(((w >> ((8 * k) as u64)) & 0xff) as u8);
                k += 1;
            }
            proof {
                assert forall|t: int| 0 <= t < out@.len() implies out@[t] == byte_of_word(
                    ws@[t / 8],
                    t % 8,
                ) by {
                    if t >= o0.len() {
                        lemma_div8(i as int, t - 8 * i);
                        assert(out@[t] == byte_of_word(w, t - 8 * i));
                    } else {
                        assert(out@[t] == o0[t]);
                        assert(o0[t] == byte_of_word(ws@[t / 8], t % 8));
                    }
                }
            }
        }
        proof {
            assert(out@ =~= words_to_bytes(ws@));
            broadcast use vstd::std_specs::vec::group_vec_axioms;

            assert forall|e: int| 0 <= e < es.len() implies (#[trigger] es[e]).label.len()
                < 0x10000000000000000 && es[e].sigs.len() < 0x10000000000000000 && (forall|i: int|
                0 <= i < es[e].sigs.len() ==> (#[trigger] es[e].sigs[i]).len()
                    < 0x10000000000000000) by {
                assert(es[e] == self.entries@[e]@);
                assert(es[e].sigs.len() == self.entries@[e].sigs.len());
                assert forall|i: int| 0 <= i < es[e].sigs.len() implies (#[trigger] es[e].sigs[i]).len()
                    < 0x10000000000000000 by {
                    assert(es[e].sigs[i] == self.entries@[e].sigs@[i]@);
                    assert(es[e].sigs[i].len() == self.entries@[e].sigs@[i].len());
                }
            }
            if self.wf() {
                assert(sigs_dedup(self@.entries));
            }
        }
        out
    }
}

/// Read back a database file. The stream is validated word by word: any
/// deviation from the canonical form is a malformed (corrupt) file, which
/// is an error, not an absent database. The inverted index is rebuilt by
/// replaying the insertions, so the result is well-formed by construction.
pub fn decode(bytes: &Vec<u8>) -> (r: Result<ShapeDb, DecodeError>)
    ensures
        match r {
            Ok(db2) => db2.wf() && decode_spec(bytes@) == Some(db2@.entries),
            Err(_) => decode_spec(bytes@) is None,
        },
{
    if bytes.len() % 8 != 0 {
        return Err(DecodeError::Malformed);
    }
    let m = bytes.len() / 8;
    proof {
        assert(bytes@.len() == 8 * m) by (nonlinear_arith)
            requires
                m == bytes@.len() as int / 8,
                bytes@.len() % 8 == 0,
        ;
    }
    let mut ws: Vec<u64> = Vec::new();
    for i in 0..m
        invariant
            bytes@.len() == 8 * m,
            ws@.len() == i,
            forall|j: int|
                0 <= j < i ==> ws@[j] == word_of_bytes(bytes@.subrange(8 * j, 8 * j + 8)),
    {
        proof {
            broadcast use vstd::std_specs::vec::group_vec_axioms;

            assert(8 * (i as int) + 8 <= 8 * (m as int)) by (nonlinear_arith)
                requires
                    i < m,
            ;
            assert(bytes.len() == bytes@.len());
        }
        let base = 8 * i;
        let w = (bytes[base] as u64) | ((bytes[base + 1] as u64) << 8u64) | ((bytes[base
            + 2] as u64) << 16u64) | ((bytes[base + 3] as u64) << 24u64) | ((bytes[base
            + 4] as u64) << 32u64) | ((bytes[base + 5] as u64) << 40u64) | ((bytes[base
            + 6] as u64) << 48u64) | ((bytes[base + 7] as u64) << 56u64);
        ws.push(w);
        proof {
            let sub = bytes@.subrange(8 * i, 8 * i + 8);
            assert(sub[0] == bytes@[8 * i] && sub[1] == bytes@[8 * i + 1] && sub[2] == bytes@[8 * i
                + 2] && sub[3] == bytes@[8 * i + 3] && sub[4] == bytes@[8 * i + 4] && sub[5]
                == bytes@[8 * i + 5] && sub[6] == bytes@[8 * i + 6] && sub[7] == bytes@[8 * i + 7]);
            assert(w == word_of_bytes(sub));
        }
    }
    proof {
        assert(ws@ =~= bytes_to_words(bytes@));
    }
    if ws.len() == 0 {
        return Err(DecodeError::Malformed);
    }
    let n64 = ws[0];
    let nw = ws.len();
    if n64 > usize::MAX as u64 {
        proof {
            lemma_p_entries_some_len(ws@.skip(1), n64 as nat);
            assert(p_entries(ws@.skip(1), n64 as nat) is None) by {
                match p_entries(ws@.skip(1), n64 as nat) {
                    Some((es2, r2)) => {
                        assert(r2.len() + n64 as nat <= ws@.skip(1).len());
                    },
                    None => {},
                }
            }
            assert(ws@.drop_first() =~= ws@.skip(1));
            assert(p_db(ws@) is None);
            assert(decode_spec(bytes@) is None);
        }
        return Err(DecodeError::Malformed);
    }
    let n = n64 as usize;
    let mut db = ShapeDb::new();
    let mut cur: usize = 1;
    let mut i: usize = 0;
    proof {
        assert(db@.entries =~= Seq::<EntryV>::empty());
    }
    while i < n
        invariant
            nw == ws@.len(),
            bytes@.len() % 8 == 0,
            ws@ == bytes_to_words(bytes@),
            1 <= cur <= nw,
            i <= n,
            n as u64 == n64,
            n64 == ws@[0],
            db.wf(),
            match p_entries(ws@.skip(cur as int), (n - i) as nat) {
                Some((es2, rest)) => p_entries(ws@.skip(1), n as nat) == Some(
                    (db@.entries + es2, rest),
                ),
                None => p_entries(ws@.skip(1), n as nat) is None,
            },
            db@.entries.len() == i,
        decreases n - i,
    {
        match parse_entry(&ws, cur) {
            Ok((lbl, contours, cur2)) => {
                let outline = Outline { contours };
                let ghost acc0 = db@.entries;
                let ghost ev = EntryV {
                    label: lbl@,
                    sigs: outline@,
                };
                db.add_outline(&outline, lbl);
                proof {
                    assert(db@.entries.last().label == ev.label);
                    assert forall|t: int| 0 <= t < outline@.len() implies db@.entries.last().sigs[t]
                        == ev.sigs[t] by {
                        assert(outline@[t].no_duplicates());
                    }
                    assert(db@.entries.last().sigs =~= ev.sigs);
                    assert(db@.entries.last() == ev);
                    assert(db@.entries =~= acc0.push(ev));
                    assert(acc0.push(ev) =~= acc0 + seq![ev]);
                    assert((acc0 + seq![ev]) + (match p_entries(
                        ws@.skip(cur2 as int),
                        (n - i - 1) as nat,
                    ) {
                        Some((es3, _)) => es3,
                        None => Seq::empty(),
                    }) =~= acc0 + (seq![ev] + (match p_entries(
                        ws@.skip(cur2 as int),
                        (n - i - 1) as nat,
                    ) {
                        Some((es3, _)) => es3,
                        None => Seq::empty(),
                    })));
                }
                cur = cur2;
                i += 1;
            },
            Err(e) => {
                proof {
                    assert(p_entry(ws@.skip(cur as int)) is None);
                    assert(p_entries(ws@.skip(cur as int), (n - i) as nat) is None);
                    assert(p_entries(ws@.skip(1), n as nat) is None);
                    assert(ws@.drop_first() =~= ws@.skip(1));
                    assert(p_db(ws@) is None);
                    assert(decode_spec(bytes@) is None);
                }
                return Err(e);
            },
        }
    }
    proof {
        assert(p_entries(ws@.skip(cur as int), 0) == Some(
            (Seq::<EntryV>::empty(), ws@.skip(cur as int)),
        ));
        assert(db@.entries + Seq::<EntryV>::empty() =~= db@.entries);
    }
    if cur != nw {
        proof {
            assert(ws@.skip(cur as int).len() > 0);
            assert(p_entries(ws@.skip(1), n as nat) == Some((db@.entries, ws@.skip(cur as int))));
            assert(ws@.drop_first() =~= ws@.skip(1));
            assert(p_db(ws@) is None);
            assert(decode_spec(bytes@) is None);
        }
        return Err(DecodeError::Malformed);
    }
    proof {
        assert(ws@.skip(cur as int).len() == 0);
        assert(p_entries(ws@.skip(1), n as nat) == Some((db@.entries, ws@.skip(cur as int))));
        assert(ws@.drop_first() =~= ws@.skip(1));
        assert(db@.entries.len() as u64 == ws@[0]);
        assert(p_db(ws@) == Some(db@.entries));
        assert(decode_spec(bytes@) == Some(db@.entries));
    }
    Ok(db)
}

/// A failed label parse fails the entry parse.
proof fn lemma_entry_fail(ws: Seq<u64>, pos: int, llen64: u64)
    requires
        0 <= pos < ws.len(),
        ws[pos] == llen64,
        p_chars(ws.skip(pos + 1), llen64 as nat) is None,
    ensures
        p_entry(ws.skip(pos)) is None,
{
    assert(ws.skip(pos)[0] == ws[pos]);
    assert(ws.skip(pos).drop_first() =~= ws.skip(pos + 1));
}

/// A failed signature parse after a parsed label fails the entry parse.
proof fn lemma_entry_fail_sigs(ws: Seq<u64>, pos: int, llen64: u64, lbl: Seq<char>, scur: int)
    requires
        0 <= pos < ws.len(),
        ws[pos] == llen64,
        0 <= scur <= ws.len(),
        p_chars(ws.skip(pos + 1), llen64 as nat) == Some((lbl, ws.skip(scur))),
        scur < ws.len() ==> p_sigs(ws.skip(scur + 1), ws[scur] as nat) is None,
    ensures
        p_entry(ws.skip(pos)) is None,
{
    assert(ws.skip(pos)[0] == ws[pos]);
    assert(ws.skip(pos).drop_first() =~= ws.skip(pos + 1));
    if scur < ws.len() {
        assert(ws.skip(scur)[0] == ws[scur]);
        assert(ws.skip(scur).drop_first() =~= ws.skip(scur + 1));
    } else {
        assert(ws.skip(scur).len() == 0);
    }
}

/// Parse one entry (label, then contour signatures) at a word offset.
fn parse_entry(ws: &Vec<u64>, pos: usize) -> (r: Result<(String, Vec<Contour>, usize), DecodeError>)
    requires
        pos <= ws@.len(),
    ensures
        match r {
            Ok((lbl, contours, pos2)) => {
                &&& pos < pos2 <= ws@.len()
                &&& p_entry(ws@.skip(pos as int)) == Some(
                    (
                        EntryV {
                            label: lbl@,
                            sigs: contours@.map_values(|c: Contour| c@),
                        },
                        ws@.skip(pos2 as int),
                    ),
                )
                &&& forall|t: int|
                    0 <= t < contours@.len() ==> (#[trigger] contours@[t]@).no_duplicates()
            },
            Err(_) => p_entry(ws@.skip(pos as int)) is None,
        },
{
    let nw = ws.len();
    if pos >= nw {
        proof {
            assert(ws@.skip(pos as int).len() == 0);
        }
        return Err(DecodeError::Malformed);
    }
    let llen64 = ws[pos];
    if llen64 > usize::MAX as u64 {
        proof {
            lemma_p_chars_some_len(ws@.skip(pos as int + 1), llen64 as nat);
            assert(p_chars(ws@.skip(pos as int + 1), llen64 as nat) is None) by {
                match p_chars(ws@.skip(pos as int + 1), llen64 as nat) {
                    Some((s2, r2)) => {
                        assert(s2.len() == llen64 as nat);
                    },
                    None => {},
                }
            }
            lemma_entry_fail(ws@, pos as int, llen64);
        }
        return Err(DecodeError::Malformed);
    }
    let llen = llen64 as usize;
    let mut lbl = String::new();
    let mut cur = pos + 1;
    let mut j: usize = 0;
    while j < llen
        invariant
            nw == ws@.len(),
            pos < nw,
            ws@[pos as int] == llen64,
            llen as u64 == llen64,
            pos + 1 <= cur <= nw,
            cur == pos + 1 + j,
            j <= llen,
            lbl@.len() == j,
            match p_chars(ws@.skip(cur as int), (llen - j) as nat) {
                Some((s, rest)) => p_chars(ws@.skip(pos as int + 1), llen as nat) == Some(
                    (lbl@ + s, rest),
                ),
                None => p_chars(ws@.skip(pos as int + 1), llen as nat) is None,
            },
        decreases llen - j,
    {
        if cur >= nw {
            proof {
                assert(ws@.skip(cur as int).len() == 0);
                assert(p_chars(ws@.skip(cur as int), (llen - j) as nat) is None);
                lemma_entry_fail(ws@, pos as int, llen64);
            }
            return Err(DecodeError::Malformed);
        }
        let w = ws[cur];
        proof {
            assert(ws@.skip(cur as int)[0] == ws@[cur as int]);
            assert(ws@.skip(cur as int).drop_first() =~= ws@.skip(cur as int + 1));
        }
        if !(w < 0x110000 && !(0xD800 <= w && w <= 0xDFFF)) {
            proof {
                assert(!valid_char_word(w));
                assert(p_chars(ws@.skip(cur as int), (llen - j) as nat) is None);
                lemma_entry_fail(ws@, pos as int, llen64);
            }
            return Err(DecodeError::Malformed);
        }
        let c = match char_from_u32(w as u32) {
            Some(c) => c,
            None => {
                proof {
                    assert(vstd::utf8::is_scalar(w as u32)) by (bit_vector)
                        requires
                            w < 0x110000 && !(0xD800 <= w && w <= 0xDFFF),
                    ;
                    assert(false);
                }
                return Err(DecodeError::Malformed);
            },
        };
        proof {
            assert(c as u32 == w as u32);
            assert((w as u32) as char == c) by {
                vstd::utf8::char_u32_cast(c, c as u32);
            }
            assert(char_of_word(w) == c);
        }
        let ghost lbl0 = lbl@;
        let cs = char_to_string(c);
        lbl.append(cs.as_str());
        proof {
            assert(lbl@ =~= lbl0 + seq![c]);
        }
        cur += 1;
        j += 1;
        proof {
            match p_chars(ws@.skip(cur as int), (llen - j) as nat) {
                Some((s, rest)) => {
                    assert(lbl0 + (seq![c] + s) =~= lbl@ + s);
                },
                None => {},
            }
        }
    }
    // label parsed; now the signature count
    proof {
        assert(p_chars(ws@.skip(cur as int), 0) == Some(
            (Seq::<char>::empty(), ws@.skip(cur as int)),
        ));
        assert(lbl@ + Seq::<char>::empty() =~= lbl@);
        assert(p_chars(ws@.skip(pos as int + 1), llen as nat) == Some(
            (lbl@, ws@.skip(cur as int)),
        ));
    }
    let ghost scur0 = cur as int;
    if cur >= nw {
        proof {
            lemma_entry_fail_sigs(ws@, pos as int, llen64, lbl@, scur0);
        }
        return Err(DecodeError::Malformed);
    }
    let scnt64 = ws[cur];
    if scnt64 > usize::MAX as u64 {
        proof {
            lemma_p_sigs_some_len(ws@.skip(cur as int + 1), scnt64 as nat);
            assert(p_sigs(ws@.skip(cur as int + 1), scnt64 as nat) is None) by {
                match p_sigs(ws@.skip(cur as int + 1), scnt64 as nat) {
                    Some((s2, r2)) => {
                        assert(s2.len() == scnt64 as nat);
                    },
                    None => {},
                }
            }
            lemma_entry_fail_sigs(ws@, pos as int, llen64, lbl@, scur0);
        }
        return Err(DecodeError::Malformed);
    }
    let scnt = scnt64 as usize;
    let ghost sig_base = cur as int + 1;
    cur += 1;
    let mut contours: Vec<Contour> = Vec::new();
    let mut j2: usize = 0;
    proof {
        assert(contours@.map_values(|c: Contour| c@) =~= Seq::<Seq<(u16, u16)>>::empty());
    }
    while j2 < scnt
        invariant
            nw == ws@.len(),
            pos < nw,
            ws@[pos as int] == llen64,
            llen as u64 == llen64,
            0 <= scur0 < nw,
            ws@[scur0] == scnt64,
            scnt as u64 == scnt64,
            sig_base == scur0 + 1,
            p_chars(ws@.skip(pos as int + 1), llen as nat) == Some((lbl@, ws@.skip(scur0))),
            sig_base <= cur <= nw,
            j2 <= scnt,
            contours@.len() == j2,
            forall|t: int| 0 <= t < contours@.len() ==> (#[trigger] contours@[t]@).no_duplicates(),
            match p_sigs(ws@.skip(cur as int), (scnt - j2) as nat) {
                Some((sigs, rest)) => p_sigs(ws@.skip(sig_base), scnt as nat) == Some(
                    (contours@.map_values(|c: Contour| c@) + sigs, rest),
                ),
                None => p_sigs(ws@.skip(sig_base), scnt as nat) is None,
            },
        decreases scnt - j2,
    {
        let ghost scur = cur as int;
        if cur >= nw {
            proof {
                assert(ws@.skip(cur as int).len() == 0);
                assert(p_sigs(ws@.skip(cur as int), (scnt - j2) as nat) is None);
                lemma_entry_fail_sigs(ws@, pos as int, llen64, lbl@, scur0);
            }
            return Err(DecodeError::Malformed);
        }
        let plen64 = ws[cur];
        proof {
            assert(ws@.skip(scur)[0] == ws@[scur]);
            assert(ws@.skip(scur).drop_first() =~= ws@.skip(scur + 1));
        }
        if plen64 > usize::MAX as u64 {
            proof {
                lemma_p_points_some_len(ws@.skip(scur + 1), plen64 as nat);
                assert(p_points(ws@.skip(scur + 1), plen64 as nat) is None) by {
                    match p_points(ws@.skip(scur + 1), plen64 as nat) {
                        Some((s2, r2)) => {
                            assert(s2.len() == plen64 as nat);
                        },
                        None => {},
                    }
                }
                assert(p_sigs(ws@.skip(scur), (scnt - j2) as nat) is None);
                lemma_entry_fail_sigs(ws@, pos as int, llen64, lbl@, scur0);
            }
            return Err(DecodeError::Malformed);
        }
        let plen = plen64 as usize;
        let ghost pts_base = cur as int + 1;
        cur += 1;
        let mut pts: Vec<(u16, u16)> = Vec::new();
        let mut k: usize = 0;
        while k < plen
            invariant
                nw == ws@.len(),
                pos < nw,
                ws@[pos as int] == llen64,
                llen as u64 == llen64,
                0 <= scur0 < nw,
                ws@[scur0] == scnt64,
                scnt as u64 == scnt64,
                sig_base == scur0 + 1,
                p_chars(ws@.skip(pos as int + 1), llen as nat) == Some((lbl@, ws@.skip(scur0))),
                0 <= scur < nw,
                ws@[scur] == plen64,
                plen as u64 == plen64,
                pts_base == scur + 1,
                j2 < scnt,
                contours@.len() == j2,
                forall|t: int|
                    0 <= t < contours@.len() ==> (#[trigger] contours@[t]@).no_duplicates(),
                match p_sigs(ws@.skip(scur), (scnt - j2) as nat) {
                    Some((sigs, rest)) => p_sigs(ws@.skip(sig_base), scnt as nat) == Some(
                        (contours@.map_values(|c: Contour| c@) + sigs, rest),
                    ),
                    None => p_sigs(ws@.skip(sig_base), scnt as nat) is None,
                },
                pts_base <= cur <= nw,
                cur == pts_base + k,
                k <= plen,
                pts@.len() == k,
                match p_points(ws@.skip(cur as int), (plen - k) as nat) {
                    Some((ps, rest)) => p_points(ws@.skip(pts_base), plen as nat) == Some(
                        (pts@ + ps, rest),
                    ),
                    None => p_points(ws@.skip(pts_base), plen as nat) is None,
                },
            decreases plen - k,
        {
            if cur >= nw {
                proof {
                    assert(ws@.skip(cur as int).len() == 0);
                    assert(p_points(ws@.skip(cur as int), (plen - k) as nat) is None);
                    assert(p_points(ws@.skip(pts_base), plen as nat) is None);
                    assert(plen64 as nat == plen as nat);
                    assert(ws@.skip(scur).len() > 0);
                    assert(ws@.skip(scur)[0] == ws@[scur]);
                    assert(ws@.skip(scur).drop_first() =~= ws@.skip(pts_base));
                    assert(p_sigs(ws@.skip(scur), (scnt - j2) as nat) is None);
                    lemma_entry_fail_sigs(ws@, pos as int, llen64, lbl@, scur0);
                }
                return Err(DecodeError::Malformed);
            }
            let w = ws[cur];
            proof {
                assert(ws@.skip(cur as int)[0] == ws@[cur as int]);
                assert(ws@.skip(cur as int).drop_first() =~= ws@.skip(cur as int + 1));
            }
            if !(w < 0x100000000) {
                proof {
                    assert(!valid_point_word(w));
                    assert(p_points(ws@.skip(cur as int), (plen - k) as nat) is None);
                    assert(p_points(ws@.skip(pts_base), plen as nat) is None);
                    assert(plen64 as nat == plen as nat);
                    assert(ws@.skip(scur).len() > 0);
                    assert(ws@.skip(scur)[0] == ws@[scur]);
                    assert(ws@.skip(scur).drop_first() =~= ws@.skip(pts_base));
                    assert(p_sigs(ws@.skip(scur), (scnt - j2) as nat) is None);
                    lemma_entry_fail_sigs(ws@, pos as int, llen64, lbl@, scur0);
                }
                return Err(DecodeError::Malformed);
            }
            let x = (w / 0x10000) as u16;
            let y = (w % 0x10000) as u16;
            proof {
                assert(w / 0x10000 < 0x10000 && w % 0x10000 < 0x10000) by (nonlinear_arith)
                    requires
                        w < 0x100000000u64,
                ;
                assert((x, y) == point_of_word(w));
            }
            let ghost pts0 = pts@;
            pts.push((x, y));
            cur += 1;
            k += 1;
            proof {
                assert(pts@ =~= pts0.push(point_of_word(w)));
                match p_points(ws@.skip(cur as int), (plen - k) as nat) {
                    Some((ps, rest)) => {
                        assert(pts0 + (seq![point_of_word(w)] + ps) =~= pts@ + ps);
                    },
                    None => {},
                }
            }
        }
        proof {
            assert(p_points(ws@.skip(cur as int), 0) == Some(
                (Seq::<(u16, u16)>::empty(), ws@.skip(cur as int)),
            ));
            assert(pts@ + Seq::<(u16, u16)>::empty() =~= pts@);
            assert(p_points(ws@.skip(pts_base), plen as nat) == Some((pts@, ws@.skip(cur as int))));
        }
        if !points_distinct(&pts) {
            proof {
                assert(plen64 as nat == plen as nat);
                assert(ws@.skip(scur).len() > 0);
                assert(ws@.skip(scur)[0] == ws@[scur]);
                assert(ws@.skip(scur).drop_first() =~= ws@.skip(pts_base));
                assert(p_sigs(ws@.skip(scur), (scnt - j2) as nat) is None);
                lemma_entry_fail_sigs(ws@, pos as int, llen64, lbl@, scur0);
            }
            return Err(DecodeError::Malformed);
        }
        let ghost c0 = contours@;
        let ghost ptsv = pts@;
        contours.push(Contour { points: pts });
        j2 += 1;
        proof {
            assert(plen64 as nat == plen as nat);
            assert(ws@.skip(scur).len() > 0);
            assert(ws@.skip(scur)[0] == ws@[scur]);
            assert(ws@.skip(scur).drop_first() =~= ws@.skip(pts_base));
            let cv = contours@.map_values(|c: Contour| c@);
            assert(contours@.last()@ == ptsv);
            assert(cv =~= c0.map_values(|c: Contour| c@).push(ptsv));
            assert(p_sigs(ws@.skip(scur), (scnt - j2 + 1) as nat) == (match p_sigs(
                ws@.skip(cur as int),
                (scnt - j2) as nat,
            ) {
                Some((sigs, rest)) => Some((seq![ptsv] + sigs, rest)),
                None => None::<(Seq<Seq<(u16, u16)>>, Seq<u64>)>,
            }));
            match p_sigs(ws@.skip(cur as int), (scnt - j2) as nat) {
                Some((sigs, rest)) => {
                    assert(c0.map_values(|c: Contour| c@) + (seq![ptsv] + sigs) =~= cv + sigs);
                },
                None => {},
            }
        }
    }
    proof {
        assert(p_sigs(ws@.skip(cur as int), 0) == Some(
            (Seq::<Seq<(u16, u16)>>::empty(), ws@.skip(cur as int)),
        ));
        assert(contours@.map_values(|c: Contour| c@) + Seq::<Seq<(u16, u16)>>::empty()
            =~= contours@.map_values(|c: Contour| c@));
        assert(p_sigs(ws@.skip(sig_base), scnt as nat) == Some(
            (contours@.map_values(|c: Contour| c@), ws@.skip(cur as int)),
        ));
        assert(ws@.skip(pos as int)[0] == ws@[pos as int]);
        assert(ws@.skip(pos as int).drop_first() =~= ws@.skip(pos as int + 1));
        assert(ws@.skip(scur0)[0] == ws@[scur0]);
        assert(ws@.skip(scur0).drop_first() =~= ws@.skip(sig_base));
        assert(ws@.skip(scur0).len() > 0);
        assert(p_entry(ws@.skip(pos as int)) == Some(
            (
                EntryV { label: lbl@, sigs: contours@.map_values(|c: Contour| c@) },
                ws@.skip(cur as int),
            ),
        ));
    }
    Ok((lbl, contours, cur))
}

/// Whether a parsed point list is duplicate-free, as the canonical stream
/// requires.
fn points_distinct(v: &Vec<(u16, u16)>) -> (r: bool)
    ensures
        r == v@.no_duplicates(),
{
    let n = v.len();
    for i in 0..n
        invariant
            n == v@.len(),
            forall|a: int, b: int| 0 <= a < b < i ==> v@[a] != v@[b],
    {
        let mut j: usize = 0;
        while j < i
            invariant
                i < n == v@.len(),
                j <= i,
                forall|b: int| 0 <= b < j ==> v@[b] != v@[i as int],
            decreases i - j,
        {
            if v[j].0 == v[i].0 && v[j].1 == v[i].1 {
                return false;
            }
            j += 1;
        }
    }
    true
}

/// Why a candidate was rejected, or that it was accepted: the reporter's
/// per-candidate outcome.
#[derive(PartialEq, Eq, Structural, Clone, Copy, Debug)]
pub enum Verdict {
    ContourCountMismatch { stored: usize, query: usize },
    SignatureMismatch,
    Matched,
}

/// One line of the diagnostic trace: the candidate looked at, how many
/// query points it shared, its label, and the outcome.
#[derive(Clone, Debug)]
pub struct CandidateReport {
    pub entry: usize,
    pub hits: usize,
    pub label: String,
    pub verdict: Verdict,
}

/// The outcome the matcher reaches for one candidate entry.
pub open spec fn verdict_of(db: DbView, o: Seq<Seq<(u16, u16)>>, e: int) -> Verdict {
    if db.entries[e].sigs.len() != o.len() {
        Verdict::ContourCountMismatch {
            stored: db.entries[e].sigs.len() as usize,
            query: o.len() as usize,
        }
    } else if entry_matches(db.entries[e], o) {
        Verdict::Matched
    } else {
        Verdict::SignatureMismatch
    }
}

/// What the diagnostic trace of a query holds: the candidates in query
/// order, each with its exact hit count, label and verdict, stopping at
/// the first accepted one; every candidate appears unless the search
/// stopped before reaching it.
pub open spec fn trace_ok(
    db: DbView,
    o: Seq<Seq<(u16, u16)>>,
    t: Seq<CandidateReport>,
    r: Option<Seq<char>>,
) -> bool {
    let q = outline_points(o);
    &&& forall|a: int, b: int|
        0 <= a < b < t.len() ==> prio_before(db, q, (#[trigger] t[a]).entry as int, (
        #[trigger] t[b]).entry as int)
    &&& forall|j: int|
        0 <= j < t.len() ==> is_candidate(db, q, (#[trigger] t[j]).entry as int) && t[j].hits
            == hit_count(db, q, t[j].entry as int) && t[j].label@ == db.entries[t[j].entry as int].label
            && t[j].verdict == verdict_of(db, o, t[j].entry as int)
    &&& forall|j: int| 0 <= j < t.len() - 1 ==> (#[trigger] t[j]).verdict != Verdict::Matched
    &&& (r is Some <==> t.len() > 0 && t.last().verdict == Verdict::Matched)
    &&& (r is Some ==> db.entries[t.last().entry as int].label == r->Some_0)
    &&& forall|e: int|
        #[trigger] is_candidate(db, q, e) ==> (exists|j: int|
            0 <= j < t.len() && (#[trigger] t[j]).entry as int == e) || (t.len() > 0
            && t.last().verdict == Verdict::Matched && prio_before(db, q, t.last().entry as int, e))
}

impl ShapeDb {
    /// Best-match query with the diagnostic side channel: the same answer
    /// as `get`, together with one report line per candidate considered,
    /// in the order they were considered.
    pub fn get_report(&self, outline: &Outline) -> (r: (Option<&String>, Vec<CandidateReport>))
        requires
            self.wf(),
        ensures
            match r.0 {
                Some(lbl) => query_post(self@, outline@, Some(lbl@)) && trace_ok(
                    self@,
                    outline@,
                    r.1@,
                    Some(lbl@),
                ),
                None => query_post(self@, outline@, None) && trace_ok(
                    self@,
                    outline@,
                    r.1@,
                    None,
                ),
            },
    {
        let ghost db = self@;
        let ghost o = outline@;
        let ghost q = outline_points(outline@);
        let qvec = outline_point_vec(outline);
        let counts = self.count_hits(&qvec);
        let sorted = sort_candidates(&counts);
        proof {
            assert forall|i2: int| 0 <= i2 < sorted@.len() implies (#[trigger] sorted@[i2]).0
                < db.entries.len() && sorted@[i2].1 == hit_count(db, q, sorted@[i2].0 as int)
                && sorted@[i2].1 > 0 by {
                assert(sorted@.contains(sorted@[i2]));
                let j0 = choose|j0: int| 0 <= j0 < counts@.len() && counts@[j0] == sorted@[i2];
                assert(counts@[j0].0 < db.entries.len());
            }
            assert(counts_sorted_valid(db, q, sorted@));
        }
        let ns = sorted.len();
        let mut trace: Vec<CandidateReport> = Vec::new();
        for i in 0..ns
            invariant
                self.wf(),
                db == self@,
                o == outline@,
                q == outline_points(outline@),
                ns == sorted@.len(),
                counts_ok(db, q, counts@),
                counts_sorted_valid(db, q, sorted@),
                forall|x: (usize, usize)| sorted@.contains(x) <==> counts@.contains(x),
                forall|a: int, b: int|
                    0 <= a < b < sorted@.len() ==> pair_before(
                        #[trigger] sorted@[a],
                        #[trigger] sorted@[b],
                    ),
                forall|j: int| 0 <= j < i ==> !query_matched(db, o, (#[trigger] sorted@[j]).0 as int),
                trace@.len() == i,
                forall|j: int|
                    0 <= j < i ==> (#[trigger] trace@[j]).entry == sorted@[j].0 && trace@[j].hits
                        == sorted@[j].1 && trace@[j].label@ == db.entries[sorted@[j].0 as int].label
                        && trace@[j].verdict == verdict_of(db, o, sorted@[j].0 as int),
                forall|j: int| 0 <= j < i ==> (#[trigger] trace@[j]).verdict != Verdict::Matched,
        {
            let (e, cnt) = sorted[i];
            proof {
                assert(sorted@.contains(sorted@[i as int]));
                let j0 = choose|j0: int| 0 <= j0 < counts@.len() && counts@[j0] == sorted@[i as int];
                assert(counts@[j0].0 < db.entries.len());
                assert(counts@[j0].1 == hit_count(db, q, counts@[j0].0 as int));
                assert(e < db.entries.len() && cnt == hit_count(db, q, e as int) && cnt > 0);
                assert(self.entries@.len() == db.entries.len());
            }
            let ent = &self.entries[e];
            proof {
                assert(ent@ == db.entries[e as int]);
                assert(ent@.sigs == ent.sigs@.map_values(|v: Vec<(u16, u16)>| v@));
                assert(ent@.sigs.len() == ent.sigs@.len());
            }
            if ent.sigs.len() == outline.contours.len() {
                if greedy_match(&ent.sigs, outline) {
                    proof {
                        assert(entry_matches(db.entries[e as int], o));
                        assert(is_candidate(db, q, e as int));
                        assert(query_matched(db, o, e as int));
                        assert forall|e2: int|
                            query_matched(db, o, e2) && e2 != e as int implies prio_before(
                            db,
                            q,
                            e as int,
                            e2,
                        ) by {
                            assert(is_candidate(db, q, e2));
                            let j2 = choose|j2: int|
                                0 <= j2 < counts@.len() && (#[trigger] counts@[j2]).0 == e2;
                            assert(counts@.contains(counts@[j2]));
                            assert(counts@[j2].1 == hit_count(db, q, e2));
                            assert(sorted@.contains(counts@[j2]));
                            let p2 = choose|p2: int|
                                0 <= p2 < sorted@.len() && sorted@[p2] == counts@[j2];
                            if p2 < i {
                                assert(!query_matched(db, o, (sorted@[p2]).0 as int));
                            } else if p2 == i {
                                assert(sorted@[i as int].0 == e);
                            } else {
                                assert(pair_before(sorted@[i as int], sorted@[p2]));
                            }
                        }
                        assert(query_post(db, o, Some(ent@.label)));
                    }
                    let lbl = ent.label.clone();
                    trace.push(
                        CandidateReport { entry: e, hits: cnt, label: lbl, verdict: Verdict::Matched },
                    );
                    proof {
                        assert(trace@.last().entry == e && trace@.last().verdict
                            == Verdict::Matched);
                        assert(verdict_of(db, o, e as int) == Verdict::Matched);
                        lemma_report_prefix_ok(db, o, q, sorted@, trace@, i as int + 1);
                        assert forall|e2: int| #[trigger] is_candidate(db, q, e2) implies (exists|
                            j: int,
                        |
                            0 <= j < trace@.len() && (#[trigger] trace@[j]).entry as int == e2) || (
                        trace@.len() > 0 && trace@.last().verdict == Verdict::Matched
                            && prio_before(db, q, trace@.last().entry as int, e2)) by {
                            let j2 = choose|j2: int|
                                0 <= j2 < counts@.len() && (#[trigger] counts@[j2]).0 == e2;
                            assert(counts@.contains(counts@[j2]));
                            assert(counts@[j2].1 == hit_count(db, q, e2));
                            assert(sorted@.contains(counts@[j2]));
                            let p2 = choose|p2: int|
                                0 <= p2 < sorted@.len() && sorted@[p2] == counts@[j2];
                            if p2 <= i {
                                assert(trace@[p2].entry as int == e2);
                            } else {
                                assert(pair_before(sorted@[i as int], sorted@[p2]));
                            }
                        }
                    }
                    return (Some(&ent.label), trace);
                } else {
                    proof {
                        assert(!entry_matches(db.entries[e as int], o));
                        assert(!query_matched(db, o, e as int));
                        assert(verdict_of(db, o, e as int) == Verdict::SignatureMismatch);
                    }
                    trace.push(
                        CandidateReport {
                            entry: e,
                            hits: cnt,
                            label: ent.label.clone(),
                            verdict: Verdict::SignatureMismatch,
                        },
                    );
                }
            } else {
                proof {
                    assert(!entry_matches(db.entries[e as int], o));
                    assert(!query_matched(db, o, e as int));
                }
                let sc = ent.sigs.len();
                let qc = outline.contours.len();
                proof {
                    assert(verdict_of(db, o, e as int) == (Verdict::ContourCountMismatch {
                        stored: sc,
                        query: qc,
                    }));
                }
                trace.push(
                    CandidateReport {
                        entry: e,
                        hits: cnt,
                        label: ent.label.clone(),
                        verdict: Verdict::ContourCountMismatch { stored: sc, query: qc },
                    },
                );
            }
        }
        proof {
            assert forall|e: int| !query_matched(db, o, e) by {
                if query_matched(db, o, e) {
                    assert(is_candidate(db, q, e));
                    let j = choose|j: int|
                        0 <= j < counts@.len() && (#[trigger] counts@[j]).0 == e;
                    assert(counts@.contains(counts@[j]));
                    assert(sorted@.contains(counts@[j]));
                    let p = choose|p: int| 0 <= p < sorted@.len() && sorted@[p] == counts@[j];
                    assert(!query_matched(db, o, (sorted@[p]).0 as int));
                }
            }
            lemma_report_prefix_ok(db, o, q, sorted@, trace@, ns as int);
            assert forall|e2: int| #[trigger] is_candidate(db, q, e2) implies (exists|j: int|
                0 <= j < trace@.len() && (#[trigger] trace@[j]).entry as int == e2) || (trace@.len()
                > 0 && trace@.last().verdict == Verdict::Matched && prio_before(
                db,
                q,
                trace@.last().entry as int,
                e2,
            )) by {
                let j2 = choose|j2: int|
                    0 <= j2 < counts@.len() && (#[trigger] counts@[j2]).0 == e2;
                assert(counts@.contains(counts@[j2]));
                assert(counts@[j2].1 == hit_count(db, q, e2));
                assert(sorted@.contains(counts@[j2]));
                let p2 = choose|p2: int| 0 <= p2 < sorted@.len() && sorted@[p2] == counts@[j2];
                assert(trace@[p2].entry as int == e2);
            }
        }
        (None, trace)
    }
}

/// A trace built along the sorted candidate order is itself in query order,
/// with sound content.
proof fn lemma_report_prefix_ok(
    db: DbView,
    o: Seq<Seq<(u16, u16)>>,
    q: Set<(u16, u16)>,
    sorted: Seq<(usize, usize)>,
    t: Seq<CandidateReport>,
    upto: int,
)
    requires
        q == outline_points(o),
        counts_sorted_valid(db, q, sorted),
        0 <= upto <= sorted.len(),
        t.len() == upto,
        forall|j: int|
            0 <= j < upto ==> (#[trigger] t[j]).entry == sorted[j].0 && t[j].hits == sorted[j].1
                && t[j].label@ == db.entries[sorted[j].0 as int].label && t[j].verdict == verdict_of(
                db,
                o,
                sorted[j].0 as int,
            ),
    ensures
        forall|a: int, b: int|
            0 <= a < b < t.len() ==> prio_before(db, q, (#[trigger] t[a]).entry as int, (
            #[trigger] t[b]).entry as int),
        forall|j: int|
            0 <= j < t.len() ==> is_candidate(db, q, (#[trigger] t[j]).entry as int) && t[j].hits
                == hit_count(db, q, t[j].entry as int) && t[j].label@ == db.entries[t[j].entry as int].label
                && t[j].verdict == verdict_of(db, o, t[j].entry as int),
{
    assert forall|a: int, b: int|
        0 <= a < b < t.len() implies prio_before(db, q, (#[trigger] t[a]).entry as int, (
    #[trigger] t[b]).entry as int) by {
        assert(pair_before(sorted[a], sorted[b]));
    }
}

/// The well-formedness a sorted candidate list carries.
pub open spec fn counts_sorted_valid(db: DbView, q: Set<(u16, u16)>, sorted: Seq<(usize, usize)>) -> bool {
    &&& forall|a: int, b: int|
        0 <= a < b < sorted.len() ==> pair_before(#[trigger] sorted[a], #[trigger] sorted[b])
    &&& forall|i: int|
        0 <= i < sorted.len() ==> (#[trigger] sorted[i]).0 < db.entries.len() && sorted[i].1
            == hit_count(db, q, sorted[i].0 as int) && sorted[i].1 > 0
}

} // verus!
