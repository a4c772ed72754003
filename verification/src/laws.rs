//! The database's stated laws, proved once and for all: the contour-count
//! guard, determinism of queries, and exact self-match after insertion.

use vstd::prelude::*;
use crate::geom::{outline_points, lemma_outline_points_finite, lemma_outline_points_congruent};
use crate::db::{DbView, EntryV, db_wf, entry_points, hit_count, is_candidate, prio_before,
    claim_from, greedy_partial, all_used, entry_matches, query_matched, query_post, trace_ok,
    verdict_of, CandidateReport, Verdict};

verus! {

/// Contour-count guard: a query whose contour count differs from every
/// stored entry's contour count returns absence, regardless of how many
/// points overlap.
pub proof fn lemma_contour_count_guard(db: DbView, o: Seq<Seq<(u16, u16)>>)
    requires
        forall|e: int|
            0 <= e < db.entries.len() ==> (#[trigger] db.entries[e]).sigs.len() != o.len(),
    ensures
        query_post(db, o, None::<Seq<char>>),
{
    assert forall|e: int| !query_matched(db, o, e) by {
        if 0 <= e < db.entries.len() {
            assert(!entry_matches(db.entries[e], o));
        }
    }
}

/// Determinism: against one immutable database, one outline has one query
/// outcome; any two results meeting the query contract are equal.
pub proof fn lemma_query_deterministic(
    db: DbView,
    o: Seq<Seq<(u16, u16)>>,
    r1: Option<Seq<char>>,
    r2: Option<Seq<char>>,
)
    requires
        query_post(db, o, r1),
        query_post(db, o, r2),
    ensures
        r1 == r2,
{
    if r1 is Some && r2 is Some {
        let e1 = choose|e: int|
            #[trigger] query_matched(db, o, e) && db.entries[e].label == r1->Some_0 && (forall|
                e2: int,
            |
                query_matched(db, o, e2) && e2 != e ==> prio_before(db, outline_points(o), e, e2));
        let e2 = choose|e: int|
            #[trigger] query_matched(db, o, e) && db.entries[e].label == r2->Some_0 && (forall|
                e3: int,
            |
                query_matched(db, o, e3) && e3 != e ==> prio_before(db, outline_points(o), e, e3));
        if e1 != e2 {
            assert(prio_before(db, outline_points(o), e1, e2));
            assert(prio_before(db, outline_points(o), e2, e1));
            assert(false);
        }
    } else if r1 is Some {
        let e1 = choose|e: int|
            #[trigger] query_matched(db, o, e) && db.entries[e].label == r1->Some_0 && (forall|
                e2: int,
            |
                query_matched(db, o, e2) && e2 != e ==> prio_before(db, outline_points(o), e, e2));
        assert(!query_matched(db, o, e1));
    } else if r2 is Some {
        let e2 = choose|e: int|
            #[trigger] query_matched(db, o, e) && db.entries[e].label == r2->Some_0 && (forall|
                e3: int,
            |
                query_matched(db, o, e3) && e3 != e ==> prio_before(db, outline_points(o), e, e3));
        assert(!query_matched(db, o, e2));
    }
}

/// How many stored signatures at positions `j` and beyond are unused and
/// set-equal to `v`.
pub open spec fn cnt_unused(
    rs: Seq<Seq<(u16, u16)>>,
    u: Seq<bool>,
    v: Set<(u16, u16)>,
    j: int,
) -> nat
    decreases rs.len() - j,
{
    if j < 0 || j >= rs.len() {
        0
    } else {
        (if !u[j] && rs[j].to_set() == v {
            1nat
        } else {
            0
        }) + cnt_unused(rs, u, v, j + 1)
    }
}

/// How many query contours at positions `t` and beyond have point set `v`.
pub open spec fn cnt_q(qs: Seq<Seq<(u16, u16)>>, v: Set<(u16, u16)>, t: int) -> nat
    decreases qs.len() - t,
{
    if t < 0 || t >= qs.len() {
        0
    } else {
        (if qs[t].to_set() == v {
            1nat
        } else {
            0
        }) + cnt_q(qs, v, t + 1)
    }
}

proof fn lemma_cnt_unused_init(
    rs: Seq<Seq<(u16, u16)>>,
    qs: Seq<Seq<(u16, u16)>>,
    v: Set<(u16, u16)>,
    j: int,
)
    requires
        rs.len() == qs.len(),
        forall|i: int| 0 <= i < rs.len() ==> (#[trigger] rs[i]).to_set() == qs[i].to_set(),
    ensures
        cnt_unused(rs, Seq::new(rs.len(), |i: int| false), v, j) == cnt_q(qs, v, j),
    decreases rs.len() - j,
{
    if j < 0 || j >= rs.len() {
    } else {
        lemma_cnt_unused_init(rs, qs, v, j + 1);
    }
}

proof fn lemma_cnt_unused_update_before(
    rs: Seq<Seq<(u16, u16)>>,
    u: Seq<bool>,
    v: Set<(u16, u16)>,
    p: int,
    j: int,
)
    requires
        0 <= p < j,
        u.len() == rs.len(),
    ensures
        cnt_unused(rs, u.update(p, true), v, j) == cnt_unused(rs, u, v, j),
    decreases rs.len() - j,
{
    let u2 = u.update(p, true);
    if j < 0 || j >= rs.len() {
    } else {
        lemma_cnt_unused_update_before(rs, u, v, p, j + 1);
        assert(u2[j] == u[j]);
        assert(cnt_unused(rs, u2, v, j) == (if !u2[j] && rs[j].to_set() == v {
            1nat
        } else {
            0
        }) + cnt_unused(rs, u2, v, j + 1));
        assert(cnt_unused(rs, u, v, j) == (if !u[j] && rs[j].to_set() == v {
            1nat
        } else {
            0
        }) + cnt_unused(rs, u, v, j + 1));
    }
}

/// A successful greedy claim takes exactly one signature of the claimed
/// point set and leaves every other tally alone.
proof fn lemma_claim_from_counts(
    rs: Seq<Seq<(u16, u16)>>,
    u: Seq<bool>,
    v0: Set<(u16, u16)>,
    j: int,
)
    requires
        u.len() == rs.len(),
        cnt_unused(rs, u, v0, j) > 0,
    ensures
        claim_from(rs, u, v0, j).len() == rs.len(),
        cnt_unused(rs, claim_from(rs, u, v0, j), v0, j) == cnt_unused(rs, u, v0, j) - 1,
        forall|v: Set<(u16, u16)>| v != v0 ==> cnt_unused(rs, claim_from(rs, u, v0, j), v, j)
            == cnt_unused(rs, u, v, j),
        forall|j2: int| 0 <= j2 < j ==> claim_from(rs, u, v0, j)[j2] == u[j2],
    decreases rs.len() - j,
{
    if j < 0 || j >= rs.len() {
        assert(false);
    } else if !u[j] && rs[j].to_set() == v0 {
        let u2 = u.update(j, true);
        assert(claim_from(rs, u, v0, j) == u2);
        assert forall|v: Set<(u16, u16)>| #![trigger cnt_unused(rs, u2, v, j + 1)] true implies
            cnt_unused(rs, u2, v, j + 1) == cnt_unused(rs, u, v, j + 1) by {
            lemma_cnt_unused_update_before(rs, u, v, j, j + 1);
        }
        assert(cnt_unused(rs, u2, v0, j + 1) == cnt_unused(rs, u, v0, j + 1));
        assert(cnt_unused(rs, u2, v0, j) == 0 + cnt_unused(rs, u2, v0, j + 1));
        assert(cnt_unused(rs, u, v0, j) == 1 + cnt_unused(rs, u, v0, j + 1));
        assert forall|v: Set<(u16, u16)>| v != v0 implies cnt_unused(rs, u2, v, j) == cnt_unused(
            rs,
            u,
            v,
            j,
        ) by {
            assert(cnt_unused(rs, u2, v, j + 1) == cnt_unused(rs, u, v, j + 1));
            assert(cnt_unused(rs, u2, v, j) == (if !u2[j] && rs[j].to_set() == v {
                1nat
            } else {
                0
            }) + cnt_unused(rs, u2, v, j + 1));
            assert(cnt_unused(rs, u, v, j) == (if !u[j] && rs[j].to_set() == v {
                1nat
            } else {
                0
            }) + cnt_unused(rs, u, v, j + 1));
        }
    } else {
        assert(cnt_unused(rs, u, v0, j) == 0 + cnt_unused(rs, u, v0, j + 1));
        lemma_claim_from_counts(rs, u, v0, j + 1);
        let u2 = claim_from(rs, u, v0, j + 1);
        assert(claim_from(rs, u, v0, j) == u2);
        assert(u2[j] == u[j]);
        assert(cnt_unused(rs, u2, v0, j) == (if !u2[j] && rs[j].to_set() == v0 {
            1nat
        } else {
            0
        }) + cnt_unused(rs, u2, v0, j + 1));
        assert(cnt_unused(rs, u2, v0, j) == cnt_unused(rs, u, v0, j) - 1);
        assert forall|v: Set<(u16, u16)>| v != v0 implies cnt_unused(rs, u2, v, j) == cnt_unused(
            rs,
            u,
            v,
            j,
        ) by {
            assert(cnt_unused(rs, u2, v, j + 1) == cnt_unused(rs, u, v, j + 1));
            assert(cnt_unused(rs, u2, v, j) == (if !u2[j] && rs[j].to_set() == v {
                1nat
            } else {
                0
            }) + cnt_unused(rs, u2, v, j + 1));
            assert(cnt_unused(rs, u, v, j) == (if !u[j] && rs[j].to_set() == v {
                1nat
            } else {
                0
            }) + cnt_unused(rs, u, v, j + 1));
        }
    }
}

proof fn lemma_cnt_unused_pos(rs: Seq<Seq<(u16, u16)>>, u: Seq<bool>, j: int, j0: int)
    requires
        0 <= j0 <= j < rs.len(),
        !u[j],
    ensures
        cnt_unused(rs, u, rs[j].to_set(), j0) > 0,
    decreases j - j0,
{
    if j0 == j {
    } else {
        lemma_cnt_unused_pos(rs, u, j, j0 + 1);
    }
}

/// The greedy pass run over signatures that are pointwise set-equal to the
/// query's contours claims every stored signature.
pub proof fn lemma_greedy_self(rs: Seq<Seq<(u16, u16)>>, qs: Seq<Seq<(u16, u16)>>)
    requires
        rs.len() == qs.len(),
        forall|i: int| 0 <= i < rs.len() ==> (#[trigger] rs[i]).to_set() == qs[i].to_set(),
    ensures
        all_used(greedy_partial(rs, qs, qs.len() as int)),
{
    let n = qs.len() as int;
    let uf = greedy_partial(rs, qs, n);
    assert forall|j: int| 0 <= j < uf.len() implies uf[j] by {
        if !uf[j] {
            lemma_greedy_self_inv(rs, qs, n);
            assert(uf.len() == rs.len());
            lemma_cnt_unused_pos(rs, uf, j, 0);
            assert(cnt_unused(rs, uf, rs[j].to_set(), 0) == cnt_q(qs, rs[j].to_set(), n));
        }
    }
}

/// Invariant of the greedy pass: after `t` claims, for every point set the
/// unused stored signatures balance the remaining query contours.
proof fn lemma_greedy_self_inv(rs: Seq<Seq<(u16, u16)>>, qs: Seq<Seq<(u16, u16)>>, t: int)
    requires
        rs.len() == qs.len(),
        forall|i: int| 0 <= i < rs.len() ==> (#[trigger] rs[i]).to_set() == qs[i].to_set(),
        0 <= t <= qs.len(),
    ensures
        greedy_partial(rs, qs, t).len() == rs.len(),
        forall|v: Set<(u16, u16)>| cnt_unused(rs, greedy_partial(rs, qs, t), v, 0) == cnt_q(
            qs,
            v,
            t,
        ),
    decreases t,
{
    if t == 0 {
        assert forall|v: Set<(u16, u16)>|
            #![trigger cnt_unused(rs, greedy_partial(rs, qs, 0), v, 0)]
            true implies cnt_unused(rs, greedy_partial(rs, qs, 0), v, 0) == cnt_q(qs, v, 0) by {
            lemma_cnt_unused_init(rs, qs, v, 0);
        }
    } else {
        lemma_greedy_self_inv(rs, qs, t - 1);
        let u0 = greedy_partial(rs, qs, t - 1);
        let v0 = qs[t - 1].to_set();
        assert(cnt_q(qs, v0, t - 1) > 0);
        assert(cnt_unused(rs, u0, v0, 0) > 0);
        lemma_claim_from_counts(rs, u0, v0, 0);
        assert forall|v: Set<(u16, u16)>|
            #![trigger cnt_unused(rs, greedy_partial(rs, qs, t), v, 0)]
            true implies cnt_unused(rs, greedy_partial(rs, qs, t), v, 0) == cnt_q(qs, v, t) by {
            if v == v0 {
            } else {
                assert(cnt_q(qs, v, t) == cnt_q(qs, v, t - 1));
            }
        }
    }
}

/// Exact self-match: after an outline with at least one point is inserted
/// under a label, querying the very same outline returns that label,
/// provided no earlier entry also fully matches it.
pub proof fn lemma_exact_self_match(db: DbView, o: Seq<Seq<(u16, u16)>>, lbl: Seq<char>)
    requires
        db_wf(db),
        db.entries.len() > 0,
        ({
            let e = db.entries.last();
            &&& e.label == lbl
            &&& e.sigs.len() == o.len()
            &&& forall|i: int| 0 <= i < o.len() ==> (#[trigger] e.sigs[i]).to_set() == o[i].to_set()
        }),
        exists|p: (u16, u16)| outline_points(o).contains(p),
        forall|e2: int|
            0 <= e2 < db.entries.len() - 1 ==> !entry_matches(#[trigger] db.entries[e2], o),
    ensures
        query_post(db, o, Some(lbl)),
{
    broadcast use vstd::set::group_set_axioms;

    let n = db.entries.len() - 1;
    let e = db.entries.last();
    let q = outline_points(o);
    lemma_greedy_self(e.sigs, o);
    assert(entry_matches(e, o));
    lemma_outline_points_congruent(e.sigs, o);
    assert(entry_points(e) == q);
    lemma_outline_points_finite(o);
    let p = choose|p: (u16, u16)| q.contains(p);
    assert(q.len() > 0) by {
        assert(q.remove(p).len() == q.len() - 1);
    }
    assert(q.intersect(entry_points(e)) =~= q);
    assert(hit_count(db, q, n) == q.len());
    assert(is_candidate(db, q, n));
    assert(query_matched(db, o, n));
    assert forall|e2: int| query_matched(db, o, e2) && e2 != n implies prio_before(db, q, n, e2) by {
        assert(!entry_matches(db.entries[e2], o));
    }
}

/// Query outcomes are a function of the entry list alone: the inverted
/// index is a ranking device, not part of the answer. With the codec's
/// round trip this makes serialize-then-deserialize preserve every query
/// result.
pub proof fn lemma_query_depends_on_entries(
    a: DbView,
    b: DbView,
    o: Seq<Seq<(u16, u16)>>,
    r: Option<Seq<char>>,
)
    requires
        a.entries == b.entries,
    ensures
        query_post(a, o, r) == query_post(b, o, r),
{
    let q = outline_points(o);
    assert forall|e: int|
        #![trigger query_matched(a, o, e)]
        #![trigger query_matched(b, o, e)]
        query_matched(a, o, e) == query_matched(b, o, e) by {
        if 0 <= e < a.entries.len() {
            assert(a.entries[e] == b.entries[e]);
        }
    }
    assert forall|e: int, e2: int|
        #![trigger prio_before(a, q, e, e2)]
        #![trigger prio_before(b, q, e, e2)]
        prio_before(a, q, e, e2) == prio_before(b, q, e, e2) by {
        if 0 <= e < a.entries.len() {
            assert(a.entries[e] == b.entries[e]);
        }
        if 0 <= e2 < a.entries.len() {
            assert(a.entries[e2] == b.entries[e2]);
        }
    }
    if r is Some {
        if query_post(a, o, r) {
            let e = choose|e: int|
                #[trigger] query_matched(a, o, e) && a.entries[e].label == r->Some_0 && (forall|
                    e2: int,
                |
                    query_matched(a, o, e2) && e2 != e ==> prio_before(a, q, e, e2));
            assert(query_matched(b, o, e) && b.entries[e].label == r->Some_0 && (forall|e2: int|
                query_matched(b, o, e2) && e2 != e ==> prio_before(b, q, e, e2)));
        }
        if query_post(b, o, r) {
            let e = choose|e: int|
                #[trigger] query_matched(b, o, e) && b.entries[e].label == r->Some_0 && (forall|
                    e2: int,
                |
                    query_matched(b, o, e2) && e2 != e ==> prio_before(b, q, e, e2));
            assert(query_matched(a, o, e) && a.entries[e].label == r->Some_0 && (forall|e2: int|
                query_matched(a, o, e2) && e2 != e ==> prio_before(a, q, e, e2)));
        }
    }
}

/// Two strictly candidate-ordered entry sequences with the same members
/// are the same sequence.
proof fn lemma_sorted_same_content(db: DbView, q: Set<(u16, u16)>, s1: Seq<int>, s2: Seq<int>)
    requires
        forall|a: int, b: int| 0 <= a < b < s1.len() ==> prio_before(db, q, s1[a], s1[b]),
        forall|a: int, b: int| 0 <= a < b < s2.len() ==> prio_before(db, q, s2[a], s2[b]),
        forall|e: int| s1.contains(e) <==> s2.contains(e),
    ensures
        s1 == s2,
    decreases s1.len(),
{
    if s1.len() == 0 {
        if s2.len() > 0 {
            assert(s2.contains(s2[0]));
            assert(s1.contains(s2[0]));
        }
        assert(s1 =~= s2);
    } else {
        assert(s1.contains(s1[0]));
        assert(s2.contains(s1[0]));
        let k = choose|k: int| 0 <= k < s2.len() && s2[k] == s1[0];
        if k > 0 {
            assert(prio_before(db, q, s2[0], s1[0]));
            assert(s1.contains(s2[0]));
            let m = choose|m: int| 0 <= m < s1.len() && s1[m] == s2[0];
            if m > 0 {
                assert(prio_before(db, q, s1[0], s1[m]));
                assert(false);
            } else {
                assert(prio_before(db, q, s1[0], s1[0]));
                assert(false);
            }
        }
        assert(s2[0] == s1[0]);
        let t1 = s1.drop_first();
        let t2 = s2.drop_first();
        assert forall|e: int| t1.contains(e) <==> t2.contains(e) by {
            if t1.contains(e) {
                let j = choose|j: int| 0 <= j < t1.len() && t1[j] == e;
                assert(s1[j + 1] == e);
                assert(prio_before(db, q, s1[0], e));
                assert(s1.contains(e));
                assert(s2.contains(e));
                let k2 = choose|k2: int| 0 <= k2 < s2.len() && s2[k2] == e;
                if k2 == 0 {
                    assert(prio_before(db, q, e, e));
                    assert(false);
                }
                assert(t2[k2 - 1] == e);
                assert(t2.contains(e));
            }
            if t2.contains(e) {
                let j = choose|j: int| 0 <= j < t2.len() && t2[j] == e;
                assert(s2[j + 1] == e);
                assert(prio_before(db, q, s2[0], e));
                assert(s2.contains(e));
                assert(s1.contains(e));
                let k2 = choose|k2: int| 0 <= k2 < s1.len() && s1[k2] == e;
                if k2 == 0 {
                    assert(prio_before(db, q, e, e));
                    assert(false);
                }
                assert(t1[k2 - 1] == e);
                assert(t1.contains(e));
            }
        }
        assert forall|a: int, b: int| 0 <= a < b < t1.len() implies prio_before(
            db,
            q,
            t1[a],
            t1[b],
        ) by {
            assert(t1[a] == s1[a + 1] && t1[b] == s1[b + 1]);
        }
        assert forall|a: int, b: int| 0 <= a < b < t2.len() implies prio_before(
            db,
            q,
            t2[a],
            t2[b],
        ) by {
            assert(t2[a] == s2[a + 1] && t2[b] == s2[b + 1]);
        }
        lemma_sorted_same_content(db, q, t1, t2);
        assert forall|i: int| 0 <= i < s1.len() implies s1[i] == s2[i] by {
            if i > 0 {
                assert(s1[i] == t1[i - 1] && s2[i] == t2[i - 1]);
            }
        }
        assert(s1 =~= s2);
    }
}

/// The entries a trace mentions, in order.
pub open spec fn trace_entries(t: Seq<CandidateReport>) -> Seq<int> {
    t.map_values(|c: CandidateReport| c.entry as int)
}

/// A trace's members: every candidate the search reached before stopping.
proof fn lemma_trace_members(
    db: DbView,
    o: Seq<Seq<(u16, u16)>>,
    t: Seq<CandidateReport>,
    r: Option<Seq<char>>,
    best: int,
)
    requires
        query_post(db, o, r),
        trace_ok(db, o, t, r),
        r is Some,
        query_matched(db, o, best),
        forall|e2: int|
            query_matched(db, o, e2) && e2 != best ==> prio_before(db, outline_points(o), best, e2),
    ensures
        t.len() > 0,
        t.last().entry as int == best,
        forall|e: int|
            trace_entries(t).contains(e) <==> (is_candidate(db, outline_points(o), e) && (e == best
                || prio_before(db, outline_points(o), e, best))),
{
    let q = outline_points(o);
    let s = trace_entries(t);
    assert(t.len() > 0 && t.last().verdict == Verdict::Matched);
    let le = t.last().entry as int;
    assert(is_candidate(db, q, le) && t.last().verdict == verdict_of(db, o, le));
    assert(entry_matches(db.entries[le], o));
    assert(query_matched(db, o, le));
    if le != best {
        assert(prio_before(db, q, best, le));
        assert(is_candidate(db, q, best));
        if exists|j: int| 0 <= j < t.len() && (#[trigger] t[j]).entry as int == best {
            let j = choose|j: int| 0 <= j < t.len() && (#[trigger] t[j]).entry as int == best;
            if j < t.len() - 1 {
                assert(t[j].verdict != Verdict::Matched);
                assert(t[j].verdict == verdict_of(db, o, best));
                assert(entry_matches(db.entries[best], o));
                assert(db.entries[best].sigs.len() == o.len());
                assert(false);
            } else {
                assert(t[j].entry as int == le);
                assert(false);
            }
        } else {
            assert(prio_before(db, q, le, best));
            assert(false);
        }
    }
    assert forall|e: int| s.contains(e) implies (is_candidate(db, q, e) && (e == best
        || prio_before(db, q, e, best))) by {
        let j = choose|j: int| 0 <= j < s.len() && s[j] == e;
        assert(s[j] == t[j].entry as int);
        assert(is_candidate(db, q, e));
        if j < t.len() - 1 {
            assert(prio_before(db, q, t[j].entry as int, t[t.len() - 1].entry as int));
        }
    }
    assert forall|e: int| (is_candidate(db, q, e) && (e == best || prio_before(
        db,
        q,
        e,
        best,
    ))) implies s.contains(e) by {
        if e == best {
            assert(s[s.len() - 1] == t[t.len() - 1].entry as int);
            assert(s.contains(e));
        } else {
            if exists|j: int| 0 <= j < t.len() && (#[trigger] t[j]).entry as int == e {
                let j = choose|j: int| 0 <= j < t.len() && (#[trigger] t[j]).entry as int == e;
                assert(s[j] == e);
                assert(s.contains(e));
            } else {
                assert(prio_before(db, q, t.last().entry as int, e));
                assert(false);
            }
        }
    }
}

/// Determinism of the diagnostic trace: against one immutable database,
/// one outline has one trace, line for line.
pub proof fn lemma_trace_deterministic(
    db: DbView,
    o: Seq<Seq<(u16, u16)>>,
    t1: Seq<CandidateReport>,
    t2: Seq<CandidateReport>,
    r1: Option<Seq<char>>,
    r2: Option<Seq<char>>,
)
    requires
        query_post(db, o, r1),
        query_post(db, o, r2),
        trace_ok(db, o, t1, r1),
        trace_ok(db, o, t2, r2),
    ensures
        t1.len() == t2.len(),
        forall|j: int|
            0 <= j < t1.len() ==> (#[trigger] t1[j]).entry == t2[j].entry && t1[j].hits
                == t2[j].hits && t1[j].label@ == t2[j].label@ && t1[j].verdict == t2[j].verdict,
{
    let q = outline_points(o);
    lemma_query_deterministic(db, o, r1, r2);
    let s1 = trace_entries(t1);
    let s2 = trace_entries(t2);
    assert forall|a: int, b: int| 0 <= a < b < s1.len() implies prio_before(db, q, s1[a], s1[b]) by {
        assert(s1[a] == t1[a].entry as int && s1[b] == t1[b].entry as int);
    }
    assert forall|a: int, b: int| 0 <= a < b < s2.len() implies prio_before(db, q, s2[a], s2[b]) by {
        assert(s2[a] == t2[a].entry as int && s2[b] == t2[b].entry as int);
    }
    if r1 is Some {
        let best = choose|e: int|
            #[trigger] query_matched(db, o, e) && db.entries[e].label == r1->Some_0 && (forall|
                e2: int,
            |
                query_matched(db, o, e2) && e2 != e ==> prio_before(db, outline_points(o), e, e2));
        lemma_trace_members(db, o, t1, r1, best);
        lemma_trace_members(db, o, t2, r2, best);
        assert forall|e: int| s1.contains(e) <==> s2.contains(e) by {}
        lemma_sorted_same_content(db, q, s1, s2);
    } else {
        assert forall|e: int| s1.contains(e) <==> is_candidate(db, q, e) by {
            if s1.contains(e) {
                let j = choose|j: int| 0 <= j < s1.len() && s1[j] == e;
                assert(s1[j] == t1[j].entry as int);
                assert(is_candidate(db, q, e));
            }
            if is_candidate(db, q, e) {
                assert(!(t1.len() > 0 && t1.last().verdict == Verdict::Matched));
                let j = choose|j: int| 0 <= j < t1.len() && (#[trigger] t1[j]).entry as int == e;
                assert(s1[j] == e);
                assert(s1.contains(e));
            }
        }
        assert forall|e: int| s2.contains(e) <==> is_candidate(db, q, e) by {
            if s2.contains(e) {
                let j = choose|j: int| 0 <= j < s2.len() && s2[j] == e;
                assert(s2[j] == t2[j].entry as int);
                assert(is_candidate(db, q, e));
            }
            if is_candidate(db, q, e) {
                assert(!(t2.len() > 0 && t2.last().verdict == Verdict::Matched));
                let j = choose|j: int| 0 <= j < t2.len() && (#[trigger] t2[j]).entry as int == e;
                assert(s2[j] == e);
                assert(s2.contains(e));
            }
        }
        lemma_sorted_same_content(db, q, s1, s2);
    }
    assert(s1.len() == t1.len() && s2.len() == t2.len());
    assert forall|j: int| 0 <= j < t1.len() implies (#[trigger] t1[j]).entry == t2[j].entry
        && t1[j].hits == t2[j].hits && t1[j].label@ == t2[j].label@ && t1[j].verdict
        == t2[j].verdict by {
        assert(s1[j] == t1[j].entry as int && s2[j] == t2[j].entry as int);
        assert(t1[j].hits == hit_count(db, q, t1[j].entry as int));
        assert(t2[j].hits == hit_count(db, q, t2[j].entry as int));
        assert(t1[j].label@ == db.entries[t1[j].entry as int].label);
        assert(t2[j].label@ == db.entries[t2[j].entry as int].label);
        assert(t1[j].verdict == verdict_of(db, o, t1[j].entry as int));
        assert(t2[j].verdict == verdict_of(db, o, t2[j].entry as int));
    }
}

} // verus!
