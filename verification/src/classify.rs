//! The glyph classifier: run the best-match query over every glyph of a
//! target font and collect the labels of the glyphs that matched. Fetching
//! the outlines out of the font file is the caller's part; the classifier
//! takes them indexed by glyph id.

use vstd::prelude::*;
use crate::geom::Outline;
use crate::db::{ShapeDb, DbView, query_post, query_matched};

verus! {

/// What classification returns: one (glyph id, label) pair per classified
/// glyph, in glyph order. A glyph is classified exactly when it has a
/// non-empty outline and the query finds a full match; the label is the
/// query's answer for that outline.
pub open spec fn classification_ok(
    db: DbView,
    glyphs: Seq<Option<Seq<Seq<(u16, u16)>>>>,
    r: Seq<(usize, Seq<char>)>,
) -> bool {
    &&& forall|a: int, b: int| 0 <= a < b < r.len() ==> (#[trigger] r[a]).0 < (#[trigger] r[b]).0
    &&& forall|i: int|
        0 <= i < r.len() ==> (#[trigger] r[i]).0 < glyphs.len() && glyphs[r[i].0 as int] is Some
            && glyphs[r[i].0 as int]->Some_0.len() > 0 && query_post(
            db,
            glyphs[r[i].0 as int]->Some_0,
            Some(r[i].1),
        )
    &&& forall|g: int|
        0 <= g < glyphs.len() && (#[trigger] glyphs[g]) is Some && glyphs[g]->Some_0.len() > 0 && (
        exists|e: int| query_matched(db, glyphs[g]->Some_0, e)) ==> exists|i: int|
            0 <= i < r.len() && (#[trigger] r[i]).0 == g
}

/// Classify a font's glyphs against a database: skip glyphs without an
/// outline or with an empty one, query the rest, and record each match.
pub fn check_font(db: &ShapeDb, glyphs: &Vec<Option<Outline>>) -> (r: Vec<(usize, String)>)
    requires
        db.wf(),
    ensures
        classification_ok(
            db@,
            glyphs@.map_values(|o: Option<Outline>| match o {
                Some(ol) => Some(ol@),
                None => None,
            }),
            r@.map_values(|p: (usize, String)| (p.0, p.1@)),
        ),
{
    let ghost gv = glyphs@.map_values(|o: Option<Outline>| match o {
        Some(ol) => Some(ol@),
        None => None,
    });
    let mut r: Vec<(usize, String)> = Vec::new();
    let n = glyphs.len();
    for g in 0..n
        invariant
            n == glyphs@.len(),
            db.wf(),
            gv == glyphs@.map_values(|o: Option<Outline>| match o {
                Some(ol) => Some(ol@),
                None => None,
            }),
            gv.len() == n,
            forall|a: int, b: int|
                0 <= a < b < r@.len() ==> (#[trigger] r@[a]).0 < (#[trigger] r@[b]).0,
            forall|i: int| 0 <= i < r@.len() ==> (#[trigger] r@[i]).0 < g,
            forall|i: int|
                0 <= i < r@.len() ==> (#[trigger] r@[i]).0 < gv.len() && gv[r@[i].0 as int] is Some
                    && gv[r@[i].0 as int]->Some_0.len() > 0 && query_post(
                    db@,
                    gv[r@[i].0 as int]->Some_0,
                    Some(r@[i].1@),
                ),
            forall|g2: int|
                0 <= g2 < g && (#[trigger] gv[g2]) is Some && gv[g2]->Some_0.len() > 0 && (exists|
                    e: int,
                | query_matched(db@, gv[g2]->Some_0, e)) ==> exists|i: int|
                    0 <= i < r@.len() && (#[trigger] r@[i]).0 == g2,
    {
        proof {
            assert(gv[g as int] == (match glyphs@[g as int] {
                Some(ol) => Some(ol@),
                None => None,
            }));
        }
        let ghost r0 = r@;
        match &glyphs[g] {
            Some(o) => {
                if o.contours.len() > 0 {
                    match db.get(o) {
                        Some(lbl) => {
                            let owned = lbl.clone();
                            r.push((g, owned));
                            proof {
                                assert(r@[r@.len() - 1] == (g, owned));
                                assert(owned@ == lbl@);
                                assert forall|g2: int|
                                    0 <= g2 < g + 1 && (#[trigger] gv[g2]) is Some
                                        && gv[g2]->Some_0.len() > 0 && (exists|e: int|
                                        query_matched(db@, gv[g2]->Some_0, e)) implies exists|
                                    i: int,
                                |
                                    0 <= i < r@.len() && (#[trigger] r@[i]).0 == g2 by {
                                    if g2 < g {
                                        let i = choose|i: int|
                                            0 <= i < r0.len() && (#[trigger] r0[i]).0 == g2;
                                        assert(r@[i].0 == g2);
                                    } else {
                                        assert(r@[r@.len() - 1].0 == g2);
                                    }
                                }
                            }
                        },
                        None => {
                            proof {
                                assert(forall|e: int| !query_matched(db@, o@, e));
                            }
                        },
                    }
                } else {
                    proof {
                        assert(gv[g as int]->Some_0.len() == 0);
                    }
                }
            },
            None => {},
        }
    }
    proof {
        let rv = r@.map_values(|p: (usize, String)| (p.0, p.1@));
        assert forall|a: int, b: int| 0 <= a < b < rv.len() implies (#[trigger] rv[a]).0 < (
        #[trigger] rv[b]).0 by {
            assert(rv[a] == (r@[a].0, r@[a].1@) && rv[b] == (r@[b].0, r@[b].1@));
        }
        assert forall|i: int| 0 <= i < rv.len() implies (#[trigger] rv[i]).0 < gv.len()
            && gv[rv[i].0 as int] is Some && gv[rv[i].0 as int]->Some_0.len() > 0 && query_post(
            db@,
            gv[rv[i].0 as int]->Some_0,
            Some(rv[i].1),
        ) by {
            assert(rv[i] == (r@[i].0, r@[i].1@));
        }
        assert forall|g2: int|
            0 <= g2 < gv.len() && (#[trigger] gv[g2]) is Some && gv[g2]->Some_0.len() > 0 && (
            exists|e: int| query_matched(db@, gv[g2]->Some_0, e)) implies exists|i: int|
            0 <= i < rv.len() && (#[trigger] rv[i]).0 == g2 by {
            let i = choose|i: int| 0 <= i < r@.len() && (#[trigger] r@[i]).0 == g2;
            assert(rv[i] == (r@[i].0, r@[i].1@));
            assert(rv[i].0 == g2);
        }
    }
    r
}

} // verus!
