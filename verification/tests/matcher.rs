use glyphmatcher::geom::{Contour, Outline};
use glyphmatcher::db::{ShapeDb, decode, Verdict};
use glyphmatcher::extract::{use_cmap, use_name_map, glyph_assignments, FontKind};
use glyphmatcher::classify::check_font;
use glyphmatcher::fontdb::FontDb;

fn outline(contours: Vec<Vec<(u16, u16)>>) -> Outline {
    Outline { contours: contours.into_iter().map(|points| Contour { points }).collect() }
}

fn square() -> Outline {
    outline(vec![vec![(0, 0), (0, 100), (100, 100), (100, 0)]])
}

#[test]
fn exact_self_match() {
    let mut db = ShapeDb::new();
    db.add_outline(&square(), "A".to_string());
    assert_eq!(db.get(&square()), Some(&"A".to_string()));
}

#[test]
fn end_to_end_square() {
    let mut db = ShapeDb::new();
    db.add_outline(&square(), "A".to_string());
    // identical point set: the label comes back
    assert_eq!(db.get(&square()), Some(&"A".to_string()));
    // every point shifted by one: no shared point, no candidates, absence
    let shifted = outline(vec![vec![(1, 0), (1, 100), (101, 100), (101, 0)]]);
    assert_eq!(db.get(&shifted), None);
    // three of the four points: sets differ, the exact check fails
    let partial = outline(vec![vec![(0, 0), (0, 100), (100, 100)]]);
    assert_eq!(db.get(&partial), None);
}

#[test]
fn contour_count_guard() {
    let mut db = ShapeDb::new();
    db.add_outline(&square(), "A".to_string());
    // same points, but split over two contours: rejected on contour count
    let two = outline(vec![vec![(0, 0), (0, 100)], vec![(100, 100), (100, 0)]]);
    assert_eq!(db.get(&two), None);
}

#[test]
fn query_deterministic() {
    let mut db = ShapeDb::new();
    db.add_outline(&square(), "A".to_string());
    db.add_outline(&square(), "B".to_string());
    let first = db.get(&square()).cloned();
    let second = db.get(&square()).cloned();
    assert_eq!(first, second);
    // ties by hit count resolve to the earlier-inserted entry
    assert_eq!(first, Some("A".to_string()));
}

#[test]
fn quantization_collapses_duplicates() {
    // the same point repeated indexes and compares once
    let mut db = ShapeDb::new();
    db.add_outline(&outline(vec![vec![(5, 5), (5, 5), (7, 9)]]), "x".to_string());
    assert_eq!(db.get(&outline(vec![vec![(7, 9), (5, 5)]])), Some(&"x".to_string()));
}

#[test]
fn quantization_truncates() {
    // coordinates that differ only in the fractional part truncate alike
    let a: Vec<(f32, f32)> = vec![(0.9, 0.2), (0.1, 100.7), (100.99, 100.01), (100.5, 0.3)];
    let b: Vec<(f32, f32)> = vec![(0.0, 0.0), (0.0, 100.0), (100.0, 100.0), (100.0, 0.0)];
    let quant = |ps: &Vec<(f32, f32)>| -> Outline {
        outline(vec![ps.iter().map(|&(x, y)| (x as u16, y as u16)).collect()])
    };
    let mut db = ShapeDb::new();
    db.add_outline(&quant(&a), "A".to_string());
    assert_eq!(db.get(&quant(&b)), Some(&"A".to_string()));
}

#[test]
fn ranking_prefers_more_shared_points() {
    let mut db = ShapeDb::new();
    // an entry sharing one point but failing the exact check
    db.add_outline(&outline(vec![vec![(0, 0), (9, 9)]]), "near".to_string());
    db.add_outline(&square(), "A".to_string());
    assert_eq!(db.get(&square()), Some(&"A".to_string()));
}

#[test]
fn codec_round_trip() {
    let mut db = ShapeDb::new();
    db.add_outline(&square(), "A".to_string());
    db.add_outline(&outline(vec![vec![(1, 2), (3, 4)], vec![(5, 6)]]), "μ".to_string());
    let bytes = db.encode();
    let back = decode(&bytes).unwrap_or_else(|_| panic!("round trip failed"));
    assert_eq!(back.get(&square()), Some(&"A".to_string()));
    assert_eq!(
        back.get(&outline(vec![vec![(3, 4), (1, 2)], vec![(5, 6)]])),
        Some(&"μ".to_string())
    );
    assert_eq!(back.get(&outline(vec![vec![(9, 9)]])), None);
    // the canonical encoding survives the trip byte for byte
    assert_eq!(back.encode(), bytes);
}

#[test]
fn codec_rejects_corrupt_streams() {
    // not a multiple of the word size
    assert!(decode(&vec![1u8, 2, 3]).is_err());
    // an empty stream has no entry count
    assert!(decode(&Vec::new()).is_err());
    // entry count with no entries behind it
    let mut bytes = vec![0u8; 8];
    bytes[0] = 2;
    assert!(decode(&bytes).is_err());
    // trailing garbage after a valid empty database
    let empty = ShapeDb::new().encode();
    let mut padded = empty.clone();
    padded.extend_from_slice(&[0u8; 8]);
    assert!(decode(&padded).is_err());
    assert_eq!(decode(&empty).unwrap_or_else(|_| panic!("empty db")).len(), 0);
}

#[test]
fn cmap_extraction_filters_surrogates() {
    let items = vec![(0x41u32, 7u32), (0xD800, 8), (0x1F600, 9)];
    let labels = use_cmap(&items);
    assert_eq!(labels.len(), 2);
    assert_eq!(labels[0], (7, "A".to_string()));
    assert_eq!(labels[1], (9, "😀".to_string()));
}

#[test]
fn name_map_extraction() {
    let items = vec![
        ("a".to_string(), 4u32),
        ("uni0041".to_string(), 5),
        ("uniXYZ".to_string(), 6),
        ("noSuchGlyphName".to_string(), 7),
        ("uni".to_string(), 8),
    ];
    let labels = use_name_map(&items);
    assert_eq!(labels.len(), 2);
    assert_eq!(labels[0], (4, "a".to_string()));
    assert_eq!(labels[1], (5, "A".to_string()));
}

#[test]
fn assignments_by_font_kind() {
    assert!(glyph_assignments(&FontKind::Cff).is_none());
    assert!(glyph_assignments(&FontKind::TrueType { cmap: None }).is_none());
    let tt = glyph_assignments(&FontKind::TrueType { cmap: Some(vec![(0x42, 1)]) });
    assert_eq!(tt.unwrap(), vec![(1, "B".to_string())]);
    // a non-empty name table wins over the character map
    let otf = glyph_assignments(&FontKind::OpenType {
        name_map: vec![("uni0043".to_string(), 2)],
        cmap: Some(vec![(0x44, 3)]),
    });
    assert_eq!(otf.unwrap(), vec![(2, "C".to_string())]);
    let otf2 = glyph_assignments(&FontKind::OpenType {
        name_map: Vec::new(),
        cmap: Some(vec![(0x44, 3)]),
    });
    assert_eq!(otf2.unwrap(), vec![(3, "D".to_string())]);
}

#[test]
fn classifier_skips_empty_outlines() {
    let mut db = ShapeDb::new();
    db.add_outline(&square(), "A".to_string());
    let glyphs = vec![
        None,
        Some(square()),
        Some(outline(vec![])),
        Some(outline(vec![vec![(88, 88)]])),
    ];
    let out = check_font(&db, &glyphs);
    assert_eq!(out, vec![(1, "A".to_string())]);
}

#[test]
fn cache_confirmed_absence() {
    let mut cache = FontDb::new();
    let name = "NoSuchFont".to_string();
    assert!(cache.lookup(&name).is_none());
    // the caller resolves the miss to a confirmed absence, once
    cache.insert(name.clone(), None);
    assert!(matches!(cache.lookup(&name), Some(None)));
    // later calls keep answering from the cache
    assert!(matches!(cache.lookup(&name), Some(None)));
}

#[test]
fn cache_holds_databases() {
    let mut cache = FontDb::new();
    let mut db = ShapeDb::new();
    db.add_outline(&square(), "A".to_string());
    cache.insert("SomeFont".to_string(), Some(db));
    match cache.lookup(&"SomeFont".to_string()) {
        Some(Some(found)) => assert_eq!(found.get(&square()), Some(&"A".to_string())),
        _ => panic!("expected a cached database"),
    }
    assert!(cache.lookup(&"OtherFont".to_string()).is_none());
}

#[test]
fn report_trace_contents() {
    let mut db = ShapeDb::new();
    db.add_outline(&outline(vec![vec![(0, 0), (9, 9)]]), "near".to_string());
    db.add_outline(
        &outline(vec![vec![(0, 0), (0, 100)], vec![(100, 100), (100, 0)]]),
        "two".to_string(),
    );
    db.add_outline(&square(), "A".to_string());
    let (result, trace) = db.get_report(&square());
    assert_eq!(result, Some(&"A".to_string()));
    // "two" shares all four points but has the wrong contour count; "A"
    // matches and the search stops there, never reaching "near"
    assert_eq!(trace.len(), 2);
    assert_eq!(trace[0].label, "two".to_string());
    assert_eq!(trace[0].hits, 4);
    assert_eq!(trace[0].verdict, Verdict::ContourCountMismatch { stored: 2, query: 1 });
    assert_eq!(trace[1].label, "A".to_string());
    assert_eq!(trace[1].hits, 4);
    assert_eq!(trace[1].verdict, Verdict::Matched);
}

#[test]
fn report_trace_deterministic() {
    let mut db = ShapeDb::new();
    db.add_outline(&outline(vec![vec![(0, 0), (9, 9)]]), "near".to_string());
    db.add_outline(&square(), "A".to_string());
    let probe = outline(vec![vec![(0, 0), (50, 50)]]);
    let (r1, t1) = db.get_report(&probe);
    let (r2, t2) = db.get_report(&probe);
    assert_eq!(r1, r2);
    assert_eq!(t1.len(), t2.len());
    for (a, b) in t1.iter().zip(t2.iter()) {
        assert_eq!(a.entry, b.entry);
        assert_eq!(a.hits, b.hits);
        assert_eq!(a.label, b.label);
        assert_eq!(a.verdict, b.verdict);
    }
    // both stored entries shared a point; neither matched
    assert_eq!(r1, None);
    assert_eq!(t1.len(), 2);
    assert!(matches!(t1[0].verdict, Verdict::SignatureMismatch));
}
