//! Reference extraction: deriving (glyph id, label) assignments from a
//! font's name table or character map, in that priority order. The font
//! format itself is parsed elsewhere; this module consumes the plain
//! values read out of it.

use vstd::prelude::*;

verus! {

/// What a reference font exposes for labelling, by format: a TrueType
/// font's character map, nothing usable from a bare CFF font, an OpenType
/// font's glyph-name table and/or character map. Character maps list
/// (code point, glyph id) pairs; name maps list (glyph name, glyph id).
pub enum FontKind {
    TrueType { cmap: Option<Vec<(u32, u32)>> },
    Cff,
    OpenType { name_map: Vec<(String, u32)>, cmap: Option<Vec<(u32, u32)>> },
}

/// What pdf_encoding's glyphname_to_unicode returns for a glyph name: a
/// fixed table lookup, a function of the name alone.
pub uninterp spec fn glyph_name_lookup(name: Seq<char>) -> Option<Seq<char>>;

/// Relies on pdf_encoding::glyphname_to_unicode: the Unicode string a
/// glyph name stands for in the Adobe glyph list, if listed.
#[verifier::external_body]
fn lookup_glyph_name(name: &str) -> (r: Option<String>)
    ensures
        r is Some <==> glyph_name_lookup(name@) is Some,
        r matches Some(s) ==> glyph_name_lookup(name@) == Some(s@),
{
    pdf_encoding::glyphname_to_unicode(name).map(|s| s.to_string())
}

/// Relies on char::from_u32 of std: the char of a Unicode scalar value,
/// nothing for surrogates or values past the Unicode range.
#[verifier::external_body]
pub(crate) fn char_from_u32(v: u32) -> (r: Option<char>)
    ensures
        r matches Some(c) ==> c as u32 == v,
        r is Some <==> vstd::utf8::is_scalar(v),
{
    char::from_u32(v)
}

/// Relies on char::to_string of std: the string holding exactly that one
/// character.
#[verifier::external_body]
pub(crate) fn char_to_string(c: char) -> (r: String)
    ensures
        r@ == seq![c],
{
    c.to_string()
}

/// The value of one hexadecimal digit, either case.
pub open spec fn hex_digit_val(c: char) -> Option<u32> {
    if '0' as u32 <= c as u32 <= '9' as u32 {
        Some((c as u32 - '0' as u32) as u32)
    } else if 'a' as u32 <= c as u32 <= 'f' as u32 {
        Some((c as u32 - 'a' as u32 + 10) as u32)
    } else if 'A' as u32 <= c as u32 <= 'F' as u32 {
        Some((c as u32 - 'A' as u32 + 10) as u32)
    } else {
        None
    }
}

pub open spec fn all_hex(s: Seq<char>) -> bool {
    forall|i: int| 0 <= i < s.len() ==> (#[trigger] hex_digit_val(s[i])) is Some
}

/// The numeric value of a hexadecimal digit string.
pub open spec fn hex_val_of(s: Seq<char>) -> nat
    decreases s.len(),
{
    if s.len() == 0 {
        0
    } else {
        16 * hex_val_of(s.drop_last()) + (match hex_digit_val(s.last()) {
            Some(d) => d as nat,
            None => 0,
        })
    }
}

proof fn lemma_hex_prefix_le(s: Seq<char>, j: int)
    requires
        0 <= j <= s.len(),
    ensures
        hex_val_of(s.take(j)) <= hex_val_of(s),
    decreases s.len() - j,
{
    if j == s.len() {
        assert(s.take(j) =~= s);
    } else {
        lemma_hex_prefix_le(s, j + 1);
        let t1 = s.take(j + 1);
        assert(t1.drop_last() =~= s.take(j));
        assert(hex_val_of(s.take(j)) <= 16 * hex_val_of(s.take(j)));
        assert(hex_val_of(s.take(j)) <= hex_val_of(t1));
    }
}

/// The label a `uniXXXX`-style glyph name stands for: the scalar named by
/// the hex digits after the prefix, where they are hex, in range, and name
/// a Unicode scalar value.
pub open spec fn uni_name_label(s: Seq<char>) -> Option<char> {
    if s.len() > 3 && s[0] == 'u' && s[1] == 'n' && s[2] == 'i' {
        let hex = s.skip(3);
        if all_hex(hex) && hex_val_of(hex) <= u32::MAX && vstd::utf8::is_scalar(
            hex_val_of(hex) as u32,
        ) {
            Some((hex_val_of(hex) as u32) as char)
        } else {
            None
        }
    } else {
        None
    }
}

/// The label assignments a character map yields: each listed code point
/// that is a Unicode scalar labels its glyph id with that one character,
/// in map order; other code points are dropped.
pub open spec fn cmap_labels(items: Seq<(u32, u32)>) -> Seq<(u32, Seq<char>)>
    decreases items.len(),
{
    if items.len() == 0 {
        Seq::empty()
    } else {
        let rest = cmap_labels(items.drop_last());
        let uni = items.last().0;
        let gid = items.last().1;
        if vstd::utf8::is_scalar(uni) {
            rest + seq![(gid, seq![uni as char])]
        } else {
            rest
        }
    }
}

/// The label assignments a glyph-name table yields: per name, the Adobe
/// glyph list entry if any, else the `uniXXXX` reading if it parses;
/// unresolvable names are skipped, in table order.
pub open spec fn name_labels(items: Seq<(Seq<char>, u32)>) -> Seq<(u32, Seq<char>)>
    decreases items.len(),
{
    if items.len() == 0 {
        Seq::empty()
    } else {
        let rest = name_labels(items.drop_last());
        let name = items.last().0;
        let gid = items.last().1;
        match glyph_name_lookup(name) {
            Some(s) => rest + seq![(gid, s)],
            None => match uni_name_label(name) {
                Some(c) => rest + seq![(gid, seq![c])],
                None => rest,
            },
        }
    }
}

/// Whether an assignment list matches its specification, label for label.
pub open spec fn labels_match(actual: Seq<(u32, String)>, expected: Seq<(u32, Seq<char>)>) -> bool {
    actual.len() == expected.len() && forall|i: int|
        0 <= i < actual.len() ==> (#[trigger] actual[i]).0 == expected[i].0 && actual[i].1@
            == expected[i].1
}

/// Labels from a character map: each scalar code point labels its glyph.
pub fn use_cmap(items: &Vec<(u32, u32)>) -> (r: Vec<(u32, String)>)
    ensures
        labels_match(r@, cmap_labels(items@)),
{
    let mut r: Vec<(u32, String)> = Vec::new();
    let n = items.len();
    for i in 0..n
        invariant
            n == items@.len(),
            labels_match(r@, cmap_labels(items@.take(i as int))),
    {
        let (uni, gid) = items[i];
        let ghost pre = cmap_labels(items@.take(i as int));
        proof {
            let t1 = items@.take(i + 1);
            assert(t1.drop_last() =~= items@.take(i as int));
            assert(t1.last() == items@[i as int]);
        }
        match char_from_u32(uni) {
            Some(c) => {
                let s = char_to_string(c);
                r.push((gid, s));
                proof {
                    assert(cmap_labels(items@.take(i + 1)) =~= pre.push((gid, seq![uni as char])));
                    assert(c as u32 == uni);
                    vstd::utf8::char_u32_cast(c, uni);
                    assert(uni as char == c);
                }
            },
            None => {
                proof {
                    assert(cmap_labels(items@.take(i + 1)) == pre);
                }
            },
        }
    }
    proof {
        assert(items@.take(n as int) =~= items@);
    }
    r
}

/// The `uniXXXX` reading of a glyph name, if it has one.
fn parse_uni_name(name: &str) -> (r: Option<char>)
    ensures
        r == uni_name_label(name@),
{
    let n = name.unicode_len();
    if n <= 3 {
        return None;
    }
    if !(name.get_char(0) == 'u' && name.get_char(1) == 'n' && name.get_char(2) == 'i') {
        return None;
    }
    let ghost hex = name@.skip(3);
    let mut acc: u32 = 0;
    let mut j: usize = 3;
    while j < n
        invariant
            n == name@.len(),
            n > 3,
            hex == name@.skip(3),
            3 <= j <= n,
            all_hex(hex.take(j - 3)),
            acc == hex_val_of(hex.take(j - 3)),
        decreases n - j,
    {
        let c = name.get_char(j);
        proof {
            assert(hex[j - 3] == name@[j as int]);
        }
        let d: u32 = if '0' <= c && c <= '9' {
            c as u32 - '0' as u32
        } else if 'a' <= c && c <= 'f' {
            c as u32 - 'a' as u32 + 10
        } else if 'A' <= c && c <= 'F' {
            c as u32 - 'A' as u32 + 10
        } else {
            proof {
                assert(hex_digit_val(hex[j - 3]) is None);
                assert(!all_hex(hex));
            }
            return None;
        };
        proof {
            assert(hex_digit_val(hex[j - 3]) == Some(d));
        }
        if acc > 0x0fff_ffff {
            proof {
                let t1 = hex.take(j - 3 + 1);
                assert(t1.drop_last() =~= hex.take(j - 3));
                assert(t1.last() == hex[j - 3]);
                assert(hex_val_of(t1) >= 16 * hex_val_of(hex.take(j - 3)));
                lemma_hex_prefix_le(hex, j - 3 + 1);
                assert(hex_val_of(hex) > u32::MAX);
            }
            return None;
        }
        let ghost accg = acc;
        acc = acc * 16 + d;
        j += 1;
        proof {
            let t1 = hex.take(j - 3);
            assert(t1.drop_last() =~= hex.take(j - 4));
            assert(t1.last() == hex[j - 4]);
            assert forall|i2: int| 0 <= i2 < t1.len() implies (#[trigger] hex_digit_val(t1[i2]))
                is Some by {
                assert(t1[i2] == hex.take(j - 4)[i2] || t1[i2] == hex[j - 4]);
            }
        }
    }
    proof {
        assert(hex.take(n - 3) =~= hex);
    }
    if acc > 0xd7ff && acc < 0xe000 {
        proof {
            assert(!vstd::utf8::is_scalar(acc));
        }
        return None;
    }
    if acc > 0x10ffff {
        return None;
    }
    match char_from_u32(acc) {
        Some(c) => {
            proof {
                assert(c as u32 == acc);
                vstd::utf8::char_u32_cast(c, acc);
            }
            Some(c)
        },
        None => {
            proof {
                assert(vstd::utf8::is_scalar(acc));
                assert(false);
            }
            None
        },
    }
}

/// Labels from a glyph-name table: the Adobe glyph list first, then the
/// `uniXXXX` pattern; unresolvable names are skipped.
pub fn use_name_map(items: &Vec<(String, u32)>) -> (r: Vec<(u32, String)>)
    ensures
        labels_match(r@, name_labels(items@.map_values(|it: (String, u32)| (it.0@, it.1)))),
{
    let ghost sv = items@.map_values(|it: (String, u32)| (it.0@, it.1));
    let mut r: Vec<(u32, String)> = Vec::new();
    let n = items.len();
    for i in 0..n
        invariant
            n == items@.len(),
            sv == items@.map_values(|it: (String, u32)| (it.0@, it.1)),
            labels_match(r@, name_labels(sv.take(i as int))),
    {
        let name = &items[i].0;
        let gid = items[i].1;
        let ghost pre = name_labels(sv.take(i as int));
        proof {
            let t1 = sv.take(i + 1);
            assert(t1.drop_last() =~= sv.take(i as int));
            assert(t1.last() == sv[i as int]);
            assert(sv[i as int] == (items@[i as int].0@, items@[i as int].1));
        }
        match lookup_glyph_name(name.as_str()) {
            Some(s) => {
                r.push((gid, s));
                proof {
                    assert(name_labels(sv.take(i + 1)) =~= pre.push(
                        (gid, glyph_name_lookup(name@)->Some_0),
                    ));
                }
            },
            None => {
                match parse_uni_name(name.as_str()) {
                    Some(c) => {
                        let s = char_to_string(c);
                        r.push((gid, s));
                        proof {
                            assert(name_labels(sv.take(i + 1)) =~= pre.push(
                                (gid, seq![uni_name_label(name@)->Some_0]),
                            ));
                        }
                    },
                    None => {
                        proof {
                            assert(name_labels(sv.take(i + 1)) == pre);
                        }
                    },
                }
            },
        }
    }
    proof {
        assert(sv.take(n as int) =~= sv);
    }
    r
}

/// What a font kind yields for extraction: assignments from the name table
/// where it is non-empty, else from the character map, else nothing; a
/// bare CFF font yields nothing.
pub open spec fn kind_labels(kind: FontKind) -> Option<Seq<(u32, Seq<char>)>> {
    match kind {
        FontKind::TrueType { cmap } => match cmap {
            Some(items) => Some(cmap_labels(items@)),
            None => None,
        },
        FontKind::Cff => None,
        FontKind::OpenType { name_map, cmap } => if name_map@.len() > 0 {
            Some(name_labels(name_map@.map_values(|it: (String, u32)| (it.0@, it.1))))
        } else {
            match cmap {
                Some(items) => Some(cmap_labels(items@)),
                None => None,
            }
        },
    }
}

/// Derive the (glyph id, label) assignments a reference font offers, or
/// nothing when it exposes no usable mapping source.
pub fn glyph_assignments(kind: &FontKind) -> (r: Option<Vec<(u32, String)>>)
    ensures
        match r {
            Some(v) => kind_labels(*kind) matches Some(exp) && labels_match(v@, exp),
            None => kind_labels(*kind) is None,
        },
{
    match kind {
        FontKind::TrueType { cmap } => match cmap {
            Some(items) => Some(use_cmap(items)),
            None => None,
        },
        FontKind::Cff => None,
        FontKind::OpenType { name_map, cmap } => {
            if name_map.len() > 0 {
                Some(use_name_map(name_map))
            } else {
                match cmap {
                    Some(items) => Some(use_cmap(items)),
                    None => None,
                }
            }
        },
    }
}

} // verus!
