//! On-disk form of a ShapeDb: a stream of 64-bit little-endian words
//! holding the entry list (labels as Unicode scalars, signatures as packed
//! points). The inverted index is not stored: for a well-formed database it
//! is a function of the entries, and decoding rebuilds it by replaying the
//! insertions. Decoding validates everything and rejects non-canonical
//! streams, so a successful decode re-encodes to the very same bytes.

use vstd::prelude::*;
use crate::geom::{Contour, Outline};
use crate::db::{ShapeDb, EntryV};

verus! {

/// A database file that cannot be read back: a system-integrity failure,
/// to be surfaced, not treated as an absent database.
pub enum DecodeError {
    Malformed,
}

// ---------------------------------------------------------------------------
// Word-level encoding of the entry list
// ---------------------------------------------------------------------------

/// A quantized point packed into one word.
pub open spec fn point_word(p: (u16, u16)) -> u64 {
    (p.0 as u64 * 0x10000 + p.1 as u64) as u64
}

pub open spec fn enc_chars(s: Seq<char>) -> Seq<u64> {
    Seq::new(s.len(), |i: int| (s[i] as u32) as u64)
}

pub open spec fn enc_points(ps: Seq<(u16, u16)>) -> Seq<u64> {
    Seq::new(ps.len(), |i: int| point_word(ps[i]))
}

pub open spec fn enc_sigs(sigs: Seq<Seq<(u16, u16)>>) -> Seq<u64>
    decreases sigs.len(),
{
    if sigs.len() == 0 {
        Seq::empty()
    } else {
        enc_sigs(sigs.drop_last()) + seq![sigs.last().len() as u64] + enc_points(sigs.last())
    }
}

pub open spec fn enc_entry(e: EntryV) -> Seq<u64> {
    seq![e.label.len() as u64] + enc_chars(e.label) + seq![e.sigs.len() as u64] + enc_sigs(e.sigs)
}

pub open spec fn enc_entries(es: Seq<EntryV>) -> Seq<u64>
    decreases es.len(),
{
    if es.len() == 0 {
        Seq::empty()
    } else {
        enc_entries(es.drop_last()) + enc_entry(es.last())
    }
}

/// The whole stream: entry count, then the entries.
pub open spec fn enc_db_words(es: Seq<EntryV>) -> Seq<u64> {
    seq![es.len() as u64] + enc_entries(es)
}

// ---------------------------------------------------------------------------
// Words to bytes and back (little endian)
// ---------------------------------------------------------------------------

pub open spec fn byte_of_word(w: u64, k: int) -> u8 {
    ((w >> ((8 * k) as u64)) & 0xff) as u8
}

pub open spec fn words_to_bytes(ws: Seq<u64>) -> Seq<u8> {
    Seq::new(8 * ws.len(), |i: int| byte_of_word(ws[i / 8], i % 8))
}

pub open spec fn word_of_bytes(b: Seq<u8>) -> u64 {
    (b[0] as u64) | (b[1] as u64) << 8u64 | (b[2] as u64) << 16u64 | (b[3] as u64) << 24u64 | (
    b[4] as u64) << 32u64 | (b[5] as u64) << 40u64 | (b[6] as u64) << 48u64 | (b[7] as u64)
        << 56u64
}

pub open spec fn bytes_to_words(bs: Seq<u8>) -> Seq<u64> {
    Seq::new((bs.len() as int / 8) as nat, |i: int| word_of_bytes(bs.subrange(8 * i, 8 * i + 8)))
}

pub proof fn lemma_div8(i: int, k: int)
    by (nonlinear_arith)
    requires
        0 <= k < 8,
    ensures
        (8 * i + k) / 8 == i,
        (8 * i + k) % 8 == k,
{
}

proof fn lemma_word_bytes_roundtrip(w: u64)
    by (bit_vector)
    ensures
        ((((w >> 0u64) & 0xff) as u8) as u64) | ((((w >> 8u64) & 0xff) as u8) as u64) << 8u64 | ((((
        w >> 16u64) & 0xff) as u8) as u64) << 16u64 | ((((w >> 24u64) & 0xff) as u8) as u64)
            << 24u64 | ((((w >> 32u64) & 0xff) as u8) as u64) << 32u64 | ((((w >> 40u64)
            & 0xff) as u8) as u64) << 40u64 | ((((w >> 48u64) & 0xff) as u8) as u64) << 48u64 | ((((
        w >> 56u64) & 0xff) as u8) as u64) << 56u64 == w,
{
}

/// Bytes written from words read back as the same words.
pub proof fn lemma_words_bytes_roundtrip(ws: Seq<u64>)
    ensures
        words_to_bytes(ws).len() == 8 * ws.len(),
        bytes_to_words(words_to_bytes(ws)) == ws,
{
    let bs = words_to_bytes(ws);
    assert forall|i: int| 0 <= i < ws.len() implies bytes_to_words(bs)[i] == ws[i] by {
        let w = ws[i];
        let sub = bs.subrange(8 * i, 8 * i + 8);
        assert forall|k: int| 0 <= k < 8 implies sub[k] == byte_of_word(w, k) by {
            lemma_div8(i, k);
            assert(bs[8 * i + k] == byte_of_word(ws[(8 * i + k) / 8], (8 * i + k) % 8));
        }
        assert(sub[0] == byte_of_word(w, 0) && sub[1] == byte_of_word(w, 1) && sub[2]
            == byte_of_word(w, 2) && sub[3] == byte_of_word(w, 3) && sub[4] == byte_of_word(w, 4)
            && sub[5] == byte_of_word(w, 5) && sub[6] == byte_of_word(w, 6) && sub[7]
            == byte_of_word(w, 7));
        lemma_word_bytes_roundtrip(w);
        assert((8 * 0) as u64 == 0u64 && (8 * 1) as u64 == 8u64 && (8 * 2) as u64 == 16u64 && (8
            * 3) as u64 == 24u64 && (8 * 4) as u64 == 32u64 && (8 * 5) as u64 == 40u64 && (8
            * 6) as u64 == 48u64 && (8 * 7) as u64 == 56u64);
        assert(word_of_bytes(sub) == w);
    }
    assert(bytes_to_words(bs) =~= ws);
}

// ---------------------------------------------------------------------------
// Word-level parser: the inverse of the encoding, validating as it goes
// ---------------------------------------------------------------------------

/// A word holding a Unicode scalar value.
pub open spec fn valid_char_word(w: u64) -> bool {
    w < 0x110000 && !(0xD800 <= w <= 0xDFFF)
}

pub open spec fn char_of_word(w: u64) -> char {
    (w as u32) as char
}

pub open spec fn p_chars(ws: Seq<u64>, cnt: nat) -> Option<(Seq<char>, Seq<u64>)>
    decreases cnt,
{
    if cnt == 0 {
        Some((Seq::empty(), ws))
    } else if ws.len() == 0 || !valid_char_word(ws[0]) {
        None
    } else {
        match p_chars(ws.drop_first(), (cnt - 1) as nat) {
            Some((s, rest)) => Some((seq![char_of_word(ws[0])] + s, rest)),
            None => None,
        }
    }
}

/// A word holding a packed point.
pub open spec fn valid_point_word(w: u64) -> bool {
    w < 0x100000000
}

pub open spec fn point_of_word(w: u64) -> (u16, u16) {
    ((w / 0x10000) as u16, (w % 0x10000) as u16)
}

pub open spec fn p_points(ws: Seq<u64>, cnt: nat) -> Option<(Seq<(u16, u16)>, Seq<u64>)>
    decreases cnt,
{
    if cnt == 0 {
        Some((Seq::empty(), ws))
    } else if ws.len() == 0 || !valid_point_word(ws[0]) {
        None
    } else {
        match p_points(ws.drop_first(), (cnt - 1) as nat) {
            Some((ps, rest)) => Some((seq![point_of_word(ws[0])] + ps, rest)),
            None => None,
        }
    }
}

pub open spec fn p_sigs(ws: Seq<u64>, cnt: nat) -> Option<(Seq<Seq<(u16, u16)>>, Seq<u64>)>
    decreases cnt,
{
    if cnt == 0 {
        Some((Seq::empty(), ws))
    } else if ws.len() == 0 {
        None
    } else {
        match p_points(ws.drop_first(), ws[0] as nat) {
            Some((ps, rest)) => if ps.no_duplicates() {
                match p_sigs(rest, (cnt - 1) as nat) {
                    Some((sigs, rest2)) => Some((seq![ps] + sigs, rest2)),
                    None => None,
                }
            } else {
                None
            },
            None => None,
        }
    }
}

pub open spec fn p_entry(ws: Seq<u64>) -> Option<(EntryV, Seq<u64>)> {
    if ws.len() == 0 {
        None
    } else {
        match p_chars(ws.drop_first(), ws[0] as nat) {
            Some((lbl, rest)) => if rest.len() == 0 {
                None
            } else {
                match p_sigs(rest.drop_first(), rest[0] as nat) {
                    Some((sigs, rest2)) => Some((EntryV { label: lbl, sigs }, rest2)),
                    None => None,
                }
            },
            None => None,
        }
    }
}

pub open spec fn p_entries(ws: Seq<u64>, cnt: nat) -> Option<(Seq<EntryV>, Seq<u64>)>
    decreases cnt,
{
    if cnt == 0 {
        Some((Seq::empty(), ws))
    } else {
        match p_entry(ws) {
            Some((e, rest)) => match p_entries(rest, (cnt - 1) as nat) {
                Some((es, rest2)) => Some((seq![e] + es, rest2)),
                None => None,
            },
            None => None,
        }
    }
}

/// Parse a whole stream: entry count, entries, nothing left over.
pub open spec fn p_db(ws: Seq<u64>) -> Option<Seq<EntryV>> {
    if ws.len() == 0 {
        None
    } else {
        match p_entries(ws.drop_first(), ws[0] as nat) {
            Some((es, rest)) => if rest.len() == 0 && es.len() as u64 == ws[0] {
                Some(es)
            } else {
                None
            },
            None => None,
        }
    }
}

/// What a database file means: a list of entries, or nothing when the bytes
/// are not the canonical encoding of any entry list.
pub open spec fn decode_spec(bs: Seq<u8>) -> Option<Seq<EntryV>> {
    if bs.len() % 8 != 0 {
        None
    } else {
        p_db(bytes_to_words(bs))
    }
}

// ---------------------------------------------------------------------------
// Round trip: parsing an encoding yields the encoded value
// ---------------------------------------------------------------------------

proof fn lemma_rt_chars(s: Seq<char>, rest: Seq<u64>)
    requires
        s.len() < 0x10000000000000000,
    ensures
        p_chars(enc_chars(s) + rest, s.len()) == Some((s, rest)),
    decreases s.len(),
{
    if s.len() == 0 {
        assert(enc_chars(s) + rest =~= rest);
    } else {
        let ws = enc_chars(s) + rest;
        let c = s[0];
        assert(ws[0] == (c as u32) as u64);
        vstd::utf8::char_is_scalar(c);
        assert(vstd::utf8::is_scalar(c as u32));
        assert(valid_char_word((c as u32) as u64));
        assert(char_of_word((c as u32) as u64) == c) by {
            let u = c as u32;
            assert((u as u64) as u32 == u) by (bit_vector);
            vstd::utf8::char_u32_cast(c, c as u32);
        }
        lemma_rt_chars(s.drop_first(), rest);
        assert(ws.drop_first() =~= enc_chars(s.drop_first()) + rest);
        assert(seq![char_of_word(ws[0])] + s.drop_first() =~= s);
    }
}

proof fn lemma_point_word_valid(p: (u16, u16))
    by (nonlinear_arith)
    ensures
        valid_point_word(point_word(p)),
        point_of_word(point_word(p)) == p,
{
    let w = point_word(p);
    assert(w == p.0 as u64 * 0x10000 + p.1 as u64);
    assert(w / 0x10000 == p.0 as u64);
    assert(w % 0x10000 == p.1 as u64);
}

proof fn lemma_rt_points(ps: Seq<(u16, u16)>, rest: Seq<u64>)
    requires
        ps.len() < 0x10000000000000000,
    ensures
        p_points(enc_points(ps) + rest, ps.len()) == Some((ps, rest)),
    decreases ps.len(),
{
    if ps.len() == 0 {
        assert(enc_points(ps) + rest =~= rest);
    } else {
        let ws = enc_points(ps) + rest;
        assert(ws[0] == point_word(ps[0]));
        lemma_point_word_valid(ps[0]);
        lemma_rt_points(ps.drop_first(), rest);
        assert(ws.drop_first() =~= enc_points(ps.drop_first()) + rest);
        assert(seq![point_of_word(ws[0])] + ps.drop_first() =~= ps);
    }
}

/// Head decomposition of the tail-built signature encoding.
proof fn lemma_enc_sigs_first(sigs: Seq<Seq<(u16, u16)>>)
    requires
        sigs.len() > 0,
    ensures
        enc_sigs(sigs) == seq![sigs[0].len() as u64] + enc_points(sigs[0]) + enc_sigs(
            sigs.drop_first(),
        ),
    decreases sigs.len(),
{
    if sigs.len() == 1 {
        assert(sigs.drop_last() =~= Seq::<Seq<(u16, u16)>>::empty());
        assert(sigs.drop_first() =~= Seq::<Seq<(u16, u16)>>::empty());
        assert(sigs.last() == sigs[0]);
        assert(enc_sigs(sigs) =~= seq![sigs[0].len() as u64] + enc_points(sigs[0]) + enc_sigs(
            sigs.drop_first(),
        ));
    } else {
        lemma_enc_sigs_first(sigs.drop_last());
        assert(sigs.drop_last()[0] == sigs[0]);
        assert(sigs.drop_last().drop_first() =~= sigs.drop_first().drop_last());
        assert(sigs.drop_first().last() == sigs.last());
        assert(enc_sigs(sigs) =~= seq![sigs[0].len() as u64] + enc_points(sigs[0]) + enc_sigs(
            sigs.drop_first(),
        ));
    }
}

proof fn lemma_enc_entries_first(es: Seq<EntryV>)
    requires
        es.len() > 0,
    ensures
        enc_entries(es) == enc_entry(es[0]) + enc_entries(es.drop_first()),
    decreases es.len(),
{
    if es.len() == 1 {
        assert(es.drop_last() =~= Seq::<EntryV>::empty());
        assert(es.drop_first() =~= Seq::<EntryV>::empty());
        assert(enc_entries(es) =~= enc_entry(es[0]) + enc_entries(es.drop_first()));
    } else {
        lemma_enc_entries_first(es.drop_last());
        assert(es.drop_last()[0] == es[0]);
        assert(es.drop_last().drop_first() =~= es.drop_first().drop_last());
        assert(es.drop_first().last() == es.last());
        assert(enc_entries(es) =~= enc_entry(es[0]) + enc_entries(es.drop_first()));
    }
}

/// Whether every signature of every entry is duplicate-free, as insertion
/// builds them; the canonical on-disk form requires it.
pub open spec fn sigs_dedup(es: Seq<EntryV>) -> bool {
    forall|e: int, i: int|
        0 <= e < es.len() && 0 <= i < es[e].sigs.len() ==> (#[trigger] es[e].sigs[i]).no_duplicates()
}

pub open spec fn db_bounded(es: Seq<EntryV>) -> bool {
    &&& es.len() < 0x10000000000000000
    &&& forall|e: int|
        0 <= e < es.len() ==> (#[trigger] es[e]).label.len() < 0x10000000000000000 && es[e].sigs.len()
            < 0x10000000000000000 && (forall|i: int|
            0 <= i < es[e].sigs.len() ==> (#[trigger] es[e].sigs[i]).len() < 0x10000000000000000)
}

proof fn lemma_rt_sigs(sigs: Seq<Seq<(u16, u16)>>, rest: Seq<u64>)
    requires
        sigs.len() < 0x10000000000000000,
        forall|i: int| 0 <= i < sigs.len() ==> (#[trigger] sigs[i]).len() < 0x10000000000000000,
        forall|i: int| 0 <= i < sigs.len() ==> (#[trigger] sigs[i]).no_duplicates(),
    ensures
        p_sigs(enc_sigs(sigs) + rest, sigs.len()) == Some((sigs, rest)),
    decreases sigs.len(),
{
    if sigs.len() == 0 {
        assert(enc_sigs(sigs) + rest =~= rest);
    } else {
        lemma_enc_sigs_first(sigs);
        let ws = enc_sigs(sigs) + rest;
        assert(ws =~= seq![sigs[0].len() as u64] + enc_points(sigs[0]) + (enc_sigs(
            sigs.drop_first(),
        ) + rest));
        assert(ws[0] == sigs[0].len() as u64);
        assert(ws.drop_first() =~= enc_points(sigs[0]) + (enc_sigs(sigs.drop_first()) + rest));
        lemma_rt_points(sigs[0], enc_sigs(sigs.drop_first()) + rest);
        assert(ws[0] as nat == sigs[0].len());
        lemma_rt_sigs(sigs.drop_first(), rest);
        assert(seq![sigs[0]] + sigs.drop_first() =~= sigs);
    }
}

proof fn lemma_rt_entry(e: EntryV, rest: Seq<u64>)
    requires
        e.label.len() < 0x10000000000000000,
        e.sigs.len() < 0x10000000000000000,
        forall|i: int| 0 <= i < e.sigs.len() ==> (#[trigger] e.sigs[i]).len() < 0x10000000000000000,
        forall|i: int| 0 <= i < e.sigs.len() ==> (#[trigger] e.sigs[i]).no_duplicates(),
    ensures
        p_entry(enc_entry(e) + rest) == Some((e, rest)),
{
    let ws = enc_entry(e) + rest;
    assert(ws =~= seq![e.label.len() as u64] + (enc_chars(e.label) + (seq![e.sigs.len() as u64]
        + (enc_sigs(e.sigs) + rest))));
    assert(ws[0] == e.label.len() as u64);
    assert(ws.drop_first() =~= enc_chars(e.label) + (seq![e.sigs.len() as u64] + (enc_sigs(e.sigs)
        + rest)));
    lemma_rt_chars(e.label, seq![e.sigs.len() as u64] + (enc_sigs(e.sigs) + rest));
    let rest1 = seq![e.sigs.len() as u64] + (enc_sigs(e.sigs) + rest);
    assert(rest1[0] == e.sigs.len() as u64);
    assert(rest1.len() > 0);
    assert(rest1.drop_first() =~= enc_sigs(e.sigs) + rest);
    lemma_rt_sigs(e.sigs, rest);
    assert(p_entry(ws) == Some((EntryV { label: e.label, sigs: e.sigs }, rest)));
    assert(EntryV { label: e.label, sigs: e.sigs } == e);
}

proof fn lemma_rt_entries(es: Seq<EntryV>, rest: Seq<u64>)
    requires
        es.len() < 0x10000000000000000,
        db_bounded(es),
        sigs_dedup(es),
    ensures
        p_entries(enc_entries(es) + rest, es.len()) == Some((es, rest)),
    decreases es.len(),
{
    if es.len() == 0 {
        assert(enc_entries(es) + rest =~= rest);
    } else {
        lemma_enc_entries_first(es);
        let ws = enc_entries(es) + rest;
        assert(ws =~= enc_entry(es[0]) + (enc_entries(es.drop_first()) + rest));
        lemma_rt_entry(es[0], enc_entries(es.drop_first()) + rest);
        assert(db_bounded(es.drop_first()) && sigs_dedup(es.drop_first())) by {
            assert forall|e: int, i: int|
                0 <= e < es.drop_first().len() && 0 <= i < es.drop_first()[e].sigs.len() implies (
            #[trigger] es.drop_first()[e].sigs[i]).no_duplicates() by {
                assert(es.drop_first()[e] == es[e + 1]);
            }
            assert forall|e: int| 0 <= e < es.drop_first().len() implies (#[trigger] es.drop_first()[e]).label.len()
                < 0x10000000000000000 && es.drop_first()[e].sigs.len() < 0x10000000000000000 && (
            forall|i: int|
                0 <= i < es.drop_first()[e].sigs.len() ==> (#[trigger] es.drop_first()[e].sigs[i]).len()
                    < 0x10000000000000000) by {
                assert(es.drop_first()[e] == es[e + 1]);
            }
        }
        lemma_rt_entries(es.drop_first(), rest);
        assert(seq![es[0]] + es.drop_first() =~= es);
    }
}

/// Round trip: the canonical encoding of any entry list parses back to
/// exactly that list. With the decoder's contract this makes serialize
/// followed by deserialize the identity on databases, hence on every
/// query's result.
pub proof fn lemma_encode_decode(es: Seq<EntryV>)
    requires
        db_bounded(es),
        sigs_dedup(es),
    ensures
        decode_spec(words_to_bytes(enc_db_words(es))) == Some(es),
{
    let ws = enc_db_words(es);
    lemma_words_bytes_roundtrip(ws);
    let bs = words_to_bytes(ws);
    assert(bs.len() % 8 == 0) by {
        assert(bs.len() == 8 * ws.len());
        assert(8 * ws.len() % 8 == 0) by (nonlinear_arith);
    }
    assert(ws[0] == es.len() as u64);
    assert(ws.drop_first() =~= enc_entries(es) + Seq::<u64>::empty());
    lemma_rt_entries(es, Seq::empty());
    assert(p_db(ws) == Some(es));
}

} // verus!
