use vstd::prelude::*;
use owned_ttf_parser::AsFaceRef;
use crate::num::VAL_BOUND;

verus! {

broadcast use vstd::std_specs::vec::group_vec_axioms, vstd::seq::group_seq_axioms;

// Text is measured with real font metrics: per-character horizontal advances
// in font units, summed and scaled by the requested size and an empirical
// per-font correction, over the face's line height (ascender minus
// descender), matching the scaling model of common glyph layout engines.

/// Cap on the summed advance in font units.
pub const SUM_CAP: u64 = 1_000_000_000_000;

/// Cap on a computed width, in thousandths of a unit.
pub const WIDTH_CAP: i64 = 1_000_000_000_000_000;

/// Scale correction for the bundled font, in millionths: compensates for the
/// mismatch between nominal size and the font's internal unit scale.
pub const SCALE_CORRECTION_PPM: u64 = 1_361_817;

#[verifier::external_type_specification]
#[verifier::external_body]
pub struct ExOwnedFace(owned_ttf_parser::OwnedFace);

/// The characters a byte string decodes to; they depend on the bytes alone.
pub uninterp spec fn chars_of(s: Seq<u8>) -> Seq<char>;

/// The face a byte string parses to, if any; parsing reads the bytes alone.
pub uninterp spec fn parsed_face(data: Seq<u8>) -> Option<owned_ttf_parser::OwnedFace>;

/// A face's typographic ascender in font units: a read of its tables.
pub uninterp spec fn ascender_of(face: owned_ttf_parser::OwnedFace) -> i16;

/// A face's typographic descender in font units: a read of its tables.
pub uninterp spec fn descender_of(face: owned_ttf_parser::OwnedFace) -> i16;

/// The glyph a character maps to in a face: a lookup in the face's character
/// map, a function of the face and the character alone.
pub uninterp spec fn glyph_id_of(face: owned_ttf_parser::OwnedFace, c: char) -> u16;

/// A glyph's horizontal advance in a face, in font units: a lookup in the
/// face's metrics tables, a function of the face and the glyph alone.
pub uninterp spec fn advance_of(face: owned_ttf_parser::OwnedFace, id: u16) -> u16;

/// The advance run a face yields for a byte string: one advance for each
/// decoded character's glyph.
pub open spec fn advances_of(face: owned_ttf_parser::OwnedFace, text: Seq<u8>) -> Seq<u16> {
    Seq::new(
        chars_of(text).len(),
        |i: int| advance_of(face, glyph_id_of(face, chars_of(text)[i])),
    )
}

/// Relies on alloc's String::from_utf8_lossy: decodes the bytes to their
/// characters, a function of the bytes alone; no bytes give no characters,
/// and each character consumes at least one byte.
#[verifier::external_body]
fn text_chars(t: &[u8]) -> (r: Vec<char>)
    ensures
        r@ == chars_of(t@),
        t@.len() == 0 ==> r@.len() == 0,
        r@.len() <= t@.len(),
{
    String::from_utf8_lossy(t).chars().collect()
}

/// Relies on owned_ttf_parser's OwnedFace::from_vec: parses a font face from
/// its raw bytes, or fails; a pure function of the bytes.
#[verifier::external_body]
fn face_from_vec(data: Vec<u8>) -> (r: Option<owned_ttf_parser::OwnedFace>)
    ensures
        r == parsed_face(data@),
{
    owned_ttf_parser::OwnedFace::from_vec(data, 0).ok()
}

/// Relies on ttf-parser's Face::ascender: the face's typographic ascender in
/// font units, a pure table read of the immutable face.
#[verifier::external_body]
fn face_ascender(face: &owned_ttf_parser::OwnedFace) -> (r: i16)
    ensures
        r == ascender_of(*face),
{
    face.as_face_ref().ascender()
}

/// Relies on ttf-parser's Face::descender: the face's typographic descender
/// in font units, a pure table read of the immutable face.
#[verifier::external_body]
fn face_descender(face: &owned_ttf_parser::OwnedFace) -> (r: i16)
    ensures
        r == descender_of(*face),
{
    face.as_face_ref().descender()
}

/// Relies on ttf-parser's Face::glyph_index: the glyph a character maps to,
/// or the missing-glyph id 0 when the face has none; a pure lookup in the
/// immutable face, so a function of face and character.
#[verifier::external_body]
fn glyph_id(face: &owned_ttf_parser::OwnedFace, c: char) -> (r: u16)
    ensures
        r == glyph_id_of(*face, c),
{
    face.as_face_ref().glyph_index(c).map(|g| g.0).unwrap_or(0)
}

/// Relies on ttf-parser's Face::glyph_hor_advance: the glyph's horizontal
/// advance in font units, or 0 when the face records none; a pure lookup in
/// the immutable face, so a function of face and glyph.
#[verifier::external_body]
fn glyph_advance(face: &owned_ttf_parser::OwnedFace, id: u16) -> (r: u16)
    ensures
        r == advance_of(*face, id),
{
    face.as_face_ref().glyph_hor_advance(owned_ttf_parser::GlyphId(id)).unwrap_or(0)
}

/// A loaded font face with its line height and scale correction: the
/// measurement context, immutable once built.
pub struct FontMetrics {
    pub face: owned_ttf_parser::OwnedFace,
    /// ascender minus descender, in font units
    pub line_units: u32,
    /// scale correction in millionths
    pub scale_ppm: u64,
}

impl FontMetrics {
    pub open spec fn wf(&self) -> bool {
        1 <= self.line_units <= 100_000 && 1 <= self.scale_ppm <= 100_000_000
    }

    /// Loads a font face and fixes its scale correction. Succeeds exactly
    /// when the bytes parse as a face whose ascender exceeds its descender.
    pub fn new(data: Vec<u8>, scale_ppm: u64) -> (r: Option<FontMetrics>)
        requires
            1 <= scale_ppm <= 100_000_000,
        ensures
            match r {
                Some(fm) => fm.wf() && fm.scale_ppm == scale_ppm && parsed_face(data@) == Some(
                    fm.face,
                ) && ascender_of(fm.face) > descender_of(fm.face) && fm.line_units == ascender_of(
                    fm.face,
                ) - descender_of(fm.face),
                None => parsed_face(data@) is None || ascender_of(parsed_face(data@)->0)
                    <= descender_of(parsed_face(data@)->0),
            },
    {
        let face = match face_from_vec(data) {
            Some(f) => f,
            None => {
                return None;
            },
        };
        let asc = face_ascender(&face);
        let desc = face_descender(&face);
        if asc <= desc {
            return None;
        }
        let line = (asc as i32) - (desc as i32);
        Some(FontMetrics { face, line_units: line as u32, scale_ppm })
    }
}

/// Advance sum in font units, saturating at the cap.
pub open spec fn sum_capped(advs: Seq<u16>) -> int
    decreases advs.len(),
{
    if advs.len() == 0 {
        0
    } else {
        let t = sum_capped(advs.drop_last()) + advs.last();
        if t > SUM_CAP {
            SUM_CAP as int
        } else {
            t
        }
    }
}

pub proof fn lemma_sum_capped_bounds(advs: Seq<u16>)
    ensures
        0 <= sum_capped(advs) <= SUM_CAP,
    decreases advs.len(),
{
    if advs.len() > 0 {
        lemma_sum_capped_bounds(advs.drop_last());
    }
}

/// Width magnitude: the advance sum scaled by size and correction over the
/// line height, capped.
pub open spec fn width_mag(sum: int, size: int, ppm: int, line: int) -> int {
    let w = (sum * size * ppm) / (1_000_000 * line);
    if w > WIDTH_CAP {
        WIDTH_CAP as int
    } else {
        w
    }
}

/// Width of a sequence of advances at a size: the sign of the size is kept,
/// the magnitude computed from its absolute value.
pub open spec fn width_of(advs: Seq<u16>, size: int, ppm: int, line: int) -> int {
    if size >= 0 {
        width_mag(sum_capped(advs), size, ppm, line)
    } else {
        -width_mag(sum_capped(advs), -size, ppm, line)
    }
}

impl FontMetrics {
    /// Total advance width of the text at the given size, in thousandths of
    /// a document unit: the face's own advances for the text's characters,
    /// scaled. Empty text measures zero at any size.
    pub fn measure(&self, text: &[u8], size_milli: i64) -> (w: i64)
        requires
            self.wf(),
            -VAL_BOUND <= size_milli <= VAL_BOUND,
        ensures
            w == width_of(
                advances_of(self.face, text@),
                size_milli as int,
                self.scale_ppm as int,
                self.line_units as int,
            ),
            text@.len() == 0 ==> w == 0,
            -WIDTH_CAP <= w <= WIDTH_CAP,
    {
        let cs = text_chars(text);
        let mut sum: u64 = 0;
        let mut i: usize = 0;
        let mut gadvs: Ghost<Seq<u16>> = Ghost(Seq::<u16>::empty());
        while i < cs.len()
            invariant
                i <= cs@.len(),
                cs@ == chars_of(text@),
                gadvs@.len() == i,
                forall|k: int|
                    0 <= k < i ==> gadvs@[k] == advance_of(
                        self.face,
                        glyph_id_of(self.face, cs@[k]),
                    ),
                sum == sum_capped(gadvs@),
                0 <= sum <= SUM_CAP,
            decreases cs@.len() - i,
        {
            let id = glyph_id(&self.face, cs[i]);
            let a = glyph_advance(&self.face, id);
            proof {
                assert(gadvs@.push(a).drop_last() =~= gadvs@);
            }
            let t = sum + (a as u64);
            sum = if t > SUM_CAP {
                SUM_CAP
            } else {
                t
            };
            gadvs = Ghost(gadvs@.push(a));
            i = i + 1;
        }
        let (neg, szm): (bool, u64) = if size_milli < 0 {
            (true, (-size_milli) as u64)
        } else {
            (false, size_milli as u64)
        };
        proof {
            assert((sum as int) * (szm as int) <= 1_000_000_000_000int * 1_000_000_000_000int)
                by (nonlinear_arith)
                requires
                    0 <= sum <= 1_000_000_000_000u64,
                    0 <= szm <= 1_000_000_000_000u64,
            ;
            assert((sum as int) * (szm as int) * (self.scale_ppm as int) <= 1_000_000_000_000int
                * 1_000_000_000_000int * 100_000_000int) by (nonlinear_arith)
                requires
                    0 <= (sum as int) * (szm as int) <= 1_000_000_000_000int
                        * 1_000_000_000_000int,
                    0 <= self.scale_ppm <= 100_000_000u64,
            ;
            assert(0 <= (sum as int) * (szm as int)) by (nonlinear_arith)
                requires
                    0 <= sum,
                    0 <= szm,
            ;
        }
        let prod: u128 = (sum as u128) * (szm as u128) * (self.scale_ppm as u128);
        let den: u128 = 1_000_000u128 * (self.line_units as u128);
        let q = prod / den;
        let wmag: i64 = if q > (WIDTH_CAP as u128) {
            WIDTH_CAP
        } else {
            q as i64
        };
        let w = if neg {
            -wmag
        } else {
            wmag
        };
        proof {
            let size = size_milli as int;
            let ppm = self.scale_ppm as int;
            let line = self.line_units as int;
            assert(gadvs@ =~= advances_of(self.face, text@));
            if text@.len() == 0 {
                assert(gadvs@.len() == 0);
                assert(sum_capped(gadvs@) == 0);
                assert(0int * size * ppm == 0) by (nonlinear_arith);
                assert(0int / (1_000_000 * line) == 0) by (nonlinear_arith)
                    requires
                        1 <= line,
                ;
            }
            assert(w == width_of(gadvs@, size, ppm, line));
        }
        w
    }
}

/// No text measures to no width: the width of an empty advance sequence is
/// zero at every size.
pub proof fn lemma_measure_empty(size: int, ppm: int, line: int)
    requires
        1 <= ppm,
        1 <= line,
    ensures
        width_of(Seq::<u16>::empty(), size, ppm, line) == 0,
{
    assert(0int * size * ppm == 0) by (nonlinear_arith);
    assert(0int * (-size) * ppm == 0) by (nonlinear_arith);
    assert(0int / (1_000_000 * line) == 0) by (nonlinear_arith)
        requires
            1 <= line,
    ;
}

proof fn lemma_sum_capped_prefix_monotone(a: u16, n1: nat, n2: nat)
    requires
        n1 <= n2,
    ensures
        sum_capped(Seq::new(n1, |i: int| a)) <= sum_capped(Seq::new(n2, |i: int| a)),
    decreases n2 - n1,
{
    if n1 < n2 {
        let s = Seq::new(((n2 - 1) as nat), |i: int| a);
        let t = Seq::new(n2, |i: int| a);
        assert(t.drop_last() =~= s);
        lemma_sum_capped_bounds(s);
        lemma_sum_capped_prefix_monotone(a, n1, (n2 - 1) as nat);
    }
}

/// More repeated glyphs never measure narrower: at a non-negative size, the
/// width of `n2` repeats of one advance is at least that of `n1 <= n2`
/// repeats.
pub proof fn lemma_measure_monotone(a: u16, n1: nat, n2: nat, size: int, ppm: int, line: int)
    requires
        n1 <= n2,
        0 <= size,
        1 <= ppm,
        1 <= line,
    ensures
        width_of(Seq::new(n1, |i: int| a), size, ppm, line) <= width_of(
            Seq::new(n2, |i: int| a),
            size,
            ppm,
            line,
        ),
{
    let s1 = sum_capped(Seq::new(n1, |i: int| a));
    let s2 = sum_capped(Seq::new(n2, |i: int| a));
    lemma_sum_capped_prefix_monotone(a, n1, n2);
    assert(s1 * size * ppm <= s2 * size * ppm) by (nonlinear_arith)
        requires
            s1 <= s2,
            0 <= size,
            1 <= ppm,
    ;
    vstd::arithmetic::div_mod::lemma_div_is_ordered(s1 * size * ppm, s2 * size * ppm, 1_000_000 * line);
}


/// More repeated characters never measure narrower, for the face's actual
/// advances: when two texts decode to repeats of one character and the first
/// has no more of them, its width at any non-negative size is no larger.
pub proof fn lemma_advances_monotone(
    face: owned_ttf_parser::OwnedFace,
    c: char,
    t1: Seq<u8>,
    t2: Seq<u8>,
    size: int,
    ppm: int,
    line: int,
)
    requires
        chars_of(t1) == Seq::new(chars_of(t1).len(), |i: int| c),
        chars_of(t2) == Seq::new(chars_of(t2).len(), |i: int| c),
        chars_of(t1).len() <= chars_of(t2).len(),
        0 <= size,
        1 <= ppm,
        1 <= line,
    ensures
        width_of(advances_of(face, t1), size, ppm, line) <= width_of(
            advances_of(face, t2),
            size,
            ppm,
            line,
        ),
{
    let a = advance_of(face, glyph_id_of(face, c));
    assert(advances_of(face, t1) =~= Seq::new(chars_of(t1).len(), |i: int| a));
    assert(advances_of(face, t2) =~= Seq::new(chars_of(t2).len(), |i: int| a));
    lemma_measure_monotone(a, chars_of(t1).len(), chars_of(t2).len(), size, ppm, line);
}

} // verus!
