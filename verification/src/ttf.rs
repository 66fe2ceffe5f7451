//! Glyph metrics read from font files with `ttf_parser`: the units-per-em,
//! the advance table of the ASCII range, and per-character advances; the
//! scaling to pixels is left to the caller.
use vstd::prelude::*;
use ttf_parser::{Face, GlyphId};

verus! {

#[verifier::external_type_specification]
#[verifier::external_body]
pub struct ExFace<'a>(Face<'a>);

/// `ttf_parser::Face::parse(data, index)` succeeds.
pub uninterp spec fn ttf_face_parses(data: Seq<u8>, index: u32) -> bool;

/// `Face::units_per_em` of the face parsed from `data` at `index`.
pub uninterp spec fn ttf_units_per_em(data: Seq<u8>, index: u32) -> u16;

/// `Face::glyph_index` of that face for `ch`, as a glyph number.
pub uninterp spec fn ttf_glyph_index(data: Seq<u8>, index: u32, ch: char) -> Option<u16>;

/// `Face::glyph_hor_advance` of that face for glyph number `glyph`.
pub uninterp spec fn ttf_glyph_advance(data: Seq<u8>, index: u32, glyph: u16) -> Option<u16>;

/// A parsed font face together with the bytes and collection index it was
/// parsed from.
pub struct FontFile<'a> {
    data: &'a [u8],
    index: u32,
    face: Face<'a>,
}

impl<'a> View for FontFile<'a> {
    type V = (Seq<u8>, u32);

    closed spec fn view(&self) -> (Seq<u8>, u32) {
        (self.data@, self.index)
    }
}

/// Calls `ttf_parser::Face::parse`; the face is kept with its bytes and
/// index. Claims only that it succeeds exactly when `ttf_face_parses` holds.
#[verifier::external_body]
pub(crate) fn parse_font_file<'a>(data: &'a [u8], index: u32) -> (res: Option<FontFile<'a>>)
    ensures
        res is Some == ttf_face_parses(data@, index),
        res matches Some(f) ==> f@ == (data@, index),
{
    match Face::parse(data, index) {
        Ok(face) => Some(FontFile { data, index, face }),
        Err(_) => None,
    }
}

/// Calls `Face::units_per_em`, which the crate documents to lie in
/// `16..=16384`.
#[verifier::external_body]
fn units_per_em(file: &FontFile) -> (res: u16)
    ensures
        res == ttf_units_per_em(file@.0, file@.1),
        16 <= res <= 16384,
{
    file.face.units_per_em()
}

/// Calls `Face::glyph_index`, returning the glyph number.
#[verifier::external_body]
fn glyph_index(file: &FontFile, ch: char) -> (res: Option<u16>)
    ensures
        res == ttf_glyph_index(file@.0, file@.1, ch),
{
    file.face.glyph_index(ch).map(|g| g.0)
}

/// Calls `Face::glyph_hor_advance` for a glyph number.
#[verifier::external_body]
fn glyph_hor_advance(file: &FontFile, glyph: u16) -> (res: Option<u16>)
    ensures
        res == ttf_glyph_advance(file@.0, file@.1, glyph),
{
    file.face.glyph_hor_advance(GlyphId(glyph))
}

/// The advance of `ch` in font units: `None` when the face has no glyph for
/// it, `0` when the glyph has no advance.
pub open spec fn char_advance_of(data: Seq<u8>, index: u32, ch: char) -> Option<u16> {
    match ttf_glyph_index(data, index, ch) {
        Some(g) => match ttf_glyph_advance(data, index, g) {
            Some(a) => Some(a),
            None => Some(0u16),
        },
        None => None,
    }
}

/// The advance of an ASCII character, `0` for a missing glyph.
pub open spec fn ascii_advance_of(data: Seq<u8>, index: u32, b: int) -> u16 {
    match char_advance_of(data, index, (b as u32) as char) {
        Some(a) => a,
        None => 0u16,
    }
}

fn char_advance(file: &FontFile, ch: char) -> (res: Option<u16>)
    ensures
        res == char_advance_of(file@.0, file@.1, ch),
{
    match glyph_index(file, ch) {
        Some(g) => match glyph_hor_advance(file, g) {
            Some(a) => Some(a),
            None => Some(0),
        },
        None => None,
    }
}

/// What text measurement needs of a face up front.
pub struct FaceMetrics {
    pub units_per_em: u16,
    /// Advance of each ASCII character (by code), 0 where a glyph is missing.
    pub ascii_advances: Vec<u16>,
}

/// Units per em (at least 1) and the ASCII advance table of the face at
/// `index` in `data`; `None` when the face does not parse.
pub fn face_metrics(data: &[u8], index: u32) -> (res: Option<FaceMetrics>)
    ensures
        res is Some == ttf_face_parses(data@, index),
        res matches Some(m) ==> {
            &&& m.units_per_em == ttf_units_per_em(data@, index)
            &&& m.units_per_em >= 16
            &&& m.ascii_advances@.len() == 128
            &&& forall|b: int| 0 <= b < 128 ==> #[trigger] m.ascii_advances@[b] == ascii_advance_of(data@, index, b)
        },
{
    let file = match parse_font_file(data, index) {
        Some(f) => f,
        None => return None,
    };
    let upm = units_per_em(&file);
    let units_per_em = if upm < 1 { 1 } else { upm };
    let mut advances: Vec<u16> = Vec::new();
    let mut b: u8 = 0;
    while b < 128
        invariant
            0 <= b <= 128,
            file@ == (data@, index),
            advances@.len() == b,
            forall|k: int| 0 <= k < b ==> #[trigger] advances@[k] == ascii_advance_of(data@, index, k),
        decreases 128 - b,
    {
        let ch = b as char;
        let a = match char_advance(&file, ch) {
            Some(a) => a,
            None => 0,
        };
        advances.push(a);
        b += 1;
    }
    Some(FaceMetrics { units_per_em, ascii_advances: advances })
}

/// The characters of `s` other than newlines.
pub open spec fn measured_chars(s: Seq<char>) -> Seq<char>
    decreases s.len(),
{
    if s.len() == 0 {
        Seq::<char>::empty()
    } else if s.last() == '\n' {
        measured_chars(s.drop_last())
    } else {
        measured_chars(s.drop_last()).push(s.last())
    }
}

/// The advance of every character of `text` except newlines, in font units,
/// in order; `None` for characters the face has no glyph for. `None` as a
/// whole when the face does not parse.
pub fn glyph_advances(data: &[u8], index: u32, text: &str) -> (res: Option<Vec<Option<u16>>>)
    ensures
        res is Some == ttf_face_parses(data@, index),
        res matches Some(v) ==> v@ == measured_chars(text@).map_values(
            |c: char| char_advance_of(data@, index, c),
        ),
        res matches Some(v) ==> v@ == text@.filter(|c: char| c != '\n').map_values(
            |c: char| char_advance_of(data@, index, c),
        ),
{
    proof {
        lemma_measured_chars_skip_newlines(text@);
    }
    let file = match parse_font_file(data, index) {
        Some(f) => f,
        None => return None,
    };
    let mut out: Vec<Option<u16>> = Vec::new();
    for c in it: text.chars()
        invariant
            it.seq() == text@,
            file@ == (data@, index),
            out@ == measured_chars(text@.take(it.index() as int)).map_values(
                |c: char| char_advance_of(data@, index, c),
            ),
    {
        assert(text@.take(it.index() + 1).drop_last() =~= text@.take(it.index() as int));
        if c != '\n' {
            let a = char_advance(&file, c);
            out.push(a);
        }
        assert(out@ =~= measured_chars(text@.take(it.index() + 1)).map_values(
            |c: char| char_advance_of(data@, index, c),
        ));
    }
    assert(text@.take(text@.len() as int) =~= text@);
    Some(out)
}

/// Only newlines go unmeasured: the measured characters of `s` are its
/// characters other than `'\n'`, in order, spaces included.
pub proof fn lemma_measured_chars_skip_newlines(s: Seq<char>)
    ensures
        measured_chars(s) == s.filter(|c: char| c != '\n'),
    decreases s.len(),
{
    reveal(Seq::filter);
    if s.len() > 0 {
        lemma_measured_chars_skip_newlines(s.drop_last());
    }
}

} // verus!
