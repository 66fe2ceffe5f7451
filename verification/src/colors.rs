//! Colours and palette choices: hex colour parsing, theme names, Gantt task
//! colours, default edge strokes and the Cynefin domain captions,
//! backgrounds and hash seed.
use vstd::prelude::*;
use vstd::utf8::encode_utf8;
use crate::labels::lemma_encode_utf8_concat;
use crate::text::{to_chars, trim, trim_range, str_eq, string_of, eq_ignore_ascii_case, lower, CharSet};

verus! {

/// Every character of `s` is ASCII.
pub open spec fn is_ascii_chars(s: Seq<char>) -> bool {
    forall|i: int| 0 <= i < s.len() ==> (#[trigger] s[i] as u32) < 128
}

pub open spec fn hex_digit(c: char) -> bool {
    ('0' <= c && c <= '9') || ('a' <= c && c <= 'f') || ('A' <= c && c <= 'F')
}

pub open spec fn hex_value(c: char) -> int {
    if '0' <= c && c <= '9' {
        c as int - 48
    } else if 'a' <= c && c <= 'f' {
        c as int - 87
    } else {
        c as int - 55
    }
}

/// `u8::from_str_radix(s, 16)` on a string of two UTF-8 bytes: two hex
/// digits, or `+` and one hex digit.
pub open spec fn pair_value(s: Seq<char>) -> Option<u8> {
    if s.len() == 2 && s[0] == '+' && hex_digit(s[1]) {
        Some(hex_value(s[1]) as u8)
    } else if s.len() == 2 && hex_digit(s[0]) && hex_digit(s[1]) {
        Some((hex_value(s[0]) * 16 + hex_value(s[1])) as u8)
    } else {
        None
    }
}

/// The UTF-8 length of `s`, as `str::len` reports it.
pub open spec fn utf8_len(s: Seq<char>) -> usize {
    encode_utf8(s).len() as usize
}

/// Byte offset `b` of `s` falls between two characters.
pub open spec fn boundary(s: Seq<char>, b: int) -> bool {
    exists|k: int| 0 <= k <= s.len() && utf8_len(#[trigger] s.take(k)) == b
}

/// Three byte-pairs of a six-digit hex string, each read as `u8`.
pub open spec fn hex_triple(d: Seq<char>) -> Option<(u8, u8, u8)> {
    if d.len() == 6 && is_ascii_chars(d) {
        match (pair_value(d.subrange(0, 2)), pair_value(d.subrange(2, 4)), pair_value(d.subrange(4, 6))) {
            (Some(r), Some(g), Some(b)) => Some((r, g, b)),
            _ => None,
        }
    } else {
        None
    }
}

fn hex_char_value(c: char) -> (res: Option<u8>)
    ensures
        match res {
            Some(v) => hex_digit(c) && v as int == hex_value(c),
            None => !hex_digit(c),
        },
{
    if '0' <= c && c <= '9' {
        Some((c as u8) - 48)
    } else if 'a' <= c && c <= 'f' {
        Some((c as u8) - 87)
    } else if 'A' <= c && c <= 'F' {
        Some((c as u8) - 55)
    } else {
        None
    }
}

fn pair_at(v: &Vec<char>, i: usize) -> (res: Option<u8>)
    requires
        i + 2 <= v.len(),
    ensures
        res == pair_value(v@.subrange(i as int, i + 2)),
{
    let a = v[i];
    let b = v[i + 1];
    let ghost s = v@.subrange(i as int, i + 2);
    assert(s[0] == a && s[1] == b);
    match hex_char_value(b) {
        None => None,
        Some(lo) => if a == '+' {
            Some(lo)
        } else {
            match hex_char_value(a) {
                None => None,
                Some(hi) => Some(hi * 16 + lo),
            }
        },
    }
}

fn all_ascii(v: &Vec<char>) -> (res: bool)
    ensures
        res == is_ascii_chars(v@),
{
    let mut i: usize = 0;
    while i < v.len()
        invariant
            0 <= i <= v.len(),
            forall|k: int| 0 <= k < i ==> (#[trigger] v@[k] as u32) < 128,
        decreases v.len() - i,
    {
        if (v[i] as u32) >= 128 {
            return false;
        }
        i += 1;
    }
    true
}

fn triple_of(d: &Vec<char>) -> (res: Option<(u8, u8, u8)>)
    ensures
        res == hex_triple(d@),
{
    if d.len() != 6 || !all_ascii(d) {
        return None;
    }
    match (pair_at(d, 0), pair_at(d, 2), pair_at(d, 4)) {
        (Some(r), Some(g), Some(b)) => Some((r, g, b)),
        _ => None,
    }
}

/// `#rgb` or `#rrggbb` read as red, green and blue bytes; a short digit
/// stands for itself repeated (`f` is 255).
pub open spec fn hex_rgb_of(value: Seq<char>) -> Option<(u8, u8, u8)> {
    if value.len() == 0 || value[0] != '#' {
        None
    } else {
        let h = value.drop_first();
        if utf8_len(h) == 3 {
            if h.len() == 3 && hex_digit(h[0]) && hex_digit(h[1]) && hex_digit(h[2]) {
                Some(
                    (
                        (hex_value(h[0]) * 17) as u8,
                        (hex_value(h[1]) * 17) as u8,
                        (hex_value(h[2]) * 17) as u8,
                    ),
                )
            } else {
                None
            }
        } else if utf8_len(h) == 6 {
            hex_triple(h)
        } else {
            None
        }
    }
}

/// Inputs on which the six-digit form would be sliced inside a character
/// (the byte slicing of the digits panics there).
pub open spec fn hex_rgb_slices_ok(value: Seq<char>) -> bool {
    value.len() > 0 && value[0] == '#' && utf8_len(value.drop_first()) == 6 ==> boundary(
        value.drop_first(),
        2,
    ) && boundary(value.drop_first(), 4)
}

pub fn parse_hex_rgb(value: &str) -> (res: Option<(u8, u8, u8)>)
    requires
        hex_rgb_slices_ok(value@),
    ensures
        res == hex_rgb_of(value@),
{
    let v = to_chars(value);
    if v.len() == 0 || v[0] != '#' {
        return None;
    }
    let h = string_of(&v, 1, v.len());
    assert(h@ =~= value@.drop_first());
    let hv = to_chars(h.as_str());
    let blen = h.as_str().len();
    if blen == 3 {
        if hv.len() != 3 {
            return None;
        }
        match (hex_char_value(hv[0]), hex_char_value(hv[1]), hex_char_value(hv[2])) {
            (Some(r), Some(g), Some(b)) => Some((r * 17, g * 17, b * 17)),
            _ => None,
        }
    } else if blen == 6 {
        triple_of(&hv)
    } else {
        None
    }
}

/// Four byte-pairs of an eight-digit hex string, each read as `u8`.
pub open spec fn hex_quad(d: Seq<char>) -> Option<(u8, u8, u8, u8)> {
    if d.len() == 8 && is_ascii_chars(d) {
        match (
            pair_value(d.subrange(0, 2)),
            pair_value(d.subrange(2, 4)),
            pair_value(d.subrange(4, 6)),
            pair_value(d.subrange(6, 8)),
        ) {
            (Some(r), Some(g), Some(b), Some(a)) => Some((r, g, b, a)),
            _ => None,
        }
    } else {
        None
    }
}

/// A background colour for the rasterizer: `#rgb`, `#rrggbb` or
/// `#rrggbbaa` after trimming, as red, green, blue and alpha bytes (alpha 255
/// when not given).
pub open spec fn hex_rgba_of(input: Seq<char>) -> Option<(u8, u8, u8, u8)> {
    let color = trim(input, CharSet::Ws);
    if color.len() == 0 || color[0] != '#' {
        None
    } else {
        let h = color.drop_first();
        if utf8_len(h) == 3 {
            if h.len() == 3 {
                match (pair_value(seq![h[0], h[0]]), pair_value(seq![h[1], h[1]]), pair_value(seq![h[2], h[2]])) {
                    (Some(r), Some(g), Some(b)) => Some((r, g, b, 255u8)),
                    _ => None,
                }
            } else {
                None
            }
        } else if utf8_len(h) == 6 {
            match hex_triple(h) {
                Some((r, g, b)) => Some((r, g, b, 255u8)),
                None => None,
            }
        } else if utf8_len(h) == 8 {
            hex_quad(h)
        } else {
            None
        }
    }
}

/// The byte slicing of the digits stays on character boundaries.
pub open spec fn hex_rgba_slices_ok(input: Seq<char>) -> bool {
    let color = trim(input, CharSet::Ws);
    let h = color.drop_first();
    color.len() > 0 && color[0] == '#' ==> {
        &&& utf8_len(h) == 3 ==> boundary(h, 1) && boundary(h, 2)
        &&& utf8_len(h) == 6 ==> boundary(h, 2) && boundary(h, 4)
        &&& utf8_len(h) == 8 ==> boundary(h, 2) && boundary(h, 4) && boundary(h, 6)
    }
}

fn quad_of(d: &Vec<char>) -> (res: Option<(u8, u8, u8, u8)>)
    ensures
        res == hex_quad(d@),
{
    if d.len() != 8 || !all_ascii(d) {
        return None;
    }
    match (pair_at(d, 0), pair_at(d, 2), pair_at(d, 4), pair_at(d, 6)) {
        (Some(r), Some(g), Some(b), Some(a)) => Some((r, g, b, a)),
        _ => None,
    }
}

fn doubled_pair(c: char) -> (res: Option<u8>)
    ensures
        res == pair_value(seq![c, c]),
{
    let mut v: Vec<char> = Vec::new();
    v.push(c);
    v.push(c);
    assert(v@.subrange(0, 2) =~= seq![c, c]);
    pair_at(&v, 0)
}

pub fn parse_hex_color(input: &str) -> (res: Option<(u8, u8, u8, u8)>)
    requires
        hex_rgba_slices_ok(input@),
    ensures
        res == hex_rgba_of(input@),
{
    let v = to_chars(input);
    assert(v@.subrange(0, v@.len() as int) =~= v@);
    let (a, b) = trim_range(&v, 0, v.len(), &CharSet::Ws);
    if a == b || v[a] != '#' {
        return None;
    }
    let h = string_of(&v, a + 1, b);
    assert(h@ =~= trim(input@, CharSet::Ws).drop_first());
    let hv = to_chars(h.as_str());
    let blen = h.as_str().len();
    if blen == 3 {
        if hv.len() != 3 {
            return None;
        }
        match (doubled_pair(hv[0]), doubled_pair(hv[1]), doubled_pair(hv[2])) {
            (Some(r), Some(g), Some(b)) => Some((r, g, b, 255)),
            _ => None,
        }
    } else if blen == 6 {
        match triple_of(&hv) {
            Some((r, g, b)) => Some((r, g, b, 255)),
            None => None,
        }
    } else if blen == 8 {
        quad_of(&hv)
    } else {
        None
    }
}

/// Each character of `s` written twice (`#abc` stands for `#aabbcc`).
pub open spec fn doubled(s: Seq<char>) -> Seq<char> {
    Seq::new(2 * s.len(), |i: int| s[i / 2])
}

/// A theme colour `#rgb`, `#rrggbb` or `#rrggbbaa` (alpha ignored) as red,
/// green and blue bytes.
pub open spec fn theme_hex_of(value: Seq<char>) -> Option<(u8, u8, u8)> {
    if value.len() == 0 || value[0] != '#' {
        None
    } else {
        let h = value.drop_first();
        if utf8_len(h) == 3 {
            hex_triple(doubled(h))
        } else if utf8_len(h) == 6 {
            hex_triple(h)
        } else if utf8_len(h) == 8 && h.len() >= 6 {
            hex_triple(h.take(6))
        } else {
            None
        }
    }
}

/// The byte slicing of the digits stays on character boundaries.
pub open spec fn theme_hex_slices_ok(value: Seq<char>) -> bool {
    let h = value.drop_first();
    value.len() > 0 && value[0] == '#' ==> {
        &&& utf8_len(h) == 3 ==> boundary(doubled(h), 2) && boundary(doubled(h), 4)
        &&& utf8_len(h) == 6 ==> boundary(h, 2) && boundary(h, 4)
        &&& utf8_len(h) == 8 ==> boundary(h, 6) && forall|k: int|
            0 <= k <= h.len() && utf8_len(#[trigger] h.take(k)) == 6 ==> boundary(h.take(k), 2)
                && boundary(h.take(k), 4)
    }
}

/// Reads a theme's hex colour as red, green and blue bytes.
pub fn parse_hex(value: &str) -> (res: Option<(u8, u8, u8)>)
    requires
        theme_hex_slices_ok(value@),
    ensures
        res == theme_hex_of(value@),
{
    let v = to_chars(value);
    if v.len() == 0 || v[0] != '#' {
        return None;
    }
    let h = string_of(&v, 1, v.len());
    assert(h@ =~= value@.drop_first());
    let hv = to_chars(h.as_str());
    let blen = h.as_str().len();
    if blen == 3 {
        let mut d: Vec<char> = Vec::new();
        let mut i: usize = 0;
        while i < hv.len()
            invariant
                0 <= i <= hv.len(),
                d@ =~= doubled(hv@.take(i as int)),
            decreases hv.len() - i,
        {
            d.push(hv[i]);
            d.push(hv[i]);
            assert(d@ =~= doubled(hv@.take(i + 1)));
            i += 1;
        }
        assert(hv@.take(hv.len() as int) =~= hv@);
        triple_of(&d)
    } else if blen == 6 {
        triple_of(&hv)
    } else if blen == 8 && hv.len() >= 6 {
        let mut t: Vec<char> = Vec::new();
        let mut i: usize = 0;
        while i < 6
            invariant
                0 <= i <= 6 <= hv.len(),
                t@ =~= hv@.take(i as int),
            decreases 6 - i,
        {
            t.push(hv[i]);
            i += 1;
        }
        triple_of(&t)
    } else {
        None
    }
}

/// The built-in themes.
#[derive(Clone, Copy, Debug, PartialEq, Eq, Structural)]
pub enum ThemeName {
    Default,
    Modern,
    Dark,
    Neutral,
    Forest,
    Base,
}

pub open spec fn theme_name_of(name: Seq<char>) -> Option<ThemeName> {
    if name == "default"@ || name == "mermaid"@ {
        Some(ThemeName::Default)
    } else if name == "modern"@ {
        Some(ThemeName::Modern)
    } else if name == "dark"@ {
        Some(ThemeName::Dark)
    } else if name == "neutral"@ {
        Some(ThemeName::Neutral)
    } else if name == "forest"@ {
        Some(ThemeName::Forest)
    } else if name == "base"@ {
        Some(ThemeName::Base)
    } else {
        None
    }
}

/// The theme a name selects (`mermaid` is an alias of `default`); `None`
/// for unknown names.
pub fn theme_by_name(name: &str) -> (res: Option<ThemeName>)
    ensures
        res == theme_name_of(name@),
{
    if str_eq(name, "default") || str_eq(name, "mermaid") {
        Some(ThemeName::Default)
    } else if str_eq(name, "modern") {
        Some(ThemeName::Modern)
    } else if str_eq(name, "dark") {
        Some(ThemeName::Dark)
    } else if str_eq(name, "neutral") {
        Some(ThemeName::Neutral)
    } else if str_eq(name, "forest") {
        Some(ThemeName::Forest)
    } else if str_eq(name, "base") {
        Some(ThemeName::Base)
    } else {
        None
    }
}

/// What decides a Gantt task bar's colours.
#[derive(Clone, Copy, Debug)]
pub struct GanttTaskStatus {
    pub vert: bool,
    pub crit: bool,
    pub done: bool,
    pub active: bool,
    pub label_inside: bool,
}

/// Stroke colour and width of a Gantt task bar: vertical markers first,
/// then critical, then done tasks.
pub fn gantt_task_stroke(task: &GanttTaskStatus) -> (res: (&'static str, &'static str))
    ensures
        res.1@ == "2"@,
        res.0@ == if task.vert {
            "navy"@
        } else if task.crit {
            "#ff8888"@
        } else if task.done {
            "grey"@
        } else {
            "#534fbc"@
        },
{
    if task.vert {
        ("navy", "2")
    } else if task.crit {
        ("#ff8888", "2")
    } else if task.done {
        ("grey", "2")
    } else {
        ("#534fbc", "2")
    }
}

/// Label colour of a Gantt task: white only for a label inside a bar that is
/// neither active nor done.
pub fn gantt_task_text_fill(task: &GanttTaskStatus) -> (res: &'static str)
    ensures
        res@ == if task.vert {
            "navy"@
        } else if !task.label_inside {
            "black"@
        } else if task.active || task.done {
            "black"@
        } else {
            "white"@
        },
{
    if task.vert {
        "navy"
    } else if !task.label_inside {
        "black"
    } else if task.active || task.done {
        "black"
    } else {
        "white"
    }
}

/// The five domains of a Cynefin framework diagram.
#[derive(Clone, Copy, Debug, PartialEq, Eq, Structural)]
pub enum CynefinDomainName {
    Complex,
    Complicated,
    Clear,
    Chaotic,
    Confusion,
}

/// Background colours of the Cynefin domains.
pub struct CynefinTheme {
    pub complex_bg: String,
    pub complicated_bg: String,
    pub chaotic_bg: String,
    pub clear_bg: String,
    pub confusion_bg: String,
}

pub fn cynefin_domain_bg<'a>(domain: CynefinDomainName, theme: &'a CynefinTheme) -> (res: &'a str)
    ensures
        res@ == match domain {
            CynefinDomainName::Complex => theme.complex_bg@,
            CynefinDomainName::Complicated => theme.complicated_bg@,
            CynefinDomainName::Chaotic => theme.chaotic_bg@,
            CynefinDomainName::Clear => theme.clear_bg@,
            CynefinDomainName::Confusion => theme.confusion_bg@,
        },
{
    match domain {
        CynefinDomainName::Complex => theme.complex_bg.as_str(),
        CynefinDomainName::Complicated => theme.complicated_bg.as_str(),
        CynefinDomainName::Chaotic => theme.chaotic_bg.as_str(),
        CynefinDomainName::Clear => theme.clear_bg.as_str(),
        CynefinDomainName::Confusion => theme.confusion_bg.as_str(),
    }
}

/// The response pattern and practice caption of a Cynefin domain.
pub fn cynefin_domain_meta(domain: CynefinDomainName) -> (res: (&'static str, &'static str))
    ensures
        (res.0@, res.1@) == match domain {
            CynefinDomainName::Complex => (
                "Probe \u{2192} Sense \u{2192} Respond"@,
                "Emergent Practices"@,
            ),
            CynefinDomainName::Complicated => (
                "Sense \u{2192} Analyse \u{2192} Respond"@,
                "Good Practices"@,
            ),
            CynefinDomainName::Clear => (
                "Sense \u{2192} Categorise \u{2192} Respond"@,
                "Best Practices"@,
            ),
            CynefinDomainName::Chaotic => ("Act \u{2192} Sense \u{2192} Respond"@, "Novel Practices"@),
            CynefinDomainName::Confusion => (""@, "Disorder"@),
        },
{
    match domain {
        CynefinDomainName::Complex => ("Probe \u{2192} Sense \u{2192} Respond", "Emergent Practices"),
        CynefinDomainName::Complicated => (
            "Sense \u{2192} Analyse \u{2192} Respond",
            "Good Practices",
        ),
        CynefinDomainName::Clear => ("Sense \u{2192} Categorise \u{2192} Respond", "Best Practices"),
        CynefinDomainName::Chaotic => ("Act \u{2192} Sense \u{2192} Respond", "Novel Practices"),
        CynefinDomainName::Confusion => ("", "Disorder"),
    }
}

/// The UTF-16 code units of `s` (`str::encode_utf16`).
pub open spec fn utf16(s: Seq<char>) -> Seq<u16>
    decreases s.len(),
{
    if s.len() == 0 {
        Seq::<u16>::empty()
    } else {
        let c = s.last() as u32 as int;
        let units = if c < 0x10000 {
            seq![c as u16]
        } else {
            seq![(0xd800 + (c - 0x10000) / 1024) as u16, (0xdc00 + (c - 0x10000) % 1024) as u16]
        };
        utf16(s.drop_last()) + units
    }
}

/// The string hash `h = 31 * h + unit` over UTF-16 code units, modulo 2^32.
pub open spec fn utf16_hash(units: Seq<u16>) -> u32
    decreases units.len(),
{
    if units.len() == 0 {
        0
    } else {
        ((utf16_hash(units.drop_last()) as int * 31 + units.last() as int) % 0x1_0000_0000) as u32
    }
}

fn hash_step(h: u32, unit: u16) -> (res: u32)
    ensures
        res == ((h as int * 31 + unit as int) % 0x1_0000_0000) as u32,
{
    ((h as u64 * 31 + unit as u64) % 0x1_0000_0000) as u32
}

/// The seed of a Cynefin diagram's hand-drawn boundaries: the JavaScript
/// string hash of `input`, read as a signed 32-bit integer.
pub fn cynefin_hash_string(input: &str) -> (res: i32)
    ensures
        res == utf16_hash(utf16(input@)) as i32,
{
    let v = to_chars(input);
    let mut h: u32 = 0;
    let mut i: usize = 0;
    assert(v@.take(0) =~= Seq::<char>::empty());
    while i < v.len()
        invariant
            0 <= i <= v.len(),
            v@ == input@,
            h == utf16_hash(utf16(v@.take(i as int))),
        decreases v.len() - i,
    {
        let ghost pre = utf16(v@.take(i as int));
        assert(v@.take(i + 1).drop_last() =~= v@.take(i as int));
        let c = v[i] as u32;
        if c < 0x10000 {
            let u = c as u16;
            assert(utf16(v@.take(i + 1)) =~= pre.push(u));
            assert(pre.push(u).drop_last() =~= pre);
            h = hash_step(h, u);
            assert(h == utf16_hash(pre.push(u)));
        } else {
            let hi = (0xd800 + (c - 0x10000) / 1024) as u16;
            let lo = (0xdc00 + (c - 0x10000) % 1024) as u16;
            let ghost mid = pre.push(hi);
            assert(utf16(v@.take(i + 1)) =~= mid.push(lo));
            assert(mid.drop_last() =~= pre);
            assert(mid.push(lo).drop_last() =~= mid);
            h = hash_step(h, hi);
            assert(h == utf16_hash(mid));
            h = hash_step(h, lo);
            assert(h == utf16_hash(mid.push(lo)));
        }
        i += 1;
    }
    assert(v@.take(v@.len() as int) =~= v@);
    h as i32
}

/// The diagram kinds whose edges trade the default theme's line colour for
/// a plain dark grey, and all the others.
#[derive(Clone, Copy, Debug, PartialEq, Eq, Structural)]
pub enum EdgeStrokeKind {
    Block,
    Class,
    Flowchart,
    Sequence,
    Other,
}

/// The edge stroke of a diagram: `#333333` where a block, class, flowchart
/// or sequence diagram would take the default line colour `#2F3B4D` (in any
/// letter case), else the theme's line colour.
pub open spec fn edge_stroke_of(kind: EdgeStrokeKind, line_color: Seq<char>) -> Seq<char> {
    if kind != EdgeStrokeKind::Other && lower(line_color) == lower("#2F3B4D"@) {
        "#333333"@
    } else {
        line_color
    }
}

/// The default stroke colour of a diagram's edges.
pub fn default_edge_stroke_for_kind(kind: EdgeStrokeKind, line_color: &str) -> (res: String)
    ensures
        res@ == edge_stroke_of(kind, line_color@),
{
    let dark = match kind {
        EdgeStrokeKind::Other => false,
        _ => true,
    };
    if dark && eq_ignore_ascii_case(line_color, "#2F3B4D") {
        "#333333".to_string()
    } else {
        line_color.to_string()
    }
}

proof fn lemma_encode_push(a: Seq<char>, c: char)
    ensures
        encode_utf8(a.push(c)) == encode_utf8(a) + encode_utf8(seq![c]),
        1 <= encode_utf8(seq![c]).len() <= 4,
{
    lemma_encode_utf8_concat(a, seq![c]);
    assert(a + seq![c] =~= a.push(c));
    let one = seq![c];
    assert(one.drop_first() =~= Seq::<char>::empty());
    assert(encode_utf8(one.drop_first()).len() == 0);
    assert(one[0] == c);
}

proof fn lemma_encode_len_bounds(s: Seq<char>)
    ensures
        s.len() <= encode_utf8(s).len() <= 4 * s.len(),
    decreases s.len(),
{
    if s.len() > 0 {
        lemma_encode_len_bounds(s.drop_last());
        lemma_encode_push(s.drop_last(), s.last());
        assert(s.drop_last().push(s.last()) =~= s);
    }
}

proof fn lemma_prefix_bytes_grow(s: Seq<char>, j: int, k: int)
    requires
        0 <= j < k <= s.len(),
    ensures
        encode_utf8(s.take(j)).len() < encode_utf8(s.take(k)).len(),
{
    lemma_encode_utf8_concat(s.take(j), s.subrange(j, k));
    assert(s.take(j) + s.subrange(j, k) =~= s.take(k));
    lemma_encode_len_bounds(s.subrange(j, k));
}

/// The UTF-8 width of `c` in bytes.
fn utf8_width(c: char) -> (res: usize)
    ensures
        res == encode_utf8(seq![c]).len(),
{
    proof {
        lemma_encode_push(Seq::<char>::empty(), c);
        assert(Seq::<char>::empty().push(c) =~= seq![c]);
        let one = seq![c];
        assert(one.drop_first() =~= Seq::<char>::empty());
        assert(one[0] == c);
    }
    let v = c as u32;
    if v < 0x80 {
        1
    } else if v < 0x800 {
        2
    } else if v < 0x10000 {
        3
    } else {
        4
    }
}

/// The number of characters of `v` whose UTF-8 encoding is `b` bytes long,
/// if there is one.
fn byte_prefix(v: &Vec<char>, b: usize) -> (res: Option<usize>)
    requires
        v.len() <= 64,
    ensures
        match res {
            Some(k) => k <= v.len() && encode_utf8(v@.take(k as int)).len() == b,
            None => forall|k: int| 0 <= k <= v.len() ==> encode_utf8(#[trigger] v@.take(k)).len() != b,
        },
{
    let mut k: usize = 0;
    let mut acc: usize = 0;
    assert(v@.take(0) =~= Seq::<char>::empty());
    loop
        invariant
            0 <= k <= v.len() <= 64,
            acc == encode_utf8(v@.take(k as int)).len(),
            acc <= 4 * k,
            forall|j: int| 0 <= j < k ==> encode_utf8(#[trigger] v@.take(j)).len() != b,
        decreases v.len() - k,
    {
        if acc == b {
            return Some(k);
        }
        if k == v.len() {
            return None;
        }
        let w = utf8_width(v[k]);
        proof {
            lemma_encode_push(v@.take(k as int), v@[k as int]);
            assert(v@.take(k as int).push(v@[k as int]) =~= v@.take(k + 1));
        }
        acc = acc + w;
        k = k + 1;
    }
}

/// Whether byte offset `b` of `v` falls between two characters.
fn is_boundary(v: &Vec<char>, b: usize) -> (res: bool)
    requires
        v.len() <= 64,
    ensures
        res == boundary(v@, b as int),
{
    match byte_prefix(v, b) {
        Some(k) => {
            proof {
                lemma_encode_len_bounds(v@.take(k as int));
                assert(utf8_len(v@.take(k as int)) == b);
            }
            true
        },
        None => {
            proof {
                assert forall|k: int| 0 <= k <= v@.len() implies utf8_len(#[trigger] v@.take(k)) != b by {
                    lemma_encode_len_bounds(v@.take(k));
                    assert(encode_utf8(v@.take(k)).len() != b);
                }
            }
            false
        },
    }
}

/// The digits of a colour after its `#`, with their UTF-8 length; the
/// length of a string fits in `usize`, so `utf8_len` is exact, and the
/// digits are few when that length is at most 8.
fn hex_digits_of(h: &String) -> (res: (Vec<char>, usize))
    ensures
        res.0@ == h@,
        res.1 == utf8_len(h@),
        res.1 == encode_utf8(h@).len(),
        res.1 <= 8 ==> h@.len() <= 8,
{
    let bytes = h.as_str().as_bytes();
    let hv = to_chars(h.as_str());
    let blen = h.as_str().len();
    proof {
        assert(bytes@.len() == bytes.len());
        lemma_encode_len_bounds(h@);
    }
    (hv, blen)
}

/// Whether `parse_hex_rgb` can read `value` without slicing inside a
/// character, the condition under which it may be called.
pub fn check_hex_rgb_slices(value: &str) -> (res: bool)
    ensures
        res == hex_rgb_slices_ok(value@),
{
    let v = to_chars(value);
    if v.len() == 0 || v[0] != '#' {
        return true;
    }
    let h = string_of(&v, 1, v.len());
    assert(h@ =~= value@.drop_first());
    let (hv, blen) = hex_digits_of(&h);
    if blen != 6 {
        return true;
    }
    is_boundary(&hv, 2) && is_boundary(&hv, 4)
}

/// Whether `parse_hex_color` can read `input` without slicing inside a
/// character, the condition under which it may be called.
pub fn check_hex_rgba_slices(input: &str) -> (res: bool)
    ensures
        res == hex_rgba_slices_ok(input@),
{
    let v = to_chars(input);
    assert(v@.subrange(0, v@.len() as int) =~= v@);
    let (a, b) = trim_range(&v, 0, v.len(), &CharSet::Ws);
    if a == b || v[a] != '#' {
        return true;
    }
    let h = string_of(&v, a + 1, b);
    assert(h@ =~= trim(input@, CharSet::Ws).drop_first());
    let (hv, blen) = hex_digits_of(&h);
    if blen == 3 {
        is_boundary(&hv, 1) && is_boundary(&hv, 2)
    } else if blen == 6 {
        is_boundary(&hv, 2) && is_boundary(&hv, 4)
    } else if blen == 8 {
        is_boundary(&hv, 2) && is_boundary(&hv, 4) && is_boundary(&hv, 6)
    } else {
        true
    }
}

/// Whether `parse_hex` can read a theme colour without slicing inside a
/// character, the condition under which it may be called.
pub fn check_theme_hex_slices(value: &str) -> (res: bool)
    ensures
        res == theme_hex_slices_ok(value@),
{
    let v = to_chars(value);
    if v.len() == 0 || v[0] != '#' {
        return true;
    }
    let h = string_of(&v, 1, v.len());
    assert(h@ =~= value@.drop_first());
    let (hv, blen) = hex_digits_of(&h);
    if blen == 3 {
        let mut d: Vec<char> = Vec::new();
        let mut i: usize = 0;
        while i < hv.len()
            invariant
                0 <= i <= hv.len() <= 8,
                d@ =~= doubled(hv@.take(i as int)),
            decreases hv.len() - i,
        {
            d.push(hv[i]);
            d.push(hv[i]);
            assert(d@ =~= doubled(hv@.take(i + 1)));
            i += 1;
        }
        assert(hv@.take(hv.len() as int) =~= hv@);
        is_boundary(&d, 2) && is_boundary(&d, 4)
    } else if blen == 6 {
        is_boundary(&hv, 2) && is_boundary(&hv, 4)
    } else if blen == 8 {
        match byte_prefix(&hv, 6) {
            None => {
                proof {
                    assert forall|k: int| 0 <= k <= hv@.len() implies utf8_len(#[trigger] hv@.take(k)) != 6 by {
                        lemma_encode_len_bounds(hv@.take(k));
                        assert(encode_utf8(hv@.take(k)).len() != 6);
                    }
                }
                false
            },
            Some(k) => {
                let mut t: Vec<char> = Vec::new();
                let mut i: usize = 0;
                while i < k
                    invariant
                        0 <= i <= k <= hv.len() <= 8,
                        t@ =~= hv@.take(i as int),
                    decreases k - i,
                {
                    t.push(hv[i]);
                    i += 1;
                }
                proof {
                    let hs = hv@;
                    lemma_encode_len_bounds(hs.take(k as int));
                    assert(boundary(hs, 6)) by {
                        assert(utf8_len(hs.take(k as int)) == 6);
                    }
                    assert forall|j: int| 0 <= j <= hs.len() && utf8_len(#[trigger] hs.take(j)) == 6 implies j == k by {
                        lemma_encode_len_bounds(hs.take(j));
                        if j < k {
                            lemma_prefix_bytes_grow(hs, j, k as int);
                        } else if j > k {
                            lemma_prefix_bytes_grow(hs, k as int, j);
                        }
                    }
                }
                is_boundary(&t, 2) && is_boundary(&t, 4)
            },
        }
    } else {
        true
    }
}

/// The hex digits read as radix-16 values, as `char::to_digit(16)` and
/// `u8::from_str_radix(_, 16)` read them: the `i`-th character of
/// `0123456789abcdef` or of `0123456789ABCDEF` is a digit worth `i`, and
/// every hex digit is one of these 22 characters.
pub proof fn lemma_hex_digits_radix16()
    ensures
        forall|i: int| 0 <= i < 16 ==> hex_digit(#[trigger] "0123456789abcdef"@[i]) && hex_value("0123456789abcdef"@[i]) == i,
        forall|i: int| 0 <= i < 16 ==> hex_digit(#[trigger] "0123456789ABCDEF"@[i]) && hex_value("0123456789ABCDEF"@[i]) == i,
        forall|c: char| #[trigger] hex_digit(c) ==> "0123456789abcdef"@.contains(c) || "0123456789ABCDEF"@.contains(c),
{
    reveal_strlit("0123456789abcdef");
    reveal_strlit("0123456789ABCDEF");
    let lo = "0123456789abcdef"@;
    let up = "0123456789ABCDEF"@;
    assert forall|i: int| 0 <= i < 16 implies hex_digit(#[trigger] lo[i]) && hex_value(lo[i]) == i by {
        if i == 0 {
            assert(lo[0] == '0');
        } else if i == 1 {
            assert(lo[1] == '1');
        } else if i == 2 {
            assert(lo[2] == '2');
        } else if i == 3 {
            assert(lo[3] == '3');
        } else if i == 4 {
            assert(lo[4] == '4');
        } else if i == 5 {
            assert(lo[5] == '5');
        } else if i == 6 {
            assert(lo[6] == '6');
        } else if i == 7 {
            assert(lo[7] == '7');
        } else if i == 8 {
            assert(lo[8] == '8');
        } else if i == 9 {
            assert(lo[9] == '9');
        } else if i == 10 {
            assert(lo[10] == 'a');
        } else if i == 11 {
            assert(lo[11] == 'b');
        } else if i == 12 {
            assert(lo[12] == 'c');
        } else if i == 13 {
            assert(lo[13] == 'd');
        } else if i == 14 {
            assert(lo[14] == 'e');
        } else if i == 15 {
            assert(lo[15] == 'f');
        }
    }
    assert forall|i: int| 0 <= i < 16 implies hex_digit(#[trigger] up[i]) && hex_value(up[i]) == i by {
        if i == 0 {
            assert(up[0] == '0');
        } else if i == 1 {
            assert(up[1] == '1');
        } else if i == 2 {
            assert(up[2] == '2');
        } else if i == 3 {
            assert(up[3] == '3');
        } else if i == 4 {
            assert(up[4] == '4');
        } else if i == 5 {
            assert(up[5] == '5');
        } else if i == 6 {
            assert(up[6] == '6');
        } else if i == 7 {
            assert(up[7] == '7');
        } else if i == 8 {
            assert(up[8] == '8');
        } else if i == 9 {
            assert(up[9] == '9');
        } else if i == 10 {
            assert(up[10] == 'A');
        } else if i == 11 {
            assert(up[11] == 'B');
        } else if i == 12 {
            assert(up[12] == 'C');
        } else if i == 13 {
            assert(up[13] == 'D');
        } else if i == 14 {
            assert(up[14] == 'E');
        } else if i == 15 {
            assert(up[15] == 'F');
        }
    }
    assert forall|c: char| #[trigger] hex_digit(c) implies lo.contains(c) || up.contains(c) by {
        let v = c as int;
        if '0' <= c && c <= '9' {
            assert(lo[v - 48] == c);
        } else if 'a' <= c && c <= 'f' {
            assert(lo[v - 87] == c);
        } else {
            assert(up[v - 55] == c);
        }
    }
}

/// The two-character string `a` then `b`.
pub open spec fn two_chars(a: char, b: char) -> Seq<char> {
    seq![a, b]
}

/// Two hex digits read as one byte: the digits worth `i` and `j` give
/// `16 * i + j`, in either letter case.
pub proof fn lemma_hex_pair_value()
    ensures
        forall|i: int, j: int|
            0 <= i < 16 && 0 <= j < 16 ==> #[trigger] pair_value(two_chars("0123456789abcdef"@[i], "0123456789abcdef"@[j])) == Some(
                (16 * i + j) as u8,
            ),
        forall|i: int, j: int|
            0 <= i < 16 && 0 <= j < 16 ==> #[trigger] pair_value(two_chars("0123456789ABCDEF"@[i], "0123456789ABCDEF"@[j])) == Some(
                (16 * i + j) as u8,
            ),
{
    lemma_hex_digits_radix16();
    reveal_strlit("0123456789abcdef");
    reveal_strlit("0123456789ABCDEF");
    assert forall|i: int, j: int|
        0 <= i < 16 && 0 <= j < 16 implies #[trigger] pair_value(two_chars("0123456789abcdef"@[i], "0123456789abcdef"@[j])) == Some(
            (16 * i + j) as u8,
        ) by {
        assert(hex_digit("0123456789abcdef"@[i]) && hex_digit("0123456789abcdef"@[j]));
        assert("0123456789abcdef"@[i] != '+');
    }
    assert forall|i: int, j: int|
        0 <= i < 16 && 0 <= j < 16 implies #[trigger] pair_value(two_chars("0123456789ABCDEF"@[i], "0123456789ABCDEF"@[j])) == Some(
            (16 * i + j) as u8,
        ) by {
        assert(hex_digit("0123456789ABCDEF"@[i]) && hex_digit("0123456789ABCDEF"@[j]));
        assert("0123456789ABCDEF"@[i] != '+');
    }
}

} // verus!
