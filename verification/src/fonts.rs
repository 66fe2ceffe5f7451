//! Font-family strings: picking the family to measure with or embed, the
//! cache of loaded font files, and recognising a font file's format.
use vstd::prelude::*;
use vstd::hash_map::StringHashMap;
use crate::ttf::{parse_font_file, ttf_face_parses};
use crate::text::{
    dec, digit_char, lower, push_char, push_dec, split, split_chars, str_eq, to_chars, to_lower, trim, trim_str,
    views, CharSet,
};

verus! {

/// The CSS generic families (and system aliases) that never name a font file.
pub open spec fn generic_name(s: Seq<char>) -> bool {
    ||| s == "serif"@
    ||| s == "sans-serif"@
    ||| s == "monospace"@
    ||| s == "cursive"@
    ||| s == "fantasy"@
    ||| s == "system-ui"@
    ||| s == "ui-sans-serif"@
    ||| s == "ui-monospace"@
    ||| s == "-apple-system"@
}

/// Whether `s`, already lower-cased, is a generic family name.
pub fn is_generic_lower(s: &str) -> (res: bool)
    ensures
        res == generic_name(s@),
{
    str_eq(s, "serif") || str_eq(s, "sans-serif") || str_eq(s, "monospace") || str_eq(
        s,
        "cursive",
    ) || str_eq(s, "fantasy") || str_eq(s, "system-ui") || str_eq(s, "ui-sans-serif")
        || str_eq(s, "ui-monospace") || str_eq(s, "-apple-system")
}

pub open spec fn opt_view(o: Option<String>) -> Option<Seq<char>> {
    match o {
        Some(s) => Some(s@),
        None => None,
    }
}

/// One comma-separated entry of a family list, as the measurer reads it:
/// white space, then double quotes, then single quotes, then white space
/// again are stripped from both ends.
pub open spec fn measured_token(part: Seq<char>) -> Seq<char> {
    trim(trim(trim(trim(part, CharSet::Ws), CharSet::One('"')), CharSet::One('\'')), CharSet::Ws)
}

/// The first entry of `parts` that is neither empty nor generic, lower-cased.
pub open spec fn first_named_lower(parts: Seq<Seq<char>>) -> Option<Seq<char>>
    decreases parts.len(),
{
    if parts.len() == 0 {
        None
    } else {
        let raw = measured_token(parts[0]);
        if raw.len() == 0 || generic_name(lower(raw)) {
            first_named_lower(parts.drop_first())
        } else {
            Some(lower(raw))
        }
    }
}

pub open spec fn preferred_family_of(font_family: Seq<char>) -> Option<Seq<char>> {
    first_named_lower(split(font_family, CharSet::One(',')))
}

/// The first family of a CSS font-family list that names an actual font,
/// lower-cased; generic fallbacks such as `sans-serif` are skipped.
pub fn preferred_named_family(font_family: &str) -> (res: Option<String>)
    ensures
        opt_view(res) == preferred_family_of(font_family@),
{
    let parts = split_chars(&to_chars(font_family), &CharSet::One(','));
    let ghost all = views(parts@);
    let mut i: usize = 0;
    assert(all.skip(0) =~= all);
    while i < parts.len()
        invariant
            0 <= i <= parts.len(),
            all == views(parts@),
            all == split(font_family@, CharSet::One(',')),
            first_named_lower(all.skip(i as int)) == first_named_lower(all),
        decreases parts.len() - i,
    {
        let part = parts[i].as_str();
        let a = trim_str(part, &CharSet::Ws);
        let b = trim_str(a.as_str(), &CharSet::One('"'));
        let c = trim_str(b.as_str(), &CharSet::One('\''));
        let raw = trim_str(c.as_str(), &CharSet::Ws);
        assert(all.skip(i as int)[0] == part@);
        assert(raw@ == measured_token(part@));
        if raw.as_str().is_empty() {
            assert(all.skip(i as int).drop_first() =~= all.skip(i + 1));
            i += 1;
            continue;
        }
        let low = to_lower(raw.as_str());
        if is_generic_lower(low.as_str()) {
            assert(all.skip(i as int).drop_first() =~= all.skip(i + 1));
            i += 1;
            continue;
        }
        return Some(low);
    }
    None
}

/// `font_family` with surrounding white space removed, or `sans-serif`
/// when nothing is left.
pub open spec fn family_key_of(font_family: Seq<char>) -> Seq<char> {
    let t = trim(font_family, CharSet::Ws);
    if t.len() == 0 {
        "sans-serif"@
    } else {
        t
    }
}

pub fn normalize_family_key(font_family: &str) -> (res: String)
    ensures
        res@ == family_key_of(font_family@),
{
    let trimmed = trim_str(font_family, &CharSet::Ws);
    if trimmed.as_str().is_empty() {
        "sans-serif".to_owned()
    } else {
        trimmed
    }
}

/// The cache key of a family at a weight: `<normalized family>|<weight>`.
pub open spec fn cache_key_of(font_family: Seq<char>, weight: u16) -> Seq<char> {
    family_key_of(font_family).push('|') + dec(weight as nat)
}

pub fn cache_key(font_family: &str, weight: u16) -> (res: String)
    ensures
        res@ == cache_key_of(font_family@, weight),
{
    let mut key = normalize_family_key(font_family);
    push_char(&mut key, '|');
    push_dec(&mut key, weight as u64);
    key
}

/// MIME type and CSS `format()` hint of a font file, by its first four bytes.
pub open spec fn font_format_of(data: Seq<u8>) -> (Seq<char>, Seq<char>) {
    if data.len() >= 4 && data[0] == 0x77 && data[1] == 0x4f && data[2] == 0x46 && data[3] == 0x32 {
        ("font/woff2"@, "woff2"@)
    } else if data.len() >= 4 && data[0] == 0x77 && data[1] == 0x4f && data[2] == 0x46
        && data[3] == 0x46 {
        ("font/woff"@, "woff"@)
    } else if data.len() >= 4 && data[0] == 0x4f && data[1] == 0x54 && data[2] == 0x54
        && data[3] == 0x4f {
        ("font/otf"@, "opentype"@)
    } else if data.len() >= 4 && data[0] == 0x74 && data[1] == 0x74 && data[2] == 0x63
        && data[3] == 0x66 {
        ("font/collection"@, "truetype-collection"@)
    } else {
        ("font/ttf"@, "truetype"@)
    }
}

/// Recognises `wOF2`, `wOFF`, `OTTO` and `ttcf` signatures; anything else is
/// taken for TrueType.
pub fn font_data_format(data: &[u8]) -> (res: (&'static str, &'static str))
    ensures
        (res.0@, res.1@) == font_format_of(data@),
{
    if data.len() >= 4 {
        let (a, b, c, d) = (data[0], data[1], data[2], data[3]);
        if a == 0x77 && b == 0x4f && c == 0x46 && d == 0x32 {
            return ("font/woff2", "woff2");
        }
        if a == 0x77 && b == 0x4f && c == 0x46 && d == 0x46 {
            return ("font/woff", "woff");
        }
        if a == 0x4f && b == 0x54 && c == 0x54 && d == 0x4f {
            return ("font/otf", "opentype");
        }
        if a == 0x74 && b == 0x74 && c == 0x63 && d == 0x66 {
            return ("font/collection", "truetype-collection");
        }
    }
    ("font/ttf", "truetype")
}

/// A font file ready to be inlined into an SVG `@font-face` rule.
#[derive(Debug, Clone)]
pub struct EmbeddedFontData {
    pub bytes: Vec<u8>,
    pub mime_type: &'static str,
    pub format_hint: &'static str,
}

/// A loaded face: the bytes of its font file and its index in the file.
pub open spec fn face_view(o: Option<(Vec<u8>, u32)>) -> Option<(Seq<u8>, u32)> {
    match o {
        Some(f) => Some((f.0@, f.1)),
        None => None,
    }
}

/// A loaded face as the cache keeps it: only a face that `ttf_parser`
/// parses; anything else is recorded as not found.
pub open spec fn parsed_face(face: Option<(Seq<u8>, u32)>) -> Option<(Seq<u8>, u32)> {
    match face {
        Some(f) => if ttf_face_parses(f.0, f.1) {
            Some(f)
        } else {
            None
        },
        None => None,
    }
}

/// The cache after recording `face` under `key`: the first outcome recorded
/// for a key stays.
pub open spec fn store_of(
    cache: Map<Seq<char>, Option<(Seq<u8>, u32)>>,
    key: Seq<char>,
    face: Option<(Seq<u8>, u32)>,
) -> Map<Seq<char>, Option<(Seq<u8>, u32)>> {
    if cache.contains_key(key) {
        cache
    } else {
        cache.insert(key, parsed_face(face))
    }
}

/// The faces loaded so far, by cache key (family and weight); `None`
/// records a family for which no face could be loaded, so the lookup is not
/// repeated. Every face held parses with `ttf_parser`.
pub struct FontCache {
    faces: StringHashMap<Option<(Vec<u8>, u32)>>,
}

impl View for FontCache {
    type V = Map<Seq<char>, Option<(Seq<u8>, u32)>>;

    closed spec fn view(&self) -> Self::V {
        self.faces@.map_values(|v: Option<(Vec<u8>, u32)>| face_view(v))
    }
}

impl FontCache {
    #[verifier::type_invariant]
    spec fn only_parsed_faces(self) -> bool {
        forall|k: Seq<char>|
            #[trigger] self.faces@.contains_key(k) && self.faces@[k] is Some ==> ttf_face_parses(
                (self.faces@[k]->0).0@,
                (self.faces@[k]->0).1,
            )
    }

    pub fn new() -> (res: Self)
        ensures
            res@ == Map::<Seq<char>, Option<(Seq<u8>, u32)>>::empty(),
    {
        let res = FontCache { faces: StringHashMap::new() };
        assert(res@ =~= Map::<Seq<char>, Option<(Seq<u8>, u32)>>::empty());
        res
    }

    /// Whether a lookup for this family and weight has been recorded.
    pub fn has_face(&self, font_family: &str, weight: u16) -> (res: bool)
        ensures
            res == self@.contains_key(cache_key_of(font_family@, weight)),
    {
        let key = cache_key(font_family, weight);
        self.faces.contains_key(key.as_str())
    }

    /// Records the outcome of loading this family at this weight, unless
    /// one is recorded already; a face that does not parse is recorded as
    /// not found.
    pub fn store_face(&mut self, font_family: &str, weight: u16, face: Option<(Vec<u8>, u32)>)
        ensures
            final(self)@ == store_of(old(self)@, cache_key_of(font_family@, weight), face_view(face)),
    {
        proof {
            use_type_invariant(&*self);
        }
        let key = cache_key(font_family, weight);
        if self.faces.contains_key(key.as_str()) {
            return;
        }
        let ghost k = key@;
        let ghost f = face_view(face);
        let checked = match face {
            Some((bytes, index)) => {
                let parses = parse_font_file(bytes.as_slice(), index).is_some();
                if parses {
                    Some((bytes, index))
                } else {
                    None
                }
            },
            None => None,
        };
        assert(face_view(checked) == parsed_face(f));
        let mut faces = StringHashMap::new();
        std::mem::swap(&mut faces, &mut self.faces);
        let ghost before = faces@;
        faces.insert(key, checked);
        assert(faces@ == before.insert(k, checked));
        self.faces = faces;
        assert(self@ =~= old(self)@.insert(k, parsed_face(f)));
    }
}

/// What the cache holds for a family at a weight, as font data to embed.
pub open spec fn embedded_font_of(cache: Map<Seq<char>, Option<(Seq<u8>, u32)>>, font_family: Seq<char>, weight: u16) -> Option<(Seq<u8>, Seq<char>, Seq<char>)> {
    let key = cache_key_of(font_family, weight);
    if cache.contains_key(key) && cache[key] is Some {
        let bytes = (cache[key]->0).0;
        Some((bytes, font_format_of(bytes).0, font_format_of(bytes).1))
    } else {
        None
    }
}

pub open spec fn embedded_view(o: Option<EmbeddedFontData>) -> Option<(Seq<u8>, Seq<char>, Seq<char>)> {
    match o {
        Some(d) => Some((d.bytes@, d.mime_type@, d.format_hint@)),
        None => None,
    }
}

/// The font file loaded for `font_family` at `weight`, with its MIME type
/// and format hint; `None` when none was found. The file parses with
/// `ttf_parser` at some face index.
pub fn embedded_font_data_with_weight(cache: &FontCache, font_family: &str, weight: u16) -> (res: Option<EmbeddedFontData>)
    ensures
        embedded_view(res) == embedded_font_of(cache@, font_family@, weight),
        res matches Some(d) ==> exists|i: u32| ttf_face_parses(d.bytes@, i),
{
    proof {
        use_type_invariant(cache);
    }
    let key = cache_key(font_family, weight);
    match cache.faces.get(key.as_str()) {
        Some(Some(face)) => {
            let (mime_type, format_hint) = font_data_format(face.0.as_slice());
            let bytes = face.0.clone();
            assert(bytes@ =~= face.0@);
            assert(ttf_face_parses(bytes@, face.1));
            Some(EmbeddedFontData { bytes, mime_type, format_hint })
        },
        _ => None,
    }
}

/// The regular-weight (400) font file loaded for `font_family`.
pub fn embedded_font_data(cache: &FontCache, font_family: &str) -> (res: Option<EmbeddedFontData>)
    ensures
        embedded_view(res) == embedded_font_of(cache@, font_family@, 400),
        res matches Some(d) ==> exists|i: u32| ttf_face_parses(d.bytes@, i),
{
    embedded_font_data_with_weight(cache, font_family, 400)
}

/// Reading a family back from the cache gives the face first recorded for
/// it at that weight, provided it parses; a later record for the same family
/// and weight changes nothing, and recording one family leaves the others as
/// they were.
pub proof fn lemma_store_then_embed(
    cache: Map<Seq<char>, Option<(Seq<u8>, u32)>>,
    font_family: Seq<char>,
    weight: u16,
    face: Option<(Seq<u8>, u32)>,
    other: Seq<char>,
    other_weight: u16,
)
    ensures
        !cache.contains_key(cache_key_of(font_family, weight)) ==> embedded_font_of(
            store_of(cache, cache_key_of(font_family, weight), face),
            font_family,
            weight,
        ) == match parsed_face(face) {
            Some(f) => Some((f.0, font_format_of(f.0).0, font_format_of(f.0).1)),
            None => None,
        },
        cache.contains_key(cache_key_of(font_family, weight)) ==> store_of(
            cache,
            cache_key_of(font_family, weight),
            face,
        ) == cache,
        cache_key_of(other, other_weight) != cache_key_of(font_family, weight) ==> embedded_font_of(
            store_of(cache, cache_key_of(font_family, weight), face),
            other,
            other_weight,
        ) == embedded_font_of(cache, other, other_weight),
{
}

/// The cache after recording each (key, face) of `ops` in turn.
pub open spec fn stores_of(
    cache: Map<Seq<char>, Option<(Seq<u8>, u32)>>,
    ops: Seq<(Seq<char>, Option<(Seq<u8>, u32)>)>,
) -> Map<Seq<char>, Option<(Seq<u8>, u32)>>
    decreases ops.len(),
{
    if ops.len() == 0 {
        cache
    } else {
        store_of(stores_of(cache, ops.drop_last()), ops.last().0, ops.last().1)
    }
}

/// What the cache gives for a family is stable: once a lookup for a family
/// and weight is recorded, any later records leave it unchanged, and a family
/// written with other surrounding white space reads the same entry.
pub proof fn lemma_embedded_font_stable(
    cache: Map<Seq<char>, Option<(Seq<u8>, u32)>>,
    ops: Seq<(Seq<char>, Option<(Seq<u8>, u32)>)>,
    family: Seq<char>,
    same_family: Seq<char>,
    weight: u16,
)
    requires
        cache.contains_key(cache_key_of(family, weight)),
        trim(family, CharSet::Ws) == trim(same_family, CharSet::Ws),
    ensures
        embedded_font_of(stores_of(cache, ops), same_family, weight) == embedded_font_of(cache, family, weight),
    decreases ops.len(),
{
    let key = cache_key_of(family, weight);
    assert(cache_key_of(same_family, weight) == key);
    if ops.len() > 0 {
        lemma_embedded_font_stable(cache, ops.drop_last(), family, same_family, weight);
        lemma_stores_keep_key(cache, ops.drop_last(), key);
    }
}

proof fn lemma_stores_keep_key(
    cache: Map<Seq<char>, Option<(Seq<u8>, u32)>>,
    ops: Seq<(Seq<char>, Option<(Seq<u8>, u32)>)>,
    key: Seq<char>,
)
    requires
        cache.contains_key(key),
    ensures
        stores_of(cache, ops).contains_key(key),
        stores_of(cache, ops)[key] == cache[key],
    decreases ops.len(),
{
    if ops.len() > 0 {
        lemma_stores_keep_key(cache, ops.drop_last(), key);
    }
}

/// The generic families a font database can be queried for.
#[derive(Clone, Copy, Debug, PartialEq, Eq, Structural)]
pub enum GenericFamily {
    Serif,
    SansSerif,
    Monospace,
    Cursive,
    Fantasy,
}

/// One entry of a font-database query: a generic family or a family name.
#[derive(Clone, Debug)]
pub enum FamilyToken {
    Generic(GenericFamily),
    Name(String),
}

impl View for FamilyToken {
    type V = (Option<GenericFamily>, Seq<char>);

    open spec fn view(&self) -> Self::V {
        match self {
            FamilyToken::Generic(g) => (Some(*g), Seq::<char>::empty()),
            FamilyToken::Name(n) => (None, n@),
        }
    }
}

/// One entry of a family list as the font query reads it: white space, then
/// double quotes, then single quotes are stripped from both ends.
pub open spec fn query_raw(part: Seq<char>) -> Seq<char> {
    trim(trim(trim(part, CharSet::Ws), CharSet::One('"')), CharSet::One('\''))
}

/// The generic family a lower-cased entry stands for, system aliases included.
pub open spec fn generic_of(low: Seq<char>) -> Option<GenericFamily> {
    if low == "serif"@ {
        Some(GenericFamily::Serif)
    } else if low == "sans-serif"@ {
        Some(GenericFamily::SansSerif)
    } else if low == "monospace"@ {
        Some(GenericFamily::Monospace)
    } else if low == "cursive"@ {
        Some(GenericFamily::Cursive)
    } else if low == "fantasy"@ {
        Some(GenericFamily::Fantasy)
    } else if low == "system-ui"@ || low == "-apple-system"@ || low == "ui-sans-serif"@ {
        Some(GenericFamily::SansSerif)
    } else if low == "ui-monospace"@ {
        Some(GenericFamily::Monospace)
    } else {
        None
    }
}

pub open spec fn query_tokens(parts: Seq<Seq<char>>) -> Seq<(Option<GenericFamily>, Seq<char>)>
    decreases parts.len(),
{
    if parts.len() == 0 {
        Seq::<(Option<GenericFamily>, Seq<char>)>::empty()
    } else {
        let init = query_tokens(parts.drop_last());
        let raw = query_raw(parts.last());
        if raw.len() == 0 {
            init
        } else {
            match generic_of(lower(raw)) {
                Some(g) => init.push((Some(g), Seq::<char>::empty())),
                None => init.push((None, raw)),
            }
        }
    }
}

/// The query order for a family list; a list naming nothing asks for
/// `sans-serif`.
pub open spec fn family_query_of(font_family: Seq<char>) -> Seq<(Option<GenericFamily>, Seq<char>)> {
    let t = query_tokens(split(font_family, CharSet::One(',')));
    if t.len() == 0 {
        seq![(Some(GenericFamily::SansSerif), Seq::<char>::empty())]
    } else {
        t
    }
}

fn generic_family(low: &str) -> (res: Option<GenericFamily>)
    ensures
        res == generic_of(low@),
{
    if str_eq(low, "serif") {
        Some(GenericFamily::Serif)
    } else if str_eq(low, "sans-serif") {
        Some(GenericFamily::SansSerif)
    } else if str_eq(low, "monospace") {
        Some(GenericFamily::Monospace)
    } else if str_eq(low, "cursive") {
        Some(GenericFamily::Cursive)
    } else if str_eq(low, "fantasy") {
        Some(GenericFamily::Fantasy)
    } else if str_eq(low, "system-ui") || str_eq(low, "-apple-system") || str_eq(
        low,
        "ui-sans-serif",
    ) {
        Some(GenericFamily::SansSerif)
    } else if str_eq(low, "ui-monospace") {
        Some(GenericFamily::Monospace)
    } else {
        None
    }
}

pub open spec fn tokens_view(v: Seq<FamilyToken>) -> Seq<(Option<GenericFamily>, Seq<char>)> {
    v.map_values(|t: FamilyToken| t@)
}

/// The families to ask the font database for, in order, when measuring or
/// embedding text set in `font_family`.
pub fn family_query_order(font_family: &str) -> (res: Vec<FamilyToken>)
    ensures
        tokens_view(res@) == family_query_of(font_family@),
{
    let parts = split_chars(&to_chars(font_family), &CharSet::One(','));
    let ghost all = views(parts@);
    let mut order: Vec<FamilyToken> = Vec::new();
    let mut i: usize = 0;
    assert(all.take(0) =~= Seq::<Seq<char>>::empty());
    while i < parts.len()
        invariant
            0 <= i <= parts.len(),
            all == views(parts@),
            tokens_view(order@) == query_tokens(all.take(i as int)),
        decreases parts.len() - i,
    {
        assert(all.take(i + 1).drop_last() =~= all.take(i as int));
        assert(all.take(i + 1).last() == parts@[i as int]@);
        let a = trim_str(parts[i].as_str(), &CharSet::Ws);
        let b = trim_str(a.as_str(), &CharSet::One('"'));
        let raw = trim_str(b.as_str(), &CharSet::One('\''));
        if !raw.as_str().is_empty() {
            let low = to_lower(raw.as_str());
            let token = match generic_family(low.as_str()) {
                Some(g) => FamilyToken::Generic(g),
                None => FamilyToken::Name(raw),
            };
            let ghost before = tokens_view(order@);
            let ghost tv = token@;
            order.push(token);
            assert(tokens_view(order@) =~= before.push(tv));
        }
        i += 1;
    }
    assert(all.take(parts.len() as int) =~= all);
    if order.len() == 0 {
        order.push(FamilyToken::Generic(GenericFamily::SansSerif));
        assert(tokens_view(order@) =~= seq![(Some(GenericFamily::SansSerif), Seq::<char>::empty())]);
    }
    order
}

pub open spec fn strs_view(v: Seq<&str>) -> Seq<Seq<char>> {
    v.map_values(|s: &str| s@)
}

/// The font files tried first for a family list whose preferred family is
/// Trebuchet MS: bold files ahead of regular ones from weight 600 up.
pub open spec fn known_face_paths_of(font_family: Seq<char>, weight: u16) -> Seq<Seq<char>> {
    if preferred_family_of(font_family) != Some("trebuchet ms"@) {
        Seq::<Seq<char>>::empty()
    } else if weight >= 600 {
        seq![
            "/System/Library/Fonts/Supplemental/Trebuchet MS Bold.ttf"@,
            "/Library/Fonts/Trebuchet MS Bold.ttf"@,
            "C:\\Windows\\Fonts\\trebucbd.ttf"@,
            "/System/Library/Fonts/Supplemental/Trebuchet MS.ttf"@,
            "/Library/Fonts/Trebuchet MS.ttf"@,
            "C:\\Windows\\Fonts\\trebuc.ttf"@,
        ]
    } else {
        seq![
            "/System/Library/Fonts/Supplemental/Trebuchet MS.ttf"@,
            "/Library/Fonts/Trebuchet MS.ttf"@,
            "C:\\Windows\\Fonts\\trebuc.ttf"@,
        ]
    }
}

/// The locations of the Trebuchet MS files to try, in order, before asking
/// the font database; empty unless the list prefers Trebuchet MS.
pub fn known_face_paths(font_family: &str, weight: u16) -> (res: Vec<&'static str>)
    ensures
        strs_view(res@) == known_face_paths_of(font_family@, weight),
{
    let mut paths: Vec<&'static str> = Vec::new();
    let preferred = preferred_named_family(font_family);
    let is_trebuchet = match &preferred {
        Some(p) => str_eq(p.as_str(), "trebuchet ms"),
        None => false,
    };
    if !is_trebuchet {
        assert(strs_view(paths@) =~= Seq::<Seq<char>>::empty());
        return paths;
    }
    if weight >= 600 {
        paths.push("/System/Library/Fonts/Supplemental/Trebuchet MS Bold.ttf");
        paths.push("/Library/Fonts/Trebuchet MS Bold.ttf");
        paths.push("C:\\Windows\\Fonts\\trebucbd.ttf");
    }
    paths.push("/System/Library/Fonts/Supplemental/Trebuchet MS.ttf");
    paths.push("/Library/Fonts/Trebuchet MS.ttf");
    paths.push("C:\\Windows\\Fonts\\trebuc.ttf");
    assert(strs_view(paths@) =~= known_face_paths_of(font_family@, weight));
    paths
}

/// The arrows that measure one em wide when a font has no glyph for them.
pub open spec fn wide_symbol(ch: char) -> bool {
    ||| ch == '\u{2190}' || ch == '\u{2191}' || ch == '\u{2192}' || ch == '\u{2193}'
    ||| ch == '\u{2194}' || ch == '\u{2195}' || ch == '\u{21d0}' || ch == '\u{21d1}'
    ||| ch == '\u{21d2}' || ch == '\u{21d3}' || ch == '\u{21d4}' || ch == '\u{21d5}'
}

pub fn is_wide_symbol_fallback(ch: char) -> (res: bool)
    ensures
        res == wide_symbol(ch),
{
    ch == '\u{2190}' || ch == '\u{2191}' || ch == '\u{2192}' || ch == '\u{2193}' || ch == '\u{2194}'
        || ch == '\u{2195}' || ch == '\u{21d0}' || ch == '\u{21d1}' || ch == '\u{21d2}' || ch
        == '\u{21d3}' || ch == '\u{21d4}' || ch == '\u{21d5}'
}

pub open spec fn is_digit(c: char) -> bool {
    '0' <= c && c <= '9'
}

pub open spec fn all_digits(d: Seq<char>) -> bool {
    forall|i: int| 0 <= i < d.len() ==> is_digit(#[trigger] d[i])
}

/// The value of a string of decimal digits.
pub open spec fn digits_value(d: Seq<char>) -> nat
    decreases d.len(),
{
    if d.len() == 0 {
        0
    } else {
        digits_value(d.drop_last()) * 10 + (d.last() as nat - 48) as nat
    }
}

/// `u32::from_str`: an optional `+`, then one or more decimal digits whose
/// value fits in 32 bits.
pub open spec fn u32_value_of(s: Seq<char>) -> Option<u32> {
    let d = if s.len() > 0 && s[0] == '+' { s.drop_first() } else { s };
    if d.len() == 0 || !all_digits(d) {
        None
    } else if digits_value(d) > u32::MAX {
        None
    } else {
        Some(digits_value(d) as u32)
    }
}

proof fn lemma_digits_value_grows(d: Seq<char>, i: int)
    requires
        0 <= i <= d.len(),
        forall|k: int| 0 <= k < d.len() ==> is_digit(#[trigger] d[k]),
    ensures
        digits_value(d.take(i)) <= digits_value(d),
    decreases d.len() - i,
{
    if i < d.len() {
        lemma_digits_value_grows(d, i + 1);
        assert(d.take(i + 1).drop_last() =~= d.take(i));
    } else {
        assert(d.take(i) =~= d);
    }
}

/// The face index stored in a cached font's metadata file: the file's text,
/// trimmed, read as a `u32`.
pub fn parse_face_index(meta: &str) -> (res: Option<u32>)
    ensures
        res == u32_value_of(trim(meta@, CharSet::Ws)),
{
    let t = trim_str(meta, &CharSet::Ws);
    let v = to_chars(t.as_str());
    let ghost s = v@;
    let start: usize = if v.len() > 0 && v[0] == '+' { 1 } else { 0 };
    let ghost d = if s.len() > 0 && s[0] == '+' { s.drop_first() } else { s };
    assert(d =~= s.skip(start as int));
    if start == v.len() {
        return None;
    }
    let mut value: u64 = 0;
    let mut i: usize = start;
    while i < v.len()
        invariant
            v@ == s,
            s == trim(meta@, CharSet::Ws),
            start <= i <= v.len(),
            d == s.skip(start as int),
            d == (if s.len() > 0 && s[0] == '+' { s.drop_first() } else { s }),
            forall|k: int| 0 <= k < i - start ==> is_digit(#[trigger] d[k]),
            value == digits_value(d.take(i - start)),
            value <= u32::MAX,
        decreases v.len() - i,
    {
        let c = v[i];
        assert(d[i - start] == c);
        if !('0' <= c && c <= '9') {
            assert(!is_digit(d[i - start]));
            assert(!all_digits(d));
            assert(u32_value_of(s) is None);
            return None;
        }
        assert(d.take(i - start + 1).drop_last() =~= d.take(i - start));
        let next = value * 10 + (c as u64 - 48);
        if next > 0xffff_ffff {
            proof {
                assert(d.take(i - start + 1).last() == c);
                assert(digits_value(d.take(i - start + 1)) == next);
                if all_digits(d) {
                    lemma_digits_value_grows(d, i - start + 1);
                }
            }
            assert(u32_value_of(s) is None);
            return None;
        }
        value = next;
        i += 1;
    }
    assert(d.take(d.len() as int) =~= d);
    Some(value as u32)
}

/// Decimal formatting and parsing agree: `dec(n)` is a non-empty string of
/// decimal digits without a leading zero (unless it is `0`), whose value is
/// `n`; for a `u32`, reading it back as a face index gives `n`.
pub proof fn lemma_dec_round_trip(n: nat)
    ensures
        dec(n).len() > 0,
        all_digits(dec(n)),
        dec(n)[0] == '0' ==> n == 0 && dec(n).len() == 1,
        digits_value(dec(n)) == n,
        n <= u32::MAX ==> u32_value_of(dec(n)) == Some(n as u32),
    decreases n,
{
    let k = n % 10;
    assert(digit_char(k) as nat == k + 48);
    if n >= 10 {
        lemma_dec_round_trip(n / 10);
        let d = dec(n);
        assert(d.drop_last() == dec(n / 10));
        assert(n == (n / 10) * 10 + n % 10);
        assert(d[0] == dec(n / 10)[0]);
        assert forall|i: int| 0 <= i < d.len() implies is_digit(#[trigger] d[i]) by {
            if i < d.len() - 1 {
                assert(d[i] == dec(n / 10)[i]);
            }
        }
    }
    let d = dec(n);
    if n < 10 {
        assert(d.drop_last() =~= Seq::<char>::empty());
        assert(d.last() == digit_char(n));
        assert(digits_value(d) == digits_value(d.drop_last()) * 10 + (d.last() as nat - 48) as nat);
    } else {
        assert(d.last() == digit_char(k));
        assert(digits_value(d) == digits_value(d.drop_last()) * 10 + (d.last() as nat - 48) as nat);
        assert(digits_value(d.drop_last()) == n / 10);
    }
    assert(digits_value(d) == n);
    if n <= u32::MAX {
        assert(d.len() > 0 && d[0] != '+');
        assert(is_digit(d[0]));
    }
}

} // verus!
