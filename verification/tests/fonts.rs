use mmdr::ttf::face_metrics;
use mmdr::fonts::{
    cache_key, embedded_font_data, embedded_font_data_with_weight, family_query_order,
    font_data_format, is_wide_symbol_fallback, known_face_paths, normalize_family_key,
    parse_face_index, preferred_named_family, FamilyToken, FontCache, GenericFamily,
};

#[test]
fn preferred_named_family_skips_generic_fallbacks() {
    assert_eq!(
        preferred_named_family("'trebuchet ms', verdana, arial, sans-serif").as_deref(),
        Some("trebuchet ms")
    );
    assert_eq!(
        preferred_named_family("sans-serif, Verdana").as_deref(),
        Some("verdana")
    );
}

#[test]
fn preferred_named_family_none_when_only_generic() {
    assert_eq!(preferred_named_family("serif, sans-serif, ,  monospace"), None);
    assert_eq!(preferred_named_family(""), None);
    assert_eq!(
        preferred_named_family(" \"Segoe UI\" , Arial").as_deref(),
        Some("segoe ui")
    );
}

#[test]
fn family_key_and_cache_key() {
    assert_eq!(normalize_family_key("  Inter  "), "Inter");
    assert_eq!(normalize_family_key("   "), "sans-serif");
    assert_eq!(cache_key(" Inter ", 400), "Inter|400");
    assert_eq!(cache_key("", 700), "sans-serif|700");
    assert_eq!(cache_key("A", 0), "A|0");
}

#[test]
fn font_format_by_signature() {
    assert_eq!(font_data_format(b"wOF2rest"), ("font/woff2", "woff2"));
    assert_eq!(font_data_format(b"wOFFrest"), ("font/woff", "woff"));
    assert_eq!(font_data_format(b"OTTO"), ("font/otf", "opentype"));
    assert_eq!(font_data_format(b"ttcf...."), ("font/collection", "truetype-collection"));
    assert_eq!(font_data_format(&[0, 1, 0, 0, 9]), ("font/ttf", "truetype"));
    assert_eq!(font_data_format(b"wOF"), ("font/ttf", "truetype"));
    assert_eq!(font_data_format(&[]), ("font/ttf", "truetype"));
}

#[test]
fn cache_gives_back_what_was_stored() {
    let font = tiny_font_with_upm(1000);
    let mut cache = FontCache::new();
    assert!(!cache.has_face("Inter", 400));
    assert!(embedded_font_data(&cache, "Inter").is_none());
    cache.store_face("Inter", 400, Some((font.clone(), 0)));
    cache.store_face("Missing", 400, None);
    assert!(cache.has_face(" Inter ", 400));
    assert!(cache.has_face("Missing", 400));
    assert!(!cache.has_face("Inter", 700));
    let data = embedded_font_data(&cache, "Inter").expect("stored font");
    assert_eq!(data.bytes, font);
    assert_eq!(data.mime_type, "font/ttf");
    assert_eq!(data.format_hint, "truetype");
    assert!(face_metrics(&data.bytes, 0).is_some());
    assert!(embedded_font_data(&cache, "Missing").is_none());
    assert!(embedded_font_data_with_weight(&cache, "Inter", 700).is_none());
}

#[test]
fn cache_keeps_only_faces_that_parse() {
    let mut cache = FontCache::new();
    cache.store_face("Junk", 400, Some((b"wOF2abcd".to_vec(), 0)));
    assert!(cache.has_face("Junk", 400));
    assert!(embedded_font_data(&cache, "Junk").is_none());
    cache.store_face("Wrong index", 400, Some((tiny_font_with_upm(1000), 1)));
    assert!(embedded_font_data(&cache, "Wrong index").is_none());
}

#[test]
fn cache_keeps_the_first_face_recorded() {
    let first = tiny_font_with_upm(1000);
    let second = tiny_font_with_upm(2048);
    let mut cache = FontCache::new();
    cache.store_face("Inter", 400, Some((first.clone(), 0)));
    cache.store_face("Inter", 400, Some((second.clone(), 0)));
    assert_eq!(embedded_font_data(&cache, "Inter").expect("stored font").bytes, first);
    cache.store_face("Gone", 400, None);
    cache.store_face("Gone", 400, Some((second, 0)));
    assert!(embedded_font_data(&cache, "Gone").is_none());
}

fn token_name(t: &FamilyToken) -> String {
    match t {
        FamilyToken::Generic(g) => format!("{:?}", g),
        FamilyToken::Name(n) => format!("name:{}", n),
    }
}

#[test]
fn query_order_maps_generic_aliases() {
    let order = family_query_order("'Trebuchet MS', system-ui, UI-Monospace, Serif, cursive, fantasy, ,");
    let names: Vec<String> = order.iter().map(token_name).collect();
    assert_eq!(
        names,
        vec!["name:Trebuchet MS", "SansSerif", "Monospace", "Serif", "Cursive", "Fantasy"]
    );
    let fallback = family_query_order(" , ");
    assert_eq!(fallback.len(), 1);
    assert!(matches!(fallback[0], FamilyToken::Generic(GenericFamily::SansSerif)));
}

#[test]
fn known_paths_only_for_trebuchet() {
    assert!(known_face_paths("Arial, sans-serif", 400).is_empty());
    let regular = known_face_paths("'trebuchet ms', verdana", 400);
    assert_eq!(
        regular,
        vec![
            "/System/Library/Fonts/Supplemental/Trebuchet MS.ttf",
            "/Library/Fonts/Trebuchet MS.ttf",
            "C:\\Windows\\Fonts\\trebuc.ttf",
        ]
    );
    let bold = known_face_paths("Trebuchet MS", 600);
    assert_eq!(bold.len(), 6);
    assert_eq!(bold[0], "/System/Library/Fonts/Supplemental/Trebuchet MS Bold.ttf");
    assert_eq!(bold[5], "C:\\Windows\\Fonts\\trebuc.ttf");
}

#[test]
fn wide_symbols() {
    assert!(is_wide_symbol_fallback('→'));
    assert!(is_wide_symbol_fallback('⇕'));
    assert!(!is_wide_symbol_fallback('a'));
    assert!(!is_wide_symbol_fallback('⇖'));
}

#[test]
fn face_index_parsing() {
    assert_eq!(parse_face_index(" 3\n"), Some(3));
    assert_eq!(parse_face_index("+7"), Some(7));
    assert_eq!(parse_face_index("4294967295"), Some(4294967295));
    assert_eq!(parse_face_index("4294967296"), None);
    assert_eq!(parse_face_index("-1"), None);
    assert_eq!(parse_face_index(""), None);
    assert_eq!(parse_face_index("+"), None);
    assert_eq!(parse_face_index("1x"), None);
}

fn be16(out: &mut Vec<u8>, v: u16) {
    out.extend_from_slice(&v.to_be_bytes());
}

fn be32(out: &mut Vec<u8>, v: u32) {
    out.extend_from_slice(&v.to_be_bytes());
}

/// A tiny TrueType font: 3 glyphs (advances 500, 600, 700), the given units
/// per em, and a cmap mapping 'A' to glyph 1 and 'B' to glyph 2.
fn tiny_font_with_upm(units_per_em: u16) -> Vec<u8> {
    let mut cmap = Vec::new();
    be16(&mut cmap, 0);
    be16(&mut cmap, 1);
    be16(&mut cmap, 0);
    be16(&mut cmap, 3);
    be32(&mut cmap, 12);
    be16(&mut cmap, 0);
    be16(&mut cmap, 262);
    be16(&mut cmap, 0);
    let mut ids = [0u8; 256];
    ids[b'A' as usize] = 1;
    ids[b'B' as usize] = 2;
    cmap.extend_from_slice(&ids);

    let mut head = Vec::new();
    be32(&mut head, 0x0001_0000);
    be32(&mut head, 0x0001_0000);
    be32(&mut head, 0);
    be32(&mut head, 0x5F0F_3CF5);
    be16(&mut head, 0);
    be16(&mut head, units_per_em);
    head.extend_from_slice(&[0u8; 16]);
    head.extend_from_slice(&[0u8; 8]);
    be16(&mut head, 0);
    be16(&mut head, 8);
    be16(&mut head, 2);
    be16(&mut head, 0);
    be16(&mut head, 0);

    let mut hhea = Vec::new();
    be32(&mut hhea, 0x0001_0000);
    be16(&mut hhea, 800);
    be16(&mut hhea, (-200i16) as u16);
    be16(&mut hhea, 0);
    hhea.extend_from_slice(&[0u8; 24]);
    be16(&mut hhea, 3);

    let mut hmtx = Vec::new();
    for adv in [500u16, 600, 700] {
        be16(&mut hmtx, adv);
        be16(&mut hmtx, 0);
    }

    let mut maxp = Vec::new();
    be32(&mut maxp, 0x0000_5000);
    be16(&mut maxp, 3);

    let tables: Vec<(&[u8; 4], Vec<u8>)> = vec![
        (b"cmap", cmap),
        (b"head", head),
        (b"hhea", hhea),
        (b"hmtx", hmtx),
        (b"maxp", maxp),
    ];
    let mut font = Vec::new();
    be32(&mut font, 0x0001_0000);
    be16(&mut font, tables.len() as u16);
    be16(&mut font, 64);
    be16(&mut font, 2);
    be16(&mut font, 16);
    let mut offset = 12 + 16 * tables.len() as u32;
    for (tag, data) in &tables {
        font.extend_from_slice(&tag[..]);
        be32(&mut font, 0);
        be32(&mut font, offset);
        be32(&mut font, data.len() as u32);
        offset += ((data.len() + 3) / 4 * 4) as u32;
    }
    for (_, data) in &tables {
        font.extend_from_slice(data);
        while font.len() % 4 != 0 {
            font.push(0);
        }
    }
    font
}

