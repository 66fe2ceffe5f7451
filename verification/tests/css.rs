use mmdr::css::{
    base64_encode, clean_font_family_token, css_font_family_list, css_string,
    embedded_font_faces_css, is_css_identifier, is_generic_font_family, normalize_font_family,
    primary_font, primary_named_font_family,
};
use mmdr::fonts::FontCache;

#[test]
fn css_string_escapes() {
    assert_eq!(css_string("a\"b\\c\nd\re"), "\"a\\\"b\\\\c\\a de\"");
    assert_eq!(css_string(""), "\"\"");
}

#[test]
fn css_identifiers() {
    assert!(is_css_identifier("Inter"));
    assert!(is_css_identifier("-x_1"));
    assert!(is_css_identifier("_"));
    assert!(!is_css_identifier("1abc"));
    assert!(!is_css_identifier("Segoe UI"));
    assert!(!is_css_identifier(""));
}

#[test]
fn generic_families_any_case() {
    assert!(is_generic_font_family("Sans-Serif"));
    assert!(is_generic_font_family("-apple-system"));
    assert!(!is_generic_font_family("arial"));
    assert_eq!(clean_font_family_token("  '\"Fira\"' "), "Fira");
    assert_eq!(clean_font_family_token("  ' \"Fira\" ' "), "\"Fira\"");
}

#[test]
fn font_family_list_for_css() {
    assert_eq!(
        css_font_family_list("'trebuchet ms', verdana, arial, sans-serif"),
        "\"trebuchet ms\",verdana,arial,sans-serif"
    );
    assert_eq!(css_font_family_list(" , "), "sans-serif");
    assert_eq!(css_font_family_list("Sans-Serif"), "Sans-Serif");
}

#[test]
fn normalized_family_lists() {
    assert_eq!(
        normalize_font_family("'Inter', \"Segoe UI\", , sans-serif"),
        "Inter,Segoe UI,sans-serif"
    );
    assert_eq!(normalize_font_family(""), "");
}

#[test]
fn primary_families() {
    assert_eq!(
        primary_named_font_family("sans-serif, 'Fira Code'").as_deref(),
        Some("Fira Code")
    );
    assert_eq!(primary_named_font_family("serif, monospace"), None);
    assert_eq!(primary_font("  , \"Inter\", Arial"), "Inter");
    assert_eq!(primary_font(" , "), "Inter");
    assert_eq!(primary_font("Arial"), "Arial");
}

#[test]
fn base64_rfc4648_vectors() {
    assert_eq!(base64_encode(b""), "");
    assert_eq!(base64_encode(b"f"), "Zg==");
    assert_eq!(base64_encode(b"fo"), "Zm8=");
    assert_eq!(base64_encode(b"foo"), "Zm9v");
    assert_eq!(base64_encode(b"foob"), "Zm9vYg==");
    assert_eq!(base64_encode(b"fooba"), "Zm9vYmE=");
    assert_eq!(base64_encode(b"foobar"), "Zm9vYmFy");
    assert_eq!(base64_encode(&[0xff, 0xfe, 0x00]), "//4A");
}

fn rule(family: &str, bytes: &[u8], weight: u16) -> String {
    format!(
        "@font-face{{font-family:\"{}\";src:url(data:font/ttf;base64,{}) format(\"truetype\");font-weight:{};font-style:normal;}}",
        family,
        base64_encode(bytes),
        weight
    )
}

#[test]
fn font_faces_embedded_once_per_family_and_weight() {
    let regular = tiny_font_with_upm(1000);
    let other = tiny_font_with_upm(2048);
    let mut cache = FontCache::new();
    cache.store_face("Inter, sans-serif", 400, Some((regular.clone(), 0)));
    cache.store_face("inter", 400, Some((other.clone(), 0)));
    let css = embedded_font_faces_css(
        &cache,
        &[("Inter, sans-serif", 400), ("inter", 400), ("Inter", 700), ("sans-serif", 400)],
    );
    assert_eq!(css, rule("Inter", &regular, 400));
    assert_eq!(embedded_font_faces_css(&cache, &[]), "");
}

#[test]
fn every_embeddable_face_gets_one_rule_in_request_order() {
    let regular = tiny_font_with_upm(1000);
    let bold = tiny_font_with_upm(2048);
    let mut cache = FontCache::new();
    cache.store_face("Mermaid", 400, Some((regular.clone(), 0)));
    cache.store_face("Mermaid", 700, Some((bold.clone(), 0)));
    cache.store_face("Nothing", 400, None);
    let css = embedded_font_faces_css(
        &cache,
        &[("Mermaid", 700), ("Nothing", 400), ("Mermaid", 400), ("MERMAID", 700), ("Mermaid", 400)],
    );
    assert_eq!(css, rule("Mermaid", &bold, 700) + &rule("Mermaid", &regular, 400));
    assert_eq!(css.matches("@font-face").count(), 2);
}

fn be16(out: &mut Vec<u8>, v: u16) {
    out.extend_from_slice(&v.to_be_bytes());
}

fn be32(out: &mut Vec<u8>, v: u32) {
    out.extend_from_slice(&v.to_be_bytes());
}

/// A tiny TrueType font: 3 glyphs (advances 500, 600, 700), the given units
/// per em, and a cmap mapping 'A' to glyph 1 and 'B' to glyph 2.
fn tiny_font_with_upm(units_per_em: u16) -> Vec<u8> {
    let mut cmap = Vec::new();
    be16(&mut cmap, 0);
    be16(&mut cmap, 1);
    be16(&mut cmap, 0);
    be16(&mut cmap, 3);
    be32(&mut cmap, 12);
    be16(&mut cmap, 0);
    be16(&mut cmap, 262);
    be16(&mut cmap, 0);
    let mut ids = [0u8; 256];
    ids[b'A' as usize] = 1;
    ids[b'B' as usize] = 2;
    cmap.extend_from_slice(&ids);

    let mut head = Vec::new();
    be32(&mut head, 0x0001_0000);
    be32(&mut head, 0x0001_0000);
    be32(&mut head, 0);
    be32(&mut head, 0x5F0F_3CF5);
    be16(&mut head, 0);
    be16(&mut head, units_per_em);
    head.extend_from_slice(&[0u8; 16]);
    head.extend_from_slice(&[0u8; 8]);
    be16(&mut head, 0);
    be16(&mut head, 8);
    be16(&mut head, 2);
    be16(&mut head, 0);
    be16(&mut head, 0);

    let mut hhea = Vec::new();
    be32(&mut hhea, 0x0001_0000);
    be16(&mut hhea, 800);
    be16(&mut hhea, (-200i16) as u16);
    be16(&mut hhea, 0);
    hhea.extend_from_slice(&[0u8; 24]);
    be16(&mut hhea, 3);

    let mut hmtx = Vec::new();
    for adv in [500u16, 600, 700] {
        be16(&mut hmtx, adv);
        be16(&mut hmtx, 0);
    }

    let mut maxp = Vec::new();
    be32(&mut maxp, 0x0000_5000);
    be16(&mut maxp, 3);

    let tables: Vec<(&[u8; 4], Vec<u8>)> = vec![
        (b"cmap", cmap),
        (b"head", head),
        (b"hhea", hhea),
        (b"hmtx", hmtx),
        (b"maxp", maxp),
    ];
    let mut font = Vec::new();
    be32(&mut font, 0x0001_0000);
    be16(&mut font, tables.len() as u16);
    be16(&mut font, 64);
    be16(&mut font, 2);
    be16(&mut font, 16);
    let mut offset = 12 + 16 * tables.len() as u32;
    for (tag, data) in &tables {
        font.extend_from_slice(&tag[..]);
        be32(&mut font, 0);
        be32(&mut font, offset);
        be32(&mut font, data.len() as u32);
        offset += ((data.len() + 3) / 4 * 4) as u32;
    }
    for (_, data) in &tables {
        font.extend_from_slice(data);
        while font.len() % 4 != 0 {
            font.push(0);
        }
    }
    font
}

