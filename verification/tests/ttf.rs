use mmdr::ttf::{face_metrics, glyph_advances};

fn be16(out: &mut Vec<u8>, v: u16) {
    out.extend_from_slice(&v.to_be_bytes());
}

fn be32(out: &mut Vec<u8>, v: u32) {
    out.extend_from_slice(&v.to_be_bytes());
}

/// A tiny TrueType font: 3 glyphs (advances 500, 600, 700), 1000 units per
/// em, and a cmap mapping 'A' to glyph 1 and 'B' to glyph 2.
fn tiny_font() -> Vec<u8> {
    let mut cmap = Vec::new();
    be16(&mut cmap, 0);
    be16(&mut cmap, 1);
    be16(&mut cmap, 0);
    be16(&mut cmap, 3);
    be32(&mut cmap, 12);
    be16(&mut cmap, 0);
    be16(&mut cmap, 262);
    be16(&mut cmap, 0);
    let mut ids = [0u8; 256];
    ids[b'A' as usize] = 1;
    ids[b'B' as usize] = 2;
    cmap.extend_from_slice(&ids);

    let mut head = Vec::new();
    be32(&mut head, 0x0001_0000);
    be32(&mut head, 0x0001_0000);
    be32(&mut head, 0);
    be32(&mut head, 0x5F0F_3CF5);
    be16(&mut head, 0);
    be16(&mut head, 1000);
    head.extend_from_slice(&[0u8; 16]);
    head.extend_from_slice(&[0u8; 8]);
    be16(&mut head, 0);
    be16(&mut head, 8);
    be16(&mut head, 2);
    be16(&mut head, 0);
    be16(&mut head, 0);

    let mut hhea = Vec::new();
    be32(&mut hhea, 0x0001_0000);
    be16(&mut hhea, 800);
    be16(&mut hhea, (-200i16) as u16);
    be16(&mut hhea, 0);
    hhea.extend_from_slice(&[0u8; 24]);
    be16(&mut hhea, 3);

    let mut hmtx = Vec::new();
    for adv in [500u16, 600, 700] {
        be16(&mut hmtx, adv);
        be16(&mut hmtx, 0);
    }

    let mut maxp = Vec::new();
    be32(&mut maxp, 0x0000_5000);
    be16(&mut maxp, 3);

    let tables: Vec<(&[u8; 4], Vec<u8>)> = vec![
        (b"cmap", cmap),
        (b"head", head),
        (b"hhea", hhea),
        (b"hmtx", hmtx),
        (b"maxp", maxp),
    ];
    let mut font = Vec::new();
    be32(&mut font, 0x0001_0000);
    be16(&mut font, tables.len() as u16);
    be16(&mut font, 64);
    be16(&mut font, 2);
    be16(&mut font, 16);
    let mut offset = 12 + 16 * tables.len() as u32;
    for (tag, data) in &tables {
        font.extend_from_slice(&tag[..]);
        be32(&mut font, 0);
        be32(&mut font, offset);
        be32(&mut font, data.len() as u32);
        offset += ((data.len() + 3) / 4 * 4) as u32;
    }
    for (_, data) in &tables {
        font.extend_from_slice(data);
        while font.len() % 4 != 0 {
            font.push(0);
        }
    }
    font
}

#[test]
fn metrics_of_a_tiny_font() {
    let font = tiny_font();
    let metrics = face_metrics(&font, 0).expect("the font parses");
    assert_eq!(metrics.units_per_em, 1000);
    assert_eq!(metrics.ascii_advances.len(), 128);
    assert_eq!(metrics.ascii_advances[b'A' as usize], 600);
    assert_eq!(metrics.ascii_advances[b'B' as usize], 700);
    assert_eq!(metrics.ascii_advances[b'C' as usize], 0);
}

#[test]
fn advances_per_character() {
    let font = tiny_font();
    assert_eq!(
        glyph_advances(&font, 0, "AB\nC"),
        Some(vec![Some(600), Some(700), None])
    );
    assert_eq!(glyph_advances(&font, 0, ""), Some(vec![]));
}

#[test]
fn junk_is_not_a_font() {
    assert!(face_metrics(b"not a font at all", 0).is_none());
    assert_eq!(glyph_advances(b"junk", 0, "A"), None);
}
