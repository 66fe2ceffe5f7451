use mmdr::colors::{
    check_hex_rgb_slices, check_hex_rgba_slices, check_theme_hex_slices,
    cynefin_domain_bg, cynefin_domain_meta, cynefin_hash_string, default_edge_stroke_for_kind,
    gantt_task_stroke, EdgeStrokeKind,
    gantt_task_text_fill, parse_hex, parse_hex_color, parse_hex_rgb, theme_by_name,
    CynefinDomainName, CynefinTheme, GanttTaskStatus, ThemeName,
};

#[test]
fn hex_rgb() {
    assert_eq!(parse_hex_rgb("#fff"), Some((255, 255, 255)));
    assert_eq!(parse_hex_rgb("#0a0B0c"), Some((10, 11, 12)));
    assert_eq!(parse_hex_rgb("#12345"), None);
    assert_eq!(parse_hex_rgb("fff"), None);
    assert_eq!(parse_hex_rgb("#+f0000"), Some((15, 0, 0)));
    assert_eq!(parse_hex_rgb("#ggg"), None);
    assert_eq!(parse_hex_rgb("#é1234"), None);
}

#[test]
fn hex_rgba_for_background() {
    assert_eq!(parse_hex_color(" #abc "), Some((170, 187, 204, 255)));
    assert_eq!(parse_hex_color("#11223344"), Some((0x11, 0x22, 0x33, 0x44)));
    assert_eq!(parse_hex_color("#FFFFFF"), Some((255, 255, 255, 255)));
    assert_eq!(parse_hex_color("#12"), None);
    assert_eq!(parse_hex_color("white"), None);
}

#[test]
fn theme_hex() {
    assert_eq!(parse_hex("#ECECFF"), Some((236, 236, 255)));
    assert_eq!(parse_hex("#abc"), Some((170, 187, 204)));
    assert_eq!(parse_hex("#11223344"), Some((17, 34, 51)));
    assert_eq!(parse_hex("#1234"), None);
}

#[test]
fn theme_names() {
    assert_eq!(theme_by_name("mermaid"), Some(ThemeName::Default));
    assert_eq!(theme_by_name("default"), Some(ThemeName::Default));
    assert_eq!(theme_by_name("dark"), Some(ThemeName::Dark));
    assert_eq!(theme_by_name("forest"), Some(ThemeName::Forest));
    assert_eq!(theme_by_name("Dark"), None);
}

#[test]
fn gantt_colors() {
    let task = GanttTaskStatus { vert: false, crit: true, done: true, active: false, label_inside: true };
    assert_eq!(gantt_task_stroke(&task), ("#ff8888", "2"));
    assert_eq!(gantt_task_text_fill(&task), "black");
    let plain = GanttTaskStatus { vert: false, crit: false, done: false, active: false, label_inside: true };
    assert_eq!(gantt_task_stroke(&plain), ("#534fbc", "2"));
    assert_eq!(gantt_task_text_fill(&plain), "white");
    let marker = GanttTaskStatus { vert: true, ..plain };
    assert_eq!(gantt_task_stroke(&marker), ("navy", "2"));
    assert_eq!(gantt_task_text_fill(&marker), "navy");
}

#[test]
fn cynefin_captions_and_seeds() {
    assert_eq!(
        cynefin_domain_meta(CynefinDomainName::Complex),
        ("Probe → Sense → Respond", "Emergent Practices")
    );
    assert_eq!(cynefin_domain_meta(CynefinDomainName::Confusion), ("", "Disorder"));
    let theme = CynefinTheme {
        complex_bg: "#a".to_string(),
        complicated_bg: "#b".to_string(),
        chaotic_bg: "#c".to_string(),
        clear_bg: "#d".to_string(),
        confusion_bg: "#e".to_string(),
    };
    assert_eq!(cynefin_domain_bg(CynefinDomainName::Chaotic, &theme), "#c");
    assert_eq!(cynefin_hash_string("hello"), 99162322);
    assert_eq!(cynefin_hash_string(""), 0);
    assert_eq!(cynefin_hash_string("😀"), 1772899);
    assert_eq!(cynefin_hash_string("Probe → Sense → Respond"), -2117651785);
}

#[test]
fn default_edge_strokes() {
    assert_eq!(default_edge_stroke_for_kind(EdgeStrokeKind::Flowchart, "#2F3B4D"), "#333333");
    assert_eq!(default_edge_stroke_for_kind(EdgeStrokeKind::Sequence, "#2f3b4d"), "#333333");
    assert_eq!(default_edge_stroke_for_kind(EdgeStrokeKind::Block, "#2F3b4D"), "#333333");
    assert_eq!(default_edge_stroke_for_kind(EdgeStrokeKind::Class, "#ff0000"), "#ff0000");
    assert_eq!(default_edge_stroke_for_kind(EdgeStrokeKind::Other, "#2F3B4D"), "#2F3B4D");
}

#[test]
fn slicing_checks() {
    assert!(check_hex_rgb_slices("#a1b2c3"));
    assert!(check_hex_rgb_slices("nohash"));
    assert!(check_hex_rgb_slices("#é"));
    assert!(!check_hex_rgb_slices("#aéaaa"));
    assert!(!check_hex_rgb_slices("#aaaéa"));
    assert!(check_hex_rgb_slices("#aaaaé"));
    assert!(check_hex_rgba_slices("  #abc  "));
    assert!(!check_hex_rgba_slices("#aé"));
    assert!(check_hex_rgba_slices("#12345678"));
    assert!(!check_hex_rgba_slices("#12345é6"));
    assert!(check_theme_hex_slices("#abc"));
    assert!(check_theme_hex_slices("#aé"));
    assert_eq!(parse_hex("#aé"), None);
    assert!(check_theme_hex_slices("#a1b2c3"));
    assert!(check_theme_hex_slices("#a1b2c3dd"));
    assert!(!check_theme_hex_slices("#a1b2céd"));
    assert!(!check_theme_hex_slices("#aéb2c3d"));
    for s in ["#a1b2c3", "#abc", "#a1b2c3dd", "red", ""] {
        assert!(check_theme_hex_slices(s));
        let _ = parse_hex(s);
    }
}
