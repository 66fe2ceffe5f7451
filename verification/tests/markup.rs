use mmdr::markup::{
    edge_dom_id, escape_xml, escape_xml_text_node, link_attrs, render_tree_view_icon_defs,
    tree_view_icon_path, tree_view_show_icon, venn_data_sets_key, NodeLink,
    TREE_VIEW_FILE_ICON, TREE_VIEW_FOLDER_ICON,
};

#[test]
fn xml_escaping() {
    assert_eq!(escape_xml("a<b>&\"c'"), "a&lt;b&gt;&amp;&quot;c&apos;");
    assert_eq!(escape_xml_text_node("a<b>&\"c'"), "a&lt;b&gt;&amp;\"c'");
    assert_eq!(escape_xml("plain text"), "plain text");
    assert_eq!(escape_xml("Agricultural 'waste'"), "Agricultural &apos;waste&apos;");
    assert_eq!(escape_xml("B \"quoted\""), "B &quot;quoted&quot;");
}

#[test]
fn edge_ids() {
    assert_eq!(edge_dom_id(0), "edge-0");
    assert_eq!(edge_dom_id(42), "edge-42");
}

#[test]
fn link_attributes() {
    let link = NodeLink {
        url: "http://x?a=1&b=2".to_string(),
        target: Some("_blank".to_string()),
    };
    assert_eq!(
        link_attrs(&link),
        "href=\"http://x?a=1&amp;b=2\" xlink:href=\"http://x?a=1&amp;b=2\" target=\"_blank\" rel=\"noopener noreferrer\""
    );
    let plain = NodeLink { url: "a".to_string(), target: None };
    assert_eq!(link_attrs(&plain), "href=\"a\" xlink:href=\"a\"");
    let framed = NodeLink { url: "a".to_string(), target: Some("_self".to_string()) };
    assert_eq!(link_attrs(&framed), "href=\"a\" xlink:href=\"a\" target=\"_self\"");
}

#[test]
fn tree_view_icons() {
    assert_eq!(tree_view_icon_path("folder"), TREE_VIEW_FOLDER_ICON);
    assert_eq!(tree_view_icon_path("react"), TREE_VIEW_FILE_ICON);
    assert_eq!(tree_view_show_icon(Some("none")), None);
    assert_eq!(tree_view_show_icon(Some("rust")), Some("rust"));
    assert_eq!(tree_view_show_icon(None), None);
    let defs = render_tree_view_icon_defs(&[
        Some("folder".to_string()),
        None,
        Some("none".to_string()),
        Some("folder".to_string()),
        Some("react".to_string()),
    ]);
    let expected = format!(
        "<defs><symbol id=\"tv-icon-my-svg-folder\" viewBox=\"0 0 24 24\"><path d=\"{}\"/></symbol><symbol id=\"tv-icon-my-svg-react\" viewBox=\"0 0 24 24\"><path d=\"{}\"/></symbol></defs>",
        TREE_VIEW_FOLDER_ICON, TREE_VIEW_FILE_ICON
    );
    assert_eq!(defs, expected);
    assert_eq!(render_tree_view_icon_defs(&[None, Some("none".to_string())]), "");
}

#[test]
fn venn_keys_ignore_listing_order() {
    let a = venn_data_sets_key(&["b".to_string(), "a".to_string(), "c".to_string()]);
    let b = venn_data_sets_key(&["c".to_string(), "b".to_string(), "a".to_string()]);
    assert_eq!(a, "a_b_c");
    assert_eq!(a, b);
    assert_eq!(venn_data_sets_key(&["B".to_string(), "a".to_string(), "ab".to_string()]), "B_a_ab");
    assert_eq!(venn_data_sets_key(&[]), "");
}

fn xml_unescape(s: &str) -> String {
    let mut out = String::new();
    let mut rest = s;
    while let Some(c) = rest.chars().next() {
        let mut matched = false;
        for (entity, ch) in [("&amp;", '&'), ("&lt;", '<'), ("&gt;", '>'), ("&quot;", '"'), ("&apos;", '\'')] {
            if rest.starts_with(entity) {
                out.push(ch);
                rest = &rest[entity.len()..];
                matched = true;
                break;
            }
        }
        if !matched {
            out.push(c);
            rest = &rest[c.len_utf8()..];
        }
    }
    out
}

#[test]
fn escaping_round_trips_and_leaves_no_bare_ampersand() {
    for input in ["a & b", "<tag attr=\"x\">", "it's &amp; done", "&lt;&&gt;", "plain", "", "é&ü"] {
        let escaped = escape_xml(input);
        assert_eq!(xml_unescape(&escaped), input);
        assert!(!escaped.contains(['<', '>', '"', '\'']));
        for (i, _) in escaped.match_indices('&') {
            let tail = &escaped[i..];
            assert!(["&amp;", "&lt;", "&gt;", "&quot;", "&apos;"].iter().any(|e| tail.starts_with(e)));
        }
    }
}
