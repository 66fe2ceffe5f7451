//! SVG markup fragments built from diagram text: XML escaping, element ids,
//! link attributes, tree-view icon symbols and C4/text-block label lines.
use vstd::prelude::*;
use crate::order::{lemma_sorted_unique, lemma_str_le_total, sort_strings, str_leq};
use crate::text::{
    dec, join, join_strings, push_char, push_dec, push_str, str_eq, to_chars, views,
};

verus! {

/// How one character is written in an XML attribute value.
pub open spec fn xml_escape_char(c: char) -> Seq<char> {
    if c == '&' {
        seq!['&', 'a', 'm', 'p', ';']
    } else if c == '<' {
        seq!['&', 'l', 't', ';']
    } else if c == '>' {
        seq!['&', 'g', 't', ';']
    } else if c == '"' {
        seq!['&', 'q', 'u', 'o', 't', ';']
    } else if c == '\'' {
        seq!['&', 'a', 'p', 'o', 's', ';']
    } else {
        seq![c]
    }
}

/// How one character is written in XML text content.
pub open spec fn xml_text_escape_char(c: char) -> Seq<char> {
    if c == '&' {
        seq!['&', 'a', 'm', 'p', ';']
    } else if c == '<' {
        seq!['&', 'l', 't', ';']
    } else if c == '>' {
        seq!['&', 'g', 't', ';']
    } else {
        seq![c]
    }
}

pub open spec fn xml_escaped(s: Seq<char>) -> Seq<char>
    decreases s.len(),
{
    if s.len() == 0 {
        Seq::<char>::empty()
    } else {
        xml_escaped(s.drop_last()) + xml_escape_char(s.last())
    }
}

pub open spec fn xml_text_escaped(s: Seq<char>) -> Seq<char>
    decreases s.len(),
{
    if s.len() == 0 {
        Seq::<char>::empty()
    } else {
        xml_text_escaped(s.drop_last()) + xml_text_escape_char(s.last())
    }
}

/// Escapes `&`, `<`, `>`, `"` and `'` as XML entities, for attribute values
/// and text alike.
pub fn escape_xml(input: &str) -> (res: String)
    ensures
        res@ == xml_escaped(input@),
{
    let v = to_chars(input);
    let mut out = String::new();
    let mut i: usize = 0;
    assert(v@.take(0) =~= Seq::<char>::empty());
    while i < v.len()
        invariant
            0 <= i <= v.len(),
            v@ == input@,
            out@ == xml_escaped(v@.take(i as int)),
        decreases v.len() - i,
    {
        let c = v[i];
        assert(v@.take(i + 1).drop_last() =~= v@.take(i as int));
        if c == '&' {
            push_char(&mut out, '&');
            push_char(&mut out, 'a');
            push_char(&mut out, 'm');
            push_char(&mut out, 'p');
            push_char(&mut out, ';');
        } else if c == '<' {
            push_char(&mut out, '&');
            push_char(&mut out, 'l');
            push_char(&mut out, 't');
            push_char(&mut out, ';');
        } else if c == '>' {
            push_char(&mut out, '&');
            push_char(&mut out, 'g');
            push_char(&mut out, 't');
            push_char(&mut out, ';');
        } else if c == '"' {
            push_char(&mut out, '&');
            push_char(&mut out, 'q');
            push_char(&mut out, 'u');
            push_char(&mut out, 'o');
            push_char(&mut out, 't');
            push_char(&mut out, ';');
        } else if c == '\'' {
            push_char(&mut out, '&');
            push_char(&mut out, 'a');
            push_char(&mut out, 'p');
            push_char(&mut out, 'o');
            push_char(&mut out, 's');
            push_char(&mut out, ';');
        } else {
            push_char(&mut out, c);
        }
        assert(out@ =~= xml_escaped(v@.take(i + 1)));
        i += 1;
    }
    assert(v@.take(v@.len() as int) =~= v@);
    out
}

/// Escapes `&`, `<` and `>` only, for XML text nodes (quotes stay as they
/// are).
pub fn escape_xml_text_node(input: &str) -> (res: String)
    ensures
        res@ == xml_text_escaped(input@),
{
    let v = to_chars(input);
    let mut out = String::new();
    let mut i: usize = 0;
    assert(v@.take(0) =~= Seq::<char>::empty());
    while i < v.len()
        invariant
            0 <= i <= v.len(),
            v@ == input@,
            out@ == xml_text_escaped(v@.take(i as int)),
        decreases v.len() - i,
    {
        let c = v[i];
        assert(v@.take(i + 1).drop_last() =~= v@.take(i as int));
        if c == '&' {
            push_char(&mut out, '&');
            push_char(&mut out, 'a');
            push_char(&mut out, 'm');
            push_char(&mut out, 'p');
            push_char(&mut out, ';');
        } else if c == '<' {
            push_char(&mut out, '&');
            push_char(&mut out, 'l');
            push_char(&mut out, 't');
            push_char(&mut out, ';');
        } else if c == '>' {
            push_char(&mut out, '&');
            push_char(&mut out, 'g');
            push_char(&mut out, 't');
            push_char(&mut out, ';');
        } else {
            push_char(&mut out, c);
        }
        assert(out@ =~= xml_text_escaped(v@.take(i + 1)));
        i += 1;
    }
    assert(v@.take(v@.len() as int) =~= v@);
    out
}

/// A character that has to be escaped in an XML attribute value.
pub open spec fn xml_special(c: char) -> bool {
    c == '&' || c == '<' || c == '>' || c == '"' || c == '\''
}

/// Escaped text holds no markup delimiter: no `<`, `>`, `"` or `'` at all.
pub proof fn lemma_escape_xml_no_markup(s: Seq<char>)
    ensures
        forall|i: int|
            0 <= i < xml_escaped(s).len() ==> {
                let c = #[trigger] xml_escaped(s)[i];
                c != '<' && c != '>' && c != '"' && c != '\''
            },
    decreases s.len(),
{
    if s.len() > 0 {
        lemma_escape_xml_no_markup(s.drop_last());
        let a = xml_escaped(s.drop_last());
        let b = xml_escape_char(s.last());
        assert forall|i: int| 0 <= i < xml_escaped(s).len() implies {
            let c = #[trigger] xml_escaped(s)[i];
            c != '<' && c != '>' && c != '"' && c != '\''
        } by {
            if i < a.len() {
                assert(xml_escaped(s)[i] == a[i]);
            } else {
                assert(xml_escaped(s)[i] == b[i - a.len()]);
            }
        }
    }
}

/// Text without special characters is written unchanged.
pub proof fn lemma_escape_xml_plain(s: Seq<char>)
    requires
        forall|i: int| 0 <= i < s.len() ==> !xml_special(#[trigger] s[i]),
    ensures
        xml_escaped(s) == s,
    decreases s.len(),
{
    if s.len() > 0 {
        lemma_escape_xml_plain(s.drop_last());
        assert(!xml_special(s[s.len() - 1]));
        assert(s.drop_last().push(s.last()) =~= s);
    }
}

/// The DOM id of the `edge_idx`-th edge.
pub fn edge_dom_id(edge_idx: usize) -> (res: String)
    ensures
        res@ == "edge-"@ + dec(edge_idx as nat),
{
    let mut out = "edge-".to_owned();
    push_dec(&mut out, edge_idx as u64);
    out
}

/// A node's hyperlink: its URL and optional browsing-context target.
pub struct NodeLink {
    pub url: String,
    pub target: Option<String>,
}

pub open spec fn link_attrs_of(url: Seq<char>, target: Option<Seq<char>>) -> Seq<char> {
    let u = xml_escaped(url);
    let base = "href=\""@ + u + "\" xlink:href=\""@ + u + "\""@;
    match target {
        None => base,
        Some(t) => {
            let te = xml_escaped(t);
            let with_target = base + " target=\""@ + te + "\""@;
            if te == "_blank"@ {
                with_target + " rel=\"noopener noreferrer\""@
            } else {
                with_target
            }
        },
    }
}

/// The `href`, `xlink:href` and optional `target` attributes of a link;
/// links opening a new window also get `rel="noopener noreferrer"`.
pub fn link_attrs(link: &NodeLink) -> (res: String)
    ensures
        res@ == link_attrs_of(
            link.url@,
            match link.target {
                Some(t) => Some(t@),
                None => None,
            },
        ),
{
    let url = escape_xml(link.url.as_str());
    let mut attrs = "href=\"".to_owned();
    push_str(&mut attrs, url.as_str());
    push_str(&mut attrs, "\" xlink:href=\"");
    push_str(&mut attrs, url.as_str());
    push_str(&mut attrs, "\"");
    match &link.target {
        Some(target) => {
            let target = escape_xml(target.as_str());
            push_str(&mut attrs, " target=\"");
            push_str(&mut attrs, target.as_str());
            push_str(&mut attrs, "\"");
            if str_eq(target.as_str(), "_blank") {
                push_str(&mut attrs, " rel=\"noopener noreferrer\"");
            }
        },
        None => {},
    }
    attrs
}

pub const TREE_VIEW_FILE_ICON: &'static str = "M13,9V3.5L18.5,9M6,2C4.89,2 4,2.89 4,4V20A2,2 0 0,0 6,22H18A2,2 0 0,0 20,20V8L14,2H6Z";

pub const TREE_VIEW_FOLDER_ICON: &'static str = "M10,4H4C2.89,4 2,4.89 2,6V18A2,2 0 0,0 4,20H20A2,2 0 0,0 22,18V8C22,6.89 21.1,6 20,6H12L10,4Z";

pub const TREE_VIEW_CONFIG_ICON: &'static str = "M12,15.5A3.5,3.5 0 0,1 8.5,12A3.5,3.5 0 0,1 12,8.5A3.5,3.5 0 0,1 15.5,12A3.5,3.5 0 0,1 12,15.5M19.43,12.97C19.47,12.65 19.5,12.33 19.5,12C19.5,11.67 19.47,11.34 19.43,11L21.54,9.37C21.73,9.22 21.78,8.95 21.66,8.73L19.66,5.27C19.54,5.05 19.27,4.96 19.05,5.05L16.56,6.05C16.04,5.66 15.5,5.32 14.87,5.07L14.5,2.42C14.46,2.18 14.25,2 14,2H10C9.75,2 9.54,2.18 9.5,2.42L9.13,5.07C8.5,5.32 7.96,5.66 7.44,6.05L4.95,5.05C4.73,4.96 4.46,5.05 4.34,5.27L2.34,8.73C2.21,8.95 2.27,9.22 2.46,9.37L4.57,11C4.53,11.34 4.5,11.67 4.5,12C4.5,12.33 4.53,12.65 4.57,12.97L2.46,14.63C2.27,14.78 2.21,15.05 2.34,15.27L4.34,18.73C4.46,18.95 4.73,19.03 4.95,18.95L7.44,17.94C7.96,18.34 8.5,18.68 9.13,18.93L9.5,21.58C9.54,21.82 9.75,22 10,22H14C14.25,22 14.46,21.82 14.5,21.58L14.87,18.93C15.5,18.67 16.04,18.34 16.56,17.94L19.05,18.95C19.27,19.03 19.54,18.95 19.66,18.73L21.66,15.27C21.78,15.05 21.73,14.78 21.54,14.63L19.43,12.97Z";

pub const TREE_VIEW_MARKDOWN_ICON: &'static str = "M20.56 18H3.44C2.65 18 2 17.37 2 16.59V7.41C2 6.63 2.65 6 3.44 6H20.56C21.35 6 22 6.63 22 7.41V16.59C22 17.37 21.35 18 20.56 18M6.81 15.19V11.53L8.73 13.88L10.65 11.53V15.19H12.58V8.81H10.65L8.73 11.16L6.81 8.81H4.89V15.19H6.81M19.69 12H17.77V8.81H15.85V12H13.92L16.81 15.28L19.69 12Z";

pub const TREE_VIEW_RUST_ICON: &'static str = "M21.9 11.7L21 11.2V11L21.7 10.3C21.8 10.2 21.8 10 21.7 9.9L21.6 9.8L20.7 9.5C20.7 9.4 20.7 9.3 20.6 9.3L21.2 8.5C21.3 8.4 21.3 8.2 21.1 8.1C21.1 8.1 21 8.1 21 8L20 7.8C20 7.7 19.9 7.7 19.9 7.6L20.3 6.7V6.4C20.2 6.3 20.1 6.3 20 6.3H19C19 6.3 19 6.2 18.9 6.2L19.1 5.2C19.1 5 19 4.9 18.9 4.9H18.8L17.8 5.1C17.8 5 17.7 5 17.6 4.9V3.9C17.6 3.7 17.5 3.6 17.3 3.6H17.2L16.3 4H16.2L16 3C16 2.8 15.8 2.7 15.7 2.8H15.6L14.8 3.4C14.7 3.4 14.6 3.4 14.6 3.3L14.3 2.4C14.2 2.3 14.1 2.2 13.9 2.2C13.9 2.2 13.8 2.2 13.8 2.3L13 3H12.8L12.3 2.2C12.2 2 12 2 11.8 2L11.7 2.1L11.2 3H11L10.3 2.3C10.2 2.2 10 2.2 9.9 2.3L9.8 2.4L9.5 3.3C9.4 3.3 9.3 3.3 9.3 3.4L8.5 2.8C8.3 2.7 8.1 2.7 8 2.9V3L7.8 4C7.8 4 7.7 4 7.6 4.1L6.7 3.7C6.6 3.6 6.4 3.7 6.3 3.8V4.9C6.3 5 6.2 5 6.2 5.1L5.2 4.9C5 4.8 4.9 4.9 4.9 5.1V5.2L5.1 6.2C5 6.2 5 6.3 4.9 6.3H3.9C3.7 6.3 3.6 6.4 3.6 6.6V6.7L4 7.6V7.8L3 8C2.8 8 2.7 8.2 2.7 8.3V8.4L3.3 9.2C3.3 9.3 3.3 9.4 3.2 9.4L2.4 9.8C2.3 9.9 2.2 10 2.2 10.2C2.2 10.2 2.2 10.3 2.3 10.3L3 11V11.2L2.2 11.7C2 11.8 2 12 2 12.1L2.1 12.2L3 12.8V13L2.3 13.7C2.2 13.8 2.2 14 2.3 14.1L2.4 14.2L3.3 14.5C3.3 14.6 3.3 14.7 3.4 14.7L2.8 15.5C2.7 15.6 2.7 15.8 2.9 15.9C2.9 15.9 3 15.9 3 16L4 16.2C4 16.3 4.1 16.3 4.1 16.4L3.7 17.3C3.6 17.4 3.7 17.6 3.8 17.7H4.9C5 17.7 5 17.8 5.1 17.8L4.9 18.8C4.9 19 5 19.1 5.1 19.1H5.2L6.2 18.9C6.2 19 6.3 19 6.4 19.1V20.1C6.4 20.3 6.5 20.4 6.7 20.4H6.8L7.7 20H7.8L8 21C8 21.2 8.2 21.3 8.3 21.2H8.4L9.2 20.6C9.3 20.6 9.4 20.6 9.4 20.7L9.7 21.6C9.8 21.7 9.9 21.8 10.1 21.8C10.1 21.8 10.2 21.8 10.2 21.7L11 21H11.2L11.7 21.8C11.8 21.9 12 22 12.1 21.9L12.2 21.8L12.7 21H12.9L13.6 21.7C13.7 21.8 13.9 21.8 14 21.7L14.1 21.6L14.4 20.7C14.5 20.7 14.6 20.7 14.6 20.6L15.4 21.2C15.5 21.3 15.7 21.3 15.8 21.1C15.8 21.1 15.8 21 15.9 21L16.1 20C16.2 20 16.2 19.9 16.3 19.9L17.2 20.3C17.3 20.4 17.5 20.3 17.6 20.2V19.1L17.8 18.9L18.8 19.1C19 19.1 19.1 19 19.1 18.9V18.8L18.9 17.8L19.1 17.6H20.1C20.3 17.6 20.4 17.5 20.4 17.3V17.2L20 16.3C20 16.2 20.1 16.2 20.1 16.1L21.1 15.9C21.3 15.9 21.4 15.7 21.3 15.6V15.5L20.7 14.7L20.8 14.5L21.7 14.2C21.8 14.1 21.9 14 21.9 13.8C21.9 13.8 21.9 13.7 21.8 13.7L21 13V12.8L21.8 12.3C22 12.2 22 12 21.9 11.7C21.9 11.8 21.9 11.8 21.9 11.7M16.2 18.7C15.9 18.6 15.7 18.3 15.7 18C15.8 17.7 16.1 17.5 16.4 17.5C16.7 17.6 16.9 17.9 16.9 18.2C16.9 18.6 16.6 18.8 16.2 18.7M16 16.8C15.7 16.7 15.4 16.9 15.4 17.2L15 18.6C14.1 19 13.1 19.2 12 19.2C10.9 19.2 9.9 19 8.9 18.5L8.6 17.1C8.5 16.8 8.3 16.6 8 16.7L6.8 17C6.6 16.8 6.4 16.5 6.2 16.3H12.2C12.3 16.3 12.3 16.3 12.3 16.2V14.1C12.3 14 12.3 14 12.2 14H10.5V12.7H12.4C12.6 12.7 13.3 12.7 13.6 13.7C13.7 14 13.8 15 14 15.3C14.1 15.6 14.6 16.3 15.1 16.3H18.2C18 16.6 17.8 16.8 17.5 17.1L16 16.8M7.7 18.7C7.4 18.8 7.1 18.6 7 18.2C6.9 17.9 7.1 17.6 7.5 17.5S8.1 17.6 8.2 18C8.2 18.3 8 18.6 7.7 18.7M5.4 9.5C5.5 9.8 5.4 10.2 5.1 10.3C4.8 10.4 4.4 10.3 4.3 10C4.2 9.7 4.3 9.3 4.6 9.2C5 9.1 5.3 9.2 5.4 9.5M4.7 11.1L6 10.6C6.3 10.5 6.4 10.2 6.3 9.9L6 9.3H7V14H5C4.7 13 4.6 12.1 4.7 11.1M10.3 10.7V9.3H12.8C12.9 9.3 13.7 9.4 13.7 10C13.7 10.5 13.1 10.7 12.6 10.7H10.3M19.3 11.9V12.4H18.5C18.4 12.4 18.4 12.4 18.4 12.5V12.8C18.4 13.6 17.9 13.8 17.5 13.8C17.1 13.8 16.7 13.6 16.6 13.4C16.4 12.1 16 11.9 15.4 11.4C16.1 10.9 16.9 10.2 16.9 9.3C16.9 8.3 16.2 7.7 15.8 7.4C15.1 7 14.4 6.9 14.2 6.9H6.6C7.7 5.7 9.1 4.9 10.7 4.6L11.6 5.6C11.8 5.8 12.1 5.8 12.4 5.6L13.4 4.6C15.5 5 17.3 6.3 18.4 8.2L17.7 9.8C17.6 10.1 17.7 10.4 18 10.5L19.3 11.1V11.9M11.6 3.9C11.8 3.7 12.2 3.7 12.4 3.9C12.6 4.1 12.6 4.5 12.4 4.7C12.1 5 11.8 5 11.5 4.7C11.3 4.5 11.4 4.2 11.6 3.9M18.5 9.5C18.6 9.2 19 9.1 19.3 9.2C19.6 9.3 19.7 9.7 19.6 10C19.5 10.3 19.1 10.4 18.8 10.3C18.5 10.2 18.4 9.8 18.5 9.5Z";

pub const TREE_VIEW_DATABASE_ICON: &'static str = "M12,3C7.58,3 4,4.79 4,7C4,9.21 7.58,11 12,11C16.42,11 20,9.21 20,7C20,4.79 16.42,3 12,3M4,9V12C4,14.21 7.58,16 12,16C16.42,16 20,14.21 20,12V9C20,11.21 16.42,13 12,13C7.58,13 4,11.21 4,9M4,14V17C4,19.21 7.58,21 12,21C16.42,21 20,19.21 20,17V14C20,16.21 16.42,18 12,18C7.58,18 4,16.21 4,14Z";

pub const TREE_VIEW_JSON_ICON: &'static str = "M5,3H7V5H5V10A2,2 0 0,1 3,12A2,2 0 0,1 5,14V19H7V21H5C3.93,20.73 3,20.1 3,19V15A2,2 0 0,0 1,13H0V11H1A2,2 0 0,0 3,9V5A2,2 0 0,1 5,3M19,3A2,2 0 0,1 21,5V9A2,2 0 0,0 23,11H24V13H23A2,2 0 0,0 21,15V19A2,2 0 0,1 19,21H17V19H19V14A2,2 0 0,1 21,12A2,2 0 0,1 19,10V5H17V3H19M12,15A1,1 0 0,1 13,16A1,1 0 0,1 12,17A1,1 0 0,1 11,16A1,1 0 0,1 12,15M8,15A1,1 0 0,1 9,16A1,1 0 0,1 8,17A1,1 0 0,1 7,16A1,1 0 0,1 8,15M16,15A1,1 0 0,1 17,16A1,1 0 0,1 16,17A1,1 0 0,1 15,16A1,1 0 0,1 16,15Z";

pub const TREE_VIEW_LOCK_ICON: &'static str = "M12,17A2,2 0 0,0 14,15C14,13.89 13.1,13 12,13A2,2 0 0,0 10,15A2,2 0 0,0 12,17M18,8A2,2 0 0,1 20,10V20A2,2 0 0,1 18,22H6A2,2 0 0,1 4,20V10C4,8.89 4.9,8 6,8H7V6A5,5 0 0,1 12,1A5,5 0 0,1 17,6V8H18M12,3A3,3 0 0,0 9,6V8H15V6A3,3 0 0,0 12,3Z";

pub const TREE_VIEW_TERMINAL_ICON: &'static str = "M20,19V7H4V19H20M20,3A2,2 0 0,1 22,5V19A2,2 0 0,1 20,21H4A2,2 0 0,1 2,19V5C2,3.89 2.9,3 4,3H20M13,17V15H18V17H13M9.58,13L5.57,9H8.4L11.7,12.3C12.09,12.69 12.09,13.33 11.7,13.72L8.42,17H5.59L9.58,13Z";

pub const TREE_VIEW_GIT_ICON: &'static str = "M2.6,10.59L8.38,4.8L10.07,6.5C9.83,7.35 10.22,8.28 11,8.73V14.27C10.4,14.61 10,15.26 10,16A2,2 0 0,0 12,18A2,2 0 0,0 14,16C14,15.26 13.6,14.61 13,14.27V9.41L15.07,11.5C15,11.65 15,11.82 15,12A2,2 0 0,0 17,14A2,2 0 0,0 19,12A2,2 0 0,0 17,10C16.82,10 16.65,10 16.5,10.07L13.93,7.5C14.19,6.57 13.71,5.55 12.78,5.16C12.35,5 11.9,4.96 11.5,5.07L9.8,3.38L10.59,2.6C11.37,1.81 12.63,1.81 13.41,2.6L21.4,10.59C22.19,11.37 22.19,12.63 21.4,13.41L13.41,21.4C12.63,22.19 11.37,22.19 10.59,21.4L2.6,13.41C1.81,12.63 1.81,11.37 2.6,10.59Z";

/// The SVG path drawn for a tree-view icon id; unknown ids get the file icon.
pub open spec fn icon_path_of(icon_id: Seq<char>) -> Seq<char> {
    if icon_id == "folder"@ {
        TREE_VIEW_FOLDER_ICON@
    } else if icon_id == "file"@ {
        TREE_VIEW_FILE_ICON@
    } else if icon_id == "rust"@ {
        TREE_VIEW_RUST_ICON@
    } else if icon_id == "config"@ {
        TREE_VIEW_CONFIG_ICON@
    } else if icon_id == "markdown"@ {
        TREE_VIEW_MARKDOWN_ICON@
    } else if icon_id == "database"@ {
        TREE_VIEW_DATABASE_ICON@
    } else if icon_id == "json"@ {
        TREE_VIEW_JSON_ICON@
    } else if icon_id == "lock"@ {
        TREE_VIEW_LOCK_ICON@
    } else if icon_id == "terminal"@ {
        TREE_VIEW_TERMINAL_ICON@
    } else if icon_id == "git"@ {
        TREE_VIEW_GIT_ICON@
    } else {
        TREE_VIEW_FILE_ICON@
    }
}

pub fn tree_view_icon_path(icon_id: &str) -> (res: &'static str)
    ensures
        res@ == icon_path_of(icon_id@),
{
    if str_eq(icon_id, "folder") {
        TREE_VIEW_FOLDER_ICON
    } else if str_eq(icon_id, "file") {
        TREE_VIEW_FILE_ICON
    } else if str_eq(icon_id, "rust") {
        TREE_VIEW_RUST_ICON
    } else if str_eq(icon_id, "config") {
        TREE_VIEW_CONFIG_ICON
    } else if str_eq(icon_id, "markdown") {
        TREE_VIEW_MARKDOWN_ICON
    } else if str_eq(icon_id, "database") {
        TREE_VIEW_DATABASE_ICON
    } else if str_eq(icon_id, "json") {
        TREE_VIEW_JSON_ICON
    } else if str_eq(icon_id, "lock") {
        TREE_VIEW_LOCK_ICON
    } else if str_eq(icon_id, "terminal") {
        TREE_VIEW_TERMINAL_ICON
    } else if str_eq(icon_id, "git") {
        TREE_VIEW_GIT_ICON
    } else {
        TREE_VIEW_FILE_ICON
    }
}

/// The icon a tree-view node shows, if any: the id `none` hides it.
pub fn tree_view_show_icon(icon_id: Option<&str>) -> (res: Option<&str>)
    ensures
        res == match icon_id {
            Some(id) => if id@ == "none"@ { None } else { Some(id) },
            None => None,
        },
{
    match icon_id {
        Some(id) => if str_eq(id, "none") {
            None
        } else {
            Some(id)
        },
        None => None,
    }
}

pub open spec fn opt_views(v: Seq<Option<String>>) -> Seq<Option<Seq<char>>> {
    v.map_values(|o: Option<String>| match o {
        Some(s) => Some(s@),
        None => None,
    })
}

/// The icons shown by the nodes, each once, in order of first use.
pub open spec fn used_icons(ids: Seq<Option<Seq<char>>>) -> Seq<Seq<char>>
    decreases ids.len(),
{
    if ids.len() == 0 {
        Seq::<Seq<char>>::empty()
    } else {
        let init = used_icons(ids.drop_last());
        match ids.last() {
            Some(id) => if id == "none"@ || init.contains(id) {
                init
            } else {
                init.push(id)
            },
            None => init,
        }
    }
}

pub open spec fn icon_symbol(id: Seq<char>) -> Seq<char> {
    "<symbol id=\"tv-icon-my-svg-"@ + xml_escaped(id) + "\" viewBox=\"0 0 24 24\"><path d=\""@
        + icon_path_of(id) + "\"/></symbol>"@
}

pub open spec fn icon_symbols(ids: Seq<Seq<char>>) -> Seq<char>
    decreases ids.len(),
{
    if ids.len() == 0 {
        Seq::<char>::empty()
    } else {
        icon_symbols(ids.drop_last()) + icon_symbol(ids.last())
    }
}

pub open spec fn tree_icon_defs_of(ids: Seq<Option<Seq<char>>>) -> Seq<char> {
    let used = used_icons(ids);
    if used.len() == 0 {
        Seq::<char>::empty()
    } else {
        "<defs>"@ + icon_symbols(used) + "</defs>"@
    }
}

fn contains_str_in(v: &Vec<String>, s: &str) -> (res: bool)
    ensures
        res == views(v@).contains(s@),
{
    let mut j: usize = 0;
    while j < v.len()
        invariant
            0 <= j <= v.len(),
            forall|k: int| 0 <= k < j ==> v@[k]@ != s@,
        decreases v.len() - j,
    {
        if str_eq(v[j].as_str(), s) {
            assert(views(v@)[j as int] == s@);
            return true;
        }
        j += 1;
    }
    assert forall|k: int| 0 <= k < views(v@).len() implies views(v@)[k] != s@ by {
        assert(views(v@)[k] == v@[k]@);
    }
    false
}

/// The `<defs>` block with one `<symbol>` per icon the tree-view nodes
/// show (given by their icon ids); empty when no node shows an icon.
pub fn render_tree_view_icon_defs(icon_ids: &[Option<String>]) -> (res: String)
    ensures
        res@ == tree_icon_defs_of(opt_views(icon_ids@)),
{
    let ghost all = opt_views(icon_ids@);
    let mut used: Vec<String> = Vec::new();
    let mut i: usize = 0;
    assert(all.take(0) =~= Seq::<Option<Seq<char>>>::empty());
    while i < icon_ids.len()
        invariant
            0 <= i <= icon_ids.len(),
            all == opt_views(icon_ids@),
            views(used@) == used_icons(all.take(i as int)),
        decreases icon_ids.len() - i,
    {
        assert(all.take(i + 1).drop_last() =~= all.take(i as int));
        assert(all.take(i + 1).last() == all[i as int]);
        match &icon_ids[i] {
            Some(id) => {
                if !str_eq(id.as_str(), "none") && !contains_str_in(&used, id.as_str()) {
                    let ghost before = views(used@);
                    let copy = id.clone();
                    used.push(copy);
                    assert(views(used@) =~= before.push(id@));
                }
            },
            None => {},
        }
        i += 1;
    }
    assert(all.take(icon_ids.len() as int) =~= all);
    if used.len() == 0 {
        return String::new();
    }
    let mut svg = "<defs>".to_owned();
    let ghost uv = views(used@);
    let mut k: usize = 0;
    assert(uv.take(0) =~= Seq::<Seq<char>>::empty());
    while k < used.len()
        invariant
            0 <= k <= used.len(),
            uv == views(used@),
            svg@ == "<defs>"@ + icon_symbols(uv.take(k as int)),
        decreases used.len() - k,
    {
        assert(uv.take(k + 1).drop_last() =~= uv.take(k as int));
        assert(uv.take(k + 1).last() == used@[k as int]@);
        let id = used[k].as_str();
        push_str(&mut svg, "<symbol id=\"tv-icon-my-svg-");
        let escaped = escape_xml(id);
        push_str(&mut svg, escaped.as_str());
        push_str(&mut svg, "\" viewBox=\"0 0 24 24\"><path d=\"");
        push_str(&mut svg, tree_view_icon_path(id));
        push_str(&mut svg, "\"/></symbol>");
        assert(svg@ =~= "<defs>"@ + icon_symbols(uv.take(k + 1)));
        k += 1;
    }
    assert(uv.take(used.len() as int) =~= uv);
    push_str(&mut svg, "</defs>");
    svg
}

/// The data key of a Venn region: its set ids in sorted order, joined with
/// `_`.
pub open spec fn sets_key_of(ids: Seq<Seq<char>>) -> Seq<char> {
    join(ids.sort_by(str_leq()), seq!['_'])
}

pub fn venn_data_sets_key(set_ids: &[String]) -> (res: String)
    ensures
        res@ == sets_key_of(views(set_ids@)),
{
    let ids = sort_strings(set_ids);
    proof {
        reveal_strlit("_");
    }
    assert("_"@ =~= seq!['_']);
    join_strings(&ids, "_")
}

/// A region's key does not depend on the order its sets are listed in.
pub proof fn lemma_sets_key_order_free(a: Seq<Seq<char>>, b: Seq<Seq<char>>)
    requires
        a.to_multiset() == b.to_multiset(),
    ensures
        sets_key_of(a) == sets_key_of(b),
{
    lemma_str_le_total();
    a.lemma_sort_by_ensures(str_leq());
    b.lemma_sort_by_ensures(str_leq());
    lemma_sorted_unique(a.sort_by(str_leq()), b.sort_by(str_leq()));
}

/// The entity `t` starts at position `i` of `s`.
pub open spec fn starts_at(s: Seq<char>, t: Seq<char>, i: int) -> bool {
    0 <= i && i + t.len() <= s.len() && s.subrange(i, i + t.len()) == t
}

/// One of the five XML entities starts at position `i` of `s`.
pub open spec fn entity_at(s: Seq<char>, i: int) -> bool {
    ||| starts_at(s, seq!['&', 'a', 'm', 'p', ';'], i)
    ||| starts_at(s, seq!['&', 'l', 't', ';'], i)
    ||| starts_at(s, seq!['&', 'g', 't', ';'], i)
    ||| starts_at(s, seq!['&', 'q', 'u', 'o', 't', ';'], i)
    ||| starts_at(s, seq!['&', 'a', 'p', 'o', 's', ';'], i)
}

/// Standard single-pass decoding of the five XML entities, read from the
/// front; any other character stands for itself.
pub open spec fn xml_unescape(t: Seq<char>) -> Seq<char>
    decreases t.len(),
{
    if t.len() == 0 {
        Seq::<char>::empty()
    } else if starts_at(t, seq!['&', 'a', 'm', 'p', ';'], 0) {
        seq!['&'] + xml_unescape(t.skip(5))
    } else if starts_at(t, seq!['&', 'l', 't', ';'], 0) {
        seq!['<'] + xml_unescape(t.skip(4))
    } else if starts_at(t, seq!['&', 'g', 't', ';'], 0) {
        seq!['>'] + xml_unescape(t.skip(4))
    } else if starts_at(t, seq!['&', 'q', 'u', 'o', 't', ';'], 0) {
        seq!['"'] + xml_unescape(t.skip(6))
    } else if starts_at(t, seq!['&', 'a', 'p', 'o', 's', ';'], 0) {
        seq!['\''] + xml_unescape(t.skip(6))
    } else {
        seq![t[0]] + xml_unescape(t.skip(1))
    }
}

proof fn lemma_escaped_concat(a: Seq<char>, b: Seq<char>)
    ensures
        xml_escaped(a + b) == xml_escaped(a) + xml_escaped(b),
    decreases b.len(),
{
    if b.len() == 0 {
        assert(a + b =~= a);
        assert(xml_escaped(a) + xml_escaped(b) =~= xml_escaped(a));
    } else {
        lemma_escaped_concat(a, b.drop_last());
        assert((a + b).drop_last() =~= a + b.drop_last());
        assert((a + b).last() == b.last());
        assert(xml_escaped(a + b) =~= xml_escaped(a) + xml_escaped(b));
    }
}

proof fn lemma_unescape_char(c: char, t: Seq<char>)
    ensures
        xml_unescape(xml_escape_char(c) + t) == seq![c] + xml_unescape(t),
{
    let e = xml_escape_char(c);
    let u = e + t;
    assert(u.skip(e.len() as int) =~= t);
    assert(u.subrange(0, e.len() as int) =~= e);
    if c == '&' {
    } else if c == '<' {
        assert(u[1] != 'a');
    } else if c == '>' {
        assert(u[1] != 'a' && u[1] != 'l');
    } else if c == '"' {
        assert(u[1] != 'a' && u[1] != 'l' && u[1] != 'g');
    } else if c == '\'' {
        assert(u[1] == 'a' && u[2] == 'p');
    } else {
        assert(u[0] == c);
    }
}

/// Escaping loses nothing: decoding the escaped text gives the input back.
pub proof fn lemma_escape_xml_round_trip(s: Seq<char>)
    ensures
        xml_unescape(xml_escaped(s)) == s,
    decreases s.len(),
{
    if s.len() > 0 {
        let rest = s.drop_first();
        lemma_escape_xml_round_trip(rest);
        lemma_escaped_concat(seq![s[0]], rest);
        assert(seq![s[0]] + rest =~= s);
        let one = seq![s[0]];
        assert(one.drop_last() =~= Seq::<char>::empty());
        assert(one.last() == s[0]);
        assert(xml_escaped(one.drop_last()) == Seq::<char>::empty());
        assert(xml_escaped(one) =~= xml_escape_char(s[0]));
        lemma_unescape_char(s[0], xml_escaped(rest));
        assert(seq![s[0]] + rest =~= s);
    }
}

/// Every `&` in escaped text starts one of the five entities.
pub proof fn lemma_escape_xml_entities(s: Seq<char>)
    ensures
        forall|i: int| 0 <= i < xml_escaped(s).len() && #[trigger] xml_escaped(s)[i] == '&' ==> entity_at(xml_escaped(s), i),
    decreases s.len(),
{
    if s.len() > 0 {
        lemma_escape_xml_entities(s.drop_last());
        let a = xml_escaped(s.drop_last());
        let b = xml_escape_char(s.last());
        let r = xml_escaped(s);
        assert(r == a + b);
        assert forall|i: int| 0 <= i < r.len() && #[trigger] r[i] == '&' implies entity_at(r, i) by {
            if i < a.len() {
                assert(r[i] == a[i]);
                assert(entity_at(a, i));
                if starts_at(a, seq!['&', 'a', 'm', 'p', ';'], i) {
                    assert(r.subrange(i, i + 5) =~= a.subrange(i, i + 5));
                } else if starts_at(a, seq!['&', 'l', 't', ';'], i) {
                    assert(r.subrange(i, i + 4) =~= a.subrange(i, i + 4));
                } else if starts_at(a, seq!['&', 'g', 't', ';'], i) {
                    assert(r.subrange(i, i + 4) =~= a.subrange(i, i + 4));
                } else if starts_at(a, seq!['&', 'q', 'u', 'o', 't', ';'], i) {
                    assert(r.subrange(i, i + 6) =~= a.subrange(i, i + 6));
                } else {
                    assert(r.subrange(i, i + 6) =~= a.subrange(i, i + 6));
                }
            } else {
                assert(r[i] == b[i - a.len()]);
                assert(r.subrange(a.len() as int, r.len() as int) =~= b);
                if i > a.len() {
                    assert(b[i - a.len()] != '&');
                }
                assert(i == a.len());
                assert(r.subrange(i, i + b.len()) =~= b);
            }
        }
    }
}

proof fn lemma_text_escaped_concat(a: Seq<char>, b: Seq<char>)
    ensures
        xml_text_escaped(a + b) == xml_text_escaped(a) + xml_text_escaped(b),
    decreases b.len(),
{
    if b.len() == 0 {
        assert(a + b =~= a);
        assert(xml_text_escaped(a) + xml_text_escaped(b) =~= xml_text_escaped(a));
    } else {
        lemma_text_escaped_concat(a, b.drop_last());
        assert((a + b).drop_last() =~= a + b.drop_last());
        assert((a + b).last() == b.last());
        assert(xml_text_escaped(a + b) =~= xml_text_escaped(a) + xml_text_escaped(b));
    }
}

/// Escaping a text node loses nothing and leaves no tag delimiter: decoding
/// gives the input back, and no `<` or `>` is left.
pub proof fn lemma_escape_text_node_round_trip(s: Seq<char>)
    ensures
        xml_unescape(xml_text_escaped(s)) == s,
        forall|i: int| 0 <= i < xml_text_escaped(s).len() ==> #[trigger] xml_text_escaped(s)[i] != '<'
            && xml_text_escaped(s)[i] != '>',
    decreases s.len(),
{
    if s.len() > 0 {
        let rest = s.drop_first();
        lemma_escape_text_node_round_trip(rest);
        lemma_text_escaped_concat(seq![s[0]], rest);
        assert(seq![s[0]] + rest =~= s);
        let one = seq![s[0]];
        assert(one.drop_last() =~= Seq::<char>::empty());
        assert(one.last() == s[0]);
        assert(xml_text_escaped(one.drop_last()) == Seq::<char>::empty());
        let e = xml_text_escape_char(s[0]);
        assert(xml_text_escaped(one) =~= e);
        let t = xml_text_escaped(rest);
        let u = e + t;
        assert(u.skip(e.len() as int) =~= t);
        assert(u.subrange(0, e.len() as int) =~= e);
        if s[0] == '<' {
            assert(u[1] != 'a');
        } else if s[0] == '>' {
            assert(u[1] != 'a' && u[1] != 'l');
        } else if s[0] != '&' {
            assert(u[0] == s[0]);
            if s[0] == '"' || s[0] == '\'' {
                assert(u[0] != '&');
            }
        }
        let r = xml_text_escaped(s);
        assert(r == u);
        assert forall|i: int| 0 <= i < r.len() implies #[trigger] r[i] != '<' && r[i] != '>' by {
            if i >= e.len() {
                assert(r[i] == t[i - e.len()]);
            }
        }
    }
}

} // verus!
