use mmdr::labels::{
    c4_bracketed_lines, default_kanban_section_fill, first_text_line,
    is_class_annotation_label_text, is_divider_line, is_kanban_metadata_line,
    kanban_priority_color, kanban_render_parts, parse_er_attributes, parse_kanban_metadata_pairs,
    split_er_attribute_comment, text_block_plain, wrap_by_chars, TextBlock,
};

fn strings(v: &[&str]) -> Vec<String> {
    v.iter().map(|s| s.to_string()).collect()
}

#[test]
fn plain_text_of_labels() {
    let block = TextBlock { lines: strings(&["a", "b c"]) };
    assert_eq!(text_block_plain(&block), "a b c");
    assert_eq!(first_text_line(&block), "a");
    assert_eq!(first_text_line(&TextBlock { lines: vec![] }), "");
}

#[test]
fn c4_brackets() {
    assert!(c4_bracketed_lines(&[]).is_empty());
    assert_eq!(c4_bracketed_lines(&strings(&["x"])), strings(&["[x]"]));
    assert_eq!(c4_bracketed_lines(&strings(&["a", "b", "c"])), strings(&["[a", "b", "c]"]));
}

#[test]
fn dividers_and_annotations() {
    assert!(is_divider_line("  ---  "));
    assert!(!is_divider_line("--"));
    assert!(is_class_annotation_label_text(" «interface» "));
    assert!(is_class_annotation_label_text("«»"));
    assert!(!is_class_annotation_label_text("«x"));
}

#[test]
fn er_comment_split() {
    assert_eq!(
        split_er_attribute_comment("string name \"the name\""),
        ("string name".to_string(), Some("the name".to_string()))
    );
    assert_eq!(split_er_attribute_comment("int id"), ("int id".to_string(), None));
    assert_eq!(split_er_attribute_comment("a \"  \" b"), ("a".to_string(), None));
    assert_eq!(split_er_attribute_comment("x \"only"), ("x \"only".to_string(), None));
}

#[test]
fn er_attributes_after_divider() {
    let (title, attrs) = parse_er_attributes(&strings(&[
        "CUSTOMER",
        "Customer",
        "---",
        "string name PK \"full name\"",
        "int id PK,FK",
        "",
        "FK",
        "note",
    ]));
    assert_eq!(title, "Customer");
    assert_eq!(attrs.len(), 3);
    assert_eq!(attrs[0].data_type, "string");
    assert_eq!(attrs[0].name, "name");
    assert_eq!(attrs[0].keys, strings(&["PK"]));
    assert_eq!(attrs[0].comment.as_deref(), Some("full name"));
    assert_eq!(attrs[1].data_type, "int");
    assert_eq!(attrs[1].name, "id");
    assert_eq!(attrs[1].keys, strings(&["PK", "FK"]));
    assert_eq!(attrs[1].comment, None);
    assert_eq!(attrs[2].data_type, "");
    assert_eq!(attrs[2].name, "note");
    let (title, attrs) = parse_er_attributes(&[]);
    assert_eq!(title, "");
    assert!(attrs.is_empty());
}

#[test]
fn er_multi_word_names() {
    let (_, attrs) = parse_er_attributes(&strings(&["E", "---", "varchar first name uk;"]));
    assert_eq!(attrs.len(), 1);
    assert_eq!(attrs[0].data_type, "varchar");
    assert_eq!(attrs[0].name, "first name");
    assert_eq!(attrs[0].keys, strings(&["UK"]));
}

#[test]
fn kanban_metadata() {
    assert!(is_kanban_metadata_line("Ticket: MC-1"));
    assert!(!is_kanban_metadata_line("Fix the bug"));
    assert_eq!(
        parse_kanban_metadata_pairs("ticket: MC-2037, assigned: 'knsv'\npriority: \"High\", :x, novalue"),
        vec![
            ("ticket".to_string(), "MC-2037".to_string()),
            ("assigned".to_string(), "knsv".to_string()),
            ("priority".to_string(), "High".to_string()),
        ]
    );
    let parts = kanban_render_parts(&TextBlock {
        lines: strings(&["Task title", "ticket: A, priority: Very High", "more", "ticket: B"]),
    });
    assert_eq!(parts.title_lines, strings(&["Task title", "more"]));
    assert_eq!(parts.ticket.as_deref(), Some("B"));
    assert_eq!(parts.assigned, None);
    assert_eq!(parts.priority.as_deref(), Some("Very High"));
}

#[test]
fn kanban_parts_are_filtered_lines_and_last_values() {
    let lines = strings(&[
        "Fix login",
        "assigned: ann, ticket: T-1",
        "on mobile",
        "priority: Low, assigned: bob",
        "ticket: T-2, other: x",
    ]);
    let parts = kanban_render_parts(&TextBlock { lines: lines.clone() });
    let titles: Vec<String> =
        lines.iter().filter(|l| !is_kanban_metadata_line(l)).cloned().collect();
    assert_eq!(parts.title_lines, titles);
    let pairs: Vec<(String, String)> = lines
        .iter()
        .filter(|l| is_kanban_metadata_line(l))
        .flat_map(|l| parse_kanban_metadata_pairs(l))
        .collect();
    let last = |key: &str| pairs.iter().rev().find(|(k, _)| k == key).map(|(_, v)| v.clone());
    assert_eq!(parts.ticket, last("ticket"));
    assert_eq!(parts.assigned, last("assigned"));
    assert_eq!(parts.priority, last("priority"));
    assert_eq!(parts.ticket.as_deref(), Some("T-2"));
    assert_eq!(parts.assigned.as_deref(), Some("bob"));
}

#[test]
fn kanban_colors() {
    assert_eq!(kanban_priority_color("Very High"), Some("red"));
    assert_eq!(kanban_priority_color("high"), Some("orange"));
    assert_eq!(kanban_priority_color("MEDIUM"), None);
    assert_eq!(kanban_priority_color("low"), Some("blue"));
    assert_eq!(kanban_priority_color("very low"), Some("lightblue"));
    assert_eq!(kanban_priority_color("x"), None);
    assert_eq!(default_kanban_section_fill(0), "hsl(80, 100%, 86.2745098039%)");
    assert_eq!(default_kanban_section_fill(11), "hsl(80, 100%, 86.2745098039%)");
    assert_eq!(default_kanban_section_fill(10), "hsl(60, 100%, 83.5294117647%)");
}

#[test]
fn wrapping_by_bytes() {
    assert_eq!(wrap_by_chars("short", 10), strings(&["short"]));
    assert_eq!(wrap_by_chars("the quick brown fox", 10), strings(&["the quick", "brown fox"]));
    assert_eq!(
        wrap_by_chars("supercalifragilistic word", 5),
        strings(&["supercalifragilistic", "word"])
    );
    assert_eq!(wrap_by_chars("      ", 2), strings(&["      "]));
    assert_eq!(wrap_by_chars("héé a", 5), strings(&["héé", "a"]));
}

#[test]
fn wrapped_lines_fit_or_are_single_words() {
    let text = "a bb ccc dddddddddd ee f gggg hh iiiiiiiiiiiii j";
    let words: Vec<&str> = text.split_whitespace().collect();
    let lines = wrap_by_chars(text, 6);
    assert_eq!(lines.join(" "), words.join(" "));
    for line in &lines {
        assert!(line.len() <= 6 || words.contains(&line.as_str()), "{line}");
    }
    for pair in lines.windows(2) {
        let next_first = pair[1].split(' ').next().unwrap_or("");
        assert!(pair[0].len() + 1 + next_first.len() > 6, "{pair:?}");
    }
    assert_eq!(
        lines,
        strings(&["a bb", "ccc", "dddddddddd", "ee f", "gggg", "hh", "iiiiiiiiiiiii", "j"])
    );
}
