use mmdr::labels::wrap_by_chars;
use mmdr::wrap::TextWrap;

/// Wraps with a width measure of one unit per character.
fn wrap_by_width(text: &str, max: usize) -> Vec<String> {
    let fits = |s: &str| s.chars().count() <= max;
    let mut wrap = TextWrap::new(text, fits(text));
    while let Some(candidate) = wrap.candidate() {
        wrap.step(fits(&candidate));
    }
    wrap.finish()
}

fn strings(v: &[&str]) -> Vec<String> {
    v.iter().map(|s| s.to_string()).collect()
}

#[test]
fn whole_text_that_fits_is_one_line() {
    assert_eq!(wrap_by_width("hello world", 20), strings(&["hello world"]));
    assert_eq!(wrap_by_width("  padded  ", 20), strings(&["  padded  "]));
}

#[test]
fn words_are_packed_greedily() {
    assert_eq!(
        wrap_by_width("the quick brown fox jumps", 10),
        strings(&["the quick", "brown fox", "jumps"])
    );
    assert_eq!(
        wrap_by_width("a veryveryverylongword b", 5),
        strings(&["a", "veryveryverylongword", "b"])
    );
}

#[test]
fn text_without_words_that_does_not_fit_gives_no_lines() {
    assert_eq!(wrap_by_width("       ", 3), Vec::<String>::new());
}

#[test]
fn every_line_fits_or_is_one_word() {
    let text = "lorem ipsum dolor sit amet consectetur adipiscing elit sed do eiusmod";
    let words: Vec<&str> = text.split_whitespace().collect();
    for max in 1..30 {
        let lines = wrap_by_width(text, max);
        assert_eq!(lines.join(" "), words.join(" "));
        for line in &lines {
            assert!(!line.is_empty());
            assert!(line.chars().count() <= max || words.contains(&line.as_str()));
        }
        assert_eq!(lines, wrap_by_chars(text, max));
    }
}

#[test]
fn a_wrap_offers_candidates_in_order() {
    let mut wrap = TextWrap::new("ab cd ef", false);
    assert_eq!(wrap.candidate().as_deref(), Some("ab"));
    wrap.step(false);
    assert_eq!(wrap.candidate().as_deref(), Some("ab cd"));
    wrap.step(false);
    assert_eq!(wrap.candidate().as_deref(), Some("cd ef"));
    wrap.step(true);
    assert_eq!(wrap.candidate(), None);
    assert_eq!(wrap.finish(), strings(&["ab", "cd ef"]));
}

#[test]
fn wrap_text_by_asks_the_measure() {
    let fits = |s: &str| s.chars().count() <= 10;
    assert_eq!(
        mmdr::wrap::wrap_text_by("the quick brown fox jumps", fits),
        strings(&["the quick", "brown fox", "jumps"])
    );
    assert_eq!(mmdr::wrap::wrap_text_by("short", fits), strings(&["short"]));
    assert_eq!(mmdr::wrap::wrap_text_by("            ", fits), Vec::<String>::new());
    let text = "lorem ipsum dolor sit amet consectetur adipiscing elit";
    for max in 1..20 {
        let by_width = mmdr::wrap::wrap_text_by(text, |s: &str| s.chars().count() <= max);
        assert_eq!(by_width, wrap_by_width(text, max));
    }
}

#[test]
fn wrap_text_by_breaks_only_where_the_next_word_does_not_fit() {
    let text = "aa bb cc dddddd e ff";
    let lines = mmdr::wrap::wrap_text_by(text, |s: &str| s.len() <= 5);
    assert_eq!(lines, strings(&["aa bb", "cc", "dddddd", "e ff"]));
    for pair in lines.windows(2) {
        let next_first = pair[1].split(' ').next().unwrap();
        assert!(format!("{} {}", pair[0], next_first).len() > 5);
    }
}
