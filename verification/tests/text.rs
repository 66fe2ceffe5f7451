use mmdr::text::expand_tabs;

#[test]
fn tabs_become_four_spaces() {
    assert_eq!(expand_tabs("a\tb"), "a    b");
    assert_eq!(expand_tabs("\t\t"), "        ");
    assert_eq!(expand_tabs("no tabs"), "no tabs");
    assert_eq!(expand_tabs(""), "");
    assert_eq!(expand_tabs("é\t"), "é    ");
}
