use cowsay::bubble::make_bubble;

#[test]
fn moo_single_line() {
    let out: String = make_bubble("moo", 40, false, true).iter().collect();
    assert_eq!(out, " _____\n< moo >\n -----");
}

#[test]
fn spaceless_run_hard_breaks_at_width() {
    let msg: String = std::iter::repeat('x').take(50).collect();
    let out: String = make_bubble(&msg, 10, false, true).iter().collect();
    let expected = " ____________\n/ xxxxxxxxxx \\\n| xxxxxxxxxx |\n| xxxxxxxxxx |\n| xxxxxxxxxx |\n\\ xxxxxxxxxx /\n ------------";
    assert_eq!(out, expected);
}

#[test]
fn wrap_cuts_at_spaces_and_keeps_them() {
    let out: String = make_bubble("hello world foo", 7, false, true).iter().collect();
    assert_eq!(
        out,
        " ________\n/ hello  \\\n| world  |\n\\ foo    /\n --------"
    );
}

#[test]
fn two_lines_get_top_and_bottom_borders() {
    let out: String = make_bubble("ab cd", 3, false, true).iter().collect();
    assert_eq!(out, " _____\n/ ab  \\\n\\ cd  /\n -----");
}

#[test]
fn nowrap_keeps_whole_message_on_one_line() {
    let out: String = make_bubble("hello world", 3, false, false).iter().collect();
    assert_eq!(out, " _____________\n< hello world >\n -------------");
}

#[test]
fn empty_message_still_boxed() {
    let out: String = make_bubble("", 40, false, true).iter().collect();
    assert_eq!(out, " __\n<  >\n --");
}

#[test]
fn thinking_mode_uses_parentheses_everywhere() {
    let out: String = make_bubble("ab cd ef", 3, true, true).iter().collect();
    assert_eq!(out, " _____\n( ab  )\n( cd  )\n( ef  )\n -----");
}

#[test]
fn all_content_lines_have_equal_length() {
    let out: String = make_bubble("one two three four five six", 10, false, true)
        .iter()
        .collect();
    let lines: Vec<&str> = out.split('\n').collect();
    assert!(lines.len() >= 3);
    let content = &lines[1..lines.len() - 1];
    let longest = content[0].len();
    for line in content {
        assert_eq!(line.len(), longest);
    }
    // the rules: one leading space, then fill characters, one column shorter
    assert_eq!(lines[0].len(), longest - 1);
    assert_eq!(lines[lines.len() - 1].len(), longest - 1);
    assert!(lines[0].starts_with(' '));
    assert!(lines[0][1..].chars().all(|c| c == '_'));
    assert!(lines[lines.len() - 1].starts_with(' '));
    assert!(lines[lines.len() - 1][1..].chars().all(|c| c == '-'));
}

#[test]
fn wrapped_lines_stay_within_width() {
    let out: String = make_bubble("aa bb cc dd ee ff gg hh", 6, false, true)
        .iter()
        .collect();
    let lines: Vec<&str> = out.split('\n').collect();
    for line in &lines[1..lines.len() - 1] {
        assert!(line.len() <= 6 + 4);
    }
}
