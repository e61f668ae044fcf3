use cowsay::figure::format_animal;

#[test]
fn comment_lines_are_dropped() {
    let out: String = format_animal("## a comment\nbody\n## another", "\\", "oo", " ")
        .iter()
        .collect();
    assert_eq!(out, "body");
}

#[test]
fn marker_terminates_the_body() {
    // the marker line and everything after it are discarded
    let out: String = format_animal("a\nEOC\nb", "\\", "oo", " ").iter().collect();
    assert_eq!(out, "a");
}

#[test]
fn marker_anywhere_in_a_line_ends_the_figure() {
    let out: String = format_animal("fig\ntail EOC tail\nmore", "\\", "oo", " ")
        .iter()
        .collect();
    assert_eq!(out, "fig");
}

#[test]
fn unicode_whitespace_is_trimmed() {
    let out: String = format_animal("line\u{00A0}\u{2028}\u{3000} \n", "\\", "oo", " ")
        .iter()
        .collect();
    assert_eq!(out, "line");
}

#[test]
fn placeholders_are_replaced_globally() {
    let out: String = format_animal("$eyes $eyes / $tongue / $thoughts", "o", "==", "U")
        .iter()
        .collect();
    assert_eq!(out, "== == / U / o");
}

#[test]
fn escapes_become_literals() {
    let out: String = format_animal("a \\\\ b \\@ c", "o", "oo", " ").iter().collect();
    assert_eq!(out, "a \\ b @ c");
}

#[test]
fn substituted_glyphs_are_not_unescaped() {
    // an eyes string that is itself an escaped backslash pair must come out
    // unchanged, while the template's own pair is unescaped
    let out: String = format_animal("$eyes \\\\", "o", "\\\\", " ").iter().collect();
    assert_eq!(out, "\\\\ \\");
    // a tongue holding an escaped at-sign sequence is also left alone
    let out2: String = format_animal("$tongue \\@", "o", "oo", "\\@").iter().collect();
    assert_eq!(out2, "\\@ @");
}

#[test]
fn trailing_whitespace_is_trimmed() {
    let out: String = format_animal("line one  \n\n   \n", "\\", "oo", " ").iter().collect();
    assert_eq!(out, "line one");
}

#[test]
fn internal_whitespace_is_preserved() {
    let out: String = format_animal("  a  \n  b  ", "\\", "oo", " ").iter().collect();
    assert_eq!(out, "  a  \n  b");
}

#[test]
fn reformatting_a_stripped_template_changes_nothing() {
    let raw = "## header\nfig line (oo)\n  more fig\nEOC\n";
    let first: String = format_animal(raw, "\\", "oo", " ").iter().collect();
    let second: String = format_animal(&first, "\\", "oo", " ").iter().collect();
    assert_eq!(first, "fig line (oo)\n  more fig");
    assert_eq!(second, first);
}

#[test]
fn thinking_link_glyph_is_o() {
    let out: String = format_animal("$thoughts body", "o", "oo", " ").iter().collect();
    assert_eq!(out, "o body");
}
