use vault_links::wikilink::{extract_wikilinks, render_wikilinks, WikiLink};

fn link(target: &str, alias: Option<&str>) -> WikiLink {
    WikiLink { target: target.to_string(), alias: alias.map(|a| a.to_string()) }
}

#[test]
fn extracts_targets_and_aliases_in_order() {
    let links = extract_wikilinks("See [[B]] and [[C|See Also]]");
    assert_eq!(links, vec![link("B", None), link("C", Some("See Also"))]);
}

#[test]
fn trims_target_and_alias() {
    let links = extract_wikilinks("[[  Note  |  shown text \t]]");
    assert_eq!(links, vec![link("Note", Some("shown text"))]);
}

#[test]
fn splits_alias_at_first_pipe_only() {
    let links = extract_wikilinks("[[a|b|c]]");
    assert_eq!(links, vec![link("a", Some("b|c"))]);
}

#[test]
fn escaped_reference_is_literal() {
    assert_eq!(extract_wikilinks("\\[[Hidden]]"), vec![]);
    let links = extract_wikilinks("x \\[[Hidden]] y [[Shown]]");
    assert_eq!(links, vec![link("Shown", None)]);
}

#[test]
fn escaped_reference_never_appears_in_any_surrounding_text() {
    for text in ["\\[[Secret]]", "before \\[[Secret]] after", "[[A]]\\[[Secret]][[B]]", "\\\\[[Secret]]"] {
        let links = extract_wikilinks(text);
        assert!(links.iter().all(|l| l.target != "Secret"), "{}", text);
    }
}

#[test]
fn unterminated_or_broken_by_newline_yields_nothing() {
    assert_eq!(extract_wikilinks("[[open"), vec![]);
    assert_eq!(extract_wikilinks("[[split\nline]]"), vec![]);
    assert_eq!(extract_wikilinks("[[a\n[[b]]"), vec![link("b", None)]);
}

#[test]
fn closes_at_first_double_bracket() {
    assert_eq!(extract_wikilinks("[[a]]]"), vec![link("a", None)]);
    assert_eq!(extract_wikilinks("[[[a]]"), vec![link("[a", None)]);
    assert_eq!(extract_wikilinks("[[]]"), vec![link("", None)]);
}

#[test]
fn empty_text_has_no_links() {
    assert_eq!(extract_wikilinks(""), vec![]);
}

#[test]
fn render_writes_bracket_form() {
    let text = render_wikilinks(&vec![link("B", None), link("C", Some("See Also"))]);
    assert_eq!(text, "[[B]][[C|See Also]]");
}

#[test]
fn extract_render_extract_is_stable() {
    for text in [
        "See [[B]] and [[C|See Also]]",
        "[[ x | y ]] text [[x]] [[x]] \\[[esc]] [[a|b|c]] [[]]",
        "[[one]]\n[[two|2]]",
    ] {
        let first = extract_wikilinks(text);
        let again = extract_wikilinks(&render_wikilinks(&first));
        assert_eq!(again, first, "{}", text);
    }
}

#[test]
fn trims_unicode_whitespace() {
    let links = extract_wikilinks("[[\u{3000}Note\u{00A0}|\u{2009}Alias ]]");
    assert_eq!(links, vec![link("Note", Some("Alias"))]);
}
