use chatgpt_translator::{split, Error};

fn strip_blanks(s: &str) -> String {
    s.chars().filter(|c| !c.is_whitespace()).collect()
}

#[test]
fn heading_boundaries() {
    let r = split("# A\ntext1\n## B\ntext2").unwrap();
    assert_eq!(r, vec!["# A\ntext1".to_string(), "## B\ntext2".to_string()]);
}

#[test]
fn no_heading_gives_one_fragment() {
    let r = split("just text, no headings").unwrap();
    assert_eq!(r, vec!["just text, no headings".to_string()]);
}

#[test]
fn empty_input_is_refused() {
    assert!(matches!(split(""), Err(Error::EmptyInput)));
}

#[test]
fn preamble_is_its_own_fragment() {
    let r = split("intro\n\n# One\nbody\n").unwrap();
    assert_eq!(r, vec!["intro".to_string(), "# One\nbody".to_string()]);
}

#[test]
fn heading_inside_code_fence_is_ignored() {
    let text = "# Code\n```\n# not a heading\n```\n# Next\nend";
    let r = split(text).unwrap();
    assert_eq!(
        r,
        vec!["# Code\n```\n# not a heading\n```".to_string(), "# Next\nend".to_string()]
    );
}

#[test]
fn tilde_fence_closes_only_on_tildes() {
    let text = "~~~\n```\n# inside\n~~~\n# out";
    let r = split(text).unwrap();
    assert_eq!(r, vec!["~~~\n```\n# inside\n~~~".to_string(), "# out".to_string()]);
}

#[test]
fn seven_hashes_or_no_space_is_not_a_heading() {
    let r = split("a\n####### seven\n#tag\n###### six").unwrap();
    assert_eq!(r, vec!["a\n####### seven\n#tag".to_string(), "###### six".to_string()]);
}

#[test]
fn bare_hash_line_is_a_heading() {
    let r = split("a\n#\nb").unwrap();
    assert_eq!(r, vec!["a".to_string(), "#\nb".to_string()]);
}

#[test]
fn whitespace_only_text_gives_no_fragment() {
    let r = split("  \n\t ").unwrap();
    assert!(r.is_empty());
}

#[test]
fn fragments_keep_all_content() {
    let text = "lead  \n# H1\n\n para one\n\n## H2\n  ```\n# x\n```\n### H3\n\tlast ";
    let r = split(text).unwrap();
    assert_eq!(r.len(), 4);
    assert_eq!(strip_blanks(&r.concat()), strip_blanks(text));
    for f in &r {
        assert_eq!(f.trim(), f.as_str());
        assert!(!f.is_empty());
    }
}

#[test]
fn splitting_a_fragment_again_gives_it_back() {
    let r = split("# A\ntext1\n## B\ntext2").unwrap();
    for f in &r {
        assert_eq!(split(f).unwrap(), vec![f.clone()]);
    }
}

#[test]
fn non_ascii_text_is_split_by_characters() {
    let r = split("はじめに\n# 見出し\n本文です").unwrap();
    assert_eq!(r, vec!["はじめに".to_string(), "# 見出し\n本文です".to_string()]);
}

#[test]
fn fence_may_be_indented_up_to_three_spaces() {
    let r = split("a\n   ```\n# in\n   ```\n# out").unwrap();
    assert_eq!(r, vec!["a\n   ```\n# in\n   ```".to_string(), "# out".to_string()]);
}

#[test]
fn four_spaces_of_indent_make_no_fence() {
    let r = split("a\n    ```\n# h").unwrap();
    assert_eq!(r, vec!["a\n    ```".to_string(), "# h".to_string()]);
}

#[test]
fn shorter_fence_does_not_close() {
    let r = split("````\n```\n# in\n````\n# out").unwrap();
    assert_eq!(r, vec!["````\n```\n# in\n````".to_string(), "# out".to_string()]);
}

#[test]
fn closing_fence_takes_no_info_text() {
    let r = split("```\n``` x\n# in\n```\n# out").unwrap();
    assert_eq!(r, vec!["```\n``` x\n# in\n```".to_string(), "# out".to_string()]);
}

#[test]
fn backtick_in_info_text_makes_no_fence() {
    let r = split("``` a`b\n# h").unwrap();
    assert_eq!(r, vec!["``` a`b".to_string(), "# h".to_string()]);
    let t = split("~~~ a`b\n# in\n~~~\n# out").unwrap();
    assert_eq!(t, vec!["~~~ a`b\n# in\n~~~".to_string(), "# out".to_string()]);
}

#[test]
fn hash_run_then_tab_or_trailing_whitespace_is_a_heading() {
    let r = split("a\n#\t\n# b").unwrap();
    assert_eq!(r, vec!["a".to_string(), "#".to_string(), "# b".to_string()]);
    let t = split("a\n##\tTitle\nbody").unwrap();
    assert_eq!(t, vec!["a".to_string(), "##\tTitle\nbody".to_string()]);
    let u = split("a\n#\u{a0}\nb").unwrap();
    assert_eq!(u, vec!["a".to_string(), "#\u{a0}\nb".to_string()]);
}

#[test]
fn every_fragment_splits_back_into_itself() {
    let texts = [
        "a\n#\t\n# b",
        "lead\n# H1\n\n para\n\n## H2\n  ```\n# x\n```\n### H3\n\tlast",
        "~~~\n# in\n~~~\n#\u{b}\ntext\n# end  ",
    ];
    for text in texts {
        for f in split(text.trim()).unwrap() {
            assert_eq!(split(&f).unwrap(), vec![f.clone()]);
        }
    }
}
