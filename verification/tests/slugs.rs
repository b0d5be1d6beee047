use notion_fs::slug::slugify;

#[test]
fn test_slugify_ascii() {
    assert_eq!(slugify("In Progress"), "in-progress");
}

#[test]
fn test_slugify_diacritics() {
    assert_eq!(slugify("Nguyễn Văn"), "nguyen-van");
}

#[test]
fn test_slugify_vietnamese_d() {
    assert_eq!(slugify("Đặng"), "dang");
}

#[test]
fn test_slugify_special_chars() {
    assert_eq!(slugify("foo--bar  baz!"), "foo-bar-baz");
}

#[test]
fn test_slugify_empty() {
    assert_eq!(slugify(""), "");
}

#[test]
fn slug_of_a_compatibility_character_is_decomposed() {
    assert_eq!(slugify("ﬁne Ⅳ"), "fine-iv");
}

#[test]
fn slug_drops_combining_marks() {
    assert_eq!(slugify("e\u{301}te\u{301}"), "ete");
}

#[test]
fn slug_turns_other_letters_into_separators() {
    assert_eq!(slugify("a ß b"), "a-b");
    assert_eq!(slugify("日本"), "");
}

#[test]
fn slug_has_no_hyphen_at_its_ends() {
    assert_eq!(slugify("  (Done)  "), "done");
    assert_eq!(slugify("---"), "");
}

#[test]
fn slug_of_a_slug_is_itself() {
    assert_eq!(slugify("in-progress-2"), "in-progress-2");
    assert_eq!(slugify(&slugify("Ready, Set -- Go!")), slugify("Ready, Set -- Go!"));
}

#[test]
fn names_with_one_slug() {
    assert_eq!(slugify("In Progress"), slugify("in_progress"));
}

#[test]
fn slug_joins_runs_of_letters_and_digits() {
    for name in ["Ready, Set -- Go!", "v2.0 (beta)", "--x--", "a", " 1  2 ", "ABC def"] {
        let mut runs: Vec<String> = Vec::new();
        for run in name.split(|c: char| !c.is_ascii_alphanumeric()) {
            if !run.is_empty() {
                runs.push(run.to_ascii_lowercase());
            }
        }
        assert_eq!(slugify(name), runs.join("-"), "{}", name);
    }
}
