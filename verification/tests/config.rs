use rusty_sort::rules::{parse_category, Category, ConfigError, Rules};
use rusty_sort::state::load_rules;

#[test]
fn config_mixed_case_and_duplicates() {
    // A configured extension matches case-insensitively, duplicates and all.
    let rules = Rules::from_config("Images = heic, HEIC").unwrap();
    assert_eq!(rules.classify("x.HEIC"), Category::Images);
    assert_eq!(rules.classify("x.heic"), Category::Images);
}

#[test]
fn config_overrides_defaults() {
    // A later rule for an extension wins over the built-in one.
    let rules = Rules::from_config("Documents = jpg").unwrap();
    assert_eq!(rules.classify("photo.jpg"), Category::Documents);
    // Unrelated defaults still apply.
    assert_eq!(rules.classify("icon.png"), Category::Images);
}

#[test]
fn config_adds_new_extensions() {
    let rules = Rules::from_config("audio = .opus2, s3m\nARCHIVES = pak").unwrap();
    assert_eq!(rules.classify("tune.opus2"), Category::Audio);
    assert_eq!(rules.classify("mod.S3M"), Category::Audio);
    assert_eq!(rules.classify("data.pak"), Category::Archives);
}

#[test]
fn config_skips_blanks_and_comments() {
    let rules = Rules::from_config("# a comment\n\n   \nImages = webpx\n").unwrap();
    assert_eq!(rules.classify("a.webpx"), Category::Images);
}

#[test]
fn config_assignment_to_others_is_ignored() {
    let rules = Rules::from_config("Others = jpg").unwrap();
    // The built-in rule still stands: Others is never an explicit target.
    assert_eq!(rules.classify("photo.jpg"), Category::Images);
}

#[test]
fn config_invalid_line_fails_whole_load() {
    let err = Rules::from_config("Images heic").unwrap_err();
    match err {
        ConfigError::InvalidLine { line, text } => {
            assert_eq!(line, 1);
            assert_eq!(text, "Images heic");
        },
        other => panic!("wrong error: {:?}", line_of(&other)),
    }
}

#[test]
fn config_unknown_category_fails_whole_load() {
    let err = Rules::from_config("Images = jpg\n\nStuff = foo").unwrap_err();
    match err {
        ConfigError::UnknownCategory { line, text } => {
            assert_eq!(line, 3);
            assert_eq!(text, "Stuff = foo");
        },
        other => panic!("wrong error: {:?}", line_of(&other)),
    }
}

#[test]
fn config_error_reports_line_number_and_text() {
    let err = Rules::from_config("Images = a\n# fine\nno equals here\n").unwrap_err();
    match err {
        ConfigError::InvalidLine { line, text } => {
            assert_eq!(line, 3);
            assert_eq!(text, "no equals here");
        },
        other => panic!("wrong error: {:?}", line_of(&other)),
    }
}

#[test]
fn load_rules_without_config_is_the_default_table() {
    let rules = load_rules(None).unwrap();
    assert_eq!(rules.classify("a.jpg"), Category::Images);
    assert_eq!(rules.classify("a.xyz"), Category::Others);
}

#[test]
fn load_rules_with_config_applies_it() {
    let rules = load_rules(Some("Videos = xyz")).unwrap();
    assert_eq!(rules.classify("a.xyz"), Category::Videos);
}

#[test]
fn parse_category_trims_and_ignores_case() {
    assert_eq!(parse_category("  Images "), Some(Category::Images));
    assert_eq!(parse_category("AUDIO"), Some(Category::Audio));
    assert_eq!(parse_category("others"), Some(Category::Others));
    assert_eq!(parse_category("videos"), Some(Category::Videos));
    assert_eq!(parse_category("stuff"), None);
    assert_eq!(parse_category(""), None);
}

fn line_of(err: &ConfigError) -> usize {
    match err {
        ConfigError::InvalidLine { line, .. } => *line,
        ConfigError::UnknownCategory { line, .. } => *line,
    }
}
