use ags::mermaid::api::{ColorMode, Measure, Options, RenderError};
use ags::mermaid::color::{is_dark_background, is_valid_hex};

#[test]
fn recognises_hex_colours() {
    assert!(is_valid_hex("#3b82f6"));
    assert!(is_valid_hex("#FFFFFF"));
    assert!(!is_valid_hex("3b82f6"));
    assert!(!is_valid_hex("#3b82f"));
    assert!(!is_valid_hex("#3b82f6a"));
    assert!(!is_valid_hex("#gggggg"));
    assert!(!is_valid_hex("var(--ags-accent)"));
    assert!(!is_valid_hex(""));
}

#[test]
fn darkness_is_judged_by_lightness() {
    assert!(is_dark_background("#0b0b0d"));
    assert!(is_dark_background("#000000"));
    assert!(!is_dark_background("#ffffff"));
    assert!(!is_dark_background("#eff1f5"));
}

#[test]
fn lightness_one_half_is_not_dark() {
    // The brightest and dimmest channels sum to exactly 255 here.
    assert!(!is_dark_background("#ff0000"));
    assert!(!is_dark_background("#807f7f"));
    assert!(is_dark_background("#7f7f7f"));
    // A channel that cannot be read counts as nothing.
    assert!(is_dark_background("nonsense"));
    assert!(!is_dark_background("ffzz80"));
    assert!(is_dark_background("#+f+f+f"));
}

#[test]
fn errors_read_as_sentences() {
    assert_eq!(
        RenderError::Malformed {
            line: 4,
            message: "expected a value".into()
        }
        .to_string(),
        "line 4: expected a value"
    );
    assert_eq!(
        RenderError::UnknownType {
            found: "wat".into(),
            suggestion: None
        }
        .to_string(),
        "unknown diagram type `wat`"
    );
}

#[test]
fn a_typo_reads_with_its_suggestion_and_nothing_reads_as_nothing() {
    let err = RenderError::UnknownType {
        found: "pae".into(),
        suggestion: Some("pie"),
    };
    assert_eq!(
        err.to_string(),
        "unknown diagram type `pae` — did you mean `pie`?"
    );
    let empty = RenderError::UnknownType {
        found: String::new(),
        suggestion: Some("pie"),
    };
    assert_eq!(empty.to_string(), "no diagram type declared");
    let far = RenderError::Malformed {
        line: 120,
        message: String::new(),
    };
    assert_eq!(far.to_string(), "line 120: ");
}

#[test]
fn token_colours_are_the_default() {
    assert_eq!(Options::default().colors, ColorMode::Tokens);
    assert_eq!(Options::default().measure, Measure::Estimate);
}
