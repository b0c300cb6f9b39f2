use gip::authoring::{validate_authoring, ValidationError, AUTHORING_TEMPLATE};

#[test]
fn missing_authoring_file_is_refused() {
    assert_eq!(validate_authoring(None), Err(ValidationError::Missing));
}

#[test]
fn unedited_template_is_refused() {
    assert_eq!(validate_authoring(Some(AUTHORING_TEMPLATE)), Err(ValidationError::Unchanged));
    let crlf = format!("\n  {}  \n", AUTHORING_TEMPLATE.replace('\n', "\r\n"));
    assert_eq!(validate_authoring(Some(&crlf)), Err(ValidationError::Unchanged));
}

#[test]
fn placeholder_rationale_is_refused_whatever_else_is_filled() {
    let edited = AUTHORING_TEMPLATE
        .replace("file: src/main.rs", "file: src/lib.rs")
        .replace("symbol: main", "symbol: parse")
        .replace("behaviorClass[1]: feature", "behaviorClass[1]: bugfix");
    assert_eq!(validate_authoring(Some(&edited)), Err(ValidationError::Placeholder));
}

#[test]
fn filled_authoring_file_is_accepted() {
    let filled =
        AUTHORING_TEMPLATE.replace("Describe your changes here", "Fix the off-by-one in parse");
    assert_eq!(validate_authoring(Some(&filled)), Ok(()));
}
