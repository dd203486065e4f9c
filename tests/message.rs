use resume::message::{CommitScope, CommitType, ConventionalMessage, ParseError};

#[test]
fn test_parse_simple_message() {
    let expected = ConventionalMessage {
        ctype: CommitType::Feature,
        scope: None,
        is_breaking: false,
        summary: "new feature".to_string(),
        body: None,
        trailers: vec![],
    };

    let input = format!("feat: {}", &expected.summary);
    let message: ConventionalMessage = input.parse().unwrap();
    assert_eq!(expected, message);
}

#[test]
fn test_parse_message_with_trailers() {
    let expected = ConventionalMessage {
        ctype: CommitType::Feature,
        scope: None,
        is_breaking: false,
        summary: "new feature".to_string(),
        body: None,
        trailers: vec![
            ("Team".to_string(), "X functional".to_string()),
            ("foo".to_string(), "bar metal".to_string()),
        ],
    };

    let input = format!(
        "feat: {}\n\n{}: {}\n{}: {}",
        &expected.summary,
        &expected.trailers[0].0,
        &expected.trailers[0].1,
        &expected.trailers[1].0,
        &expected.trailers[1].1,
    );
    let message: ConventionalMessage = input.parse().unwrap();
    assert_eq!(expected, message);
}

#[test]
fn test_parse_message_with_all_syntaxes() {
    let expected = ConventionalMessage {
        ctype: CommitType::BugFix,
        scope: Some("scope".parse().unwrap()),
        is_breaking: true,
        summary: "the summary".to_string(),
        body: Some("Some body content\n\n\nmultiple\nlines\nblock".to_string()),
        trailers: vec![("Key".to_string(), "Value".to_string())],
    };

    let input = format!(
        "fix({})!: {}\n\n{}\n\n{}: {} \n",
        expected.scope.as_ref().unwrap().as_str(),
        &expected.summary,
        expected.body.as_ref().unwrap(),
        &expected.trailers[0].0,
        &expected.trailers[0].1,
    );

    let message: ConventionalMessage = input.parse().unwrap();
    assert_eq!(expected, message);
}

#[test]
fn parses_plain_feature_headline() {
    let message = ConventionalMessage::parse("feat: add login").unwrap();
    assert_eq!(message.ctype, CommitType::Feature);
    assert_eq!(message.scope, None);
    assert!(!message.is_breaking);
    assert_eq!(message.summary, "add login");
    assert_eq!(message.body, None);
    assert!(message.trailers.is_empty());
}

#[test]
fn parses_scoped_breaking_fix_with_trailer() {
    let message =
        ConventionalMessage::parse("fix(auth)!: reject expired tokens\n\nTeam: platform").unwrap();
    assert_eq!(message.ctype, CommitType::BugFix);
    assert_eq!(message.scope, Some(CommitScope::new("auth".to_string())));
    assert!(message.is_breaking);
    assert_eq!(message.summary, "reject expired tokens");
    assert_eq!(message.body, None);
    assert_eq!(message.trailers, vec![("Team".to_string(), "platform".to_string())]);
}

#[test]
fn unknown_type_word_is_kept() {
    let message = ConventionalMessage::parse("chore: bump deps\n").unwrap();
    assert_eq!(message.ctype, CommitType::Other("chore".to_string()));
    assert_eq!(message.ctype.as_str(), "chore");
}

#[test]
fn body_without_trailers() {
    let message = ConventionalMessage::parse("docs: readme\n\n  explain usage  \n").unwrap();
    assert_eq!(message.body, Some("explain usage".to_string()));
    assert!(message.trailers.is_empty());
}

#[test]
fn headline_errors() {
    assert_eq!(ConventionalMessage::parse("Merge branch 'x'"), Err(ParseError::Headline));
    assert_eq!(ConventionalMessage::parse("feat:missing space"), Err(ParseError::Headline));
    assert_eq!(ConventionalMessage::parse("feat(): empty scope"), Err(ParseError::Headline));
    assert_eq!(ConventionalMessage::parse(""), Err(ParseError::Headline));
}

#[test]
fn layout_error_without_blank_line() {
    assert_eq!(
        ConventionalMessage::parse("feat: x\nsecond line"),
        Err(ParseError::Layout)
    );
}

#[test]
fn commit_type_words() {
    for (word, ctype) in [
        ("build", CommitType::Build),
        ("ci", CommitType::ContinuousIntegration),
        ("docs", CommitType::Documentation),
        ("feat", CommitType::Feature),
        ("fix", CommitType::BugFix),
        ("perf", CommitType::Performance),
        ("refactor", CommitType::Refactoring),
        ("style", CommitType::Style),
        ("test", CommitType::Test),
    ] {
        assert_eq!(CommitType::from_str(word), Ok(ctype.clone()));
        assert_eq!(ctype.as_str(), word);
    }
}
