use regexlib::error::RegexError;
use regexlib::parser::character_class::CharacterClass;

fn test_parse(remaining: &str) -> Option<CharacterClass> {
    match CharacterClass::try_parse(remaining) {
        Ok(Some((parsed, remaining))) => {
            assert_eq!(remaining.len(), 0);
            Some(parsed)
        }
        Err(e) => {
            println!("{}", e.message());
            None
        }
        _ => None,
    }
}

#[test]
fn character_class_test_single_char() {
    assert_eq!(test_parse("[a]").unwrap(), CharacterClass::Char('a'));
}

#[test]
fn character_class_test_multi_char() {
    assert_eq!(
        test_parse("[xyz]").unwrap(),
        CharacterClass::Disjunction(vec![
            CharacterClass::Char('x'),
            CharacterClass::Char('y'),
            CharacterClass::Char('z'),
        ])
    );
}

#[test]
fn character_class_test_negated_single_char() {
    assert_eq!(
        test_parse("[^a]").unwrap(),
        CharacterClass::Negated(Box::new(CharacterClass::Char('a')))
    );
}

#[test]
fn character_class_test_negated_multi_char() {
    assert_eq!(
        test_parse("[^xyz]").unwrap(),
        CharacterClass::Negated(Box::new(CharacterClass::Disjunction(vec![
            CharacterClass::Char('x'),
            CharacterClass::Char('y'),
            CharacterClass::Char('z'),
        ])))
    );
}

#[test]
fn character_class_test_range() {
    assert_eq!(
        test_parse("[a-z]").unwrap(),
        CharacterClass::Range {
            start: 'a',
            end: 'z',
        }
    );
}

#[test]
fn character_class_test_double_range() {
    assert_eq!(
        test_parse("[a-z0-9]").unwrap(),
        CharacterClass::Disjunction(vec![
            CharacterClass::Range {
                start: 'a',
                end: 'z',
            },
            CharacterClass::Range {
                start: '0',
                end: '9',
            },
        ])
    );
}

#[test]
fn character_class_test_negated_range() {
    assert_eq!(
        test_parse("[^a-z]").unwrap(),
        CharacterClass::Negated(Box::new(CharacterClass::Range {
            start: 'a',
            end: 'z',
        }))
    );
}

#[test]
fn no_bracket_is_no_class() {
    assert_eq!(CharacterClass::try_parse("abc"), Ok(None));
    assert_eq!(CharacterClass::try_parse(""), Ok(None));
}

#[test]
fn rest_after_class_is_returned() {
    assert_eq!(
        CharacterClass::try_parse("[a]bc"),
        Ok(Some((CharacterClass::Char('a'), "bc")))
    );
    assert_eq!(
        CharacterClass::try_parse("[é-ü]ß"),
        Ok(Some((CharacterClass::Range { start: 'é', end: 'ü' }, "ß")))
    );
}

#[test]
fn negation_in_the_middle_negates_the_rest() {
    assert_eq!(
        test_parse("[a^bc]").unwrap(),
        CharacterClass::Disjunction(vec![
            CharacterClass::Char('a'),
            CharacterClass::Negated(Box::new(CharacterClass::Disjunction(vec![
                CharacterClass::Char('b'),
                CharacterClass::Char('c'),
            ]))),
        ])
    );
}

#[test]
fn missing_closing_bracket_is_an_error() {
    assert_eq!(
        CharacterClass::try_parse("[ab"),
        Err(RegexError::MissingClosingBracket { position: 3 })
    );
    assert_eq!(
        CharacterClass::try_parse("[a-]"),
        Err(RegexError::MissingClosingBracket { position: 4 })
    );
}

#[test]
fn empty_brackets_are_an_error() {
    assert_eq!(
        CharacterClass::try_parse("[]"),
        Err(RegexError::EmptyBrackets { position: 1 })
    );
    assert_eq!(
        CharacterClass::try_parse("[^]"),
        Err(RegexError::EmptyBrackets { position: 2 })
    );
}

#[test]
fn clone_is_equal() {
    let class = test_parse("[a-z^0]").unwrap();
    assert_eq!(class.clone(), class);
}
