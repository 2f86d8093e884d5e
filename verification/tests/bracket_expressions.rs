use regexlib::parser::character_class::CharacterClass;

fn parsed_whole(remaining: &str) -> Option<CharacterClass> {
    match CharacterClass::try_parse(remaining) {
        Ok(Some((parsed, remaining))) => {
            assert_eq!(remaining.len(), 0);
            Some(parsed)
        }
        _ => None,
    }
}

#[test]
fn test_single_char() {
    assert_eq!(parsed_whole("[a]").unwrap(), CharacterClass::Char('a'));
}

#[test]
fn test_multi_char() {
    assert_eq!(
        parsed_whole("[xyz]").unwrap(),
        CharacterClass::Disjunction(vec![
            CharacterClass::Char('x'),
            CharacterClass::Char('y'),
            CharacterClass::Char('z'),
        ])
    );
}

#[test]
fn test_negated_single_char() {
    assert_eq!(
        parsed_whole("[^a]").unwrap(),
        CharacterClass::Negated(Box::new(CharacterClass::Char('a')))
    );
}

#[test]
fn test_negated_multi_char() {
    assert_eq!(
        parsed_whole("[^xyz]").unwrap(),
        CharacterClass::Negated(Box::new(CharacterClass::Disjunction(vec![
            CharacterClass::Char('x'),
            CharacterClass::Char('y'),
            CharacterClass::Char('z'),
        ])))
    );
}

#[test]
fn test_range() {
    assert_eq!(
        parsed_whole("[a-z]").unwrap(),
        CharacterClass::Range {
            start: 'a',
            end: 'z',
        }
    );
}

#[test]
fn test_double_range() {
    assert_eq!(
        parsed_whole("[a-z0-9]").unwrap(),
        CharacterClass::Disjunction(vec![
            CharacterClass::Range {
                start: 'a',
                end: 'z',
            },
            CharacterClass::Range {
                start: '0',
                end: '9',
            },
        ])
    );
}

#[test]
fn test_negated_range() {
    assert_eq!(
        parsed_whole("[^a-z]").unwrap(),
        CharacterClass::Negated(Box::new(CharacterClass::Range {
            start: 'a',
            end: 'z',
        }))
    );
}

#[test]
fn classes_hold_their_scalars() {
    let class = parsed_whole("[a-cx^0-9_]").unwrap();
    assert!(class.matches('a'));
    assert!(class.matches('b'));
    assert!(class.matches('c'));
    assert!(class.matches('x'));
    assert!(class.matches('y'));
    assert!(!class.matches('5'));
    assert!(!class.matches('_'));
    assert!(class.same(&class.duplicate()));
    assert!(!class.same(&CharacterClass::Char('a')));
}
