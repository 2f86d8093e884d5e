use regexlib::error::RegexError;
use regexlib::parser::character_class::CharacterClass;
use regexlib::parser::tokenizer::RegexToken;
use regexlib::unicode::UnicodeCategory::{
    Control, DecimalNumber, EnclosingMark, Format, LetterNumber, LowercaseLetter, MathSymbol,
    ModifierLetter, NonspacingMark, OtherLetter, OtherNumber, PrivateUse, SpacingMark, Surrogate,
    TitlecaseLetter, Unassigned, UppercaseLetter,
};

fn assert_equal(regex: &str, expected: Vec<RegexToken>) {
    let parsed = match RegexToken::parse(regex) {
        Ok(parsed) => parsed,
        Err(error) => {
            panic!(
                "Parsing failed for regex \"{}\" with error: {}",
                regex,
                error.message()
            );
        }
    };

    if parsed != expected {
        panic!("Parsed {:#?} but expected {:#?}", parsed, expected);
    }
}

#[test]
fn test_tokenize() {
    assert_equal(
        r#"(.+*?|)\d\D\pL\pM\pC\p{Lu}\p{Math_Symbol}\PL\PM\PC\P{Lu}\P{Math_Symbol}[a][xyz][^a][^xyz][a-z][^a-z]{55}{50,}{,51}{52,53}"#,
        vec![
            RegexToken::OpenGroup,
            RegexToken::AnyCharacter,
            RegexToken::Repetition {
                min: Some(1),
                max: None,
            },
            RegexToken::Repetition {
                min: Some(0),
                max: None,
            },
            RegexToken::Repetition {
                min: Some(0),
                max: Some(1),
            },
            RegexToken::Alternation,
            RegexToken::CloseGroup,
            RegexToken::UnicodeCharacterClass(vec![DecimalNumber, OtherNumber, LetterNumber]),
            RegexToken::NegatedUnicodeCharacterClass(vec![
                DecimalNumber,
                OtherNumber,
                LetterNumber,
            ]),
            RegexToken::UnicodeCharacterClass(vec![
                UppercaseLetter,
                LowercaseLetter,
                TitlecaseLetter,
                ModifierLetter,
                OtherLetter,
            ]),
            RegexToken::UnicodeCharacterClass(vec![NonspacingMark, SpacingMark, EnclosingMark]),
            RegexToken::UnicodeCharacterClass(vec![
                Control, Format, Surrogate, PrivateUse, Unassigned,
            ]),
            RegexToken::UnicodeCharacterClass(vec![UppercaseLetter]),
            RegexToken::UnicodeCharacterClass(vec![MathSymbol]),
            RegexToken::NegatedUnicodeCharacterClass(vec![
                UppercaseLetter,
                LowercaseLetter,
                TitlecaseLetter,
                ModifierLetter,
                OtherLetter,
            ]),
            RegexToken::NegatedUnicodeCharacterClass(vec![
                NonspacingMark,
                SpacingMark,
                EnclosingMark,
            ]),
            RegexToken::NegatedUnicodeCharacterClass(vec![
                Control, Format, Surrogate, PrivateUse, Unassigned,
            ]),
            RegexToken::NegatedUnicodeCharacterClass(vec![UppercaseLetter]),
            RegexToken::NegatedUnicodeCharacterClass(vec![MathSymbol]),
            RegexToken::NonUnicodeCharacterClass(CharacterClass::Char('a')),
            RegexToken::NonUnicodeCharacterClass(CharacterClass::Disjunction(vec![
                CharacterClass::Char('x'),
                CharacterClass::Char('y'),
                CharacterClass::Char('z'),
            ])),
            RegexToken::NonUnicodeCharacterClass(CharacterClass::Negated(Box::new(
                CharacterClass::Char('a'),
            ))),
            RegexToken::NonUnicodeCharacterClass(CharacterClass::Negated(Box::new(
                CharacterClass::Disjunction(vec![
                    CharacterClass::Char('x'),
                    CharacterClass::Char('y'),
                    CharacterClass::Char('z'),
                ]),
            ))),
            RegexToken::NonUnicodeCharacterClass(CharacterClass::Range {
                start: 'a',
                end: 'z',
            }),
            RegexToken::NonUnicodeCharacterClass(CharacterClass::Negated(Box::new(
                CharacterClass::Range {
                    start: 'a',
                    end: 'z',
                },
            ))),
            RegexToken::Repetition {
                min: Some(55),
                max: Some(55),
            },
            RegexToken::Repetition {
                min: Some(50),
                max: None,
            },
            RegexToken::Repetition {
                min: None,
                max: Some(51),
            },
            RegexToken::Repetition {
                min: Some(52),
                max: Some(53),
            },
        ],
    );
}

#[test]
fn literals_are_tokens() {
    assert_equal(
        "a:/é",
        vec![
            RegexToken::Literal('a'),
            RegexToken::Literal(':'),
            RegexToken::Literal('/'),
            RegexToken::Literal('é'),
        ],
    );
}

#[test]
fn empty_pattern_has_no_tokens() {
    assert_equal("", vec![]);
}

#[test]
fn braces_win_over_one_letter_class() {
    assert_equal(r"\p{L}", vec![RegexToken::UnicodeCharacterClass(vec![
        UppercaseLetter,
        LowercaseLetter,
        TitlecaseLetter,
        ModifierLetter,
        OtherLetter,
    ])]);
    assert_eq!(
        RegexToken::parse(r"\p{Lx}"),
        Err(RegexError::UnknownClassName { position: 0 })
    );
}

#[test]
fn tokenization_errors() {
    assert_eq!(
        RegexToken::parse(r"a\p{Lu"),
        Err(RegexError::UnterminatedClassName { position: 1 })
    );
    assert_eq!(
        RegexToken::parse(r"\pX"),
        Err(RegexError::UnknownClassName { position: 0 })
    );
    assert_eq!(
        RegexToken::parse("a{1"),
        Err(RegexError::UnterminatedRepetition { position: 1 })
    );
    assert_eq!(
        RegexToken::parse("a{1,2,3}"),
        Err(RegexError::TooManyCommas { position: 1 })
    );
    assert_eq!(
        RegexToken::parse("a{x}"),
        Err(RegexError::InvalidRepetitionBound { position: 1 })
    );
    assert_eq!(
        RegexToken::parse("a{}"),
        Err(RegexError::InvalidRepetitionBound { position: 1 })
    );
    assert_eq!(
        RegexToken::parse("a{1,y}"),
        Err(RegexError::InvalidRepetitionBound { position: 1 })
    );
    assert_eq!(
        RegexToken::parse("a{18446744073709551616}"),
        Err(RegexError::InvalidRepetitionBound { position: 1 })
    );
    assert_eq!(
        RegexToken::parse("ab]"),
        Err(RegexError::NoTokenMatched { position: 2 })
    );
    assert_eq!(
        RegexToken::parse(r"\q"),
        Err(RegexError::NoTokenMatched { position: 0 })
    );
    assert_eq!(
        RegexToken::parse("x[ab"),
        Err(RegexError::MissingClosingBracket { position: 4 })
    );
}

#[test]
fn largest_bound_is_read() {
    assert_equal(
        "{18446744073709551615,}{,}{007}",
        vec![
            RegexToken::Repetition {
                min: Some(18446744073709551615),
                max: None,
            },
            RegexToken::Repetition {
                min: None,
                max: None,
            },
            RegexToken::Repetition {
                min: Some(7),
                max: Some(7),
            },
        ],
    );
}

#[test]
fn every_error_has_a_message() {
    let errors = vec![
        RegexError::NoTokenMatched { position: 1 },
        RegexError::UnterminatedRepetition { position: 1 },
        RegexError::TooManyCommas { position: 1 },
        RegexError::InvalidRepetitionBound { position: 1 },
        RegexError::UnterminatedClassName { position: 1 },
        RegexError::UnknownClassName { position: 1 },
        RegexError::MissingClosingBracket { position: 1 },
        RegexError::EmptyBrackets { position: 1 },
    ];
    for error in errors {
        assert!(!error.message().is_empty());
        assert_eq!(error.position(), Some(1));
    }
    assert_eq!(RegexError::RepetitionWithoutBase.position(), None);
    assert_eq!(
        RegexError::AlternationWithoutPreceding.message(),
        "found alternation token without preceding item"
    );
    let unknown = RegexError::UnknownClassName { position: 0 }.message();
    for name in ["Lu", "Uppercase_Letter", "Cn", "Unassigned", "Sm", "Math_Symbol", "Z"] {
        assert!(unknown.contains(name));
    }
    assert!(!RegexError::AlternationWithoutSucceeding.message().is_empty());
    assert!(!RegexError::UnexpectedToken.message().is_empty());
    assert!(!RegexError::RepetitionWithoutBase.message().is_empty());
}
