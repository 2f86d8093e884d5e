use regexlib::error::RegexError;
use regexlib::parser::character_class::CharacterClass;
use regexlib::parser::tokenizer::RegexToken;
use regexlib::parser::{ParseStage, PartiallyParsed, RegexEntry};
use regexlib::unicode::UnicodeCategory::{
    Control, DecimalNumber, EnclosingMark, Format, LetterNumber, LowercaseLetter, MathSymbol,
    ModifierLetter, NonspacingMark, OtherLetter, OtherNumber, PrivateUse, SpacingMark, Surrogate,
    TitlecaseLetter, Unassigned, UppercaseLetter,
};

#[test]
fn mod_test_grouping() {
    let grouped = RegexEntry::group(RegexEntry::lex("(.+(+.)){5}").unwrap());

    assert_eq!(
        grouped,
        vec![
            PartiallyParsed::Group(vec![
                PartiallyParsed::Lexed(RegexToken::AnyCharacter),
                PartiallyParsed::Lexed(RegexToken::Repetition {
                    min: Some(1),
                    max: None,
                }),
                PartiallyParsed::Group(vec![
                    PartiallyParsed::Lexed(RegexToken::Repetition {
                        min: Some(1),
                        max: None,
                    }),
                    PartiallyParsed::Lexed(RegexToken::AnyCharacter),
                ]),
            ]),
            PartiallyParsed::Lexed(RegexToken::Repetition {
                min: Some(5),
                max: Some(5),
            }),
        ]
    )
}

fn test_util_test_incremental_parser(
    to_lex: &str,
    incremental_parser: ParseStage,
    expected: &Vec<PartiallyParsed>,
) {
    let lexed = RegexEntry::lex(to_lex).expect("Lexing failed");
    let grouped = RegexEntry::group(lexed);
    let parsed = RegexEntry::parse_for_all_groups_recursively(grouped, incremental_parser)
        .expect("Recursive parsing failed");
    assert_eq!(&parsed, expected);
}

#[test]
fn mod_test_repetitions() {
    test_util_test_incremental_parser(
        "(.(.)){5,6}",
        ParseStage::Repetitions,
        &vec![PartiallyParsed::Repetition {
            base: Box::new(PartiallyParsed::Group(vec![
                PartiallyParsed::Lexed(RegexToken::AnyCharacter),
                PartiallyParsed::Group(vec![PartiallyParsed::Lexed(RegexToken::AnyCharacter)]),
            ])),
            min: Some(5),
            max: Some(6),
        }],
    );
}

#[test]
fn mod_test_nested_repetitions() {
    test_util_test_incremental_parser(
        "(.(.){7,8}[A]{4,}){5,6}",
        ParseStage::Repetitions,
        &vec![PartiallyParsed::Repetition {
            base: Box::new(PartiallyParsed::Group(vec![
                PartiallyParsed::Lexed(RegexToken::AnyCharacter),
                PartiallyParsed::Repetition {
                    base: Box::new(PartiallyParsed::Group(vec![PartiallyParsed::Lexed(
                        RegexToken::AnyCharacter,
                    )])),
                    min: Some(7),
                    max: Some(8),
                },
                PartiallyParsed::Repetition {
                    base: Box::new(PartiallyParsed::Lexed(
                        RegexToken::NonUnicodeCharacterClass(CharacterClass::Char('A')),
                    )),
                    min: Some(4),
                    max: None,
                },
            ])),
            min: Some(5),
            max: Some(6),
        }],
    );
}

#[test]
fn mod_test_alternations_basic() {
    test_util_test_incremental_parser(
        ".|+",
        ParseStage::Alternations,
        &vec![PartiallyParsed::Alternation(vec![
            PartiallyParsed::Lexed(RegexToken::AnyCharacter),
            PartiallyParsed::Lexed(RegexToken::Repetition {
                min: Some(1),
                max: None,
            }),
        ])],
    );
}

#[test]
fn mod_test_alternations_nested() {
    test_util_test_incremental_parser(
        ".|+|*",
        ParseStage::Alternations,
        &vec![PartiallyParsed::Alternation(vec![
            PartiallyParsed::Lexed(RegexToken::AnyCharacter),
            PartiallyParsed::Lexed(RegexToken::Repetition {
                min: Some(1),
                max: None,
            }),
            PartiallyParsed::Lexed(RegexToken::Repetition {
                min: Some(0),
                max: None,
            }),
        ])],
    );
}

#[test]
fn mod_test_alternations_nested_recursive() {
    test_util_test_incremental_parser(
        "(.|+|*)|(.)",
        ParseStage::Alternations,
        &vec![PartiallyParsed::Alternation(vec![
            PartiallyParsed::Group(vec![PartiallyParsed::Alternation(vec![
                PartiallyParsed::Lexed(RegexToken::AnyCharacter),
                PartiallyParsed::Lexed(RegexToken::Repetition {
                    min: Some(1),
                    max: None,
                }),
                PartiallyParsed::Lexed(RegexToken::Repetition {
                    min: Some(0),
                    max: None,
                }),
            ])]),
            PartiallyParsed::Group(vec![PartiallyParsed::Lexed(RegexToken::AnyCharacter)]),
        ])],
    );
}

fn test_full_parse(to_parse: &str, expected: RegexEntry) {
    let parsed = RegexEntry::parse(to_parse).unwrap();
    println!("{:#?}", parsed);
    assert_eq!(parsed, expected);
}

#[test]
fn test_simple_parse() {
    test_full_parse(
        ".+",
        RegexEntry::Repetition {
            min: Some(1),
            max: None,
            base: Box::new(RegexEntry::AnyCharacter),
        },
    );
}

#[test]
fn test_complex_parse_1() {
    test_full_parse(
        r#"((\d\PL)*){1,3}"#,
        RegexEntry::Repetition {
            base: Box::new(RegexEntry::Repetition {
                base: Box::new(RegexEntry::Concatenation(vec![
                    RegexEntry::UnicodeCharacterClass(vec![
                        DecimalNumber,
                        OtherNumber,
                        LetterNumber,
                    ]),
                    RegexEntry::NegatedUnicodeCharacterClass(vec![
                        UppercaseLetter,
                        LowercaseLetter,
                        TitlecaseLetter,
                        ModifierLetter,
                        OtherLetter,
                    ]),
                ])),
                min: Some(0),
                max: None,
            }),
            min: Some(1),
            max: Some(3),
        },
    );
}

#[test]
fn test_complex_parse_2() {
    test_full_parse(
        r#"([A-Z]+[0-9]*)|(\d+)"#,
        RegexEntry::Alternation(vec![
            RegexEntry::Concatenation(vec![
                RegexEntry::Repetition {
                    base: Box::new(RegexEntry::NonUnicodeCharacterClass(CharacterClass::Range {
                        start: 'A',
                        end: 'Z',
                    })),
                    min: Some(1),
                    max: None,
                },
                RegexEntry::Repetition {
                    base: Box::new(RegexEntry::NonUnicodeCharacterClass(CharacterClass::Range {
                        start: '0',
                        end: '9',
                    })),
                    min: Some(0),
                    max: None,
                },
            ]),
            RegexEntry::Repetition {
                base: Box::new(RegexEntry::UnicodeCharacterClass(vec![
                    DecimalNumber,
                    OtherNumber,
                    LetterNumber,
                ])),
                min: Some(1),
                max: None,
            },
        ]),
    );
}

fn letters_and_dot() -> RegexEntry {
    RegexEntry::NonUnicodeCharacterClass(CharacterClass::Disjunction(vec![
        CharacterClass::Range {
            start: 'A',
            end: 'Z',
        },
        CharacterClass::Range {
            start: 'a',
            end: 'z',
        },
        CharacterClass::Char('.'),
    ]))
}

#[test]
fn test_url() {
    test_full_parse(
        r#"https?://([A-Za-z.]+/)*([A-Za-z.]+)?"#,
        RegexEntry::Concatenation(vec![
            RegexEntry::Literal('h'),
            RegexEntry::Literal('t'),
            RegexEntry::Literal('t'),
            RegexEntry::Literal('p'),
            RegexEntry::Repetition {
                base: Box::new(RegexEntry::Literal('s')),
                min: Some(0),
                max: Some(1),
            },
            RegexEntry::Literal(':'),
            RegexEntry::Literal('/'),
            RegexEntry::Literal('/'),
            RegexEntry::Repetition {
                base: Box::new(RegexEntry::Concatenation(vec![
                    RegexEntry::Repetition {
                        base: Box::new(letters_and_dot()),
                        min: Some(1),
                        max: None,
                    },
                    RegexEntry::Literal('/'),
                ])),
                min: Some(0),
                max: None,
            },
            RegexEntry::Repetition {
                base: Box::new(RegexEntry::Repetition {
                    base: Box::new(letters_and_dot()),
                    min: Some(1),
                    max: None,
                }),
                min: Some(0),
                max: Some(1),
            },
        ]),
    );
}

#[test]
fn test_parse() {
    test_full_parse(
        r#".\d\D\pL\pM\pC\p{Lu}\p{Math_Symbol}\PL\PM\PC\P{Lu}\P{Math_Symbol}"#,
        RegexEntry::Concatenation(vec![
            RegexEntry::AnyCharacter,
            RegexEntry::UnicodeCharacterClass(vec![DecimalNumber, OtherNumber, LetterNumber]),
            RegexEntry::NegatedUnicodeCharacterClass(vec![
                DecimalNumber,
                OtherNumber,
                LetterNumber,
            ]),
            RegexEntry::UnicodeCharacterClass(vec![
                UppercaseLetter,
                LowercaseLetter,
                TitlecaseLetter,
                ModifierLetter,
                OtherLetter,
            ]),
            RegexEntry::UnicodeCharacterClass(vec![NonspacingMark, SpacingMark, EnclosingMark]),
            RegexEntry::UnicodeCharacterClass(vec![
                Control, Format, Surrogate, PrivateUse, Unassigned,
            ]),
            RegexEntry::UnicodeCharacterClass(vec![UppercaseLetter]),
            RegexEntry::UnicodeCharacterClass(vec![MathSymbol]),
            RegexEntry::NegatedUnicodeCharacterClass(vec![
                UppercaseLetter,
                LowercaseLetter,
                TitlecaseLetter,
                ModifierLetter,
                OtherLetter,
            ]),
            RegexEntry::NegatedUnicodeCharacterClass(vec![
                NonspacingMark,
                SpacingMark,
                EnclosingMark,
            ]),
            RegexEntry::NegatedUnicodeCharacterClass(vec![
                Control, Format, Surrogate, PrivateUse, Unassigned,
            ]),
            RegexEntry::NegatedUnicodeCharacterClass(vec![UppercaseLetter]),
            RegexEntry::NegatedUnicodeCharacterClass(vec![MathSymbol]),
        ]),
    );
}

#[test]
fn empty_pattern_is_empty_concatenation() {
    test_full_parse("", RegexEntry::Concatenation(vec![]));
    test_full_parse("()", RegexEntry::Concatenation(vec![]));
}

#[test]
fn unclosed_group_is_closed_by_the_end() {
    test_full_parse(
        "a(bc",
        RegexEntry::Concatenation(vec![
            RegexEntry::Literal('a'),
            RegexEntry::Concatenation(vec![RegexEntry::Literal('b'), RegexEntry::Literal('c')]),
        ]),
    );
}

#[test]
fn alternation_takes_its_two_neighbours() {
    test_full_parse(
        "a|bc",
        RegexEntry::Concatenation(vec![
            RegexEntry::Alternation(vec![RegexEntry::Literal('a'), RegexEntry::Literal('b')]),
            RegexEntry::Literal('c'),
        ]),
    );
    test_full_parse(
        "a|b|c",
        RegexEntry::Alternation(vec![
            RegexEntry::Literal('a'),
            RegexEntry::Literal('b'),
            RegexEntry::Literal('c'),
        ]),
    );
}

#[test]
fn structural_errors() {
    assert_eq!(RegexEntry::parse("*a"), Err(RegexError::RepetitionWithoutBase));
    assert_eq!(RegexEntry::parse("a**"), Err(RegexError::RepetitionWithoutBase));
    assert_eq!(RegexEntry::parse("(+a)"), Err(RegexError::RepetitionWithoutBase));
    assert_eq!(
        RegexEntry::parse("|a"),
        Err(RegexError::AlternationWithoutPreceding)
    );
    assert_eq!(
        RegexEntry::parse("a|"),
        Err(RegexError::AlternationWithoutSucceeding)
    );
    assert_eq!(
        RegexEntry::parse("a(b|)"),
        Err(RegexError::AlternationWithoutSucceeding)
    );
    assert_eq!(
        RegexEntry::parse("a||b"),
        Err(RegexError::AlternationWithoutSucceeding)
    );
    assert_eq!(RegexEntry::parse("a|*"), Err(RegexError::UnexpectedToken));
}

#[test]
fn single_members_collapse() {
    test_full_parse("((a))", RegexEntry::Literal('a'));
    test_full_parse(
        "((a))*",
        RegexEntry::Repetition {
            base: Box::new(RegexEntry::Literal('a')),
            min: Some(0),
            max: None,
        },
    );
    let nested = RegexEntry::Concatenation(vec![RegexEntry::Alternation(vec![
        RegexEntry::Concatenation(vec![RegexEntry::AnyCharacter, RegexEntry::Literal('x')]),
    ])]);
    assert_eq!(
        RegexEntry::simplify_ast(&nested),
        RegexEntry::Concatenation(vec![RegexEntry::AnyCharacter, RegexEntry::Literal('x')])
    );
}

#[test]
fn unmatched_closing_parenthesis_ends_the_pattern() {
    test_full_parse("a)b", RegexEntry::Literal('a'));
    test_full_parse(
        "(a)b)c",
        RegexEntry::Concatenation(vec![RegexEntry::Literal('a'), RegexEntry::Literal('b')]),
    );
}

#[test]
fn stages_on_their_own() {
    let lexed = RegexEntry::lex("a|b*").unwrap();
    assert_eq!(
        lexed,
        vec![
            PartiallyParsed::Lexed(RegexToken::Literal('a')),
            PartiallyParsed::Lexed(RegexToken::Alternation),
            PartiallyParsed::Lexed(RegexToken::Literal('b')),
            PartiallyParsed::Lexed(RegexToken::Repetition {
                min: Some(0),
                max: None
            }),
        ]
    );
    let repetitions = RegexEntry::parse_repetitions(lexed).unwrap();
    assert_eq!(
        repetitions,
        vec![
            PartiallyParsed::Lexed(RegexToken::Literal('a')),
            PartiallyParsed::Lexed(RegexToken::Alternation),
            PartiallyParsed::Repetition {
                base: Box::new(PartiallyParsed::Lexed(RegexToken::Literal('b'))),
                min: Some(0),
                max: None
            },
        ]
    );
    let alternations = RegexEntry::parse_alternation(repetitions).unwrap();
    assert_eq!(alternations.len(), 1);
    assert_eq!(alternations[0].duplicate(), alternations[0]);
    let finished = RegexEntry::finish_parsing(alternations).unwrap();
    assert_eq!(
        finished,
        RegexEntry::Concatenation(vec![RegexEntry::Alternation(vec![
            RegexEntry::Literal('a'),
            RegexEntry::Repetition {
                base: Box::new(RegexEntry::Literal('b')),
                min: Some(0),
                max: None
            },
        ])])
    );
    assert_eq!(
        RegexEntry::finish_parsing(vec![PartiallyParsed::Lexed(RegexToken::OpenGroup)]),
        Err(RegexError::UnexpectedToken)
    );
}
