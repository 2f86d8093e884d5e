use regexlib::parser::tokenizer::{find_scalar, parse_decimal};
use regexlib::text::{append_decimal, char_at, numbered, same_text, scalars};
use regexlib::unicode::{
    categories_accept_char, categories_hold_name, contains_category, copy_categories,
    same_categories, UnicodeCategory,
};

#[test]
fn scalars_of_a_text() {
    assert_eq!(scalars(""), Vec::<char>::new());
    assert_eq!(scalars("aé漢😀"), vec!['a', 'é', '漢', '😀']);
    assert_eq!(char_at(&scalars("aé漢"), 2), '漢');
}

#[test]
fn comparison_with_a_literal() {
    let chars = scalars("x{Lu}y");
    assert!(same_text(&chars, 2, 4, "Lu"));
    assert!(!same_text(&chars, 2, 4, "Ll"));
    assert!(!same_text(&chars, 2, 5, "Lu"));
    assert!(same_text(&chars, 3, 3, ""));
    assert!(!same_text(&chars, 2, 4, ""));
}

#[test]
fn numbers_in_decimal_digits() {
    assert_eq!(numbered("State", 0), "State0");
    assert_eq!(numbered("State", 7), "State7");
    assert_eq!(numbered("State", 10), "State10");
    assert_eq!(numbered("", 1234567890), "1234567890");
    let mut text = String::from("n=");
    append_decimal(&mut text, 905);
    assert_eq!(text, "n=905");
    assert_eq!(
        numbered("", usize::MAX),
        format!("{}", usize::MAX)
    );
}

#[test]
fn decimal_digits_are_read_back() {
    let digits = scalars("a0123b");
    assert_eq!(parse_decimal(&digits, 1, 5), Some(123));
    assert_eq!(parse_decimal(&digits, 1, 1), Some(0));
    assert_eq!(parse_decimal(&digits, 0, 3), None);
    assert_eq!(parse_decimal(&digits, 1, 6), None);
    let large = scalars("18446744073709551615");
    assert_eq!(parse_decimal(&large, 0, 20), Some(u64::MAX));
    let too_large = scalars("18446744073709551616");
    assert_eq!(parse_decimal(&too_large, 0, 20), None);
    let longer = scalars("184467440737095516150");
    assert_eq!(parse_decimal(&longer, 0, 21), None);
    assert_eq!(parse_decimal(&scalars("+5"), 0, 2), None);
}

#[test]
fn first_occurrence_is_found() {
    let chars = scalars("a,b,c}");
    assert_eq!(find_scalar(&chars, 0, ','), 1);
    assert_eq!(find_scalar(&chars, 2, ','), 3);
    assert_eq!(find_scalar(&chars, 4, ','), 6);
    assert_eq!(find_scalar(&chars, 0, '}'), 5);
    assert_eq!(find_scalar(&chars, 6, '}'), 6);
}

#[test]
fn names_of_categories() {
    let names = scalars("Lu Uppercase_Letter Cn Unassigned lu L");
    assert_eq!(
        UnicodeCategory::named(&names, 0, 2),
        Some(UnicodeCategory::UppercaseLetter)
    );
    assert_eq!(
        UnicodeCategory::named(&names, 3, 19),
        Some(UnicodeCategory::UppercaseLetter)
    );
    assert_eq!(
        UnicodeCategory::named(&names, 20, 22),
        Some(UnicodeCategory::Unassigned)
    );
    assert_eq!(
        UnicodeCategory::named(&names, 23, 33),
        Some(UnicodeCategory::Unassigned)
    );
    assert_eq!(UnicodeCategory::named(&names, 34, 36), None);
    assert_eq!(UnicodeCategory::named(&names, 37, 38), None);
    assert_eq!(
        UnicodeCategory::group_or_named(&names, 37, 38),
        UnicodeCategory::group('L')
    );
    assert_eq!(
        UnicodeCategory::group_or_named(&names, 0, 2),
        Some(vec![UnicodeCategory::UppercaseLetter])
    );
    assert_eq!(UnicodeCategory::group_or_named(&names, 34, 36), None);
}

#[test]
fn groups_of_categories() {
    assert_eq!(
        UnicodeCategory::group('N'),
        Some(vec![
            UnicodeCategory::DecimalNumber,
            UnicodeCategory::LetterNumber,
            UnicodeCategory::OtherNumber,
        ])
    );
    assert_eq!(
        UnicodeCategory::group('P'),
        Some(vec![
            UnicodeCategory::ConnectorPunctuation,
            UnicodeCategory::DashPunctuation,
            UnicodeCategory::OpenPunctuation,
            UnicodeCategory::ClosePunctuation,
            UnicodeCategory::InitialPunctuation,
            UnicodeCategory::FinalPunctuation,
            UnicodeCategory::OtherPunctuation,
        ])
    );
    assert_eq!(UnicodeCategory::group('S').unwrap().len(), 4);
    assert_eq!(UnicodeCategory::group('Z').unwrap().len(), 3);
    assert_eq!(UnicodeCategory::group('M').unwrap().len(), 3);
    assert_eq!(UnicodeCategory::group('C').unwrap().len(), 5);
    assert_eq!(UnicodeCategory::group('X'), None);
    assert_eq!(UnicodeCategory::group('l'), None);
    assert_eq!(
        UnicodeCategory::digits(),
        vec![
            UnicodeCategory::DecimalNumber,
            UnicodeCategory::OtherNumber,
            UnicodeCategory::LetterNumber,
        ]
    );
}

#[test]
fn categories_of_scalars() {
    let letters = UnicodeCategory::group('L').unwrap();
    assert!(categories_accept_char(&letters, 'a'));
    assert!(categories_accept_char(&letters, 'Ω'));
    assert!(!categories_accept_char(&letters, '1'));
    assert!(!categories_accept_char(&vec![], 'a'));
    assert!(categories_hold_name(&letters, "Lu"));
    assert!(categories_hold_name(&letters, "Lowercase_Letter"));
    assert!(!categories_hold_name(&letters, "Nd"));
    assert!(!categories_hold_name(&letters, "nothing"));
    assert!(contains_category(&letters, UnicodeCategory::OtherLetter));
    assert!(!contains_category(&letters, UnicodeCategory::Control));
    assert_eq!(copy_categories(&letters), letters);
    assert!(same_categories(&letters, &copy_categories(&letters)));
    assert!(!same_categories(&letters, &UnicodeCategory::digits()));
    assert_eq!(UnicodeCategory::of('\u{0}'), Some(UnicodeCategory::Control));
    assert_eq!(UnicodeCategory::of('€'), Some(UnicodeCategory::CurrencySymbol));
    assert_eq!(UnicodeCategory::of('\u{e000}'), Some(UnicodeCategory::PrivateUse));
}
